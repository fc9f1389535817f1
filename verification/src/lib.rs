//! Core of a single-country geosearch engine.
use vstd::prelude::*;

pub mod api;
pub mod api_laws;
pub mod backend;
pub mod bytes;
pub mod config;
pub mod config_laws;
pub mod csv;
pub mod csv_laws;
pub mod decimal;
pub mod document;
pub mod document_laws;
pub mod flags;
pub mod float;
pub mod grid;
pub mod http;
pub mod http_laws;
pub mod index_file;
pub mod ingest;
pub mod ingest_laws;
pub mod local;
pub mod local_laws;
pub mod offsets;
pub mod ordered;
pub mod postings;
pub mod query;
pub mod reading_laws;
pub mod record;
pub mod record_laws;
pub mod reindex_laws;
pub mod search;
pub mod search_laws;
pub mod terms;
pub mod text;
pub mod text_laws;
pub mod view_laws;

verus! {
}
