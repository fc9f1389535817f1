//! The interface of search backends, and the adapters that only record their endpoint so far.
use vstd::prelude::*;

use crate::document::GeoDocument;
use crate::query::{AutocompleteQuery, ForwardQuery, ReverseQuery, SchemaDefinition, SearchHit};

verus! {

/// What went wrong in a backend.
#[derive(Clone, Debug, Eq, PartialEq)]
pub struct BackendError {
    message: String,
}

impl View for BackendError {
    type V = Seq<char>;

    closed spec fn view(&self) -> Seq<char> {
        self.message@
    }
}

impl BackendError {
    pub fn new(message: &str) -> (result: Self)
        ensures
            result@ == message@,
    {
        BackendError { message: message.to_owned() }
    }

    pub fn message(&self) -> (result: &str)
        ensures
            result@ == self@,
    {
        self.message.as_str()
    }

    /// The error as text, which is its message.
    pub fn to_string(&self) -> (result: String)
        ensures
            result@ == self@,
    {
        self.message.clone()
    }
}

/// A store of documents that answers geographic searches.
pub trait SearchBackend {
    fn name(&self) -> &'static str;

    fn create_schema(&self, schema: &SchemaDefinition) -> Result<(), BackendError>;

    fn bulk_index(&self, docs: &[GeoDocument]) -> Result<(), BackendError>;

    fn forward(&self, query: &ForwardQuery) -> Result<Vec<SearchHit>, BackendError>;

    fn autocomplete(&self, query: &AutocompleteQuery) -> Result<Vec<SearchHit>, BackendError>;

    fn reverse(&self, query: &ReverseQuery) -> Result<Vec<SearchHit>, BackendError>;
}

/// Manticore Search adapter: it records the target endpoint but does not issue network requests
/// yet.
#[derive(Clone, Debug, Eq, PartialEq)]
pub struct ManticoreBackend {
    endpoint: String,
}

impl View for ManticoreBackend {
    type V = Seq<char>;

    closed spec fn view(&self) -> Seq<char> {
        self.endpoint@
    }
}

impl ManticoreBackend {
    pub fn new(endpoint: &str) -> (result: Self)
        ensures
            result@ == endpoint@,
    {
        ManticoreBackend { endpoint: endpoint.to_owned() }
    }

    pub fn endpoint(&self) -> (result: &str)
        ensures
            result@ == self@,
    {
        self.endpoint.as_str()
    }
}

impl SearchBackend for ManticoreBackend {
    fn name(&self) -> (result: &'static str)
        ensures
            result@ == "manticore"@,
    {
        "manticore"
    }

    fn create_schema(&self, schema: &SchemaDefinition) -> (result: Result<(), BackendError>)
        ensures
            result matches Err(error) && error@
                == "Manticore schema creation is not implemented yet"@,
    {
        Err(BackendError::new("Manticore schema creation is not implemented yet"))
    }

    fn bulk_index(&self, docs: &[GeoDocument]) -> (result: Result<(), BackendError>)
        ensures
            result matches Err(error) && error@
                == "Manticore bulk indexing is not implemented yet"@,
    {
        Err(BackendError::new("Manticore bulk indexing is not implemented yet"))
    }

    fn forward(&self, query: &ForwardQuery) -> (result: Result<Vec<SearchHit>, BackendError>)
        ensures
            result matches Err(error) && error@
                == "Manticore forward search is not implemented yet"@,
    {
        Err(BackendError::new("Manticore forward search is not implemented yet"))
    }

    fn autocomplete(&self, query: &AutocompleteQuery) -> (result: Result<
        Vec<SearchHit>,
        BackendError,
    >)
        ensures
            result matches Err(error) && error@
                == "Manticore autocomplete is not implemented yet"@,
    {
        Err(BackendError::new("Manticore autocomplete is not implemented yet"))
    }

    fn reverse(&self, query: &ReverseQuery) -> (result: Result<Vec<SearchHit>, BackendError>)
        ensures
            result matches Err(error) && error@
                == "Manticore reverse search is not implemented yet"@,
    {
        Err(BackendError::new("Manticore reverse search is not implemented yet"))
    }
}

/// Elasticsearch adapter: it records the target endpoint but does not issue network requests yet.
#[derive(Clone, Debug, Eq, PartialEq)]
pub struct ElasticsearchBackend {
    endpoint: String,
}

impl View for ElasticsearchBackend {
    type V = Seq<char>;

    closed spec fn view(&self) -> Seq<char> {
        self.endpoint@
    }
}

impl ElasticsearchBackend {
    pub fn new(endpoint: &str) -> (result: Self)
        ensures
            result@ == endpoint@,
    {
        ElasticsearchBackend { endpoint: endpoint.to_owned() }
    }

    pub fn endpoint(&self) -> (result: &str)
        ensures
            result@ == self@,
    {
        self.endpoint.as_str()
    }
}

impl SearchBackend for ElasticsearchBackend {
    fn name(&self) -> (result: &'static str)
        ensures
            result@ == "elasticsearch"@,
    {
        "elasticsearch"
    }

    fn create_schema(&self, schema: &SchemaDefinition) -> (result: Result<(), BackendError>)
        ensures
            result matches Err(error) && error@
                == "Elasticsearch schema creation is not implemented yet"@,
    {
        Err(BackendError::new("Elasticsearch schema creation is not implemented yet"))
    }

    fn bulk_index(&self, docs: &[GeoDocument]) -> (result: Result<(), BackendError>)
        ensures
            result matches Err(error) && error@
                == "Elasticsearch bulk indexing is not implemented yet"@,
    {
        Err(BackendError::new("Elasticsearch bulk indexing is not implemented yet"))
    }

    fn forward(&self, query: &ForwardQuery) -> (result: Result<Vec<SearchHit>, BackendError>)
        ensures
            result matches Err(error) && error@
                == "Elasticsearch forward search is not implemented yet"@,
    {
        Err(BackendError::new("Elasticsearch forward search is not implemented yet"))
    }

    fn autocomplete(&self, query: &AutocompleteQuery) -> (result: Result<
        Vec<SearchHit>,
        BackendError,
    >)
        ensures
            result matches Err(error) && error@
                == "Elasticsearch autocomplete is not implemented yet"@,
    {
        Err(BackendError::new("Elasticsearch autocomplete is not implemented yet"))
    }

    fn reverse(&self, query: &ReverseQuery) -> (result: Result<Vec<SearchHit>, BackendError>)
        ensures
            result matches Err(error) && error@
                == "Elasticsearch reverse search is not implemented yet"@,
    {
        Err(BackendError::new("Elasticsearch reverse search is not implemented yet"))
    }
}

} // verus!
