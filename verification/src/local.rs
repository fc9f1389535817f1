//! The local backend: documents in one file, and indexes of their offsets in two more.
//!
//! The backend stores documents once in `docs.tsv` and keeps compact offset indexes in
//! `terms.tsv` and `cells.tsv`. A query reads only the documents at the offsets that the indexes
//! give.
use vstd::prelude::*;
use vstd::utf8;

use crate::backend::BackendError;
use crate::bytes;
use crate::document::{DocumentView, GeoDocument};
use crate::grid;
use crate::index_file;
use crate::offsets::OffsetSet;
use crate::ordered;
use crate::ordered::TextMap;
use crate::postings;
use crate::query::SchemaDefinition;
use crate::record;
use crate::record::{DocumentNumbers, DocumentNumerals, NumbersView, NumeralsView};
use crate::terms;
use crate::text;

verus! {

pub const DOCS_FILE: &'static str = "docs.tsv";

pub const TERMS_FILE: &'static str = "terms.tsv";

pub const CELLS_FILE: &'static str = "cells.tsv";

pub const SCHEMA_FILE: &'static str = "schema.txt";

/// A backend whose files are in one directory.
#[derive(Clone, Debug)]
pub struct LocalBackend {
    root: String,
}

impl View for LocalBackend {
    type V = Seq<char>;

    closed spec fn view(&self) -> Seq<char> {
        self.root@
    }
}

impl LocalBackend {
    /// The backend of a directory, which need not be there yet.
    pub fn open(path: &str) -> (result: Result<Self, BackendError>)
        ensures
            result matches Ok(backend) && backend@ == path@,
    {
        Ok(LocalBackend { root: path.to_owned() })
    }

    /// The directory of the backend.
    pub fn root(&self) -> (result: &str)
        ensures
            result@ == self@,
    {
        self.root.as_str()
    }

    /// The name of the kind of backend.
    pub fn name(&self) -> (result: &'static str)
        ensures
            result@ == "local-offset-index"@,
    {
        "local-offset-index"
    }

    /// The number of documents, given the content of the file of documents where there is one.
    pub fn count_documents(&self, docs: Option<&[u8]>) -> (result: u64)
        ensures
            result == match docs {
                Some(content) => bytes::line_count(content@),
                None => 0,
            },
    {
        match docs {
            Some(content) => bytes::count_lines(content),
            None => 0,
        }
    }
}

/// The text of the file that tells what an index is made for.
pub open spec fn schema_lines(
    country_code: Seq<char>,
    languages: Seq<Seq<char>>,
    layers: Seq<Seq<char>>,
) -> Seq<Seq<char>> {
    seq![
        "country_code="@ + country_code,
        "languages="@ + text::join(languages, seq![',']),
        "layers="@ + text::join(layers, seq![',']),
    ]
}

/// The text of the file that tells what an index is made for.
pub fn schema_text(schema: &SchemaDefinition) -> (result: String)
    ensures
        result@ == text::terminated(
            schema_lines(
                schema.country_code@,
                schema.languages.deep_view(),
                schema.layers.deep_view(),
            ),
        ),
{
    let languages = text::joined(&schema.languages, ",");
    let layers = text::joined(&schema.layers, ",");
    let mut result = "country_code=".to_owned();
    result.append(schema.country_code.as_str());
    result.push('\n');
    let ghost first = result@;
    result.append("languages=");
    result.append(languages.as_str());
    result.push('\n');
    let ghost second = result@;
    result.append("layers=");
    result.append(layers.as_str());
    result.push('\n');
    proof {
        reveal_strlit(",");
        assert(","@ =~= seq![',']);
        let lines = schema_lines(
            schema.country_code@,
            schema.languages.deep_view(),
            schema.layers.deep_view(),
        );
        assert(lines.drop_last().drop_last().drop_last() =~= Seq::<Seq<char>>::empty());
        assert(text::terminated(lines.drop_last().drop_last().drop_last()) =~= Seq::<char>::empty());
        assert(text::terminated(lines.drop_last().drop_last()) =~= first);
        assert(text::terminated(lines.drop_last()) =~= second);
        assert(text::terminated(lines) =~= result@);
    }
    result
}

/// What the numbers of a document come to: their numerals, and the cell of the grid that the
/// document is in.
#[derive(Clone, Debug)]
pub struct DocumentFigures {
    pub numerals: DocumentNumerals,
    pub lat_cell: i32,
    pub lon_cell: i32,
}

/// What a `DocumentFigures` holds.
pub ghost struct FiguresView {
    pub numerals: NumeralsView,
    pub lat_cell: int,
    pub lon_cell: int,
}

impl View for DocumentFigures {
    type V = FiguresView;

    open spec fn view(&self) -> FiguresView {
        FiguresView {
            numerals: self.numerals@,
            lat_cell: self.lat_cell as int,
            lon_cell: self.lon_cell as int,
        }
    }
}

impl DeepView for DocumentFigures {
    type V = FiguresView;

    open spec fn deep_view(&self) -> FiguresView {
        self@
    }
}

/// The rows of the first `n` documents, one after another.
pub open spec fn rows_text(docs: Seq<DocumentView>, figures: Seq<FiguresView>, n: nat) -> Seq<char>
    decreases n,
{
    if n == 0 {
        Seq::<char>::empty()
    } else {
        rows_text(docs, figures, (n - 1) as nat) + record::row_of(
            docs[n - 1],
            figures[n - 1].numerals,
        )
    }
}

/// The byte offset of the row of document `i`.
pub open spec fn offset_of(docs: Seq<DocumentView>, figures: Seq<FiguresView>, i: int) -> u64 {
    utf8::encode_utf8(rows_text(docs, figures, i as nat)).len() as u64
}

/// The index with the offset under each of the keys.
pub open spec fn with_postings(
    index: Map<Seq<char>, Seq<u64>>,
    keys: Seq<Seq<char>>,
    offset: u64,
) -> Map<Seq<char>, Seq<u64>>
    decreases keys.len(),
{
    if keys.len() == 0 {
        index
    } else {
        postings::with_posting(with_postings(index, keys.drop_last(), offset), keys.last(), offset)
    }
}

/// The terms that a document is found by.
pub open spec fn document_terms(document: DocumentView) -> Seq<Seq<char>> {
    terms::terms_of(document.searchable_text())
}

/// The index from terms to the offsets of the first `n` documents.
pub open spec fn term_index(docs: Seq<DocumentView>, figures: Seq<FiguresView>, n: nat) -> Map<
    Seq<char>,
    Seq<u64>,
>
    decreases n,
{
    if n == 0 {
        Map::<Seq<char>, Seq<u64>>::empty()
    } else {
        with_postings(
            term_index(docs, figures, (n - 1) as nat),
            document_terms(docs[n - 1]),
            offset_of(docs, figures, n - 1),
        )
    }
}

/// The name of the cell that a document is in.
pub open spec fn document_cell(figures: FiguresView) -> Seq<char> {
    grid::cell_name(figures.lat_cell, figures.lon_cell)
}

/// The index from cells to the offsets of the first `n` documents.
pub open spec fn cell_index(docs: Seq<DocumentView>, figures: Seq<FiguresView>, n: nat) -> Map<
    Seq<char>,
    Seq<u64>,
>
    decreases n,
{
    if n == 0 {
        Map::<Seq<char>, Seq<u64>>::empty()
    } else {
        postings::with_posting(
            cell_index(docs, figures, (n - 1) as nat),
            document_cell(figures[n - 1]),
            offset_of(docs, figures, n - 1),
        )
    }
}

/// The documents of a map, in the order of their keys.
pub open spec fn documents_of(map: Map<Seq<char>, DocumentView>) -> Seq<DocumentView> {
    ordered::ordered_keys(map.dom()).map_values(|key: Seq<char>| map[key])
}

/// The contents of the files of an index.
#[derive(Clone, Debug)]
pub struct IndexFiles {
    pub docs: String,
    pub terms: String,
    pub cells: String,
}

/// Adds the offset under each of the keys.
fn post_all(index: &mut TextMap<OffsetSet>, keys: &Vec<String>, offset: u64)
    requires
        old(index).wf(),
        postings::sound(old(index)@),
    ensures
        final(index).wf(),
        postings::sound(final(index)@),
        final(index)@ == with_postings(old(index)@, keys.deep_view(), offset),
{
    let ghost all = keys.deep_view();
    let ghost before = index@;
    let mut i: usize = 0;
    while i < keys.len()
        invariant
            i <= keys@.len(),
            all == keys.deep_view(),
            index.wf(),
            postings::sound(index@),
            index@ == with_postings(before, all.take(i as int), offset),
        decreases keys@.len() - i,
    {
        assert(all.take(i + 1).drop_last() =~= all.take(i as int));
        postings::post(index, keys[i].as_str(), offset);
        i = i + 1;
    }
    assert(all.take(i as int) =~= all);
}

/// The files of the index of the documents: the rows of the documents in the order of their keys,
/// and the offsets of those rows under the terms and under the cell of each document.
pub fn write_index(docs: &TextMap<GeoDocument>, figures: &Vec<DocumentFigures>) -> (result:
    IndexFiles)
    requires
        docs.wf(),
        figures@.len() == docs.keys().len(),
    ensures
        ({
            let documents = documents_of(docs@);
            let numbers = figures.deep_view();
            let n = documents.len();
            &&& result.docs@ == rows_text(documents, numbers, n)
            &&& result.terms@ == index_file::index_text(term_index(documents, numbers, n))
            &&& result.cells@ == index_file::index_text(cell_index(documents, numbers, n))
        }),
{
    proof {
        docs.lemma_ordered_keys();
    }
    let ghost documents = documents_of(docs@);
    let ghost numbers = figures.deep_view();
    let mut rows = String::new();
    let mut term_offsets: TextMap<OffsetSet> = TextMap::new();
    let mut cell_offsets: TextMap<OffsetSet> = TextMap::new();
    let mut i: usize = 0;
    while i < docs.len()
        invariant
            i <= documents.len(),
            docs.wf(),
            documents == documents_of(docs@),
            docs.keys() == ordered::ordered_keys(docs@.dom()),
            numbers == figures.deep_view(),
            numbers.len() == documents.len() == docs.keys().len(),
            rows@ == rows_text(documents, numbers, i as nat),
            term_offsets.wf(),
            postings::sound(term_offsets@),
            term_offsets@ == term_index(documents, numbers, i as nat),
            cell_offsets.wf(),
            postings::sound(cell_offsets@),
            cell_offsets@ == cell_index(documents, numbers, i as nat),
        decreases documents.len() - i,
    {
        let document = docs.value_at(i);
        assert(document@ == documents[i as int]);
        assert(figures@[i as int]@ == numbers[i as int]);
        let offset: u64 = rows.as_str().as_bytes().len() as u64;
        let row = record::encode_document(document, &figures[i].numerals);
        let searchable = document.searchable_text();
        let keys = terms::normalized_terms(searchable.as_str());
        post_all(&mut term_offsets, &keys, offset);
        let cell = grid::cell_for_point(figures[i].lat_cell, figures[i].lon_cell);
        postings::post(&mut cell_offsets, cell.as_str(), offset);
        rows.append(row.as_str());
        i = i + 1;
    }
    IndexFiles {
        docs: rows,
        terms: index_file::write_offset_index(&term_offsets),
        cells: index_file::write_offset_index(&cell_offsets),
    }
}

/// The documents of a map, with those of a list in place of any with the same identifier.
pub open spec fn merged(map: Map<Seq<char>, DocumentView>, docs: Seq<DocumentView>) -> Map<
    Seq<char>,
    DocumentView,
>
    decreases docs.len(),
{
    if docs.len() == 0 {
        map
    } else {
        merged(map, docs.drop_last()).insert(docs.last().id, docs.last())
    }
}

/// Adds documents to those that are there, in place of any with the same identifier.
pub fn merge_documents(existing: &mut TextMap<GeoDocument>, docs: &[GeoDocument])
    requires
        old(existing).wf(),
    ensures
        final(existing).wf(),
        final(existing)@ == merged(old(existing)@, views_of(docs@)),
{
    let ghost before = existing@;
    let ghost all = views_of(docs@);
    let mut i: usize = 0;
    while i < docs.len()
        invariant
            i <= docs@.len(),
            all == views_of(docs@),
            existing.wf(),
            existing@ == merged(before, all.take(i as int)),
        decreases docs@.len() - i,
    {
        assert(all.take(i + 1).drop_last() =~= all.take(i as int));
        assert(all.take(i + 1).last() == docs@[i as int]@);
        existing.insert(docs[i].id.clone(), docs[i].clone());
        i = i + 1;
    }
    assert(all.take(i as int) =~= all);
}

/// What the documents of a list hold.
pub open spec fn views_of(docs: Seq<GeoDocument>) -> Seq<DocumentView> {
    docs.map_values(|document: GeoDocument| document@)
}

/// The documents of the rows by their identifiers, or what is wrong with the first row that is at
/// fault. Of rows with the same identifier the last counts.
pub open spec fn loaded(lines: Seq<Seq<char>>, numbers: Seq<NumbersView>) -> Result<
    Map<Seq<char>, DocumentView>,
    Seq<char>,
>
    decreases lines.len(),
{
    if lines.len() == 0 {
        Ok(Map::<Seq<char>, DocumentView>::empty())
    } else {
        match loaded(lines.drop_last(), numbers) {
            Ok(map) => match record::decoded(lines.last(), numbers[lines.len() - 1]) {
                Ok(document) => Ok(map.insert(document.id, document)),
                Err(message) => Err(message),
            },
            Err(message) => Err(message),
        }
    }
}

/// A row at fault is a fault of every list of rows that begins with it.
pub proof fn lemma_loaded_fault(lines: Seq<Seq<char>>, numbers: Seq<NumbersView>, i: int)
    requires
        0 <= i <= lines.len(),
        loaded(lines.take(i), numbers) is Err,
    ensures
        loaded(lines, numbers) == loaded(lines.take(i), numbers),
    decreases lines.len() - i,
{
    if i == lines.len() {
        assert(lines.take(i) =~= lines);
    } else {
        assert(lines.take(i + 1).drop_last() =~= lines.take(i));
        lemma_loaded_fault(lines, numbers, i + 1);
    }
}

/// The documents of the rows by their identifiers, given the numbers that the numerals of each row
/// stand for.
pub fn load_all_documents(lines: &Vec<String>, numbers: &Vec<DocumentNumbers>) -> (result: Result<
    TextMap<GeoDocument>,
    BackendError,
>)
    requires
        numbers@.len() == lines@.len(),
    ensures
        match result {
            Ok(docs) => docs.wf() && loaded(lines.deep_view(), numbers.deep_view()) == Ok::<
                Map<Seq<char>, DocumentView>,
                Seq<char>,
            >(docs@),
            Err(error) => loaded(lines.deep_view(), numbers.deep_view()) == Err::<
                Map<Seq<char>, DocumentView>,
                Seq<char>,
            >(error@),
        },
{
    let ghost all = lines.deep_view();
    let ghost figures = numbers.deep_view();
    let mut docs: TextMap<GeoDocument> = TextMap::new();
    let mut i: usize = 0;
    while i < lines.len()
        invariant
            i <= lines@.len() == numbers@.len(),
            all == lines.deep_view(),
            figures == numbers.deep_view(),
            docs.wf(),
            loaded(all.take(i as int), figures) == Ok::<Map<Seq<char>, DocumentView>, Seq<char>>(
                docs@,
            ),
        decreases lines@.len() - i,
    {
        assert(all.take(i + 1).drop_last() =~= all.take(i as int));
        assert(all.take(i + 1).last() == lines@[i as int]@);
        assert(figures[i as int] == numbers@[i as int]@);
        match record::decode_document(lines[i].as_str(), &numbers[i]) {
            Ok(document) => {
                docs.insert(document.id.clone(), document);
            },
            Err(error) => {
                proof {
                    lemma_loaded_fault(all, figures, i + 1);
                }
                return Err(error);
            },
        }
        i = i + 1;
    }
    assert(all.take(i as int) =~= all);
    Ok(docs)
}

} // verus!
