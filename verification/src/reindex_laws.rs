//! What holds of an index that is written to its files, read back from them and written again.
//!
//! Numerals and cells are those that numbers come to, and numbers those that numerals stand for:
//! the laws take both as functions, `figure` and `number`.
use vstd::prelude::*;

use crate::document;
use crate::document::DocumentView;
use crate::float::{Float32, Float64};
use crate::index_file;
use crate::local;
use crate::local::FiguresView;
use crate::local_laws;
use crate::ordered;
use crate::record;
use crate::record::{NumbersView, NumeralsView};
use crate::text;

verus! {

/// The texts of the files of an index.
pub ghost struct FileTexts {
    pub docs: Seq<char>,
    pub terms: Seq<char>,
    pub cells: Seq<char>,
}

/// The figures of a document: what its numbers come to.
pub open spec fn figures_of(
    document: DocumentView,
    figure: spec_fn(Float64, Float64, Float32) -> FiguresView,
) -> FiguresView {
    figure(document.latitude, document.longitude, document.popularity)
}

/// The figures of documents.
pub open spec fn all_figures(
    docs: Seq<DocumentView>,
    figure: spec_fn(Float64, Float64, Float32) -> FiguresView,
) -> Seq<FiguresView> {
    docs.map_values(|document: DocumentView| figures_of(document, figure))
}

/// The texts of the files of the index of the documents of a map.
pub open spec fn files_of(
    map: Map<Seq<char>, DocumentView>,
    figure: spec_fn(Float64, Float64, Float32) -> FiguresView,
) -> FileTexts {
    let docs = local::documents_of(map);
    let figures = all_figures(docs, figure);
    FileTexts {
        docs: local::rows_text(docs, figures, docs.len()),
        terms: index_file::index_text(local::term_index(docs, figures, docs.len())),
        cells: index_file::index_text(local::cell_index(docs, figures, docs.len())),
    }
}

/// The numbers that the numerals of lines stand for.
pub open spec fn numbers_in(
    lines: Seq<Seq<char>>,
    number: spec_fn(Option<NumeralsView>) -> NumbersView,
) -> Seq<NumbersView> {
    lines.map_values(|line: Seq<char>| number(record::numerals_in(line)))
}

/// The documents that are read from the text of a file of documents.
pub open spec fn documents_in(
    file: Seq<char>,
    number: spec_fn(Option<NumeralsView>) -> NumbersView,
) -> Result<Map<Seq<char>, DocumentView>, Seq<char>> {
    local::loaded(text::lines(file), numbers_in(text::lines(file), number))
}

/// The files after documents are indexed: those that are there are read, the documents are put in
/// place of any with the same identifier, and all are written.
pub open spec fn after_indexing(
    files: FileTexts,
    docs: Seq<DocumentView>,
    figure: spec_fn(Float64, Float64, Float32) -> FiguresView,
    number: spec_fn(Option<NumeralsView>) -> NumbersView,
) -> Result<FileTexts, Seq<char>> {
    match documents_in(files.docs, number) {
        Ok(map) => Ok(files_of(local::merged(map, docs), figure)),
        Err(message) => Err(message),
    }
}

/// Whether a document is written so that its row can be read: its aliases can be told apart, the
/// last of them does not end in a carriage return, and its numerals stand in the row as they are
/// and for the numbers of the document.
pub open spec fn readable(
    document: DocumentView,
    figure: spec_fn(Float64, Float64, Float32) -> FiguresView,
    number: spec_fn(Option<NumeralsView>) -> NumbersView,
) -> bool {
    writable(document) && faithful(document, figure, number)
}

/// Whether the numerals of a document stand in a row as they are, and for its numbers.
pub open spec fn faithful(
    document: DocumentView,
    figure: spec_fn(Float64, Float64, Float32) -> FiguresView,
    number: spec_fn(Option<NumeralsView>) -> NumbersView,
) -> bool {
    let numerals = figures_of(document, figure).numerals;
    &&& record::plain_numerals(numerals)
    &&& number(Some(numerals)) == record::numbers_of(document)
}

/// Whether the aliases of a document can be told apart, and the last of them does not end in a
/// carriage return.
pub open spec fn writable(document: DocumentView) -> bool {
    &&& record::listable(document.aliases)
    &&& document.aliases.len() > 0 ==> document.aliases.last().last() != '\r'
}

/// Whether every document of a list can be read from its row.
pub open spec fn all_readable(
    docs: Seq<DocumentView>,
    figure: spec_fn(Float64, Float64, Float32) -> FiguresView,
    number: spec_fn(Option<NumeralsView>) -> NumbersView,
) -> bool {
    forall|i: int| 0 <= i < docs.len() ==> readable(#[trigger] docs[i], figure, number)
}

/// Whether a map holds finitely many documents by their identifiers, each of which can be read from
/// its row.
pub open spec fn readable_map(
    map: Map<Seq<char>, DocumentView>,
    figure: spec_fn(Float64, Float64, Float32) -> FiguresView,
    number: spec_fn(Option<NumeralsView>) -> NumbersView,
) -> bool {
    &&& map.dom().finite()
    &&& forall|id: Seq<char>| #[trigger]
        map.contains_key(id) ==> map[id].id == id && readable(map[id], figure, number)
}

/// Readable documents in a readable map leave it readable.
pub proof fn lemma_merged_readable(
    map: Map<Seq<char>, DocumentView>,
    docs: Seq<DocumentView>,
    figure: spec_fn(Float64, Float64, Float32) -> FiguresView,
    number: spec_fn(Option<NumeralsView>) -> NumbersView,
)
    requires
        readable_map(map, figure, number),
        all_readable(docs, figure, number),
    ensures
        readable_map(local::merged(map, docs), figure, number),
    decreases docs.len(),
{
    if docs.len() > 0 {
        let front = docs.drop_last();
        assert forall|i: int| 0 <= i < front.len() implies readable(
            #[trigger] front[i],
            figure,
            number,
        ) by {
            assert(front[i] == docs[i]);
        }
        lemma_merged_readable(map, front, figure, number);
        let before = local::merged(map, front);
        let now = local::merged(map, docs);
        assert(readable(docs[docs.len() - 1], figure, number));
        assert forall|id: Seq<char>| #[trigger] now.contains_key(id) implies now[id].id == id
            && readable(now[id], figure, number) by {
            if id != docs.last().id {
                assert(before.contains_key(id));
            }
        }
    }
}

/// The documents of a readable map are readable, and their rows are without carriage returns.
proof fn lemma_documents_readable(
    map: Map<Seq<char>, DocumentView>,
    figure: spec_fn(Float64, Float64, Float32) -> FiguresView,
    number: spec_fn(Option<NumeralsView>) -> NumbersView,
)
    requires
        readable_map(map, figure, number),
    ensures
        all_readable(local::documents_of(map), figure, number),
        ({
            let docs = local::documents_of(map);
            let figures = all_figures(docs, figure);
            local_laws::well_figured(docs, figures) && local_laws::without_returns(docs, figures)
        }),
{
    let docs = local::documents_of(map);
    let figures = all_figures(docs, figure);
    let keys = ordered::ordered_keys(map.dom());
    ordered::lemma_ordered_keys(map.dom());
    assert forall|i: int| 0 <= i < docs.len() implies readable(
        #[trigger] docs[i],
        figure,
        number,
    ) by {
        assert(keys.contains(keys[i]));
        assert(map.dom().contains(keys[i]));
        assert(map.contains_key(keys[i]));
    }
    assert forall|i: int| 0 <= i < figures.len() implies record::plain_numerals(
        (#[trigger] figures[i]).numerals,
    ) by {
        assert(readable(docs[i], figure, number));
    }
    assert forall|i: int| 0 <= i < figures.len() implies ({
        let line = record::row_line(record::row_of(docs[i], (#[trigger] figures[i]).numerals));
        text::strip_return(line) == line
    }) by {
        let document = docs[i];
        assert(readable(docs[i], figure, number));
        if document.aliases.len() > 0 {
            assert(document.aliases[document.aliases.len() - 1].len() > 0);
        }
        record::lemma_row_end(document, figures[i].numerals);
    }
}

/// Reading the file of documents of a map gives what rows keep of its documents.
proof fn lemma_documents_in_files(
    map: Map<Seq<char>, DocumentView>,
    figure: spec_fn(Float64, Float64, Float32) -> FiguresView,
    number: spec_fn(Option<NumeralsView>) -> NumbersView,
)
    requires
        readable_map(map, figure, number),
    ensures
        documents_in(files_of(map, figure).docs, number) == Ok::<
            Map<Seq<char>, DocumentView>,
            Seq<char>,
        >(local_laws::kept_map(map)),
{
    let docs = local::documents_of(map);
    let figures = all_figures(docs, figure);
    lemma_documents_readable(map, figure, number);
    local_laws::lemma_lines_of_rows(docs, figures);
    let lines = text::lines(files_of(map, figure).docs);
    let numbers = docs.map_values(|document: DocumentView| record::numbers_of(document));
    assert forall|i: int| 0 <= i < lines.len() implies #[trigger] numbers_in(lines, number)[i]
        == numbers[i] by {
        assert(readable(docs[i], figure, number));
        record::law_decode_encode(docs[i], figures[i].numerals);
        assert(lines[i] == record::row_line(record::row_of(docs[i], figures[i].numerals)));
    }
    assert(numbers_in(lines, number) =~= numbers);
    local_laws::law_documents_read_back(map, figures, numbers);
}

/// What a row keeps of a document is found by the same terms.
proof fn lemma_kept_terms(document: DocumentView)
    requires
        record::listable(document.aliases),
    ensures
        local::document_terms(record::kept(document)) == local::document_terms(document),
{
    let numerals = NumeralsView {
        latitude: Seq::empty(),
        longitude: Seq::empty(),
        popularity: Seq::empty(),
    };
    record::lemma_kept(document, numerals);
    lemma_kept_shown(document.address.house_number);
    lemma_kept_shown(document.address.street);
    lemma_kept_shown(document.admin_hierarchy.neighbourhood);
    lemma_kept_shown(document.admin_hierarchy.locality);
    lemma_kept_shown(document.admin_hierarchy.county);
    lemma_kept_shown(document.admin_hierarchy.region);
    lemma_kept_shown(document.admin_hierarchy.country);
    document::lemma_same_searchable_text(record::kept(document), document);
}

proof fn lemma_kept_shown(value: Option<Seq<char>>)
    ensures
        document::shown(document::present(record::kept_optional(value))) == document::shown(
            document::present(value),
        ),
{
    match value {
        Some(v) => {
            if v.len() == 0 {
                assert(v =~= Seq::<char>::empty());
                document::lemma_empty_shows_nothing();
            }
        },
        None => {},
    }
}

/// What rows keep of documents has the same rows and the same indexes.
proof fn lemma_kept_parts(
    docs: Seq<DocumentView>,
    other: Seq<DocumentView>,
    figures: Seq<FiguresView>,
    n: nat,
)
    requires
        n <= docs.len() == other.len() == figures.len(),
        forall|i: int| 0 <= i < docs.len() ==> record::listable((#[trigger] docs[i]).aliases),
        forall|i: int| 0 <= i < docs.len() ==> #[trigger] other[i] == record::kept(docs[i]),
    ensures
        local::rows_text(other, figures, n) == local::rows_text(docs, figures, n),
        local::term_index(other, figures, n) == local::term_index(docs, figures, n),
        local::cell_index(other, figures, n) == local::cell_index(docs, figures, n),
    decreases n,
{
    if n > 0 {
        lemma_kept_parts(docs, other, figures, (n - 1) as nat);
        assert(record::listable(docs[n - 1].aliases));
        assert(other[n - 1] == record::kept(docs[n - 1]));
        record::lemma_kept(docs[n - 1], figures[n - 1].numerals);
        lemma_kept_terms(docs[n - 1]);
    }
}

/// What rows keep of the documents of a map has the same files.
proof fn lemma_kept_files(
    map: Map<Seq<char>, DocumentView>,
    figure: spec_fn(Float64, Float64, Float32) -> FiguresView,
    number: spec_fn(Option<NumeralsView>) -> NumbersView,
)
    requires
        readable_map(map, figure, number),
    ensures
        files_of(local_laws::kept_map(map), figure) == files_of(map, figure),
{
    let kept = local_laws::kept_map(map);
    let (docs, other) = (local::documents_of(map), local::documents_of(kept));
    assert(kept.dom() =~= map.dom());
    lemma_documents_readable(map, figure, number);
    ordered::lemma_ordered_keys(map.dom());
    let keys = ordered::ordered_keys(map.dom());
    assert forall|i: int| 0 <= i < docs.len() implies #[trigger] other[i] == record::kept(
        docs[i],
    ) by {
        assert(keys.contains(keys[i]));
        assert(map.dom().contains(keys[i]));
    }
    assert forall|i: int| 0 <= i < docs.len() implies record::listable(
        (#[trigger] docs[i]).aliases,
    ) by {
        assert(readable(docs[i], figure, number));
    }
    let figures = all_figures(docs, figure);
    assert(all_figures(other, figure) =~= figures);
    lemma_kept_parts(docs, other, figures, docs.len());
}

/// What rows keep is the same, whether documents are put into a map or into what rows keep of it.
proof fn lemma_kept_merged(
    map: Map<Seq<char>, DocumentView>,
    docs: Seq<DocumentView>,
    figure: spec_fn(Float64, Float64, Float32) -> FiguresView,
    number: spec_fn(Option<NumeralsView>) -> NumbersView,
)
    requires
        readable_map(map, figure, number),
    ensures
        local_laws::kept_map(local::merged(local_laws::kept_map(map), docs))
            == local_laws::kept_map(local::merged(map, docs)),
    decreases docs.len(),
{
    let kept = local_laws::kept_map(map);
    let a = local_laws::kept_map(local::merged(kept, docs));
    let b = local_laws::kept_map(local::merged(map, docs));
    if docs.len() == 0 {
        assert forall|id: Seq<char>| #[trigger] a.contains_key(id) implies a[id] == b[id] by {
            assert(map.contains_key(id));
            record::lemma_kept(map[id], figures_of(map[id], figure).numerals);
        }
        assert(a =~= b);
    } else {
        lemma_kept_merged(map, docs.drop_last(), figure, number);
        let c = local_laws::kept_map(local::merged(kept, docs.drop_last()));
        let d = local_laws::kept_map(local::merged(map, docs.drop_last()));
        assert(a =~= c.insert(docs.last().id, record::kept(docs.last())));
        assert(b =~= d.insert(docs.last().id, record::kept(docs.last())));
    }
}

/// What rows keep of a readable map is readable.
proof fn lemma_kept_readable(
    map: Map<Seq<char>, DocumentView>,
    figure: spec_fn(Float64, Float64, Float32) -> FiguresView,
    number: spec_fn(Option<NumeralsView>) -> NumbersView,
)
    requires
        readable_map(map, figure, number),
    ensures
        readable_map(local_laws::kept_map(map), figure, number),
{
    let kept = local_laws::kept_map(map);
    assert(kept.dom() =~= map.dom());
    assert forall|id: Seq<char>| #[trigger] kept.contains_key(id) implies kept[id].id == id
        && readable(kept[id], figure, number) by {
        assert(map.contains_key(id));
        record::lemma_kept(map[id], figures_of(map[id], figure).numerals);
    }
}

/// Indexing documents on top of the files of an index gives the files of the index of all of them,
/// though an optional text that is empty is lost on the way.
pub proof fn law_indexing_through_files(
    map: Map<Seq<char>, DocumentView>,
    docs: Seq<DocumentView>,
    figure: spec_fn(Float64, Float64, Float32) -> FiguresView,
    number: spec_fn(Option<NumeralsView>) -> NumbersView,
)
    requires
        readable_map(map, figure, number),
        all_readable(docs, figure, number),
    ensures
        after_indexing(files_of(map, figure), docs, figure, number) == Ok::<FileTexts, Seq<char>>(
            files_of(local::merged(map, docs), figure),
        ),
{
    let kept = local_laws::kept_map(map);
    lemma_documents_in_files(map, figure, number);
    lemma_kept_readable(map, figure, number);
    lemma_merged_readable(map, docs, figure, number);
    lemma_merged_readable(kept, docs, figure, number);
    lemma_kept_merged(map, docs, figure, number);
    lemma_kept_files(local::merged(map, docs), figure, number);
    lemma_kept_files(local::merged(kept, docs), figure, number);
}

/// Indexing one list of documents and then another leaves the same files as indexing both at once,
/// and indexing a list a second time leaves the files as they are.
pub proof fn law_two_runs_are_one(
    map: Map<Seq<char>, DocumentView>,
    first: Seq<DocumentView>,
    second: Seq<DocumentView>,
    figure: spec_fn(Float64, Float64, Float32) -> FiguresView,
    number: spec_fn(Option<NumeralsView>) -> NumbersView,
)
    requires
        readable_map(map, figure, number),
        all_readable(first, figure, number),
        all_readable(second, figure, number),
    ensures
        ({
            let once = after_indexing(files_of(map, figure), first, figure, number);
            let both = after_indexing(files_of(map, figure), first + second, figure, number);
            &&& once is Ok
            &&& both is Ok
            &&& after_indexing(once->Ok_0, second, figure, number) == both
            &&& after_indexing(once->Ok_0, first, figure, number) == once
        }),
{
    let merged = local::merged(map, first);
    let all = first + second;
    assert forall|i: int| 0 <= i < all.len() implies readable(
        #[trigger] all[i],
        figure,
        number,
    ) by {
        if i < first.len() {
            assert(all[i] == first[i]);
        } else {
            assert(all[i] == second[i - first.len()]);
        }
    }
    law_indexing_through_files(map, first, figure, number);
    law_indexing_through_files(map, all, figure, number);
    lemma_merged_readable(map, first, figure, number);
    law_indexing_through_files(merged, second, figure, number);
    law_indexing_through_files(merged, first, figure, number);
    local_laws::law_batches(map, first, second);
    local_laws::law_index_again(map, first);
}

/// What is read from the files of an index is what was indexed, and indexing a second list on top of
/// it comes to indexing both lists, where rows keep all of the documents.
pub proof fn law_read_between_runs(
    map: Map<Seq<char>, DocumentView>,
    first: Seq<DocumentView>,
    second: Seq<DocumentView>,
    figure: spec_fn(Float64, Float64, Float32) -> FiguresView,
    number: spec_fn(Option<NumeralsView>) -> NumbersView,
)
    requires
        readable_map(map, figure, number),
        all_readable(first, figure, number),
        forall|id: Seq<char>| #[trigger] map.contains_key(id) ==> record::keepable(map[id]),
        forall|i: int| 0 <= i < first.len() ==> record::keepable(#[trigger] first[i]),
    ensures
        ({
            let read = documents_in(files_of(local::merged(map, first), figure).docs, number);
            &&& read == Ok::<Map<Seq<char>, DocumentView>, Seq<char>>(local::merged(map, first))
            &&& local::merged(read->Ok_0, second) == local::merged(map, first + second)
        }),
{
    let merged = local::merged(map, first);
    lemma_merged_readable(map, first, figure, number);
    lemma_documents_in_files(merged, figure, number);
    lemma_merged_keepable(map, first);
    assert forall|id: Seq<char>| #[trigger] merged.contains_key(id) implies record::kept(
        merged[id],
    ) == merged[id] by {
        record::law_row_keeps_document(merged[id]);
    }
    assert(local_laws::kept_map(merged) =~= merged);
    local_laws::law_batches(map, first, second);
}

/// Where there is no file of documents or it is empty, there is nothing to read, and the files of an
/// index of nothing are empty.
pub proof fn law_no_files(
    figure: spec_fn(Float64, Float64, Float32) -> FiguresView,
    number: spec_fn(Option<NumeralsView>) -> NumbersView,
)
    ensures
        documents_in(Seq::<char>::empty(), number) == Ok::<
            Map<Seq<char>, DocumentView>,
            Seq<char>,
        >(Map::empty()),
        files_of(Map::empty(), figure) == (FileTexts {
            docs: Seq::empty(),
            terms: Seq::empty(),
            cells: Seq::empty(),
        }),
{
    let none = Map::<Seq<char>, DocumentView>::empty();
    let index = Map::<Seq<char>, Seq<u64>>::empty();
    let pieces = text::pieces(Seq::<char>::empty(), text::CharSet::Only('\n'));
    assert(pieces =~= seq![Seq::<char>::empty()]);
    assert(text::lines(Seq::<char>::empty()) =~= Seq::<Seq<char>>::empty());
    local_laws::lemma_ordered_count(none.dom());
    local_laws::lemma_ordered_count(index.dom());
    assert(index_file::index_lines(ordered::ordered_keys(index.dom()), index) =~= Seq::<
        Seq<char>,
    >::empty());
}

proof fn lemma_merged_keepable(map: Map<Seq<char>, DocumentView>, docs: Seq<DocumentView>)
    requires
        forall|id: Seq<char>| #[trigger] map.contains_key(id) ==> record::keepable(map[id]),
        forall|i: int| 0 <= i < docs.len() ==> record::keepable(#[trigger] docs[i]),
    ensures
        forall|id: Seq<char>| #[trigger]
            local::merged(map, docs).contains_key(id) ==> record::keepable(
                local::merged(map, docs)[id],
            ),
    decreases docs.len(),
{
    if docs.len() > 0 {
        let front = docs.drop_last();
        assert forall|i: int| 0 <= i < front.len() implies record::keepable(
            #[trigger] front[i],
        ) by {
            assert(front[i] == docs[i]);
        }
        lemma_merged_keepable(map, front);
        let before = local::merged(map, front);
        assert(record::keepable(docs[docs.len() - 1]));
        assert forall|id: Seq<char>| #[trigger]
            local::merged(map, docs).contains_key(id) implies record::keepable(
            local::merged(map, docs)[id],
        ) by {
            if id != docs.last().id {
                assert(before.contains_key(id));
            }
        }
    }
}

} // verus!
