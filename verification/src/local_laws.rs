//! What holds of the files of a local index, of the offsets in them and of the searches that they
//! answer.
use vstd::prelude::*;
use vstd::utf8;

use crate::bytes;
use crate::document::DocumentView;
use crate::grid;
use crate::index_file;
use crate::local;
use crate::local::FiguresView;
use crate::offsets;
use crate::ordered;
use crate::postings;
use crate::record;
use crate::record::NumbersView;
use crate::text;
use crate::text::CharSet;

verus! {

/// Whether every document has figures whose numerals stand in a row as they are.
pub open spec fn well_figured(docs: Seq<DocumentView>, figures: Seq<FiguresView>) -> bool {
    &&& docs.len() == figures.len()
    &&& forall|i: int|
        0 <= i < figures.len() ==> record::plain_numerals((#[trigger] figures[i]).numerals)
}

/// Whether the rows of all documents fit in a file whose offsets are counted in 64 bits.
pub open spec fn fits(docs: Seq<DocumentView>, figures: Seq<FiguresView>) -> bool {
    utf8::encode_utf8(local::rows_text(docs, figures, docs.len())).len() <= u64::MAX
}

/// The rows from document `i` up to document `n`.
spec fn rows_between(docs: Seq<DocumentView>, figures: Seq<FiguresView>, i: int, n: int) -> Seq<
    char,
>
    decreases n - i,
{
    if n <= i {
        Seq::<char>::empty()
    } else {
        rows_between(docs, figures, i, n - 1) + record::row_of(docs[n - 1], figures[n - 1].numerals)
    }
}

proof fn lemma_rows_split(docs: Seq<DocumentView>, figures: Seq<FiguresView>, i: int, n: int)
    requires
        0 <= i <= n,
    ensures
        local::rows_text(docs, figures, n as nat) == local::rows_text(docs, figures, i as nat)
            + rows_between(docs, figures, i, n),
    decreases n - i,
{
    let before = local::rows_text(docs, figures, i as nat);
    if n == i {
        assert(before + rows_between(docs, figures, i, n) =~= before);
    } else {
        lemma_rows_split(docs, figures, i, n - 1);
        let row = record::row_of(docs[n - 1], figures[n - 1].numerals);
        assert((before + rows_between(docs, figures, i, n - 1)) + row =~= before + (rows_between(
            docs,
            figures,
            i,
            n - 1,
        ) + row));
    }
}

/// Reading the line at the offset of a document gives its row, which decodes to what a row keeps
/// of the document.
pub proof fn law_document_at_offset(docs: Seq<DocumentView>, figures: Seq<FiguresView>, i: int)
    requires
        well_figured(docs, figures),
        fits(docs, figures),
        0 <= i < docs.len(),
    ensures
        ({
            let file = utf8::encode_utf8(local::rows_text(docs, figures, docs.len()));
            let row = record::row_of(docs[i], figures[i].numerals);
            &&& bytes::line_at(file, local::offset_of(docs, figures, i) as int)
                == utf8::encode_utf8(row)
            &&& record::numerals_in(record::row_line(row)) == Some(figures[i].numerals)
            &&& record::decoded(record::row_line(row), record::numbers_of(docs[i])) == Ok::<
                DocumentView,
                Seq<char>,
            >(record::kept(docs[i]))
        }),
{
    let n = docs.len() as int;
    let numerals = figures[i].numerals;
    assert(record::plain_numerals(numerals));
    record::law_decode_encode(docs[i], numerals);
    record::lemma_row_line(docs[i], numerals);
    let row = record::row_of(docs[i], numerals);
    let line = record::row_line(row);
    let before = local::rows_text(docs, figures, i as nat);
    lemma_rows_split(docs, figures, i + 1, n);
    let after = rows_between(docs, figures, i + 1, n);
    assert(local::rows_text(docs, figures, (i + 1) as nat) == before + row);
    bytes::lemma_line_at(before, line, after);
    lemma_offsets(docs, figures, i, n);
}

/// An offset is the number of bytes before the row, and rows have bytes.
pub proof fn lemma_offsets(docs: Seq<DocumentView>, figures: Seq<FiguresView>, i: int, n: int)
    requires
        well_figured(docs, figures),
        0 <= i <= n <= docs.len(),
    ensures
        utf8::encode_utf8(local::rows_text(docs, figures, i as nat)).len() <= utf8::encode_utf8(
            local::rows_text(docs, figures, n as nat),
        ).len(),
        i < n ==> utf8::encode_utf8(local::rows_text(docs, figures, i as nat)).len()
            < utf8::encode_utf8(local::rows_text(docs, figures, n as nat)).len(),
    decreases n - i,
{
    if i < n {
        lemma_offsets(docs, figures, i, n - 1);
        let numerals = figures[n - 1].numerals;
        assert(record::plain_numerals(numerals));
        record::lemma_row_line(docs[n - 1], numerals);
        bytes::lemma_line_feeds_row(
            local::rows_text(docs, figures, (n - 1) as nat),
            record::row_line(record::row_of(docs[n - 1], numerals)),
        );
    }
}

/// Different documents have different offsets.
pub proof fn law_offsets_differ(
    docs: Seq<DocumentView>,
    figures: Seq<FiguresView>,
    i: int,
    j: int,
)
    requires
        well_figured(docs, figures),
        fits(docs, figures),
        0 <= i < j < docs.len(),
    ensures
        local::offset_of(docs, figures, i) < local::offset_of(docs, figures, j),
{
    lemma_offsets(docs, figures, i, j);
    lemma_offsets(docs, figures, j, docs.len() as int);
}

/// The file of documents has one line for each document.
pub proof fn law_one_line_each(docs: Seq<DocumentView>, figures: Seq<FiguresView>)
    requires
        well_figured(docs, figures),
    ensures
        bytes::line_count(utf8::encode_utf8(local::rows_text(docs, figures, docs.len())))
            == docs.len(),
{
    lemma_line_feeds(docs, figures, docs.len() as int);
}

proof fn lemma_line_feeds(docs: Seq<DocumentView>, figures: Seq<FiguresView>, n: int)
    requires
        well_figured(docs, figures),
        0 <= n <= docs.len(),
    ensures
        ({
            let file = utf8::encode_utf8(local::rows_text(docs, figures, n as nat));
            bytes::line_feeds(file) == n && (file.len() == 0 || file.last() == 10)
        }),
    decreases n,
{
    if n > 0 {
        lemma_line_feeds(docs, figures, n - 1);
        let numerals = figures[n - 1].numerals;
        assert(record::plain_numerals(numerals));
        record::lemma_row_line(docs[n - 1], numerals);
        bytes::lemma_line_feeds_row(
            local::rows_text(docs, figures, (n - 1) as nat),
            record::row_line(record::row_of(docs[n - 1], numerals)),
        );
    }
}

/// The lines of the rows of documents, without their line feeds.
pub open spec fn row_lines(docs: Seq<DocumentView>, figures: Seq<FiguresView>, n: int) -> Seq<
    Seq<char>,
> {
    Seq::new(n as nat, |i: int| record::row_line(record::row_of(docs[i], figures[i].numerals)))
}

proof fn lemma_rows_terminated(docs: Seq<DocumentView>, figures: Seq<FiguresView>, n: int)
    requires
        well_figured(docs, figures),
        0 <= n <= docs.len(),
    ensures
        local::rows_text(docs, figures, n as nat) == text::terminated(row_lines(docs, figures, n)),
    decreases n,
{
    let lines = row_lines(docs, figures, n);
    if n > 0 {
        lemma_rows_terminated(docs, figures, n - 1);
        assert(lines.drop_last() =~= row_lines(docs, figures, n - 1));
        assert(record::plain_numerals(figures[n - 1].numerals));
        record::lemma_row_line(docs[n - 1], figures[n - 1].numerals);
    } else {
        assert(text::terminated(lines) =~= Seq::<char>::empty());
    }
}

/// Whether no row ends in a carriage return before its line feed.
pub open spec fn without_returns(docs: Seq<DocumentView>, figures: Seq<FiguresView>) -> bool {
    forall|i: int|
        0 <= i < figures.len() ==> ({
            let line = record::row_line(record::row_of(docs[i], (#[trigger] figures[i]).numerals));
            text::strip_return(line) == line
        })
}

/// The lines of the file of documents are the rows of the documents.
pub proof fn lemma_lines_of_rows(docs: Seq<DocumentView>, figures: Seq<FiguresView>)
    requires
        well_figured(docs, figures),
        without_returns(docs, figures),
    ensures
        text::lines(local::rows_text(docs, figures, docs.len())) == row_lines(
            docs,
            figures,
            docs.len() as int,
        ),
{
    let lines = row_lines(docs, figures, docs.len() as int);
    lemma_rows_terminated(docs, figures, docs.len() as int);
    assert forall|i: int| 0 <= i < lines.len() implies text::free_of(
        #[trigger] lines[i],
        CharSet::Only('\n'),
    ) && text::strip_return(lines[i]) == lines[i] by {
        assert(record::plain_numerals(figures[i].numerals));
        record::lemma_row_line(docs[i], figures[i].numerals);
    }
    text::lemma_lines_terminated(lines);
}

/// What rows keep of the documents of a map.
pub open spec fn kept_map(map: Map<Seq<char>, DocumentView>) -> Map<Seq<char>, DocumentView> {
    Map::new(|id: Seq<char>| map.contains_key(id), |id: Seq<char>| record::kept(map[id]))
}

/// Loading the file of documents gives back what its rows keep of the documents, where no row ends
/// in a carriage return.
pub proof fn law_documents_read_back(
    map: Map<Seq<char>, DocumentView>,
    figures: Seq<FiguresView>,
    numbers: Seq<NumbersView>,
)
    requires
        map.dom().finite(),
        forall|id: Seq<char>| #[trigger] map.contains_key(id) ==> map[id].id == id,
        well_figured(local::documents_of(map), figures),
        numbers == local::documents_of(map).map_values(|document: DocumentView| record::numbers_of(document)),
        without_returns(local::documents_of(map), figures),
    ensures
        ({
            let docs = local::documents_of(map);
            local::loaded(text::lines(local::rows_text(docs, figures, docs.len())), numbers) == Ok::<
                Map<Seq<char>, DocumentView>,
                Seq<char>,
            >(kept_map(map))
        }),
        (forall|id: Seq<char>| #[trigger] map.contains_key(id) ==> record::keepable(map[id]))
            ==> kept_map(map) == map,
{
    let docs = local::documents_of(map);
    let keys = ordered::ordered_keys(map.dom());
    ordered::lemma_ordered_keys(map.dom());
    let n = docs.len() as int;
    let lines = row_lines(docs, figures, n);
    lemma_lines_of_rows(docs, figures);
    assert forall|i: int| 0 <= i < n implies (#[trigger] docs[i]).id == keys[i]
        && map.contains_key(keys[i]) by {
        assert(keys.contains(keys[i]));
        assert(map.dom().contains(keys[i]));
    }
    lemma_loaded_rows(map, keys, docs, figures, numbers, n);
    let read = local::loaded(lines.take(n), numbers)->Ok_0;
    assert(lines.take(n) =~= lines);
    assert forall|id: Seq<char>| #[trigger] read.contains_key(id) <==> map.contains_key(id) by {
        assert(keys.contains(id) <==> map.dom().contains(id));
        assert(keys.take(n) =~= keys);
    }
    assert(read =~= kept_map(map));
    if forall|id: Seq<char>| #[trigger] map.contains_key(id) ==> record::keepable(map[id]) {
        assert forall|id: Seq<char>| #[trigger] map.contains_key(id) implies record::kept(map[id])
            == map[id] by {
            record::law_row_keeps_document(map[id]);
        }
        assert(kept_map(map) =~= map);
    }
}

proof fn lemma_loaded_rows(
    map: Map<Seq<char>, DocumentView>,
    keys: Seq<Seq<char>>,
    docs: Seq<DocumentView>,
    figures: Seq<FiguresView>,
    numbers: Seq<NumbersView>,
    n: int,
)
    requires
        well_figured(docs, figures),
        0 <= n <= docs.len() == keys.len(),
        numbers == docs.map_values(|document: DocumentView| record::numbers_of(document)),
        forall|i: int|
            0 <= i < docs.len() ==> (#[trigger] docs[i]).id == keys[i] && map[keys[i]] == docs[i],
    ensures
        ({
            let lines = row_lines(docs, figures, docs.len() as int).take(n);
            let read = local::loaded(lines, numbers);
            &&& read is Ok
            &&& forall|id: Seq<char>| #[trigger]
                read->Ok_0.contains_key(id) <==> keys.take(n).contains(id)
            &&& forall|id: Seq<char>| #[trigger]
                read->Ok_0.contains_key(id) ==> read->Ok_0[id] == record::kept(map[id])
        }),
    decreases n,
{
    let all = row_lines(docs, figures, docs.len() as int);
    let lines = all.take(n);
    if n > 0 {
        lemma_loaded_rows(map, keys, docs, figures, numbers, n - 1);
        assert(lines.drop_last() =~= all.take(n - 1));
        assert(record::plain_numerals(figures[n - 1].numerals));
        record::law_decode_encode(docs[n - 1], figures[n - 1].numerals);
        assert(numbers[n - 1] == record::numbers_of(docs[n - 1]));
        let before = local::loaded(all.take(n - 1), numbers)->Ok_0;
        let document = record::kept(docs[n - 1]);
        let read = local::loaded(lines, numbers);
        assert(read == Ok::<Map<Seq<char>, DocumentView>, Seq<char>>(
            before.insert(document.id, document),
        ));
        assert(document.id == keys[n - 1]);
        assert(keys.take(n) =~= keys.take(n - 1).push(keys[n - 1]));
        assert forall|id: Seq<char>| #[trigger]
            read->Ok_0.contains_key(id) <==> keys.take(n).contains(id) by {
            assert(before.contains_key(id) <==> keys.take(n - 1).contains(id));
            if keys.take(n - 1).contains(id) {
                let shorter = keys.take(n - 1);
                let k = choose|k: int| 0 <= k < shorter.len() && shorter[k] == id;
                assert(keys.take(n)[k] == id);
            }
            assert(keys.take(n)[n - 1] == keys[n - 1]);
        }
    } else {
        assert(lines =~= Seq::<Seq<char>>::empty());
    }
}

/// Posting under several keys adds the offset under those keys, and nothing else.
proof fn lemma_with_postings(
    index: Map<Seq<char>, Seq<u64>>,
    keys: Seq<Seq<char>>,
    offset: u64,
    key: Seq<char>,
    y: u64,
)
    requires
        postings::sound(index),
        index.dom().finite(),
    ensures
        postings::sound(local::with_postings(index, keys, offset)),
        local::with_postings(index, keys, offset).dom().finite(),
        local::with_postings(index, keys, offset).contains_key(key) <==> index.contains_key(key)
            || keys.contains(key),
        postings::posted(local::with_postings(index, keys, offset), key).contains(y)
            <==> postings::posted(index, key).contains(y) || (keys.contains(key) && y == offset),
    decreases keys.len(),
{
    if keys.len() > 0 {
        let front = keys.drop_last();
        let last = keys.last();
        lemma_with_postings(index, front, offset, key, y);
        let middle = local::with_postings(index, front, offset);
        lemma_with_posting(middle, last, offset, key, y);
        if keys.contains(key) {
            let i = choose|i: int| 0 <= i < keys.len() && keys[i] == key;
            if i < front.len() {
                assert(front[i] == key);
            }
        }
        if front.contains(key) {
            let i = choose|i: int| 0 <= i < front.len() && front[i] == key;
            assert(keys[i] == key);
        }
        assert(keys[keys.len() - 1] == last);
    }
}

proof fn lemma_with_posting(
    index: Map<Seq<char>, Seq<u64>>,
    last: Seq<char>,
    offset: u64,
    key: Seq<char>,
    y: u64,
)
    requires
        postings::sound(index),
        index.dom().finite(),
    ensures
        postings::sound(postings::with_posting(index, last, offset)),
        postings::with_posting(index, last, offset).dom().finite(),
        postings::with_posting(index, last, offset).contains_key(key) <==> index.contains_key(key)
            || key == last,
        postings::posted(postings::with_posting(index, last, offset), key).contains(y)
            <==> postings::posted(index, key).contains(y) || (key == last && y == offset),
{
    offsets::lemma_with_offset(postings::posted(index, last), offset);
    let now = postings::with_posting(index, last, offset);
    assert forall|k: Seq<char>| #[trigger] now.contains_key(k) implies offsets::climbing(now[k]) by {
        if k != last {
            assert(index.contains_key(k));
        }
    }
}

/// A term stands for the documents that have it, and no other.
pub proof fn law_term_postings(
    docs: Seq<DocumentView>,
    figures: Seq<FiguresView>,
    n: nat,
    term: Seq<char>,
    y: u64,
)
    ensures
        postings::sound(local::term_index(docs, figures, n)),
        local::term_index(docs, figures, n).dom().finite(),
        local::term_index(docs, figures, n).contains_key(term) <==> exists|i: int|
            0 <= i < n && local::document_terms(#[trigger] docs[i]).contains(term),
        postings::posted(local::term_index(docs, figures, n), term).contains(y) <==> exists|i: int|
            0 <= i < n && local::document_terms(#[trigger] docs[i]).contains(term)
                && y == local::offset_of(docs, figures, i),
    decreases n,
{
    if n > 0 {
        let m = (n - 1) as nat;
        law_term_postings(docs, figures, m, term, y);
        let before = local::term_index(docs, figures, m);
        let offset = local::offset_of(docs, figures, n - 1);
        lemma_with_postings(before, local::document_terms(docs[n - 1]), offset, term, y);
        assert(docs[n - 1] == docs[m as int]);
        if local::document_terms(docs[n - 1]).contains(term) {
            assert(exists|i: int|
                0 <= i < n && local::document_terms(#[trigger] docs[i]).contains(term));
            if y == offset {
                assert(exists|i: int|
                    0 <= i < n && local::document_terms(#[trigger] docs[i]).contains(term)
                        && y == local::offset_of(docs, figures, i));
            }
        }
        if exists|i: int| 0 <= i < n && local::document_terms(#[trigger] docs[i]).contains(term) {
            let i = choose|i: int|
                0 <= i < n && local::document_terms(#[trigger] docs[i]).contains(term);
            assert(i < m || i == n - 1);
        }
        if exists|i: int|
            0 <= i < n && local::document_terms(#[trigger] docs[i]).contains(term)
                && y == local::offset_of(docs, figures, i) {
            let i = choose|i: int|
                0 <= i < n && local::document_terms(#[trigger] docs[i]).contains(term)
                    && y == local::offset_of(docs, figures, i);
            assert(i < m || i == n - 1);
        }
    }
}

/// A cell stands for the documents that are in it, and no other.
pub proof fn law_cell_postings(
    docs: Seq<DocumentView>,
    figures: Seq<FiguresView>,
    n: nat,
    cell: Seq<char>,
    y: u64,
)
    ensures
        postings::sound(local::cell_index(docs, figures, n)),
        local::cell_index(docs, figures, n).dom().finite(),
        local::cell_index(docs, figures, n).contains_key(cell) <==> exists|i: int|
            0 <= i < n && local::document_cell(#[trigger] figures[i]) == cell,
        postings::posted(local::cell_index(docs, figures, n), cell).contains(y) <==> exists|i: int|
            0 <= i < n && local::document_cell(#[trigger] figures[i]) == cell && y
                == local::offset_of(docs, figures, i),
    decreases n,
{
    if n > 0 {
        let m = (n - 1) as nat;
        law_cell_postings(docs, figures, m, cell, y);
        let before = local::cell_index(docs, figures, m);
        let offset = local::offset_of(docs, figures, n - 1);
        lemma_with_posting(before, local::document_cell(figures[n - 1]), offset, cell, y);
        if local::document_cell(figures[n - 1]) == cell {
            assert(exists|i: int|
                0 <= i < n && local::document_cell(#[trigger] figures[i]) == cell);
            if y == offset {
                assert(exists|i: int|
                    0 <= i < n && local::document_cell(#[trigger] figures[i]) == cell && y
                        == local::offset_of(docs, figures, i));
            }
        }
        if exists|i: int| 0 <= i < n && local::document_cell(#[trigger] figures[i]) == cell {
            let i = choose|i: int|
                0 <= i < n && local::document_cell(#[trigger] figures[i]) == cell;
            assert(i < m || i == n - 1);
        }
        if exists|i: int|
            0 <= i < n && local::document_cell(#[trigger] figures[i]) == cell && y
                == local::offset_of(docs, figures, i) {
            let i = choose|i: int|
                0 <= i < n && local::document_cell(#[trigger] figures[i]) == cell && y
                    == local::offset_of(docs, figures, i);
            assert(i < m || i == n - 1);
        }
    }
}

/// The indexes are read back from their files.
pub proof fn law_indexes_read_back(docs: Seq<DocumentView>, figures: Seq<FiguresView>)
    ensures
        ({
            let index = local::term_index(docs, figures, docs.len());
            index_file::index_of(text::lines(index_file::index_text(index))) == index
        }),
        ({
            let index = local::cell_index(docs, figures, docs.len());
            index_file::index_of(text::lines(index_file::index_text(index))) == index
        }),
{
    law_term_postings(docs, figures, docs.len(), Seq::<char>::empty(), 0);
    law_cell_postings(docs, figures, docs.len(), Seq::<char>::empty(), 0);
    index_file::law_index_read_back(local::term_index(docs, figures, docs.len()));
    index_file::law_index_read_back(local::cell_index(docs, figures, docs.len()));
}

/// Whether the document has all of the terms.
pub open spec fn has_all_terms(document: DocumentView, terms: Seq<Seq<char>>) -> bool {
    forall|k: int|
        0 <= k < terms.len() ==> local::document_terms(document).contains(#[trigger] terms[k])
}

/// A forward search looks at the documents that have all of its terms, and at no other.
pub proof fn law_forward_candidates(
    docs: Seq<DocumentView>,
    figures: Seq<FiguresView>,
    terms: Seq<Seq<char>>,
    y: u64,
)
    requires
        well_figured(docs, figures),
        fits(docs, figures),
        terms.len() > 0,
    ensures
        offsets::in_all(
            postings::lists_of(local::term_index(docs, figures, docs.len()), terms),
            y,
        ) <==> exists|i: int|
            0 <= i < docs.len() && has_all_terms(#[trigger] docs[i], terms) && y
                == local::offset_of(docs, figures, i),
{
    let n = docs.len();
    let index = local::term_index(docs, figures, n);
    let lists = postings::lists_of(index, terms);
    if offsets::in_all(lists, y) {
        assert(lists[0].contains(y));
        law_term_postings(docs, figures, n, terms[0], y);
        let i = choose|i: int|
            0 <= i < n && local::document_terms(#[trigger] docs[i]).contains(terms[0]) && y
                == local::offset_of(docs, figures, i);
        assert forall|k: int| 0 <= k < terms.len() implies local::document_terms(docs[i]).contains(
            #[trigger] terms[k],
        ) by {
            assert(lists[k].contains(y));
            law_term_postings(docs, figures, n, terms[k], y);
            let j = choose|j: int|
                0 <= j < n && local::document_terms(#[trigger] docs[j]).contains(terms[k]) && y
                    == local::offset_of(docs, figures, j);
            if i < j {
                law_offsets_differ(docs, figures, i, j);
            } else if j < i {
                law_offsets_differ(docs, figures, j, i);
            }
        }
        assert(has_all_terms(docs[i], terms));
    }
    if exists|i: int|
        0 <= i < n && has_all_terms(#[trigger] docs[i], terms) && y == local::offset_of(
            docs,
            figures,
            i,
        ) {
        let i = choose|i: int|
            0 <= i < n && has_all_terms(#[trigger] docs[i], terms) && y == local::offset_of(
                docs,
                figures,
                i,
            );
        assert forall|k: int| 0 <= k < lists.len() implies (#[trigger] lists[k]).contains(y) by {
            assert(local::document_terms(docs[i]).contains(terms[k]));
            law_term_postings(docs, figures, n, terms[k], y);
        }
    }
}

/// Whether the document has all of the terms but the last, and a term that begins with the last.
pub open spec fn has_beginning(document: DocumentView, terms: Seq<Seq<char>>) -> bool {
    &&& forall|k: int|
        0 <= k < terms.len() - 1 ==> local::document_terms(document).contains(#[trigger] terms[k])
    &&& exists|term: Seq<char>| #[trigger]
        local::document_terms(document).contains(term) && terms.last().is_prefix_of(term)
}

/// An autocompletion looks at the documents that have all of its terms but the last and a term
/// that begins with the last, and at no other.
pub proof fn law_autocomplete_candidates(
    docs: Seq<DocumentView>,
    figures: Seq<FiguresView>,
    terms: Seq<Seq<char>>,
    y: u64,
)
    requires
        well_figured(docs, figures),
        fits(docs, figures),
        terms.len() > 0,
    ensures
        postings::matches_beginning(local::term_index(docs, figures, docs.len()), terms, y)
            <==> exists|i: int|
            0 <= i < docs.len() && has_beginning(#[trigger] docs[i], terms) && y
                == local::offset_of(docs, figures, i),
{
    let n = docs.len();
    let index = local::term_index(docs, figures, n);
    if postings::matches_beginning(index, terms, y) {
        let key = choose|key: Seq<char>| #[trigger]
            index.contains_key(key) && terms.last().is_prefix_of(key) && index[key].contains(y);
        law_term_postings(docs, figures, n, key, y);
        let i = choose|i: int|
            0 <= i < n && local::document_terms(#[trigger] docs[i]).contains(key) && y
                == local::offset_of(docs, figures, i);
        assert forall|k: int| 0 <= k < terms.len() - 1 implies local::document_terms(
            docs[i],
        ).contains(#[trigger] terms[k]) by {
            assert(postings::posted(index, terms[k]).contains(y));
            law_term_postings(docs, figures, n, terms[k], y);
            let j = choose|j: int|
                0 <= j < n && local::document_terms(#[trigger] docs[j]).contains(terms[k]) && y
                    == local::offset_of(docs, figures, j);
            if i < j {
                law_offsets_differ(docs, figures, i, j);
            } else if j < i {
                law_offsets_differ(docs, figures, j, i);
            }
        }
        assert(has_beginning(docs[i], terms));
    }
    if exists|i: int|
        0 <= i < n && has_beginning(#[trigger] docs[i], terms) && y == local::offset_of(
            docs,
            figures,
            i,
        ) {
        let i = choose|i: int|
            0 <= i < n && has_beginning(#[trigger] docs[i], terms) && y == local::offset_of(
                docs,
                figures,
                i,
            );
        let term = choose|term: Seq<char>| #[trigger]
            local::document_terms(docs[i]).contains(term) && terms.last().is_prefix_of(term);
        law_term_postings(docs, figures, n, term, y);
        assert(index.contains_key(term));
        assert(index[term].contains(y));
        assert(postings::completes(index, terms.last(), y));
        assert forall|k: int| 0 <= k < terms.len() - 1 implies postings::posted(
            index,
            #[trigger] terms[k],
        ).contains(y) by {
            law_term_postings(docs, figures, n, terms[k], y);
        }
    }
}

/// What a forward search looks at, an autocompletion of the same terms looks at too.
pub proof fn law_forward_within_autocomplete(
    index: Map<Seq<char>, Seq<u64>>,
    terms: Seq<Seq<char>>,
    y: u64,
)
    requires
        offsets::in_all(postings::lists_of(index, terms), y),
    ensures
        postings::matches_beginning(index, terms, y),
{
    let lists = postings::lists_of(index, terms);
    assert forall|k: int| 0 <= k < terms.len() implies postings::posted(
        index,
        #[trigger] terms[k],
    ).contains(y) by {
        assert(lists[k].contains(y));
    }
    let last = terms[terms.len() - 1];
    assert(postings::posted(index, last).contains(y));
    assert(index.contains_key(last));
    assert(last.take(last.len() as int) =~= last);
    assert(last.is_prefix_of(last));
}

/// A reverse search looks at the documents whose cell lies between the edges of its rectangle,
/// and at no other.
pub proof fn law_reverse_candidates(
    docs: Seq<DocumentView>,
    figures: Seq<FiguresView>,
    min_lat: int,
    min_lon: int,
    max_lat: int,
    max_lon: int,
    y: u64,
)
    ensures
        postings::posted_under_any(
            local::cell_index(docs, figures, docs.len()),
            grid::bound_cells(min_lat, min_lon, max_lat, max_lon),
            y,
        ) <==> exists|i: int|
            0 <= i < docs.len() && min_lat <= (#[trigger] figures[i]).lat_cell <= max_lat && min_lon
                <= figures[i].lon_cell <= max_lon && y == local::offset_of(docs, figures, i),
{
    let n = docs.len();
    let index = local::cell_index(docs, figures, n);
    let cells = grid::bound_cells(min_lat, min_lon, max_lat, max_lon);
    if postings::posted_under_any(index, cells, y) {
        let k = choose|k: int|
            0 <= k < cells.len() && postings::posted(index, #[trigger] cells[k]).contains(y);
        law_cell_postings(docs, figures, n, cells[k], y);
        let i = choose|i: int|
            0 <= i < n && local::document_cell(#[trigger] figures[i]) == cells[k] && y
                == local::offset_of(docs, figures, i);
        assert(cells.contains(cells[k]));
        grid::law_cells_of_bounds(min_lat, min_lon, max_lat, max_lon, cells[k]);
        let (lat, lon) = choose|lat: int, lon: int|
            min_lat <= lat <= max_lat && min_lon <= lon <= max_lon && cells[k]
                == #[trigger] grid::cell_name(lat, lon);
        grid::law_cell_names_differ(figures[i].lat_cell, figures[i].lon_cell, lat, lon);
    }
    if exists|i: int|
        0 <= i < n && min_lat <= (#[trigger] figures[i]).lat_cell <= max_lat && min_lon
            <= figures[i].lon_cell <= max_lon && y == local::offset_of(docs, figures, i) {
        let i = choose|i: int|
            0 <= i < n && min_lat <= (#[trigger] figures[i]).lat_cell <= max_lat && min_lon
                <= figures[i].lon_cell <= max_lon && y == local::offset_of(docs, figures, i);
        let cell = grid::cell_name(figures[i].lat_cell, figures[i].lon_cell);
        grid::law_cells_of_bounds(min_lat, min_lon, max_lat, max_lon, cell);
        assert(cells.contains(cell));
        let k = choose|k: int| 0 <= k < cells.len() && cells[k] == cell;
        law_cell_postings(docs, figures, n, cell, y);
        assert(local::document_cell(figures[i]) == cell);
        assert(postings::posted(index, cells[k]).contains(y));
    }
}

/// Indexing documents in two batches is as indexing them in one.
pub proof fn law_batches(
    map: Map<Seq<char>, DocumentView>,
    first: Seq<DocumentView>,
    second: Seq<DocumentView>,
)
    ensures
        local::merged(local::merged(map, first), second) == local::merged(map, first + second),
    decreases second.len(),
{
    if second.len() == 0 {
        assert(first + second =~= first);
    } else {
        law_batches(map, first, second.drop_last());
        assert((first + second).drop_last() =~= first + second.drop_last());
        assert((first + second).last() == second.last());
    }
}

/// After indexing, each identifier of the list has the last of its documents in the list, and
/// every other identifier what it had.
pub proof fn law_last_document_counts(
    map: Map<Seq<char>, DocumentView>,
    docs: Seq<DocumentView>,
    id: Seq<char>,
)
    ensures
        (forall|i: int| 0 <= i < docs.len() ==> (#[trigger] docs[i]).id != id) ==> (
        local::merged(map, docs).contains_key(id) <==> map.contains_key(id)) && local::merged(
            map,
            docs,
        )[id] == map[id],
        forall|i: int|
            0 <= i < docs.len() && (#[trigger] docs[i]).id == id && (forall|j: int|
                i < j < docs.len() ==> (#[trigger] docs[j]).id != id) ==> local::merged(
                map,
                docs,
            ).contains_key(id) && local::merged(map, docs)[id] == docs[i],
    decreases docs.len(),
{
    if docs.len() > 0 {
        let front = docs.drop_last();
        law_last_document_counts(map, front, id);
        let last = docs[docs.len() - 1];
        let before = local::merged(map, front);
        if forall|i: int| 0 <= i < docs.len() ==> (#[trigger] docs[i]).id != id {
            assert(last.id != id);
            assert forall|i: int| 0 <= i < front.len() implies (#[trigger] front[i]).id != id by {
                assert(front[i] == docs[i]);
            }
        }
        assert forall|i: int|
            0 <= i < docs.len() && (#[trigger] docs[i]).id == id && (forall|j: int|
                i < j < docs.len() ==> (#[trigger] docs[j]).id != id) implies local::merged(
            map,
            docs,
        ).contains_key(id) && local::merged(map, docs)[id] == docs[i] by {
            if i < front.len() {
                assert(docs[docs.len() - 1].id != id);
                assert(front[i] == docs[i]);
                assert forall|j: int| i < j < front.len() implies (#[trigger] front[j]).id
                    != id by {
                    assert(front[j] == docs[j]);
                }
            }
        }
    }
}

/// Indexing the same documents again changes nothing.
pub proof fn law_index_again(map: Map<Seq<char>, DocumentView>, docs: Seq<DocumentView>)
    ensures
        local::merged(local::merged(map, docs), docs) == local::merged(map, docs),
{
    let once = local::merged(map, docs);
    let twice = local::merged(once, docs);
    assert forall|id: Seq<char>|
        (#[trigger] twice.contains_key(id) <==> once.contains_key(id)) && twice[id] == once[id] by {
        law_last_document_counts(map, docs, id);
        law_last_document_counts(once, docs, id);
        if exists|i: int| 0 <= i < docs.len() && (#[trigger] docs[i]).id == id {
            let i = lemma_last_with_id(docs, id);
            assert(docs[i].id == id);
        }
    }
    assert(twice =~= once);
}

proof fn lemma_last_with_id(docs: Seq<DocumentView>, id: Seq<char>) -> (i: int)
    requires
        exists|i: int| 0 <= i < docs.len() && (#[trigger] docs[i]).id == id,
    ensures
        0 <= i < docs.len(),
        docs[i].id == id,
        forall|j: int| i < j < docs.len() ==> (#[trigger] docs[j]).id != id,
    decreases docs.len(),
{
    if docs.last().id == id {
        docs.len() - 1
    } else {
        let front = docs.drop_last();
        let k = choose|k: int| 0 <= k < docs.len() && (#[trigger] docs[k]).id == id;
        assert(front[k].id == id);
        let i = lemma_last_with_id(front, id);
        assert(docs[i] == front[i]);
        assert forall|j: int| i < j < docs.len() implies (#[trigger] docs[j]).id != id by {
            if j < front.len() {
                assert(front[j] == docs[j]);
            }
        }
        i
    }
}

/// The identifiers of documents.
pub open spec fn ids_of(docs: Seq<DocumentView>) -> Seq<Seq<char>> {
    docs.map_values(|document: DocumentView| document.id)
}

/// The identifiers after indexing are those that were there and those of the list.
pub proof fn lemma_merged_ids(map: Map<Seq<char>, DocumentView>, docs: Seq<DocumentView>)
    ensures
        local::merged(map, docs).dom() == map.dom().union(ids_of(docs).to_set()),
    decreases docs.len(),
{
    let ids = ids_of(docs);
    let now = local::merged(map, docs).dom();
    if docs.len() == 0 {
        assert(now =~= map.dom().union(ids.to_set()));
    } else {
        let front = docs.drop_last();
        lemma_merged_ids(map, front);
        assert(ids =~= ids_of(front).push(docs.last().id));
        assert forall|id: Seq<char>| #[trigger] ids.contains(id) <==> ids_of(front).contains(id)
            || id == docs.last().id by {
            if ids_of(front).contains(id) {
                let shorter = ids_of(front);
                let k = choose|k: int| 0 <= k < shorter.len() && shorter[k] == id;
                assert(ids[k] == id);
            }
            assert(ids[docs.len() - 1] == docs.last().id);
        }
        assert(now =~= map.dom().union(ids.to_set()));
    }
}

/// There are as many ordered keys as keys.
pub proof fn lemma_ordered_count(set: Set<Seq<char>>)
    requires
        set.finite(),
    ensures
        ordered::ordered_keys(set).len() == set.len(),
{
    let keys = ordered::ordered_keys(set);
    ordered::lemma_ordered_keys(set);
    assert forall|i: int, j: int| 0 <= i < keys.len() && 0 <= j < keys.len() && i != j implies keys[i]
        != keys[j] by {
        ordered::lemma_precedes_irreflexive(keys[i]);
        if i < j {
            assert(ordered::precedes(keys[i], keys[j]));
        } else {
            assert(ordered::precedes(keys[j], keys[i]));
        }
    }
    keys.unique_seq_to_set();
    assert(keys.to_set() =~= set) by {
        assert forall|key: Seq<char>| #[trigger] keys.to_set().contains(key) <==> set.contains(
            key,
        ) by {
            assert(keys.contains(key) <==> set.contains(key));
        }
    }
}

/// After indexing, the file of documents has a line for each identifier that was there or is in the
/// list, whatever characters the texts hold. Of an index that was empty, that is a line for each
/// different identifier of the list.
pub proof fn law_count_of_identifiers(
    map: Map<Seq<char>, DocumentView>,
    docs: Seq<DocumentView>,
    figures: Seq<FiguresView>,
)
    requires
        map.dom().finite(),
        well_figured(local::documents_of(local::merged(map, docs)), figures),
    ensures
        ({
            let all = local::documents_of(local::merged(map, docs));
            let count = bytes::line_count(
                utf8::encode_utf8(local::rows_text(all, figures, all.len())),
            );
            &&& count == map.dom().union(ids_of(docs).to_set()).len()
            &&& map == Map::<Seq<char>, DocumentView>::empty() ==> count == ids_of(
                docs,
            ).to_set().len()
        }),
{
    let all = local::documents_of(local::merged(map, docs));
    let ids = ids_of(docs).to_set();
    vstd::seq_lib::seq_to_set_is_finite(ids_of(docs));
    lemma_merged_ids(map, docs);
    lemma_ordered_count(map.dom().union(ids));
    law_one_line_each(all, figures);
    if map == Map::<Seq<char>, DocumentView>::empty() {
        assert(map.dom().union(ids) =~= ids);
    }
}

} // verus!
