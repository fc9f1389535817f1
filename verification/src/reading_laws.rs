//! What holds of the rows that a search reads from the file of documents.
use vstd::prelude::*;
use vstd::utf8;

use crate::bytes;
use crate::document::DocumentView;
use crate::local;
use crate::local::FiguresView;
use crate::local_laws;
use crate::query::HitView;
use crate::record;
use crate::record::{NumbersView, NumeralsView};
use crate::search;
use crate::search::Measure;
use crate::search_laws;

verus! {

/// The bytes of the row at an offset of a file; none where the file ends before it.
pub open spec fn row_bytes(file: Seq<u8>, offset: u64) -> Seq<u8> {
    if offset <= file.len() {
        bytes::line_at(file, offset as int)
    } else {
        Seq::<u8>::empty()
    }
}

/// Why a document could not be read.
pub ghost enum RowFault {
    /// The bytes of the row are not text.
    NotText,
    /// What is wrong with the text of the row.
    Faulty(Seq<char>),
}

/// The document of the bytes of a row, where `number` gives the numbers that numerals stand for.
pub open spec fn document_of_bytes(
    row: Seq<u8>,
    number: spec_fn(Option<NumeralsView>) -> NumbersView,
) -> Result<DocumentView, RowFault> {
    if !utf8::valid_utf8(row) {
        Err(RowFault::NotText)
    } else {
        let line = record::row_line(utf8::decode_utf8(row));
        match record::decoded(line, number(record::numerals_in(line))) {
            Ok(document) => Ok(document),
            Err(message) => Err(RowFault::Faulty(message)),
        }
    }
}

/// The documents at the offsets of a list, in the order of the list, or what is wrong with the first
/// that cannot be read.
pub open spec fn documents_at(
    file: Seq<u8>,
    list: Seq<u64>,
    number: spec_fn(Option<NumeralsView>) -> NumbersView,
) -> Result<Seq<DocumentView>, RowFault>
    decreases list.len(),
{
    if list.len() == 0 {
        Ok(Seq::<DocumentView>::empty())
    } else {
        match documents_at(file, list.drop_last(), number) {
            Ok(before) => match document_of_bytes(row_bytes(file, list.last()), number) {
                Ok(document) => Ok(before.push(document)),
                Err(fault) => Err(fault),
            },
            Err(fault) => Err(fault),
        }
    }
}

/// How documents measure up to the point of a query, where it has one.
pub open spec fn measures_of(
    docs: Seq<DocumentView>,
    measure: Option<spec_fn(DocumentView) -> Measure>,
) -> Option<Seq<Measure>> {
    match measure {
        Some(f) => Some(docs.map_values(f)),
        None => None,
    }
}

/// The hits of the documents at the offsets of a list that are of the country, where one is asked
/// for.
pub open spec fn scored_at(
    file: Seq<u8>,
    list: Seq<u64>,
    country_code: Option<Seq<char>>,
    measure: Option<spec_fn(DocumentView) -> Measure>,
    number: spec_fn(Option<NumeralsView>) -> NumbersView,
) -> Result<Seq<HitView>, RowFault> {
    match documents_at(file, list, number) {
        Ok(docs) => Ok(
            search::scored(docs, measures_of(docs, measure), country_code, docs.len()),
        ),
        Err(fault) => Err(fault),
    }
}

/// The hits of the documents at the offsets of a list whose distance is at most the radius.
pub open spec fn near_at(
    file: Seq<u8>,
    list: Seq<u64>,
    radius_meters: int,
    measure: spec_fn(DocumentView) -> Measure,
    number: spec_fn(Option<NumeralsView>) -> NumbersView,
) -> Result<Seq<HitView>, RowFault> {
    match documents_at(file, list, number) {
        Ok(docs) => Ok(search::near(docs, docs.map_values(measure), radius_meters, docs.len())),
        Err(fault) => Err(fault),
    }
}

/// A search depends on the rows at the offsets that it looks at, and on no other part of the file:
/// files that have the same rows there give the same documents, or the same fault, and the same
/// hits.
pub proof fn law_only_candidate_rows_count(
    file: Seq<u8>,
    other: Seq<u8>,
    list: Seq<u64>,
    country_code: Option<Seq<char>>,
    radius_meters: int,
    measure: Option<spec_fn(DocumentView) -> Measure>,
    nearness: spec_fn(DocumentView) -> Measure,
    number: spec_fn(Option<NumeralsView>) -> NumbersView,
)
    requires
        forall|k: int|
            0 <= k < list.len() ==> row_bytes(file, #[trigger] list[k]) == row_bytes(
                other,
                list[k],
            ),
    ensures
        documents_at(file, list, number) == documents_at(other, list, number),
        scored_at(file, list, country_code, measure, number) == scored_at(
            other,
            list,
            country_code,
            measure,
            number,
        ),
        near_at(file, list, radius_meters, nearness, number) == near_at(
            other,
            list,
            radius_meters,
            nearness,
            number,
        ),
    decreases list.len(),
{
    if list.len() > 0 {
        let front = list.drop_last();
        assert forall|k: int| 0 <= k < front.len() implies row_bytes(file, #[trigger] front[k])
            == row_bytes(other, front[k]) by {
            assert(front[k] == list[k]);
        }
        law_only_candidate_rows_count(
            file,
            other,
            front,
            country_code,
            radius_meters,
            measure,
            nearness,
            number,
        );
        assert(row_bytes(file, list[list.len() - 1]) == row_bytes(other, list[list.len() - 1]));
    }
}

/// There is one document for each offset, in the order of the offsets.
pub proof fn law_one_document_each(
    file: Seq<u8>,
    list: Seq<u64>,
    number: spec_fn(Option<NumeralsView>) -> NumbersView,
)
    requires
        documents_at(file, list, number) is Ok,
    ensures
        documents_at(file, list, number)->Ok_0.len() == list.len(),
        forall|k: int|
            0 <= k < list.len() ==> document_of_bytes(row_bytes(file, #[trigger] list[k]), number)
                == Ok::<DocumentView, RowFault>(documents_at(file, list, number)->Ok_0[k]),
    decreases list.len(),
{
    if list.len() > 0 {
        let front = list.drop_last();
        law_one_document_each(file, front, number);
        assert forall|k: int| 0 <= k < list.len() implies document_of_bytes(
            row_bytes(file, #[trigger] list[k]),
            number,
        ) == Ok::<DocumentView, RowFault>(documents_at(file, list, number)->Ok_0[k]) by {
            if k < front.len() {
                assert(front[k] == list[k]);
            }
        }
    }
}

/// Whether a document is of the country, where one is asked for.
pub open spec fn of_country(country_code: Option<Seq<char>>) -> spec_fn(DocumentView) -> bool {
    |document: DocumentView| search::in_country(document, country_code)
}

/// There is one hit for each document of the country, in the order of the documents.
pub proof fn law_one_hit_each(
    docs: Seq<DocumentView>,
    measures: Option<Seq<Measure>>,
    country_code: Option<Seq<char>>,
    n: nat,
)
    requires
        n <= docs.len(),
    ensures
        search::scored(docs, measures, country_code, n).map_values(|hit: HitView| hit.document)
            == docs.take(n as int).filter(of_country(country_code)),
    decreases n,
{
    let picked = |hit: HitView| hit.document;
    let keep = of_country(country_code);
    let all = search::scored(docs, measures, country_code, n);
    if n == 0 {
        assert(docs.take(0) =~= Seq::<DocumentView>::empty());
        docs.take(0).lemma_filter_len(keep);
        assert(all.map_values(picked) =~= docs.take(0).filter(keep));
    } else {
        let m = (n - 1) as nat;
        law_one_hit_each(docs, measures, country_code, m);
        let before = search::scored(docs, measures, country_code, m);
        assert(docs.take(n as int) =~= docs.take(m as int).push(docs[m as int]));
        docs.take(m as int).lemma_filter_push(docs[m as int], keep);
        if search::in_country(docs[m as int], country_code) {
            assert(all.map_values(picked) =~= before.map_values(picked).push(docs[m as int]));
        }
    }
}

/// The rows at the offsets of documents of an index can be read, and give what they keep of those
/// documents.
pub proof fn law_candidate_rows_are_read(
    docs: Seq<DocumentView>,
    figures: Seq<FiguresView>,
    list: Seq<u64>,
    number: spec_fn(Option<NumeralsView>) -> NumbersView,
)
    requires
        local_laws::well_figured(docs, figures),
        local_laws::fits(docs, figures),
        forall|i: int|
            0 <= i < docs.len() ==> number(Some((#[trigger] figures[i]).numerals))
                == record::numbers_of(docs[i]),
        forall|k: int|
            0 <= k < list.len() ==> exists|i: int|
                0 <= i < docs.len() && #[trigger] list[k] == #[trigger] local::offset_of(
                    docs,
                    figures,
                    i,
                ),
    ensures
        ({
            let file = utf8::encode_utf8(local::rows_text(docs, figures, docs.len()));
            let read = documents_at(file, list, number);
            read is Ok && search_laws::read_at(docs, figures, list, read->Ok_0)
        }),
    decreases list.len(),
{
    let file = utf8::encode_utf8(local::rows_text(docs, figures, docs.len()));
    if list.len() > 0 {
        let front = list.drop_last();
        assert forall|k: int| 0 <= k < front.len() implies exists|i: int|
            0 <= i < docs.len() && #[trigger] front[k] == #[trigger] local::offset_of(
                docs,
                figures,
                i,
            ) by {
            assert(front[k] == list[k]);
            let i = choose|i: int|
                0 <= i < docs.len() && list[k] == #[trigger] local::offset_of(docs, figures, i);
            assert(front[k] == local::offset_of(docs, figures, i));
        }
        law_candidate_rows_are_read(docs, figures, front, number);
        let offset = list[list.len() - 1];
        let i = choose|i: int|
            0 <= i < docs.len() && offset == #[trigger] local::offset_of(docs, figures, i);
        lemma_row_at(docs, figures, i, number);
        let read = documents_at(file, list, number)->Ok_0;
        assert forall|k: int, j: int|
            0 <= k < list.len() && 0 <= j < docs.len() && #[trigger] list[k] == local::offset_of(
                docs,
                figures,
                j,
            ) implies read[k] == record::kept(#[trigger] docs[j]) by {
            if k < front.len() {
                assert(front[k] == list[k]);
            } else if i < j {
                local_laws::law_offsets_differ(docs, figures, i, j);
            } else if j < i {
                local_laws::law_offsets_differ(docs, figures, j, i);
            }
        }
    }
}

proof fn lemma_row_at(
    docs: Seq<DocumentView>,
    figures: Seq<FiguresView>,
    i: int,
    number: spec_fn(Option<NumeralsView>) -> NumbersView,
)
    requires
        local_laws::well_figured(docs, figures),
        local_laws::fits(docs, figures),
        0 <= i < docs.len(),
        number(Some(figures[i].numerals)) == record::numbers_of(docs[i]),
    ensures
        ({
            let file = utf8::encode_utf8(local::rows_text(docs, figures, docs.len()));
            document_of_bytes(row_bytes(file, local::offset_of(docs, figures, i)), number) == Ok::<
                DocumentView,
                RowFault,
            >(record::kept(docs[i]))
        }),
{
    let row = record::row_of(docs[i], figures[i].numerals);
    local_laws::law_document_at_offset(docs, figures, i);
    local_laws::lemma_offsets(docs, figures, i, docs.len() as int);
    utf8::encode_utf8_valid_utf8(row);
    utf8::encode_utf8_decode_utf8(row);
}

} // verus!
