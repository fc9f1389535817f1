//! What holds of the batches of an ingestion, and of the files that they leave.
use vstd::prelude::*;

use crate::config::ConfigView;
use crate::csv;
use crate::decimal;
use crate::document::DocumentView;
use crate::flags;
use crate::float::{Float32, Float64};
use crate::ingest;
use crate::ingest::CommandView;
use crate::local;
use crate::local::FiguresView;
use crate::local_laws;
use crate::ordered;
use crate::query;
use crate::query::Bounds;
use crate::record;
use crate::record::{NumbersView, NumeralsView};
use crate::reindex_laws;
use crate::reindex_laws::FileTexts;
use crate::text;

verus! {

/// The documents that lie in the bounds.
pub open spec fn accepted(docs: Seq<Result<DocumentView, Seq<char>>>, bounds: Bounds) -> Seq<
    DocumentView,
>
    decreases docs.len(),
{
    if docs.len() == 0 {
        Seq::<DocumentView>::empty()
    } else {
        let before = accepted(docs.drop_last(), bounds);
        match docs.last() {
            Ok(document) => if bounds.holds(ingest::place_of(document)) {
                before.push(document)
            } else {
                before
            },
            Err(_) => before,
        }
    }
}

/// Whether every line gave a document.
pub open spec fn no_failure(docs: Seq<Result<DocumentView, Seq<char>>>) -> bool {
    forall|i: int| 0 <= i < docs.len() ==> #[trigger] docs[i] is Ok
}

/// Where nothing goes wrong, the batches hold the documents in the bounds in their order, all
/// batches but the last are full, and every document is either indexed or counted as skipped.
pub proof fn law_batches_hold_accepted(
    docs: Seq<Result<DocumentView, Seq<char>>>,
    bounds: Bounds,
    size: int,
)
    requires
        no_failure(docs),
        size >= 1,
    ensures
        ({
            let plan = ingest::planned(docs, bounds, size);
            let batches = plan.batches();
            &&& plan.failure is None
            &&& ingest::together(batches) == accepted(docs, bounds)
            &&& ingest::together(batches).len() + plan.skipped == docs.len()
            &&& forall|i: int| 0 <= i < batches.len() ==> 1 <= (#[trigger] batches[i]).len() <= size
            &&& forall|i: int| 0 <= i < batches.len() - 1 ==> (#[trigger] batches[i]).len() == size
        }),
{
    lemma_planned(docs, bounds, size);
    let plan = ingest::planned(docs, bounds, size);
    if plan.rest.len() > 0 {
        assert(plan.full.push(plan.rest).drop_last() =~= plan.full);
    } else {
        assert(ingest::together(plan.full) + plan.rest =~= ingest::together(plan.full));
    }
}

proof fn lemma_planned(docs: Seq<Result<DocumentView, Seq<char>>>, bounds: Bounds, size: int)
    requires
        no_failure(docs),
        size >= 1,
    ensures
        ({
            let plan = ingest::planned(docs, bounds, size);
            &&& plan.failure is None
            &&& ingest::together(plan.full) + plan.rest == accepted(docs, bounds)
            &&& accepted(docs, bounds).len() + plan.skipped == docs.len()
            &&& plan.rest.len() < size
            &&& forall|i: int| 0 <= i < plan.full.len() ==> (#[trigger] plan.full[i]).len() == size
        }),
    decreases docs.len(),
{
    let plan = ingest::planned(docs, bounds, size);
    if docs.len() > 0 {
        let front = docs.drop_last();
        assert forall|i: int| 0 <= i < front.len() implies #[trigger] front[i] is Ok by {
            assert(front[i] == docs[i]);
        }
        lemma_planned(front, bounds, size);
        let before = ingest::planned(front, bounds, size);
        assert(docs[docs.len() - 1] is Ok);
        let document = docs.last()->Ok_0;
        if bounds.holds(ingest::place_of(document)) {
            if before.rest.len() + 1 >= size {
                assert(plan.full.drop_last() =~= before.full);
                assert(ingest::together(plan.full) + plan.rest =~= (ingest::together(before.full)
                    + before.rest).push(document));
            } else {
                assert(ingest::together(plan.full) + plan.rest =~= (ingest::together(before.full)
                    + before.rest).push(document));
            }
        }
    } else {
        assert(ingest::together(plan.full) + plan.rest =~= accepted(docs, bounds));
    }
}

/// The documents of a map after each batch has been indexed in turn.
pub open spec fn indexed(
    map: Map<Seq<char>, DocumentView>,
    batches: Seq<Seq<DocumentView>>,
) -> Map<Seq<char>, DocumentView>
    decreases batches.len(),
{
    if batches.len() == 0 {
        map
    } else {
        local::merged(indexed(map, batches.drop_last()), batches.last())
    }
}

proof fn lemma_indexed(map: Map<Seq<char>, DocumentView>, batches: Seq<Seq<DocumentView>>)
    ensures
        indexed(map, batches) == local::merged(map, ingest::together(batches)),
    decreases batches.len(),
{
    if batches.len() > 0 {
        lemma_indexed(map, batches.drop_last());
        local_laws::law_batches(map, ingest::together(batches.drop_last()), batches.last());
    }
}

/// The size of batches does not matter: where nothing goes wrong, indexing batch by batch comes to
/// indexing the documents in the bounds at once.
pub proof fn law_batch_size_does_not_matter(
    map: Map<Seq<char>, DocumentView>,
    docs: Seq<Result<DocumentView, Seq<char>>>,
    bounds: Bounds,
    size: int,
)
    requires
        no_failure(docs),
        size >= 1,
    ensures
        indexed(map, ingest::planned(docs, bounds, size).batches()) == local::merged(
            map,
            accepted(docs, bounds),
        ),
{
    law_batches_hold_accepted(docs, bounds, size);
    lemma_indexed(map, ingest::planned(docs, bounds, size).batches());
}

/// Batches that are all full hold as many documents as their number and their size give.
proof fn lemma_together_full(batches: Seq<Seq<DocumentView>>, size: int)
    requires
        forall|i: int| 0 <= i < batches.len() ==> (#[trigger] batches[i]).len() == size,
    ensures
        ingest::together(batches).len() == batches.len() * size,
    decreases batches.len(),
{
    if batches.len() > 0 {
        let front = batches.drop_last();
        assert forall|i: int| 0 <= i < front.len() implies (#[trigger] front[i]).len() == size by {
            assert(front[i] == batches[i]);
        }
        lemma_together_full(front, size);
        assert(batches[batches.len() - 1].len() == size);
        let n = batches.len() as int;
        assert(n * size == (n - 1) * size + size) by (nonlinear_arith);
    } else {
        assert(batches.len() * size == 0) by (nonlinear_arith)
            requires
                batches.len() == 0,
        ;
    }
}

/// The first line at fault is what fails, and only the batches that were full before it are
/// indexed: of the documents in the bounds before it, as many from the first on as full batches
/// hold. Those before it that lie outside the bounds are skipped.
pub proof fn law_first_failure_ends(
    docs: Seq<Result<DocumentView, Seq<char>>>,
    bounds: Bounds,
    size: int,
    i: int,
)
    requires
        0 <= i < docs.len(),
        docs[i] is Err,
        no_failure(docs.take(i)),
        size >= 1,
    ensures
        ingest::planned(docs, bounds, size).failure == Some(docs[i]->Err_0),
        ingest::planned(docs, bounds, size).skipped == i - accepted(docs.take(i), bounds).len(),
        ingest::planned(docs, bounds, size).batches() == ingest::planned(docs.take(i), bounds, size).full,
        ({
            let before = accepted(docs.take(i), bounds);
            ingest::together(ingest::planned(docs, bounds, size).batches()) == before.take(
                (before.len() as int / size) * size,
            )
        }),
{
    lemma_planned(docs.take(i), bounds, size);
    assert(docs.take(i + 1).drop_last() =~= docs.take(i));
    ingest::lemma_failure_stays(docs, bounds, size, i + 1);
    let plan = ingest::planned(docs.take(i), bounds, size);
    lemma_together_full(plan.full, size);
    let before = accepted(docs.take(i), bounds);
    let (n, r) = (plan.full.len() as int, plan.rest.len() as int);
    let p = before.len() as int;
    assert(p / size == n) by (nonlinear_arith)
        requires
            p == n * size + r,
            0 <= r < size,
    ;
    assert(before.take(n * size) =~= ingest::together(plan.full));
}

/// Whether a document is that of a row, in a country that has a name.
pub open spec fn from_row(document: DocumentView) -> bool {
    exists|row: Map<Seq<char>, Seq<char>>, config: ConfigView, numbers: NumbersView|
        config.country_name.len() > 0 && #[trigger] csv::row_document(row, config, numbers) == Ok::<
            DocumentView,
            Seq<char>,
        >(document)
}

/// Documents of rows come back whole from the file that they are written to.
pub proof fn law_ingested_documents_read_back(
    map: Map<Seq<char>, DocumentView>,
    figures: Seq<FiguresView>,
    numbers: Seq<NumbersView>,
)
    requires
        map.dom().finite(),
        forall|id: Seq<char>| #[trigger]
            map.contains_key(id) ==> map[id].id == id && from_row(map[id]),
        local_laws::well_figured(local::documents_of(map), figures),
        numbers == local::documents_of(map).map_values(
            |document: DocumentView| record::numbers_of(document),
        ),
    ensures
        ({
            let docs = local::documents_of(map);
            local::loaded(text::lines(local::rows_text(docs, figures, docs.len())), numbers) == Ok::<
                Map<Seq<char>, DocumentView>,
                Seq<char>,
            >(map)
        }),
{
    let docs = local::documents_of(map);
    let keys = ordered::ordered_keys(map.dom());
    ordered::lemma_ordered_keys(map.dom());
    assert forall|id: Seq<char>| #[trigger] map.contains_key(id) implies record::keepable(
        map[id],
    ) by {
        lemma_from_row(map[id]);
    }
    assert forall|i: int| 0 <= i < figures.len() implies ({
        let line = record::row_line(record::row_of(docs[i], (#[trigger] figures[i]).numerals));
        text::strip_return(line) == line
    }) by {
        assert(keys.contains(keys[i]));
        assert(map.dom().contains(keys[i]));
        assert(map.contains_key(keys[i]));
        lemma_from_row(docs[i]);
        record::lemma_row_end(docs[i], figures[i].numerals);
    }
    local_laws::law_documents_read_back(map, figures, numbers);
}

proof fn lemma_from_row(document: DocumentView)
    requires
        from_row(document),
    ensures
        record::keepable(document),
        document.aliases.len() > 0 ==> document.aliases.last().len() > 0
            && document.aliases.last().last() != '\r',
{
    let (row, config, numbers) = choose|
        row: Map<Seq<char>, Seq<char>>,
        config: ConfigView,
        numbers: NumbersView,
    |
        config.country_name.len() > 0 && #[trigger] csv::row_document(row, config, numbers) == Ok::<
            DocumentView,
            Seq<char>,
        >(document);
    csv::law_row_document_kept(row, config, numbers);
    csv::lemma_row_aliases(row, config, numbers);
    if document.aliases.len() > 0 {
        assert(document.aliases[document.aliases.len() - 1].len() > 0);
    }
}

/// The files after each batch has been indexed in turn.
pub open spec fn after_batches(
    files: FileTexts,
    batches: Seq<Seq<DocumentView>>,
    figure: spec_fn(Float64, Float64, Float32) -> FiguresView,
    number: spec_fn(Option<NumeralsView>) -> NumbersView,
) -> Result<FileTexts, Seq<char>>
    decreases batches.len(),
{
    if batches.len() == 0 {
        Ok(files)
    } else {
        match after_batches(files, batches.drop_last(), figure, number) {
            Ok(now) => reindex_laws::after_indexing(now, batches.last(), figure, number),
            Err(message) => Err(message),
        }
    }
}

/// Batches leave the files of the index of what was there and of all their documents.
proof fn lemma_after_batches(
    files: FileTexts,
    map: Map<Seq<char>, DocumentView>,
    batches: Seq<Seq<DocumentView>>,
    figure: spec_fn(Float64, Float64, Float32) -> FiguresView,
    number: spec_fn(Option<NumeralsView>) -> NumbersView,
)
    requires
        reindex_laws::documents_in(files.docs, number) == Ok::<
            Map<Seq<char>, DocumentView>,
            Seq<char>,
        >(map),
        reindex_laws::readable_map(map, figure, number),
        reindex_laws::all_readable(ingest::together(batches), figure, number),
    ensures
        after_batches(files, batches, figure, number) == Ok::<FileTexts, Seq<char>>(
            if batches.len() == 0 {
                files
            } else {
                reindex_laws::files_of(local::merged(map, ingest::together(batches)), figure)
            },
        ),
    decreases batches.len(),
{
    if batches.len() > 0 {
        let front = batches.drop_last();
        let (before, last) = (ingest::together(front), batches.last());
        let all = ingest::together(batches);
        assert forall|i: int| 0 <= i < before.len() implies reindex_laws::readable(
            #[trigger] before[i],
            figure,
            number,
        ) by {
            assert(before[i] == all[i]);
        }
        assert forall|i: int| 0 <= i < last.len() implies reindex_laws::readable(
            #[trigger] last[i],
            figure,
            number,
        ) by {
            assert(last[i] == all[before.len() + i]);
        }
        lemma_after_batches(files, map, front, figure, number);
        local_laws::law_batches(map, before, last);
        if front.len() == 0 {
            assert(all =~= last);
        } else {
            reindex_laws::lemma_merged_readable(map, before, figure, number);
            reindex_laws::law_indexing_through_files(
                local::merged(map, before),
                last,
                figure,
                number,
            );
        }
    }
}

/// The documents in the bounds are among the documents.
proof fn lemma_accepted(docs: Seq<Result<DocumentView, Seq<char>>>, bounds: Bounds, k: int)
    requires
        0 <= k < accepted(docs, bounds).len(),
    ensures
        docs.contains(Ok::<DocumentView, Seq<char>>(accepted(docs, bounds)[k])),
    decreases docs.len(),
{
    if docs.len() > 0 {
        let front = docs.drop_last();
        let before = accepted(front, bounds);
        let found = Ok::<DocumentView, Seq<char>>(accepted(docs, bounds)[k]);
        if k < before.len() {
            lemma_accepted(front, bounds, k);
            let j = choose|j: int| 0 <= j < front.len() && front[j] == found;
            assert(docs[j] == found);
        } else {
            assert(docs[docs.len() - 1] == found);
        }
    }
}

/// The documents of lines have aliases that a row tells apart.
proof fn lemma_line_documents_writable(
    path: Seq<char>,
    lines: Seq<Seq<char>>,
    numbers: Seq<NumbersView>,
    config: ConfigView,
    n: nat,
)
    ensures
        forall|k: int|
            0 <= k < ingest::line_documents(path, lines, numbers, config, n).len()
                && #[trigger] ingest::line_documents(path, lines, numbers, config, n)[k] is Ok
                ==> reindex_laws::writable(
                ingest::line_documents(path, lines, numbers, config, n)[k]->Ok_0,
            ),
    decreases n,
{
    if n > 0 {
        let m = (n - 1) as nat;
        lemma_line_documents_writable(path, lines, numbers, config, m);
        let before = ingest::line_documents(path, lines, numbers, config, m);
        let all = ingest::line_documents(path, lines, numbers, config, n);
        let row = csv::row_of_line(csv::values_of(lines[0]), lines[n as int]);
        if csv::row_document(row, config, numbers[n - 1]) is Ok {
            csv::lemma_row_aliases(row, config, numbers[n - 1]);
        }
        assert forall|k: int| 0 <= k < all.len() && #[trigger] all[k] is Ok implies
            reindex_laws::writable(all[k]->Ok_0) by {
            if k < before.len() {
                assert(all[k] == before[k]);
            }
        }
    }
}

/// The size of batches does not matter to the files: where nothing goes wrong, two ingestions of
/// the same lines into the same index, which differ in the flag for the size of batches only, leave
/// the same files, index as many documents and skip as many. The files are those of the index of
/// what was there and of all documents in the bounds, those of a last batch that is not full
/// included; where there are none, they are left as they were.
pub proof fn law_batch_size_leaves_same_files(
    path: Seq<char>,
    lines: Seq<Seq<char>>,
    numbers: Seq<NumbersView>,
    config: ConfigView,
    n: nat,
    flags: Map<Seq<char>, Seq<char>>,
    other_flags: Map<Seq<char>, Seq<char>>,
    files: FileTexts,
    map: Map<Seq<char>, DocumentView>,
    figure: spec_fn(Float64, Float64, Float32) -> FiguresView,
    number: spec_fn(Option<NumeralsView>) -> NumbersView,
)
    requires
        no_failure(ingest::line_documents(path, lines, numbers, config, n)),
        reindex_laws::documents_in(files.docs, number) == Ok::<
            Map<Seq<char>, DocumentView>,
            Seq<char>,
        >(map),
        reindex_laws::readable_map(map, figure, number),
        ({
            let docs = accepted(
                ingest::line_documents(path, lines, numbers, config, n),
                config.bounds,
            );
            forall|k: int|
                0 <= k < docs.len() ==> reindex_laws::faithful(#[trigger] docs[k], figure, number)
        }),
    ensures
        ({
            let all = ingest::line_documents(path, lines, numbers, config, n);
            let docs = accepted(all, config.bounds);
            let plan = ingest::planned(all, config.bounds, ingest::size_of_batches(flags));
            let other = ingest::planned(all, config.bounds, ingest::size_of_batches(other_flags));
            let left = after_batches(files, plan.batches(), figure, number);
            &&& plan.failure is None
            &&& other.failure is None
            &&& left == after_batches(files, other.batches(), figure, number)
            &&& left == Ok::<FileTexts, Seq<char>>(
                if docs.len() == 0 {
                    files
                } else {
                    reindex_laws::files_of(local::merged(map, docs), figure)
                },
            )
            &&& ingest::together(plan.batches()).len() == ingest::together(other.batches()).len()
            &&& plan.skipped == other.skipped
        }),
{
    let all = ingest::line_documents(path, lines, numbers, config, n);
    let docs = accepted(all, config.bounds);
    lemma_line_documents_writable(path, lines, numbers, config, n);
    assert forall|k: int| 0 <= k < docs.len() implies reindex_laws::readable(
        #[trigger] docs[k],
        figure,
        number,
    ) by {
        lemma_accepted(all, config.bounds, k);
        let found = Ok::<DocumentView, Seq<char>>(docs[k]);
        let j = choose|j: int| 0 <= j < all.len() && all[j] == found;
        assert(all[j] is Ok);
        assert(reindex_laws::writable(all[j]->Ok_0));
        assert(reindex_laws::faithful(docs[k], figure, number));
    }
    lemma_batches_leave(files, map, all, config.bounds, ingest::size_of_batches(flags), figure, number);
    lemma_batches_leave(
        files,
        map,
        all,
        config.bounds,
        ingest::size_of_batches(other_flags),
        figure,
        number,
    );
}

proof fn lemma_batches_leave(
    files: FileTexts,
    map: Map<Seq<char>, DocumentView>,
    all: Seq<Result<DocumentView, Seq<char>>>,
    bounds: Bounds,
    size: int,
    figure: spec_fn(Float64, Float64, Float32) -> FiguresView,
    number: spec_fn(Option<NumeralsView>) -> NumbersView,
)
    requires
        no_failure(all),
        size >= 1,
        reindex_laws::documents_in(files.docs, number) == Ok::<
            Map<Seq<char>, DocumentView>,
            Seq<char>,
        >(map),
        reindex_laws::readable_map(map, figure, number),
        reindex_laws::all_readable(accepted(all, bounds), figure, number),
    ensures
        ({
            let plan = ingest::planned(all, bounds, size);
            let docs = accepted(all, bounds);
            &&& plan.failure is None
            &&& after_batches(files, plan.batches(), figure, number) == Ok::<FileTexts, Seq<char>>(
                if docs.len() == 0 {
                    files
                } else {
                    reindex_laws::files_of(local::merged(map, docs), figure)
                },
            )
            &&& ingest::together(plan.batches()).len() == docs.len()
            &&& plan.skipped == all.len() - docs.len()
        }),
{
    law_batches_hold_accepted(all, bounds, size);
    let batches = ingest::planned(all, bounds, size).batches();
    lemma_after_batches(files, map, batches, figure, number);
    if batches.len() > 0 {
        let last = batches[batches.len() - 1];
        assert(last.len() >= 1);
    }
}

/// Where nothing goes wrong, the documents of the batches are those that lie in the bounds by the
/// numbers of their coordinates, in their order.
pub proof fn law_batches_hold_documents_in_bounds(
    docs: Seq<DocumentView>,
    bounds: Bounds,
    size: int,
)
    requires
        size >= 1,
    ensures
        ({
            let plan = ingest::planned(
                docs.map_values(|document: DocumentView| Ok::<DocumentView, Seq<char>>(document)),
                bounds,
                size,
            );
            let inside = docs.filter(
                |document: DocumentView|
                    {
                        &&& !document.longitude.is_nan() && !document.latitude.is_nan()
                        &&& !bounds.min_lon.is_nan() && !bounds.max_lon.is_nan()
                        &&& !bounds.min_lat.is_nan() && !bounds.max_lat.is_nan()
                        &&& bounds.min_lon.value() <= document.longitude.value()
                        &&& document.longitude.value() <= bounds.max_lon.value()
                        &&& bounds.min_lat.value() <= document.latitude.value()
                        &&& document.latitude.value() <= bounds.max_lat.value()
                    },
            );
            &&& plan.failure is None
            &&& ingest::together(plan.batches()) == inside
            &&& plan.skipped == docs.len() - inside.len()
            &&& forall|i: int|
                0 <= i < plan.batches().len() - 1 ==> (#[trigger] plan.batches()[i]).len() == size
            &&& forall|i: int|
                0 <= i < plan.batches().len() ==> 1 <= (#[trigger] plan.batches()[i]).len() <= size
        }),
{
    let wrap = |document: DocumentView| Ok::<DocumentView, Seq<char>>(document);
    let within = |document: DocumentView|
        {
            &&& !document.longitude.is_nan() && !document.latitude.is_nan()
            &&& !bounds.min_lon.is_nan() && !bounds.max_lon.is_nan()
            &&& !bounds.min_lat.is_nan() && !bounds.max_lat.is_nan()
            &&& bounds.min_lon.value() <= document.longitude.value()
            &&& document.longitude.value() <= bounds.max_lon.value()
            &&& bounds.min_lat.value() <= document.latitude.value()
            &&& document.latitude.value() <= bounds.max_lat.value()
        };
    let all = docs.map_values(wrap);
    assert forall|i: int| 0 <= i < all.len() implies #[trigger] all[i] is Ok by {
    }
    law_batches_hold_accepted(all, bounds, size);
    assert forall|document: DocumentView| #[trigger] within(document) == bounds.holds(
        ingest::place_of(document),
    ) by {
        query::law_bounds_by_numbers(bounds, ingest::place_of(document));
    }
    lemma_accepted_filter(docs, bounds, within);
}

proof fn lemma_accepted_filter(
    docs: Seq<DocumentView>,
    bounds: Bounds,
    within: spec_fn(DocumentView) -> bool,
)
    requires
        forall|document: DocumentView| #[trigger]
            within(document) == bounds.holds(ingest::place_of(document)),
    ensures
        accepted(
            docs.map_values(|document: DocumentView| Ok::<DocumentView, Seq<char>>(document)),
            bounds,
        ) == docs.filter(within),
    decreases docs.len(),
{
    let wrap = |document: DocumentView| Ok::<DocumentView, Seq<char>>(document);
    let all = docs.map_values(wrap);
    if docs.len() == 0 {
        docs.lemma_filter_len(within);
        assert(accepted(all, bounds) =~= docs.filter(within));
    } else {
        let front = docs.drop_last();
        lemma_accepted_filter(front, bounds, within);
        assert(all.drop_last() =~= front.map_values(wrap));
        assert(all.last() == wrap(docs.last()));
        front.lemma_filter_push(docs.last(), within);
        assert(front.push(docs.last()) =~= docs);
        assert(within(docs.last()) == bounds.holds(ingest::place_of(docs.last())));
    }
}

/// Each line after the header that is not blank gives the document of its row, or the path, the
/// number of the line counted from 1, and what is wrong with the row; a blank line gives nothing.
pub proof fn law_lines_give_documents(
    path: Seq<char>,
    lines: Seq<Seq<char>>,
    numbers: Seq<NumbersView>,
    config: ConfigView,
    n: nat,
)
    ensures
        ({
            let before = ingest::line_documents(path, lines, numbers, config, n);
            let after = ingest::line_documents(path, lines, numbers, config, n + 1);
            let line = lines[n as int + 1];
            let read = csv::row_document(
                csv::row_of_line(csv::values_of(lines[0]), line),
                config,
                numbers[n as int],
            );
            &&& n == 0 ==> before.len() == 0
            &&& text::trim(line).len() == 0 ==> after == before
            &&& text::trim(line).len() > 0 && read is Ok ==> after == before.push(read)
            &&& text::trim(line).len() > 0 && read is Err ==> after == before.push(
                Err(
                    path + " line "@ + decimal::digits(n + 2) + seq![':', ' '] + read->Err_0,
                ),
            )
        }),
{
    reveal_strlit(": ");
    assert(": "@ =~= seq![':', ' ']);
}

/// The size of batches is what the flag writes, but at least 1; where the flag is missing or writes
/// no number, it is 5000.
pub proof fn law_size_of_batches(flags: Map<Seq<char>, Seq<char>>, n: nat)
    requires
        n <= usize::MAX,
    ensures
        !flags.contains_key("batch-size"@) ==> ingest::size_of_batches(flags) == 5000,
        ingest::size_of_batches(flags.insert("batch-size"@, decimal::digits(n))) == if n == 0 {
            1
        } else {
            n as int
        },
        flags.contains_key("batch-size"@) && decimal::number(
            flags["batch-size"@],
            usize::MAX as nat,
        ) is Err ==> ingest::size_of_batches(flags) == 5000,
{
    decimal::law_number_of_digits(n, usize::MAX as nat);
}

/// The command to prepare an index needs the flags for the configuration, the input and the output,
/// and the command to count documents the flag for the index; the first that is missing is
/// reported, and so is what is wrong with the flags. Without a command, or with another, the program
/// tells how it is used.
pub proof fn law_commands(
    program: Seq<char>,
    command: Seq<char>,
    rest: Seq<Seq<char>>,
)
    ensures
        ({
            let read = ingest::command_of(seq![program, command] + rest);
            let given = flags::flags_of(rest, Map::<Seq<char>, Seq<char>>::empty());
            let flags = given->Ok_0;
            let missing = |key: Seq<char>|
                Err::<CommandView, Seq<char>>("missing --"@ + key);
            &&& command != "prepare"@ && command != "stats"@ ==> read == Ok::<
                CommandView,
                Seq<char>,
            >(CommandView::Usage)
            &&& (command == "prepare"@ || command == "stats"@) && given is Err ==> read == Err::<
                CommandView,
                Seq<char>,
            >(given->Err_0)
            &&& command == "prepare"@ && given is Ok ==> read == if !flags.contains_key("config"@) {
                missing("config"@)
            } else if !flags.contains_key("input"@) {
                missing("input"@)
            } else if !flags.contains_key("output"@) {
                missing("output"@)
            } else {
                Ok(
                    CommandView::Prepare {
                        config: flags["config"@],
                        input: flags["input"@],
                        output: flags["output"@],
                        batch_size: ingest::size_of_batches(flags),
                    },
                )
            }
            &&& command == "stats"@ && given is Ok ==> read == if !flags.contains_key("index"@) {
                missing("index"@)
            } else {
                Ok(CommandView::Stats { index: flags["index"@] })
            }
        }),
        ingest::command_of(seq![program]) == Ok::<CommandView, Seq<char>>(CommandView::Usage),
        ingest::command_of(Seq::<Seq<char>>::empty()) == Ok::<CommandView, Seq<char>>(
            CommandView::Usage,
        ),
{
    reveal_strlit("prepare");
    reveal_strlit("stats");
    assert("prepare"@.len() != "stats"@.len());
    let args = seq![program, command] + rest;
    assert(args[1] == command);
    assert(args.skip(2) =~= rest);
}

} // verus!
