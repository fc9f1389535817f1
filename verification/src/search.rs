//! From candidate documents to the hits of a search: which of them count, and in what order.
use vstd::arithmetic::power2;
use vstd::prelude::*;

use crate::document::{DocumentView, GeoDocument};
use crate::float;
use crate::float::{Float32, Float64};
use crate::grid;
use crate::index_file;
use crate::offsets;
use crate::offsets::OffsetSet;
use crate::ordered::TextMap;
use crate::postings;
use crate::query;
use crate::query::{AutocompleteQuery, ForwardQuery, HitView, ReverseQuery, SearchHit};
use crate::terms;
use crate::text;

verus! {

/// The order of hits.
#[derive(Clone, Copy, Debug)]
pub enum Ranking {
    /// The highest score first.
    ByScore,
    /// The nearest first, and at the same distance the highest score first.
    ByDistance,
}

/// Whether the first distance is the shorter; none counts as shorter than any.
pub open spec fn shorter(a: Option<Float64>, b: Option<Float64>) -> bool {
    match (a, b) {
        (None, Some(_)) => true,
        (Some(x), Some(y)) => x.below(y),
        _ => false,
    }
}

impl Ranking {
    /// Whether hit `a` must come before hit `b`.
    pub open spec fn first(self, a: HitView, b: HitView) -> bool {
        match self {
            Ranking::ByScore => b.score.below(a.score),
            Ranking::ByDistance => shorter(a.distance_meters, b.distance_meters) || (!shorter(
                b.distance_meters,
                a.distance_meters,
            ) && b.score.below(a.score)),
        }
    }

    fn comes_first(&self, a: &SearchHit, b: &SearchHit) -> (result: bool)
        ensures
            result == self.first(a@, b@),
    {
        match *self {
            Ranking::ByScore => b.score.is_below(a.score),
            Ranking::ByDistance => is_shorter(a.distance_meters, b.distance_meters) || (
            !is_shorter(b.distance_meters, a.distance_meters) && b.score.is_below(a.score)),
        }
    }
}

fn is_shorter(a: Option<Float64>, b: Option<Float64>) -> (result: bool)
    ensures
        result == shorter(a, b),
{
    match (a, b) {
        (None, Some(_)) => true,
        (Some(x), Some(y)) => x.is_below(y),
        _ => false,
    }
}

/// The list with `hit` before the first of its hits that it must come before.
pub open spec fn placed(ranking: Ranking, list: Seq<HitView>, hit: HitView) -> Seq<HitView>
    decreases list.len(),
{
    if list.len() == 0 {
        seq![hit]
    } else if ranking.first(hit, list[0]) {
        seq![hit] + list
    } else {
        seq![list[0]] + placed(ranking, list.drop_first(), hit)
    }
}

/// The hits in order; hits of which neither must come before the other keep their order.
pub open spec fn ranked(ranking: Ranking, hits: Seq<HitView>) -> Seq<HitView>
    decreases hits.len(),
{
    if hits.len() == 0 {
        Seq::<HitView>::empty()
    } else {
        placed(ranking, ranked(ranking, hits.drop_last()), hits.last())
    }
}

/// The first elements of a sequence, at most `limit` of them.
pub open spec fn at_most<T>(list: Seq<T>, limit: int) -> Seq<T> {
    if list.len() <= limit {
        list
    } else {
        list.take(limit)
    }
}

/// The best hits in order, as many as the bounded limit allows.
pub open spec fn best(ranking: Ranking, hits: Seq<HitView>, limit: int) -> Seq<HitView> {
    at_most(ranked(ranking, hits), query::limit_within_bounds(limit))
}

/// Where `placed` puts a hit: after hits that it must not come before, and before one that it
/// must, or at the end.
pub proof fn lemma_placed(ranking: Ranking, list: Seq<HitView>, hit: HitView, p: int)
    requires
        0 <= p <= list.len(),
        forall|i: int| 0 <= i < p ==> !ranking.first(hit, #[trigger] list[i]),
        p < list.len() ==> ranking.first(hit, list[p]),
    ensures
        placed(ranking, list, hit) == list.take(p).push(hit) + list.skip(p),
    decreases list.len(),
{
    if list.len() == 0 {
        assert(placed(ranking, list, hit) =~= list.take(p).push(hit) + list.skip(p));
    } else if p == 0 {
        assert(placed(ranking, list, hit) =~= list.take(p).push(hit) + list.skip(p));
    } else {
        let rest = list.drop_first();
        assert forall|i: int| 0 <= i < p - 1 implies !ranking.first(hit, #[trigger] rest[i]) by {
            assert(rest[i] == list[i + 1]);
        }
        lemma_placed(ranking, rest, hit, p - 1);
        assert(placed(ranking, list, hit) =~= list.take(p).push(hit) + list.skip(p));
    }
}

/// The place of a hit: the first hit of the list that it must come before.
pub proof fn lemma_place(ranking: Ranking, list: Seq<HitView>, hit: HitView) -> (p: int)
    ensures
        0 <= p <= list.len(),
        forall|i: int| 0 <= i < p ==> !ranking.first(hit, #[trigger] list[i]),
        p < list.len() ==> ranking.first(hit, list[p]),
        placed(ranking, list, hit) == list.take(p).push(hit) + list.skip(p),
    decreases list.len(),
{
    let p = if list.len() == 0 || ranking.first(hit, list[0]) {
        0
    } else {
        let rest = list.drop_first();
        let q = lemma_place(ranking, rest, hit);
        assert forall|i: int| 0 <= i < q + 1 implies !ranking.first(hit, #[trigger] list[i]) by {
            if i > 0 {
                assert(list[i] == rest[i - 1]);
            }
        }
        q + 1
    };
    lemma_placed(ranking, list, hit, p);
    p
}

/// Only the first hits of a list decide the first hits of the list with one more.
proof fn lemma_placed_prefix(ranking: Ranking, list: Seq<HitView>, hit: HitView, k: int)
    requires
        k >= 1,
    ensures
        at_most(placed(ranking, at_most(list, k), hit), k) == at_most(
            placed(ranking, list, hit),
            k,
        ),
        placed(ranking, list, hit).len() == list.len() + 1,
{
    let p = lemma_place(ranking, list, hit);
    if list.len() > k {
        let front = list.take(k);
        if p < k {
            assert forall|i: int| 0 <= i < p implies !ranking.first(hit, #[trigger] front[i]) by {
                assert(front[i] == list[i]);
            }
            lemma_placed(ranking, front, hit, p);
            assert(at_most(placed(ranking, front, hit), k) =~= at_most(
                placed(ranking, list, hit),
                k,
            ));
        } else {
            assert forall|i: int| 0 <= i < k implies !ranking.first(hit, #[trigger] front[i]) by {
                assert(front[i] == list[i]);
            }
            lemma_placed(ranking, front, hit, k);
            assert(at_most(placed(ranking, front, hit), k) =~= at_most(
                placed(ranking, list, hit),
                k,
            ));
        }
    }
}

/// The best hits in order, as many as the bounded limit allows.
fn best_hits(ranking: Ranking, hits: Vec<SearchHit>, limit: usize) -> (result: Vec<SearchHit>)
    ensures
        result.deep_view() == best(ranking, hits.deep_view(), limit as int),
{
    let limit: usize = query::bounded_limit(limit);
    let ghost all = hits.deep_view();
    let mut result: Vec<SearchHit> = Vec::new();
    assert(all.take(0) =~= Seq::<HitView>::empty());
    for hit in it: hits
        invariant
            1 <= limit <= 100,
            it.seq() == hits@,
            all == hits.deep_view(),
            result.deep_view() == at_most(ranked(ranking, all.take(it.index() as int)), limit as int),
            result@.len() <= limit,
    {
        let ghost i = it.index() as int;
        let ghost seen = ranked(ranking, all.take(i));
        let ghost before = result.deep_view();
        assert(all.take(i + 1).drop_last() =~= all.take(i));
        assert(all.take(i + 1).last() == hit@);
        proof {
            lemma_placed_prefix(ranking, seen, hit@, limit as int);
        }
        let mut p: usize = 0;
        while p < result.len() && !ranking.comes_first(&hit, &result[p])
            invariant
                p <= result@.len(),
                result.deep_view() == before,
                forall|j: int| 0 <= j < p ==> !ranking.first(hit@, #[trigger] before[j]),
            decreases result@.len() - p,
        {
            assert(before[p as int] == result@[p as int]@);
            p = p + 1;
        }
        proof {
            if p < before.len() {
                assert(before[p as int] == result@[p as int]@);
            }
            lemma_placed(ranking, before, hit@, p as int);
        }
        result.insert(p, hit);
        assert(result.deep_view() =~= placed(ranking, before, hit@));
        if result.len() > limit {
            result.truncate(limit);
            assert(result.deep_view() =~= placed(ranking, before, hit@).take(limit as int));
        }
    }
    assert(all.take(all.len() as int) =~= all);
    result
}

/// The terms of a search text, or none where a search for it finds nothing.
pub fn search_terms(text: &str) -> (result: Option<Vec<String>>)
    ensures
        match result {
            Some(found) => found.deep_view() == terms::terms_of(text@) && found@.len() > 0,
            None => terms::terms_of(text@).len() == 0,
        },
{
    let found = terms::normalized_terms(text);
    if found.len() == 0 {
        None
    } else {
        Some(found)
    }
}

/// The index of the text of an index file; it is empty where there is no file.
pub open spec fn index_in(file: Option<&str>) -> Map<Seq<char>, Seq<u64>> {
    match file {
        Some(text) => index_file::index_of(text::lines(text@)),
        None => Map::<Seq<char>, Seq<u64>>::empty(),
    }
}

fn read_index(file: Option<&str>) -> (result: TextMap<OffsetSet>)
    ensures
        result.wf(),
        postings::sound(result@),
        result@ == index_in(file),
{
    match file {
        Some(text) => index_file::read_offset_index(text),
        None => TextMap::new(),
    }
}

/// The offsets of the documents that a forward search for the terms looks at, given the text of
/// the file of terms where there is one.
pub fn forward_offsets(terms: &Vec<String>, file: Option<&str>) -> (result: OffsetSet)
    ensures
        result.wf(),
        forall|y: u64| #[trigger]
            result@.contains(y) <==> offsets::in_all(
                postings::lists_of(index_in(file), terms.deep_view()),
                y,
            ),
{
    postings::intersect_offsets(terms, &read_index(file))
}

/// The offsets of the documents that an autocompletion of the terms looks at, given the text of
/// the file of terms where there is one.
pub fn autocomplete_offsets(terms: &Vec<String>, file: Option<&str>) -> (result: OffsetSet)
    ensures
        result.wf(),
        forall|y: u64| #[trigger]
            result@.contains(y) <==> postings::matches_beginning(
                index_in(file),
                terms.deep_view(),
                y,
            ),
{
    postings::autocomplete_offsets(terms, &read_index(file))
}

/// The cells of a rectangle: its lowest and highest rows and columns.
#[derive(Clone, Copy, Debug)]
pub struct CellBounds {
    pub min_lat_cell: i32,
    pub min_lon_cell: i32,
    pub max_lat_cell: i32,
    pub max_lon_cell: i32,
}

/// The offsets of the documents in the cells of a rectangle, given the text of the file of cells
/// where there is one.
pub fn reverse_offsets(cells: CellBounds, file: Option<&str>) -> (result: OffsetSet)
    ensures
        result.wf(),
        forall|y: u64| #[trigger]
            result@.contains(y) <==> postings::posted_under_any(
                index_in(file),
                grid::bound_cells(
                    cells.min_lat_cell as int,
                    cells.min_lon_cell as int,
                    cells.max_lat_cell as int,
                    cells.max_lon_cell as int,
                ),
                y,
            ),
{
    let names = grid::cells_for_bounds(
        cells.min_lat_cell,
        cells.min_lon_cell,
        cells.max_lat_cell,
        cells.max_lon_cell,
    );
    postings::union_offsets(&names, &read_index(file))
}

/// How far a document is from the point of a query, and the score that its popularity and its
/// distance give it.
#[derive(Clone, Copy, Debug)]
pub struct Measure {
    pub distance_meters: Float64,
    pub score: Float32,
}

/// The hit of document `i`. Without measures its popularity is its score.
pub open spec fn hit_of(docs: Seq<DocumentView>, measures: Option<Seq<Measure>>, i: int) -> HitView {
    match measures {
        Some(list) => HitView {
            document: docs[i],
            score: list[i].score,
            distance_meters: Some(list[i].distance_meters),
        },
        None => HitView {
            document: docs[i],
            score: docs[i].popularity,
            distance_meters: None,
        },
    }
}

/// Whether a document is of the country, where one is asked for.
pub open spec fn in_country(document: DocumentView, country_code: Option<Seq<char>>) -> bool {
    country_code matches Some(code) ==> document.country_code == code
}

/// The hits of the first `n` documents that are of the country, where one is asked for.
pub open spec fn scored(
    docs: Seq<DocumentView>,
    measures: Option<Seq<Measure>>,
    country_code: Option<Seq<char>>,
    n: nat,
) -> Seq<HitView>
    decreases n,
{
    if n == 0 {
        Seq::<HitView>::empty()
    } else {
        let before = scored(docs, measures, country_code, (n - 1) as nat);
        if in_country(docs[n - 1], country_code) {
            before.push(hit_of(docs, measures, n - 1))
        } else {
            before
        }
    }
}

/// The hits of the documents that are of the country, where one is asked for.
pub fn score_offsets(
    docs: &Vec<GeoDocument>,
    measures: Option<&Vec<Measure>>,
    country_code: &Option<String>,
) -> (result: Vec<SearchHit>)
    requires
        measures matches Some(list) ==> list@.len() == docs@.len(),
    ensures
        result.deep_view() == scored(
            docs.deep_view(),
            measured(measures),
            country_code.deep_view(),
            docs@.len(),
        ),
{
    let ghost all = docs.deep_view();
    let ghost marks = measured(measures);
    let ghost code_view = country_code.deep_view();
    let mut result: Vec<SearchHit> = Vec::new();
    let mut i: usize = 0;
    assert(result.deep_view() =~= Seq::<HitView>::empty());
    while i < docs.len()
        invariant
            i <= docs@.len(),
            all == docs.deep_view(),
            marks == measured(measures),
            code_view == country_code.deep_view(),
            measures matches Some(list) ==> list@.len() == docs@.len(),
            result.deep_view() == scored(all, marks, code_view, i as nat),
        decreases docs@.len() - i,
    {
        let ghost before = result.deep_view();
        assert(all[i as int] == docs@[i as int]@);
        let wanted = match country_code {
            Some(code) => docs[i].country_code == *code,
            None => true,
        };
        assert(wanted == in_country(all[i as int], code_view));
        if wanted {
            let hit = match measures {
                Some(list) => SearchHit {
                    document: docs[i].clone(),
                    score: list[i].score,
                    distance_meters: Some(list[i].distance_meters),
                },
                None => SearchHit {
                    document: docs[i].clone(),
                    score: docs[i].popularity,
                    distance_meters: None,
                },
            };
            assert(hit@ == hit_of(all, marks, i as int));
            result.push(hit);
            assert(result.deep_view() =~= before.push(hit@));
        }
        i = i + 1;
    }
    result
}

/// The measures of a list, where there is one.
pub open spec fn measured(measures: Option<&Vec<Measure>>) -> Option<Seq<Measure>> {
    match measures {
        Some(list) => Some(list@),
        None => None,
    }
}

/// What a forward search gives, of the documents that it has looked at in the order of their
/// offsets. The measures are those of the documents to its focus, where it has one.
pub fn forward_hits(
    query: &ForwardQuery,
    docs: &Vec<GeoDocument>,
    measures: Option<&Vec<Measure>>,
) -> (result: Vec<SearchHit>)
    requires
        measures is Some <==> query.focus is Some,
        measures matches Some(list) ==> list@.len() == docs@.len(),
    ensures
        result.deep_view() == best(
            Ranking::ByScore,
            scored(
                docs.deep_view(),
                measured(measures),
                query.country_code.deep_view(),
                docs@.len(),
            ),
            query.limit as int,
        ),
{
    let hits = score_offsets(docs, measures, &query.country_code);
    best_hits(Ranking::ByScore, hits, query.limit)
}

/// What an autocompletion gives, of the documents that it has looked at in the order of their
/// offsets.
pub fn autocomplete_hits(query: &AutocompleteQuery, docs: &Vec<GeoDocument>) -> (result: Vec<
    SearchHit,
>)
    ensures
        result.deep_view() == best(
            Ranking::ByScore,
            scored(docs.deep_view(), None, query.country_code.deep_view(), docs@.len()),
            query.limit as int,
        ),
{
    let hits = score_offsets(docs, None, &query.country_code);
    best_hits(Ranking::ByScore, hits, query.limit)
}

/// The hits of the first `n` documents whose distance is at most the radius.
pub open spec fn near(
    docs: Seq<DocumentView>,
    measures: Seq<Measure>,
    radius_meters: int,
    n: nat,
) -> Seq<HitView>
    decreases n,
{
    if n == 0 {
        Seq::<HitView>::empty()
    } else {
        let before = near(docs, measures, radius_meters, (n - 1) as nat);
        if measures[n - 1].distance_meters.at_most(radius_meters) {
            before.push(hit_of(docs, Some(measures), n - 1))
        } else {
            before
        }
    }
}

/// What a reverse search gives, of the documents that it has looked at in the order of their
/// offsets and of their distances from its point.
pub fn reverse_hits(query: &ReverseQuery, docs: &Vec<GeoDocument>, measures: &Vec<Measure>) -> (result:
    Vec<SearchHit>)
    requires
        measures@.len() == docs@.len(),
    ensures
        result.deep_view() == best(
            Ranking::ByDistance,
            near(docs.deep_view(), measures@, query.radius_meters as int, docs@.len()),
            query.limit as int,
        ),
{
    let radius = Float64::of_u32(query.radius_meters);
    let ghost all = docs.deep_view();
    let ghost marks = measures@;
    let ghost meters = query.radius_meters as int;
    let mut hits: Vec<SearchHit> = Vec::new();
    let mut i: usize = 0;
    assert(hits.deep_view() =~= Seq::<HitView>::empty());
    while i < docs.len()
        invariant
            i <= docs@.len() == measures@.len(),
            all == docs.deep_view(),
            marks == measures@,
            meters == query.radius_meters,
            !radius.is_nan(),
            radius.value() == meters * power2::pow2(1074),
            hits.deep_view() == near(all, marks, meters, i as nat),
        decreases docs@.len() - i,
    {
        let ghost before = hits.deep_view();
        assert(all[i as int] == docs@[i as int]@);
        let distance = measures[i].distance_meters;
        proof {
            if !distance.is_nan() {
                float::law_double_order(distance, radius);
            }
        }
        if distance.is_within(radius) {
            let hit = SearchHit {
                document: docs[i].clone(),
                score: measures[i].score,
                distance_meters: Some(distance),
            };
            assert(hit@ == hit_of(all, Some(marks), i as int));
            hits.push(hit);
            assert(hits.deep_view() =~= before.push(hit@));
        }
        i = i + 1;
    }
    best_hits(Ranking::ByDistance, hits, query.limit)
}

} // verus!
