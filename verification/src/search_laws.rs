//! What holds of the hits of a search, and of their order.
use vstd::arithmetic::power2;
use vstd::prelude::*;

use crate::document::DocumentView;
use crate::float;
use crate::float::Float64;
use crate::grid;
use crate::index_file;
use crate::local;
use crate::local::FiguresView;
use crate::local_laws;
use crate::offsets;
use crate::postings;
use crate::query;
use crate::query::HitView;
use crate::record;
use crate::search;
use crate::search::{Measure, Ranking};
use crate::text;

verus! {

/// Ranking neither adds nor drops a hit.
pub proof fn law_ranking_keeps_hits(ranking: Ranking, hits: Seq<HitView>)
    ensures
        search::ranked(ranking, hits).to_multiset() == hits.to_multiset(),
        search::ranked(ranking, hits).len() == hits.len(),
    decreases hits.len(),
{
    broadcast use vstd::seq_lib::group_to_multiset_ensures;

    if hits.len() > 0 {
        let front = hits.drop_last();
        law_ranking_keeps_hits(ranking, front);
        let list = search::ranked(ranking, front);
        let hit = hits.last();
        let p = search::lemma_place(ranking, list, hit);
        let placed = list.take(p).push(hit) + list.skip(p);
        assert(placed =~= list.insert(p, hit));
        vstd::seq_lib::to_multiset_insert(list, p, hit);
        assert(front.push(hit) =~= hits);
    } else {
        assert(search::ranked(ranking, hits) =~= hits);
    }
}

/// A search gives as many hits as there are, but no more than its bounded limit, and so at most a
/// hundred.
pub proof fn law_hit_count(ranking: Ranking, hits: Seq<HitView>, limit: int)
    ensures
        search::best(ranking, hits, limit).len() == if hits.len()
            <= query::limit_within_bounds(limit) {
            hits.len() as int
        } else {
            query::limit_within_bounds(limit)
        },
        search::best(ranking, hits, limit).len() <= 100,
        hits.len() > 0 ==> search::best(ranking, hits, limit).len() > 0,
{
    law_ranking_keeps_hits(ranking, hits);
}

proof fn lemma_ranked_contains(ranking: Ranking, hits: Seq<HitView>, hit: HitView)
    ensures
        search::ranked(ranking, hits).contains(hit) <==> hits.contains(hit),
{
    broadcast use vstd::seq_lib::group_to_multiset_ensures;

    law_ranking_keeps_hits(ranking, hits);
    assert(search::ranked(ranking, hits).to_multiset().count(hit) == hits.to_multiset().count(hit));
}

/// What a search gives is among what it has found, and is all of it where the limit allows.
pub proof fn law_hits_are_found(ranking: Ranking, hits: Seq<HitView>, limit: int, hit: HitView)
    ensures
        search::best(ranking, hits, limit).contains(hit) ==> hits.contains(hit),
        hits.len() <= query::limit_within_bounds(limit) && hits.contains(hit) ==> search::best(
            ranking,
            hits,
            limit,
        ).contains(hit),
{
    lemma_ranked_contains(ranking, hits, hit);
    law_ranking_keeps_hits(ranking, hits);
    let all = search::ranked(ranking, hits);
    let given = search::best(ranking, hits, limit);
    if given.contains(hit) {
        let i = choose|i: int| 0 <= i < given.len() && given[i] == hit;
        assert(all[i] == hit);
        assert(all.contains(hit));
    }
}

/// Whether the score of a hit and its distance, where it has one, are numbers.
pub open spec fn rankable(hit: HitView) -> bool {
    &&& !hit.score.is_nan()
    &&& hit.distance_meters matches Some(distance) ==> !distance.is_nan()
}

pub open spec fn all_rankable(hits: Seq<HitView>) -> bool {
    forall|i: int| 0 <= i < hits.len() ==> rankable(#[trigger] hits[i])
}

/// Hits with numbers are ordered: none must come before itself or before what must come before
/// it, and of three hits what holds of neighbours holds of the outer two.
pub proof fn law_order_of_hits(ranking: Ranking, a: HitView, b: HitView, c: HitView)
    requires
        rankable(a),
        rankable(b),
        rankable(c),
    ensures
        !ranking.first(a, a),
        ranking.first(a, b) ==> !ranking.first(b, a),
        ranking.first(a, b) && ranking.first(b, c) ==> ranking.first(a, c),
        !ranking.first(a, b) && !ranking.first(b, c) ==> !ranking.first(a, c),
{
}

/// Whether no hit of the list must come before an earlier one.
pub open spec fn in_order(ranking: Ranking, hits: Seq<HitView>) -> bool {
    forall|i: int, j: int|
        0 <= i < j < hits.len() ==> !ranking.first(#[trigger] hits[j], #[trigger] hits[i])
}

/// Whether the ranking orders the hits that a predicate admits: of two hits not both must come
/// before the other, and what need not come before a second, which need not come before a third,
/// need not come before the third.
pub open spec fn orders(ranking: Ranking, admits: spec_fn(HitView) -> bool) -> bool {
    &&& forall|a: HitView, b: HitView|
        admits(a) && admits(b) && #[trigger] ranking.first(a, b) ==> !ranking.first(b, a)
    &&& forall|a: HitView, b: HitView, c: HitView|
        admits(a) && admits(b) && admits(c) && !#[trigger] ranking.first(a, b)
            && !#[trigger] ranking.first(b, c) ==> !ranking.first(a, c)
}

/// Ranking hits that the ranking orders puts them in order.
proof fn lemma_ranked_by(
    ranking: Ranking,
    admits: spec_fn(HitView) -> bool,
    hits: Seq<HitView>,
)
    requires
        orders(ranking, admits),
        forall|i: int| 0 <= i < hits.len() ==> admits(#[trigger] hits[i]),
    ensures
        in_order(ranking, search::ranked(ranking, hits)),
        forall|i: int|
            0 <= i < hits.len() ==> admits(#[trigger] search::ranked(ranking, hits)[i]),
        search::ranked(ranking, hits).len() == hits.len(),
    decreases hits.len(),
{
    if hits.len() > 0 {
        let front = hits.drop_last();
        assert forall|i: int| 0 <= i < front.len() implies admits(#[trigger] front[i]) by {
            assert(front[i] == hits[i]);
        }
        lemma_ranked_by(ranking, admits, front);
        let list = search::ranked(ranking, front);
        let hit = hits[hits.len() - 1];
        assert(admits(hit));
        let p = search::lemma_place(ranking, list, hit);
        let now = search::ranked(ranking, hits);
        assert(now == list.take(p).push(hit) + list.skip(p));
        assert forall|i: int| 0 <= i < now.len() implies admits(#[trigger] now[i]) by {
            if i < p {
                assert(now[i] == list[i]);
            } else if i > p {
                assert(now[i] == list[i - 1]);
            }
        }
        assert forall|i: int, j: int| 0 <= i < j < now.len() implies !ranking.first(
            #[trigger] now[j],
            #[trigger] now[i],
        ) by {
            if j < p {
                assert(now[j] == list[j] && now[i] == list[i]);
            } else if j == p {
                assert(now[i] == list[i]);
            } else {
                assert(now[j] == list[j - 1]);
                if i < p {
                    assert(now[i] == list[i]);
                } else if i > p {
                    assert(now[i] == list[i - 1]);
                } else {
                    assert(ranking.first(hit, list[p]) && !ranking.first(list[p], hit));
                    if j - 1 > p {
                        assert(!ranking.first(list[j - 1], list[p]));
                    }
                }
            }
        }
    }
}

/// Hits that have numbers are ordered.
proof fn lemma_rankable_ordered(ranking: Ranking)
    ensures
        orders(ranking, |hit: HitView| rankable(hit)),
{
}

proof fn lemma_ranked_in_order(ranking: Ranking, hits: Seq<HitView>)
    requires
        all_rankable(hits),
    ensures
        in_order(ranking, search::ranked(ranking, hits)),
        all_rankable(search::ranked(ranking, hits)),
{
    let admits = |hit: HitView| rankable(hit);
    lemma_rankable_ordered(ranking);
    lemma_ranked_by(ranking, admits, hits);
    let now = search::ranked(ranking, hits);
    assert forall|i: int| 0 <= i < now.len() implies rankable(#[trigger] now[i]) by {
        assert(admits(now[i]));
    }
}

/// The hits of a search are in order, where scores and distances are numbers; and a hit that the
/// limit leaves out need not come before any that is given.
pub proof fn law_hits_in_order(ranking: Ranking, hits: Seq<HitView>, limit: int)
    requires
        all_rankable(hits),
    ensures
        in_order(ranking, search::best(ranking, hits, limit)),
        forall|i: int, j: int|
            0 <= i < search::best(ranking, hits, limit).len() <= j < hits.len() ==> !ranking.first(
                #[trigger] search::ranked(ranking, hits)[j],
                #[trigger] search::best(ranking, hits, limit)[i],
            ),
{
    lemma_ranked_in_order(ranking, hits);
    law_ranking_keeps_hits(ranking, hits);
    let all = search::ranked(ranking, hits);
    let given = search::best(ranking, hits, limit);
    assert forall|i: int, j: int| 0 <= i < j < given.len() implies !ranking.first(
        #[trigger] given[j],
        #[trigger] given[i],
    ) by {
        assert(given[i] == all[i] && given[j] == all[j]);
    }
    assert forall|i: int, j: int| 0 <= i < given.len() <= j < hits.len() implies !ranking.first(
        #[trigger] all[j],
        #[trigger] given[i],
    ) by {
        assert(given[i] == all[i]);
    }
}

/// Whether neither of two hits must come before the other.
pub open spec fn tied_with(ranking: Ranking, hit: HitView) -> spec_fn(HitView) -> bool {
    |other: HitView| !ranking.first(hit, other) && !ranking.first(other, hit)
}

/// A list none of whose hits passes leaves nothing.
proof fn lemma_filter_none(list: Seq<HitView>, keep: spec_fn(HitView) -> bool)
    requires
        forall|i: int| 0 <= i < list.len() ==> !keep(#[trigger] list[i]),
    ensures
        list.filter(keep) == Seq::<HitView>::empty(),
{
    let kept = list.filter(keep);
    if kept.len() > 0 {
        list.lemma_filter_pred(keep, 0);
        assert(kept.contains(kept[0]));
        list.lemma_filter_contains_rev(keep, kept[0]);
        assert(list.contains(kept[0]));
        let i = choose|i: int| 0 <= i < list.len() && list[i] == kept[0];
        assert(!keep(list[i]));
    }
    assert(kept =~= Seq::<HitView>::empty());
}

/// Hits that pass a test keep the order in which they were found, where of two that pass neither
/// must come before the other.
proof fn lemma_ties_by(
    ranking: Ranking,
    admits: spec_fn(HitView) -> bool,
    keep: spec_fn(HitView) -> bool,
    hits: Seq<HitView>,
)
    requires
        orders(ranking, admits),
        forall|i: int| 0 <= i < hits.len() ==> admits(#[trigger] hits[i]),
        forall|a: HitView, b: HitView|
            admits(a) && admits(b) && keep(a) && keep(b) ==> !#[trigger] ranking.first(a, b),
    ensures
        search::ranked(ranking, hits).filter(keep) == hits.filter(keep),
    decreases hits.len(),
{
    if hits.len() > 0 {
        let front = hits.drop_last();
        assert forall|i: int| 0 <= i < front.len() implies admits(#[trigger] front[i]) by {
            assert(front[i] == hits[i]);
        }
        lemma_ties_by(ranking, admits, keep, front);
        lemma_ranked_by(ranking, admits, front);
        let list = search::ranked(ranking, front);
        let last = hits[hits.len() - 1];
        assert(admits(last));
        let p = search::lemma_place(ranking, list, last);
        let (a, b) = (list.take(p), list.skip(p));
        assert(list =~= a + b);
        Seq::filter_distributes_over_add(a, b, keep);
        Seq::filter_distributes_over_add(a.push(last), b, keep);
        a.lemma_filter_push(last, keep);
        front.lemma_filter_push(last, keep);
        assert(front.push(last) =~= hits);
        if keep(last) {
            assert forall|i: int| 0 <= i < b.len() implies !keep(#[trigger] b[i]) by {
                assert(b[i] == list[p + i]);
                assert(admits(list[p + i]) && admits(list[p]));
                assert(ranking.first(last, list[p]));
                if i > 0 {
                    assert(!ranking.first(list[p + i], list[p]));
                }
                if keep(b[i]) {
                    assert(!ranking.first(last, b[i]));
                    assert(!ranking.first(b[i], list[p]) || i == 0);
                }
            }
            lemma_filter_none(b, keep);
            assert(a.filter(keep).push(last) + b.filter(keep) =~= (a.filter(keep) + b.filter(
                keep,
            )).push(last));
        }
    } else {
        assert(search::ranked(ranking, hits) =~= hits);
    }
}

/// Hits that are tied keep the order in which they were found, where scores and distances are
/// numbers.
pub proof fn law_ties_keep_order(ranking: Ranking, hits: Seq<HitView>, hit: HitView)
    requires
        all_rankable(hits),
        rankable(hit),
    ensures
        search::ranked(ranking, hits).filter(tied_with(ranking, hit)) == hits.filter(
            tied_with(ranking, hit),
        ),
{
    let admits = |other: HitView| rankable(other);
    let keep = tied_with(ranking, hit);
    lemma_rankable_ordered(ranking);
    assert forall|a: HitView, b: HitView|
        admits(a) && admits(b) && keep(a) && keep(b) implies !#[trigger] ranking.first(a, b) by {
        law_order_of_hits(ranking, a, hit, b);
    }
    lemma_ties_by(ranking, admits, keep, hits);
}

/// A prefix of a list passes a prefix of what the list passes.
proof fn lemma_filter_prefix(list: Seq<HitView>, n: int, keep: spec_fn(HitView) -> bool)
    requires
        0 <= n <= list.len(),
    ensures
        list.take(n).filter(keep).is_prefix_of(list.filter(keep)),
{
    let (a, b) = (list.take(n), list.skip(n));
    assert(list =~= a + b);
    Seq::filter_distributes_over_add(a, b, keep);
    assert((a.filter(keep) + b.filter(keep)).take(a.filter(keep).len() as int) =~= a.filter(keep));
}

/// How many hits are given where `found` were found and `limit` were asked for.
proof fn lemma_best(ranking: Ranking, hits: Seq<HitView>, limit: int)
    ensures
        ({
            let given = search::best(ranking, hits, limit);
            let n = given.len() as int;
            let all = search::ranked(ranking, hits);
            &&& n <= hits.len()
            &&& n == hits.len() || n == if limit < 1 {
                1
            } else if limit > 100 {
                100
            } else {
                limit
            }
            &&& n <= 100
            &&& given == all.take(n)
            &&& all.len() == hits.len()
            &&& (given + all.skip(n)).to_multiset() == hits.to_multiset()
        }),
{
    law_ranking_keeps_hits(ranking, hits);
    let given = search::best(ranking, hits, limit);
    let all = search::ranked(ranking, hits);
    let n = given.len() as int;
    assert(given =~= all.take(n));
    assert(given + all.skip(n) =~= all);
}

/// A search by text gives the hits with the greatest scores, the greatest first, as many as there
/// are but at most the limit, which counts as 1 if it is smaller and as 100 if it is greater. What
/// is left out has no greater score than what is given.
pub proof fn law_highest_score_first(hits: Seq<HitView>, limit: int)
    requires
        forall|i: int| 0 <= i < hits.len() ==> !(#[trigger] hits[i]).score.is_nan(),
    ensures
        ({
            let given = search::best(Ranking::ByScore, hits, limit);
            let most = if limit < 1 {
                1
            } else if limit > 100 {
                100
            } else {
                limit
            };
            &&& given.len() == if hits.len() < most {
                hits.len() as int
            } else {
                most
            }
            &&& forall|i: int, j: int|
                0 <= i < j < given.len() ==> (#[trigger] given[i]).score.value() >= (
                #[trigger] given[j]).score.value()
            &&& exists|left: Seq<HitView>|
                #![trigger given + left]
                {
                    &&& (given + left).to_multiset() == hits.to_multiset()
                    &&& forall|i: int, j: int|
                        0 <= i < given.len() && 0 <= j < left.len() ==> (
                        #[trigger] given[i]).score.value() >= (#[trigger] left[j]).score.value()
                }
        }),
{
    let ranking = Ranking::ByScore;
    let admits = |hit: HitView| !hit.score.is_nan();
    lemma_score_first(admits);
    assert(orders(ranking, admits));
    lemma_ranked_by(ranking, admits, hits);
    lemma_best(ranking, hits, limit);
    let all = search::ranked(ranking, hits);
    let given = search::best(ranking, hits, limit);
    let n = given.len() as int;
    let left = all.skip(n);
    assert forall|i: int, j: int| 0 <= i < j < all.len() implies (
    #[trigger] all[i]).score.value() >= (#[trigger] all[j]).score.value() by {
        assert(admits(all[i]) && admits(all[j]));
        assert(!ranking.first(all[j], all[i]));
    }
    assert forall|i: int, j: int| 0 <= i < j < given.len() implies (
    #[trigger] given[i]).score.value() >= (#[trigger] given[j]).score.value() by {
        assert(given[i] == all[i] && given[j] == all[j]);
    }
    assert forall|i: int, j: int| 0 <= i < given.len() && 0 <= j < left.len() implies (
    #[trigger] given[i]).score.value() >= (#[trigger] left[j]).score.value() by {
        assert(given[i] == all[i] && left[j] == all[n + j]);
    }
    assert((given + left).to_multiset() == hits.to_multiset());
}

/// A search by text gives hits with the same score in the order in which they were found, and of
/// them the first that were found.
pub proof fn law_same_score_keeps_order(hits: Seq<HitView>, limit: int, value: int)
    requires
        forall|i: int| 0 <= i < hits.len() ==> !(#[trigger] hits[i]).score.is_nan(),
    ensures
        search::best(Ranking::ByScore, hits, limit).filter(
            |hit: HitView| hit.score.value() == value,
        ).is_prefix_of(hits.filter(|hit: HitView| hit.score.value() == value)),
{
    let ranking = Ranking::ByScore;
    let admits = |hit: HitView| !hit.score.is_nan();
    let keep = |hit: HitView| hit.score.value() == value;
    lemma_score_first(admits);
    assert(orders(ranking, admits));
    lemma_best(ranking, hits, limit);
    lemma_ties_by(ranking, admits, keep, hits);
    lemma_filter_prefix(
        search::ranked(ranking, hits),
        search::best(ranking, hits, limit).len() as int,
        keep,
    );
}

/// The ranking by score is by the values of the scores.
proof fn lemma_score_first(admits: spec_fn(HitView) -> bool)
    requires
        forall|hit: HitView| #[trigger] admits(hit) ==> !hit.score.is_nan(),
    ensures
        forall|a: HitView, b: HitView|
            admits(a) && admits(b) ==> (#[trigger] Ranking::ByScore.first(a, b) <==> a.score.value()
                > b.score.value()),
{
    assert forall|a: HitView, b: HitView| admits(a) && admits(b) implies (
    #[trigger] Ranking::ByScore.first(a, b) <==> a.score.value() > b.score.value()) by {
        float::law_single_order(b.score, a.score);
    }
}

/// A reverse search gives the nearest hits, the nearest first, as many as there are but at most the
/// limit, which counts as 1 if it is smaller and as 100 if it is greater. At the same distance the
/// greater score comes first. What is left out is no nearer than what is given, and has no greater
/// score at the same distance.
pub proof fn law_nearest_first(hits: Seq<HitView>, limit: int)
    requires
        forall|i: int|
            0 <= i < hits.len() ==> {
                &&& (#[trigger] hits[i]).distance_meters is Some
                &&& !hits[i].distance_meters->0.is_nan()
                &&& !hits[i].score.is_nan()
            },
    ensures
        ({
            let given = search::best(Ranking::ByDistance, hits, limit);
            let most = if limit < 1 {
                1
            } else if limit > 100 {
                100
            } else {
                limit
            };
            &&& given.len() == if hits.len() < most {
                hits.len() as int
            } else {
                most
            }
            &&& forall|i: int, j: int|
                0 <= i < j < given.len() ==> ({
                    let (near, far) = (
                        (#[trigger] given[i]).distance_meters->0.value(),
                        (#[trigger] given[j]).distance_meters->0.value(),
                    );
                    near < far || (near == far && given[i].score.value() >= given[j].score.value())
                })
            &&& exists|left: Seq<HitView>|
                #![trigger given + left]
                {
                    &&& (given + left).to_multiset() == hits.to_multiset()
                    &&& forall|i: int, j: int|
                        0 <= i < given.len() && 0 <= j < left.len() ==> ({
                            let (near, far) = (
                                (#[trigger] given[i]).distance_meters->0.value(),
                                (#[trigger] left[j]).distance_meters->0.value(),
                            );
                            near < far || (near == far && given[i].score.value()
                                >= left[j].score.value())
                        })
                }
        }),
{
    let ranking = Ranking::ByDistance;
    let admits = |hit: HitView|
        hit.distance_meters is Some && !hit.distance_meters->0.is_nan() && !hit.score.is_nan();
    lemma_distance_first(admits);
    assert(orders(ranking, admits));
    lemma_ranked_by(ranking, admits, hits);
    lemma_best(ranking, hits, limit);
    let all = search::ranked(ranking, hits);
    let given = search::best(ranking, hits, limit);
    let n = given.len() as int;
    let left = all.skip(n);
    assert forall|i: int, j: int| 0 <= i < j < all.len() implies ({
        let (near, far) = (
            (#[trigger] all[i]).distance_meters->0.value(),
            (#[trigger] all[j]).distance_meters->0.value(),
        );
        near < far || (near == far && all[i].score.value() >= all[j].score.value())
    }) by {
        assert(admits(all[i]) && admits(all[j]));
        assert(!ranking.first(all[j], all[i]));
    }
    assert forall|i: int, j: int| 0 <= i < j < given.len() implies ({
        let (near, far) = (
            (#[trigger] given[i]).distance_meters->0.value(),
            (#[trigger] given[j]).distance_meters->0.value(),
        );
        near < far || (near == far && given[i].score.value() >= given[j].score.value())
    }) by {
        assert(given[i] == all[i] && given[j] == all[j]);
    }
    assert forall|i: int, j: int| 0 <= i < given.len() && 0 <= j < left.len() implies ({
        let (near, far) = (
            (#[trigger] given[i]).distance_meters->0.value(),
            (#[trigger] left[j]).distance_meters->0.value(),
        );
        near < far || (near == far && given[i].score.value() >= left[j].score.value())
    }) by {
        assert(given[i] == all[i] && left[j] == all[n + j]);
    }
    assert((given + left).to_multiset() == hits.to_multiset());
}

/// A reverse search gives hits with the same distance and score in the order in which they were
/// found, and of them the first that were found.
pub proof fn law_same_distance_keeps_order(
    hits: Seq<HitView>,
    limit: int,
    distance: int,
    value: int,
)
    requires
        forall|i: int|
            0 <= i < hits.len() ==> {
                &&& (#[trigger] hits[i]).distance_meters is Some
                &&& !hits[i].distance_meters->0.is_nan()
                &&& !hits[i].score.is_nan()
            },
    ensures
        ({
            let same = |hit: HitView|
                hit.distance_meters->0.value() == distance && hit.score.value() == value;
            search::best(Ranking::ByDistance, hits, limit).filter(same).is_prefix_of(
                hits.filter(same),
            )
        }),
{
    let ranking = Ranking::ByDistance;
    let admits = |hit: HitView|
        hit.distance_meters is Some && !hit.distance_meters->0.is_nan() && !hit.score.is_nan();
    let same = |hit: HitView|
        hit.distance_meters->0.value() == distance && hit.score.value() == value;
    lemma_distance_first(admits);
    assert(orders(ranking, admits));
    lemma_best(ranking, hits, limit);
    lemma_ties_by(ranking, admits, same, hits);
    lemma_filter_prefix(
        search::ranked(ranking, hits),
        search::best(ranking, hits, limit).len() as int,
        same,
    );
}

/// The ranking by distance is by the values of the distances, and then by those of the scores.
proof fn lemma_distance_first(admits: spec_fn(HitView) -> bool)
    requires
        forall|hit: HitView| #[trigger]
            admits(hit) ==> hit.distance_meters is Some && !hit.distance_meters->0.is_nan()
                && !hit.score.is_nan(),
    ensures
        forall|a: HitView, b: HitView|
            admits(a) && admits(b) ==> (#[trigger] Ranking::ByDistance.first(a, b) <==> {
                let (x, y) = (a.distance_meters->0.value(), b.distance_meters->0.value());
                x < y || (x == y && a.score.value() > b.score.value())
            }),
{
    assert forall|a: HitView, b: HitView| admits(a) && admits(b) implies (
    #[trigger] Ranking::ByDistance.first(a, b) <==> {
        let (x, y) = (a.distance_meters->0.value(), b.distance_meters->0.value());
        x < y || (x == y && a.score.value() > b.score.value())
    }) by {
        float::law_single_order(b.score, a.score);
        float::law_double_order(a.distance_meters->0, b.distance_meters->0);
        float::law_double_order(b.distance_meters->0, a.distance_meters->0);
    }
}

proof fn lemma_scored(
    docs: Seq<DocumentView>,
    measures: Option<Seq<Measure>>,
    country_code: Option<Seq<char>>,
    n: nat,
    hit: HitView,
)
    ensures
        search::scored(docs, measures, country_code, n).contains(hit) <==> exists|i: int|
            0 <= i < n && search::in_country(#[trigger] docs[i], country_code) && hit
                == search::hit_of(docs, measures, i),
    decreases n,
{
    let all = search::scored(docs, measures, country_code, n);
    if n > 0 {
        let m = (n - 1) as nat;
        let before = search::scored(docs, measures, country_code, m);
        lemma_scored(docs, measures, country_code, m, hit);
        if all.contains(hit) {
            let k = choose|k: int| 0 <= k < all.len() && all[k] == hit;
            if k < before.len() {
                assert(before[k] == hit);
                assert(before.contains(hit));
            } else {
                assert(search::in_country(docs[n - 1], country_code));
            }
        }
        if exists|i: int|
            0 <= i < n && search::in_country(#[trigger] docs[i], country_code) && hit
                == search::hit_of(docs, measures, i) {
            let i = choose|i: int|
                0 <= i < n && search::in_country(#[trigger] docs[i], country_code) && hit
                    == search::hit_of(docs, measures, i);
            if i < m {
                assert(before.contains(hit));
                let k = choose|k: int| 0 <= k < before.len() && before[k] == hit;
                assert(all[k] == hit);
            } else {
                assert(all[before.len() as int] == hit);
            }
        }
    }
}

/// A search by text finds the documents of the country that is asked for, and no other.
pub proof fn law_hits_of_country(
    docs: Seq<DocumentView>,
    measures: Option<Seq<Measure>>,
    country_code: Option<Seq<char>>,
    limit: int,
    hit: HitView,
)
    ensures
        search::scored(docs, measures, country_code, docs.len()).contains(hit) <==> exists|i: int|
            0 <= i < docs.len() && search::in_country(#[trigger] docs[i], country_code) && hit
                == search::hit_of(docs, measures, i),
        search::best(
            Ranking::ByScore,
            search::scored(docs, measures, country_code, docs.len()),
            limit,
        ).contains(hit) ==> search::in_country(hit.document, country_code) && docs.contains(
            hit.document,
        ),
{
    let found = search::scored(docs, measures, country_code, docs.len());
    lemma_scored(docs, measures, country_code, docs.len(), hit);
    law_hits_are_found(Ranking::ByScore, found, limit, hit);
    if search::best(Ranking::ByScore, found, limit).contains(hit) {
        let i = choose|i: int|
            0 <= i < docs.len() && search::in_country(#[trigger] docs[i], country_code) && hit
                == search::hit_of(docs, measures, i);
        assert(docs[i] == hit.document);
    }
}

proof fn lemma_near(
    docs: Seq<DocumentView>,
    measures: Seq<Measure>,
    radius_meters: int,
    n: nat,
    hit: HitView,
)
    ensures
        search::near(docs, measures, radius_meters, n).contains(hit) <==> exists|i: int|
            0 <= i < n && (#[trigger] measures[i]).distance_meters.at_most(radius_meters) && hit
                == search::hit_of(docs, Some(measures), i),
    decreases n,
{
    let all = search::near(docs, measures, radius_meters, n);
    if n > 0 {
        let m = (n - 1) as nat;
        let before = search::near(docs, measures, radius_meters, m);
        lemma_near(docs, measures, radius_meters, m, hit);
        if all.contains(hit) {
            let k = choose|k: int| 0 <= k < all.len() && all[k] == hit;
            if k < before.len() {
                assert(before[k] == hit);
                assert(before.contains(hit));
            } else {
                assert(measures[n - 1].distance_meters.at_most(radius_meters));
            }
        }
        if exists|i: int|
            0 <= i < n && (#[trigger] measures[i]).distance_meters.at_most(radius_meters) && hit
                == search::hit_of(docs, Some(measures), i) {
            let i = choose|i: int|
                0 <= i < n && (#[trigger] measures[i]).distance_meters.at_most(radius_meters) && hit
                    == search::hit_of(docs, Some(measures), i);
            if i < m {
                assert(before.contains(hit));
                let k = choose|k: int| 0 <= k < before.len() && before[k] == hit;
                assert(all[k] == hit);
            } else {
                assert(all[before.len() as int] == hit);
            }
        }
    }
}

/// A reverse search finds the documents whose distance is at most the radius, and no other.
pub proof fn law_hits_within_radius(
    docs: Seq<DocumentView>,
    measures: Seq<Measure>,
    radius_meters: int,
    limit: int,
    hit: HitView,
)
    ensures
        search::near(docs, measures, radius_meters, docs.len()).contains(hit) <==> exists|i: int|
            0 <= i < docs.len() && (#[trigger] measures[i]).distance_meters.at_most(radius_meters)
                && hit == search::hit_of(docs, Some(measures), i),
        search::best(
            Ranking::ByDistance,
            search::near(docs, measures, radius_meters, docs.len()),
            limit,
        ).contains(hit) ==> hit.distance_meters is Some && hit.distance_meters->0.at_most(
            radius_meters,
        ) && docs.contains(hit.document),
{
    let found = search::near(docs, measures, radius_meters, docs.len());
    lemma_near(docs, measures, radius_meters, docs.len(), hit);
    law_hits_are_found(Ranking::ByDistance, found, limit, hit);
    if search::best(Ranking::ByDistance, found, limit).contains(hit) {
        let i = choose|i: int|
            0 <= i < docs.len() && (#[trigger] measures[i]).distance_meters.at_most(radius_meters)
                && hit == search::hit_of(docs, Some(measures), i);
        assert(docs[i] == hit.document);
    }
}

/// Whether reading the documents at the offsets of a list gave the given documents: at the offset
/// of a document of the index there is what its row keeps of it.
pub open spec fn read_at(
    docs: Seq<DocumentView>,
    figures: Seq<FiguresView>,
    list: Seq<u64>,
    read: Seq<DocumentView>,
) -> bool {
    &&& read.len() == list.len()
    &&& forall|k: int, i: int|
        0 <= k < list.len() && 0 <= i < docs.len() && #[trigger] list[k] == local::offset_of(
            docs,
            figures,
            i,
        ) ==> read[k] == record::kept(#[trigger] docs[i])
}

/// A forward search of an index finds the documents of the country that have all of its terms, and
/// no other.
pub proof fn law_forward_finds(
    docs: Seq<DocumentView>,
    figures: Seq<FiguresView>,
    terms: Seq<Seq<char>>,
    country_code: Option<Seq<char>>,
    list: Seq<u64>,
    read: Seq<DocumentView>,
    measures: Option<Seq<Measure>>,
    document: DocumentView,
)
    requires
        local_laws::well_figured(docs, figures),
        local_laws::fits(docs, figures),
        terms.len() > 0,
        ({
            let file = index_file::index_text(local::term_index(docs, figures, docs.len()));
            let index = index_file::index_of(text::lines(file));
            forall|y: u64| #[trigger]
                list.contains(y) <==> offsets::in_all(postings::lists_of(index, terms), y)
        }),
        read_at(docs, figures, list, read),
    ensures
        (exists|k: int|
            0 <= k < search::scored(read, measures, country_code, read.len()).len()
                && #[trigger] search::scored(read, measures, country_code, read.len())[k].document
                == document) <==> exists|i: int|
            0 <= i < docs.len() && local_laws::has_all_terms(#[trigger] docs[i], terms)
                && search::in_country(docs[i], country_code) && document == record::kept(docs[i]),
{
    local_laws::law_indexes_read_back(docs, figures);
    let index = local::term_index(docs, figures, docs.len());
    let found = search::scored(read, measures, country_code, read.len());
    if exists|k: int| 0 <= k < found.len() && #[trigger] found[k].document == document {
        let k = choose|k: int| 0 <= k < found.len() && #[trigger] found[k].document == document;
        assert(found.contains(found[k]));
        lemma_scored(read, measures, country_code, read.len(), found[k]);
        let r = choose|r: int|
            0 <= r < read.len() && search::in_country(#[trigger] read[r], country_code) && found[k]
                == search::hit_of(read, measures, r);
        assert(list.contains(list[r]));
        local_laws::law_forward_candidates(docs, figures, terms, list[r]);
        let i = choose|i: int|
            0 <= i < docs.len() && local_laws::has_all_terms(#[trigger] docs[i], terms) && list[r]
                == local::offset_of(docs, figures, i);
        assert(read[r] == record::kept(docs[i]));
    }
    if exists|i: int|
        0 <= i < docs.len() && local_laws::has_all_terms(#[trigger] docs[i], terms)
            && search::in_country(docs[i], country_code) && document == record::kept(docs[i]) {
        let i = choose|i: int|
            0 <= i < docs.len() && local_laws::has_all_terms(#[trigger] docs[i], terms)
                && search::in_country(docs[i], country_code) && document == record::kept(docs[i]);
        let y = local::offset_of(docs, figures, i);
        local_laws::law_forward_candidates(docs, figures, terms, y);
        assert(list.contains(y));
        let r = choose|r: int| 0 <= r < list.len() && list[r] == y;
        assert(read[r] == record::kept(docs[i]));
        let hit = search::hit_of(read, measures, r);
        assert(search::in_country(read[r], country_code));
        lemma_scored(read, measures, country_code, read.len(), hit);
        assert(found.contains(hit));
        let k = choose|k: int| 0 <= k < found.len() && found[k] == hit;
        assert(found[k].document == document);
    }
}

/// An autocompletion from an index finds the documents of the country that have all of its terms
/// but the last and a term that begins with the last, and no other.
pub proof fn law_autocomplete_finds(
    docs: Seq<DocumentView>,
    figures: Seq<FiguresView>,
    terms: Seq<Seq<char>>,
    country_code: Option<Seq<char>>,
    list: Seq<u64>,
    read: Seq<DocumentView>,
    document: DocumentView,
)
    requires
        local_laws::well_figured(docs, figures),
        local_laws::fits(docs, figures),
        terms.len() > 0,
        ({
            let file = index_file::index_text(local::term_index(docs, figures, docs.len()));
            let index = index_file::index_of(text::lines(file));
            forall|y: u64| #[trigger]
                list.contains(y) <==> postings::matches_beginning(index, terms, y)
        }),
        read_at(docs, figures, list, read),
    ensures
        (exists|k: int|
            0 <= k < search::scored(read, None, country_code, read.len()).len()
                && #[trigger] search::scored(read, None, country_code, read.len())[k].document
                == document) <==> exists|i: int|
            0 <= i < docs.len() && local_laws::has_beginning(#[trigger] docs[i], terms)
                && search::in_country(docs[i], country_code) && document == record::kept(docs[i]),
{
    local_laws::law_indexes_read_back(docs, figures);
    let index = local::term_index(docs, figures, docs.len());
    let found = search::scored(read, None, country_code, read.len());
    if exists|k: int| 0 <= k < found.len() && #[trigger] found[k].document == document {
        let k = choose|k: int| 0 <= k < found.len() && #[trigger] found[k].document == document;
        assert(found.contains(found[k]));
        lemma_scored(read, None, country_code, read.len(), found[k]);
        let r = choose|r: int|
            0 <= r < read.len() && search::in_country(#[trigger] read[r], country_code) && found[k]
                == search::hit_of(read, None, r);
        assert(list.contains(list[r]));
        local_laws::law_autocomplete_candidates(docs, figures, terms, list[r]);
        let i = choose|i: int|
            0 <= i < docs.len() && local_laws::has_beginning(#[trigger] docs[i], terms) && list[r]
                == local::offset_of(docs, figures, i);
        assert(read[r] == record::kept(docs[i]));
    }
    if exists|i: int|
        0 <= i < docs.len() && local_laws::has_beginning(#[trigger] docs[i], terms)
            && search::in_country(docs[i], country_code) && document == record::kept(docs[i]) {
        let i = choose|i: int|
            0 <= i < docs.len() && local_laws::has_beginning(#[trigger] docs[i], terms)
                && search::in_country(docs[i], country_code) && document == record::kept(docs[i]);
        let y = local::offset_of(docs, figures, i);
        local_laws::law_autocomplete_candidates(docs, figures, terms, y);
        assert(list.contains(y));
        let r = choose|r: int| 0 <= r < list.len() && list[r] == y;
        assert(read[r] == record::kept(docs[i]));
        let hit = search::hit_of(read, None, r);
        assert(search::in_country(read[r], country_code));
        lemma_scored(read, None, country_code, read.len(), hit);
        assert(found.contains(hit));
        let k = choose|k: int| 0 <= k < found.len() && found[k] == hit;
        assert(found[k].document == document);
    }
}

/// A reverse search of an index finds the documents that lie in the cells of its rectangle and
/// whose distance is at most the radius, and no other.
pub proof fn law_reverse_finds(
    docs: Seq<DocumentView>,
    figures: Seq<FiguresView>,
    distances: Seq<Float64>,
    min_lat: int,
    min_lon: int,
    max_lat: int,
    max_lon: int,
    radius_meters: int,
    list: Seq<u64>,
    read: Seq<DocumentView>,
    measures: Seq<Measure>,
    document: DocumentView,
)
    requires
        ({
            let file = index_file::index_text(local::cell_index(docs, figures, docs.len()));
            let index = index_file::index_of(text::lines(file));
            let cells = grid::bound_cells(min_lat, min_lon, max_lat, max_lon);
            forall|y: u64| #[trigger]
                list.contains(y) <==> postings::posted_under_any(index, cells, y)
        }),
        read_at(docs, figures, list, read),
        measures.len() == list.len(),
        forall|k: int, i: int|
            0 <= k < list.len() && 0 <= i < docs.len() && #[trigger] list[k] == local::offset_of(
                docs,
                figures,
                i,
            ) ==> measures[k].distance_meters == #[trigger] distances[i],
    ensures
        (exists|k: int|
            0 <= k < search::near(read, measures, radius_meters, read.len()).len()
                && #[trigger] search::near(read, measures, radius_meters, read.len())[k].document
                == document) <==> exists|i: int|
            0 <= i < docs.len() && min_lat <= (#[trigger] figures[i]).lat_cell <= max_lat && min_lon
                <= figures[i].lon_cell <= max_lon && distances[i].at_most(radius_meters) && document
                == record::kept(docs[i]),
{
    local_laws::law_indexes_read_back(docs, figures);
    let index = local::cell_index(docs, figures, docs.len());
    let found = search::near(read, measures, radius_meters, read.len());
    if exists|k: int| 0 <= k < found.len() && #[trigger] found[k].document == document {
        let k = choose|k: int| 0 <= k < found.len() && #[trigger] found[k].document == document;
        assert(found.contains(found[k]));
        lemma_near(read, measures, radius_meters, read.len(), found[k]);
        let r = choose|r: int|
            0 <= r < read.len() && (#[trigger] measures[r]).distance_meters.at_most(radius_meters)
                && found[k] == search::hit_of(read, Some(measures), r);
        assert(list.contains(list[r]));
        local_laws::law_reverse_candidates(
            docs,
            figures,
            min_lat,
            min_lon,
            max_lat,
            max_lon,
            list[r],
        );
        let i = choose|i: int|
            0 <= i < docs.len() && min_lat <= (#[trigger] figures[i]).lat_cell <= max_lat && min_lon
                <= figures[i].lon_cell <= max_lon && list[r] == local::offset_of(docs, figures, i);
        assert(read[r] == record::kept(docs[i]));
        assert(measures[r].distance_meters == distances[i]);
    }
    if exists|i: int|
        0 <= i < docs.len() && min_lat <= (#[trigger] figures[i]).lat_cell <= max_lat && min_lon
            <= figures[i].lon_cell <= max_lon && distances[i].at_most(radius_meters) && document
            == record::kept(docs[i]) {
        let i = choose|i: int|
            0 <= i < docs.len() && min_lat <= (#[trigger] figures[i]).lat_cell <= max_lat && min_lon
                <= figures[i].lon_cell <= max_lon && distances[i].at_most(radius_meters) && document
                == record::kept(docs[i]);
        let y = local::offset_of(docs, figures, i);
        local_laws::law_reverse_candidates(docs, figures, min_lat, min_lon, max_lat, max_lon, y);
        assert(list.contains(y));
        let r = choose|r: int| 0 <= r < list.len() && list[r] == y;
        assert(read[r] == record::kept(docs[i]));
        assert(measures[r].distance_meters == distances[i]);
        let hit = search::hit_of(read, Some(measures), r);
        lemma_near(read, measures, radius_meters, read.len(), hit);
        assert(found.contains(hit));
        let k = choose|k: int| 0 <= k < found.len() && found[k] == hit;
        assert(found[k].document == document);
    }
}

/// A search by text finds, in the order of the documents that it looks at, those of the country
/// that is asked for, and all where none is. A hit holds its document, and where there is no focus
/// no distance and the popularity of the document as its score; else its distance from the focus and
/// the score that goes with it.
pub proof fn law_hits_of_documents(
    docs: Seq<DocumentView>,
    measures: Option<Seq<Measure>>,
    country_code: Option<Seq<char>>,
)
    requires
        measures matches Some(list) ==> list.len() == docs.len(),
    ensures
        search::scored(docs, measures, country_code, docs.len()) == Seq::new(
            docs.len(),
            |i: int|
                HitView {
                    document: docs[i],
                    score: if measures is Some {
                        measures->0[i].score
                    } else {
                        docs[i].popularity
                    },
                    distance_meters: if measures is Some {
                        Some(measures->0[i].distance_meters)
                    } else {
                        None
                    },
                },
        ).filter(
            |hit: HitView| country_code is Some ==> hit.document.country_code == country_code->0,
        ),
{
    let all = Seq::new(
        docs.len(),
        |i: int|
            HitView {
                document: docs[i],
                score: if measures is Some {
                    measures->0[i].score
                } else {
                    docs[i].popularity
                },
                distance_meters: if measures is Some {
                    Some(measures->0[i].distance_meters)
                } else {
                    None
                },
            },
    );
    let keep = |hit: HitView| country_code is Some ==> hit.document.country_code == country_code->0;
    lemma_scored_filter(docs, measures, country_code, all, keep, docs.len());
    assert(all.take(docs.len() as int) =~= all);
}

proof fn lemma_scored_filter(
    docs: Seq<DocumentView>,
    measures: Option<Seq<Measure>>,
    country_code: Option<Seq<char>>,
    all: Seq<HitView>,
    keep: spec_fn(HitView) -> bool,
    n: nat,
)
    requires
        n <= docs.len() == all.len(),
        forall|i: int| 0 <= i < all.len() ==> #[trigger] all[i] == search::hit_of(docs, measures, i),
        forall|i: int|
            0 <= i < all.len() ==> keep(#[trigger] all[i]) == search::in_country(
                docs[i],
                country_code,
            ),
    ensures
        search::scored(docs, measures, country_code, n) == all.take(n as int).filter(keep),
    decreases n,
{
    if n == 0 {
        all.take(0).lemma_filter_len(keep);
        assert(search::scored(docs, measures, country_code, n) =~= all.take(0).filter(keep));
    } else {
        let m = n - 1;
        lemma_scored_filter(docs, measures, country_code, all, keep, m as nat);
        assert(all.take(n as int) =~= all.take(m).push(all[m]));
        all.take(m).lemma_filter_push(all[m], keep);
    }
}

/// A reverse search finds, in the order of the documents that it looks at, those whose distance is
/// a number and at most the radius. A hit holds its document, its distance and the score that goes
/// with it.
pub proof fn law_hits_near_point(
    docs: Seq<DocumentView>,
    measures: Seq<Measure>,
    radius_meters: int,
)
    requires
        measures.len() == docs.len(),
    ensures
        search::near(docs, measures, radius_meters, docs.len()) == Seq::new(
            docs.len(),
            |i: int|
                HitView {
                    document: docs[i],
                    score: measures[i].score,
                    distance_meters: Some(measures[i].distance_meters),
                },
        ).filter(
            |hit: HitView|
                !hit.distance_meters->0.is_nan() && hit.distance_meters->0.value()
                    <= radius_meters * power2::pow2(1074),
        ),
{
    let all = Seq::new(
        docs.len(),
        |i: int|
            HitView {
                document: docs[i],
                score: measures[i].score,
                distance_meters: Some(measures[i].distance_meters),
            },
    );
    let keep = |hit: HitView|
        !hit.distance_meters->0.is_nan() && hit.distance_meters->0.value() <= radius_meters
            * power2::pow2(1074);
    lemma_near_filter(docs, measures, radius_meters, all, keep, docs.len());
    assert(all.take(docs.len() as int) =~= all);
}

proof fn lemma_near_filter(
    docs: Seq<DocumentView>,
    measures: Seq<Measure>,
    radius_meters: int,
    all: Seq<HitView>,
    keep: spec_fn(HitView) -> bool,
    n: nat,
)
    requires
        n <= docs.len() == all.len(),
        forall|i: int|
            0 <= i < all.len() ==> #[trigger] all[i] == search::hit_of(docs, Some(measures), i),
        forall|i: int|
            0 <= i < all.len() ==> keep(#[trigger] all[i])
                == measures[i].distance_meters.at_most(radius_meters),
    ensures
        search::near(docs, measures, radius_meters, n) == all.take(n as int).filter(keep),
    decreases n,
{
    if n == 0 {
        all.take(0).lemma_filter_len(keep);
        assert(search::near(docs, measures, radius_meters, n) =~= all.take(0).filter(keep));
    } else {
        let m = n - 1;
        lemma_near_filter(docs, measures, radius_meters, all, keep, m as nat);
        assert(all.take(n as int) =~= all.take(m).push(all[m]));
        all.take(m).lemma_filter_push(all[m], keep);
    }
}

/// Which of two hits must come first. By score it is the one with the greater score. By distance it
/// is the one without a distance, or else the nearer, and where neither is nearer the one with the
/// greater score. What is no number is neither greater nor nearer.
pub proof fn law_which_hit_comes_first(a: HitView, b: HitView)
    ensures
        ({
            let scores_more = !a.score.is_nan() && !b.score.is_nan() && a.score.value()
                > b.score.value();
            let (x, y) = (a.distance_meters, b.distance_meters);
            let apart = x is Some && y is Some && !x->0.is_nan() && !y->0.is_nan();
            let nearer = (x is None && y is Some) || (apart && x->0.value() < y->0.value());
            let farther = (x is Some && y is None) || (apart && x->0.value() > y->0.value());
            &&& Ranking::ByScore.first(a, b) <==> scores_more
            &&& Ranking::ByDistance.first(a, b) <==> nearer || (!farther && scores_more)
        }),
{
    if !a.score.is_nan() && !b.score.is_nan() {
        float::law_single_order(b.score, a.score);
    }
    let (x, y) = (a.distance_meters, b.distance_meters);
    if x is Some && y is Some && !x->0.is_nan() && !y->0.is_nan() {
        float::law_double_order(x->0, y->0);
        float::law_double_order(y->0, x->0);
    }
}

/// One hit more goes before the first of the ranked hits that it must come before, and else to the
/// end; the others stay as they were.
pub proof fn law_ranking_one_hit_more(ranking: Ranking, hits: Seq<HitView>, hit: HitView)
    ensures
        search::ranked(ranking, Seq::<HitView>::empty()) == Seq::<HitView>::empty(),
        exists|before: Seq<HitView>, after: Seq<HitView>|
            #![trigger before + after]
            {
                &&& search::ranked(ranking, hits) == before + after
                &&& search::ranked(ranking, hits.push(hit)) == before.push(hit) + after
                &&& forall|i: int|
                    0 <= i < before.len() ==> !ranking.first(hit, #[trigger] before[i])
                &&& after.len() > 0 ==> ranking.first(hit, after[0])
            },
{
    let list = search::ranked(ranking, hits);
    let p = search::lemma_place(ranking, list, hit);
    let (before, after) = (list.take(p), list.skip(p));
    assert(hits.push(hit).drop_last() =~= hits);
    assert(list =~= before + after);
    assert forall|i: int| 0 <= i < before.len() implies !ranking.first(
        hit,
        #[trigger] before[i],
    ) by {
        assert(before[i] == list[i]);
    }
}

/// The index that a search looks into is that of the lines of its file, and empty where there is no
/// file.
pub proof fn law_index_of_file(file: Option<&str>)
    ensures
        file matches Some(text) ==> search::index_in(file) == index_file::index_of(
            text::lines(text@),
        ),
        file is None ==> search::index_in(file) == Map::<Seq<char>, Seq<u64>>::empty(),
{
}

} // verus!
