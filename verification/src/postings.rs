//! Posting lists: which documents, by their offsets, a key stands for.
use vstd::prelude::*;

use crate::offsets;
use crate::offsets::OffsetSet;
use crate::ordered::TextMap;
use crate::text;

verus! {

/// The offsets of a key; none where the index lacks the key.
pub open spec fn posted(index: Map<Seq<char>, Seq<u64>>, key: Seq<char>) -> Seq<u64> {
    if index.contains_key(key) {
        index[key]
    } else {
        Seq::<u64>::empty()
    }
}

/// Whether the offsets of every key are in rising order.
pub open spec fn sound(index: Map<Seq<char>, Seq<u64>>) -> bool {
    forall|key: Seq<char>| #[trigger] index.contains_key(key) ==> offsets::climbing(index[key])
}

/// The index with one offset more under a key.
pub open spec fn with_posting(
    index: Map<Seq<char>, Seq<u64>>,
    key: Seq<char>,
    offset: u64,
) -> Map<Seq<char>, Seq<u64>> {
    index.insert(key, offsets::with_offset(posted(index, key), offset))
}

/// Adds an offset under a key.
pub fn post(index: &mut TextMap<OffsetSet>, key: &str, offset: u64)
    requires
        old(index).wf(),
        sound(old(index)@),
    ensures
        final(index).wf(),
        sound(final(index)@),
        final(index)@ == with_posting(old(index)@, key@, offset),
{
    let ghost before = index@;
    proof {
        offsets::lemma_with_offset(posted(before, key@), offset);
    }
    let absent = match index.get_mut(key) {
        Some(set) => {
            set.insert(offset);
            false
        },
        None => true,
    };
    if absent {
        let mut set = OffsetSet::new();
        set.insert(offset);
        index.insert(key.to_owned(), set);
    }
}

/// The offset lists of several keys.
pub open spec fn lists_of(index: Map<Seq<char>, Seq<u64>>, keys: Seq<Seq<char>>) -> Seq<Seq<u64>> {
    keys.map_values(|key: Seq<char>| posted(index, key))
}

/// A copy of the offsets of a key.
fn offsets_of(index: &TextMap<OffsetSet>, key: &str) -> (result: OffsetSet)
    requires
        index.wf(),
        sound(index@),
    ensures
        result.wf(),
        result@ == posted(index@, key@),
{
    match index.get(key) {
        Some(set) => set.clone(),
        None => OffsetSet::new(),
    }
}

/// The offsets that every term is posted under; none where there is no term.
pub fn intersect_offsets(terms: &Vec<String>, index: &TextMap<OffsetSet>) -> (result: OffsetSet)
    requires
        index.wf(),
        sound(index@),
    ensures
        result.wf(),
        forall|y: u64| #[trigger]
            result@.contains(y) <==> offsets::in_all(lists_of(index@, terms.deep_view()), y),
{
    let ghost keys = terms.deep_view();
    let mut sets: Vec<OffsetSet> = Vec::new();
    let mut i: usize = 0;
    while i < terms.len()
        invariant
            i <= terms@.len(),
            keys == terms.deep_view(),
            index.wf(),
            sound(index@),
            sets@.len() == i,
            forall|j: int| 0 <= j < i ==> (#[trigger] sets@[j]).wf(),
            forall|j: int| 0 <= j < i ==> (#[trigger] sets@[j])@ == posted(index@, keys[j]),
        decreases terms@.len() - i,
    {
        sets.push(offsets_of(index, terms[i].as_str()));
        i = i + 1;
    }
    assert(sets.deep_view() =~= lists_of(index@, keys));
    offsets::intersect_sets(&sets)
}

/// Whether an offset is posted under a key that begins with the prefix.
pub open spec fn completes(index: Map<Seq<char>, Seq<u64>>, prefix: Seq<char>, y: u64) -> bool {
    exists|key: Seq<char>| #[trigger]
        index.contains_key(key) && prefix.is_prefix_of(key) && index[key].contains(y)
}

/// The offsets that are posted under a key that begins with the prefix.
fn completions(index: &TextMap<OffsetSet>, prefix: &str) -> (result: OffsetSet)
    requires
        index.wf(),
        sound(index@),
    ensures
        result.wf(),
        forall|y: u64| #[trigger] result@.contains(y) <==> completes(index@, prefix@, y),
{
    proof {
        index.lemma_keys();
    }
    let ghost keys = index.keys();
    let mut result = OffsetSet::new();
    let mut i: usize = 0;
    while i < index.len()
        invariant
            i <= keys.len(),
            keys == index.keys(),
            index.wf(),
            sound(index@),
            forall|key: Seq<char>| #[trigger] keys.contains(key) <==> index@.contains_key(key),
            result.wf(),
            forall|y: u64| #[trigger]
                result@.contains(y) <==> exists|j: int|
                    0 <= j < i && prefix@.is_prefix_of(#[trigger] keys[j])
                        && index@[keys[j]].contains(y),
        decreases keys.len() - i,
    {
        let ghost before = result@;
        let key = index.key_at(i);
        assert(keys.contains(keys[i as int]));
        if text::starts_with(key.as_str(), prefix) {
            result.insert_all(index.value_at(i));
        }
        assert forall|y: u64| #[trigger]
            result@.contains(y) <==> exists|j: int|
                0 <= j < i + 1 && prefix@.is_prefix_of(#[trigger] keys[j])
                    && index@[keys[j]].contains(y) by {
            assert(before.contains(y) <==> exists|j: int|
                0 <= j < i && prefix@.is_prefix_of(#[trigger] keys[j])
                    && index@[keys[j]].contains(y));
            if result@.contains(y) && !before.contains(y) {
                assert(prefix@.is_prefix_of(keys[i as int]) && index@[keys[i as int]].contains(y));
            }
        }
        i = i + 1;
    }
    assert forall|y: u64| #[trigger] result@.contains(y) <==> completes(index@, prefix@, y) by {
        if result@.contains(y) {
            let j = choose|j: int|
                0 <= j < i && prefix@.is_prefix_of(#[trigger] keys[j])
                    && index@[keys[j]].contains(y);
            assert(keys.contains(keys[j]));
            assert(index@.contains_key(keys[j]));
        }
        if completes(index@, prefix@, y) {
            let key = choose|key: Seq<char>| #[trigger]
                index@.contains_key(key) && prefix@.is_prefix_of(key) && index@[key].contains(y);
            assert(keys.contains(key));
            let j = choose|j: int| 0 <= j < keys.len() && keys[j] == key;
            assert(prefix@.is_prefix_of(keys[j]));
        }
    }
    result
}

/// Whether an offset is posted under every term but the last, and under a key that begins with
/// the last.
pub open spec fn matches_beginning(
    index: Map<Seq<char>, Seq<u64>>,
    terms: Seq<Seq<char>>,
    y: u64,
) -> bool {
    &&& terms.len() > 0
    &&& forall|i: int| 0 <= i < terms.len() - 1 ==> posted(index, #[trigger] terms[i]).contains(y)
    &&& completes(index, terms.last(), y)
}

/// The offsets that every term but the last is posted under, and a key that begins with the last.
pub fn autocomplete_offsets(terms: &Vec<String>, index: &TextMap<OffsetSet>) -> (result: OffsetSet)
    requires
        index.wf(),
        sound(index@),
    ensures
        result.wf(),
        forall|y: u64| #[trigger]
            result@.contains(y) <==> matches_beginning(index@, terms.deep_view(), y),
{
    let ghost keys = terms.deep_view();
    let mut sets: Vec<OffsetSet> = Vec::new();
    let mut i: usize = 0;
    while i < terms.len()
        invariant
            i <= terms@.len(),
            keys == terms.deep_view(),
            index.wf(),
            sound(index@),
            sets@.len() == i,
            forall|j: int| 0 <= j < i ==> (#[trigger] sets@[j]).wf(),
            forall|j: int|
                0 <= j < i && j < keys.len() - 1 ==> (#[trigger] sets@[j])@ == posted(
                    index@,
                    keys[j],
                ),
            forall|y: u64|
                i == keys.len() && i > 0 ==> (#[trigger] sets@[i - 1]@.contains(y) <==> completes(
                    index@,
                    keys.last(),
                    y,
                )),
        decreases terms@.len() - i,
    {
        if i + 1 == terms.len() {
            sets.push(completions(index, terms[i].as_str()));
        } else {
            sets.push(offsets_of(index, terms[i].as_str()));
        }
        i = i + 1;
    }
    let result = offsets::intersect_sets(&sets);
    assert forall|y: u64| #[trigger] result@.contains(y) <==> matches_beginning(index@, keys, y) by {
        let lists = sets.deep_view();
        if offsets::in_all(lists, y) {
            assert forall|j: int| 0 <= j < keys.len() - 1 implies posted(
                index@,
                #[trigger] keys[j],
            ).contains(y) by {
                assert(lists[j].contains(y));
                assert(sets@[j]@ == posted(index@, keys[j]));
            }
            assert(lists[keys.len() - 1].contains(y));
            assert(sets@[keys.len() - 1]@.contains(y));
        }
        if matches_beginning(index@, keys, y) {
            assert forall|j: int| 0 <= j < lists.len() implies (#[trigger] lists[j]).contains(y) by {
                assert(lists[j] == sets@[j]@);
                if j < keys.len() - 1 {
                    assert(posted(index@, keys[j]).contains(y));
                } else {
                    assert(sets@[keys.len() - 1]@.contains(y));
                }
            }
        }
    }
    result
}

/// Whether an offset is posted under one of the keys.
pub open spec fn posted_under_any(
    index: Map<Seq<char>, Seq<u64>>,
    keys: Seq<Seq<char>>,
    y: u64,
) -> bool {
    exists|i: int| 0 <= i < keys.len() && posted(index, #[trigger] keys[i]).contains(y)
}

/// The offsets that are posted under one of the keys.
pub fn union_offsets(keys: &Vec<String>, index: &TextMap<OffsetSet>) -> (result: OffsetSet)
    requires
        index.wf(),
        sound(index@),
    ensures
        result.wf(),
        forall|y: u64| #[trigger]
            result@.contains(y) <==> posted_under_any(index@, keys.deep_view(), y),
{
    let ghost all = keys.deep_view();
    let mut result = OffsetSet::new();
    let mut i: usize = 0;
    while i < keys.len()
        invariant
            i <= keys@.len(),
            all == keys.deep_view(),
            index.wf(),
            sound(index@),
            result.wf(),
            forall|y: u64| #[trigger]
                result@.contains(y) <==> exists|j: int|
                    0 <= j < i && posted(index@, #[trigger] all[j]).contains(y),
        decreases keys@.len() - i,
    {
        let ghost before = result@;
        match index.get(keys[i].as_str()) {
            Some(set) => {
                result.insert_all(set);
            },
            None => {},
        }
        assert forall|y: u64| #[trigger]
            result@.contains(y) <==> exists|j: int|
                0 <= j < i + 1 && posted(index@, #[trigger] all[j]).contains(y) by {
            assert(before.contains(y) <==> exists|j: int|
                0 <= j < i && posted(index@, #[trigger] all[j]).contains(y));
            if result@.contains(y) && !before.contains(y) {
                assert(posted(index@, all[i as int]).contains(y));
            }
            if posted(index@, all[i as int]).contains(y) {
                assert(index@.contains_key(all[i as int]));
            }
        }
        i = i + 1;
    }
    result
}

/// An offset is common to several terms where there is a term, and every one of them has it.
pub proof fn law_common_offsets(index: Map<Seq<char>, Seq<u64>>, terms: Seq<Seq<char>>, y: u64)
    ensures
        offsets::in_all(lists_of(index, terms), y) <==> terms.len() > 0 && forall|i: int|
            0 <= i < terms.len() ==> index.contains_key(#[trigger] terms[i])
                && index[terms[i]].contains(y),
{
    let lists = lists_of(index, terms);
    if offsets::in_all(lists, y) {
        assert forall|i: int| 0 <= i < terms.len() implies index.contains_key(#[trigger] terms[i])
            && index[terms[i]].contains(y) by {
            assert(lists[i].contains(y));
        }
    }
}

/// An offset matches a beginning where there is a term, every term but the last has it, and so has
/// some key that begins with the last.
pub proof fn law_offsets_of_beginning(
    index: Map<Seq<char>, Seq<u64>>,
    terms: Seq<Seq<char>>,
    y: u64,
)
    ensures
        matches_beginning(index, terms, y) <==> ({
            &&& terms.len() > 0
            &&& forall|i: int|
                0 <= i < terms.len() - 1 ==> index.contains_key(#[trigger] terms[i])
                    && index[terms[i]].contains(y)
            &&& exists|rest: Seq<char>| #[trigger]
                index.contains_key(terms.last() + rest) && index[terms.last() + rest].contains(y)
        }),
{
    let last = terms.last();
    if matches_beginning(index, terms, y) {
        assert forall|i: int| 0 <= i < terms.len() - 1 implies index.contains_key(
            #[trigger] terms[i],
        ) && index[terms[i]].contains(y) by {
            assert(posted(index, terms[i]).contains(y));
        }
        let key = choose|key: Seq<char>| #[trigger]
            index.contains_key(key) && last.is_prefix_of(key) && index[key].contains(y);
        assert(key =~= last + key.skip(last.len() as int));
        assert(index.contains_key(last + key.skip(last.len() as int)));
    }
    if exists|rest: Seq<char>| #[trigger]
        index.contains_key(last + rest) && index[last + rest].contains(y) {
        let rest = choose|rest: Seq<char>| #[trigger]
            index.contains_key(last + rest) && index[last + rest].contains(y);
        assert((last + rest).take(last.len() as int) =~= last);
        assert(last.is_prefix_of(last + rest));
        assert(completes(index, last, y));
    }
}

/// An offset is posted under one of several keys where one of them has it.
pub proof fn law_offsets_of_any(index: Map<Seq<char>, Seq<u64>>, keys: Seq<Seq<char>>, y: u64)
    ensures
        posted_under_any(index, keys, y) <==> exists|i: int|
            0 <= i < keys.len() && index.contains_key(#[trigger] keys[i])
                && index[keys[i]].contains(y),
{
    if posted_under_any(index, keys, y) {
        let i = choose|i: int| 0 <= i < keys.len() && posted(index, #[trigger] keys[i]).contains(y);
        assert(index.contains_key(keys[i]));
    }
    if exists|i: int|
        0 <= i < keys.len() && index.contains_key(#[trigger] keys[i]) && index[keys[i]].contains(
            y,
        ) {
        let i = choose|i: int|
            0 <= i < keys.len() && index.contains_key(#[trigger] keys[i]) && index[keys[i]].contains(
                y,
            );
        assert(posted(index, keys[i]).contains(y));
    }
}

/// Posting an offset under a key puts it among the offsets of that key, which stay in rising order,
/// and changes no other key.
pub proof fn law_posting(
    index: Map<Seq<char>, Seq<u64>>,
    key: Seq<char>,
    offset: u64,
    other: Seq<char>,
    y: u64,
)
    requires
        sound(index),
        other != key,
    ensures
        ({
            let now = with_posting(index, key, offset);
            &&& now.contains_key(key)
            &&& now[key].contains(y) <==> y == offset || (index.contains_key(key)
                && index[key].contains(y))
            &&& forall|i: int, j: int|
                0 <= i < j < now[key].len() ==> #[trigger] now[key][i] < #[trigger] now[key][j]
            &&& now.contains_key(other) == index.contains_key(other)
            &&& now[other] == index[other]
        }),
{
    offsets::lemma_with_offset(posted(index, key), offset);
    assert(with_posting(index, key, offset)[key] == offsets::with_offset(
        posted(index, key),
        offset,
    ));
}

} // verus!
