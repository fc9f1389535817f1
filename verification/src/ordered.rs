//! A map whose keys are text, kept in dictionary order.
use vstd::prelude::*;

verus! {

/// Dictionary order by character: `a` comes before `b`.
pub open spec fn precedes(a: Seq<char>, b: Seq<char>) -> bool
    decreases a.len(),
{
    if b.len() == 0 {
        false
    } else if a.len() == 0 {
        true
    } else if a[0] != b[0] {
        a[0] < b[0]
    } else {
        precedes(a.drop_first(), b.drop_first())
    }
}

/// How one text stands to another.
#[derive(Clone, Copy, Debug, PartialEq, Eq, Structural)]
pub enum TextOrder {
    Before,
    Same,
    After,
}

/// How `a` stands to `b` in dictionary order.
pub fn text_order(a: &str, b: &str) -> (result: TextOrder)
    ensures
        match result {
            TextOrder::Before => precedes(a@, b@),
            TextOrder::Same => a@ == b@,
            TextOrder::After => precedes(b@, a@),
        },
{
    let mut x = a.chars();
    let mut y = b.chars();
    let ghost mut k: int = 0;
    assert(a@.skip(0) =~= a@ && b@.skip(0) =~= b@);
    loop
        invariant
            0 <= k <= a@.len(),
            k <= b@.len(),
            a@.take(k) == b@.take(k),
            precedes(a@, b@) == precedes(a@.skip(k), b@.skip(k)),
            precedes(b@, a@) == precedes(b@.skip(k), a@.skip(k)),
            vstd::std_specs::iter::IteratorSpec::remaining(&x) == a@.skip(k),
            vstd::std_specs::iter::IteratorSpec::remaining(&y) == b@.skip(k),
        decreases a@.len() - k,
    {
        let ghost p = a@.skip(k);
        let ghost q = b@.skip(k);
        match (x.next(), y.next()) {
            (None, None) => {
                assert(a@ =~= a@.take(k) && b@ =~= b@.take(k));
                return TextOrder::Same;
            },
            (None, Some(_)) => {
                return TextOrder::Before;
            },
            (Some(_), None) => {
                return TextOrder::After;
            },
            (Some(c), Some(d)) => {
                if c < d {
                    return TextOrder::Before;
                }
                if d < c {
                    return TextOrder::After;
                }
                proof {
                    assert(p.drop_first() =~= a@.skip(k + 1));
                    assert(q.drop_first() =~= b@.skip(k + 1));
                    assert(p[0] == a@[k] && q[0] == b@[k]);
                    assert(a@.take(k + 1) =~= a@.take(k).push(a@[k]));
                    assert(b@.take(k + 1) =~= b@.take(k).push(b@[k]));
                    k = k + 1;
                }
            },
        }
    }
}

/// No text comes before itself.
pub proof fn lemma_precedes_irreflexive(a: Seq<char>)
    ensures
        !precedes(a, a),
    decreases a.len(),
{
    if a.len() > 0 {
        lemma_precedes_irreflexive(a.drop_first());
    }
}

/// Dictionary order is transitive.
pub proof fn lemma_precedes_transitive(a: Seq<char>, b: Seq<char>, c: Seq<char>)
    requires
        precedes(a, b),
        precedes(b, c),
    ensures
        precedes(a, c),
    decreases a.len(),
{
    if a.len() > 0 && a[0] == b[0] && b[0] == c[0] {
        lemma_precedes_transitive(a.drop_first(), b.drop_first(), c.drop_first());
    }
}

/// Whether the texts are in strictly rising dictionary order.
pub open spec fn rising(keys: Seq<Seq<char>>) -> bool {
    forall|i: int, j: int| 0 <= i < j < keys.len() ==> precedes(#[trigger] keys[i], #[trigger] keys[j])
}

/// Texts in rising order are determined by which texts they are.
pub proof fn lemma_rising_unique(a: Seq<Seq<char>>, b: Seq<Seq<char>>)
    requires
        rising(a),
        rising(b),
        forall|key: Seq<char>| #[trigger] a.contains(key) <==> b.contains(key),
    ensures
        a == b,
    decreases a.len(),
{
    if a.len() == 0 {
        if b.len() > 0 {
            assert(b.contains(b[0]));
            assert(a.contains(b[0]));
        }
        assert(a =~= b);
    } else {
        assert(a.contains(a[0]));
        assert(b.len() > 0);
        let (x, y) = (a.last(), b.last());
        assert(x == y) by {
            assert(a.contains(a[a.len() - 1]));
            assert(b.contains(b[b.len() - 1]));
            assert(a.contains(y));
            let i = choose|i: int| 0 <= i < b.len() && b[i] == x;
            let j = choose|j: int| 0 <= j < a.len() && a[j] == y;
            if i < b.len() - 1 && j < a.len() - 1 {
                assert(precedes(b[i], b[b.len() - 1]));
                assert(precedes(a[j], a[a.len() - 1]));
                lemma_precedes_transitive(x, y, x);
                lemma_precedes_irreflexive(x);
            }
        }
        let (p, q) = (a.drop_last(), b.drop_last());
        assert forall|key: Seq<char>| #[trigger] p.contains(key) <==> q.contains(key) by {
            if p.contains(key) {
                let i = choose|i: int| 0 <= i < p.len() && p[i] == key;
                assert(a[i] == key && precedes(a[i], a[a.len() - 1]));
                lemma_precedes_irreflexive(key);
                assert(a.contains(key));
                let j = choose|j: int| 0 <= j < b.len() && b[j] == key;
                assert(j < b.len() - 1);
                assert(q[j] == key);
            }
            if q.contains(key) {
                let i = choose|i: int| 0 <= i < q.len() && q[i] == key;
                assert(b[i] == key && precedes(b[i], b[b.len() - 1]));
                lemma_precedes_irreflexive(key);
                assert(b.contains(key));
                assert(a.contains(key));
                let j = choose|j: int| 0 <= j < a.len() && a[j] == key;
                assert(j < a.len() - 1);
                assert(p[j] == key);
            }
        }
        assert forall|i: int, j: int| 0 <= i < j < p.len() implies precedes(
            #[trigger] p[i],
            #[trigger] p[j],
        ) by {
            assert(p[i] == a[i] && p[j] == a[j]);
        }
        assert forall|i: int, j: int| 0 <= i < j < q.len() implies precedes(
            #[trigger] q[i],
            #[trigger] q[j],
        ) by {
            assert(q[i] == b[i] && q[j] == b[j]);
        }
        lemma_rising_unique(p, q);
        assert(a =~= p.push(x));
        assert(b =~= q.push(y));
    }
}

/// The texts of a finite set, in dictionary order.
pub open spec fn ordered_keys(set: Set<Seq<char>>) -> Seq<Seq<char>> {
    choose|keys: Seq<Seq<char>>|
        rising(keys) && forall|key: Seq<char>| #[trigger]
            keys.contains(key) <==> set.contains(key)
}

/// Where a text belongs among texts in rising order that lack it.
proof fn lemma_rising_insert(keys: Seq<Seq<char>>, key: Seq<char>) -> (more: Seq<Seq<char>>)
    requires
        rising(keys),
        !keys.contains(key),
    ensures
        rising(more),
        forall|k: Seq<char>| #[trigger] more.contains(k) <==> keys.contains(k) || k == key,
    decreases keys.len(),
{
    if keys.len() == 0 || precedes(keys.last(), key) {
        let more = keys.push(key);
        assert forall|i: int, j: int| 0 <= i < j < more.len() implies precedes(
            #[trigger] more[i],
            #[trigger] more[j],
        ) by {
            if j < keys.len() {
                assert(precedes(keys[i], keys[j]));
            } else if i < keys.len() - 1 {
                assert(precedes(keys[i], keys[keys.len() - 1]));
                lemma_precedes_transitive(keys[i], keys.last(), key);
            }
        }
        assert forall|k: Seq<char>| #[trigger]
            more.contains(k) <==> keys.contains(k) || k == key by {
            if keys.contains(k) {
                let i = choose|i: int| 0 <= i < keys.len() && keys[i] == k;
                assert(more[i] == k);
            }
            assert(more[keys.len() as int] == key);
        }
        more
    } else {
        let last = keys.last();
        let front = keys.drop_last();
        assert(keys[keys.len() - 1] == last);
        assert forall|i: int, j: int| 0 <= i < j < front.len() implies precedes(
            #[trigger] front[i],
            #[trigger] front[j],
        ) by {
            assert(front[i] == keys[i] && front[j] == keys[j]);
        }
        if front.contains(key) {
            let i = choose|i: int| 0 <= i < front.len() && front[i] == key;
            assert(keys[i] == key);
        }
        lemma_precedes_total(last, key);
        let shorter = lemma_rising_insert(front, key);
        let more = shorter.push(last);
        assert forall|i: int, j: int| 0 <= i < j < more.len() implies precedes(
            #[trigger] more[i],
            #[trigger] more[j],
        ) by {
            if j < shorter.len() {
                assert(precedes(shorter[i], shorter[j]));
            } else {
                assert(shorter.contains(shorter[i]));
                if shorter[i] != key {
                    let k = choose|k: int| 0 <= k < front.len() && front[k] == shorter[i];
                    assert(precedes(keys[k], keys[keys.len() - 1]));
                }
            }
        }
        assert forall|k: Seq<char>| #[trigger]
            more.contains(k) <==> keys.contains(k) || k == key by {
            assert(shorter.contains(k) <==> front.contains(k) || k == key);
            if more.contains(k) {
                let i = choose|i: int| 0 <= i < more.len() && more[i] == k;
                if i < shorter.len() {
                    assert(shorter[i] == k);
                    if front.contains(k) {
                        let m = choose|m: int| 0 <= m < front.len() && front[m] == k;
                        assert(keys[m] == k);
                    }
                }
            }
            if keys.contains(k) {
                let i = choose|i: int| 0 <= i < keys.len() && keys[i] == k;
                if i < front.len() {
                    assert(front[i] == k);
                } else {
                    assert(more[shorter.len() as int] == k);
                }
            }
            if shorter.contains(k) {
                let i = choose|i: int| 0 <= i < shorter.len() && shorter[i] == k;
                assert(more[i] == k);
            }
        }
        more
    }
}

/// Of two different texts one comes before the other.
pub proof fn lemma_precedes_total(a: Seq<char>, b: Seq<char>)
    requires
        a != b,
    ensures
        precedes(a, b) || precedes(b, a),
    decreases a.len(),
{
    if a.len() == 0 {
        if b.len() == 0 {
            assert(a =~= b);
        }
    } else if b.len() > 0 && a[0] == b[0] {
        if a.drop_first() == b.drop_first() {
            assert(a =~= seq![a[0]] + a.drop_first());
            assert(b =~= seq![b[0]] + b.drop_first());
        }
        lemma_precedes_total(a.drop_first(), b.drop_first());
    }
}

proof fn lemma_ordered_keys_exist(set: Set<Seq<char>>) -> (keys: Seq<Seq<char>>)
    requires
        set.finite(),
    ensures
        rising(keys),
        forall|key: Seq<char>| #[trigger] keys.contains(key) <==> set.contains(key),
    decreases set.len(),
{
    if set.len() == 0 {
        let keys = Seq::<Seq<char>>::empty();
        assert forall|key: Seq<char>| #[trigger] keys.contains(key) <==> set.contains(key) by {
            if set.contains(key) {
                assert(set.remove(key).len() < set.len());
            }
        }
        keys
    } else {
        let key = set.choose();
        assert(set.contains(key));
        let fewer = lemma_ordered_keys_exist(set.remove(key));
        assert(!fewer.contains(key));
        let keys = lemma_rising_insert(fewer, key);
        assert forall|k: Seq<char>| #[trigger] keys.contains(k) <==> set.contains(k) by {
            assert(fewer.contains(k) <==> set.remove(key).contains(k));
        }
        keys
    }
}

/// The ordered texts of a finite set are in rising order, and are those of the set.
pub proof fn lemma_ordered_keys(set: Set<Seq<char>>)
    requires
        set.finite(),
    ensures
        rising(ordered_keys(set)),
        forall|key: Seq<char>| #[trigger] ordered_keys(set).contains(key) <==> set.contains(key),
{
    let keys = lemma_ordered_keys_exist(set);
}

/// A map whose keys are text, kept in dictionary order.
#[derive(Debug)]
pub struct TextMap<V> {
    keys: Vec<String>,
    values: Vec<V>,
}

impl<V: View> View for TextMap<V> {
    type V = Map<Seq<char>, V::V>;

    closed spec fn view(&self) -> Map<Seq<char>, V::V> {
        Map::new(
            |key: Seq<char>| self.keys.deep_view().contains(key),
            |key: Seq<char>| self.values@[self.keys.deep_view().index_of(key)]@,
        )
    }
}

impl<V: View> TextMap<V> {
    /// The keys, in dictionary order.
    pub closed spec fn keys(&self) -> Seq<Seq<char>> {
        self.keys.deep_view()
    }

    pub closed spec fn wf(&self) -> bool {
        &&& self.keys@.len() == self.values@.len()
        &&& rising(self.keys.deep_view())
    }

    /// The keys of a map are in rising order, and are those that it has values for.
    pub proof fn lemma_keys(&self)
        requires
            self.wf(),
        ensures
            rising(self.keys()),
            forall|key: Seq<char>| #[trigger] self.keys().contains(key) <==> self@.contains_key(key),
    {
    }

    /// The keys of a map are finitely many, and are held in dictionary order.
    pub proof fn lemma_ordered_keys(&self)
        requires
            self.wf(),
        ensures
            self@.dom().finite(),
            self.keys() == ordered_keys(self@.dom()),
    {
        let keys = self.keys();
        assert(self@.dom() =~= keys.to_set());
        vstd::seq_lib::seq_to_set_is_finite(keys);
        lemma_ordered_keys(self@.dom());
        let others = ordered_keys(self@.dom());
        assert forall|key: Seq<char>| #[trigger] keys.contains(key) <==> others.contains(key) by {
            assert(others.contains(key) <==> self@.dom().contains(key));
        }
        lemma_rising_unique(keys, others);
    }

    proof fn lemma_at(&self, i: int)
        requires
            self.wf(),
            0 <= i < self.keys@.len(),
        ensures
            self@.contains_key(self.keys@[i]@),
            self@[self.keys@[i]@] == self.values@[i]@,
    {
        let all = self.keys.deep_view();
        let key = all[i];
        assert(all.contains(key));
        let j = all.index_of(key);
        assert(0 <= j < all.len() && all[j] == key);
        if j < i {
            assert(precedes(all[j], all[i]));
            lemma_precedes_irreflexive(key);
        } else if i < j {
            assert(precedes(all[i], all[j]));
            lemma_precedes_irreflexive(key);
        }
    }

    /// An empty map.
    pub fn new() -> (result: Self)
        ensures
            result.wf(),
            result@ == Map::<Seq<char>, V::V>::empty(),
            result.keys() == Seq::<Seq<char>>::empty(),
    {
        let result = TextMap { keys: Vec::new(), values: Vec::new() };
        assert(result@ =~= Map::<Seq<char>, V::V>::empty());
        assert(result.keys() =~= Seq::<Seq<char>>::empty());
        result
    }

    /// The number of keys.
    pub fn len(&self) -> (result: usize)
        requires
            self.wf(),
        ensures
            result == self.keys().len(),
    {
        self.keys.len()
    }

    /// The key at a place in dictionary order.
    pub fn key_at(&self, i: usize) -> (result: &String)
        requires
            self.wf(),
            i < self.keys().len(),
        ensures
            result@ == self.keys()[i as int],
    {
        &self.keys[i]
    }

    /// The value of the key at a place in dictionary order.
    pub fn value_at(&self, i: usize) -> (result: &V)
        requires
            self.wf(),
            i < self.keys().len(),
        ensures
            result@ == self@[self.keys()[i as int]],
    {
        proof {
            self.lemma_at(i as int);
        }
        &self.values[i]
    }

    /// The place of the key, and whether it is there; else the place where it belongs.
    fn place(&self, key: &str) -> (result: (bool, usize))
        requires
            self.wf(),
        ensures
            result.1 <= self.keys@.len(),
            result.0 ==> result.1 < self.keys@.len() && self.keys@[result.1 as int]@ == key@,
            !result.0 ==> {
                &&& forall|i: int| 0 <= i < result.1 ==> precedes(#[trigger] self.keys@[i]@, key@)
                &&& forall|i: int|
                    result.1 <= i < self.keys@.len() ==> precedes(key@, #[trigger] self.keys@[i]@)
            },
    {
        let ghost all = self.keys.deep_view();
        let mut low: usize = 0;
        let mut high: usize = self.keys.len();
        while low < high
            invariant
                low <= high <= self.keys@.len(),
                all == self.keys.deep_view(),
                rising(all),
                forall|i: int| 0 <= i < low ==> precedes(#[trigger] self.keys@[i]@, key@),
                forall|i: int|
                    high <= i < self.keys@.len() ==> precedes(key@, #[trigger] self.keys@[i]@),
            decreases high - low,
        {
            let middle: usize = low + (high - low) / 2;
            match text_order(self.keys[middle].as_str(), key) {
                TextOrder::Same => {
                    return (true, middle);
                },
                TextOrder::Before => {
                    assert forall|i: int| 0 <= i < middle + 1 implies precedes(
                        #[trigger] self.keys@[i]@,
                        key@,
                    ) by {
                        if i < middle {
                            assert(precedes(all[i], all[middle as int]));
                            lemma_precedes_transitive(all[i], all[middle as int], key@);
                        }
                    }
                    low = middle + 1;
                },
                TextOrder::After => {
                    assert forall|i: int| middle <= i < self.keys@.len() implies precedes(
                        key@,
                        #[trigger] self.keys@[i]@,
                    ) by {
                        if middle < i {
                            assert(precedes(all[middle as int], all[i]));
                            lemma_precedes_transitive(key@, all[middle as int], all[i]);
                        }
                    }
                    high = middle;
                },
            }
        }
        (false, low)
    }

    /// The value of the key, where the map has one.
    pub fn get(&self, key: &str) -> (result: Option<&V>)
        requires
            self.wf(),
        ensures
            match result {
                Some(value) => self@.contains_key(key@) && self@[key@] == value@,
                None => !self@.contains_key(key@),
            },
    {
        let (found, i) = self.place(key);
        if found {
            proof {
                self.lemma_at(i as int);
            }
            Some(&self.values[i])
        } else {
            proof {
                self.lemma_absent(key@, i as int);
            }
            None
        }
    }

    proof fn lemma_absent(&self, key: Seq<char>, i: int)
        requires
            self.wf(),
            0 <= i <= self.keys@.len(),
            forall|j: int| 0 <= j < i ==> precedes(#[trigger] self.keys@[j]@, key),
            forall|j: int| i <= j < self.keys@.len() ==> precedes(key, #[trigger] self.keys@[j]@),
        ensures
            !self@.contains_key(key),
    {
        if self@.contains_key(key) {
            let all = self.keys.deep_view();
            let j = choose|j: int| 0 <= j < all.len() && all[j] == key;
            assert(self.keys@[j]@ == key);
            lemma_precedes_irreflexive(key);
        }
    }

    /// A map with the values of `before` but for the one at `i` gives the key at `i` that value.
    proof fn lemma_set_at(before: Self, now: Self, i: int)
        requires
            before.wf(),
            0 <= i < before.keys@.len(),
            now.keys == before.keys,
            now.values@ == before.values@.update(i, now.values@[i]),
        ensures
            now.wf(),
            now@ == before@.insert(before.keys@[i]@, now.values@[i]@),
    {
        let all = before.keys.deep_view();
        let key = all[i];
        before.lemma_at(i);
        assert forall|k: Seq<char>| #[trigger] now@.contains_key(k) implies now@[k]
            == before@.insert(key, now.values@[i]@)[k] by {
            let j = choose|j: int| 0 <= j < all.len() && all[j] == k;
            now.lemma_at(j);
            before.lemma_at(j);
            if j != i && k == key {
                if j < i {
                    assert(precedes(all[j], all[i]));
                } else {
                    assert(precedes(all[i], all[j]));
                }
                lemma_precedes_irreflexive(k);
            }
        }
        assert(now@ =~= before@.insert(key, now.values@[i]@));
    }

    /// The value of the key, to be changed in place.
    pub fn get_mut(&mut self, key: &str) -> (result: Option<&mut V>)
        requires
            old(self).wf(),
        ensures
            match result {
                Some(value) => {
                    &&& old(self)@.contains_key(key@)
                    &&& old(self)@[key@] == value@
                    &&& final(self).wf()
                    &&& final(self)@ == old(self)@.insert(key@, final(value)@)
                },
                None => !old(self)@.contains_key(key@) && *final(self) == *old(self),
            },
    {
        let (found, i) = self.place(key);
        let ghost before = *self;
        if found {
            proof {
                before.lemma_at(i as int);
            }
            assert forall|now: Self|
                now.keys == before.keys && #[trigger] now.values@ == before.values@.update(
                    i as int,
                    now.values@[i as int],
                ) implies now.wf() && now@ == before@.insert(key@, now.values@[i as int]@) by {
                Self::lemma_set_at(before, now, i as int);
            }
            Some(&mut self.values[i])
        } else {
            proof {
                before.lemma_absent(key@, i as int);
            }
            None
        }
    }

    /// Gives the key the value, in place of any that it had.
    pub fn insert(&mut self, key: String, value: V)
        requires
            old(self).wf(),
        ensures
            final(self).wf(),
            final(self)@ == old(self)@.insert(key@, value@),
    {
        let (found, i) = self.place(key.as_str());
        let ghost before = *self;
        if found {
            self.values.set(i, value);
            proof {
                Self::lemma_set_at(before, *self, i as int);
            }
        } else {
            proof {
                before.lemma_absent(key@, i as int);
            }
            self.keys.insert(i, key);
            self.values.insert(i, value);
            proof {
                let all = before.keys.deep_view();
                let now = self.keys.deep_view();
                assert(now =~= all.insert(i as int, key@));
                assert forall|a: int, b: int| 0 <= a < b < now.len() implies precedes(
                    #[trigger] now[a],
                    #[trigger] now[b],
                ) by {
                    let a0 = if a < i {
                        a
                    } else {
                        a - 1
                    };
                    let b0 = if b < i {
                        b
                    } else {
                        b - 1
                    };
                    if a == i as int {
                        assert(now[b] == before.keys@[b0]@);
                    } else if b == i as int {
                        assert(now[a] == before.keys@[a0]@);
                    } else {
                        assert(now[a] == all[a0] && now[b] == all[b0]);
                    }
                }
                assert forall|k: Seq<char>| #[trigger]
                    self@.contains_key(k) <==> before@.insert(key@, value@).contains_key(k) by {
                    if now.contains(k) {
                        let j = choose|j: int| 0 <= j < now.len() && now[j] == k;
                        if j < i {
                            assert(all[j] == k);
                        } else if j > i {
                            assert(all[j - 1] == k);
                        }
                    }
                    if all.contains(k) {
                        let j = choose|j: int| 0 <= j < all.len() && all[j] == k;
                        if j < i {
                            assert(now[j] == k);
                        } else {
                            assert(now[j + 1] == k);
                        }
                    }
                    assert(now[i as int] == key@);
                }
                assert forall|k: Seq<char>| #[trigger] self@.contains_key(k) implies self@[k]
                    == before@.insert(key@, value@)[k] by {
                    let j = choose|j: int| 0 <= j < now.len() && now[j] == k;
                    self.lemma_at(j);
                    if j < i {
                        before.lemma_at(j);
                    } else if j > i {
                        before.lemma_at(j - 1);
                    }
                }
                assert(self@ =~= before@.insert(key@, value@));
            }
        }
    }
}

} // verus!
