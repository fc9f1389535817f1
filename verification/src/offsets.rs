//! Sets of document offsets, kept in rising order.
use vstd::prelude::*;

verus! {

/// Whether the numbers rise strictly.
pub open spec fn climbing(s: Seq<u64>) -> bool {
    forall|i: int, j: int| 0 <= i < j < s.len() ==> #[trigger] s[i] < #[trigger] s[j]
}

/// A number is in every one of the lists, and there is a list.
pub open spec fn in_all(lists: Seq<Seq<u64>>, x: u64) -> bool {
    lists.len() > 0 && forall|i: int| 0 <= i < lists.len() ==> (#[trigger] lists[i]).contains(x)
}

/// Rising numbers are determined by which numbers they are.
pub proof fn lemma_climbing_unique(a: Seq<u64>, b: Seq<u64>)
    requires
        climbing(a),
        climbing(b),
        forall|x: u64| #[trigger] a.contains(x) <==> b.contains(x),
    ensures
        a == b,
    decreases a.len(),
{
    if a.len() == 0 {
        if b.len() > 0 {
            assert(b.contains(b[0]));
            assert(a.contains(b[0]));
        }
        assert(a =~= b);
    } else {
        assert(a.contains(a[0]));
        assert(b.len() > 0);
        let (x, y) = (a.last(), b.last());
        assert(x == y) by {
            assert(a.contains(a[a.len() - 1]));
            assert(b.contains(b[b.len() - 1]));
            assert(a.contains(y));
            let i = choose|i: int| 0 <= i < b.len() && b[i] == x;
            let j = choose|j: int| 0 <= j < a.len() && a[j] == y;
            if i < b.len() - 1 {
                assert(b[i] < b[b.len() - 1]);
            }
            if j < a.len() - 1 {
                assert(a[j] < a[a.len() - 1]);
            }
        }
        let (p, q) = (a.drop_last(), b.drop_last());
        assert forall|n: u64| #[trigger] p.contains(n) <==> q.contains(n) by {
            if p.contains(n) {
                let i = choose|i: int| 0 <= i < p.len() && p[i] == n;
                assert(a[i] == n && a[i] < a[a.len() - 1]);
                assert(a.contains(n));
                let j = choose|j: int| 0 <= j < b.len() && b[j] == n;
                assert(q[j] == n);
            }
            if q.contains(n) {
                let i = choose|i: int| 0 <= i < q.len() && q[i] == n;
                assert(b[i] == n && b[i] < b[b.len() - 1]);
                assert(b.contains(n));
                assert(a.contains(n));
                let j = choose|j: int| 0 <= j < a.len() && a[j] == n;
                assert(p[j] == n);
            }
        }
        lemma_climbing_unique(p, q);
        assert(a =~= p.push(x));
        assert(b =~= q.push(y));
    }
}

/// The rising numbers `s`, with `x` among them.
pub open spec fn with_offset(s: Seq<u64>, x: u64) -> Seq<u64>
    decreases s.len(),
{
    if s.len() == 0 || s.last() < x {
        s.push(x)
    } else if s.last() == x {
        s
    } else {
        with_offset(s.drop_last(), x).push(s.last())
    }
}

/// Adding a number to rising numbers leaves them rising, and adds no other.
pub proof fn lemma_with_offset(s: Seq<u64>, x: u64)
    requires
        climbing(s),
    ensures
        climbing(with_offset(s, x)),
        forall|y: u64| #[trigger] with_offset(s, x).contains(y) <==> s.contains(y) || y == x,
    decreases s.len(),
{
    let now = with_offset(s, x);
    if s.len() == 0 || s.last() < x {
        assert forall|i: int, j: int| 0 <= i < j < now.len() implies #[trigger] now[i]
            < #[trigger] now[j] by {
            if j < s.len() {
                assert(s[i] < s[j]);
            } else if i < s.len() - 1 {
                assert(s[i] < s[s.len() - 1]);
            }
        }
        assert forall|y: u64| #[trigger] now.contains(y) <==> s.contains(y) || y == x by {
            if s.contains(y) {
                let i = choose|i: int| 0 <= i < s.len() && s[i] == y;
                assert(now[i] == y);
            }
            assert(now[s.len() as int] == x);
        }
    } else if s.last() == x {
        assert(s[s.len() - 1] == x);
    } else {
        let front = s.drop_last();
        lemma_with_offset(front, x);
        let shorter = with_offset(front, x);
        assert forall|i: int, j: int| 0 <= i < j < now.len() implies #[trigger] now[i]
            < #[trigger] now[j] by {
            if j < shorter.len() {
                assert(shorter[i] < shorter[j]);
            } else {
                assert(shorter.contains(shorter[i]));
                if shorter[i] != x {
                    let k = choose|k: int| 0 <= k < front.len() && front[k] == shorter[i];
                    assert(s[k] < s[s.len() - 1]);
                }
            }
        }
        assert forall|y: u64| #[trigger] now.contains(y) <==> s.contains(y) || y == x by {
            assert(shorter.contains(y) <==> front.contains(y) || y == x);
            if now.contains(y) {
                let i = choose|i: int| 0 <= i < now.len() && now[i] == y;
                if i < shorter.len() {
                    assert(shorter[i] == y);
                    if front.contains(y) {
                        let k = choose|k: int| 0 <= k < front.len() && front[k] == y;
                        assert(s[k] == y);
                    }
                } else {
                    assert(s[s.len() - 1] == y);
                }
            }
            if s.contains(y) {
                let i = choose|i: int| 0 <= i < s.len() && s[i] == y;
                if i < front.len() {
                    assert(front[i] == y);
                } else {
                    assert(now[shorter.len() as int] == y);
                }
            }
            if shorter.contains(y) {
                let i = choose|i: int| 0 <= i < shorter.len() && shorter[i] == y;
                assert(now[i] == y);
            }
        }
    }
}

/// A set of byte offsets of documents, in rising order.
#[derive(Debug)]
pub struct OffsetSet {
    items: Vec<u64>,
}

impl View for OffsetSet {
    type V = Seq<u64>;

    closed spec fn view(&self) -> Seq<u64> {
        self.items@
    }
}

impl DeepView for OffsetSet {
    type V = Seq<u64>;

    open spec fn deep_view(&self) -> Seq<u64> {
        self@
    }
}

impl Clone for OffsetSet {
    fn clone(&self) -> (result: Self)
        ensures
            result@ == self@,
    {
        let items = self.items.clone();
        assert(items@ =~= self.items@);
        OffsetSet { items }
    }
}

impl OffsetSet {
    pub open spec fn wf(&self) -> bool {
        climbing(self@)
    }

    /// The empty set.
    pub fn new() -> (result: Self)
        ensures
            result.wf(),
            result@ == Seq::<u64>::empty(),
    {
        OffsetSet { items: Vec::new() }
    }

    /// The number of offsets.
    pub fn len(&self) -> (result: usize)
        ensures
            result == self@.len(),
    {
        self.items.len()
    }

    /// The offset at a place in rising order.
    pub fn at(&self, i: usize) -> (result: u64)
        requires
            i < self@.len(),
        ensures
            result == self@[i as int],
    {
        self.items[i]
    }

    /// Adds the offset.
    pub fn insert(&mut self, x: u64)
        requires
            old(self).wf(),
        ensures
            final(self).wf(),
            forall|y: u64| #[trigger]
                final(self)@.contains(y) <==> old(self)@.contains(y) || y == x,
            final(self)@ == with_offset(old(self)@, x),
    {
        let ghost before = self.items@;
        proof {
            lemma_with_offset(before, x);
        }
        let mut i: usize = self.items.len();
        while i > 0 && self.items[i - 1] > x
            invariant
                i <= self.items@.len(),
                self.items@ == before,
                forall|j: int| i <= j < before.len() ==> #[trigger] before[j] > x,
            decreases i,
        {
            i = i - 1;
        }
        if i > 0 && self.items[i - 1] == x {
            assert(before[i - 1] == x);
            assert(before.contains(x));
            proof {
                lemma_climbing_unique(before, with_offset(before, x));
            }
            return ;
        }
        assert(climbing(before));
        self.items.insert(i, x);
        proof {
            let now = self.items@;
            assert(now == before.insert(i as int, x));
            assert forall|a: int, b: int| 0 <= a < b < now.len() implies #[trigger] now[a]
                < #[trigger] now[b] by {
                let a0 = if a < i {
                    a
                } else {
                    a - 1
                };
                let b0 = if b < i {
                    b
                } else {
                    b - 1
                };
                if a == i as int {
                    assert(now[b] == before[b0]);
                } else if b == i as int {
                    assert(now[a] == before[a0]);
                    if a0 < i - 1 {
                        assert(before[a0] < before[i - 1]);
                    }
                } else {
                    assert(now[a] == before[a0] && now[b] == before[b0]);
                }
            }
            assert forall|y: u64| #[trigger] now.contains(y) <==> before.contains(y) || y == x by {
                if now.contains(y) {
                    let j = choose|j: int| 0 <= j < now.len() && now[j] == y;
                    if j < i {
                        assert(before[j] == y);
                    } else if j > i {
                        assert(before[j - 1] == y);
                    }
                }
                if before.contains(y) {
                    let j = choose|j: int| 0 <= j < before.len() && before[j] == y;
                    if j < i {
                        assert(now[j] == y);
                    } else {
                        assert(now[j + 1] == y);
                    }
                }
                assert(now[i as int] == x);
            }
            lemma_climbing_unique(now, with_offset(before, x));
        }
    }

    /// Adds every offset of the other set.
    pub fn insert_all(&mut self, other: &OffsetSet)
        requires
            old(self).wf(),
        ensures
            final(self).wf(),
            forall|y: u64| #[trigger]
                final(self)@.contains(y) <==> old(self)@.contains(y) || other@.contains(y),
    {
        let ghost before = self@;
        let mut i: usize = 0;
        while i < other.items.len()
            invariant
                i <= other.items@.len(),
                self.wf(),
                forall|y: u64| #[trigger]
                    self@.contains(y) <==> before.contains(y) || other@.take(i as int).contains(y),
            decreases other.items@.len() - i,
        {
            let ghost middle = self@;
            self.insert(other.items[i]);
            assert forall|y: u64| #[trigger]
                self@.contains(y) <==> before.contains(y) || other@.take(i + 1).contains(y) by {
                assert(middle.contains(y) <==> before.contains(y) || other@.take(
                    i as int,
                ).contains(y));
                assert(other@.take(i + 1) =~= other@.take(i as int).push(other@[i as int]));
                if other@.take(i as int).contains(y) {
                    let j = choose|j: int| 0 <= j < i && other@.take(i as int)[j] == y;
                    assert(other@.take(i + 1)[j] == y);
                }
                assert(other@.take(i + 1)[i as int] == other@[i as int]);
            }
            i = i + 1;
        }
        assert(other@.take(i as int) =~= other@);
    }

    /// The offsets that are in both sets.
    pub fn intersection(&self, other: &OffsetSet) -> (result: OffsetSet)
        requires
            self.wf(),
            other.wf(),
        ensures
            result.wf(),
            forall|y: u64| #[trigger]
                result@.contains(y) <==> self@.contains(y) && other@.contains(y),
    {
        let mut result = OffsetSet::new();
        let mut i: usize = 0;
        let mut j: usize = 0;
        let ghost a = self@;
        let ghost b = other@;
        while i < self.items.len() && j < other.items.len()
            invariant
                i <= a.len(),
                j <= b.len(),
                a == self.items@,
                b == other.items@,
                climbing(a),
                climbing(b),
                result.wf(),
                forall|k: int| 0 <= k < result@.len() && i < a.len() ==> #[trigger] result@[k] < a[i as int],
                forall|y: u64| #[trigger]
                    result@.contains(y) <==> a.take(i as int).contains(y) && b.contains(y),
                forall|k: int| 0 <= k < j && i < a.len() ==> #[trigger] b[k] < a[i as int],
            decreases a.len() - i + b.len() - j,
        {
            let x = self.items[i];
            let y = other.items[j];
            if y < x {
                j = j + 1;
            } else {
                let ghost before = result@;
                if x == y {
                    result.insert(x);
                } else if i + 1 < self.items.len() {
                    assert(a[i as int] < a[i + 1]);
                }
                proof {
                    assert forall|n: u64| #[trigger]
                        result@.contains(n) <==> a.take(i + 1).contains(n) && b.contains(n) by {
                        assert(before.contains(n) <==> a.take(i as int).contains(n) && b.contains(
                            n,
                        ));
                        if a.take(i as int).contains(n) {
                            let k = choose|k: int| 0 <= k < i && a.take(i as int)[k] == n;
                            assert(a.take(i + 1)[k] == n);
                        }
                        if a.take(i + 1).contains(n) {
                            let longer = a.take(i + 1);
                            let k = choose|k: int| 0 <= k < longer.len() && longer[k] == n;
                            if k < i {
                                assert(a.take(i as int)[k] == n);
                            }
                        }
                        assert(a.take(i + 1)[i as int] == x);
                        if n == x && b.contains(n) && x < y {
                            let k = choose|k: int| 0 <= k < b.len() && b[k] == n;
                            if k > j {
                                assert(b[j as int] < b[k]);
                            }
                        }
                        if x == y {
                            assert(b[j as int] == x);
                        }
                    }
                    if i + 1 < a.len() {
                        assert(a[i as int] < a[i + 1]);
                        assert forall|k: int| 0 <= k < result@.len() implies #[trigger] result@[k]
                            < a[i + 1] by {
                            assert(result@.contains(result@[k]));
                            if result@[k] != x {
                                assert(before.contains(result@[k]));
                                let m = choose|m: int|
                                    0 <= m < before.len() && before[m] == result@[k];
                                assert(before[m] < a[i as int]);
                            }
                        }
                    }
                }
                i = i + 1;
            }
        }
        proof {
            assert forall|y: u64| #[trigger]
                result@.contains(y) <==> a.contains(y) && b.contains(y) by {
                if a.take(i as int).contains(y) {
                    let k = choose|k: int| 0 <= k < i && a.take(i as int)[k] == y;
                    assert(a[k] == y);
                }
                if a.contains(y) && b.contains(y) {
                    let k = choose|k: int| 0 <= k < a.len() && a[k] == y;
                    if k < i {
                        assert(a.take(i as int)[k] == y);
                    } else {
                        let m = choose|m: int| 0 <= m < b.len() && b[m] == y;
                        assert(b[m] < a[i as int]);
                        if k > i {
                            assert(a[i as int] < a[k]);
                        }
                    }
                }
            }
        }
        result
    }
}

/// The offsets that are in every set; none where there is no set.
pub fn intersect_sets(sets: &Vec<OffsetSet>) -> (result: OffsetSet)
    requires
        forall|i: int| 0 <= i < sets@.len() ==> (#[trigger] sets@[i]).wf(),
    ensures
        result.wf(),
        forall|y: u64| #[trigger] result@.contains(y) <==> in_all(sets.deep_view(), y),
{
    if sets.len() == 0 {
        return OffsetSet::new();
    }
    let mut smallest: usize = 0;
    let mut i: usize = 1;
    while i < sets.len()
        invariant
            1 <= i <= sets@.len(),
            smallest < sets@.len(),
        decreases sets@.len() - i,
    {
        if sets[i].len() < sets[smallest].len() {
            smallest = i;
        }
        i = i + 1;
    }
    let ghost all = sets.deep_view();
    let mut result = sets[smallest].clone();
    let mut k: usize = 0;
    while k < sets.len() && result.len() > 0
        invariant
            k <= sets@.len(),
            smallest < sets@.len(),
            all == sets.deep_view(),
            forall|j: int| 0 <= j < sets@.len() ==> (#[trigger] sets@[j]).wf(),
            result.wf(),
            forall|y: u64| #[trigger]
                result@.contains(y) <==> all[smallest as int].contains(y) && forall|j: int|
                    0 <= j < k ==> (#[trigger] all[j]).contains(y),
        decreases sets@.len() - k,
    {
        let ghost before = result@;
        result = result.intersection(&sets[k]);
        proof {
            assert forall|y: u64| #[trigger]
                result@.contains(y) <==> all[smallest as int].contains(y) && forall|j: int|
                    0 <= j < k + 1 ==> (#[trigger] all[j]).contains(y) by {
                assert(before.contains(y) <==> all[smallest as int].contains(y) && forall|j: int|
                    0 <= j < k ==> (#[trigger] all[j]).contains(y));
                assert(all[k as int] == sets@[k as int]@);
            }
        }
        k = k + 1;
    }
    proof {
        assert forall|y: u64| #[trigger] result@.contains(y) <==> in_all(all, y) by {
            if in_all(all, y) {
                assert(all[smallest as int].contains(y));
            }
            if result@.len() == 0 && in_all(all, y) {
                assert(result@.contains(y));
            }
        }
    }
    result
}

} // verus!
