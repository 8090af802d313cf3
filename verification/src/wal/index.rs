//! Index of the segments of a WAL.

use vstd::prelude::*;

verus! {

/// The first cursors of the segments on disk and a size for each of them, in ascending
/// order. No first cursor occurs twice.
#[derive(Debug, Clone)]
pub struct SegmentIndex {
    entries: Vec<(u64, u64)>,
}

/// The first cursors ascend.
pub open spec fn ascending(s: Seq<(u64, u64)>) -> bool {
    forall|i: int, j: int| 0 <= i < j < s.len() ==> (#[trigger] s[i]).0 < (#[trigger] s[j]).0
}

/// The place of the first entry whose cursor is at least `key`.
pub open spec fn place_of(s: Seq<(u64, u64)>, key: u64) -> int
    decreases s.len(),
{
    if s.len() == 0 {
        0
    } else if s.last().0 < key {
        s.len() as int
    } else {
        place_of(s.drop_last(), key)
    }
}

/// The size noted for the segment at `key`: zero if there is none.
pub open spec fn size_at(s: Seq<(u64, u64)>, key: u64) -> u64 {
    let p = place_of(s, key);
    if p < s.len() && s[p].0 == key {
        s[p].1
    } else {
        0
    }
}

/// Whether the index knows a segment that starts at `key`.
pub open spec fn has_key(s: Seq<(u64, u64)>, key: u64) -> bool {
    exists|i: int| 0 <= i < s.len() && (#[trigger] s[i]).0 == key
}

/// The index with the size of the segment at `key` set to `size`.
pub open spec fn with_entry(s: Seq<(u64, u64)>, key: u64, size: u64) -> Seq<(u64, u64)> {
    let p = place_of(s, key);
    if p < s.len() && s[p].0 == key {
        s.update(p, (key, size))
    } else {
        s.insert(p, (key, size))
    }
}

/// The sum of the sizes.
pub open spec fn total_size(s: Seq<(u64, u64)>) -> nat
    decreases s.len(),
{
    if s.len() == 0 {
        0
    } else {
        total_size(s.drop_last()) + s.last().1 as nat
    }
}

/// The first cursors of the entries.
pub open spec fn keys(s: Seq<(u64, u64)>) -> Seq<u64> {
    s.map_values(|e: (u64, u64)| e.0)
}

pub proof fn lemma_place_of(s: Seq<(u64, u64)>, key: u64)
    requires
        ascending(s),
    ensures
        0 <= place_of(s, key) <= s.len(),
        forall|i: int| 0 <= i < place_of(s, key) ==> (#[trigger] s[i]).0 < key,
        forall|i: int| place_of(s, key) <= i < s.len() ==> (#[trigger] s[i]).0 >= key,
    decreases s.len(),
{
    if s.len() > 0 {
        let rest = s.drop_last();
        assert(ascending(rest)) by {
            assert forall|i: int, j: int| 0 <= i < j < rest.len() implies (#[trigger] rest[i]).0 < (
            #[trigger] rest[j]).0 by {
                assert(rest[i] == s[i] && rest[j] == s[j]);
            }
        }
        lemma_place_of(rest, key);
        assert(forall|i: int| 0 <= i < rest.len() ==> rest[i] == s[i]);
    }
}

/// Setting an entry keeps the order, finds the entry in its place and leaves the others.
pub proof fn lemma_with_entry(s: Seq<(u64, u64)>, key: u64, size: u64)
    requires
        ascending(s),
    ensures
        ascending(with_entry(s, key, size)),
        has_key(with_entry(s, key, size), key),
        with_entry(s, key, size).len() == s.len() + (if has_key(s, key) {
            0int
        } else {
            1
        }),
        forall|i: int|
            0 <= i < s.len() && (#[trigger] s[i]).0 != key ==> with_entry(s, key, size).contains(
                s[i],
            ),
        with_entry(s, key, size).contains((key, size)),
{
    lemma_place_of(s, key);
    let p = place_of(s, key);
    let t = with_entry(s, key, size);
    assert(t[p] == (key, size));
    assert(has_key(s, key) ==> p < s.len() && s[p].0 == key) by {
        if has_key(s, key) {
            let i = choose|i: int| 0 <= i < s.len() && (#[trigger] s[i]).0 == key;
            assert(i >= p);
            if i > p {
                assert(s[p].0 < s[i].0);
            }
        }
    }
    if p < s.len() && s[p].0 == key {
        assert forall|i: int, j: int| 0 <= i < j < t.len() implies (#[trigger] t[i]).0 < (
        #[trigger] t[j]).0 by {
            assert(s[i].0 < s[j].0);
        }
        assert forall|i: int| 0 <= i < s.len() && (#[trigger] s[i]).0 != key implies t.contains(
            s[i],
        ) by {
            assert(t[i] == s[i]);
        }
    } else {
        assert(forall|i: int| 0 <= i < p ==> t[i] == s[i]);
        assert(forall|i: int| p < i < t.len() ==> t[i] == s[i - 1]);
        assert forall|i: int, j: int| 0 <= i < j < t.len() implies (#[trigger] t[i]).0 < (
        #[trigger] t[j]).0 by {
            if i < p && j < p {
                assert(s[i].0 < s[j].0);
            } else if i > p && j > p {
                assert(s[i - 1].0 < s[j - 1].0);
            } else if i < p && j == p {
                assert(s[i].0 < key);
            } else if i == p {
                assert(s[j - 1].0 >= key);
                assert(s[j - 1].0 != key) by {
                    if s[j - 1].0 == key {
                        if j - 1 > p {
                            assert(s[p].0 < s[j - 1].0);
                        }
                    }
                }
            } else {
                assert(s[i].0 < s[j - 1].0);
            }
        }
        assert forall|i: int| 0 <= i < s.len() && (#[trigger] s[i]).0 != key implies t.contains(
            s[i],
        ) by {
            if i < p {
                assert(t[i] == s[i]);
            } else {
                assert(t[i + 1] == s[i]);
            }
        }
    }
}

pub proof fn lemma_total_bound(s: Seq<(u64, u64)>)
    ensures
        total_size(s) <= s.len() * u64::MAX,
    decreases s.len(),
{
    if s.len() > 0 {
        lemma_total_bound(s.drop_last());
        let n = s.len() as int;
        assert(n * u64::MAX == (n - 1) * u64::MAX + u64::MAX) by (nonlinear_arith);
    }
}

/// Setting an entry adds its key and no other.
pub proof fn lemma_with_entry_keys(s: Seq<(u64, u64)>, key: u64, size: u64)
    requires
        ascending(s),
    ensures
        forall|c: u64|
            #[trigger] has_key(with_entry(s, key, size), c) <==> c == key || has_key(s, c),
{
    lemma_place_of(s, key);
    lemma_with_entry(s, key, size);
    let p = place_of(s, key);
    let t = with_entry(s, key, size);
    let replaced = p < s.len() && s[p].0 == key;
    assert forall|c: u64| #[trigger] has_key(t, c) <==> c == key || has_key(s, c) by {
        if has_key(t, c) && c != key {
            let i = choose|i: int| 0 <= i < t.len() && (#[trigger] t[i]).0 == c;
            if replaced || i < p {
                assert(s[i].0 == c);
            } else {
                assert(s[i - 1].0 == c);
            }
        }
        if has_key(s, c) && c != key {
            let j = choose|j: int| 0 <= j < s.len() && (#[trigger] s[j]).0 == c;
            if replaced || j < p {
                assert(t[j].0 == c);
            } else {
                assert(t[j + 1].0 == c);
            }
        }
    }
}

/// An index is determined by its keys.
pub proof fn lemma_keys_determine(s: Seq<(u64, u64)>, q: Seq<u64>)
    requires
        ascending(s),
        forall|i: int, j: int| 0 <= i < j < q.len() ==> #[trigger] q[i] < #[trigger] q[j],
        forall|c: u64| #[trigger] has_key(s, c) <==> q.contains(c),
    ensures
        keys(s) == q,
    decreases s.len(),
{
    if q.len() > 0 {
        assert(q.contains(q.last()));
        assert(has_key(s, q.last()));
    }
    if s.len() > 0 {
        let last = s.last().0;
        assert(s[s.len() - 1].0 == last);
        assert(has_key(s, last));
        let j = choose|j: int| 0 <= j < q.len() && q[j] == last;
        let i = choose|i: int| 0 <= i < s.len() && (#[trigger] s[i]).0 == q.last();
        if j < q.len() - 1 {
            assert(q[j] < q[q.len() - 1]);
            if i < s.len() - 1 {
                assert(s[i].0 < s[s.len() - 1].0);
            }
        }
        let s0 = s.drop_last();
        let q0 = q.drop_last();
        assert(ascending(s0)) by {
            assert forall|x: int, y: int| 0 <= x < y < s0.len() implies (#[trigger] s0[x]).0 < (
            #[trigger] s0[y]).0 by {
                assert(s0[x] == s[x] && s0[y] == s[y]);
            }
        }
        assert forall|c: u64| #[trigger] has_key(s0, c) <==> q0.contains(c) by {
            if has_key(s0, c) {
                let x = choose|x: int| 0 <= x < s0.len() && (#[trigger] s0[x]).0 == c;
                assert(s[x].0 == c && s[x].0 < s[s.len() - 1].0);
                assert(has_key(s, c));
                let y = choose|y: int| 0 <= y < q.len() && q[y] == c;
                assert(q0[y] == c);
            }
            if q0.contains(c) {
                let y = choose|y: int| 0 <= y < q0.len() && q0[y] == c;
                assert(q[y] == c && q[y] < q[q.len() - 1]);
                assert(has_key(s, c));
                let x = choose|x: int| 0 <= x < s.len() && (#[trigger] s[x]).0 == c;
                assert(s0[x].0 == c);
            }
        }
        lemma_keys_determine(s0, q0);
        assert(keys(s) =~= keys(s0).push(last));
        assert(q =~= q0.push(last));
    }
    assert(keys(s) =~= q);
}

/// Taking an entry out takes its size out of the sum.
pub proof fn lemma_total_remove(s: Seq<(u64, u64)>, i: int)
    requires
        0 <= i < s.len(),
    ensures
        total_size(s) == total_size(s.remove(i)) + s[i].1,
    decreases s.len(),
{
    if i == s.len() - 1 {
        assert(s.remove(i) =~= s.drop_last());
    } else {
        assert(s.remove(i).drop_last() =~= s.drop_last().remove(i));
        assert(s.remove(i).last() == s.last());
        lemma_total_remove(s.drop_last(), i);
    }
}

impl View for SegmentIndex {
    type V = Seq<(u64, u64)>;

    closed spec fn view(&self) -> Seq<(u64, u64)> {
        self.entries@
    }
}

impl SegmentIndex {
    pub open spec fn wf(&self) -> bool {
        ascending(self@)
    }

    pub fn new() -> (r: SegmentIndex)
        ensures
            r.wf(),
            r@ == Seq::<(u64, u64)>::empty(),
    {
        SegmentIndex { entries: Vec::new() }
    }

    /// The place of the first entry whose cursor is at least `key`.
    fn place(&self, key: u64) -> (p: usize)
        requires
            self.wf(),
        ensures
            p == place_of(self@, key),
            p <= self@.len(),
    {
        proof {
            lemma_place_of(self@, key);
        }
        let mut i: usize = 0;
        while i < self.entries.len()
            invariant
                i <= self.entries@.len(),
                ascending(self.entries@),
                forall|j: int| 0 <= j < i ==> (#[trigger] self.entries@[j]).0 < key,
                0 <= place_of(self.entries@, key) <= self.entries@.len(),
                forall|j: int| 0 <= j < place_of(self.entries@, key) ==> (#[trigger] self.entries@[j]).0
                    < key,
                forall|j: int|
                    place_of(self.entries@, key) <= j < self.entries@.len() ==> (
                    #[trigger] self.entries@[j]).0 >= key,
            decreases self.entries@.len() - i,
        {
            if self.entries[i].0 >= key {
                proof {
                    let q = place_of(self.entries@, key);
                    assert(q < self.entries@.len() ==> self.entries@[q].0 >= key);
                    assert(self.entries@[i as int].0 >= key);
                }
                return i;
            }
            i = i + 1;
        }
        i
    }

    /// Adds a segment, or replaces its size.
    pub fn insert(&mut self, key: u64, size: u64)
        requires
            old(self).wf(),
        ensures
            final(self).wf(),
            final(self)@ == with_entry(old(self)@, key, size),
    {
        proof {
            lemma_with_entry(self@, key, size);
        }
        let p: usize = self.place(key);
        if p < self.entries.len() && self.entries[p].0 == key {
            self.entries.set(p, (key, size));
        } else {
            self.entries.insert(p, (key, size));
        }
    }

    /// The size noted for the segment that starts at `key`: zero if there is none.
    pub fn size(&self, key: u64) -> (n: u64)
        requires
            self.wf(),
        ensures
            n == size_at(self@, key),
    {
        let p: usize = self.place(key);
        if p < self.entries.len() && self.entries[p].0 == key {
            self.entries[p].1
        } else {
            0
        }
    }

    /// Whether there is a segment that starts at `key`.
    pub fn contains(&self, key: u64) -> (b: bool)
        requires
            self.wf(),
        ensures
            b == has_key(self@, key),
    {
        proof {
            lemma_place_of(self@, key);
        }
        let p: usize = self.place(key);
        if p < self.entries.len() {
            proof {
                if has_key(self@, key) {
                    let i = choose|i: int| 0 <= i < self@.len() && (#[trigger] self@[i]).0 == key;
                    if i > p {
                        assert(self@[p as int].0 < self@[i].0);
                    }
                }
            }
            self.entries[p].0 == key
        } else {
            false
        }
    }

    /// The first cursor of the oldest segment.
    pub fn first(&self) -> (r: Option<u64>)
        ensures
            r == (if self@.len() == 0 {
                None
            } else {
                Some(self@[0].0)
            }),
    {
        if self.entries.len() == 0 {
            None
        } else {
            Some(self.entries[0].0)
        }
    }

    /// The first cursor of the newest segment.
    pub fn last(&self) -> (r: Option<u64>)
        ensures
            r == (if self@.len() == 0 {
                None
            } else {
                Some(self@.last().0)
            }),
    {
        let n: usize = self.entries.len();
        if n == 0 {
            None
        } else {
            Some(self.entries[n - 1].0)
        }
    }

    pub fn len(&self) -> (n: usize)
        ensures
            n == self@.len(),
    {
        self.entries.len()
    }

    /// The entry at place `i`: first cursor and size.
    pub fn entry(&self, i: usize) -> (e: (u64, u64))
        requires
            i < self@.len(),
        ensures
            e == self@[i as int],
    {
        self.entries[i]
    }

    /// Takes the entry at place `i` out.
    pub fn remove_at(&mut self, i: usize) -> (e: (u64, u64))
        requires
            old(self).wf(),
            i < old(self)@.len(),
        ensures
            final(self).wf(),
            e == old(self)@[i as int],
            final(self)@ == old(self)@.remove(i as int),
    {
        let ghost before = self.entries@;
        let e: (u64, u64) = self.entries.remove(i);
        proof {
            let after = self.entries@;
            assert forall|a: int, b: int| 0 <= a < b < after.len() implies (#[trigger] after[a]).0 < (
            #[trigger] after[b]).0 by {
                let x = if a < i {
                    a
                } else {
                    a + 1
                };
                let y = if b < i {
                    b
                } else {
                    b + 1
                };
                assert(before[x].0 < before[y].0);
            }
        }
        e
    }

    /// The sum of the sizes.
    pub fn total(&self) -> (n: u128)
        ensures
            n == total_size(self@),
    {
        let mut sum: u128 = 0;
        let mut i: usize = 0;
        let count: usize = self.entries.len();
        while i < count
            invariant
                i <= count,
                count == self.entries@.len(),
                sum == total_size(self.entries@.take(i as int)),
            decreases count - i,
        {
            proof {
                let next = self.entries@.take(i + 1);
                assert(next.drop_last() =~= self.entries@.take(i as int));
                lemma_total_bound(next);
                let n = next.len() as int;
                assert(n * u64::MAX <= u64::MAX * u64::MAX) by (nonlinear_arith)
                    requires
                        n <= u64::MAX,
                ;
            }
            sum = sum + self.entries[i].1 as u128;
            i = i + 1;
        }
        assert(self.entries@.take(i as int) =~= self.entries@);
        sum
    }

    /// The first cursors of the segments that can hold records from `cursor` on: the last
    /// one that starts at `cursor` or before it, and all that follow.
    pub fn from_cursor(&self, cursor: u64) -> (r: Vec<u64>)
        requires
            self.wf(),
        ensures
            r@ == keys(self@.skip(containing(self@, cursor))),
            0 <= containing(self@, cursor) <= self@.len(),
    {
        proof {
            lemma_place_of(self@, cursor);
        }
        let p: usize = self.place(cursor);
        let start: usize = if p < self.entries.len() && self.entries[p].0 == cursor {
            p
        } else if p > 0 {
            p - 1
        } else {
            0
        };
        let mut r: Vec<u64> = Vec::new();
        let mut i: usize = start;
        assert(start == containing(self@, cursor));
        while i < self.entries.len()
            invariant
                start <= i <= self.entries@.len(),
                r@ == keys(self.entries@.subrange(start as int, i as int)),
            decreases self.entries@.len() - i,
        {
            r.push(self.entries[i].0);
            i = i + 1;
            assert(r@ =~= keys(self.entries@.subrange(start as int, i as int)));
        }
        assert(self.entries@.subrange(start as int, i as int) =~= self@.skip(start as int));
        r
    }
}

/// The place of the segment that contains `cursor`: the last one that starts at it or
/// before it, the first one if there is none.
pub open spec fn containing(s: Seq<(u64, u64)>, cursor: u64) -> int {
    let p = place_of(s, cursor);
    if p < s.len() && s[p].0 == cursor {
        p
    } else if p > 0 {
        p - 1
    } else {
        0
    }
}

/// The containing segment starts at the cursor or before it, and the next one behind it.
pub proof fn lemma_containing(s: Seq<(u64, u64)>, cursor: u64)
    requires
        ascending(s),
        s.len() > 0,
        s[0].0 <= cursor,
    ensures
        0 <= containing(s, cursor) < s.len(),
        s[containing(s, cursor)].0 <= cursor,
        forall|i: int| containing(s, cursor) < i < s.len() ==> (#[trigger] s[i]).0 > cursor,
{
    lemma_place_of(s, cursor);
    let c = containing(s, cursor);
    assert forall|i: int| c < i < s.len() implies (#[trigger] s[i]).0 > cursor by {
        assert(s[c].0 < s[i].0);
    }
}

/// The total is the sum of the sizes: nothing for no segment, and one more segment adds its
/// size.
pub proof fn law_total_is_the_sum(s: Seq<(u64, u64)>, t: Seq<(u64, u64)>, key: u64, size: u64)
    ensures
        total_size(Seq::empty()) == 0,
        total_size(s.push((key, size))) == total_size(s) + size,
        total_size(s + t) == total_size(s) + total_size(t),
    decreases t.len(),
{
    assert(s.push((key, size)).drop_last() =~= s);
    if t.len() == 0 {
        assert(s + t =~= s);
    } else {
        law_total_is_the_sum(s, t.drop_last(), key, size);
        assert((s + t).drop_last() =~= s + t.drop_last());
    }
}

/// The size of a segment is the one that the index has for it, and none if it has none.
pub proof fn law_size_is_the_entry(s: Seq<(u64, u64)>, key: u64, i: int)
    requires
        ascending(s),
        0 <= i < s.len(),
    ensures
        s[i].0 == key ==> size_at(s, key) == s[i].1,
        (forall|k: int| 0 <= k < s.len() ==> (#[trigger] s[k]).0 != key) ==> size_at(s, key) == 0,
        keys(s).len() == s.len(),
        keys(s)[i] == s[i].0,
{
    lemma_place_of(s, key);
    let p = place_of(s, key);
    if s[i].0 == key && p != i {
        assert(p < i);
        assert(s[p].0 < s[i].0);
    }
}

/// An entry that is set stands in the index with its size; every other entry stands there as
/// before, and no other is added.
pub proof fn law_entry_is_set(s: Seq<(u64, u64)>, key: u64, size: u64, other: u64)
    requires
        ascending(s),
    ensures
        ascending(with_entry(s, key, size)),
        size_at(with_entry(s, key, size), key) == size,
        other != key ==> size_at(with_entry(s, key, size), other) == size_at(s, other),
        other != key ==> (has_key(with_entry(s, key, size), other) <==> has_key(s, other)),
        has_key(with_entry(s, key, size), key),
{
    let t = with_entry(s, key, size);
    lemma_with_entry(s, key, size);
    lemma_with_entry_keys(s, key, size);
    let i = choose|i: int| 0 <= i < t.len() && t[i] == (key, size);
    law_size_is_the_entry(t, key, i);
    if other != key {
        if has_key(s, other) {
            let k = choose|k: int| 0 <= k < s.len() && (#[trigger] s[k]).0 == other;
            law_size_is_the_entry(s, other, k);
            assert(t.contains(s[k]));
            let m = choose|m: int| 0 <= m < t.len() && t[m] == s[k];
            law_size_is_the_entry(t, other, m);
        } else {
            assert(!has_key(t, other));
            law_size_is_the_entry(t, other, i);
            if s.len() > 0 {
                law_size_is_the_entry(s, other, 0);
            }
        }
    }
}

} // verus!
