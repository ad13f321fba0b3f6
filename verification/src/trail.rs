//! Fixed-length circular history of positions ("trail") and the index
//! arithmetic that walks it from the newest sample back to the oldest.
//!
//! One shared write index rotates over all trails: each frame the current
//! position is written at that index, the trail is read back as a list of
//! adjacent sample pairs for rendering, and the index advances modulo the
//! buffer length.

use vstd::prelude::*;
use vstd::arithmetic::div_mod::lemma_small_mod;
use vstd::arithmetic::div_mod::lemma_mod_self_0;
use vstd::arithmetic::div_mod::lemma_mod_add_multiples_vanish;
use vstd::arithmetic::div_mod::lemma_add_mod_noop_right;

verus! {

/// Slot holding the newer endpoint of segment `i`, counting back from the
/// write index `start`: `start - i`, wrapped modulo `length`.
pub open spec fn newer_slot(start: int, i: int, length: int) -> int {
    if start >= i {
        start - i
    } else {
        length - i + start
    }
}

/// Slot holding the older endpoint of segment `i`: one step further back
/// than the newer endpoint, wrapped modulo `length`.
pub open spec fn older_slot(start: int, i: int, length: int) -> int {
    let a = newer_slot(start, i, length);
    if a > 0 {
        a - 1
    } else {
        length - 1
    }
}

/// Ring invariant: for every write index and every segment number below the
/// buffer length, both endpoints of the segment are slots of the buffer.
pub proof fn lemma_slots_in_range(start: int, i: int, length: int)
    requires
        2 <= length,
        0 <= start < length,
        0 <= i < length,
    ensures
        0 <= newer_slot(start, i, length) < length,
        0 <= older_slot(start, i, length) < length,
{
}

/// Both slots, stated in modular arithmetic: the newer endpoint is
/// `(start - i) mod length` and the older one slot before it.
pub proof fn lemma_slots_mod(start: int, i: int, length: int)
    requires
        2 <= length,
        0 <= start < length,
        0 <= i < length,
    ensures
        newer_slot(start, i, length) == (start - i) % length,
        older_slot(start, i, length) == (newer_slot(start, i, length) - 1) % length,
{
    if start >= i {
        lemma_small_mod((start - i) as nat, length as nat);
    } else {
        lemma_mod_add_multiples_vanish(start - i, length);
        lemma_small_mod((length - i + start) as nat, length as nat);
    }
    let a = newer_slot(start, i, length);
    if a > 0 {
        lemma_small_mod((a - 1) as nat, length as nat);
    } else {
        lemma_mod_add_multiples_vanish(a - 1, length);
        lemma_small_mod((length - 1) as nat, length as nat);
    }
}

/// Adjacency invariant: the older endpoint always sits exactly one slot
/// before the newer one, modulo the buffer length.
pub proof fn lemma_adjacent(start: int, i: int, length: int)
    requires
        2 <= length,
        0 <= start < length,
        0 <= i < length,
    ensures
        older_slot(start, i, length) == (newer_slot(start, i, length) - 1) % length,
{
    lemma_slots_mod(start, i, length);
}

/// A trail: a buffer of fixed length, one slot per remembered sample.
/// The element type is whatever stands for a recorded position.
pub struct Trail<T> {
    positions: Vec<T>,
}

impl<T> View for Trail<T> {
    type V = Seq<T>;

    closed spec fn view(&self) -> Seq<T> {
        self.positions@
    }
}

impl<T: Copy> Trail<T> {
    /// A trail needs at least two slots: rendering draws `length - 1`
    /// segments, and the wrap rules assume a slot before the first.
    pub open spec fn wf(&self) -> bool {
        2 <= self@.len()
    }

    /// Fresh trail with every slot holding the body's initial position.
    pub fn new(length: usize, initial: T) -> (t: Trail<T>)
        requires
            2 <= length,
        ensures
            t.wf(),
            t@.len() == length,
            forall|k: int| 0 <= k < length ==> t@[k] == initial,
    {
        let mut positions: Vec<T> = Vec::new();
        let mut n: usize = 0;
        while n < length
            invariant
                n <= length,
                positions@.len() == n,
                forall|k: int| 0 <= k < n ==> positions@[k] == initial,
            decreases length - n,
        {
            positions.push(initial);
            n = n + 1;
        }
        Trail { positions }
    }

    pub fn len(&self) -> (n: usize)
        ensures
            n == self@.len(),
    {
        self.positions.len()
    }

    /// Record the current position in the slot at the shared write index,
    /// leaving every other slot as it was.
    pub fn record(&mut self, start: usize, p: T)
        requires
            old(self).wf(),
            start < old(self)@.len(),
        ensures
            final(self).wf(),
            final(self)@ == old(self)@.update(start as int, p),
    {
        self.positions.set(start, p);
    }

    /// The index pair for segment `i` of a trail of the given length whose
    /// write index is `start`: the newer sample's slot first, then the slot
    /// one step further back, both wrapped modulo `length`.
    pub fn index_pair(start: usize, i: usize, length: usize) -> (r: (usize, usize))
        requires
            2 <= length,
            start < length,
            i < length,
        ensures
            r.0 == newer_slot(start as int, i as int, length as int),
            r.1 == older_slot(start as int, i as int, length as int),
            r.0 < length,
            r.1 < length,
            r.0 as int == (start - i) % (length as int),
            r.1 as int == (r.0 - 1) % (length as int),
    {
        proof {
            lemma_slots_mod(start as int, i as int, length as int);
        }
        let a = if start >= i {
            start - i
        } else {
            length - i + start
        };
        let b = if a > 0 {
            a - 1
        } else {
            length - 1
        };
        (a, b)
    }

    /// The segments to draw, newest first: entry `i` pairs the sample at
    /// `newer_slot(start, i)` with the one at `older_slot(start, i)`, so
    /// entry `0` joins the two most recently written samples and the last
    /// entry joins the two oldest.
    pub fn segments(&self, start: usize) -> (segs: Vec<(T, T)>)
        requires
            self.wf(),
            start < self@.len(),
        ensures
            segs@.len() == self@.len() - 1,
            forall|i: int|
                0 <= i < segs@.len() ==> segs@[i].0 == self@[newer_slot(
                    start as int,
                    i,
                    self@.len() as int,
                )] && segs@[i].1 == self@[older_slot(start as int, i, self@.len() as int)],
    {
        let length = self.positions.len();
        let mut segs: Vec<(T, T)> = Vec::new();
        let mut i: usize = 0;
        while i < length - 1
            invariant
                2 <= length == self@.len(),
                start < length,
                i <= length - 1,
                segs@.len() == i,
                forall|k: int|
                    0 <= k < i ==> segs@[k].0 == self@[newer_slot(
                        start as int,
                        k,
                        length as int,
                    )] && segs@[k].1 == self@[older_slot(start as int, k, length as int)],
            decreases length - 1 - i,
        {
            let (a, b) = Trail::<T>::index_pair(start, i, length);
            segs.push((self.positions[a], self.positions[b]));
            i = i + 1;
        }
        segs
    }
}

/// The slot that the shared write index reaches `k` frames after standing at
/// `start`: `(start + k) mod length`.
pub open spec fn rotated_slot(start: int, k: int, length: int) -> int {
    (start + k) % length
}

/// Slot `j` is not written during `n` frames of recording that start at
/// write index `start`.
pub open spec fn untouched(j: int, start: int, n: int, length: int) -> bool {
    forall|k: int| 0 <= k < n ==> j != rotated_slot(start, k, length)
}

/// The buffer contents after `n` frames that each record position `p` at the
/// write index and then advance the index by one slot, wrapping: what a trail
/// goes through while its body stands still.
pub open spec fn record_rotating<T>(s: Seq<T>, start: int, n: nat, p: T) -> Seq<T>
    decreases n,
{
    if n == 0 {
        s
    } else {
        record_rotating(s.update(start, p), (start + 1) % (s.len() as int), (n - 1) as nat, p)
    }
}

/// Rest-fill law: recording the same position for `n` consecutive frames at
/// the rotating write index leaves that position in each of the `n` slots
/// `start`, `start + 1`, ... (modulo the length), and touches no other slot.
pub proof fn lemma_rest_fill<T>(s: Seq<T>, start: int, n: nat, p: T)
    requires
        2 <= s.len(),
        0 <= start < s.len(),
    ensures
        record_rotating(s, start, n, p).len() == s.len(),
        forall|k: int|
            0 <= k < n ==> record_rotating(s, start, n, p)[#[trigger] rotated_slot(
                start,
                k,
                s.len() as int,
            )] == p,
        forall|j: int|
            0 <= j < s.len() ==> record_rotating(s, start, n, p)[j] == p || record_rotating(
                s,
                start,
                n,
                p,
            )[j] == s[j],
        forall|j: int|
            0 <= j < s.len() && #[trigger] untouched(j, start, n as int, s.len() as int)
                ==> record_rotating(s, start, n, p)[j] == s[j],
    decreases n,
{
    let len = s.len() as int;
    let t = record_rotating(s, start, n, p);
    if n > 0 {
        let s1 = s.update(start, p);
        let start1 = (start + 1) % len;
        lemma_rest_fill(s1, start1, (n - 1) as nat, p);
        let t1 = record_rotating(s1, start1, (n - 1) as nat, p);
        assert(t == t1);
        assert forall|k: int| 0 <= k < n implies t[rotated_slot(start, k, len)] == p by {
            if k == 0 {
                lemma_small_mod(start as nat, len as nat);
                assert(rotated_slot(start, 0, len) == start);
                assert(t1[start] == p || t1[start] == s1[start]);
            } else {
                lemma_add_mod_noop_right(k - 1, start + 1, len);
                assert(rotated_slot(start1, k - 1, len) == rotated_slot(start, k, len));
                assert(t1[rotated_slot(start1, k - 1, len)] == p);
            }
        }
        assert forall|j: int| 0 <= j < s.len() implies t[j] == p || t[j] == s[j] by {
            assert(t1[j] == p || t1[j] == s1[j]);
            if j != start {
                assert(s1[j] == s[j]);
            }
        }
        assert forall|j: int| 0 <= j < s.len() && untouched(j, start, n as int, len) implies t[j]
            == s[j] by {
            lemma_small_mod(start as nat, len as nat);
            assert(rotated_slot(start, 0, len) == start);
            assert(j != start);
            assert forall|k2: int| 0 <= k2 < n - 1 implies j != rotated_slot(start1, k2, len) by {
                lemma_add_mod_noop_right(k2, start + 1, len);
                assert(rotated_slot(start1, k2, len) == rotated_slot(start, k2 + 1, len));
            }
            assert(untouched(j, start1, n - 1, len));
            assert(t1[j] == s1[j]);
            assert(s1[j] == s[j]);
        }
    }
}

/// The next value of the shared write index: one step forward, wrapping to
/// the first slot after the last.
pub fn advance_index(start: usize, length: usize) -> (next: usize)
    requires
        2 <= length,
        start < length,
    ensures
        next < length,
        next as int == (start + 1) % (length as int),
{
    proof {
        if start + 1 < length {
            lemma_small_mod((start + 1) as nat, length as nat);
        } else {
            lemma_mod_self_0(length as int);
        }
    }
    if start + 1 < length {
        start + 1
    } else {
        0
    }
}

/// Brightness of segment `i` as an exact fraction `(length - i) / length`:
/// full brightness for the newest segment, falling linearly toward zero for
/// the oldest, never reaching it.
pub fn brightness(i: usize, length: usize) -> (frac: (usize, usize))
    requires
        2 <= length,
        i < length,
    ensures
        frac.0 == length - i,
        frac.1 == length,
        0 < frac.0 <= frac.1,
{
    (length - i, length)
}

} // verus!
