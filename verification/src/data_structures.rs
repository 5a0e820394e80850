//! Data structures and algorithms used by the rest of the fuzzing core:
//! a leapfrogging cursor over sorted feature slices, a slab arena and a
//! weighted-index sampler.

use vstd::prelude::*;

verus! {

/// The elements of the slice are in nondecreasing order.
pub open spec fn sorted(s: Seq<u64>) -> bool {
    forall|i: int, j: int| 0 <= i <= j < s.len() ==> s[i] <= s[j]
}

/// A pseudo-iterator over a sorted slice that can find a value by jumping
/// over many elements at a time, and then backtracking if necessary.
///
/// Successive targets must be nondecreasing: the cursor never moves back
/// over elements it has already ruled out.
pub struct LargeStepFindIter<'a> {
    slice: &'a [u64],
    position: usize,
    past: Ghost<u64>,
}

impl<'a> View for LargeStepFindIter<'a> {
    type V = Seq<u64>;

    closed spec fn view(&self) -> Seq<u64> {
        self.slice@
    }
}

impl<'a> LargeStepFindIter<'a> {
    /// Everything strictly before the cursor is smaller than every target
    /// queried so far.
    pub closed spec fn wf(self) -> bool {
        &&& self.position <= self.slice@.len()
        &&& forall|i: int| 0 <= i < self.position ==> self.slice@[i] < self.past@
    }

    /// The largest target queried so far; future targets must not go below it.
    pub closed spec fn past_target(self) -> u64 {
        self.past@
    }

    pub fn new(slice: &'a [u64]) -> (it: Self)
        ensures
            it.wf(),
            it@ == slice@,
            it.past_target() == 0,
    {
        Self { slice, position: 0, past: Ghost(0) }
    }

    /// Find the first element that is at least `target`, starting from the
    /// cursor, by jumps of growing length (8, 16, 24, ...) with a linear
    /// backtracking scan inside the overshoot window.
    pub fn find(&mut self, target: u64) -> (r: Option<u64>)
        requires
            old(self).wf(),
            sorted(old(self)@),
            old(self)@.len() < usize::MAX / 2,
            target >= old(self).past_target(),
        ensures
            final(self).wf(),
            final(self)@ == old(self)@,
            final(self).past_target() == target,
            match r {
                Some(v) => exists|i: int|
                    {
                        &&& 0 <= i < old(self)@.len()
                        &&& old(self)@[i] == v
                        &&& v >= target
                        &&& forall|j: int| 0 <= j < i ==> old(self)@[j] < target
                    },
                None => forall|j: int| 0 <= j < old(self)@.len() ==> old(self)@[j] < target,
            },
            old(self)@.contains(target) ==> r == Some(target),
    {
        self.past = Ghost(target);
        let ghost s = self.slice@;
        let len = self.slice.len();
        if self.position >= len {
            proof {
                lemma_find_present(s, target, len as int);
            }
            return None;
        }
        let el = self.slice[self.position];
        if el >= target {
            proof {
                lemma_find_present(s, target, self.position as int);
            }
            return Some(el);
        }
        // The element under the cursor is too small: leapfrog forward.
        let mut pos = self.position;
        let mut step: usize = 8;
        loop
            invariant
                old(self)@ == s,
                self.slice@ == s,
                self.past@ == target,
                sorted(s),
                s.len() == len,
                len < usize::MAX / 2,
                pos < len,
                step <= pos + 8,
                8 <= step,
                forall|i: int| 0 <= i <= pos ==> s[i] < target,
            decreases len - pos,
        {
            if len - 1 - pos >= step {
                let next = pos + step;
                let el = self.slice[next];
                if el < target {
                    pos = next;
                    step = step + 8;
                } else {
                    // Overshot: scan the window we jumped over.
                    let mut p = pos + 1;
                    while p < next
                        invariant
                            old(self)@ == s,
                            self.slice@ == s,
                            self.past@ == target,
                            sorted(s),
                            s.len() == len,
                            pos < p <= next < len,
                            s[next as int] >= target,
                            forall|i: int| 0 <= i < p ==> s[i] < target,
                        decreases next - p,
                    {
                        let e = self.slice[p];
                        if e >= target {
                            self.position = p;
                            proof {
                                lemma_find_present(s, target, p as int);
                            }
                            return Some(e);
                        }
                        p = p + 1;
                    }
                    self.position = next;
                    proof {
                        lemma_find_present(s, target, next as int);
                    }
                    return Some(el);
                }
            } else {
                // The next jump would go past the end: scan the tail.
                let mut p = pos + 1;
                while p < len
                    invariant
                        old(self)@ == s,
                        self.slice@ == s,
                        self.past@ == target,
                        sorted(s),
                        s.len() == len,
                        pos < p <= len,
                        forall|i: int| 0 <= i < p ==> s[i] < target,
                    decreases len - p,
                {
                    let e = self.slice[p];
                    if e >= target {
                        self.position = p;
                        proof {
                            lemma_find_present(s, target, p as int);
                        }
                        return Some(e);
                    }
                    p = p + 1;
                }
                self.position = len;
                proof {
                    lemma_find_present(s, target, len as int);
                }
                return None;
            }
        }
    }
}

/// An index into a [`Slab`]. Equality and ordering are those of the
/// underlying integer slot.
#[derive(Clone, Copy, Debug, PartialEq, Eq, Structural, PartialOrd, Ord, Hash)]
pub struct SlabKey {
    key: usize,
}

impl View for SlabKey {
    type V = usize;

    closed spec fn view(&self) -> usize {
        self.key
    }
}

impl SlabKey {
    pub fn new(key: usize) -> (r: Self)
        ensures
            r@ == key,
    {
        Self { key }
    }
}

/// Pre-allocated storage for a uniform data type: a dense vector of slots
/// plus a list of released slots that are reused before the vector grows.
///
/// Its view is the map from live slots to their values.
pub struct Slab<T> {
    storage: Vec<T>,
    available_slots: Vec<usize>,
}

impl<T> View for Slab<T> {
    type V = Map<usize, T>;

    closed spec fn view(&self) -> Map<usize, T> {
        Map::new(
            |k: usize| k < self.storage@.len() && !self.available_slots@.contains(k),
            |k: usize| self.storage@[k as int],
        )
    }
}

impl<T> Slab<T> {
    /// Released slots point into the storage and are mutually distinct.
    pub closed spec fn wf(self) -> bool {
        &&& forall|i: int|
            0 <= i < self.available_slots@.len() ==> (#[trigger] self.available_slots@[i])
                < self.storage@.len()
        &&& forall|i: int, j: int|
            0 <= i < j < self.available_slots@.len() ==> self.available_slots@[i]
                != self.available_slots@[j]
    }

    /// The slot that the next `insert` will fill.
    pub closed spec fn spec_next_key(self) -> usize {
        if self.available_slots@.len() > 0 {
            self.available_slots@.last()
        } else {
            self.storage@.len() as usize
        }
    }

    pub fn new() -> (r: Self)
        ensures
            r.wf(),
            r@ == Map::<usize, T>::empty(),
            r.storage_len() == 0,
            r.spec_next_key() == 0,
    {
        let r = Self { storage: Vec::with_capacity(1000), available_slots: Vec::with_capacity(32) };
        proof {
            assert(r@ =~= Map::<usize, T>::empty());
        }
        r
    }

    pub fn insert(&mut self, x: T) -> (key: SlabKey)
        requires
            old(self).wf(),
        ensures
            final(self).wf(),
            key@ == old(self).spec_next_key(),
            !old(self)@.dom().contains(key@),
            final(self)@ == old(self)@.insert(key@, x),
            key@ < final(self).storage_len(),
            final(self).storage_len() == if old(self).spec_next_key() < old(self).storage_len() {
                old(self).storage_len()
            } else {
                old(self).storage_len() + 1
            },
    {
        if self.available_slots.len() > 0 {
            let slot = self.available_slots[self.available_slots.len() - 1];
            self.available_slots.pop();
            self.storage[slot] = x;
            proof {
                let pre = old(self).available_slots@;
                let post = self.available_slots@;
                assert forall|k: usize| post.contains(k) <==> (pre.contains(k) && k != slot) by {
                    if post.contains(k) {
                        let i = choose|i: int| 0 <= i < post.len() && post[i] == k;
                        assert(pre[i] == k);
                        assert(pre[i] != pre[pre.len() - 1]);
                    }
                    if pre.contains(k) && k != slot {
                        let i = choose|i: int| 0 <= i < pre.len() && pre[i] == k;
                        assert(i < pre.len() - 1);
                        assert(post[i] == k);
                    }
                }
                assert(self@ =~= old(self)@.insert(slot, x));
                assert(slot < self.storage@.len());
                assert(old(self).spec_next_key() == slot);
                assert(self.storage@.len() == old(self).storage@.len());
                assert(slot < self.storage_len());
                assert(self.storage_len() == old(self).storage_len());
                assert(old(self).spec_next_key() < old(self).storage_len());
            }
            SlabKey::new(slot)
        } else {
            let slot = self.storage.len();
            self.storage.push(x);
            proof {
                assert(forall|k: usize| k < self.storage@.len() - 1 ==> self.storage@[k as int]
                    == old(self).storage@[k as int]);
                assert(self@ =~= old(self)@.insert(slot, x));
                assert(old(self).spec_next_key() == old(self).storage@.len());
                assert(self.storage@.len() == old(self).storage@.len() + 1);
                assert(slot < self.storage_len());
                assert(self.storage_len() == old(self).storage_len() + 1);
                assert(!(old(self).spec_next_key() < old(self).storage_len()));
            }
            SlabKey::new(slot)
        }
    }

    pub fn remove(&mut self, key: SlabKey)
        requires
            old(self).wf(),
            old(self)@.dom().contains(key@),
        ensures
            final(self).wf(),
            final(self)@ == old(self)@.remove(key@),
            final(self).spec_next_key() == key@,
            final(self).storage_len() == old(self).storage_len(),
    {
        self.available_slots.push(key.key);
        proof {
            let pre = old(self).available_slots@;
            let post = self.available_slots@;
            assert forall|i: int, j: int| 0 <= i < j < post.len() implies post[i] != post[j] by {
                if j == post.len() - 1 {
                    assert(pre.contains(post[i]) ==> post[i] != key@);
                    assert(pre[i] == post[i]);
                }
            }
            assert forall|k: usize| post.contains(k) <==> (pre.contains(k) || k == key@) by {
                if post.contains(k) {
                    let i = choose|i: int| 0 <= i < post.len() && post[i] == k;
                    if i < post.len() - 1 {
                        assert(pre[i] == k);
                    }
                }
                if pre.contains(k) {
                    let i = choose|i: int| 0 <= i < pre.len() && pre[i] == k;
                    assert(post[i] == k);
                }
                if k == key@ {
                    assert(post[post.len() - 1] == k);
                }
            }
            assert(self@ =~= old(self)@.remove(key@));
        }
    }

    /// The key that the next insertion will return, without inserting.
    pub fn next_key(&self) -> (key: SlabKey)
        ensures
            key@ == self.spec_next_key(),
    {
        if self.available_slots.len() > 0 {
            SlabKey::new(self.available_slots[self.available_slots.len() - 1])
        } else {
            SlabKey::new(self.storage.len())
        }
    }

    /// Read the value stored under a key, or nothing if the slot was
    /// released. The key must point into the storage.
    pub fn get(&self, key: SlabKey) -> (r: Option<&T>)
        requires
            self.wf(),
            key@ < self.storage_len(),
        ensures
            match r {
                Some(v) => self@.dom().contains(key@) && *v == self@[key@],
                None => !self@.dom().contains(key@),
            },
    {
        let mut i: usize = 0;
        while i < self.available_slots.len()
            invariant
                i <= self.available_slots@.len(),
                forall|j: int| 0 <= j < i ==> self.available_slots@[j] != key@,
                key@ < self.storage@.len(),
            decreases self.available_slots@.len() - i,
        {
            if self.available_slots[i] == key.key {
                return None;
            }
            i = i + 1;
        }
        Some(&self.storage[key.key])
    }

    /// The number of slots the storage holds, live or released.
    pub closed spec fn storage_len(self) -> int {
        self.storage@.len() as int
    }
}

/// Slab stability: a live key reads back the value stored by the insert
/// that produced it, across any later inserts and removes of other keys.
pub proof fn lemma_slab_stability<T>(m: Map<usize, T>, k: usize, x: T, j: usize, y: T)
    requires
        j != k,
    ensures
        m.insert(k, x)[k] == x,
        m.insert(j, y)[k] == m[k],
        m.insert(j, y).dom().contains(k) == m.dom().contains(k),
        m.remove(j)[k] == m[k],
        m.remove(j).dom().contains(k) == m.dom().contains(k),
{
}

/// A distribution using weighted sampling to pick a discretely selected
/// item: a borrowed nondecreasing cumulative-weight sequence, sampled
/// through a uniform draw over `[0, total)`.
pub struct WeightedIndex<'a> {
    pub cumulative_weights: &'a Vec<u64>,
}

/// The draw `u` selects index `r`: `r` is the first index whose
/// cumulative weight is strictly greater than `u`.
pub open spec fn selects(w: Seq<u64>, u: u64, r: usize) -> bool {
    &&& (r as int) < w.len()
    &&& w[r as int] > u
    &&& forall|j: int| 0 <= j < r ==> w[j] <= u
}

impl<'a> WeightedIndex<'a> {
    /// The first index whose cumulative weight is strictly greater than
    /// the draw `u`; all weights at or before the previous index are at
    /// most `u`.
    pub fn index_for(weights: &Vec<u64>, u: u64) -> (r: usize)
        requires
            sorted(weights@),
            weights@.len() > 0,
            u < weights@.last(),
        ensures
            r < weights@.len(),
            weights@[r as int] > u,
            forall|j: int| 0 <= j < r ==> weights@[j] <= u,
    {
        let mut lo: usize = 0;
        let mut hi: usize = weights.len();
        while lo < hi
            invariant
                lo <= hi <= weights@.len(),
                forall|j: int| 0 <= j < lo ==> weights@[j] <= u,
                forall|j: int| hi <= j < weights@.len() ==> weights@[j] > u,
                u < weights@.last(),
                sorted(weights@),
            decreases hi - lo,
        {
            let mid = lo + (hi - lo) / 2;
            if weights[mid] <= u {
                lo = mid + 1;
            } else {
                hi = mid;
            }
        }
        assert(lo < weights@.len());
        lo
    }

    /// Draw uniformly over `[0, total)` and return the selected index.
    pub fn sample(&self) -> (r: usize)
        requires
            sorted(self.cumulative_weights@),
            self.cumulative_weights@.len() > 0,
            self.cumulative_weights@.last() > 0,
        ensures
            r < self.cumulative_weights@.len(),
            exists|u: u64|
                u < self.cumulative_weights@.last() && #[trigger] selects(
                    self.cumulative_weights@,
                    u,
                    r,
                ),
    {
        let total = self.cumulative_weights[self.cumulative_weights.len() - 1];
        let u = random_u64_below(total);
        let r = Self::index_for(self.cumulative_weights, u);
        proof {
            assert(selects(self.cumulative_weights@, u, r));
        }
        r
    }
}

/// Relies on `rand::Rng::gen_range` on a `ThreadRng`: the result lies in
/// the half-open range it is given. Nothing more is assumed of the draw.
#[verifier::external_body]
fn random_u64_below(bound: u64) -> (r: u64)
    requires
        bound > 0,
    ensures
        r < bound,
{
    rand::Rng::gen_range(&mut rand::thread_rng(), 0..bound)
}

/// In a sorted slice whose first `i` elements are all below `target`, if
/// `target` occurs at all then it occurs exactly at position `i`.
proof fn lemma_find_present(s: Seq<u64>, target: u64, i: int)
    requires
        sorted(s),
        0 <= i <= s.len(),
        forall|j: int| 0 <= j < i ==> s[j] < target,
        i == s.len() || s[i] >= target,
    ensures
        s.contains(target) ==> i < s.len() && s[i] == target,
{
    if s.contains(target) {
        let k = choose|k: int| 0 <= k < s.len() && s[k] == target;
        assert(k >= i);
        assert(s[i] <= s[k]);
    }
}

} // verus!
