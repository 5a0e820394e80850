//! A hierarchical bit set over a fixed domain of `2^30` indices: four
//! levels of 64-bit word arrays, each level summarizing presence in the
//! level below, so that draining visits only populated subtrees.

use vstd::prelude::*;

verus! {

use vstd::arithmetic::div_mod::lemma_fundamental_div_mod;

/// Number of words at the bottom level; each word holds 64 of the
/// `2^30` addressable bits.
pub const L0_SIZE: usize = 0x100_0000;

pub const L1_SIZE: usize = 0x4_0000;

pub const L2_SIZE: usize = 0x1000;

pub const L3_SIZE: usize = 0x40;

/// One more than the largest index a `HBitSet` can hold.
pub const BIT_CAPACITY: usize = 0x4000_0000;

/// Bit `b` of the word is set.
pub open spec fn bit_of(w: u64, b: u64) -> bool
    recommends
        b < 64,
{
    w & (1u64 << b) != 0
}

/// The indices contributed by bits `[0, n)` of `word`, offset by `base`,
/// in ascending order.
pub open spec fn word_elems_upto(word: u64, base: u64, n: int) -> Seq<u64>
    decreases n,
{
    if n <= 0 {
        Seq::empty()
    } else {
        word_elems_upto(word, base, n - 1) + if bit_of(word, (n - 1) as u64) {
            seq![(base + n - 1) as u64]
        } else {
            Seq::empty()
        }
    }
}

/// The indices contributed by all 64 bits of `word`, offset by `base`.
pub open spec fn word_elems(word: u64, base: u64) -> Seq<u64> {
    word_elems_upto(word, base, 64)
}

/// The indices contributed by the words `[lo, hi)` of the bottom level,
/// in ascending order.
pub open spec fn words_elems(l0: Seq<u64>, lo: int, hi: int) -> Seq<u64>
    decreases hi - lo,
{
    if lo >= hi {
        Seq::empty()
    } else {
        words_elems(l0, lo, hi - 1) + word_elems(l0[hi - 1], ((hi - 1) * 64) as u64)
    }
}

/// Every nonzero word of the lower level is marked in the upper level:
/// word `w` is summarized by bit `w % 64` of upper word `w / 64`.
pub open spec fn summarizes(lower: Seq<u64>, upper: Seq<u64>) -> bool {
    forall|w: int|
        0 <= w < lower.len() ==> ((#[trigger] lower[w]) != 0 ==> bit_of(
            upper[w / 64],
            (w % 64) as u64,
        ))
}

/// A hierarchical bit set with a fixed capacity of `2^30` bits: four
/// levels of 64-bit word arrays, each level summarizing presence in the
/// level below.
pub struct HBitSet {
    l0: Vec<u64>,
    l1: Vec<u64>,
    l2: Vec<u64>,
    l3: Vec<u64>,
}

impl HBitSet {
    pub closed spec fn wf(self) -> bool {
        &&& self.l0@.len() == L0_SIZE
        &&& self.l1@.len() == L1_SIZE
        &&& self.l2@.len() == L2_SIZE
        &&& self.l3@.len() == L3_SIZE
        &&& summarizes(self.l0@, self.l1@)
        &&& summarizes(self.l1@, self.l2@)
        &&& summarizes(self.l2@, self.l3@)
    }

    /// Index `i` is present in the set.
    pub closed spec fn spec_contains(self, i: u64) -> bool {
        i < BIT_CAPACITY && bit_of(self.l0@[(i / 64) as int], i % 64)
    }

    /// All present indices, in ascending order.
    pub closed spec fn elems(self) -> Seq<u64> {
        words_elems(self.l0@, 0, L0_SIZE as int)
    }

    pub fn new() -> (r: Self)
        ensures
            r.wf(),
            forall|i: u64| !r.spec_contains(i),
            r.elems() == Seq::<u64>::empty(),
    {
        let r = Self {
            l0: vec![0u64; L0_SIZE],
            l1: vec![0u64; L1_SIZE],
            l2: vec![0u64; L2_SIZE],
            l3: vec![0u64; L3_SIZE],
        };
        proof {
            lemma_zero_word_bits();
            lemma_words_elems_zero(r.l0@, 0, L0_SIZE as int);
            assert forall|i: u64| !r.spec_contains(i) by {
                if i < 0x4000_0000 {
                    assert(i / 64 < 0x100_0000) by (nonlinear_arith)
                        requires
                            i < 0x4000_0000,
                    ;
                    assert(r.l0@[(i / 64) as int] == 0);
                }
            }
        }
        r
    }

    /// Record index `idx`: set its bit at the bottom level and mark every
    /// summary level above it.
    pub fn set(&mut self, idx: usize)
        requires
            old(self).wf(),
            idx < BIT_CAPACITY,
        ensures
            final(self).wf(),
            forall|j: u64|
                final(self).spec_contains(j) <==> (old(self).spec_contains(j) || j == idx as u64),
    {
        let w0 = idx / 64;
        let b0 = (idx % 64) as u64;
        let w1 = w0 / 64;
        let b1 = (w0 % 64) as u64;
        let w2 = w1 / 64;
        let b2 = (w1 % 64) as u64;
        let w3 = w2 / 64;
        let b3 = (w2 % 64) as u64;
        assert(w0 < L0_SIZE && w1 < L1_SIZE && w2 < L2_SIZE && w3 < L3_SIZE) by (nonlinear_arith)
            requires
                idx < BIT_CAPACITY,
                w0 == idx / 64,
                w1 == w0 / 64,
                w2 == w1 / 64,
                w3 == w2 / 64,
        ;
        let ghost pre = *old(self);
        self.l0[w0] = self.l0[w0] | (1u64 << b0);
        self.l1[w1] = self.l1[w1] | (1u64 << b1);
        self.l2[w2] = self.l2[w2] | (1u64 << b2);
        self.l3[w3] = self.l3[w3] | (1u64 << b3);
        proof {
            lemma_summarizes_update(pre.l0@, pre.l1@, w0 as int, self.l0@[w0 as int]);
            lemma_summarizes_update(pre.l1@, pre.l2@, w1 as int, self.l1@[w1 as int]);
            lemma_summarizes_update(pre.l2@, pre.l3@, w2 as int, self.l2@[w2 as int]);
            assert forall|j: u64|
                self.spec_contains(j) <==> (pre.spec_contains(j) || j == idx as u64) by {
                if j < BIT_CAPACITY {
                    let wj = (j / 64) as int;
                    let bj = j % 64;
                    assert(wj < 0x100_0000) by (nonlinear_arith)
                        requires
                            j < 0x4000_0000,
                            wj == j as int / 64,
                    ;
                    lemma_fundamental_div_mod(j as int, 64);
                    lemma_fundamental_div_mod(idx as int, 64);
                    lemma_set_bit(pre.l0@[w0 as int], b0);
                    if wj == w0 {
                        if bj == b0 {
                            assert(j == idx as u64);
                        } else {
                            assert(bit_of(self.l0@[wj], bj) == bit_of(pre.l0@[wj], bj));
                            assert(j != idx as u64);
                        }
                    } else {
                        assert(self.l0@[wj] == pre.l0@[wj]);
                        assert(j != idx as u64);
                    }
                }
            }
        }
    }

    /// Remove and return every present index, in ascending order, leaving
    /// the set empty. Only populated subtrees are visited: a zero summary
    /// word rules out its whole span at once.
    pub fn drain(&mut self) -> (r: Vec<u64>)
        requires
            old(self).wf(),
        ensures
            final(self).wf(),
            r@ == old(self).elems(),
            forall|i: u64| !final(self).spec_contains(i),
            final(self).elems() == Seq::<u64>::empty(),
    {
        let mut out: Vec<u64> = Vec::new();
        let mut w3: usize = 0;
        while w3 < L3_SIZE
            invariant
                w3 <= L3_SIZE,
                old(self).l0@.len() == L0_SIZE,
                self.l0@.len() == L0_SIZE,
                self.l1@.len() == L1_SIZE,
                self.l2@.len() == L2_SIZE,
                self.l3@.len() == L3_SIZE,
                summarizes(self.l0@, self.l1@),
                summarizes(self.l1@, self.l2@),
                summarizes(self.l2@, self.l3@),
                forall|v: int| 0 <= v < w3 * 0x4_0000 ==> self.l0@[v] == 0,
                forall|v: int|
                    w3 * 0x4_0000 <= v < L0_SIZE ==> self.l0@[v] == old(self).l0@[v],
                out@ == words_elems(old(self).l0@, 0, w3 * 0x4_0000),
            decreases L3_SIZE - w3,
        {
            if self.l3[w3] != 0 {
                let ghost l0_pre = self.l0@;
                drain_level3(&mut self.l3, &mut self.l2, &mut self.l1, &mut self.l0, w3, &mut out);
                proof {
                    lemma_words_elems_frame(
                        l0_pre,
                        old(self).l0@,
                        w3 as int * 0x4_0000,
                        (w3 as int + 1) * 0x4_0000,
                    );
                    lemma_words_elems_split(
                        old(self).l0@,
                        0,
                        w3 as int * 0x4_0000,
                        (w3 as int + 1) * 0x4_0000,
                    );
                    assert(out@ =~= words_elems(old(self).l0@, 0, (w3 as int + 1) * 0x4_0000));
                }
            } else {
                proof {
                    lemma_span_zero_l3(self.l0@, self.l1@, self.l2@, self.l3@, w3 as int);
                    lemma_words_elems_zero(
                        self.l0@,
                        w3 as int * 0x4_0000,
                        (w3 as int + 1) * 0x4_0000,
                    );
                    lemma_words_elems_frame(
                        self.l0@,
                        old(self).l0@,
                        w3 as int * 0x4_0000,
                        (w3 as int + 1) * 0x4_0000,
                    );
                    lemma_words_elems_split(
                        old(self).l0@,
                        0,
                        w3 as int * 0x4_0000,
                        (w3 as int + 1) * 0x4_0000,
                    );
                    assert(out@ =~= words_elems(old(self).l0@, 0, (w3 as int + 1) * 0x4_0000));
                }
            }
            w3 = w3 + 1;
        }
        proof {
            lemma_zero_word_bits();
            lemma_words_elems_zero(self.l0@, 0, L0_SIZE as int);
            assert forall|i: u64| !self.spec_contains(i) by {
                if i < 0x4000_0000 {
                    assert(i / 64 < 0x100_0000) by (nonlinear_arith)
                        requires
                            i < 0x4000_0000,
                    ;
                    assert(self.l0@[(i / 64) as int] == 0);
                }
            }
        }
        out
    }
}

/// The elements are strictly ascending.
pub open spec fn strictly_increasing(s: Seq<u64>) -> bool {
    forall|i: int, j: int| 0 <= i < j < s.len() ==> s[i] < s[j]
}

/// What `drain` hands out, characterized: the elements of the set, each
/// exactly once, in strictly ascending order.
pub proof fn lemma_elems_characterization(s: HBitSet)
    requires
        s.wf(),
    ensures
        strictly_increasing(s.elems()),
        forall|i: u64| s.elems().contains(i) <==> s.spec_contains(i),
{
    lemma_words_elems_props(s.l0@, 0, L0_SIZE as int);
    assert forall|i: u64| s.elems().contains(i) <==> s.spec_contains(i) by {
        if i < 0x4000_0000 {
            assert(i / 64 < 0x100_0000) by (nonlinear_arith)
                requires
                    i < 0x4000_0000,
            ;
        } else {
            if s.elems().contains(i) {
                let k = choose|k: int| 0 <= k < s.elems().len() && s.elems()[k] == i;
            }
        }
    }
}

/// Properties of one word's element list: elements stay inside the word's
/// index window, ascend strictly, and appear exactly for the set bits.
proof fn lemma_word_elems_upto_props(w: u64, base: u64, n: int)
    requires
        0 <= n <= 64,
        base + 64 <= u64::MAX,
    ensures
        forall|k: int|
            0 <= k < word_elems_upto(w, base, n).len() ==> base <= #[trigger] word_elems_upto(
                w,
                base,
                n,
            )[k] < base + n,
        strictly_increasing(word_elems_upto(w, base, n)),
        forall|b: u64| b < n ==> (word_elems_upto(w, base, n).contains((base + b) as u64) <==> bit_of(w, b)),
    decreases n,
{
    if n > 0 {
        lemma_word_elems_upto_props(w, base, n - 1);
        let prev = word_elems_upto(w, base, n - 1);
        let cur = word_elems_upto(w, base, n);
        assert forall|b: u64| b < n implies (cur.contains((base + b) as u64) <==> bit_of(w, b)) by {
            if b < n - 1 {
                if prev.contains((base + b) as u64) {
                    let k = choose|k: int| 0 <= k < prev.len() && prev[k] == (base + b) as u64;
                    assert(cur[k] == base + b);
                }
                if cur.contains((base + b) as u64) {
                    let k = choose|k: int| 0 <= k < cur.len() && cur[k] == (base + b) as u64;
                    assert(k < prev.len());
                }
            } else {
                if bit_of(w, b) {
                    assert(cur[cur.len() - 1] == base + b);
                }
                if cur.contains((base + b) as u64) && !bit_of(w, b) {
                    let k = choose|k: int| 0 <= k < cur.len() && cur[k] == (base + b) as u64;
                    assert(k < prev.len());
                    assert(prev[k] < base + (n - 1));
                }
            }
        }
    }
}

/// Properties of a word range's element list: elements stay inside the
/// range's index window, ascend strictly, and appear exactly for the set
/// bits of the covered words.
proof fn lemma_words_elems_props(l0: Seq<u64>, lo: int, hi: int)
    requires
        0 <= lo <= hi <= l0.len(),
        hi <= 0x100_0000,
    ensures
        forall|k: int|
            0 <= k < words_elems(l0, lo, hi).len() ==> lo * 64 <= #[trigger] words_elems(
                l0,
                lo,
                hi,
            )[k] < hi * 64,
        strictly_increasing(words_elems(l0, lo, hi)),
        forall|i: u64|
            lo * 64 <= i < hi * 64 ==> (words_elems(l0, lo, hi).contains(i) <==> bit_of(
                l0[(i / 64) as int],
                i % 64,
            )),
    decreases hi - lo,
{
    if lo < hi {
        lemma_words_elems_props(l0, lo, hi - 1);
        let base = (((hi - 1) * 64) as u64);
        lemma_word_elems_upto_props(l0[hi - 1], base, 64);
        let prev = words_elems(l0, lo, hi - 1);
        let tail = word_elems(l0[hi - 1], base);
        let cur = words_elems(l0, lo, hi);
        assert(cur == prev + tail);
        assert forall|i: u64|
            lo * 64 <= i < hi * 64 implies (cur.contains(i) <==> bit_of(l0[(i / 64) as int], i % 64)) by {
            assert(i / 64 < hi && lo <= i / 64) by (nonlinear_arith)
                requires
                    lo * 64 <= i < hi * 64,
            ;
            lemma_fundamental_div_mod(i as int, 64);
            if i < (hi - 1) * 64 {
                if prev.contains(i) {
                    let k = choose|k: int| 0 <= k < prev.len() && prev[k] == i;
                    assert(cur[k] == i);
                }
                if cur.contains(i) {
                    let k = choose|k: int| 0 <= k < cur.len() && cur[k] == i;
                    assert(k < prev.len());
                }
            } else {
                assert(i / 64 == hi - 1) by (nonlinear_arith)
                    requires
                        (hi - 1) * 64 <= i < hi * 64,
                ;
                assert(i == base + (i % 64));
                if tail.contains(i) {
                    let k = choose|k: int| 0 <= k < tail.len() && tail[k] == i;
                    assert(cur[prev.len() + k] == i);
                }
                if cur.contains(i) {
                    let k = choose|k: int| 0 <= k < cur.len() && cur[k] == i;
                    if k < prev.len() {
                        assert(prev[k] < (hi - 1) * 64);
                    } else {
                        assert(tail[k - prev.len()] == i);
                    }
                }
            }
        }
    }
}

/// A zero word has no bits set.
proof fn lemma_zero_word_bits()
    by (bit_vector)
    ensures
        forall|b: u64| b < 64 ==> (0u64 & (1u64 << b)) == 0,
{
}

/// Setting one bit of a word: the bit is set afterwards, every other bit
/// keeps its value, and the word is nonzero.
proof fn lemma_set_bit(w: u64, b: u64)
    by (bit_vector)
    requires
        b < 64,
    ensures
        (w | (1u64 << b)) & (1u64 << b) != 0,
        forall|c: u64| c < 64 && c != b ==> ((w | (1u64 << b)) & (1u64 << c)) == (w & (1u64 << c)),
        (w | (1u64 << b)) != 0,
{
}

/// Updating a lower-level word and setting its summary bit preserves the
/// summarization invariant, whatever the new word holds.
proof fn lemma_summarizes_update(lower: Seq<u64>, upper: Seq<u64>, w: int, x: u64)
    requires
        summarizes(lower, upper),
        0 <= w < lower.len(),
        lower.len() == 64 * upper.len(),
    ensures
        summarizes(
            lower.update(w, x),
            upper.update(w / 64, upper[w / 64] | (1u64 << ((w % 64) as u64))),
        ),
{
    let lower2 = lower.update(w, x);
    let upper2 = upper.update(w / 64, upper[w / 64] | (1u64 << ((w % 64) as u64)));
    lemma_set_bit(upper[w / 64], (w % 64) as u64);
    assert forall|v: int| 0 <= v < lower2.len() && (#[trigger] lower2[v]) != 0 implies bit_of(
        upper2[v / 64],
        (v % 64) as u64,
    ) by {
        lemma_fundamental_div_mod(v, 64);
        lemma_fundamental_div_mod(w, 64);
        if v == w {
        } else {
            assert(lower[v] == lower2[v]);
            if v / 64 == w / 64 {
                assert(v % 64 != w % 64);
            }
        }
    }
}

/// A zero summary word at level 1 means the 64 bottom words it covers are
/// all zero.
proof fn lemma_span_zero_l1(l0: Seq<u64>, l1: Seq<u64>, w1: int)
    requires
        summarizes(l0, l1),
        l0.len() == 64 * l1.len(),
        0 <= w1 < l1.len(),
        l1[w1] == 0,
    ensures
        forall|v: int| w1 * 64 <= v < (w1 + 1) * 64 ==> l0[v] == 0,
{
    lemma_zero_word_bits();
    assert forall|v: int| w1 * 64 <= v < (w1 + 1) * 64 implies l0[v] == 0 by {
        lemma_fundamental_div_mod(v, 64);
        assert(v / 64 == w1) by (nonlinear_arith)
            requires
                w1 * 64 <= v < (w1 + 1) * 64,
        ;
        if l0[v] != 0 {
            assert(bit_of(l1[w1], (v % 64) as u64));
        }
    }
}

/// A zero summary word at level 2 zeroes its whole level-0 span.
proof fn lemma_span_zero_l2(l0: Seq<u64>, l1: Seq<u64>, l2: Seq<u64>, w2: int)
    requires
        summarizes(l0, l1),
        summarizes(l1, l2),
        l0.len() == 64 * l1.len(),
        l1.len() == 64 * l2.len(),
        0 <= w2 < l2.len(),
        l2[w2] == 0,
    ensures
        forall|v: int| w2 * 0x1000 <= v < (w2 + 1) * 0x1000 ==> l0[v] == 0,
{
    lemma_span_zero_l1(l1, l2, w2);
    assert forall|v: int| w2 * 0x1000 <= v < (w2 + 1) * 0x1000 implies l0[v] == 0 by {
        let w1 = v / 64;
        assert(w2 * 64 <= w1 < (w2 + 1) * 64) by (nonlinear_arith)
            requires
                w2 * 0x1000 <= v < (w2 + 1) * 0x1000,
                w1 == v / 64,
        ;
        assert(l1[w1] == 0);
        lemma_span_zero_l1(l0, l1, w1);
    }
}

/// A zero summary word at level 3 zeroes its whole level-0 span.
proof fn lemma_span_zero_l3(l0: Seq<u64>, l1: Seq<u64>, l2: Seq<u64>, l3: Seq<u64>, w3: int)
    requires
        summarizes(l0, l1),
        summarizes(l1, l2),
        summarizes(l2, l3),
        l0.len() == 64 * l1.len(),
        l1.len() == 64 * l2.len(),
        l2.len() == 64 * l3.len(),
        0 <= w3 < l3.len(),
        l3[w3] == 0,
    ensures
        forall|v: int| w3 * 0x4_0000 <= v < (w3 + 1) * 0x4_0000 ==> l0[v] == 0,
{
    lemma_span_zero_l1(l2, l3, w3);
    assert forall|v: int| w3 * 0x4_0000 <= v < (w3 + 1) * 0x4_0000 implies l0[v] == 0 by {
        let w2 = v / 0x1000;
        assert(w3 * 64 <= w2 < (w3 + 1) * 64) by (nonlinear_arith)
            requires
                w3 * 0x4_0000 <= v < (w3 + 1) * 0x4_0000,
                w2 == v / 0x1000,
        ;
        assert(l2[w2] == 0);
        lemma_span_zero_l2(l0, l1, l2, w2);
    }
}

/// Words that are all zero over a range contribute no elements.
proof fn lemma_words_elems_zero(l0: Seq<u64>, lo: int, hi: int)
    requires
        0 <= lo <= hi <= l0.len(),
        forall|v: int| lo <= v < hi ==> (#[trigger] l0[v]) == 0,
    ensures
        words_elems(l0, lo, hi) == Seq::<u64>::empty(),
    decreases hi - lo,
{
    if lo < hi {
        lemma_words_elems_zero(l0, lo, hi - 1);
        lemma_word_elems_zero(((hi - 1) * 64) as u64, 64);
        assert(words_elems(l0, lo, hi) =~= Seq::<u64>::empty());
    }
}

/// A zero word contributes no elements.
proof fn lemma_word_elems_zero(base: u64, n: int)
    requires
        n <= 64,
    ensures
        word_elems_upto(0u64, base, n) == Seq::<u64>::empty(),
    decreases n,
{
    lemma_zero_word_bits();
    if n > 0 {
        lemma_word_elems_zero(base, n - 1);
        assert(word_elems_upto(0u64, base, n) =~= Seq::<u64>::empty());
    }
}

/// The elements of a word range depend only on the words inside it.
proof fn lemma_words_elems_frame(s1: Seq<u64>, s2: Seq<u64>, lo: int, hi: int)
    requires
        0 <= lo <= hi,
        hi <= s1.len(),
        hi <= s2.len(),
        forall|v: int| lo <= v < hi ==> (#[trigger] s1[v]) == s2[v],
    ensures
        words_elems(s1, lo, hi) == words_elems(s2, lo, hi),
    decreases hi - lo,
{
    if lo < hi {
        lemma_words_elems_frame(s1, s2, lo, hi - 1);
        assert(s1[hi - 1] == s2[hi - 1]);
    }
}

/// A one-word range contributes exactly that word's elements.
proof fn lemma_words_elems_one(s: Seq<u64>, w: int)
    ensures
        words_elems(s, w, w + 1) == word_elems(s[w], (w * 64) as u64),
{
    assert(words_elems(s, w, w) == Seq::<u64>::empty());
    assert(words_elems(s, w, w + 1) =~= word_elems(s[w], (w * 64) as u64));
}

/// Splitting a word range splits its elements.
proof fn lemma_words_elems_split(l0: Seq<u64>, lo: int, mid: int, hi: int)
    requires
        lo <= mid <= hi,
    ensures
        words_elems(l0, lo, hi) == words_elems(l0, lo, mid) + words_elems(l0, mid, hi),
    decreases hi - mid,
{
    if mid == hi {
        assert(words_elems(l0, lo, hi) =~= words_elems(l0, lo, mid) + words_elems(l0, mid, hi));
    } else {
        lemma_words_elems_split(l0, lo, mid, hi - 1);
        assert(words_elems(l0, lo, hi) =~= words_elems(l0, lo, mid) + words_elems(l0, mid, hi));
    }
}

/// Drain one bottom-level word: push its set bits in ascending order and
/// zero the word.
fn drain_level0(l0: &mut Vec<u64>, w: usize, out: &mut Vec<u64>)
    requires
        old(l0)@.len() == L0_SIZE,
        w < old(l0)@.len(),
    ensures
        final(l0)@ == old(l0)@.update(w as int, 0u64),
        final(out)@ == old(out)@ + word_elems(old(l0)@[w as int], (w * 64) as u64),
{
    let word = l0[w];
    let base = (w as u64) * 64;
    let mut b: u64 = 0;
    while b < 64
        invariant
            b <= 64,
            word == old(l0)@[w as int],
            l0@ == old(l0)@,
            w < l0@.len(),
            base == w * 64,
            w < L0_SIZE,
            out@ == old(out)@ + word_elems_upto(word, base, b as int),
        decreases 64 - b,
    {
        if word & (1u64 << b) != 0 {
            assert(base + b < 0x4000_0000 + 64) by (nonlinear_arith)
                requires
                    base == w * 64,
                    w < L0_SIZE,
                    b < 64,
            ;
            out.push(base + b);
            proof {
                assert(out@ =~= old(out)@ + word_elems_upto(word, base, b as int + 1));
            }
        } else {
            proof {
                assert(out@ =~= old(out)@ + word_elems_upto(word, base, b as int + 1));
            }
        }
        b = b + 1;
    }
    l0[w] = 0;
}

/// Drain the level-0 span of one level-1 word, in ascending order, and
/// zero the word.
fn drain_level1(l1: &mut Vec<u64>, l0: &mut Vec<u64>, w1: usize, out: &mut Vec<u64>)
    requires
        old(l1)@.len() == L1_SIZE,
        old(l0)@.len() == L0_SIZE,
        w1 < old(l1)@.len(),
        summarizes(old(l0)@, old(l1)@),
    ensures
        final(l1)@ == old(l1)@.update(w1 as int, 0u64),
        final(l0)@.len() == L0_SIZE,
        forall|v: int| w1 * 64 <= v < (w1 + 1) * 64 ==> final(l0)@[v] == 0,
        forall|v: int|
            0 <= v < L0_SIZE && !(w1 * 64 <= v < (w1 + 1) * 64) ==> final(l0)@[v] == old(l0)@[v],
        final(out)@ == old(out)@ + words_elems(old(l0)@, w1 * 64, (w1 + 1) * 64),
        summarizes(final(l0)@, final(l1)@),
{
    let word = l1[w1];
    let lo = w1 * 64;
    let mut b: usize = 0;
    while b < 64
        invariant
            b <= 64,
            lo == w1 * 64,
            w1 < L1_SIZE,
            lo + 64 <= L0_SIZE,
            word == old(l1)@[w1 as int],
            l1@ == old(l1)@,
            old(l1)@.len() == L1_SIZE,
            old(l0)@.len() == L0_SIZE,
            summarizes(old(l0)@, old(l1)@),
            l0@.len() == L0_SIZE,
            forall|v: int| lo <= v < lo + b ==> l0@[v] == 0,
            forall|v: int| 0 <= v < L0_SIZE && !(lo <= v < lo + b) ==> l0@[v] == old(l0)@[v],
            out@ == old(out)@ + words_elems(old(l0)@, lo as int, lo + b),
        decreases 64 - b,
    {
        let w0 = lo + b;
        if word & (1u64 << (b as u64)) != 0 {
            let ghost l0_pre = l0@;
            let ghost out_pre = out@;
            drain_level0(l0, w0, out);
            proof {
                assert(l0_pre[w0 as int] == old(l0)@[w0 as int]);
                lemma_words_elems_split(old(l0)@, lo as int, lo + b, lo + b + 1);
                lemma_words_elems_one(old(l0)@, lo + b);
                assert(out@ =~= old(out)@ + words_elems(old(l0)@, lo as int, lo + b + 1));
            }
        } else {
            proof {
                // The summary bit is clear, so the word below is zero and
                // contributes nothing.
                assert(w0 as int / 64 == w1 && w0 as int % 64 == b) by (nonlinear_arith)
                    requires
                        w0 == w1 * 64 + b,
                        0 <= b < 64,
                ;
                lemma_zero_word_bits();
                assert(old(l0)@[w0 as int] == l0@[w0 as int]);
                if old(l0)@[w0 as int] != 0 {
                    assert(bit_of(old(l1)@[w1 as int], (w0 as int % 64) as u64));
                    assert(word & (1u64 << (b as u64)) != 0);
                }
                lemma_words_elems_split(old(l0)@, lo as int, lo + b, lo + b + 1);
                lemma_words_elems_zero(old(l0)@, lo + b, lo + b + 1);
                assert(out@ =~= old(out)@ + words_elems(old(l0)@, lo as int, lo + b + 1));
            }
        }
        b = b + 1;
    }
    l1[w1] = 0;
    proof {
        lemma_zero_word_bits();
        assert forall|v: int| 0 <= v < l0@.len() && (#[trigger] l0@[v]) != 0 implies bit_of(
            l1@[v / 64],
            (v % 64) as u64,
        ) by {
            lemma_fundamental_div_mod(v, 64);
            if v / 64 == w1 {
                assert(w1 * 64 <= v < (w1 + 1) * 64) by (nonlinear_arith)
                    requires
                        v / 64 == w1,
                        v == 64 * (v / 64) + v % 64,
                        0 <= v % 64 < 64,
                ;
                assert(l0@[v] == 0);
            } else {
                assert(l0@[v] == old(l0)@[v] || l0@[v] == 0) by {
                    if w1 * 64 <= v < (w1 + 1) * 64 {
                        assert(v / 64 == w1) by (nonlinear_arith)
                            requires
                                w1 * 64 <= v < (w1 + 1) * 64,
                        ;
                    }
                }
                assert(l1@[v / 64] == old(l1)@[v / 64]);
            }
        }
    }
}

/// Drain the level-0 span of one level-2 word, in ascending order, and
/// zero the word.
fn drain_level2(l2: &mut Vec<u64>, l1: &mut Vec<u64>, l0: &mut Vec<u64>, w2: usize, out: &mut Vec<
    u64,
>)
    requires
        old(l2)@.len() == L2_SIZE,
        old(l1)@.len() == L1_SIZE,
        old(l0)@.len() == L0_SIZE,
        w2 < old(l2)@.len(),
        summarizes(old(l0)@, old(l1)@),
        summarizes(old(l1)@, old(l2)@),
    ensures
        final(l2)@ == old(l2)@.update(w2 as int, 0u64),
        final(l1)@.len() == L1_SIZE,
        final(l0)@.len() == L0_SIZE,
        forall|v: int| w2 * 0x1000 <= v < (w2 + 1) * 0x1000 ==> final(l0)@[v] == 0,
        forall|v: int|
            0 <= v < L0_SIZE && !(w2 * 0x1000 <= v < (w2 + 1) * 0x1000) ==> final(l0)@[v] == old(
                l0,
            )@[v],
        forall|v: int|
            0 <= v < L1_SIZE && !(w2 * 64 <= v < (w2 + 1) * 64) ==> final(l1)@[v] == old(l1)@[v],
        final(out)@ == old(out)@ + words_elems(old(l0)@, w2 * 0x1000, (w2 + 1) * 0x1000),
        summarizes(final(l0)@, final(l1)@),
        summarizes(final(l1)@, final(l2)@),
{
    let word = l2[w2];
    let lo1 = w2 * 64;
    let ghost lo0 = w2 * 0x1000;
    let mut b: usize = 0;
    while b < 64
        invariant
            b <= 64,
            lo1 == w2 * 64,
            lo0 == w2 * 0x1000,
            w2 < L2_SIZE,
            lo1 + 64 <= L1_SIZE,
            lo0 + 0x1000 <= L0_SIZE,
            word == old(l2)@[w2 as int],
            l2@ == old(l2)@,
            old(l2)@.len() == L2_SIZE,
            old(l1)@.len() == L1_SIZE,
            old(l0)@.len() == L0_SIZE,
            summarizes(old(l0)@, old(l1)@),
            summarizes(old(l1)@, old(l2)@),
            l1@.len() == L1_SIZE,
            l0@.len() == L0_SIZE,
            forall|v: int| lo1 <= v < lo1 + b ==> l1@[v] == 0,
            forall|v: int| 0 <= v < L1_SIZE && !(lo1 <= v < lo1 + b) ==> l1@[v] == old(l1)@[v],
            forall|v: int| lo0 <= v < lo0 + b * 64 ==> l0@[v] == 0,
            forall|v: int| 0 <= v < L0_SIZE && !(lo0 <= v < lo0 + b * 64) ==> l0@[v] == old(l0)@[v],
            out@ == old(out)@ + words_elems(old(l0)@, lo0, lo0 + b * 64),
            summarizes(l0@, l1@),
        decreases 64 - b,
    {
        let w1 = lo1 + b;
        assert(lo0 + b * 64 == w1 * 64 && lo0 + (b + 1) * 64 == (w1 + 1) * 64) by (nonlinear_arith)
            requires
                lo0 == w2 * 0x1000,
                lo1 == w2 * 64,
                w1 == lo1 + b,
        ;
        if word & (1u64 << (b as u64)) != 0 {
            let ghost l0_pre = l0@;
            let ghost out_pre = out@;
            drain_level1(l1, l0, w1, out);
            proof {
                lemma_words_elems_frame(l0_pre, old(l0)@, w1 as int * 64, (w1 as int + 1) * 64);
                lemma_words_elems_split(old(l0)@, lo0, lo0 + b * 64, lo0 + (b + 1) * 64);
                assert(out@ =~= old(out)@ + words_elems(old(l0)@, lo0, lo0 + (b + 1) * 64));
            }
        } else {
            proof {
                assert(w1 as int / 64 == w2 && w1 as int % 64 == b) by (nonlinear_arith)
                    requires
                        w1 == w2 * 64 + b,
                        0 <= b < 64,
                ;
                lemma_zero_word_bits();
                if l1@[w1 as int] != 0 {
                    assert(l1@[w1 as int] == old(l1)@[w1 as int]);
                    assert(bit_of(old(l2)@[w2 as int], (w1 as int % 64) as u64));
                    assert(word & (1u64 << (b as u64)) != 0);
                }
                assert(l1@[w1 as int] == 0);
                lemma_span_zero_l1(l0@, l1@, w1 as int);
                lemma_words_elems_zero(old(l0)@, lo0 + b * 64, lo0 + (b + 1) * 64);
                lemma_words_elems_split(old(l0)@, lo0, lo0 + b * 64, lo0 + (b + 1) * 64);
                assert(out@ =~= old(out)@ + words_elems(old(l0)@, lo0, lo0 + (b + 1) * 64));
            }
        }
        b = b + 1;
    }
    l2[w2] = 0;
    proof {
        lemma_zero_word_bits();
        assert forall|v: int| 0 <= v < l1@.len() && (#[trigger] l1@[v]) != 0 implies bit_of(
            l2@[v / 64],
            (v % 64) as u64,
        ) by {
            lemma_fundamental_div_mod(v, 64);
            if v / 64 == w2 {
                assert(w2 * 64 <= v < (w2 + 1) * 64) by (nonlinear_arith)
                    requires
                        v / 64 == w2,
                        v == 64 * (v / 64) + v % 64,
                        0 <= v % 64 < 64,
                ;
                assert(l1@[v] == 0);
            } else {
                if w2 * 64 <= v < (w2 + 1) * 64 {
                    assert(v / 64 == w2) by (nonlinear_arith)
                        requires
                            w2 * 64 <= v < (w2 + 1) * 64,
                    ;
                }
                assert(l1@[v] == old(l1)@[v]);
                assert(l2@[v / 64] == old(l2)@[v / 64]);
            }
        }
    }
}

/// Drain the level-0 span of one level-3 word, in ascending order, and
/// zero the word.
fn drain_level3(
    l3: &mut Vec<u64>,
    l2: &mut Vec<u64>,
    l1: &mut Vec<u64>,
    l0: &mut Vec<u64>,
    w3: usize,
    out: &mut Vec<u64>,
)
    requires
        old(l3)@.len() == L3_SIZE,
        old(l2)@.len() == L2_SIZE,
        old(l1)@.len() == L1_SIZE,
        old(l0)@.len() == L0_SIZE,
        w3 < old(l3)@.len(),
        summarizes(old(l0)@, old(l1)@),
        summarizes(old(l1)@, old(l2)@),
        summarizes(old(l2)@, old(l3)@),
    ensures
        final(l3)@ == old(l3)@.update(w3 as int, 0u64),
        final(l2)@.len() == L2_SIZE,
        final(l1)@.len() == L1_SIZE,
        final(l0)@.len() == L0_SIZE,
        forall|v: int| w3 * 0x4_0000 <= v < (w3 + 1) * 0x4_0000 ==> final(l0)@[v] == 0,
        forall|v: int|
            0 <= v < L0_SIZE && !(w3 * 0x4_0000 <= v < (w3 + 1) * 0x4_0000) ==> final(l0)@[v]
                == old(l0)@[v],
        final(out)@ == old(out)@ + words_elems(old(l0)@, w3 * 0x4_0000, (w3 + 1) * 0x4_0000),
        summarizes(final(l0)@, final(l1)@),
        summarizes(final(l1)@, final(l2)@),
        summarizes(final(l2)@, final(l3)@),
{
    let word = l3[w3];
    let lo2 = w3 * 64;
    let ghost lo0 = w3 * 0x4_0000;
    let mut b: usize = 0;
    while b < 64
        invariant
            b <= 64,
            lo2 == w3 * 64,
            lo0 == w3 * 0x4_0000,
            w3 < L3_SIZE,
            lo2 + 64 <= L2_SIZE,
            lo0 + 0x4_0000 <= L0_SIZE,
            word == old(l3)@[w3 as int],
            l3@ == old(l3)@,
            old(l3)@.len() == L3_SIZE,
            old(l2)@.len() == L2_SIZE,
            old(l1)@.len() == L1_SIZE,
            old(l0)@.len() == L0_SIZE,
            summarizes(old(l0)@, old(l1)@),
            summarizes(old(l1)@, old(l2)@),
            summarizes(old(l2)@, old(l3)@),
            l2@.len() == L2_SIZE,
            l1@.len() == L1_SIZE,
            l0@.len() == L0_SIZE,
            forall|v: int| lo2 <= v < lo2 + b ==> l2@[v] == 0,
            forall|v: int| 0 <= v < L2_SIZE && !(lo2 <= v < lo2 + b) ==> l2@[v] == old(l2)@[v],
            forall|v: int| lo0 <= v < lo0 + b * 0x1000 ==> l0@[v] == 0,
            forall|v: int|
                0 <= v < L0_SIZE && !(lo0 <= v < lo0 + b * 0x1000) ==> l0@[v] == old(l0)@[v],
            out@ == old(out)@ + words_elems(old(l0)@, lo0, lo0 + b * 0x1000),
            summarizes(l0@, l1@),
            summarizes(l1@, l2@),
        decreases 64 - b,
    {
        let w2 = lo2 + b;
        assert(lo0 + b * 0x1000 == w2 * 0x1000 && lo0 + (b + 1) * 0x1000 == (w2 + 1)
            * 0x1000) by (nonlinear_arith)
            requires
                lo0 == w3 * 0x4_0000,
                lo2 == w3 * 64,
                w2 == lo2 + b,
        ;
        if word & (1u64 << (b as u64)) != 0 {
            let ghost l0_pre = l0@;
            drain_level2(l2, l1, l0, w2, out);
            proof {
                lemma_words_elems_frame(
                    l0_pre,
                    old(l0)@,
                    w2 as int * 0x1000,
                    (w2 as int + 1) * 0x1000,
                );
                lemma_words_elems_split(old(l0)@, lo0, lo0 + b * 0x1000, lo0 + (b + 1) * 0x1000);
                assert(out@ =~= old(out)@ + words_elems(old(l0)@, lo0, lo0 + (b + 1) * 0x1000));
            }
        } else {
            proof {
                assert(w2 as int / 64 == w3 && w2 as int % 64 == b) by (nonlinear_arith)
                    requires
                        w2 == w3 * 64 + b,
                        0 <= b < 64,
                ;
                lemma_zero_word_bits();
                if l2@[w2 as int] != 0 {
                    assert(l2@[w2 as int] == old(l2)@[w2 as int]);
                    assert(bit_of(old(l3)@[w3 as int], (w2 as int % 64) as u64));
                    assert(word & (1u64 << (b as u64)) != 0);
                }
                assert(l2@[w2 as int] == 0);
                lemma_span_zero_l2(l0@, l1@, l2@, w2 as int);
                lemma_words_elems_zero(old(l0)@, lo0 + b * 0x1000, lo0 + (b + 1) * 0x1000);
                lemma_words_elems_split(old(l0)@, lo0, lo0 + b * 0x1000, lo0 + (b + 1) * 0x1000);
                assert(out@ =~= old(out)@ + words_elems(old(l0)@, lo0, lo0 + (b + 1) * 0x1000));
            }
        }
        b = b + 1;
    }
    l3[w3] = 0;
    proof {
        lemma_zero_word_bits();
        assert forall|v: int| 0 <= v < l2@.len() && (#[trigger] l2@[v]) != 0 implies bit_of(
            l3@[v / 64],
            (v % 64) as u64,
        ) by {
            lemma_fundamental_div_mod(v, 64);
            if v / 64 == w3 {
                assert(w3 * 64 <= v < (w3 + 1) * 64) by (nonlinear_arith)
                    requires
                        v / 64 == w3,
                        v == 64 * (v / 64) + v % 64,
                        0 <= v % 64 < 64,
                ;
                assert(l2@[v] == 0);
            } else {
                if w3 * 64 <= v < (w3 + 1) * 64 {
                    assert(v / 64 == w3) by (nonlinear_arith)
                        requires
                            w3 * 64 <= v < (w3 + 1) * 64,
                    ;
                }
                assert(l2@[v] == old(l2)@[v]);
                assert(l3@[v / 64] == old(l3)@[v / 64]);
            }
        }
    }
}

} // verus!
