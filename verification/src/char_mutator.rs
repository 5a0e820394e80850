//! A mutator for `char` values within an inclusive code-point range.
//! Ordered enumeration visits the range by a binary-search permutation:
//! the midpoint first, then recursive midpoints of both halves, so every
//! prefix of the enumeration covers the range evenly.

use vstd::prelude::*;

verus! {

use crate::mutator::Mutator;
use vstd::arithmetic::div_mod::lemma_fundamental_div_mod;

/// The binary-search permutation: entry `step` of the enumeration of the
/// integers `[low, high]` that visits the midpoint first and then
/// interleaves both halves, right half first.
pub open spec fn bs_entry(low: int, high: int, step: int) -> int
    decreases high - low,
    when 0 <= low <= high && 0 <= step <= high - low
{
    let mid = low + (high - low) / 2;
    if step == 0 {
        mid
    } else {
        let r_size = high - mid;
        let l_size = mid - low;
        let m = if r_size <= l_size {
            r_size
        } else {
            l_size
        };
        let j = step - 1;
        if j < 2 * m {
            if j % 2 == 0 {
                bs_entry(mid + 1, high, j / 2)
            } else {
                bs_entry(low, mid - 1, (j - 1) / 2)
            }
        } else if r_size > l_size {
            bs_entry(mid + 1, high, j - m)
        } else {
            bs_entry(low, mid - 1, j - m)
        }
    }
}

/// Every entry of the enumeration lies in the enumerated range, and the
/// zero entry is the midpoint.
pub proof fn lemma_bs_entry_range(low: int, high: int, step: int)
    requires
        0 <= low <= high,
        0 <= step <= high - low,
    ensures
        low <= bs_entry(low, high, step) <= high,
        step == 0 ==> bs_entry(low, high, step) == low + (high - low) / 2,
        step > 0 ==> bs_entry(low, high, step) != low + (high - low) / 2,
    decreases high - low,
{
    let mid = low + (high - low) / 2;
    if step > 0 {
        let r_size = high - mid;
        let l_size = mid - low;
        let m = if r_size <= l_size {
            r_size
        } else {
            l_size
        };
        let j = step - 1;
        if j < 2 * m {
            lemma_fundamental_div_mod(j, 2);
            if j % 2 == 0 {
                lemma_bs_entry_range(mid + 1, high, j / 2);
            } else {
                lemma_bs_entry_range(low, mid - 1, (j - 1) / 2);
            }
        } else if r_size > l_size {
            lemma_bs_entry_range(mid + 1, high, j - m);
        } else {
            lemma_bs_entry_range(low, mid - 1, j - m);
        }
    }
}

/// The enumeration is a permutation: distinct steps visit distinct
/// values, so the first `high - low + 1` steps cover the whole range
/// without repetition.
pub proof fn lemma_bs_entry_injective(low: int, high: int, s1: int, s2: int)
    requires
        0 <= low <= high,
        0 <= s1 <= high - low,
        0 <= s2 <= high - low,
        s1 != s2,
    ensures
        bs_entry(low, high, s1) != bs_entry(low, high, s2),
    decreases high - low,
{
    let mid = low + (high - low) / 2;
    lemma_bs_entry_range(low, high, s1);
    lemma_bs_entry_range(low, high, s2);
    if s1 == 0 || s2 == 0 {
        // One entry is the midpoint and the other is not.
    } else {
        let r_size = high - mid;
        let l_size = mid - low;
        let m = if r_size <= l_size {
            r_size
        } else {
            l_size
        };
        let j1 = s1 - 1;
        let j2 = s2 - 1;
        lemma_fundamental_div_mod(j1, 2);
        lemma_fundamental_div_mod(j2, 2);
        // Which half each step lands in, and at which sub-step.
        let right1 = if j1 < 2 * m {
            j1 % 2 == 0
        } else {
            r_size > l_size
        };
        let right2 = if j2 < 2 * m {
            j2 % 2 == 0
        } else {
            r_size > l_size
        };
        let sub1 = if j1 < 2 * m {
            j1 / 2
        } else {
            j1 - m
        };
        let sub2 = if j2 < 2 * m {
            j2 / 2
        } else {
            j2 - m
        };
        if right1 != right2 {
            // One lands right of the midpoint, the other left of it.
            if right1 {
                lemma_bs_entry_range(mid + 1, high, sub1);
                lemma_bs_entry_range(low, mid - 1, sub2);
            } else {
                lemma_bs_entry_range(low, mid - 1, sub1);
                lemma_bs_entry_range(mid + 1, high, sub2);
            }
        } else {
            assert(sub1 != sub2);
            if right1 {
                lemma_bs_entry_injective(mid + 1, high, sub1, sub2);
            } else {
                lemma_bs_entry_injective(low, mid - 1, sub1, sub2);
            }
        }
    }
}

/// Entry `step` of the binary-search enumeration of `[low, high]`.
pub fn binary_search_arbitrary_u32(low: u32, high: u32, step: u64) -> (r: u32)
    requires
        low <= high,
        step <= high - low,
    ensures
        r == bs_entry(low as int, high as int, step as int),
        low <= r <= high,
    decreases high - low,
{
    proof {
        lemma_bs_entry_range(low as int, high as int, step as int);
    }
    let mid = low + (high - low) / 2;
    if step == 0 {
        mid
    } else {
        let r_size = (high - mid) as u64;
        let l_size = (mid - low) as u64;
        let m = if r_size <= l_size {
            r_size
        } else {
            l_size
        };
        let j = step - 1;
        if j < 2 * m {
            if j % 2 == 0 {
                binary_search_arbitrary_u32(mid + 1, high, j / 2)
            } else {
                binary_search_arbitrary_u32(low, mid - 1, (j - 1) / 2)
            }
        } else if r_size > l_size {
            binary_search_arbitrary_u32(mid + 1, high, j - m)
        } else {
            binary_search_arbitrary_u32(low, mid - 1, j - m)
        }
    }
}

/// Relies on `char::from_u32`: it answers `Some` exactly for code points
/// that are not surrogates and not beyond the Unicode maximum, and the
/// answered character has the given code point.
#[verifier::external_body]
pub(crate) fn char_from_u32(v: u32) -> (r: Option<char>)
    ensures
        r is Some <==> (v < 0xD800 || (0xE000 <= v && v <= 0x10FFFF)),
        match r {
            Some(c) => c as u32 == v,
            None => true,
        },
{
    char::from_u32(v)
}

/// Relies on `fastrand::u32`: the result lies in the inclusive range it
/// is given. Nothing more is assumed of the draw.
#[verifier::external_body]
pub(crate) fn random_u32_in(lo: u32, hi: u32) -> (r: u32)
    requires
        lo <= hi,
    ensures
        lo <= r <= hi,
{
    fastrand::u32(lo..=hi)
}

/// The complexity of any character this mutator produces, in bits.
pub const CHAR_COMPLEXITY: u64 = 8;

/// A mutator for characters within an inclusive range of code points.
pub struct CharWithinRangeMutator {
    start_range: u32,
    len_range: u32,
    first: char,
}

impl CharWithinRangeMutator {
    /// The lowest code point of the range.
    pub closed spec fn start_code(self) -> u32 {
        self.start_range
    }

    /// The width of the range: the highest code point is
    /// `start_code() + len_code()`.
    pub closed spec fn len_code(self) -> u32 {
        self.len_range
    }

    pub fn new(start: char, end: char) -> (r: Self)
        requires
            start as u32 <= end as u32,
        ensures
            r.s_wf(),
            r.start_code() == start as u32,
            r.len_code() == end as u32 - start as u32,
            forall|c: char| r.s_valid(c) <==> (start as u32 <= c as u32 <= end as u32),
            r.s_min_cplx() == CHAR_COMPLEXITY,
            r.s_max_cplx() == CHAR_COMPLEXITY,
            forall|c: char| r.s_cplx(c) == CHAR_COMPLEXITY,
            forall|t: char, v: char| r.s_undo(t, v) == t,
            forall|t: char| r.s_token_fits(t),
            r.s_default_arb_step() == 0,
            forall|c: char| r.s_default_mut_step(c) == 0,
            forall|s: u64|
                r.s_arb_remaining(s) == if s > end as u32 - start as u32 {
                    0nat
                } else {
                    ((end as u32 - start as u32) + 1 - s) as nat
                },
            forall|c: char, s: u64| r.s_mut_remaining(c, s) == r.s_arb_remaining(s),
    {
        let s = start as u32;
        let e = end as u32;
        Self { start_range: s, len_range: e - s, first: start }
    }
}

impl Mutator<char> for CharWithinRangeMutator {
    type Cache = ();

    type MutationStep = u64;

    type ArbitraryStep = u64;

    type UnmutateToken = char;

    closed spec fn s_wf(&self) -> bool {
        &&& self.start_range + self.len_range <= 0x10FFFF
        &&& self.first as u32 == self.start_range
    }

    closed spec fn s_valid(&self, v: char) -> bool {
        self.start_range <= v as u32 <= self.start_range + self.len_range
    }

    closed spec fn s_cache(&self, v: char) -> () {
        ()
    }

    closed spec fn s_cplx(&self, v: char) -> u64 {
        CHAR_COMPLEXITY
    }

    closed spec fn s_min_cplx(&self) -> u64 {
        CHAR_COMPLEXITY
    }

    closed spec fn s_max_cplx(&self) -> u64 {
        CHAR_COMPLEXITY
    }

    closed spec fn s_undo(&self, t: char, v: char) -> char {
        t
    }

    closed spec fn s_token_fits(&self, t: char) -> bool {
        true
    }

    closed spec fn s_default_arb_step(&self) -> u64 {
        0
    }

    closed spec fn s_default_mut_step(&self, v: char) -> u64 {
        0
    }

    closed spec fn s_arb_remaining(&self, step: u64) -> nat {
        if step > self.len_range {
            0
        } else {
            (self.len_range - step + 1) as nat
        }
    }

    closed spec fn s_mut_remaining(&self, v: char, step: u64) -> nat {
        if step > self.len_range {
            0
        } else {
            (self.len_range - step + 1) as nat
        }
    }

    proof fn cplx_bounds(&self, v: char) {
    }

    fn default_arbitrary_step(&self) -> u64 {
        0
    }

    fn is_valid(&self, value: &char) -> (r: bool) {
        let c = *value as u32;
        self.start_range <= c && c <= self.start_range + self.len_range
    }

    fn validate_value(&self, value: &char) -> (r: Option<()>) {
        let c = *value as u32;
        if self.start_range <= c && c <= self.start_range + self.len_range {
            Some(())
        } else {
            None
        }
    }

    fn default_mutation_step(&self, value: &char, cache: &()) -> u64 {
        0
    }

    fn max_complexity(&self) -> (r: u64) {
        CHAR_COMPLEXITY
    }

    fn min_complexity(&self) -> (r: u64) {
        CHAR_COMPLEXITY
    }

    fn complexity(&self, value: &char, cache: &()) -> (r: u64) {
        CHAR_COMPLEXITY
    }

    fn ordered_arbitrary(&self, step: &mut u64, max_cplx: u64) -> (r: Option<(char, u64)>) {
        if max_cplx < CHAR_COMPLEXITY {
            return None;
        }
        let mut s = *step;
        loop
            invariant
                self.s_wf(),
                max_cplx >= CHAR_COMPLEXITY,
                *old(step) <= s,
                self.s_arb_remaining(*old(step)) >= self.s_arb_remaining(s),
            decreases self.len_range as int + 1 - s as int,
        {
            if s > self.len_range as u64 {
                *step = s;
                return None;
            }
            let x = binary_search_arbitrary_u32(0, self.len_range, s);
            s = s + 1;
            if let Some(c) = char_from_u32(self.start_range + x) {
                *step = s;
                return Some((c, CHAR_COMPLEXITY));
            }
        }
    }

    fn random_arbitrary(&self, max_cplx: u64) -> (r: (char, u64)) {
        // Rejection sampling: resample when the draw hits a surrogate.
        // The attempts are bounded; the range's known character is the
        // last resort.
        let mut attempts: u64 = 0;
        while attempts < 16
            invariant
                self.s_wf(),
            decreases 16 - attempts,
        {
            let v = random_u32_in(self.start_range, self.start_range + self.len_range);
            if let Some(c) = char_from_u32(v) {
                return (c, CHAR_COMPLEXITY);
            }
            attempts = attempts + 1;
        }
        (self.first, CHAR_COMPLEXITY)
    }

    fn ordered_mutate(&self, value: &mut char, cache: &mut (), step: &mut u64, max_cplx: u64) -> (r:
        Option<(char, u64)>) {
        if max_cplx < CHAR_COMPLEXITY {
            return None;
        }
        let token = *value;
        let mut s = *step;
        loop
            invariant
                self.s_wf(),
                max_cplx >= CHAR_COMPLEXITY,
                *old(step) <= s,
                self.s_mut_remaining(*old(value), *old(step)) >= self.s_mut_remaining(
                    *old(value),
                    s,
                ),
                *value == *old(value),
                token == *old(value),
                self.s_valid(*old(value)),
            decreases self.len_range as int + 1 - s as int,
        {
            if s > self.len_range as u64 {
                *step = s;
                return None;
            }
            let x = binary_search_arbitrary_u32(0, self.len_range, s);
            s = s + 1;
            if let Some(c) = char_from_u32(self.start_range + x) {
                if c != *value {
                    *step = s;
                    *value = c;
                    return Some((token, CHAR_COMPLEXITY));
                }
            }
        }
    }

    fn random_mutate(&self, value: &mut char, cache: &mut (), max_cplx: u64) -> (r: (char, u64)) {
        let token = *value;
        // Rejection sampling as in `random_arbitrary`; when every
        // bounded attempt hits a surrogate, the value stays put.
        let mut attempts: u64 = 0;
        while attempts < 16
            invariant
                self.s_wf(),
                self.s_valid(*old(value)),
                *value == *old(value),
                token == *old(value),
            decreases 16 - attempts,
        {
            let v = random_u32_in(self.start_range, self.start_range + self.len_range);
            if let Some(c) = char_from_u32(v) {
                *value = c;
                return (token, CHAR_COMPLEXITY);
            }
            attempts = attempts + 1;
        }
        (token, CHAR_COMPLEXITY)
    }

    fn unmutate(&self, value: &mut char, cache: &mut (), t: char) {
        *value = t;
    }
}

} // verus!
