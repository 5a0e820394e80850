//! The typed mutation engine's central contract: a mutator produces,
//! mutates and restores values of some domain type, reporting a
//! complexity cost (in bits) for each produced value.
//!
//! Every operation is pinned down by specification functions of the
//! implementing mutator: which values it recognizes, what they cost,
//! what cache they carry, and how an unmutate token restores the value
//! that a mutation replaced.

use vstd::prelude::*;

verus! {

/// A mutator over values of type `T`.
///
/// `Cache` holds derived state for a specific value; `MutationStep` is a
/// per-value cursor advanced by `ordered_mutate`; `ArbitraryStep` is a
/// global cursor for ordered synthesis; `UnmutateToken` is the diff
/// needed to restore a value after a mutation.
pub trait Mutator<T>: Sized {
    type Cache;

    type MutationStep;

    type ArbitraryStep;

    type UnmutateToken;

    /// The mutator itself is well formed; constructors establish this
    /// and every operation preserves it.
    spec fn s_wf(&self) -> bool;

    /// The values this mutator recognizes.
    spec fn s_valid(&self, v: T) -> bool;

    /// The cache derived for a value.
    spec fn s_cache(&self, v: T) -> Self::Cache;

    /// The complexity of a value, in bits.
    spec fn s_cplx(&self, v: T) -> u64;

    /// The least complexity of any recognized value.
    spec fn s_min_cplx(&self) -> u64;

    /// The greatest complexity of any recognized value.
    spec fn s_max_cplx(&self) -> u64;

    /// The value restored by applying an unmutate token to the value it
    /// mutated. A token that does not fit the value leaves it unchanged.
    spec fn s_undo(&self, t: Self::UnmutateToken, v: T) -> T;

    /// The token belongs to this mutator: every mutation produces a
    /// fitting token, and only fitting tokens may be applied — a token
    /// of a foreign shape is a program defect, surfaced here.
    spec fn s_token_fits(&self, t: Self::UnmutateToken) -> bool;

    /// The cursor `default_arbitrary_step` hands out.
    spec fn s_default_arb_step(&self) -> Self::ArbitraryStep;

    /// The cursor `default_mutation_step` hands out for `v`.
    spec fn s_default_mut_step(&self, v: T) -> Self::MutationStep;

    /// How many more values ordered synthesis can still yield from this
    /// cursor.
    spec fn s_arb_remaining(&self, step: Self::ArbitraryStep) -> nat;

    /// How many more edits ordered mutation can still yield on `v` from
    /// this cursor.
    spec fn s_mut_remaining(&self, v: T, step: Self::MutationStep) -> nat;

    /// Every recognized value costs at least the minimum and at most the
    /// maximum complexity.
    proof fn cplx_bounds(&self, v: T)
        requires
            self.s_wf(),
            self.s_valid(v),
        ensures
            self.s_min_cplx() <= self.s_cplx(v) <= self.s_max_cplx(),
    ;

    /// A fresh cursor for ordered synthesis.
    fn default_arbitrary_step(&self) -> (r: Self::ArbitraryStep)
        requires
            self.s_wf(),
        ensures
            r == self.s_default_arb_step(),
    ;

    /// Does the mutator recognize this value?
    fn is_valid(&self, value: &T) -> (r: bool)
        requires
            self.s_wf(),
        ensures
            r == self.s_valid(*value),
    ;

    /// Accepts exactly the values the mutator recognizes, handing back
    /// the cache that mutation operations need.
    fn validate_value(&self, value: &T) -> (r: Option<Self::Cache>)
        requires
            self.s_wf(),
        ensures
            match r {
                Some(c) => self.s_valid(*value) && c == self.s_cache(*value),
                None => !self.s_valid(*value),
            },
    ;

    /// A fresh cursor for ordered edits of `value`.
    fn default_mutation_step(&self, value: &T, cache: &Self::Cache) -> (r: Self::MutationStep)
        requires
            self.s_wf(),
            self.s_valid(*value),
            *cache == self.s_cache(*value),
        ensures
            r == self.s_default_mut_step(*value),
    ;

    fn max_complexity(&self) -> (r: u64)
        requires
            self.s_wf(),
        ensures
            r == self.s_max_cplx(),
    ;

    fn min_complexity(&self) -> (r: u64)
        requires
            self.s_wf(),
        ensures
            r == self.s_min_cplx(),
    ;

    fn complexity(&self, value: &T, cache: &Self::Cache) -> (r: u64)
        requires
            self.s_wf(),
            self.s_valid(*value),
            *cache == self.s_cache(*value),
        ensures
            r == self.s_cplx(*value),
    ;

    /// Deterministic enumeration: each produced value is recognized,
    /// costs what is reported, honors the budget, and strictly consumes
    /// the cursor — so the enumeration is finite. An absent answer is
    /// owed a reason: either even the cheapest value exceeds the budget,
    /// or the cursor is exhausted on return — so while values remain and
    /// the budget is satisfiable, a value must come.
    fn ordered_arbitrary(&self, step: &mut Self::ArbitraryStep, max_cplx: u64) -> (r: Option<
        (T, u64),
    >)
        requires
            self.s_wf(),
        ensures
            match r {
                Some((v, c)) => {
                    &&& self.s_valid(v)
                    &&& c == self.s_cplx(v)
                    &&& self.s_min_cplx() <= max_cplx
                    &&& c <= max_cplx
                    &&& self.s_arb_remaining(*final(step)) < self.s_arb_remaining(*old(step))
                },
                None => max_cplx < self.s_min_cplx() || self.s_arb_remaining(*final(step)) == 0,
            },
    ;

    /// Stochastic synthesis: always succeeds; the result is recognized
    /// and honors the budget whenever the budget is satisfiable at all.
    fn random_arbitrary(&self, max_cplx: u64) -> (r: (T, u64))
        requires
            self.s_wf(),
        ensures
            self.s_valid(r.0),
            r.1 == self.s_cplx(r.0),
            self.s_min_cplx() <= max_cplx ==> r.1 <= max_cplx,
    ;

    /// Deterministic edit: on success the new value is recognized, the
    /// token restores the old value, and the per-value cursor strictly
    /// advances — so the edits of a fixed value are finite. An absent
    /// answer is owed a reason, as for ordered synthesis.
    fn ordered_mutate(
        &self,
        value: &mut T,
        cache: &mut Self::Cache,
        step: &mut Self::MutationStep,
        max_cplx: u64,
    ) -> (r: Option<(Self::UnmutateToken, u64)>)
        requires
            self.s_wf(),
            self.s_valid(*old(value)),
            *old(cache) == self.s_cache(*old(value)),
        ensures
            match r {
                Some((t, c)) => {
                    &&& self.s_valid(*final(value))
                    &&& *final(cache) == self.s_cache(*final(value))
                    &&& c == self.s_cplx(*final(value))
                    &&& self.s_undo(t, *final(value)) == *old(value)
                    &&& self.s_token_fits(t)
                    &&& self.s_min_cplx() <= max_cplx
                    &&& c <= max_cplx
                    &&& self.s_mut_remaining(*old(value), *final(step)) < self.s_mut_remaining(
                        *old(value),
                        *old(step),
                    )
                },
                None => {
                    &&& *final(value) == *old(value)
                    &&& *final(cache) == *old(cache)
                    &&& (max_cplx < self.s_min_cplx() || self.s_mut_remaining(
                        *old(value),
                        *final(step),
                    ) == 0)
                },
            },
    ;

    /// Stochastic edit: the new value is recognized, the token restores
    /// the old value, and the budget is honored whenever satisfiable.
    fn random_mutate(&self, value: &mut T, cache: &mut Self::Cache, max_cplx: u64) -> (r: (
        Self::UnmutateToken,
        u64,
    ))
        requires
            self.s_wf(),
            self.s_valid(*old(value)),
            *old(cache) == self.s_cache(*old(value)),
        ensures
            self.s_valid(*final(value)),
            *final(cache) == self.s_cache(*final(value)),
            r.1 == self.s_cplx(*final(value)),
            self.s_undo(r.0, *final(value)) == *old(value),
            self.s_token_fits(r.0),
            self.s_min_cplx() <= max_cplx ==> r.1 <= max_cplx,
    ;

    /// Inverse of the most recent mutation: applies the token and hands
    /// back the cache of the restored value. Infallible on the tokens
    /// this mutator produces; a token of a foreign shape is excluded.
    fn unmutate(&self, value: &mut T, cache: &mut Self::Cache, t: Self::UnmutateToken)
        requires
            self.s_wf(),
            *old(cache) == self.s_cache(*old(value)),
            self.s_token_fits(t),
        ensures
            *final(value) == self.s_undo(t, *old(value)),
            *final(cache) == self.s_cache(*final(value)),
    ;
}

/// Round-trip law: a mutation followed by `unmutate` with its token
/// restores the value and the cache to their prior state, bit for bit.
///
/// The premises are exactly what `random_mutate` (or a successful
/// `ordered_mutate`) ensures about the mutated pair and what `unmutate`
/// ensures about the restored pair.
pub proof fn lemma_mutation_round_trip<T, M: Mutator<T>>(
    m: &M,
    pre_v: T,
    pre_c: M::Cache,
    post_v: T,
    t: M::UnmutateToken,
    restored_v: T,
    restored_c: M::Cache,
)
    requires
        pre_c == m.s_cache(pre_v),
        m.s_undo(t, post_v) == pre_v,
        restored_v == m.s_undo(t, post_v),
        restored_c == m.s_cache(restored_v),
    ensures
        restored_v == pre_v,
        restored_c == pre_c,
{
}

/// Ordered termination law: once the synthesis cursor has no values
/// left, `ordered_arbitrary` must answer `None` — a `Some` answer would
/// have to shrink the cursor's remaining count below zero. Repeated
/// calls therefore exhaust in finitely many steps.
pub proof fn lemma_ordered_arbitrary_exhausts<T, M: Mutator<T>>(
    m: &M,
    step_before: M::ArbitraryStep,
    step_after: M::ArbitraryStep,
    r: Option<(T, u64)>,
)
    requires
        m.s_arb_remaining(step_before) == 0,
        r is Some ==> m.s_arb_remaining(step_after) < m.s_arb_remaining(step_before),
    ensures
        r is None,
{
}

/// The same exhaustion law for ordered mutation of a fixed value.
pub proof fn lemma_ordered_mutate_exhausts<T, M: Mutator<T>>(
    m: &M,
    v: T,
    step_before: M::MutationStep,
    step_after: M::MutationStep,
    r: Option<(M::UnmutateToken, u64)>,
)
    requires
        m.s_mut_remaining(v, step_before) == 0,
        r is Some ==> m.s_mut_remaining(v, step_after) < m.s_mut_remaining(v, step_before),
    ensures
        r is None,
{
}

} // verus!
