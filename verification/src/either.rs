//! A sum of two mutators over the same value type. Each associated type
//! becomes a parallel sum, and every operation dispatches on the active
//! variant; a cache or step of the other variant cannot arise for a
//! validated value, and the impossible arms are proved unreachable.

use vstd::prelude::*;

verus! {

use crate::mutator::Mutator;
use vstd::pervasive::unreached;

#[derive(Debug, Clone, Copy, PartialEq, Eq, Hash)]
pub enum Either<L, R> {
    Left(L),
    Right(R),
}

impl<T, M1, M2> Mutator<T> for Either<M1, M2> where M1: Mutator<T>, M2: Mutator<T> {
    type Cache = Either<M1::Cache, M2::Cache>;

    type MutationStep = Either<M1::MutationStep, M2::MutationStep>;

    type ArbitraryStep = Either<M1::ArbitraryStep, M2::ArbitraryStep>;

    type UnmutateToken = Either<M1::UnmutateToken, M2::UnmutateToken>;

    open spec fn s_wf(&self) -> bool {
        match self {
            Either::Left(m) => m.s_wf(),
            Either::Right(m) => m.s_wf(),
        }
    }

    open spec fn s_valid(&self, v: T) -> bool {
        match self {
            Either::Left(m) => m.s_valid(v),
            Either::Right(m) => m.s_valid(v),
        }
    }

    open spec fn s_cache(&self, v: T) -> Self::Cache {
        match self {
            Either::Left(m) => Either::Left(m.s_cache(v)),
            Either::Right(m) => Either::Right(m.s_cache(v)),
        }
    }

    open spec fn s_cplx(&self, v: T) -> u64 {
        match self {
            Either::Left(m) => m.s_cplx(v),
            Either::Right(m) => m.s_cplx(v),
        }
    }

    open spec fn s_min_cplx(&self) -> u64 {
        match self {
            Either::Left(m) => m.s_min_cplx(),
            Either::Right(m) => m.s_min_cplx(),
        }
    }

    open spec fn s_max_cplx(&self) -> u64 {
        match self {
            Either::Left(m) => m.s_max_cplx(),
            Either::Right(m) => m.s_max_cplx(),
        }
    }

    open spec fn s_undo(&self, t: Self::UnmutateToken, v: T) -> T {
        match (self, t) {
            (Either::Left(m), Either::Left(t)) => m.s_undo(t, v),
            (Either::Right(m), Either::Right(t)) => m.s_undo(t, v),
            _ => v,
        }
    }

    open spec fn s_token_fits(&self, t: Self::UnmutateToken) -> bool {
        match (self, t) {
            (Either::Left(m), Either::Left(t)) => m.s_token_fits(t),
            (Either::Right(m), Either::Right(t)) => m.s_token_fits(t),
            _ => false,
        }
    }

    open spec fn s_default_arb_step(&self) -> Self::ArbitraryStep {
        match self {
            Either::Left(m) => Either::Left(m.s_default_arb_step()),
            Either::Right(m) => Either::Right(m.s_default_arb_step()),
        }
    }

    open spec fn s_default_mut_step(&self, v: T) -> Self::MutationStep {
        match self {
            Either::Left(m) => Either::Left(m.s_default_mut_step(v)),
            Either::Right(m) => Either::Right(m.s_default_mut_step(v)),
        }
    }

    open spec fn s_arb_remaining(&self, step: Self::ArbitraryStep) -> nat {
        match (self, step) {
            (Either::Left(m), Either::Left(s)) => m.s_arb_remaining(s),
            (Either::Right(m), Either::Right(s)) => m.s_arb_remaining(s),
            _ => 0,
        }
    }

    open spec fn s_mut_remaining(&self, v: T, step: Self::MutationStep) -> nat {
        match (self, step) {
            (Either::Left(m), Either::Left(s)) => m.s_mut_remaining(v, s),
            (Either::Right(m), Either::Right(s)) => m.s_mut_remaining(v, s),
            _ => 0,
        }
    }

    proof fn cplx_bounds(&self, v: T) {
        match self {
            Either::Left(m) => m.cplx_bounds(v),
            Either::Right(m) => m.cplx_bounds(v),
        }
    }

    fn default_arbitrary_step(&self) -> Self::ArbitraryStep {
        match self {
            Either::Left(m) => Either::Left(m.default_arbitrary_step()),
            Either::Right(m) => Either::Right(m.default_arbitrary_step()),
        }
    }

    fn is_valid(&self, value: &T) -> (r: bool) {
        match self {
            Either::Left(m) => m.is_valid(value),
            Either::Right(m) => m.is_valid(value),
        }
    }

    fn validate_value(&self, value: &T) -> (r: Option<Self::Cache>) {
        match self {
            Either::Left(m) => {
                match m.validate_value(value) {
                    Some(c) => Some(Either::Left(c)),
                    None => None,
                }
            },
            Either::Right(m) => {
                match m.validate_value(value) {
                    Some(c) => Some(Either::Right(c)),
                    None => None,
                }
            },
        }
    }

    fn default_mutation_step(&self, value: &T, cache: &Self::Cache) -> Self::MutationStep {
        match self {
            Either::Left(m) => match cache {
                Either::Left(c) => Either::Left(m.default_mutation_step(value, c)),
                Either::Right(_) => unreached(),
            },
            Either::Right(m) => match cache {
                Either::Right(c) => Either::Right(m.default_mutation_step(value, c)),
                Either::Left(_) => unreached(),
            },
        }
    }

    fn max_complexity(&self) -> (r: u64) {
        match self {
            Either::Left(m) => m.max_complexity(),
            Either::Right(m) => m.max_complexity(),
        }
    }

    fn min_complexity(&self) -> (r: u64) {
        match self {
            Either::Left(m) => m.min_complexity(),
            Either::Right(m) => m.min_complexity(),
        }
    }

    fn complexity(&self, value: &T, cache: &Self::Cache) -> (r: u64) {
        match self {
            Either::Left(m) => match cache {
                Either::Left(c) => m.complexity(value, c),
                Either::Right(_) => unreached(),
            },
            Either::Right(m) => match cache {
                Either::Right(c) => m.complexity(value, c),
                Either::Left(_) => unreached(),
            },
        }
    }

    fn ordered_arbitrary(&self, step: &mut Self::ArbitraryStep, max_cplx: u64) -> (r: Option<
        (T, u64),
    >) {
        match self {
            Either::Left(m) => match step {
                Either::Left(s) => m.ordered_arbitrary(s, max_cplx),
                Either::Right(_) => None,
            },
            Either::Right(m) => match step {
                Either::Right(s) => m.ordered_arbitrary(s, max_cplx),
                Either::Left(_) => None,
            },
        }
    }

    fn random_arbitrary(&self, max_cplx: u64) -> (r: (T, u64)) {
        match self {
            Either::Left(m) => m.random_arbitrary(max_cplx),
            Either::Right(m) => m.random_arbitrary(max_cplx),
        }
    }

    fn ordered_mutate(
        &self,
        value: &mut T,
        cache: &mut Self::Cache,
        step: &mut Self::MutationStep,
        max_cplx: u64,
    ) -> (r: Option<(Self::UnmutateToken, u64)>) {
        match self {
            Either::Left(m) => match cache {
                Either::Left(c) => match step {
                    Either::Left(s) => match m.ordered_mutate(value, c, s, max_cplx) {
                        Some((t, cplx)) => Some((Either::Left(t), cplx)),
                        None => None,
                    },
                    Either::Right(_) => None,
                },
                Either::Right(_) => unreached(),
            },
            Either::Right(m) => match cache {
                Either::Right(c) => match step {
                    Either::Right(s) => match m.ordered_mutate(value, c, s, max_cplx) {
                        Some((t, cplx)) => Some((Either::Right(t), cplx)),
                        None => None,
                    },
                    Either::Left(_) => None,
                },
                Either::Left(_) => unreached(),
            },
        }
    }

    fn random_mutate(&self, value: &mut T, cache: &mut Self::Cache, max_cplx: u64) -> (r: (
        Self::UnmutateToken,
        u64,
    )) {
        match self {
            Either::Left(m) => match cache {
                Either::Left(c) => {
                    let (t, cplx) = m.random_mutate(value, c, max_cplx);
                    (Either::Left(t), cplx)
                },
                Either::Right(_) => unreached(),
            },
            Either::Right(m) => match cache {
                Either::Right(c) => {
                    let (t, cplx) = m.random_mutate(value, c, max_cplx);
                    (Either::Right(t), cplx)
                },
                Either::Left(_) => unreached(),
            },
        }
    }

    fn unmutate(&self, value: &mut T, cache: &mut Self::Cache, t: Self::UnmutateToken) {
        match self {
            Either::Left(m) => match cache {
                Either::Left(c) => match t {
                    Either::Left(t) => m.unmutate(value, c, t),
                    // A token of the other variant is a program defect
                    // and cannot arise under the contract.
                    Either::Right(_) => unreached(),
                },
                Either::Right(_) => unreached(),
            },
            Either::Right(m) => match cache {
                Either::Right(c) => match t {
                    Either::Right(t) => m.unmutate(value, c, t),
                    // A token of the other variant is a program defect
                    // and cannot arise under the contract.
                    Either::Left(_) => unreached(),
                },
                Either::Left(_) => unreached(),
            },
        }
    }
}

} // verus!
