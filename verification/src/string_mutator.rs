//! A syntax-tree mutator paired with the tree's string yield: every
//! operation keeps the string equal to the flattening of the tree,
//! regenerating it after each change.

use vstd::prelude::*;

verus! {

use crate::ast_mutator::{
    lemma_ast_mutator_cache, lemma_ast_mutator_cplx, lemma_ast_mutator_token_fits,
    lemma_ast_mutator_undo, ASTMutator, ASTMutatorCache, ASTMutatorUnmutateToken,
};
use crate::grammar::{ast_chars, ast_cplx, ast_to_string, AST};
use crate::mutator::Mutator;

/// A mutator over `(String, AST)` pairs whose string part is always the
/// yield of the tree part.
pub struct ASTStringMutator {
    inner: ASTMutator,
}

impl ASTMutator {
    /// Pair this mutator's trees with their string yields.
    pub fn with_string(self) -> (r: ASTStringMutator)
        ensures
            self.s_wf() ==> r.wf(),
            r.tree_valid() == self.s_valid_fn(),
    {
        ASTStringMutator { inner: self }
    }

    /// The validity predicate of this mutator, as a value, so that the
    /// paired mutator's contracts can speak of it.
    pub open spec fn s_valid_fn(self) -> spec_fn(AST) -> bool {
        |a: AST| self.s_valid(a)
    }
}

impl ASTStringMutator {
    pub closed spec fn wf(self) -> bool {
        self.inner.s_wf()
    }

    /// Which trees the underlying mutator recognizes.
    pub closed spec fn tree_valid(self) -> spec_fn(AST) -> bool {
        self.inner.s_valid_fn()
    }

    /// The least complexity of any recognized tree.
    pub closed spec fn min_cplx(self) -> u64 {
        self.inner.s_min_cplx()
    }

    /// A pair is recognized when its tree is recognized and its string
    /// is exactly the tree's yield.
    pub open spec fn pair_valid(self, s: Seq<char>, a: AST) -> bool {
        self.tree_valid()(a) && s == ast_chars(a)
    }

    /// Accepts exactly the recognized pairs; the cache holds the tree's
    /// complexity.
    pub fn validate_value(&self, value: &(String, AST)) -> (r: Option<ASTMutatorCache>)
        requires
            self.wf(),
        ensures
            r is Some <==> self.pair_valid(value.0@, value.1),
            match r {
                Some(c) => c.spec_cplx() == ast_cplx(value.1),
                None => true,
            },
    {
        match self.inner.validate_value(&value.1) {
            Some(cache) => {
                proof {
                    lemma_ast_mutator_cache(&self.inner, value.1, cache);
                }
                let y = ast_to_string(&value.1);
                if value.0.eq(&y) {
                    Some(cache)
                } else {
                    None
                }
            },
            None => None,
        }
    }

    /// Stochastic synthesis of a pair: the tree is recognized, within
    /// budget whenever the budget is satisfiable, and the string is its
    /// yield.
    pub fn random_arbitrary(&self, max_cplx: u64) -> (r: ((String, AST), u64))
        requires
            self.wf(),
        ensures
            self.pair_valid(r.0.0@, r.0.1),
            r.1 == ast_cplx(r.0.1),
            self.min_cplx() <= max_cplx ==> r.1 <= max_cplx,
    {
        let (a, c) = self.inner.random_arbitrary(max_cplx);
        proof {
            lemma_ast_mutator_cplx(&self.inner, a);
        }
        let s = ast_to_string(&a);
        ((s, a), c)
    }

    /// Stochastic edit of a pair: the new pair is recognized, the token
    /// carries the old tree, and the string is regenerated in place.
    pub fn random_mutate(
        &self,
        value: &mut (String, AST),
        cache: &mut ASTMutatorCache,
        max_cplx: u64,
    ) -> (r: (ASTMutatorUnmutateToken, u64))
        requires
            self.wf(),
            self.pair_valid(old(value).0@, old(value).1),
            old(cache).spec_cplx() == ast_cplx(old(value).1),
        ensures
            self.pair_valid(final(value).0@, final(value).1),
            final(cache).spec_cplx() == ast_cplx(final(value).1),
            r.1 == ast_cplx(final(value).1),
            r.0.spec_inner() == old(value).1,
            self.min_cplx() <= max_cplx ==> r.1 <= max_cplx,
    {
        proof {
            lemma_ast_mutator_cache(&self.inner, value.1, *cache);
        }
        let r = self.inner.random_mutate(&mut value.1, cache, max_cplx);
        proof {
            lemma_ast_mutator_cache(&self.inner, value.1, *cache);
            lemma_ast_mutator_cplx(&self.inner, value.1);
            lemma_ast_mutator_undo(&self.inner, r.0, value.1);
        }
        value.0 = ast_to_string(&value.1);
        r
    }

    /// Inverse of the most recent mutation of a pair; the string is
    /// regenerated from the restored tree.
    pub fn unmutate(
        &self,
        value: &mut (String, AST),
        cache: &mut ASTMutatorCache,
        t: ASTMutatorUnmutateToken,
    )
        requires
            self.wf(),
            old(cache).spec_cplx() == ast_cplx(old(value).1),
        ensures
            final(value).1 == t.spec_inner(),
            final(value).0@ == ast_chars(final(value).1),
            final(cache).spec_cplx() == ast_cplx(final(value).1),
    {
        proof {
            lemma_ast_mutator_cache(&self.inner, value.1, *cache);
            lemma_ast_mutator_undo(&self.inner, t, value.1);
            lemma_ast_mutator_token_fits(&self.inner, t);
        }
        let ghost t0 = t;
        self.inner.unmutate(&mut value.1, cache, t);
        proof {
            lemma_ast_mutator_cache(&self.inner, value.1, *cache);
            lemma_ast_mutator_undo(&self.inner, t0, old(value).1);
        }
        value.0 = ast_to_string(&value.1);
    }
}

} // verus!
