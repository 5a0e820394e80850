//! Grammars and the syntax trees they describe.
//!
//! A grammar is a tree whose cycles are expressed by `Recursive` nodes
//! and `Recurse` back references; a back reference names the enclosing
//! `Recursive` node by how many `Recursive` ancestors it skips, the
//! innermost being `0`. A syntax tree is the minimal union of a token
//! and a sequence; its string yield is the left-to-right concatenation
//! of its tokens.

use vstd::prelude::*;

verus! {

use crate::char_mutator::CHAR_COMPLEXITY;

/// A context-free grammar over characters.
#[derive(Debug)]
pub enum Grammar {
    /// A single character from a class: a union of inclusive ranges.
    Literal(Vec<(char, char)>),
    /// One of several alternatives.
    Alternation(Vec<Grammar>),
    /// All parts in order.
    Concatenation(Vec<Grammar>),
    /// The inner grammar repeated between `lo` and `hi - 1` times;
    /// `hi` is exclusive.
    Repetition(Box<Grammar>, u64, u64),
    /// A back reference to an enclosing `Recursive` node: `0` names the
    /// innermost enclosing one.
    Recurse(usize),
    /// The owning node of a cycle.
    Recursive(Box<Grammar>),
}

/// A syntax tree: a token or a sequence of subtrees.
#[verifier::ext_equal]
#[derive(Debug, PartialEq, Eq)]
pub enum AST {
    Token(char),
    Sequence(Vec<AST>),
}

/// The mathematical model of a syntax tree: the same shape with the
/// sequences abstracted, so that structural equality of two trees can be
/// stated and proved.
#[verifier::ext_equal]
pub enum AstModel {
    Token(char),
    Sequence(Seq<AstModel>),
}

/// The model of a syntax tree.
pub open spec fn ast_model(a: AST) -> AstModel
    decreases a,
{
    match a {
        AST::Token(c) => AstModel::Token(c),
        AST::Sequence(xs) => AstModel::Sequence(ast_list_model(xs@)),
    }
}

pub open spec fn ast_list_model(s: Seq<AST>) -> Seq<AstModel>
    decreases s,
{
    if s.len() == 0 {
        Seq::empty()
    } else {
        seq![ast_model(s[0])] + ast_list_model(s.drop_first())
    }
}

/// The model of a list of trees is the list of their models.
pub proof fn lemma_ast_list_model_index(s: Seq<AST>)
    ensures
        ast_list_model(s).len() == s.len(),
        forall|i: int| 0 <= i < s.len() ==> ast_list_model(s)[i] == ast_model(#[trigger] s[i]),
    decreases s.len(),
{
    if s.len() > 0 {
        lemma_ast_list_model_index(s.drop_first());
        assert forall|i: int| 0 <= i < s.len() implies ast_list_model(s)[i] == ast_model(
            #[trigger] s[i],
        ) by {
            if i > 0 {
                assert(s.drop_first()[i - 1] == s[i]);
                assert(ast_list_model(s)[i] == ast_list_model(s.drop_first())[i - 1]);
            }
        }
    }
}

/// The syntax tree `a` is derived by the grammar `g`. `ctx` holds the
/// enclosing `Recursive` grammars, outermost first; a back reference
/// `Recurse(k)` names the `k`-th innermost of them and consumes one
/// sequence wrapper, which keeps derivations finite.
pub open spec fn grammar_matches(ctx: Seq<Grammar>, g: Grammar, a: AST) -> bool
    decreases a, g,
{
    match g {
        Grammar::Literal(ranges) => a is Token && class_has(ranges@, a->Token_0),
        Grammar::Alternation(gs) => exists|i: int|
            0 <= i < gs@.len() && grammar_matches(ctx, #[trigger] gs@[i], a),
        Grammar::Concatenation(gs) => a is Sequence && gs@.len() == a->Sequence_0@.len()
            && grammar_matches_list(ctx, gs@, a->Sequence_0@),
        Grammar::Repetition(inner, lo, hi) => a is Sequence && hi >= 1 && lo <= a->Sequence_0@.len()
            <= hi - 1 && grammar_matches_rep(ctx, *inner, a->Sequence_0@),
        Grammar::Recurse(k) => a is Sequence && a->Sequence_0@.len() == 1 && k < ctx.len()
            && grammar_matches(
            ctx.subrange(0, ctx.len() - 1 - k),
            ctx[ctx.len() - 1 - k],
            a->Sequence_0@[0],
        ),
        Grammar::Recursive(body) => grammar_matches(ctx.push(g), *body, a),
    }
}

/// Each element is derived by the grammar at the same position.
pub open spec fn grammar_matches_list(ctx: Seq<Grammar>, gs: Seq<Grammar>, xs: Seq<AST>) -> bool
    decreases xs, gs,
{
    if gs.len() != xs.len() {
        false
    } else if gs.len() == 0 {
        true
    } else {
        grammar_matches(ctx, gs[0], xs[0]) && grammar_matches_list(
            ctx,
            gs.drop_first(),
            xs.drop_first(),
        )
    }
}

/// Each element is derived by the one grammar.
pub open spec fn grammar_matches_rep(ctx: Seq<Grammar>, g: Grammar, xs: Seq<AST>) -> bool
    decreases xs, g,
{
    if xs.len() == 0 {
        true
    } else {
        grammar_matches(ctx, g, xs[0]) && grammar_matches_rep(ctx, g, xs.drop_first())
    }
}

/// The character lies in one of the class's inclusive ranges.
pub open spec fn class_has(ranges: Seq<(char, char)>, c: char) -> bool {
    exists|i: int|
        0 <= i < ranges.len() && ((#[trigger] ranges[i]).0 as u32) <= (c as u32) <= (
        ranges[i].1 as u32)
}

/// The grammar cannot be compiled: an empty or inverted literal class,
/// an empty alternation, an empty repetition range, or a back reference
/// that skips more than the `depth` enclosing `Recursive` nodes.
pub open spec fn grammar_ill_formed(g: Grammar, depth: int) -> bool
    decreases g,
{
    match g {
        Grammar::Literal(ranges) => ranges@.len() == 0 || exists|i: int|
            0 <= i < ranges@.len() && ((#[trigger] ranges@[i]).0 as u32) > (ranges@[i].1 as u32),
        Grammar::Alternation(gs) => gs@.len() == 0 || exists|i: int|
            0 <= i < gs@.len() && grammar_ill_formed(#[trigger] gs@[i], depth),
        Grammar::Concatenation(gs) => exists|i: int|
            0 <= i < gs@.len() && grammar_ill_formed(#[trigger] gs@[i], depth),
        Grammar::Repetition(inner, lo, hi) => hi == 0 || lo > hi - 1 || grammar_ill_formed(
            *inner,
            depth,
        ),
        Grammar::Recurse(k) => k >= depth,
        Grammar::Recursive(body) => grammar_ill_formed(*body, depth + 1),
    }
}

/// A fixed-length list is derived exactly when it has the right length
/// and every element is derived positionally.
pub proof fn lemma_grammar_list_index(ctx: Seq<Grammar>, gs: Seq<Grammar>, xs: Seq<AST>)
    ensures
        grammar_matches_list(ctx, gs, xs) <==> (gs.len() == xs.len() && forall|i: int|
            0 <= i < gs.len() ==> grammar_matches(ctx, #[trigger] gs[i], xs[i])),
    decreases xs.len(),
{
    if gs.len() == xs.len() && gs.len() > 0 {
        lemma_grammar_list_index(ctx, gs.drop_first(), xs.drop_first());
        if grammar_matches_list(ctx, gs, xs) {
            assert forall|i: int| 0 <= i < gs.len() implies grammar_matches(
                ctx,
                #[trigger] gs[i],
                xs[i],
            ) by {
                if i > 0 {
                    assert(gs.drop_first()[i - 1] == gs[i]);
                    assert(xs.drop_first()[i - 1] == xs[i]);
                }
            }
        }
        if gs.len() == xs.len() && forall|i: int|
            0 <= i < gs.len() ==> grammar_matches(ctx, #[trigger] gs[i], xs[i]) {
            assert forall|i: int| 0 <= i < gs.drop_first().len() implies grammar_matches(
                ctx,
                #[trigger] gs.drop_first()[i],
                xs.drop_first()[i],
            ) by {
                assert(gs.drop_first()[i] == gs[i + 1]);
                assert(xs.drop_first()[i] == xs[i + 1]);
            }
            assert(grammar_matches(ctx, gs[0], xs[0]));
        }
    }
}

/// A repeated list is derived exactly when every element is derived by
/// the one grammar.
pub proof fn lemma_grammar_rep_index(ctx: Seq<Grammar>, g: Grammar, xs: Seq<AST>)
    ensures
        grammar_matches_rep(ctx, g, xs) <==> forall|i: int|
            0 <= i < xs.len() ==> grammar_matches(ctx, g, #[trigger] xs[i]),
    decreases xs.len(),
{
    if xs.len() > 0 {
        lemma_grammar_rep_index(ctx, g, xs.drop_first());
        if grammar_matches_rep(ctx, g, xs) {
            assert forall|i: int| 0 <= i < xs.len() implies grammar_matches(
                ctx,
                g,
                #[trigger] xs[i],
            ) by {
                if i > 0 {
                    assert(xs.drop_first()[i - 1] == xs[i]);
                }
            }
        }
        if forall|i: int| 0 <= i < xs.len() ==> grammar_matches(ctx, g, #[trigger] xs[i]) {
            assert forall|i: int| 0 <= i < xs.drop_first().len() implies grammar_matches(
                ctx,
                g,
                #[trigger] xs.drop_first()[i],
            ) by {
                assert(xs.drop_first()[i] == xs[i + 1]);
            }
            assert(grammar_matches(ctx, g, xs[0]));
        }
    }
}

/// The string yield of a syntax tree: its tokens, left to right.
pub open spec fn ast_chars(a: AST) -> Seq<char>
    decreases a,
{
    match a {
        AST::Token(c) => seq![c],
        AST::Sequence(xs) => ast_list_chars(xs@),
    }
}

pub open spec fn ast_list_chars(s: Seq<AST>) -> Seq<char>
    decreases s,
{
    if s.len() == 0 {
        Seq::empty()
    } else {
        ast_chars(s[0]) + ast_list_chars(s.drop_first())
    }
}

/// Addition that stops at the largest representable value.
pub open spec fn sat_add(a: u64, b: u64) -> u64 {
    if a + b > u64::MAX {
        u64::MAX
    } else {
        (a + b) as u64
    }
}

/// The complexity of a syntax tree, in bits: a constant for each token
/// and one bit of structure for each sequence, saturating at the
/// largest representable value.
pub open spec fn ast_cplx(a: AST) -> u64
    decreases a,
{
    match a {
        AST::Token(c) => CHAR_COMPLEXITY,
        AST::Sequence(xs) => sat_add(1, ast_list_cplx(xs@)),
    }
}

pub open spec fn ast_list_cplx(s: Seq<AST>) -> u64
    decreases s,
{
    if s.len() == 0 {
        0
    } else {
        sat_add(ast_cplx(s[0]), ast_list_cplx(s.drop_first()))
    }
}

/// Saturating addition.
pub fn sat_add_exec(a: u64, b: u64) -> (r: u64)
    ensures
        r == sat_add(a, b),
{
    if a > u64::MAX - b {
        u64::MAX
    } else {
        a + b
    }
}

/// The complexity of a syntax tree, in bits.
pub fn ast_complexity(a: &AST) -> (r: u64)
    ensures
        r == ast_cplx(*a),
    decreases *a,
{
    match a {
        AST::Token(_) => CHAR_COMPLEXITY,
        AST::Sequence(xs) => {
            let mut i: usize = xs.len();
            let mut acc: u64 = 0;
            proof {
                assert(xs@.subrange(xs@.len() as int, xs@.len() as int) =~= Seq::<AST>::empty());
            }
            while i > 0
                invariant
                    *a == AST::Sequence(*xs),
                    i <= xs@.len(),
                    acc == ast_list_cplx(xs@.subrange(i as int, xs@.len() as int)),
                decreases i,
            {
                i = i - 1;
                proof {
                    assert(decreases_to!(*a => a->Sequence_0));
                    assert(a->Sequence_0 == *xs);
                    assert(decreases_to!(*xs => xs@));
                    assert(decreases_to!(xs@ => xs@[i as int]));
                }
                let c = ast_complexity(&xs[i]);
                acc = sat_add_exec(c, acc);
                proof {
                    let sub = xs@.subrange(i as int, xs@.len() as int);
                    assert(sub[0] == xs@[i as int]);
                    assert(sub.drop_first() =~= xs@.subrange(i as int + 1, xs@.len() as int));
                }
            }
            proof {
                assert(xs@.subrange(0, xs@.len() as int) =~= xs@);
            }
            sat_add_exec(1, acc)
        },
    }
}

/// An exact structural copy of a syntax tree: the copy has the same
/// model, hence the same yield and the same complexity.
pub fn ast_duplicate(a: &AST) -> (r: AST)
    ensures
        ast_model(r) == ast_model(*a),
    decreases *a,
{
    match a {
        AST::Token(c) => AST::Token(*c),
        AST::Sequence(xs) => {
            let mut out: Vec<AST> = Vec::new();
            let mut i: usize = 0;
            while i < xs.len()
                invariant
                    *a == AST::Sequence(*xs),
                    i <= xs@.len(),
                    out@.len() == i,
                    forall|j: int|
                        0 <= j < i ==> ast_model(#[trigger] out@[j]) == ast_model(xs@[j]),
                decreases xs@.len() - i,
            {
                proof {
                    assert(decreases_to!(*a => a->Sequence_0));
                    assert(a->Sequence_0 == *xs);
                    assert(decreases_to!(*xs => xs@));
                    assert(decreases_to!(xs@ => xs@[i as int]));
                }
                let e = ast_duplicate(&xs[i]);
                out.push(e);
                i = i + 1;
            }
            proof {
                lemma_ast_list_model_index(out@);
                lemma_ast_list_model_index(xs@);
                assert forall|j: int| 0 <= j < xs@.len() implies ast_list_model(out@)[j]
                    == ast_list_model(xs@)[j] by {
                    assert(ast_model(out@[j]) == ast_model(xs@[j]));
                }
                assert(ast_list_model(out@) =~= ast_list_model(xs@));
                assert(ast_model(AST::Sequence(out)) =~= ast_model(*a));
            }
            AST::Sequence(out)
        },
    }
}

/// Relies on `String::push`: it appends exactly the given character.
#[verifier::external_body]
pub(crate) fn push_char(s: &mut String, c: char)
    ensures
        final(s)@ == old(s)@.push(c),
{
    s.push(c)
}

/// Write the string yield of a syntax tree onto the end of `out`.
pub fn generate_string_in(a: &AST, out: &mut String)
    ensures
        final(out)@ == old(out)@ + ast_chars(*a),
    decreases *a,
{
    match a {
        AST::Token(c) => {
            push_char(out, *c);
            proof {
                assert(out@ =~= old(out)@ + ast_chars(*a));
            }
        },
        AST::Sequence(xs) => {
            let mut i: usize = 0;
            proof {
                assert(out@ =~= old(out)@ + ast_list_chars(xs@.subrange(0, 0)));
            }
            while i < xs.len()
                invariant
                    *a == AST::Sequence(*xs),
                    i <= xs@.len(),
                    out@ == old(out)@ + ast_list_chars(xs@.subrange(0, i as int)),
                decreases xs@.len() - i,
            {
                proof {
                    assert(decreases_to!(*a => a->Sequence_0));
                    assert(a->Sequence_0 == *xs);
                    assert(decreases_to!(*xs => xs@));
                    assert(decreases_to!(xs@ => xs@[i as int]));
                }
                generate_string_in(&xs[i], out);
                proof {
                    lemma_ast_list_chars_snoc(xs@, i as int);
                }
                i = i + 1;
            }
            proof {
                assert(xs@.subrange(0, xs@.len() as int) =~= xs@);
            }
        },
    }
}

/// The string yield of a syntax tree, as a fresh string.
pub fn ast_to_string(a: &AST) -> (r: String)
    ensures
        r@ == ast_chars(*a),
{
    let mut s = String::new();
    generate_string_in(a, &mut s);
    proof {
        assert(s@ =~= ast_chars(*a));
    }
    s
}

/// Extending a prefix of a sequence list by one element appends that
/// element's yield.
proof fn lemma_ast_list_chars_snoc(s: Seq<AST>, i: int)
    requires
        0 <= i < s.len(),
    ensures
        ast_list_chars(s.subrange(0, i + 1)) == ast_list_chars(s.subrange(0, i)) + ast_chars(s[i]),
    decreases i,
{
    let a = s.subrange(0, i + 1);
    let b = s.subrange(0, i);
    if i == 0 {
        assert(a.drop_first() =~= Seq::<AST>::empty());
        assert(b =~= Seq::<AST>::empty());
        assert(ast_list_chars(a) =~= ast_list_chars(b) + ast_chars(s[0]));
    } else {
        lemma_ast_list_chars_snoc(s.drop_first(), i - 1);
        assert(a.drop_first() =~= s.drop_first().subrange(0, i));
        assert(b.drop_first() =~= s.drop_first().subrange(0, i - 1));
        assert(s.drop_first().subrange(0, i)[i - 1] == s[i]);
        assert(ast_list_chars(a) == ast_chars(s[0]) + ast_list_chars(s.drop_first().subrange(0, i)));
        assert(ast_list_chars(s.subrange(0, i + 1)) =~= ast_list_chars(s.subrange(0, i))
            + ast_chars(s[i]));
    }
}

} // verus!
