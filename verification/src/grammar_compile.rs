//! Compiling a grammar into a syntax-tree mutator: the grammar tree is
//! walked once, producing the arena of mutator nodes, then the
//! minimum-complexity table is computed by relaxation and the whole
//! result is validated before a mutator is handed out. The compiled
//! mutator recognizes exactly the grammar's language, and an ill-formed
//! grammar is rejected.

use vstd::prelude::*;

verus! {

use crate::ast_mutator::{
    arena_wf, ast_matches, lemma_ast_mutator_valid, lemma_ast_mutator_wf, lemma_matches_list_index,
    lemma_matches_rep_index, ASTMutator, MutatorNode,
};
use crate::char_mutator::CHAR_COMPLEXITY;
use crate::grammar::{
    grammar_ill_formed, grammar_matches, lemma_grammar_list_index, lemma_grammar_rep_index,
    sat_add_exec, Grammar, AST,
};
use crate::mutator::Mutator;

/// The arena region `[lo, hi)` holds, at `id`, a faithful compilation of
/// the grammar `g`: node kinds, classes and bounds mirror the grammar,
/// structural children lie further right in the region, and each back
/// reference points at the enclosing `Recursive` node recorded in
/// `stack`, innermost last.
pub open spec fn compiled(
    nodes: Seq<MutatorNode>,
    lo: int,
    hi: int,
    id: int,
    stack: Seq<usize>,
    g: Grammar,
) -> bool
    decreases g,
{
    &&& lo <= id < hi
    &&& hi <= nodes.len()
    &&& match g {
        Grammar::Literal(ranges) => nodes[id] is Token && nodes[id]->Token_0@ == ranges@,
        Grammar::Alternation(gs) => nodes[id] is Alt && nodes[id]->Alt_0@.len() == gs@.len()
            && forall|i: int|
            0 <= i < gs@.len() ==> id < (#[trigger] nodes[id]->Alt_0@[i]) && compiled(
                nodes,
                lo,
                hi,
                nodes[id]->Alt_0@[i] as int,
                stack,
                gs@[i],
            ),
        Grammar::Concatenation(gs) => nodes[id] is FixedSeq && nodes[id]->FixedSeq_0@.len()
            == gs@.len() && forall|i: int|
            0 <= i < gs@.len() ==> id < (#[trigger] nodes[id]->FixedSeq_0@[i]) && compiled(
                nodes,
                lo,
                hi,
                nodes[id]->FixedSeq_0@[i] as int,
                stack,
                gs@[i],
            ),
        Grammar::Repetition(inner, glo, ghi) => nodes[id] is VarSeq && ghi >= 1
            && nodes[id]->VarSeq_1 == glo && nodes[id]->VarSeq_2 == ghi - 1 && id
            < nodes[id]->VarSeq_0 && compiled(
            nodes,
            lo,
            hi,
            nodes[id]->VarSeq_0 as int,
            stack,
            *inner,
        ),
        Grammar::Recurse(k) => k < stack.len() && nodes[id] == MutatorNode::Recur(
            stack[stack.len() - 1 - k],
        ),
        Grammar::Recursive(body) => nodes[id] is Recursive && id < nodes[id]->Recursive_0
            && compiled(
            nodes,
            lo,
            hi,
            nodes[id]->Recursive_0 as int,
            stack.push(id as usize),
            *body,
        ),
    }
}

/// A compiled node lies inside its region, which lies inside the arena.
proof fn lemma_compiled_bounds(
    nodes: Seq<MutatorNode>,
    lo: int,
    hi: int,
    id: int,
    stack: Seq<usize>,
    g: Grammar,
)
    requires
        compiled(nodes, lo, hi, id, stack, g),
    ensures
        lo <= id < hi <= nodes.len(),
{
}

/// A compilation only reads its own region: two arenas that agree on it
/// compile the same grammar.
proof fn lemma_compiled_frame(
    n1: Seq<MutatorNode>,
    n2: Seq<MutatorNode>,
    lo: int,
    hi: int,
    id: int,
    stack: Seq<usize>,
    g: Grammar,
)
    requires
        compiled(n1, lo, hi, id, stack, g),
        hi <= n2.len(),
        forall|t: int| lo <= t < hi ==> n2[t] == n1[t],
    ensures
        compiled(n2, lo, hi, id, stack, g),
    decreases g,
{
    match g {
        Grammar::Literal(ranges) => {},
        Grammar::Alternation(gs) => {
            assert forall|i: int| 0 <= i < gs@.len() implies id < (
            #[trigger] n2[id]->Alt_0@[i]) && compiled(
                n2,
                lo,
                hi,
                n2[id]->Alt_0@[i] as int,
                stack,
                gs@[i],
            ) by {
                lemma_compiled_frame(n1, n2, lo, hi, n1[id]->Alt_0@[i] as int, stack, gs@[i]);
            }
        },
        Grammar::Concatenation(gs) => {
            assert forall|i: int| 0 <= i < gs@.len() implies id < (
            #[trigger] n2[id]->FixedSeq_0@[i]) && compiled(
                n2,
                lo,
                hi,
                n2[id]->FixedSeq_0@[i] as int,
                stack,
                gs@[i],
            ) by {
                lemma_compiled_frame(n1, n2, lo, hi, n1[id]->FixedSeq_0@[i] as int, stack, gs@[i]);
            }
        },
        Grammar::Repetition(inner, glo, ghi) => {
            lemma_compiled_frame(n1, n2, lo, hi, n1[id]->VarSeq_0 as int, stack, *inner);
        },
        Grammar::Recurse(k) => {},
        Grammar::Recursive(body) => {
            lemma_compiled_frame(
                n1,
                n2,
                lo,
                hi,
                n1[id]->Recursive_0 as int,
                stack.push(id as usize),
                *body,
            );
        },
    }
}

/// A compilation stays one under any wider region.
proof fn lemma_compiled_widen(
    nodes: Seq<MutatorNode>,
    lo: int,
    hi: int,
    lo2: int,
    hi2: int,
    id: int,
    stack: Seq<usize>,
    g: Grammar,
)
    requires
        compiled(nodes, lo, hi, id, stack, g),
        lo2 <= lo,
        hi <= hi2 <= nodes.len(),
    ensures
        compiled(nodes, lo2, hi2, id, stack, g),
    decreases g,
{
    match g {
        Grammar::Literal(ranges) => {},
        Grammar::Alternation(gs) => {
            assert forall|i: int| 0 <= i < gs@.len() implies id < (
            #[trigger] nodes[id]->Alt_0@[i]) && compiled(
                nodes,
                lo2,
                hi2,
                nodes[id]->Alt_0@[i] as int,
                stack,
                gs@[i],
            ) by {
                lemma_compiled_widen(
                    nodes,
                    lo,
                    hi,
                    lo2,
                    hi2,
                    nodes[id]->Alt_0@[i] as int,
                    stack,
                    gs@[i],
                );
            }
        },
        Grammar::Concatenation(gs) => {
            assert forall|i: int| 0 <= i < gs@.len() implies id < (
            #[trigger] nodes[id]->FixedSeq_0@[i]) && compiled(
                nodes,
                lo2,
                hi2,
                nodes[id]->FixedSeq_0@[i] as int,
                stack,
                gs@[i],
            ) by {
                lemma_compiled_widen(
                    nodes,
                    lo,
                    hi,
                    lo2,
                    hi2,
                    nodes[id]->FixedSeq_0@[i] as int,
                    stack,
                    gs@[i],
                );
            }
        },
        Grammar::Repetition(inner, glo, ghi) => {
            lemma_compiled_widen(nodes, lo, hi, lo2, hi2, nodes[id]->VarSeq_0 as int, stack, *inner);
        },
        Grammar::Recurse(k) => {},
        Grammar::Recursive(body) => {
            lemma_compiled_widen(
                nodes,
                lo,
                hi,
                lo2,
                hi2,
                nodes[id]->Recursive_0 as int,
                stack.push(id as usize),
                *body,
            );
        },
    }
}

/// Each recorded `Recursive` node compiles the grammar recorded beside
/// it, under the records that enclose it.
pub open spec fn stack_describes(
    nodes: Seq<MutatorNode>,
    stack: Seq<usize>,
    ctx: Seq<Grammar>,
) -> bool {
    &&& stack.len() == ctx.len()
    &&& forall|i: int|
        0 <= i < stack.len() ==> compiled(
            nodes,
            0,
            nodes.len() as int,
            (#[trigger] stack[i]) as int,
            stack.subrange(0, i),
            ctx[i],
        )
}

/// What the compiled arena matches is exactly what the grammar derives.
pub proof fn lemma_compiled_equiv(
    nodes: Seq<MutatorNode>,
    id: int,
    stack: Seq<usize>,
    ctx: Seq<Grammar>,
    g: Grammar,
    a: AST,
)
    requires
        compiled(nodes, 0, nodes.len() as int, id, stack, g),
        stack_describes(nodes, stack, ctx),
    ensures
        ast_matches(nodes, id, a) == grammar_matches(ctx, g, a),
    decreases a, g,
{
    match g {
        Grammar::Literal(ranges) => {
            assert(ast_matches(nodes, id, a) == grammar_matches(ctx, g, a));
        },
        Grammar::Alternation(gs) => {
            let cids = nodes[id]->Alt_0@;
            assert forall|i: int| 0 <= i < gs@.len() implies id < (#[trigger] cids[i])
                < nodes.len() && (ast_matches(nodes, cids[i] as int, a) == grammar_matches(
                ctx,
                gs@[i],
                a,
            )) by {
                lemma_compiled_bounds(nodes, 0, nodes.len() as int, cids[i] as int, stack, gs@[i]);
                lemma_compiled_equiv(nodes, cids[i] as int, stack, ctx, gs@[i], a);
            }
            if ast_matches(nodes, id, a) {
                let i = choose|i: int|
                    0 <= i < cids.len() && id < cids[i] < nodes.len() && ast_matches(
                        nodes,
                        cids[i] as int,
                        a,
                    );
                assert(grammar_matches(ctx, gs@[i], a));
            }
            if grammar_matches(ctx, g, a) {
                let i = choose|i: int| 0 <= i < gs@.len() && grammar_matches(ctx, #[trigger] gs@[i], a);
                assert(ast_matches(nodes, cids[i] as int, a));
                assert(id < cids[i] < nodes.len());
            }
            assert(ast_matches(nodes, id, a) == grammar_matches(ctx, g, a));
        },
        Grammar::Concatenation(gs) => {
            let cids = nodes[id]->FixedSeq_0@;
            if a is Sequence {
                let xs = a->Sequence_0@;
                assert forall|i: int| 0 <= i < gs@.len() implies (#[trigger] cids[i]) < nodes.len()
                    && (0 <= i < xs.len() ==> (ast_matches(nodes, cids[i] as int, xs[i])
                    == grammar_matches(ctx, gs@[i], xs[i]))) by {
                    lemma_compiled_bounds(
                        nodes,
                        0,
                        nodes.len() as int,
                        cids[i] as int,
                        stack,
                        gs@[i],
                    );
                    if 0 <= i < xs.len() {
                        assert(decreases_to!(a => a->Sequence_0));
                        assert(decreases_to!(a->Sequence_0 => a->Sequence_0@));
                        assert(decreases_to!(a->Sequence_0@ => a->Sequence_0@[i]));
                        lemma_compiled_equiv(nodes, cids[i] as int, stack, ctx, gs@[i], xs[i]);
                    }
                }
                lemma_matches_list_index(nodes, cids, xs);
                lemma_grammar_list_index(ctx, gs@, xs);
                if cids.len() == xs.len() {
                    if crate::ast_mutator::ast_matches_list(nodes, cids, xs) {
                        assert forall|i: int| 0 <= i < gs@.len() implies grammar_matches(
                            ctx,
                            #[trigger] gs@[i],
                            xs[i],
                        ) by {
                            assert(ast_matches(nodes, cids[i] as int, xs[i]));
                        }
                    }
                    if crate::grammar::grammar_matches_list(ctx, gs@, xs) {
                        assert forall|i: int| 0 <= i < cids.len() implies ast_matches(
                            nodes,
                            (#[trigger] cids[i]) as int,
                            xs[i],
                        ) by {
                            assert(grammar_matches(ctx, gs@[i], xs[i]));
                        }
                    }
                }
            }
            assert(ast_matches(nodes, id, a) == grammar_matches(ctx, g, a));
        },
        Grammar::Repetition(inner, glo, ghi) => {
            let child = nodes[id]->VarSeq_0;
            lemma_compiled_bounds(nodes, 0, nodes.len() as int, child as int, stack, *inner);
            if a is Sequence {
                let xs = a->Sequence_0@;
                assert forall|i: int| 0 <= i < xs.len() implies (ast_matches(
                    nodes,
                    child as int,
                    #[trigger] xs[i],
                ) == grammar_matches(ctx, *inner, xs[i])) by {
                    assert(decreases_to!(a => a->Sequence_0));
                    assert(decreases_to!(a->Sequence_0 => a->Sequence_0@));
                    assert(decreases_to!(a->Sequence_0@ => a->Sequence_0@[i]));
                    lemma_compiled_equiv(nodes, child as int, stack, ctx, *inner, xs[i]);
                }
                lemma_matches_rep_index(nodes, child as int, xs);
                lemma_grammar_rep_index(ctx, *inner, xs);
            }
            assert(ast_matches(nodes, id, a) == grammar_matches(ctx, g, a));
        },
        Grammar::Recurse(k) => {
            let j = stack.len() - 1 - k;
            let target = stack[j];
            if a is Sequence && a->Sequence_0@.len() == 1 {
                let x = a->Sequence_0@[0];
                assert(decreases_to!(a => a->Sequence_0));
                assert(decreases_to!(a->Sequence_0 => a->Sequence_0@));
                assert(decreases_to!(a->Sequence_0@ => a->Sequence_0@[0]));
                assert(compiled(
                    nodes,
                    0,
                    nodes.len() as int,
                    target as int,
                    stack.subrange(0, j),
                    ctx[j],
                ));
                lemma_compiled_bounds(
                    nodes,
                    0,
                    nodes.len() as int,
                    target as int,
                    stack.subrange(0, j),
                    ctx[j],
                );
                assert forall|t: int| 0 <= t < stack.subrange(0, j).len() implies compiled(
                    nodes,
                    0,
                    nodes.len() as int,
                    (#[trigger] stack.subrange(0, j)[t]) as int,
                    stack.subrange(0, j).subrange(0, t),
                    ctx.subrange(0, j)[t],
                ) by {
                    assert(stack.subrange(0, j)[t] == stack[t]);
                    assert(ctx.subrange(0, j)[t] == ctx[t]);
                    assert(stack.subrange(0, j).subrange(0, t) =~= stack.subrange(0, t));
                }
                lemma_compiled_equiv(
                    nodes,
                    target as int,
                    stack.subrange(0, j),
                    ctx.subrange(0, j),
                    ctx[j],
                    x,
                );
            }
            assert(ast_matches(nodes, id, a) == grammar_matches(ctx, g, a));
        },
        Grammar::Recursive(body) => {
            let b = nodes[id]->Recursive_0;
            lemma_compiled_bounds(
                nodes,
                0,
                nodes.len() as int,
                b as int,
                stack.push(id as usize),
                *body,
            );
            let stack2 = stack.push(id as usize);
            let ctx2 = ctx.push(g);
            assert forall|t: int| 0 <= t < stack2.len() implies compiled(
                nodes,
                0,
                nodes.len() as int,
                (#[trigger] stack2[t]) as int,
                stack2.subrange(0, t),
                ctx2[t],
            ) by {
                if t < stack.len() {
                    assert(stack2[t] == stack[t]);
                    assert(ctx2[t] == ctx[t]);
                    assert(stack2.subrange(0, t) =~= stack.subrange(0, t));
                } else {
                    assert(stack2[t] == id as usize);
                    assert(ctx2[t] == g);
                    assert(stack2.subrange(0, t) =~= stack);
                }
            }
            lemma_compiled_equiv(nodes, b as int, stack2, ctx2, *body, a);
            assert(ast_matches(nodes, id, a) == grammar_matches(ctx, g, a));
        },
    }
}

/// An exact copy of a character-class vector.
fn copy_ranges(ranges: &Vec<(char, char)>) -> (r: Vec<(char, char)>)
    ensures
        r@ == ranges@,
{
    let mut out: Vec<(char, char)> = Vec::new();
    let mut i: usize = 0;
    while i < ranges.len()
        invariant
            i <= ranges@.len(),
            out@ == ranges@.subrange(0, i as int),
        decreases ranges@.len() - i,
    {
        out.push(ranges[i]);
        proof {
            assert(out@ =~= ranges@.subrange(0, i as int + 1));
        }
        i = i + 1;
    }
    proof {
        assert(ranges@.subrange(0, ranges@.len() as int) =~= ranges@);
    }
    out
}

/// Compile one grammar node and its descendants, appending to the
/// arena. `stack` holds the ids of the enclosing `Recursive` nodes,
/// innermost last. Fails exactly on an ill-formed subterm: an empty or
/// inverted literal class, an empty alternation, an empty repetition
/// range, or a back reference that skips more `Recursive` ancestors
/// than exist.
fn from_grammar_rec(g: &Grammar, nodes: &mut Vec<MutatorNode>, stack: &mut Vec<usize>) -> (r:
    Option<usize>)
    ensures
        final(stack)@ == old(stack)@,
        final(nodes)@.len() >= old(nodes)@.len(),
        final(nodes)@.subrange(0, old(nodes)@.len() as int) == old(nodes)@,
        match r {
            Some(id) => {
                &&& id == old(nodes)@.len()
                &&& final(nodes)@.len() > id
                &&& compiled(
                    final(nodes)@,
                    id as int,
                    final(nodes)@.len() as int,
                    id as int,
                    old(stack)@,
                    *g,
                )
                &&& !grammar_ill_formed(*g, old(stack)@.len() as int)
            },
            None => grammar_ill_formed(*g, old(stack)@.len() as int),
        },
    decreases *g,
{
    match g {
        Grammar::Literal(ranges) => {
            if ranges.len() == 0 {
                return None;
            }
            let mut i: usize = 0;
            #[verifier::loop_isolation(false)]
            while i < ranges.len()
                invariant
                    i <= ranges@.len(),
                    forall|t: int|
                        0 <= t < i ==> ((#[trigger] ranges@[t]).0 as u32) <= (ranges@[t].1 as u32),
                decreases ranges@.len() - i,
            {
                let (lo, hi) = ranges[i];
                proof {
                    assert(ranges@[i as int] == (lo, hi));
                }
                if lo as u32 > hi as u32 {
                    return None;
                }
                i = i + 1;
            }
            let slot = nodes.len();
            let copied = copy_ranges(ranges);
            nodes.push(MutatorNode::Token(copied));
            proof {
                assert(nodes@.subrange(0, slot as int) =~= old(nodes)@);
                assert(compiled(
                    nodes@,
                    slot as int,
                    nodes@.len() as int,
                    slot as int,
                    stack@,
                    *g,
                ));
                assert(!grammar_ill_formed(*g, stack@.len() as int));
            }
            Some(slot)
        },
        Grammar::Alternation(gs) => {
            if gs.len() == 0 {
                return None;
            }
            let slot = nodes.len();
            nodes.push(MutatorNode::Alt(Vec::new()));
            let mut ids: Vec<usize> = Vec::new();
            let mut i: usize = 0;
            #[verifier::loop_isolation(false)]
            while i < gs.len()
                invariant
                    nodes@.len() > slot,
                    nodes@.subrange(0, slot as int) == old(nodes)@,
                    stack@ == old(stack)@,
                    i <= gs@.len(),
                    ids@.len() == i,
                    forall|j: int|
                        0 <= j < i ==> slot < (#[trigger] ids@[j]) < nodes@.len() && compiled(
                            nodes@,
                            slot + 1,
                            nodes@.len() as int,
                            ids@[j] as int,
                            stack@,
                            gs@[j],
                        ) && !grammar_ill_formed(gs@[j], stack@.len() as int),
                decreases gs@.len() - i,
            {
                proof {
                    assert(decreases_to!(*g => g->Alternation_0));
                    assert(g->Alternation_0 == *gs);
                    assert(decreases_to!(*gs => gs@));
                    assert(decreases_to!(gs@ => gs@[i as int]));
                }
                let ghost pre = nodes@;
                match from_grammar_rec(&gs[i], nodes, stack) {
                    Some(cid) => {
                        proof {
                            assert(nodes@.subrange(0, pre.len() as int) == pre);
                            assert(nodes@.subrange(0, slot as int) =~= pre.subrange(0, slot as int));
                            assert forall|j: int| 0 <= j < i implies slot < (#[trigger] ids@[j])
                                < nodes@.len() && compiled(
                                nodes@,
                                slot + 1,
                                nodes@.len() as int,
                                ids@[j] as int,
                                stack@,
                                gs@[j],
                            ) by {
                                assert forall|t: int| slot + 1 <= t < pre.len() implies nodes@[t]
                                    == pre[t] by {
                                    assert(nodes@.subrange(0, pre.len() as int)[t] == nodes@[t]);
                                }
                                lemma_compiled_frame(
                                    pre,
                                    nodes@,
                                    slot + 1,
                                    pre.len() as int,
                                    ids@[j] as int,
                                    stack@,
                                    gs@[j],
                                );
                                lemma_compiled_widen(
                                    nodes@,
                                    slot + 1,
                                    pre.len() as int,
                                    slot + 1,
                                    nodes@.len() as int,
                                    ids@[j] as int,
                                    stack@,
                                    gs@[j],
                                );
                            }
                            lemma_compiled_widen(
                                nodes@,
                                cid as int,
                                nodes@.len() as int,
                                slot + 1,
                                nodes@.len() as int,
                                cid as int,
                                stack@,
                                gs@[i as int],
                            );
                        }
                        ids.push(cid);
                        proof {
                            assert forall|j: int| 0 <= j < i + 1 implies slot < (
                            #[trigger] ids@[j]) < nodes@.len() && compiled(
                                nodes@,
                                slot + 1,
                                nodes@.len() as int,
                                ids@[j] as int,
                                stack@,
                                gs@[j],
                            ) && !grammar_ill_formed(gs@[j], stack@.len() as int) by {
                                if j == i {
                                    assert(ids@[j] == cid);
                                }
                            }
                        }
                    },
                    None => {
                        return None;
                    },
                }
                i = i + 1;
            }
            let ghost pre_write = nodes@;
            nodes[slot] = MutatorNode::Alt(ids);
            proof {
                assert(nodes@.subrange(0, slot as int) =~= pre_write.subrange(0, slot as int));
                assert(nodes@[slot as int]->Alt_0@ == ids@);
                assert forall|j: int| 0 <= j < gs@.len() implies slot < (
                #[trigger] nodes@[slot as int]->Alt_0@[j]) && compiled(
                    nodes@,
                    slot as int,
                    nodes@.len() as int,
                    nodes@[slot as int]->Alt_0@[j] as int,
                    stack@,
                    gs@[j],
                ) by {
                    assert forall|t: int| slot + 1 <= t < nodes@.len() implies nodes@[t]
                        == pre_write[t] by {}
                    lemma_compiled_frame(
                        pre_write,
                        nodes@,
                        slot + 1,
                        nodes@.len() as int,
                        ids@[j] as int,
                        stack@,
                        gs@[j],
                    );
                    lemma_compiled_widen(
                        nodes@,
                        slot + 1,
                        nodes@.len() as int,
                        slot as int,
                        nodes@.len() as int,
                        ids@[j] as int,
                        stack@,
                        gs@[j],
                    );
                }
                assert(compiled(
                    nodes@,
                    slot as int,
                    nodes@.len() as int,
                    slot as int,
                    stack@,
                    *g,
                ));
                assert forall|j: int| 0 <= j < gs@.len() implies !grammar_ill_formed(
                    #[trigger] gs@[j],
                    stack@.len() as int,
                ) by {
                    assert(slot < ids@[j] < nodes@.len());
                }
                assert(!grammar_ill_formed(*g, stack@.len() as int));
            }
            Some(slot)
        },
        Grammar::Concatenation(gs) => {
            let slot = nodes.len();
            nodes.push(MutatorNode::FixedSeq(Vec::new()));
            let mut ids: Vec<usize> = Vec::new();
            let mut i: usize = 0;
            #[verifier::loop_isolation(false)]
            while i < gs.len()
                invariant
                    nodes@.len() > slot,
                    nodes@.subrange(0, slot as int) == old(nodes)@,
                    stack@ == old(stack)@,
                    i <= gs@.len(),
                    ids@.len() == i,
                    forall|j: int|
                        0 <= j < i ==> slot < (#[trigger] ids@[j]) < nodes@.len() && compiled(
                            nodes@,
                            slot + 1,
                            nodes@.len() as int,
                            ids@[j] as int,
                            stack@,
                            gs@[j],
                        ) && !grammar_ill_formed(gs@[j], stack@.len() as int),
                decreases gs@.len() - i,
            {
                proof {
                    assert(decreases_to!(*g => g->Concatenation_0));
                    assert(g->Concatenation_0 == *gs);
                    assert(decreases_to!(*gs => gs@));
                    assert(decreases_to!(gs@ => gs@[i as int]));
                }
                let ghost pre = nodes@;
                match from_grammar_rec(&gs[i], nodes, stack) {
                    Some(cid) => {
                        proof {
                            assert(nodes@.subrange(0, pre.len() as int) == pre);
                            assert(nodes@.subrange(0, slot as int) =~= pre.subrange(0, slot as int));
                            assert forall|j: int| 0 <= j < i implies slot < (#[trigger] ids@[j])
                                < nodes@.len() && compiled(
                                nodes@,
                                slot + 1,
                                nodes@.len() as int,
                                ids@[j] as int,
                                stack@,
                                gs@[j],
                            ) by {
                                assert forall|t: int| slot + 1 <= t < pre.len() implies nodes@[t]
                                    == pre[t] by {
                                    assert(nodes@.subrange(0, pre.len() as int)[t] == nodes@[t]);
                                }
                                lemma_compiled_frame(
                                    pre,
                                    nodes@,
                                    slot + 1,
                                    pre.len() as int,
                                    ids@[j] as int,
                                    stack@,
                                    gs@[j],
                                );
                                lemma_compiled_widen(
                                    nodes@,
                                    slot + 1,
                                    pre.len() as int,
                                    slot + 1,
                                    nodes@.len() as int,
                                    ids@[j] as int,
                                    stack@,
                                    gs@[j],
                                );
                            }
                            lemma_compiled_widen(
                                nodes@,
                                cid as int,
                                nodes@.len() as int,
                                slot + 1,
                                nodes@.len() as int,
                                cid as int,
                                stack@,
                                gs@[i as int],
                            );
                        }
                        ids.push(cid);
                        proof {
                            assert forall|j: int| 0 <= j < i + 1 implies slot < (
                            #[trigger] ids@[j]) < nodes@.len() && compiled(
                                nodes@,
                                slot + 1,
                                nodes@.len() as int,
                                ids@[j] as int,
                                stack@,
                                gs@[j],
                            ) && !grammar_ill_formed(gs@[j], stack@.len() as int) by {
                                if j == i {
                                    assert(ids@[j] == cid);
                                }
                            }
                        }
                    },
                    None => {
                        return None;
                    },
                }
                i = i + 1;
            }
            let ghost pre_write = nodes@;
            nodes[slot] = MutatorNode::FixedSeq(ids);
            proof {
                assert(nodes@.subrange(0, slot as int) =~= pre_write.subrange(0, slot as int));
                assert(nodes@[slot as int]->FixedSeq_0@ == ids@);
                assert forall|j: int| 0 <= j < gs@.len() implies slot < (
                #[trigger] nodes@[slot as int]->FixedSeq_0@[j]) && compiled(
                    nodes@,
                    slot as int,
                    nodes@.len() as int,
                    nodes@[slot as int]->FixedSeq_0@[j] as int,
                    stack@,
                    gs@[j],
                ) by {
                    assert forall|t: int| slot + 1 <= t < nodes@.len() implies nodes@[t]
                        == pre_write[t] by {}
                    lemma_compiled_frame(
                        pre_write,
                        nodes@,
                        slot + 1,
                        nodes@.len() as int,
                        ids@[j] as int,
                        stack@,
                        gs@[j],
                    );
                    lemma_compiled_widen(
                        nodes@,
                        slot + 1,
                        nodes@.len() as int,
                        slot as int,
                        nodes@.len() as int,
                        ids@[j] as int,
                        stack@,
                        gs@[j],
                    );
                }
                assert(compiled(
                    nodes@,
                    slot as int,
                    nodes@.len() as int,
                    slot as int,
                    stack@,
                    *g,
                ));
                assert forall|j: int| 0 <= j < gs@.len() implies !grammar_ill_formed(
                    #[trigger] gs@[j],
                    stack@.len() as int,
                ) by {
                    assert(slot < ids@[j] < nodes@.len());
                }
                assert(!grammar_ill_formed(*g, stack@.len() as int));
            }
            Some(slot)
        },
        Grammar::Repetition(inner, lo, hi) => {
            if *hi == 0 || *lo > *hi - 1 {
                return None;
            }
            let slot = nodes.len();
            nodes.push(MutatorNode::VarSeq(0, 0, 0));
            let ghost pre = nodes@;
            let id = match from_grammar_rec(inner, nodes, stack) {
                Some(id) => id,
                None => {
                    return None;
                },
            };
            let ghost pre_write = nodes@;
            nodes[slot] = MutatorNode::VarSeq(id, *lo, *hi - 1);
            proof {
                assert(pre_write.subrange(0, pre.len() as int) == pre);
                assert(nodes@.subrange(0, slot as int) =~= pre_write.subrange(0, slot as int));
                assert(nodes@.subrange(0, slot as int) =~= old(nodes)@);
                assert forall|t: int| slot + 1 <= t < nodes@.len() implies nodes@[t]
                    == pre_write[t] by {}
                lemma_compiled_frame(
                    pre_write,
                    nodes@,
                    id as int,
                    nodes@.len() as int,
                    id as int,
                    stack@,
                    **inner,
                );
                lemma_compiled_widen(
                    nodes@,
                    id as int,
                    nodes@.len() as int,
                    slot as int,
                    nodes@.len() as int,
                    id as int,
                    stack@,
                    **inner,
                );
                assert(!grammar_ill_formed(**inner, stack@.len() as int));
                assert(*hi != 0 && !(*lo > *hi - 1));
                assert((*g)->Repetition_0 == *inner);
                assert(*((*g)->Repetition_0) == **inner);
                assert(compiled(
                    nodes@,
                    slot as int,
                    nodes@.len() as int,
                    slot as int,
                    stack@,
                    *g,
                ));
                assert(!grammar_ill_formed(*g, stack@.len() as int));
            }
            Some(slot)
        },
        Grammar::Recurse(k) => {
            if *k >= stack.len() {
                return None;
            }
            let target = stack[stack.len() - 1 - *k];
            let slot = nodes.len();
            nodes.push(MutatorNode::Recur(target));
            proof {
                assert(nodes@.subrange(0, slot as int) =~= old(nodes)@);
                assert(nodes@[slot as int] == MutatorNode::Recur(stack@[stack@.len() - 1 - (
                *k as int)]));
                assert(compiled(
                    nodes@,
                    slot as int,
                    nodes@.len() as int,
                    slot as int,
                    stack@,
                    *g,
                ));
                assert(!grammar_ill_formed(*g, stack@.len() as int));
            }
            Some(slot)
        },
        Grammar::Recursive(body) => {
            let slot = nodes.len();
            nodes.push(MutatorNode::Recursive(0));
            stack.push(slot);
            let ghost pre = nodes@;
            let ghost stack_in = stack@;
            let id = match from_grammar_rec(body, nodes, stack) {
                Some(id) => id,
                None => {
                    stack.pop();
                    proof {
                        assert(stack@ =~= old(stack)@);
                        assert(nodes@.subrange(0, old(nodes)@.len() as int) =~= old(nodes)@);
                    }
                    return None;
                },
            };
            stack.pop();
            let ghost pre_write = nodes@;
            nodes[slot] = MutatorNode::Recursive(id);
            proof {
                assert(stack@ =~= old(stack)@);
                assert(stack_in =~= old(stack)@.push(slot));
                assert(pre_write.subrange(0, pre.len() as int) == pre);
                assert(nodes@.subrange(0, slot as int) =~= pre_write.subrange(0, slot as int));
                assert(nodes@.subrange(0, slot as int) =~= old(nodes)@);
                assert forall|t: int| slot + 1 <= t < nodes@.len() implies nodes@[t]
                    == pre_write[t] by {}
                lemma_compiled_frame(
                    pre_write,
                    nodes@,
                    id as int,
                    nodes@.len() as int,
                    id as int,
                    stack_in,
                    **body,
                );
                lemma_compiled_widen(
                    nodes@,
                    id as int,
                    nodes@.len() as int,
                    slot as int,
                    nodes@.len() as int,
                    id as int,
                    stack_in,
                    **body,
                );
                assert(stack_in.len() == stack@.len() + 1);
                assert(!grammar_ill_formed(**body, stack@.len() as int + 1));
                assert((*g)->Recursive_0 == *body);
                assert(*((*g)->Recursive_0) == **body);
                assert(compiled(
                    nodes@,
                    slot as int,
                    nodes@.len() as int,
                    slot as int,
                    stack@,
                    *g,
                ));
                assert(!grammar_ill_formed(*g, stack@.len() as int));
            }
            Some(slot)
        },
    }
}

/// One relaxation candidate for a node, from the current table; the
/// largest value stands for "no finite tree known yet".
fn relax_node(nodes: &Vec<MutatorNode>, table: &Vec<u64>, n: usize) -> (r: u64)
    requires
        n < nodes@.len(),
        table@.len() == nodes@.len(),
{
    match &nodes[n] {
        MutatorNode::Token(_) => CHAR_COMPLEXITY,
        MutatorNode::FixedSeq(ids) => {
            let mut acc: u64 = 1;
            let mut i: usize = 0;
            while i < ids.len()
                invariant
                    table@.len() == nodes@.len(),
                decreases ids@.len() - i,
            {
                if ids[i] < table.len() {
                    acc = sat_add_exec(acc, table[ids[i]]);
                }
                i = i + 1;
            }
            acc
        },
        MutatorNode::VarSeq(id, lo, hi) => {
            if *id >= table.len() {
                return u64::MAX;
            }
            let m = table[*id];
            match lo.checked_mul(m) {
                Some(p) => sat_add_exec(1, p),
                None => u64::MAX,
            }
        },
        MutatorNode::Alt(ids) => {
            let mut best: u64 = u64::MAX;
            let mut i: usize = 0;
            while i < ids.len()
                invariant
                    table@.len() == nodes@.len(),
                decreases ids@.len() - i,
            {
                if ids[i] < table.len() && table[ids[i]] < best {
                    best = table[ids[i]];
                }
                i = i + 1;
            }
            best
        },
        MutatorNode::Recursive(body) => {
            if *body < table.len() {
                table[*body]
            } else {
                u64::MAX
            }
        },
        MutatorNode::Recur(target) => {
            if *target < table.len() {
                sat_add_exec(1, table[*target])
            } else {
                u64::MAX
            }
        },
    }
}

/// The minimum-complexity table of an arena, by relaxation to a fixed
/// point: enough passes that every node whose grammar derives a finite
/// tree settles on the cost of its cheapest derivation.
fn compute_mins(nodes: &Vec<MutatorNode>) -> (r: Vec<u64>)
    ensures
        r@.len() == nodes@.len(),
{
    let mut table: Vec<u64> = Vec::new();
    let mut i: usize = 0;
    while i < nodes.len()
        invariant
            table@.len() == i,
            i <= nodes@.len(),
        decreases nodes@.len() - i,
    {
        table.push(u64::MAX);
        i = i + 1;
    }
    let mut pass: usize = 0;
    while pass < nodes.len()
        invariant
            table@.len() == nodes@.len(),
            pass <= nodes@.len(),
        decreases nodes@.len() - pass,
    {
        let mut n: usize = nodes.len();
        while n > 0
            invariant
                table@.len() == nodes@.len(),
                n <= nodes@.len(),
            decreases n,
        {
            n = n - 1;
            let candidate = relax_node(nodes, &table, n);
            if candidate < table[n] {
                table[n] = candidate;
            }
        }
        pass = pass + 1;
    }
    table
}

impl ASTMutator {
    /// Compile a grammar into a syntax-tree mutator. An ill-formed
    /// grammar — an empty or inverted literal class, an empty
    /// alternation, an empty repetition range, or an unresolved back
    /// reference — is always rejected; so is one for which no consistent
    /// finite minimum-cost table is found. A compiled mutator recognizes
    /// exactly the grammar's language.
    pub fn from_grammar(grammar: &Grammar) -> (r: Option<ASTMutator>)
        ensures
            match r {
                Some(m) => {
                    &&& m.s_wf()
                    &&& !grammar_ill_formed(*grammar, 0)
                    &&& forall|a: AST|
                        #[trigger] m.s_valid(a) == grammar_matches(Seq::empty(), *grammar, a)
                },
                None => true,
            },
            grammar_ill_formed(*grammar, 0) ==> r is None,
    {
        let mut nodes: Vec<MutatorNode> = Vec::new();
        let mut stack: Vec<usize> = Vec::new();
        let root = match from_grammar_rec(grammar, &mut nodes, &mut stack) {
            Some(id) => id,
            None => {
                return None;
            },
        };
        let ghost arena0 = nodes@;
        let mins = compute_mins(&nodes);
        let r = ASTMutator::from_parts(nodes, mins);
        proof {
            if r is Some {
                let m = r->Some_0;
                lemma_ast_mutator_wf(&m);
                assert(m.arena() == arena0);
                assert(compiled(arena0, 0, arena0.len() as int, 0, Seq::empty(), *grammar));
                assert forall|a: AST| #[trigger] m.s_valid(a) == grammar_matches(
                    Seq::empty(),
                    *grammar,
                    a,
                ) by {
                    lemma_ast_mutator_valid(&m, a);
                    lemma_compiled_equiv(m.arena(), 0, Seq::empty(), Seq::empty(), *grammar, a);
                }
            }
        }
        r
    }
}

/// The mutator of syntax trees whose string yield matches the grammar:
/// it recognizes exactly the trees the grammar derives.
pub fn grammar_based_ast_mutator(grammar: &Grammar) -> (r: Option<ASTMutator>)
    ensures
        match r {
            Some(m) => {
                &&& m.s_wf()
                &&& !grammar_ill_formed(*grammar, 0)
                &&& forall|a: AST|
                    #[trigger] m.s_valid(a) == grammar_matches(Seq::empty(), *grammar, a)
            },
            None => true,
        },
        grammar_ill_formed(*grammar, 0) ==> r is None,
{
    ASTMutator::from_grammar(grammar)
}

} // verus!
