//! The grammar-driven syntax-tree mutator: a grammar is compiled into an
//! arena of mutator nodes with stable integer ids, cycles expressed as
//! id-to-id edges. The arena decides which syntax trees belong to the
//! grammar and generates fresh trees within a complexity budget.

use vstd::prelude::*;

verus! {

use crate::char_mutator::{char_from_u32, random_u32_in, CHAR_COMPLEXITY};
use crate::mutator::Mutator;
use crate::grammar::{AST, ast_cplx, ast_list_cplx, sat_add};

/// One compiled grammar node. Structural children always carry larger
/// ids than their parent; only a `Recur` edge points back, at an
/// enclosing `Recursive` node.
pub enum MutatorNode {
    /// A single character from a class: a union of inclusive ranges.
    Token(Vec<(char, char)>),
    /// A sequence with one fixed child grammar per element.
    FixedSeq(Vec<usize>),
    /// A sequence of between `lo` and `hi` (inclusive) elements of one
    /// child grammar.
    VarSeq(usize, u64, u64),
    /// One of several alternatives.
    Alt(Vec<usize>),
    /// The owning node of a cycle.
    Recursive(usize),
    /// A back edge to a `Recursive` node; the value consumes one
    /// sequence wrapper per traversal, which keeps matching finite.
    Recur(usize),
}

/// The character lies in one of the class's inclusive ranges.
pub open spec fn char_in_class(ranges: Seq<(char, char)>, c: char) -> bool {
    crate::grammar::class_has(ranges, c)
}

/// Structural well-formedness of one arena node.
pub open spec fn node_wf(nodes: Seq<MutatorNode>, n: int) -> bool {
    match nodes[n] {
        MutatorNode::Token(ranges) => ranges@.len() > 0 && forall|i: int|
            0 <= i < ranges@.len() ==> ((#[trigger] ranges@[i]).0 as u32) <= (ranges@[i].1 as u32),
        MutatorNode::FixedSeq(ids) => forall|i: int|
            0 <= i < ids@.len() ==> n < #[trigger] ids@[i] < nodes.len(),
        MutatorNode::VarSeq(id, lo, hi) => n < id < nodes.len() && lo <= hi,
        MutatorNode::Alt(ids) => ids@.len() > 0 && forall|i: int|
            0 <= i < ids@.len() ==> n < #[trigger] ids@[i] < nodes.len(),
        MutatorNode::Recursive(body) => n < body < nodes.len(),
        MutatorNode::Recur(target) => target < nodes.len() && nodes[target as int]
            is Recursive,
    }
}

/// Structural well-formedness of the whole arena.
pub open spec fn arena_wf(nodes: Seq<MutatorNode>) -> bool {
    nodes.len() > 0 && forall|n: int| 0 <= n < nodes.len() ==> #[trigger] node_wf(nodes, n)
}

/// The syntax tree `a` belongs to the grammar rooted at node `n`.
pub open spec fn ast_matches(nodes: Seq<MutatorNode>, n: int, a: AST) -> bool
    decreases a, nodes.len() - n,
    when 0 <= n < nodes.len()
{
    match nodes[n] {
        MutatorNode::Token(ranges) => a is Token && char_in_class(ranges@, a->Token_0),
        MutatorNode::FixedSeq(ids) => a is Sequence && ids@.len() == a->Sequence_0@.len()
            && ast_matches_list(nodes, ids@, a->Sequence_0@),
        MutatorNode::VarSeq(id, lo, hi) => a is Sequence && lo <= a->Sequence_0@.len() <= hi
            && ast_matches_rep(nodes, id as int, a->Sequence_0@),
        MutatorNode::Alt(ids) => exists|i: int|
            0 <= i < ids@.len() && n < ids@[i] < nodes.len() && ast_matches(
                nodes,
                ids@[i] as int,
                a,
            ),
        MutatorNode::Recursive(body) => n < body < nodes.len() && ast_matches(
            nodes,
            body as int,
            a,
        ),
        MutatorNode::Recur(target) => a is Sequence && a->Sequence_0@.len() == 1 && target
            < nodes.len() && ast_matches(nodes, target as int, a->Sequence_0@[0]),
    }
}

/// Each element matches the child grammar at the same position.
pub open spec fn ast_matches_list(nodes: Seq<MutatorNode>, ids: Seq<usize>, xs: Seq<AST>) -> bool
    decreases xs, ids.len(),
{
    if ids.len() != xs.len() {
        false
    } else if ids.len() == 0 {
        true
    } else {
        ids[0] < nodes.len() && ast_matches(nodes, ids[0] as int, xs[0]) && ast_matches_list(
            nodes,
            ids.drop_first(),
            xs.drop_first(),
        )
    }
}

/// Each element matches the one child grammar.
pub open spec fn ast_matches_rep(nodes: Seq<MutatorNode>, id: int, xs: Seq<AST>) -> bool
    decreases xs, 0int,
{
    if xs.len() == 0 {
        true
    } else {
        0 <= id < nodes.len() && ast_matches(nodes, id, xs[0]) && ast_matches_rep(
            nodes,
            id,
            xs.drop_first(),
        )
    }
}

/// A fixed-length list matches exactly when it has the right length and
/// every element matches positionally.
pub proof fn lemma_matches_list_index(nodes: Seq<MutatorNode>, ids: Seq<usize>, xs: Seq<AST>)
    requires
        forall|i: int| 0 <= i < ids.len() ==> #[trigger] ids[i] < nodes.len(),
    ensures
        ast_matches_list(nodes, ids, xs) <==> (ids.len() == xs.len() && forall|i: int|
            0 <= i < ids.len() ==> ast_matches(nodes, #[trigger] ids[i] as int, xs[i])),
    decreases xs.len(),
{
    if ids.len() == xs.len() && ids.len() > 0 {
        lemma_matches_list_index(nodes, ids.drop_first(), xs.drop_first());
        if ast_matches_list(nodes, ids, xs) {
            assert forall|i: int| 0 <= i < ids.len() implies ast_matches(
                nodes,
                #[trigger] ids[i] as int,
                xs[i],
            ) by {
                if i > 0 {
                    assert(ids.drop_first()[i - 1] == ids[i]);
                    assert(xs.drop_first()[i - 1] == xs[i]);
                }
            }
        }
        if ids.len() == xs.len() && forall|i: int|
            0 <= i < ids.len() ==> ast_matches(nodes, #[trigger] ids[i] as int, xs[i]) {
            assert forall|i: int| 0 <= i < ids.drop_first().len() implies ast_matches(
                nodes,
                #[trigger] ids.drop_first()[i] as int,
                xs.drop_first()[i],
            ) by {
                assert(ids.drop_first()[i] == ids[i + 1]);
                assert(xs.drop_first()[i] == xs[i + 1]);
            }
            assert(ast_matches(nodes, ids[0] as int, xs[0]));
        }
    }
}

/// A repeated list matches exactly when every element matches the one
/// child grammar.
pub proof fn lemma_matches_rep_index(nodes: Seq<MutatorNode>, id: int, xs: Seq<AST>)
    requires
        0 <= id < nodes.len(),
    ensures
        ast_matches_rep(nodes, id, xs) <==> forall|i: int|
            0 <= i < xs.len() ==> ast_matches(nodes, id, #[trigger] xs[i]),
    decreases xs.len(),
{
    if xs.len() > 0 {
        lemma_matches_rep_index(nodes, id, xs.drop_first());
        if ast_matches_rep(nodes, id, xs) {
            assert forall|i: int| 0 <= i < xs.len() implies ast_matches(
                nodes,
                id,
                #[trigger] xs[i],
            ) by {
                if i > 0 {
                    assert(xs.drop_first()[i - 1] == xs[i]);
                }
            }
        }
        if forall|i: int| 0 <= i < xs.len() ==> ast_matches(nodes, id, #[trigger] xs[i]) {
            assert forall|i: int| 0 <= i < xs.drop_first().len() implies ast_matches(
                nodes,
                id,
                #[trigger] xs.drop_first()[i],
            ) by {
                assert(xs.drop_first()[i] == xs[i + 1]);
            }
            assert(ast_matches(nodes, id, xs[0]));
        }
    }
}

/// Does the character lie in the class?
fn check_char_in_class(ranges: &Vec<(char, char)>, c: char) -> (r: bool)
    ensures
        r == char_in_class(ranges@, c),
{
    let code = c as u32;
    let mut i: usize = 0;
    while i < ranges.len()
        invariant
            code == c as u32,
            i <= ranges@.len(),
            forall|j: int|
                0 <= j < i ==> !(((#[trigger] ranges@[j]).0 as u32) <= (c as u32) <= (
                ranges@[j].1 as u32)),
        decreases ranges@.len() - i,
    {
        let (lo, hi) = ranges[i];
        proof {
            assert(ranges@[i as int] == (lo, hi));
        }
        if lo as u32 <= code && code <= hi as u32 {
            proof {
                assert((ranges@[i as int].0 as u32) <= (c as u32) <= (ranges@[i as int].1 as u32));
            }
            return true;
        }
        proof {
            assert(!(((ranges@[i as int]).0 as u32) <= (c as u32) <= (ranges@[i as int].1 as u32)));
        }
        i = i + 1;
    }
    false
}

/// Does the syntax tree belong to the grammar rooted at node `n`?
pub fn check_matches(nodes: &Vec<MutatorNode>, n: usize, a: &AST) -> (r: bool)
    requires
        arena_wf(nodes@),
        n < nodes@.len(),
    ensures
        r == ast_matches(nodes@, n as int, *a),
    decreases *a, nodes@.len() - n,
{
    proof {
        assert(node_wf(nodes@, n as int));
    }
    match &nodes[n] {
        MutatorNode::Token(ranges) => {
            match a {
                AST::Token(c) => check_char_in_class(ranges, *c),
                _ => false,
            }
        },
        MutatorNode::FixedSeq(ids) => {
            match a {
                AST::Sequence(xs) => {
                    if ids.len() != xs.len() {
                        proof {
                            lemma_matches_list_index(nodes@, ids@, xs@);
                        }
                        false
                    } else {
                        let mut i: usize = 0;
                        let mut ok = true;
                        while i < ids.len()
                            invariant
                                arena_wf(nodes@),
                                n < nodes@.len(),
                                nodes@[n as int] == MutatorNode::FixedSeq(*ids),
                                *a == AST::Sequence(*xs),
                                ids@.len() == xs@.len(),
                                i <= ids@.len(),
                                ok == forall|j: int|
                                    0 <= j < i ==> ast_matches(
                                        nodes@,
                                        #[trigger] ids@[j] as int,
                                        xs@[j],
                                    ),
                            decreases ids@.len() - i,
                        {
                            proof {
                                assert(decreases_to!(*a => a->Sequence_0));
                                assert(a->Sequence_0 == *xs);
                                assert(decreases_to!(*xs => xs@));
                                assert(decreases_to!(xs@ => xs@[i as int]));
                                assert(node_wf(nodes@, n as int));
                                assert(nodes@[n as int]->FixedSeq_0 == *ids);
                                assert(n < ids@[i as int] < nodes@.len());
                            }
                            let child_ok = check_matches(nodes, ids[i], &xs[i]);
                            ok = ok && child_ok;
                            i = i + 1;
                        }
                        proof {
                            lemma_matches_list_index(nodes@, ids@, xs@);
                        }
                        ok
                    }
                },
                _ => false,
            }
        },
        MutatorNode::VarSeq(id, lo, hi) => {
            match a {
                AST::Sequence(xs) => {
                    let len = xs.len() as u64;
                    if len < *lo || len > *hi {
                        false
                    } else {
                        let mut i: usize = 0;
                        let mut ok = true;
                        while i < xs.len()
                            invariant
                                arena_wf(nodes@),
                                n < nodes@.len(),
                                nodes@[n as int] == MutatorNode::VarSeq(*id, *lo, *hi),
                                *a == AST::Sequence(*xs),
                                i <= xs@.len(),
                                ok == forall|j: int|
                                    0 <= j < i ==> ast_matches(nodes@, *id as int, #[trigger] xs@[j]),
                            decreases xs@.len() - i,
                        {
                            proof {
                                assert(decreases_to!(*a => a->Sequence_0));
                                assert(a->Sequence_0 == *xs);
                                assert(decreases_to!(*xs => xs@));
                                assert(decreases_to!(xs@ => xs@[i as int]));
                                assert(node_wf(nodes@, n as int));
                                assert(n < *id < nodes@.len());
                            }
                            let child_ok = check_matches(nodes, *id, &xs[i]);
                            ok = ok && child_ok;
                            i = i + 1;
                        }
                        proof {
                            lemma_matches_rep_index(nodes@, *id as int, xs@);
                        }
                        ok
                    }
                },
                _ => false,
            }
        },
        MutatorNode::Alt(ids) => {
            let mut i: usize = 0;
            while i < ids.len()
                invariant
                    arena_wf(nodes@),
                    n < nodes@.len(),
                    nodes@[n as int] == MutatorNode::Alt(*ids),
                    i <= ids@.len(),
                    forall|j: int|
                        0 <= j < i ==> !ast_matches(nodes@, #[trigger] ids@[j] as int, *a),
                decreases ids@.len() - i,
            {
                proof {
                    assert(node_wf(nodes@, n as int));
                    assert(n < ids@[i as int] < nodes@.len());
                }
                if check_matches(nodes, ids[i], a) {
                    return true;
                }
                i = i + 1;
            }
            false
        },
        MutatorNode::Recursive(body) => check_matches(nodes, *body, a),
        MutatorNode::Recur(target) => {
            match a {
                AST::Sequence(xs) => {
                    if xs.len() != 1 {
                        false
                    } else {
                        proof {
                            assert(decreases_to!(*a => a->Sequence_0));
                            assert(a->Sequence_0 == *xs);
                            assert(decreases_to!(*xs => xs@));
                            assert(decreases_to!(xs@ => xs@[0]));
                        }
                        check_matches(nodes, *target, &xs[0])
                    }
                },
                _ => false,
            }
        },
    }
}

/// The integer sum of the complexities of a list of trees.
pub open spec fn cplx_sum(s: Seq<AST>) -> int
    decreases s,
{
    if s.len() == 0 {
        0int
    } else {
        ast_cplx(s[0]) + cplx_sum(s.drop_first())
    }
}

/// The integer sum of the minimum complexities of a list of nodes.
pub open spec fn sum_min(mins: Seq<u64>, ids: Seq<usize>) -> int
    decreases ids,
{
    if ids.len() == 0 {
        0int
    } else {
        mins[ids[0] as int] + sum_min(mins, ids.drop_first())
    }
}

/// The smaller of two integers.
pub open spec fn min_int(a: int, b: int) -> int {
    if a <= b {
        a
    } else {
        b
    }
}

/// The saturating complexity of a list is its integer sum, clamped.
proof fn lemma_list_cplx_closed(s: Seq<AST>)
    ensures
        ast_list_cplx(s) as int == min_int(cplx_sum(s), u64::MAX as int),
        cplx_sum(s) >= 0,
    decreases s.len(),
{
    if s.len() > 0 {
        lemma_list_cplx_closed(s.drop_first());
    }
}

/// Pointwise-equal complexities give equal sums.
proof fn lemma_cplx_sum_pointwise(mins: Seq<u64>, ids: Seq<usize>, xs: Seq<AST>)
    requires
        ids.len() == xs.len(),
        forall|j: int| 0 <= j < xs.len() ==> ast_cplx(#[trigger] xs[j]) == mins[ids[j] as int],
    ensures
        cplx_sum(xs) == sum_min(mins, ids),
    decreases xs.len(),
{
    if xs.len() > 0 {
        assert forall|j: int| 0 <= j < xs.drop_first().len() implies ast_cplx(
            #[trigger] xs.drop_first()[j],
        ) == mins[ids.drop_first()[j] as int] by {
            assert(xs.drop_first()[j] == xs[j + 1]);
            assert(ids.drop_first()[j] == ids[j + 1]);
        }
        lemma_cplx_sum_pointwise(mins, ids.drop_first(), xs.drop_first());
        assert(ast_cplx(xs[0]) == mins[ids[0] as int]);
    }
}

/// Constant complexities give a product sum.
proof fn lemma_cplx_sum_const(xs: Seq<AST>, m: u64)
    requires
        forall|j: int| 0 <= j < xs.len() ==> ast_cplx(#[trigger] xs[j]) == m,
    ensures
        cplx_sum(xs) == xs.len() * m,
    decreases xs.len(),
{
    if xs.len() > 0 {
        assert forall|j: int| 0 <= j < xs.drop_first().len() implies ast_cplx(
            #[trigger] xs.drop_first()[j],
        ) == m by {
            assert(xs.drop_first()[j] == xs[j + 1]);
        }
        lemma_cplx_sum_const(xs.drop_first(), m);
        assert(xs.len() * m == m + (xs.len() - 1) * m) by (nonlinear_arith);
        assert(ast_cplx(xs[0]) == m);
    } else {
        assert(xs.len() * m == 0) by (nonlinear_arith)
            requires
                xs.len() == 0,
        ;
    }
}

/// A sum of minimum complexities bounds each of its summands.
proof fn lemma_sum_min_elem(mins: Seq<u64>, ids: Seq<usize>)
    ensures
        sum_min(mins, ids) >= 0 || exists|i: int| 0 <= i < ids.len() && !(ids[i] < mins.len()),
        forall|i: int|
            0 <= i < ids.len() && (forall|k: int| 0 <= k < ids.len() ==> #[trigger] ids[k]
                < mins.len()) ==> sum_min(mins, ids) >= mins[#[trigger] ids[i] as int],
    decreases ids.len(),
{
    if ids.len() > 0 {
        lemma_sum_min_elem(mins, ids.drop_first());
        if forall|k: int| 0 <= k < ids.len() ==> #[trigger] ids[k] < mins.len() {
            assert forall|k: int| 0 <= k < ids.drop_first().len() implies #[trigger] ids.drop_first()[k]
                < mins.len() by {
                assert(ids.drop_first()[k] == ids[k + 1]);
            }
            assert forall|i: int| 0 <= i < ids.len() implies sum_min(mins, ids) >= mins[#[trigger] ids[i] as int] by {
                if i > 0 {
                    assert(ids.drop_first()[i - 1] == ids[i]);
                    assert(sum_min(mins, ids.drop_first()) >= mins[ids[i] as int]);
                }
            }
        }
    }
}

/// A sum of minimums over a prefix never exceeds the whole sum.
proof fn lemma_sum_min_prefix_bound(mins: Seq<u64>, ids: Seq<usize>, k: int)
    requires
        0 <= k <= ids.len(),
        forall|t: int| 0 <= t < ids.len() ==> #[trigger] ids[t] < mins.len(),
    ensures
        sum_min(mins, ids) >= sum_min(mins, ids.subrange(0, k)),
    decreases ids.len() - k,
{
    if k < ids.len() {
        lemma_sum_min_snoc(mins, ids, k);
        lemma_sum_min_prefix_bound(mins, ids, k + 1);
    } else {
        assert(ids.subrange(0, k) =~= ids);
    }
}

/// A sum over nodes that all lie in bounds is nonnegative.
proof fn lemma_sum_min_nonneg(mins: Seq<u64>, ids: Seq<usize>)
    requires
        forall|k: int| 0 <= k < ids.len() ==> #[trigger] ids[k] < mins.len(),
    ensures
        sum_min(mins, ids) >= 0,
    decreases ids.len(),
{
    if ids.len() > 0 {
        assert forall|k: int| 0 <= k < ids.drop_first().len() implies #[trigger] ids.drop_first()[k]
            < mins.len() by {
            assert(ids.drop_first()[k] == ids[k + 1]);
        }
        lemma_sum_min_nonneg(mins, ids.drop_first());
    }
}

/// The minimum-complexity table is consistent at node `n`: it solves the
/// node's cost equation, so it is both achievable and a lower bound.
pub open spec fn min_consistent_at(nodes: Seq<MutatorNode>, mins: Seq<u64>, n: int) -> bool {
    match nodes[n] {
        MutatorNode::Token(ranges) => mins[n] == CHAR_COMPLEXITY,
        MutatorNode::FixedSeq(ids) => mins[n] == 1 + sum_min(mins, ids@),
        MutatorNode::VarSeq(id, lo, hi) => mins[n] == 1 + lo * mins[id as int],
        MutatorNode::Alt(ids) => (forall|i: int|
            0 <= i < ids@.len() ==> mins[n] <= mins[#[trigger] ids@[i] as int]) && (exists|i: int|
            0 <= i < ids@.len() && mins[n] == mins[#[trigger] ids@[i] as int]),
        MutatorNode::Recursive(body) => mins[n] == mins[body as int],
        MutatorNode::Recur(target) => mins[n] == 1 + mins[target as int],
    }
}

pub open spec fn mins_consistent(nodes: Seq<MutatorNode>, mins: Seq<u64>) -> bool {
    mins.len() == nodes.len() && forall|n: int|
        0 <= n < nodes.len() ==> #[trigger] min_consistent_at(nodes, mins, n)
}

/// Minimality: every tree of the grammar rooted at `n` costs at least
/// the minimum the table records for `n`.
pub proof fn lemma_min_cplx(nodes: Seq<MutatorNode>, mins: Seq<u64>, n: int, a: AST)
    requires
        arena_wf(nodes),
        mins_consistent(nodes, mins),
        0 <= n < nodes.len(),
        ast_matches(nodes, n, a),
    ensures
        ast_cplx(a) >= mins[n],
    decreases a, nodes.len() - n,
{
    assert(node_wf(nodes, n));
    assert(min_consistent_at(nodes, mins, n));
    match nodes[n] {
        MutatorNode::Token(ranges) => {},
        MutatorNode::FixedSeq(ids) => {
            let xs = a->Sequence_0@;
            lemma_min_cplx_list(nodes, mins, ids@, xs, n);
            lemma_list_cplx_closed(xs);
            lemma_sum_min_nonneg(mins, ids@);
        },
        MutatorNode::VarSeq(id, lo, hi) => {
            let xs = a->Sequence_0@;
            lemma_min_cplx_rep(nodes, mins, id as int, xs, n);
            lemma_list_cplx_closed(xs);
            assert(xs.len() * mins[id as int] >= lo * mins[id as int]) by (nonlinear_arith)
                requires
                    xs.len() >= lo,
            ;
        },
        MutatorNode::Alt(ids) => {
            let i = choose|i: int|
                0 <= i < ids@.len() && n < ids@[i] < nodes.len() && ast_matches(
                    nodes,
                    ids@[i] as int,
                    a,
                );
            lemma_min_cplx(nodes, mins, ids@[i] as int, a);
        },
        MutatorNode::Recursive(body) => {
            lemma_min_cplx(nodes, mins, body as int, a);
        },
        MutatorNode::Recur(target) => {
            let xs = a->Sequence_0@;
            assert(decreases_to!(a => xs[0])) by {
                assert(decreases_to!(a => a->Sequence_0));
                assert(decreases_to!(a->Sequence_0 => a->Sequence_0@));
                assert(decreases_to!(a->Sequence_0@ => a->Sequence_0@[0]));
            }
            lemma_min_cplx(nodes, mins, target as int, xs[0]);
            assert(xs.drop_first() =~= Seq::<AST>::empty());
            assert(ast_list_cplx(Seq::<AST>::empty()) == 0);
            assert(ast_list_cplx(xs) == sat_add(ast_cplx(xs[0]), ast_list_cplx(xs.drop_first())));
            assert(ast_list_cplx(xs) == sat_add(ast_cplx(xs[0]), 0));
        },
    }
}

/// Minimality for a fixed-length list: the saturating total is at least
/// the (unsaturated) sum of the children's minimums.
proof fn lemma_min_cplx_list(
    nodes: Seq<MutatorNode>,
    mins: Seq<u64>,
    ids: Seq<usize>,
    xs: Seq<AST>,
    parent: int,
)
    requires
        arena_wf(nodes),
        mins_consistent(nodes, mins),
        0 <= parent < nodes.len(),
        forall|i: int| 0 <= i < ids.len() ==> parent < #[trigger] ids[i] < nodes.len(),
        ast_matches_list(nodes, ids, xs),
    ensures
        cplx_sum(xs) >= sum_min(mins, ids),
    decreases xs, ids.len(),
{
    if ids.len() > 0 {
        assert forall|i: int| 0 <= i < ids.drop_first().len() implies parent
            < #[trigger] ids.drop_first()[i] < nodes.len() by {
            assert(ids.drop_first()[i] == ids[i + 1]);
        }
        lemma_min_cplx_list(nodes, mins, ids.drop_first(), xs.drop_first(), parent);
        lemma_min_cplx(nodes, mins, ids[0] as int, xs[0]);
    }
}

/// Minimality for a repeated list: the total is at least one minimum per
/// element.
proof fn lemma_min_cplx_rep(
    nodes: Seq<MutatorNode>,
    mins: Seq<u64>,
    id: int,
    xs: Seq<AST>,
    parent: int,
)
    requires
        arena_wf(nodes),
        mins_consistent(nodes, mins),
        0 <= parent < nodes.len(),
        parent < id < nodes.len(),
        ast_matches_rep(nodes, id, xs),
    ensures
        cplx_sum(xs) >= xs.len() * mins[id],
    decreases xs, 0int,
{
    if xs.len() > 0 {
        lemma_min_cplx_rep(nodes, mins, id, xs.drop_first(), parent);
        lemma_min_cplx(nodes, mins, id, xs[0]);
        assert(xs.len() * mins[id] == mins[id] + (xs.len() - 1) * mins[id]) by (nonlinear_arith);
    } else {
        assert(xs.len() * mins[id] == 0) by (nonlinear_arith)
            requires
                xs.len() == 0,
        ;
    }
}

/// Appending one element adds its complexity to the sum.
proof fn lemma_cplx_sum_snoc(s: Seq<AST>, x: AST)
    ensures
        cplx_sum(s.push(x)) == cplx_sum(s) + ast_cplx(x),
    decreases s.len(),
{
    if s.len() == 0 {
        assert(s.push(x).drop_first() =~= Seq::<AST>::empty());
        assert(s.push(x)[0] == x);
        assert(cplx_sum(Seq::<AST>::empty()) == 0);
    } else {
        lemma_cplx_sum_snoc(s.drop_first(), x);
        assert(s.push(x).drop_first() =~= s.drop_first().push(x));
        assert(s.push(x)[0] == s[0]);
    }
}

/// One step of a suffix sum of minimums.
proof fn lemma_sum_min_suffix(mins: Seq<u64>, ids: Seq<usize>, i: int)
    requires
        0 <= i < ids.len(),
    ensures
        sum_min(mins, ids.subrange(i, ids.len() as int)) == mins[ids[i] as int] + sum_min(
            mins,
            ids.subrange(i + 1, ids.len() as int),
        ),
{
    let sub = ids.subrange(i, ids.len() as int);
    assert(sub[0] == ids[i]);
    assert(sub.drop_first() =~= ids.subrange(i + 1, ids.len() as int));
}

/// One step of a prefix sum of minimums.
proof fn lemma_sum_min_snoc(mins: Seq<u64>, ids: Seq<usize>, i: int)
    requires
        0 <= i < ids.len(),
    ensures
        sum_min(mins, ids.subrange(0, i + 1)) == sum_min(mins, ids.subrange(0, i)) + mins[ids[i] as int],
    decreases i,
{
    let a = ids.subrange(0, i + 1);
    let b = ids.subrange(0, i);
    if i == 0 {
        assert(a.drop_first() =~= Seq::<usize>::empty());
        assert(b =~= Seq::<usize>::empty());
    } else {
        lemma_sum_min_snoc(mins, ids.drop_first(), i - 1);
        assert(a.drop_first() =~= ids.drop_first().subrange(0, i));
        assert(b.drop_first() =~= ids.drop_first().subrange(0, i - 1));
        assert(ids.drop_first().subrange(0, i)[i - 1] == ids[i]);
        assert(a[0] == ids[0] && b[0] == ids[0]);
    }
}

/// Relies on `fastrand::usize`: the result lies below the bound it is
/// given. Nothing more is assumed of the draw.
#[verifier::external_body]
fn random_usize_below(bound: usize) -> (r: usize)
    requires
        bound > 0,
    ensures
        r < bound,
{
    fastrand::usize(0..bound)
}

/// The canonical character of a class: the low end of its first range.
fn class_representative(ranges: &Vec<(char, char)>) -> (r: char)
    requires
        ranges@.len() > 0,
        (ranges@[0].0 as u32) <= (ranges@[0].1 as u32),
    ensures
        char_in_class(ranges@, r),
{
    let (lo, _hi) = ranges[0];
    proof {
        assert(ranges@[0] == (lo, _hi));
    }
    lo
}

/// A mutator that generates and mutates syntax trees belonging to a
/// grammar, compiled into an arena of nodes with a minimum-complexity
/// table.
pub struct ASTMutator {
    nodes: Vec<MutatorNode>,
    min_cplx: Vec<u64>,
}

impl ASTMutator {
    /// Deterministically generate the canonical cheapest tree of the
    /// grammar rooted at node `n`.
    fn gen_min(&self, n: usize) -> (r: AST)
        requires
            arena_wf(self.nodes@),
            mins_consistent(self.nodes@, self.min_cplx@),
            n < self.nodes@.len(),
        ensures
            ast_matches(self.nodes@, n as int, r),
            ast_cplx(r) == self.min_cplx@[n as int],
        decreases self.min_cplx@[n as int], self.nodes@.len() - n,
    {
        proof {
            assert(node_wf(self.nodes@, n as int));
            assert(min_consistent_at(self.nodes@, self.min_cplx@, n as int));
        }
        let mins_n = self.min_cplx[n];
        let node_ref = &self.nodes[n];
        proof {
            assert(*node_ref == self.nodes@[n as int]);
        }
        match node_ref {
            MutatorNode::Token(ranges) => {
                let c = class_representative(ranges);
                let r = AST::Token(c);
                proof {
                    assert(ast_matches(self.nodes@, n as int, r));
                }
                r
            },
            MutatorNode::FixedSeq(ids) => {
                let ghost mins = self.min_cplx@;
                proof {
                    lemma_sum_min_nonneg(mins, ids@);
                }
                let mut out: Vec<AST> = Vec::new();
                let mut i: usize = 0;
                while i < ids.len()
                    invariant
                        arena_wf(self.nodes@),
                        mins_consistent(self.nodes@, mins),
                        mins == self.min_cplx@,
                        n < self.nodes@.len(),
                        self.nodes@[n as int] == MutatorNode::FixedSeq(*ids),
                        mins[n as int] == 1 + sum_min(mins, ids@),
                        i <= ids@.len(),
                        out@.len() == i,
                        forall|j: int|
                            0 <= j < i ==> ast_matches(self.nodes@, #[trigger] ids@[j] as int, out@[j]),
                        forall|j: int|
                            0 <= j < i ==> ast_cplx(#[trigger] out@[j]) == mins[ids@[j] as int],
                    decreases ids@.len() - i,
                {
                    proof {
                        assert(node_wf(self.nodes@, n as int));
                        assert(self.nodes@[n as int]->FixedSeq_0 == *ids);
                        assert(n < ids@[i as int] < self.nodes@.len());
                        lemma_sum_min_elem(mins, ids@);
                        lemma_sum_min_nonneg(mins, ids@);
                        assert(forall|k: int| 0 <= k < ids@.len() ==> #[trigger] ids@[k] < mins.len());
                        assert(sum_min(mins, ids@) >= mins[ids@[i as int] as int]);
                        assert(mins[ids@[i as int] as int] < mins[n as int]);
                    }
                    let child = self.gen_min(ids[i]);
                    out.push(child);
                    i = i + 1;
                }
                proof {
                    assert(node_wf(self.nodes@, n as int));
                    assert(self.nodes@[n as int]->FixedSeq_0 == *ids);
                    lemma_matches_list_index(self.nodes@, ids@, out@);
                    assert(ast_matches_list(self.nodes@, ids@, out@));
                    lemma_cplx_sum_pointwise(mins, ids@, out@);
                    lemma_sum_min_nonneg(mins, ids@);
                    lemma_list_cplx_closed(out@);
                    assert(ast_list_cplx(out@) as int == sum_min(mins, ids@));
                    assert(ast_cplx(AST::Sequence(out)) == mins[n as int]);
                    assert(ast_matches(self.nodes@, n as int, AST::Sequence(out)));
                }
                AST::Sequence(out)
            },
            MutatorNode::VarSeq(id, lo, hi) => {
                let ghost mins = self.min_cplx@;
                let m = self.min_cplx[*id];
                proof {
                    assert(mins[n as int] == 1 + (*lo) * (mins[*id as int]));
                    if *lo > 0 {
                        assert((*lo) * m >= m) by (nonlinear_arith)
                            requires
                                *lo >= 1,
                                m >= 0,
                        ;
                    }
                }
                let mut out: Vec<AST> = Vec::new();
                let mut i: u64 = 0;
                while i < *lo
                    invariant
                        arena_wf(self.nodes@),
                        mins_consistent(self.nodes@, mins),
                        mins == self.min_cplx@,
                        n < self.nodes@.len(),
                        self.nodes@[n as int] == MutatorNode::VarSeq(*id, *lo, *hi),
                        n < *id < self.nodes@.len(),
                        m == mins[*id as int],
                        *lo > 0 ==> m < mins[n as int],
                        mins[n as int] == 1 + (*lo) * m,
                        i <= *lo,
                        out@.len() == i,
                        forall|j: int|
                            0 <= j < i ==> ast_matches(self.nodes@, *id as int, #[trigger] out@[j]),
                        forall|j: int| 0 <= j < i ==> ast_cplx(#[trigger] out@[j]) == m,
                    decreases *lo - i,
                {
                    let child = self.gen_min(*id);
                    out.push(child);
                    i = i + 1;
                }
                proof {
                    assert(node_wf(self.nodes@, n as int));
                    lemma_matches_rep_index(self.nodes@, *id as int, out@);
                    assert(ast_matches_rep(self.nodes@, *id as int, out@));
                    lemma_cplx_sum_const(out@, m);
                    lemma_list_cplx_closed(out@);
                    assert(cplx_sum(out@) == (*lo) * m);
                    assert((*lo) * m >= 0) by (nonlinear_arith);
                    assert(ast_list_cplx(out@) as int == (*lo) * m);
                    assert(ast_cplx(AST::Sequence(out)) == mins[n as int]);
                    assert(ast_matches(self.nodes@, n as int, AST::Sequence(out)));
                }
                AST::Sequence(out)
            },
            MutatorNode::Alt(ids) => {
                let mut i: usize = 0;
                while i < ids.len()
                    invariant
                        arena_wf(self.nodes@),
                        mins_consistent(self.nodes@, self.min_cplx@),
                        n < self.nodes@.len(),
                        mins_n == self.min_cplx@[n as int],
                        self.nodes@[n as int] == MutatorNode::Alt(*ids),
                        i <= ids@.len(),
                        forall|j: int|
                            0 <= j < i ==> self.min_cplx@[#[trigger] ids@[j] as int] != mins_n,
                    decreases ids@.len() - i,
                {
                    proof {
                        assert(node_wf(self.nodes@, n as int));
                        assert(self.nodes@[n as int]->Alt_0 == *ids);
                        assert(n < ids@[i as int] < self.nodes@.len());
                    }
                    if self.min_cplx[ids[i]] == mins_n {
                        let r = self.gen_min(ids[i]);
                        proof {
                            assert(ast_matches(self.nodes@, n as int, r));
                            assert(ast_cplx(r) == self.min_cplx@[n as int]);
                        }
                        return r;
                    }
                    i = i + 1;
                }
                proof {
                    assert(min_consistent_at(self.nodes@, self.min_cplx@, n as int));
                    assert(false);
                }
                vstd::pervasive::unreached()
            },
            MutatorNode::Recursive(body) => {
                let r = self.gen_min(*body);
                proof {
                    assert(ast_matches(self.nodes@, n as int, r));
                    assert(ast_cplx(r) == mins_n);
                }
                r
            },
            MutatorNode::Recur(target) => {
                proof {
                    assert(self.min_cplx@[*target as int] < mins_n);
                }
                let child = self.gen_min(*target);
                let mut v: Vec<AST> = Vec::new();
                v.push(child);
                let r = AST::Sequence(v);
                proof {
                    assert(v@.len() == 1);
                    assert(v@.drop_first() =~= Seq::<AST>::empty());
                    assert(ast_list_cplx(Seq::<AST>::empty()) == 0);
                    assert(ast_list_cplx(v@) == sat_add(ast_cplx(v@[0]), 0));
                    assert(ast_matches(self.nodes@, n as int, r));
                    assert(ast_cplx(r) == mins_n);
                }
                r
            },
        }
    }
}



/// Every consistent minimum is at least one bit.
proof fn lemma_min_pos(nodes: Seq<MutatorNode>, mins: Seq<u64>, n: int)
    requires
        arena_wf(nodes),
        mins_consistent(nodes, mins),
        0 <= n < nodes.len(),
    ensures
        mins[n] >= 1,
    decreases nodes.len() - n,
{
    assert(node_wf(nodes, n));
    assert(min_consistent_at(nodes, mins, n));
    match nodes[n] {
        MutatorNode::Token(ranges) => {},
        MutatorNode::FixedSeq(ids) => {
            lemma_sum_min_nonneg(mins, ids@);
        },
        MutatorNode::VarSeq(id, lo, hi) => {
            assert(lo * mins[id as int] >= 0) by (nonlinear_arith);
        },
        MutatorNode::Alt(ids) => {
            let i = choose|i: int| 0 <= i < ids@.len() && mins[n] == mins[#[trigger] ids@[i] as int];
            lemma_min_pos(nodes, mins, ids@[i] as int);
        },
        MutatorNode::Recursive(body) => {
            lemma_min_pos(nodes, mins, body as int);
        },
        MutatorNode::Recur(target) => {},
    }
}

/// A random character of a class: a uniform code point of a uniform
/// range, falling back to the class's canonical character when the draw
/// hits a surrogate.
fn class_random(ranges: &Vec<(char, char)>) -> (r: char)
    requires
        ranges@.len() > 0,
        forall|i: int|
            0 <= i < ranges@.len() ==> ((#[trigger] ranges@[i]).0 as u32) <= (ranges@[i].1 as u32),
    ensures
        char_in_class(ranges@, r),
{
    let idx = random_usize_below(ranges.len());
    let (lo, hi) = ranges[idx];
    proof {
        assert(ranges@[idx as int] == (lo, hi));
    }
    let v = random_u32_in(lo as u32, hi as u32);
    match char_from_u32(v) {
        Some(cc) => {
            proof {
                assert((ranges@[idx as int].0 as u32) <= (cc as u32) <= (
                ranges@[idx as int].1 as u32));
            }
            cc
        },
        None => class_representative(ranges),
    }
}

impl ASTMutator {
    /// Randomly generate a tree of the grammar rooted at node `n`, whose
    /// complexity stays within `budget`.
    fn gen_random(&self, n: usize, budget: u64) -> (r: (AST, u64))
        requires
            arena_wf(self.nodes@),
            mins_consistent(self.nodes@, self.min_cplx@),
            n < self.nodes@.len(),
            self.min_cplx@[n as int] <= budget,
        ensures
            ast_matches(self.nodes@, n as int, r.0),
            r.1 == ast_cplx(r.0),
            r.1 <= budget,
        decreases budget, self.nodes@.len() - n,
    {
        proof {
            assert(node_wf(self.nodes@, n as int));
            assert(min_consistent_at(self.nodes@, self.min_cplx@, n as int));
            lemma_min_pos(self.nodes@, self.min_cplx@, n as int);
        }
        let mins_n = self.min_cplx[n];
        let node_ref = &self.nodes[n];
        match node_ref {
            MutatorNode::Token(ranges) => {
                let c = class_random(ranges);
                let r = AST::Token(c);
                proof {
                    assert(ast_matches(self.nodes@, n as int, r));
                }
                (r, CHAR_COMPLEXITY)
            },
            MutatorNode::FixedSeq(ids) => {
                let ghost mins = self.min_cplx@;
                proof {
                    lemma_sum_min_nonneg(mins, ids@);
                    assert(ids@.subrange(0, ids@.len() as int) =~= ids@);
                }
                let mut out: Vec<AST> = Vec::new();
                let mut acc: u64 = 0;
                let mut budget_rem: u64 = budget - 1;
                let mut remaining: u64 = mins_n - 1;
                let mut i: usize = 0;
                while i < ids.len()
                    invariant
                        arena_wf(self.nodes@),
                        mins_consistent(self.nodes@, mins),
                        mins == self.min_cplx@,
                        n < self.nodes@.len(),
                        self.nodes@[n as int] == MutatorNode::FixedSeq(*ids),
                        budget >= 1,
                        i <= ids@.len(),
                        out@.len() == i,
                        remaining as int == sum_min(mins, ids@.subrange(i as int, ids@.len() as int)),
                        budget_rem >= remaining,
                        acc + budget_rem == budget - 1,
                        cplx_sum(out@) == acc,
                        forall|j: int|
                            0 <= j < i ==> ast_matches(self.nodes@, #[trigger] ids@[j] as int, out@[j]),
                    decreases ids@.len() - i,
                {
                    proof {
                        assert(node_wf(self.nodes@, n as int));
                        assert(self.nodes@[n as int]->FixedSeq_0 == *ids);
                        assert(n < ids@[i as int] < self.nodes@.len());
                        lemma_sum_min_suffix(mins, ids@, i as int);
                        assert forall|k: int|
                            0 <= k < ids@.subrange(i as int + 1, ids@.len() as int).len() implies #[trigger] ids@.subrange(
                            i as int + 1,
                            ids@.len() as int,
                        )[k] < mins.len() by {
                            assert(ids@.subrange(i as int + 1, ids@.len() as int)[k] == ids@[i + 1
                                + k]);
                        }
                        lemma_sum_min_nonneg(mins, ids@.subrange(i as int + 1, ids@.len() as int));
                    }
                    let child_min = self.min_cplx[ids[i]];
                    let child_budget = budget_rem - (remaining - child_min);
                    let (child, c) = self.gen_random(ids[i], child_budget);
                    proof {
                        lemma_cplx_sum_snoc(out@, child);
                    }
                    out.push(child);
                    acc = acc + c;
                    budget_rem = budget_rem - c;
                    remaining = remaining - child_min;
                    i = i + 1;
                }
                proof {
                    assert(ids@.subrange(ids@.len() as int, ids@.len() as int)
                        =~= Seq::<usize>::empty());
                    assert(remaining == 0);
                    lemma_matches_list_index(self.nodes@, ids@, out@);
                    lemma_list_cplx_closed(out@);
                }
                let r = AST::Sequence(out);
                proof {
                    assert(ast_matches(self.nodes@, n as int, r));
                    assert(ast_cplx(r) == 1 + acc);
                }
                (r, acc + 1)
            },
            MutatorNode::VarSeq(id, lo, hi) => {
                let ghost mins = self.min_cplx@;
                let m = self.min_cplx[*id];
                let mut out: Vec<AST> = Vec::new();
                let mut acc: u64 = 0;
                let mut budget_rem: u64 = budget - 1;
                let mut remaining: u64 = mins_n - 1;
                let mut i: u64 = 0;
                proof {
                    assert(remaining as int == ((*lo) - i) * m) by (nonlinear_arith)
                        requires
                            remaining == mins_n - 1,
                            mins_n == 1 + (*lo) * m,
                            i == 0,
                    ;
                }
                while i < *lo
                    invariant
                        arena_wf(self.nodes@),
                        mins_consistent(self.nodes@, mins),
                        mins == self.min_cplx@,
                        n < self.nodes@.len(),
                        self.nodes@[n as int] == MutatorNode::VarSeq(*id, *lo, *hi),
                        n < *id < self.nodes@.len(),
                        m == mins[*id as int],
                        budget >= 1,
                        i <= *lo,
                        out@.len() == i,
                        remaining as int == ((*lo) - i) * m,
                        budget_rem >= remaining,
                        acc + budget_rem == budget - 1,
                        cplx_sum(out@) == acc,
                        forall|j: int|
                            0 <= j < i ==> ast_matches(self.nodes@, *id as int, #[trigger] out@[j]),
                    decreases *lo - i,
                {
                    proof {
                        assert(((*lo) - i) * m == m + ((*lo) - i - 1) * m) by (nonlinear_arith)
                            requires
                                i < *lo,
                        ;
                        assert(((*lo) - i - 1) * m >= 0) by (nonlinear_arith)
                            requires
                                i < *lo,
                                m >= 0,
                        ;
                    }
                    let child_budget = budget_rem - (remaining - m);
                    let (child, c) = self.gen_random(*id, child_budget);
                    proof {
                        lemma_cplx_sum_snoc(out@, child);
                    }
                    out.push(child);
                    acc = acc + c;
                    budget_rem = budget_rem - c;
                    remaining = remaining - m;
                    i = i + 1;
                }
                // Optionally add further elements while the budget and
                // the upper bound allow it.
                let mut count: u64 = i;
                while count < *hi && budget_rem >= m
                    invariant
                        arena_wf(self.nodes@),
                        mins_consistent(self.nodes@, mins),
                        mins == self.min_cplx@,
                        n < self.nodes@.len(),
                        self.nodes@[n as int] == MutatorNode::VarSeq(*id, *lo, *hi),
                        n < *id < self.nodes@.len(),
                        m == mins[*id as int],
                        budget >= 1,
                        *lo <= count <= *hi,
                        out@.len() == count,
                        acc + budget_rem == budget - 1,
                        cplx_sum(out@) == acc,
                        forall|j: int|
                            0 <= j < count ==> ast_matches(self.nodes@, *id as int, #[trigger] out@[j]),
                    decreases *hi - count,
                {
                    if random_u32_in(0, 1) == 0 {
                        break;
                    }
                    let (child, c) = self.gen_random(*id, budget_rem);
                    proof {
                        lemma_cplx_sum_snoc(out@, child);
                    }
                    out.push(child);
                    acc = acc + c;
                    budget_rem = budget_rem - c;
                    count = count + 1;
                }
                proof {
                    lemma_matches_rep_index(self.nodes@, *id as int, out@);
                    lemma_list_cplx_closed(out@);
                }
                let r = AST::Sequence(out);
                proof {
                    assert(ast_matches(self.nodes@, n as int, r));
                    assert(ast_cplx(r) == 1 + acc);
                }
                (r, acc + 1)
            },
            MutatorNode::Alt(ids) => {
                let mut cands: Vec<usize> = Vec::new();
                let mut j: usize = 0;
                while j < ids.len()
                    invariant
                        arena_wf(self.nodes@),
                        mins_consistent(self.nodes@, self.min_cplx@),
                        n < self.nodes@.len(),
                        self.nodes@[n as int] == MutatorNode::Alt(*ids),
                        mins_n == self.min_cplx@[n as int],
                        mins_n <= budget,
                        j <= ids@.len(),
                        forall|k: int|
                            0 <= k < cands@.len() ==> n < #[trigger] cands@[k] < self.nodes@.len()
                                && self.min_cplx@[cands@[k] as int] <= budget,
                        forall|k: int|
                            0 <= k < cands@.len() ==> exists|jj: int|
                                0 <= jj < ids@.len() && #[trigger] cands@[k] == ids@[jj],
                        (exists|jj: int|
                            0 <= jj < j && self.min_cplx@[#[trigger] ids@[jj] as int] <= budget)
                            ==> cands@.len() > 0,
                    decreases ids@.len() - j,
                {
                    proof {
                        assert(node_wf(self.nodes@, n as int));
                        assert(self.nodes@[n as int]->Alt_0 == *ids);
                        assert(n < ids@[j as int] < self.nodes@.len());
                    }
                    if self.min_cplx[ids[j]] <= budget {
                        cands.push(ids[j]);
                    }
                    j = j + 1;
                }
                proof {
                    assert(min_consistent_at(self.nodes@, self.min_cplx@, n as int));
                    let jj = choose|jj: int|
                        0 <= jj < ids@.len() && self.min_cplx@[n as int] == self.min_cplx@[
                            #[trigger] ids@[jj] as int
                        ];
                    assert(self.min_cplx@[ids@[jj] as int] <= budget);
                    assert(cands@.len() > 0);
                }
                let pick = cands[random_usize_below(cands.len())];
                let (v, c) = self.gen_random(pick, budget);
                proof {
                    assert(ast_matches(self.nodes@, n as int, v));
                }
                (v, c)
            },
            MutatorNode::Recursive(body) => {
                let (v, c) = self.gen_random(*body, budget);
                proof {
                    assert(ast_matches(self.nodes@, n as int, v));
                }
                (v, c)
            },
            MutatorNode::Recur(target) => {
                let (child, c) = self.gen_random(*target, budget - 1);
                let mut v: Vec<AST> = Vec::new();
                v.push(child);
                let r = AST::Sequence(v);
                proof {
                    assert(v@.len() == 1);
                    assert(v@.drop_first() =~= Seq::<AST>::empty());
                    assert(ast_list_cplx(Seq::<AST>::empty()) == 0);
                    assert(ast_list_cplx(v@) == sat_add(ast_cplx(v@[0]), 0));
                    assert(ast_matches(self.nodes@, n as int, r));
                    assert(ast_cplx(r) == 1 + c);
                }
                (r, c + 1)
            },
        }
    }
}

/// Structural well-formedness check of one node.
fn check_node(nodes: &Vec<MutatorNode>, n: usize) -> (r: bool)
    requires
        n < nodes@.len(),
    ensures
        r == node_wf(nodes@, n as int),
{
    match &nodes[n] {
        MutatorNode::Token(ranges) => {
            if ranges.len() == 0 {
                return false;
            }
            let mut i: usize = 0;
            while i < ranges.len()
                invariant
                    n < nodes@.len(),
                    nodes@[n as int] == MutatorNode::Token(*ranges),
                    ranges@.len() > 0,
                    i <= ranges@.len(),
                    forall|j: int|
                        0 <= j < i ==> ((#[trigger] ranges@[j]).0 as u32) <= (ranges@[j].1 as u32),
                decreases ranges@.len() - i,
            {
                let (lo, hi) = ranges[i];
                proof {
                    assert(ranges@[i as int] == (lo, hi));
                }
                if lo as u32 > hi as u32 {
                    return false;
                }
                i = i + 1;
            }
            true
        },
        MutatorNode::FixedSeq(ids) => {
            let mut i: usize = 0;
            while i < ids.len()
                invariant
                    n < nodes@.len(),
                    nodes@[n as int] == MutatorNode::FixedSeq(*ids),
                    i <= ids@.len(),
                    forall|j: int| 0 <= j < i ==> n < #[trigger] ids@[j] < nodes@.len(),
                decreases ids@.len() - i,
            {
                if ids[i] <= n || ids[i] >= nodes.len() {
                    proof {
                        assert(nodes@[n as int]->FixedSeq_0 == *ids);
                        assert(!(n < ids@[i as int] < nodes@.len()));
                        assert(!node_wf(nodes@, n as int));
                    }
                    return false;
                }
                i = i + 1;
            }
            true
        },
        MutatorNode::VarSeq(id, lo, hi) => n < *id && *id < nodes.len() && *lo <= *hi,
        MutatorNode::Alt(ids) => {
            if ids.len() == 0 {
                return false;
            }
            let mut i: usize = 0;
            while i < ids.len()
                invariant
                    n < nodes@.len(),
                    nodes@[n as int] == MutatorNode::Alt(*ids),
                    ids@.len() > 0,
                    i <= ids@.len(),
                    forall|j: int| 0 <= j < i ==> n < #[trigger] ids@[j] < nodes@.len(),
                decreases ids@.len() - i,
            {
                if ids[i] <= n || ids[i] >= nodes.len() {
                    return false;
                }
                i = i + 1;
            }
            true
        },
        MutatorNode::Recursive(body) => n < *body && *body < nodes.len(),
        MutatorNode::Recur(target) => {
            if *target >= nodes.len() {
                return false;
            }
            match &nodes[*target] {
                MutatorNode::Recursive(_) => true,
                _ => false,
            }
        },
    }
}

/// Structural well-formedness check of the whole arena.
fn check_arena(nodes: &Vec<MutatorNode>) -> (r: bool)
    ensures
        r == arena_wf(nodes@),
{
    if nodes.len() == 0 {
        return false;
    }
    let mut n: usize = 0;
    while n < nodes.len()
        invariant
            n <= nodes@.len(),
            forall|j: int| 0 <= j < n ==> #[trigger] node_wf(nodes@, j),
        decreases nodes@.len() - n,
    {
        if !check_node(nodes, n) {
            return false;
        }
        n = n + 1;
    }
    true
}

/// Check that the minimum-complexity table solves every node's cost
/// equation, exactly.
fn check_consistent(nodes: &Vec<MutatorNode>, mins: &Vec<u64>) -> (r: bool)
    requires
        arena_wf(nodes@),
        mins@.len() == nodes@.len(),
    ensures
        r == mins_consistent(nodes@, mins@),
{
    let mut n: usize = 0;
    while n < nodes.len()
        invariant
            arena_wf(nodes@),
            mins@.len() == nodes@.len(),
            n <= nodes@.len(),
            forall|j: int| 0 <= j < n ==> #[trigger] min_consistent_at(nodes@, mins@, j),
        decreases nodes@.len() - n,
    {
        proof {
            assert(node_wf(nodes@, n as int));
        }
        let ghost pre_n = n as int;
        let ok = match &nodes[n] {
            MutatorNode::Token(ranges) => mins[n] == CHAR_COMPLEXITY,
            MutatorNode::FixedSeq(ids) => {
                let mut acc: u64 = 0;
                let mut i: usize = 0;
                proof {
                    assert(ids@.subrange(0, 0) =~= Seq::<usize>::empty());
                }
                while i < ids.len()
                    invariant
                        arena_wf(nodes@),
                        mins@.len() == nodes@.len(),
                        n < nodes@.len(),
                        nodes@[n as int] == MutatorNode::FixedSeq(*ids),
                        i <= ids@.len(),
                        acc as int == sum_min(mins@, ids@.subrange(0, i as int)),
                    decreases ids@.len() - i,
                {
                    proof {
                        assert(node_wf(nodes@, n as int));
                        assert(nodes@[n as int]->FixedSeq_0 == *ids);
                        assert(n < ids@[i as int] < nodes@.len());
                        lemma_sum_min_snoc(mins@, ids@, i as int);
                    }
                    match acc.checked_add(mins[ids[i]]) {
                        Some(next) => {
                            acc = next;
                        },
                        None => {
                            // The partial sum already exceeds what a
                            // stored minimum can equal.
                            proof {
                                assert(forall|t: int|
                                    0 <= t < ids@.len() ==> #[trigger] ids@[t] < mins@.len());
                                lemma_sum_min_snoc(mins@, ids@, i as int);
                                lemma_sum_min_prefix_bound(mins@, ids@, i as int + 1);
                                assert(sum_min(mins@, ids@) > u64::MAX - 1);
                                assert(!min_consistent_at(nodes@, mins@, n as int));
                            }
                            return false;
                        },
                    }
                    i = i + 1;
                }
                proof {
                    assert(node_wf(nodes@, n as int));
                    assert(nodes@[n as int]->FixedSeq_0 == *ids);
                    assert(forall|t: int|
                        0 <= t < ids@.len() ==> #[trigger] ids@[t] < mins@.len());
                    assert(ids@.subrange(0, ids@.len() as int) =~= ids@);
                }
                if acc == u64::MAX {
                    proof {
                        assert(!min_consistent_at(nodes@, mins@, n as int));
                    }
                    false
                } else {
                    mins[n] == acc + 1
                }
            },
            MutatorNode::VarSeq(id, lo, hi) => {
                match lo.checked_mul(mins[*id]) {
                    Some(p) => {
                        if p == u64::MAX {
                            proof {
                                assert(!min_consistent_at(nodes@, mins@, n as int));
                            }
                            false
                        } else {
                            mins[n] == p + 1
                        }
                    },
                    None => {
                        proof {
                            assert((*lo) * (mins@[*id as int]) > u64::MAX);
                            assert(!min_consistent_at(nodes@, mins@, n as int));
                        }
                        false
                    },
                }
            },
            MutatorNode::Alt(ids) => {
                let mn = mins[n];
                let mut i: usize = 0;
                let mut all_le = true;
                let mut found_eq = false;
                while i < ids.len()
                    invariant
                        arena_wf(nodes@),
                        mins@.len() == nodes@.len(),
                        n < nodes@.len(),
                        nodes@[n as int] == MutatorNode::Alt(*ids),
                        mn == mins@[n as int],
                        i <= ids@.len(),
                        all_le == forall|j: int|
                            0 <= j < i ==> mins@[n as int] <= mins@[#[trigger] ids@[j] as int],
                        found_eq == exists|j: int|
                            0 <= j < i && mins@[n as int] == mins@[#[trigger] ids@[j] as int],
                    decreases ids@.len() - i,
                {
                    proof {
                        assert(node_wf(nodes@, n as int));
                        assert(nodes@[n as int]->Alt_0 == *ids);
                        assert(n < ids@[i as int] < nodes@.len());
                    }
                    let child = mins[ids[i]];
                    if mn > child {
                        all_le = false;
                    }
                    if mn == child {
                        found_eq = true;
                    }
                    i = i + 1;
                }
                all_le && found_eq
            },
            MutatorNode::Recursive(body) => mins[n] == mins[*body],
            MutatorNode::Recur(target) => {
                let mt = mins[*target];
                if mt == u64::MAX {
                    proof {
                        assert(!min_consistent_at(nodes@, mins@, n as int));
                    }
                    false
                } else {
                    mins[n] == mt + 1
                }
            },
        };
        if !ok {
            proof {
                assert(!min_consistent_at(nodes@, mins@, pre_n));
            }
            return false;
        }
        proof {
            assert(min_consistent_at(nodes@, mins@, n as int));
        }
        n = n + 1;
    }
    true
}

/// The cache carried beside a validated syntax tree: its complexity.
pub struct ASTMutatorCache {
    cplx: u64,
}

impl ASTMutatorCache {
    pub fn new(cplx: u64) -> (r: Self)
        ensures
            r.spec_cplx() == cplx,
    {
        Self { cplx }
    }

    pub closed spec fn spec_cplx(self) -> u64 {
        self.cplx
    }
}

/// The cursor of ordered edits of one value: which alternative of the
/// grammar's root is offered as the next replacement.
pub struct ASTMutatorMutationStep {
    inner: u64,
}

impl ASTMutatorMutationStep {
    pub fn new() -> (r: Self)
        ensures
            r.spec_index() == 0,
    {
        Self { inner: 0 }
    }

    pub closed spec fn spec_index(self) -> u64 {
        self.inner
    }
}

/// The cursor of ordered synthesis: which alternative of the grammar's
/// root is produced next.
pub struct ASTMutatorArbitraryStep {
    inner: u64,
}

impl ASTMutatorArbitraryStep {
    pub closed spec fn spec_index(self) -> u64 {
        self.inner
    }
}

/// The diff that restores a mutated syntax tree: the replaced tree
/// itself, moved, so that applying it is one move.
pub struct ASTMutatorUnmutateToken {
    inner: AST,
}

impl ASTMutatorUnmutateToken {
    pub fn new(inner: AST) -> (r: Self)
        ensures
            r.spec_inner() == inner,
    {
        Self { inner }
    }

    pub closed spec fn spec_inner(self) -> AST {
        self.inner
    }
}

impl ASTMutator {
    /// The node whose alternatives ordered synthesis enumerates: the
    /// root, looking through one `Recursive` wrapper.
    pub closed spec fn enum_node(self) -> int {
        match self.nodes@[0] {
            MutatorNode::Recursive(body) => body as int,
            _ => 0,
        }
    }

    /// How many entries ordered synthesis enumerates: the alternatives
    /// of the enumerated node, or one entry when it offers none.
    pub closed spec fn alt_count(self) -> int {
        match self.nodes@[self.enum_node()] {
            MutatorNode::Alt(ids) => ids@.len() as int,
            _ => 1,
        }
    }

    /// The node ordered synthesis enumerates.
    fn enum_node_exec(&self) -> (r: usize)
        requires
            arena_wf(self.nodes@),
        ensures
            r == self.enum_node(),
            r < self.nodes@.len(),
    {
        proof {
            assert(node_wf(self.nodes@, 0));
        }
        match &self.nodes[0] {
            MutatorNode::Recursive(body) => *body,
            _ => 0,
        }
    }

    /// How many entries ordered synthesis enumerates.
    fn alt_count_exec(&self) -> (r: u64)
        requires
            arena_wf(self.nodes@),
        ensures
            r == self.alt_count(),
    {
        let e = self.enum_node_exec();
        proof {
            assert(node_wf(self.nodes@, e as int));
        }
        match &self.nodes[e] {
            MutatorNode::Alt(ids) => ids.len() as u64,
            _ => 1u64,
        }
    }

    /// The canonical cheapest tree of root alternative `k`, or of the
    /// root itself when the root offers no alternatives; absent when
    /// that tree does not fit the budget.
    fn gen_min_alternative(&self, k: u64, max_cplx: u64) -> (r: Option<(AST, u64)>)
        requires
            arena_wf(self.nodes@),
            mins_consistent(self.nodes@, self.min_cplx@),
            k < self.alt_count(),
        ensures
            match r {
                Some((v, c)) => {
                    &&& ast_matches(self.nodes@, 0, v)
                    &&& c == ast_cplx(v)
                    &&& self.min_cplx@[0] <= max_cplx
                    &&& c <= max_cplx
                },
                None => true,
            },
    {
        let e = self.enum_node_exec();
        proof {
            assert(node_wf(self.nodes@, 0));
            assert(node_wf(self.nodes@, e as int));
            assert(min_consistent_at(self.nodes@, self.min_cplx@, 0));
            assert(min_consistent_at(self.nodes@, self.min_cplx@, e as int));
        }
        let target: usize = match &self.nodes[e] {
            MutatorNode::Alt(ids) => {
                proof {
                    assert(self.nodes@[e as int]->Alt_0 == *ids);
                    assert(e < ids@[k as int] < self.nodes@.len());
                }
                ids[k as usize]
            },
            _ => e,
        };
        let mc = self.min_cplx[target];
        if mc > max_cplx {
            return None;
        }
        let v = self.gen_min(target);
        proof {
            assert(ast_matches(self.nodes@, e as int, v));
            assert(ast_matches(self.nodes@, 0, v));
            assert(self.min_cplx@[e as int] <= mc);
            assert(self.min_cplx@[0] <= mc);
        }
        Some((v, mc))
    }

    /// The compiled arena.
    pub closed spec fn arena(self) -> Seq<MutatorNode> {
        self.nodes@
    }

    /// The minimum-complexity table, one entry per arena node.
    pub closed spec fn mins(self) -> Seq<u64> {
        self.min_cplx@
    }

    /// Assemble a mutator from compiled nodes and a minimum-complexity
    /// table, accepting exactly the well-formed combinations.
    pub fn from_parts(nodes: Vec<MutatorNode>, mins: Vec<u64>) -> (r: Option<ASTMutator>)
        ensures
            r is Some <==> arena_wf(nodes@) && mins@.len() == nodes@.len() && mins_consistent(
                nodes@,
                mins@,
            ),
            match r {
                Some(m) => m.s_wf() && m.arena() == nodes@ && m.mins() == mins@,
                None => true,
            },
    {
        if !check_arena(&nodes) {
            return None;
        }
        if mins.len() != nodes.len() {
            return None;
        }
        if !check_consistent(&nodes, &mins) {
            return None;
        }
        Some(ASTMutator { nodes, min_cplx: mins })
    }
}

impl Mutator<AST> for ASTMutator {
    type Cache = ASTMutatorCache;

    type MutationStep = ASTMutatorMutationStep;

    type ArbitraryStep = ASTMutatorArbitraryStep;

    type UnmutateToken = ASTMutatorUnmutateToken;

    closed spec fn s_wf(&self) -> bool {
        arena_wf(self.nodes@) && mins_consistent(self.nodes@, self.min_cplx@)
    }

    closed spec fn s_valid(&self, v: AST) -> bool {
        ast_matches(self.nodes@, 0, v)
    }

    closed spec fn s_cache(&self, v: AST) -> ASTMutatorCache {
        ASTMutatorCache { cplx: ast_cplx(v) }
    }

    closed spec fn s_cplx(&self, v: AST) -> u64 {
        ast_cplx(v)
    }

    closed spec fn s_min_cplx(&self) -> u64 {
        self.min_cplx@[0]
    }

    closed spec fn s_max_cplx(&self) -> u64 {
        u64::MAX
    }

    closed spec fn s_undo(&self, t: ASTMutatorUnmutateToken, v: AST) -> AST {
        t.inner
    }

    closed spec fn s_token_fits(&self, t: ASTMutatorUnmutateToken) -> bool {
        true
    }

    closed spec fn s_default_arb_step(&self) -> ASTMutatorArbitraryStep {
        ASTMutatorArbitraryStep { inner: 0 }
    }

    closed spec fn s_default_mut_step(&self, v: AST) -> ASTMutatorMutationStep {
        ASTMutatorMutationStep { inner: 0 }
    }

    closed spec fn s_arb_remaining(&self, step: ASTMutatorArbitraryStep) -> nat {
        if step.inner >= self.alt_count() {
            0
        } else {
            (self.alt_count() - step.inner) as nat
        }
    }

    closed spec fn s_mut_remaining(&self, v: AST, step: ASTMutatorMutationStep) -> nat {
        if step.inner >= self.alt_count() {
            0
        } else {
            (self.alt_count() - step.inner) as nat
        }
    }

    proof fn cplx_bounds(&self, v: AST) {
        lemma_min_cplx(self.nodes@, self.min_cplx@, 0, v);
    }

    fn default_arbitrary_step(&self) -> ASTMutatorArbitraryStep {
        ASTMutatorArbitraryStep { inner: 0 }
    }

    fn is_valid(&self, value: &AST) -> (r: bool) {
        check_matches(&self.nodes, 0, value)
    }

    fn validate_value(&self, value: &AST) -> (r: Option<ASTMutatorCache>) {
        if check_matches(&self.nodes, 0, value) {
            let c = crate::grammar::ast_complexity(value);
            Some(ASTMutatorCache { cplx: c })
        } else {
            None
        }
    }

    fn default_mutation_step(&self, value: &AST, cache: &ASTMutatorCache) -> ASTMutatorMutationStep {
        ASTMutatorMutationStep { inner: 0 }
    }

    fn max_complexity(&self) -> (r: u64) {
        u64::MAX
    }

    fn min_complexity(&self) -> (r: u64) {
        self.min_cplx[0]
    }

    fn complexity(&self, value: &AST, cache: &ASTMutatorCache) -> (r: u64) {
        cache.cplx
    }

    fn ordered_arbitrary(&self, step: &mut ASTMutatorArbitraryStep, max_cplx: u64) -> (r: Option<
        (AST, u64),
    >) {
        let count = self.alt_count_exec();
        let mut s = step.inner;
        while s < count
            invariant
                arena_wf(self.nodes@),
                mins_consistent(self.nodes@, self.min_cplx@),
                count == self.alt_count(),
                step.inner <= s,
                old(step).inner == step.inner,
            decreases count - s,
        {
            let k = s;
            s = s + 1;
            if let Some((v, c)) = self.gen_min_alternative(k, max_cplx) {
                step.inner = s;
                return Some((v, c));
            }
        }
        step.inner = s;
        None
    }

    fn random_arbitrary(&self, max_cplx: u64) -> (r: (AST, u64)) {
        let mc = self.min_cplx[0];
        let budget = if max_cplx >= mc {
            max_cplx
        } else {
            mc
        };
        self.gen_random(0, budget)
    }

    fn ordered_mutate(
        &self,
        value: &mut AST,
        cache: &mut ASTMutatorCache,
        step: &mut ASTMutatorMutationStep,
        max_cplx: u64,
    ) -> (r: Option<(ASTMutatorUnmutateToken, u64)>) {
        let count = self.alt_count_exec();
        let mut s = step.inner;
        while s < count
            invariant
                arena_wf(self.nodes@),
                mins_consistent(self.nodes@, self.min_cplx@),
                count == self.alt_count(),
                step.inner <= s,
                old(step).inner == step.inner,
                *value == *old(value),
                *cache == *old(cache),
            decreases count - s,
        {
            let k = s;
            s = s + 1;
            if let Some((v, c)) = self.gen_min_alternative(k, max_cplx) {
                step.inner = s;
                let mut fresh = v;
                core::mem::swap(value, &mut fresh);
                *cache = ASTMutatorCache { cplx: c };
                return Some((ASTMutatorUnmutateToken { inner: fresh }, c));
            }
        }
        step.inner = s;
        None
    }

    fn random_mutate(&self, value: &mut AST, cache: &mut ASTMutatorCache, max_cplx: u64) -> (r: (
        ASTMutatorUnmutateToken,
        u64,
    )) {
        let mc = self.min_cplx[0];
        let budget = if max_cplx >= mc {
            max_cplx
        } else {
            mc
        };
        let (v, c) = self.gen_random(0, budget);
        let mut fresh = v;
        core::mem::swap(value, &mut fresh);
        *cache = ASTMutatorCache { cplx: c };
        (ASTMutatorUnmutateToken { inner: fresh }, c)
    }

    fn unmutate(&self, value: &mut AST, cache: &mut ASTMutatorCache, t: ASTMutatorUnmutateToken) {
        *value = t.inner;
        let c = crate::grammar::ast_complexity(value);
        *cache = ASTMutatorCache { cplx: c };
    }
}

/// The complexity a syntax-tree mutator reports is the tree complexity.
pub proof fn lemma_ast_mutator_cplx(m: &ASTMutator, v: AST)
    ensures
        m.s_cplx(v) == ast_cplx(v),
{
}

/// The cache a syntax-tree mutator derives holds exactly the tree
/// complexity.
pub proof fn lemma_ast_mutator_cache(m: &ASTMutator, v: AST, c: ASTMutatorCache)
    ensures
        (c == m.s_cache(v)) <==> (c.spec_cplx() == ast_cplx(v)),
{
}

/// A syntax-tree mutator's unmutate token restores the tree it carries.
pub proof fn lemma_ast_mutator_undo(m: &ASTMutator, t: ASTMutatorUnmutateToken, v: AST)
    ensures
        m.s_undo(t, v) == t.spec_inner(),
{
}

/// What a syntax-tree mutator recognizes is exactly what its compiled
/// arena matches at the root.
pub proof fn lemma_ast_mutator_valid(m: &ASTMutator, a: AST)
    ensures
        m.s_valid(a) == ast_matches(m.arena(), 0, a),
{
}

/// A syntax-tree mutator is well formed exactly when its arena and its
/// minimum table are.
pub proof fn lemma_ast_mutator_wf(m: &ASTMutator)
    ensures
        m.s_wf() == (arena_wf(m.arena()) && mins_consistent(m.arena(), m.mins())),
{
}

/// Every token fits a syntax-tree mutator: its tokens carry whole trees.
pub proof fn lemma_ast_mutator_token_fits(m: &ASTMutator, t: ASTMutatorUnmutateToken)
    ensures
        m.s_token_fits(t),
{
}

} // verus!
