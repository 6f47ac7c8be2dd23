//! One node of the expression arena, and the basic spec views of a graph.

use vstd::prelude::*;

use crate::ops::op_operands;
use crate::ops::Operation;
use crate::ops::PendingView;

verus! {

/// One node of the expression arena.
pub struct Node {
    /// The operation (or leaf value) this node carries.
    pub op: Operation,
    /// Memoized result, as IEEE-754 bits. For a leaf this always mirrors the
    /// current value; for an expression node `None` means "must be
    /// recomputed".
    pub cache: Option<u32>,
    /// Dependents: the indices of the nodes that use this node as an
    /// operand, in insertion order, duplicates permitted. Used only to
    /// route invalidation.
    pub deps: Vec<usize>,
}

/// The operand indices of node `i`, in declared left-to-right order.
pub open spec fn operands_of(g: Seq<Node>, i: int) -> Seq<int> {
    op_operands(g[i].op)
}

/// The dependent indices of node `i`, in insertion order.
pub open spec fn deps_of(g: Seq<Node>, i: int) -> Seq<int> {
    g[i].deps@.map_values(|d: usize| d as int)
}

/// Whether node `i` is a leaf.
pub open spec fn is_input(g: Seq<Node>, i: int) -> bool {
    g[i].op is Input
}

/// Whether node `i`'s value is available without recomputation.
pub open spec fn avail(g: Seq<Node>, i: int) -> bool {
    g[i].cache is Some
}

/// The memoized bits of node `i`; meaningful when `avail(g, i)`.
pub open spec fn value_of(g: Seq<Node>, i: int) -> u32 {
    g[i].cache->0
}

/// The work item that evaluating node `i` hands to the numeric kernel: its
/// operation with the operand values filled in. Meaningful when `i` is an
/// expression node whose operands are all available.
pub open spec fn pending_of(g: Seq<Node>, i: int) -> PendingView {
    match g[i].op {
        Operation::Input(_) => vstd::pervasive::arbitrary(),
        Operation::Add(x, y) => PendingView::Add(value_of(g, x as int), value_of(g, y as int)),
        Operation::AddVar(args) => PendingView::AddVar(
            args@.map_values(|a: usize| value_of(g, a as int)),
        ),
        Operation::Sub(x, y) => PendingView::Sub(value_of(g, x as int), value_of(g, y as int)),
        Operation::Mul(x, y) => PendingView::Mul(value_of(g, x as int), value_of(g, y as int)),
        Operation::Pow(x, e) => PendingView::Pow(value_of(g, x as int), e),
        Operation::Sin(x) => PendingView::Sin(value_of(g, x as int)),
    }
}

/// The pending work item of a node only looks at its operation and at the
/// values of its operands.
pub proof fn lemma_pending_stable(g1: Seq<Node>, g2: Seq<Node>, j: int)
    requires
        0 <= j < g1.len(),
        g1.len() == g2.len(),
        g1[j].op == g2[j].op,
        !is_input(g1, j),
        forall|k: int|
            0 <= k < operands_of(g1, j).len() ==> value_of(g1, #[trigger] operands_of(g1, j)[k])
                == value_of(g2, operands_of(g1, j)[k]),
    ensures
        pending_of(g1, j) == pending_of(g2, j),
{
    match g1[j].op {
        Operation::Input(_) => {
            assert(false);
        },
        Operation::Add(x, y) => {
            assert(operands_of(g1, j)[0] == x as int);
            assert(operands_of(g1, j)[1] == y as int);
        },
        Operation::AddVar(args) => {
            assert forall|k: int| 0 <= k < args@.len() implies value_of(g1, #[trigger] args@[k] as int)
                == value_of(g2, args@[k] as int) by {
                assert(operands_of(g1, j)[k] == args@[k] as int);
            }
            assert(args@.map_values(|a: usize| value_of(g1, a as int)) =~= args@.map_values(
                |a: usize| value_of(g2, a as int),
            ));
        },
        Operation::Sub(x, y) => {
            assert(operands_of(g1, j)[0] == x as int);
            assert(operands_of(g1, j)[1] == y as int);
        },
        Operation::Mul(x, y) => {
            assert(operands_of(g1, j)[0] == x as int);
            assert(operands_of(g1, j)[1] == y as int);
        },
        Operation::Pow(x, _e) => {
            assert(operands_of(g1, j)[0] == x as int);
        },
        Operation::Sin(x) => {
            assert(operands_of(g1, j)[0] == x as int);
        },
    }
}

/// How many times `x` occurs in `s`.
pub open spec fn count_of(s: Seq<usize>, x: usize) -> nat
    decreases s.len(),
{
    if s.len() == 0 {
        0
    } else {
        count_of(s.drop_last(), x) + if s.last() == x {
            1nat
        } else {
            0nat
        }
    }
}

/// `x` repeated `n_times` times.
pub open spec fn repeated(n_times: nat, x: usize) -> Seq<usize> {
    Seq::new(n_times, |_k: int| x)
}

/// Appending one element raises its own count by one and no other.
pub proof fn lemma_count_push(s: Seq<usize>, x: usize, y: usize)
    ensures
        count_of(s.push(x), y) == count_of(s, y) + if x == y {
            1nat
        } else {
            0nat
        },
{
    assert(s.push(x).drop_last() =~= s);
    assert(s.push(x).last() == x);
}

/// Widening a dependents list to indices commutes with appending.
pub proof fn lemma_map_int_push(s: Seq<usize>, e: usize)
    ensures
        s.push(e).map_values(|d: usize| d as int) == s.map_values(|d: usize| d as int).push(
            e as int,
        ),
{
    assert(s.push(e).map_values(|d: usize| d as int) =~= s.map_values(|d: usize| d as int).push(
        e as int,
    ));
}

/// Membership in a sequence after appending one element.
pub proof fn lemma_push_contains<A>(s: Seq<A>, e: A, d: A)
    ensures
        s.push(e).contains(d) <==> (s.contains(d) || d == e),
{
    if s.push(e).contains(d) {
        let k = choose|k: int| 0 <= k < s.push(e).len() && s.push(e)[k] == d;
        if k < s.len() {
            assert(s[k] == d);
        }
    }
    if s.contains(d) {
        let k = choose|k: int| 0 <= k < s.len() && s[k] == d;
        assert(s.push(e)[k] == d);
    }
    if d == e {
        assert(s.push(e)[s.len() as int] == d);
    }
}

} // verus!
