//! The expression arena: node construction, dependent wiring, memoized
//! evaluation and invalidation propagation.

use vstd::prelude::*;

use crate::node::avail;
use crate::node::count_of;
use crate::node::deps_of;
use crate::node::is_input;
use crate::node::lemma_map_int_push;
use crate::node::lemma_pending_stable;
use crate::node::lemma_push_contains;
use crate::node::operands_of;
use crate::node::lemma_count_push;
use crate::node::pending_of;
use crate::node::repeated;
use crate::node::value_of;
use crate::node::Node;
use crate::ops::Operation;
use crate::ops::PendingOp;
use crate::reach::depends_on;
use crate::reach::lemma_depends_stable;
use crate::reach::lemma_depends_step;
use crate::reach::lemma_unavail_fill;
use crate::reach::unavail_set;
use crate::reach::cache_closed;
use crate::reach::deps_wf;
use crate::reach::inputs_cached;
use crate::reach::inv;
use crate::reach::lemma_dep_is_expr;
use crate::reach::lemma_reaches_bounds;
use crate::reach::lemma_reaches_stable;
use crate::reach::lemma_reaches_step;
use crate::reach::lemma_reaches_trans;
use crate::reach::ops_wf;
use crate::reach::reaches;
use crate::reach::same_deps;
use crate::reach::same_shape;
use crate::reach::shape_at;
use crate::reach::wf;
use crate::reach::wired;

verus! {

/// An arena of expression nodes. Nodes are addressed by the index that
/// their constructor returned; the arena owns every node, so an operand
/// index can never dangle while the arena lives.
pub struct Graph {
    nodes: Vec<Node>,
}

impl View for Graph {
    type V = Seq<Node>;

    closed spec fn view(&self) -> Seq<Node> {
        self.nodes@
    }
}

/// Extending an arena that satisfies the invariant with one fresh node —
/// appended at the end, its operands all existing nodes, itself recorded as
/// a dependent of exactly its operands — yields an arena that satisfies the
/// invariant again.
proof fn lemma_extend_inv(g0: Seq<Node>, g1: Seq<Node>, ops: Seq<int>)
    requires
        inv(g0),
        g1.len() == g0.len() + 1,
        operands_of(g1, g0.len() as int) == ops,
        forall|k: int| 0 <= k < ops.len() ==> 0 <= #[trigger] ops[k] < g0.len(),
        deps_of(g1, g0.len() as int).len() == 0,
        (g1[g0.len() as int].op matches Operation::Input(b) ==> g1[g0.len() as int].cache == Some(
            b,
        )),
        is_input(g1, g0.len() as int) || g1[g0.len() as int].cache is None,
        forall|j: int|
            0 <= j < g0.len() ==> (#[trigger] g1[j]).op == g0[j].op && g1[j].cache == g0[j].cache,
        forall|j: int, d: int|
            0 <= j < g0.len() ==> (#[trigger] deps_of(g1, j).contains(d) <==> deps_of(
                g0,
                j,
            ).contains(d) || (d == g0.len() && ops.contains(j))),
    ensures
        inv(g1),
{
    let n = g0.len() as int;
    // Operand lists are unchanged on the old nodes.
    assert forall|j: int| 0 <= j < n implies operands_of(g1, j) == operands_of(g0, j) by {
        assert(g1[j].op == g0[j].op);
    }
    assert(ops_wf(g1)) by {
        assert forall|i: int, k: int|
            0 <= i < g1.len() && 0 <= k < operands_of(g1, i).len() implies 0 <= #[trigger] operands_of(g1, i)[k] < i by {
            if i < n {
                assert(operands_of(g1, i) == operands_of(g0, i));
            } else {
                assert(operands_of(g1, i) == ops);
            }
        }
    }
    assert(deps_wf(g1)) by {
        assert forall|i: int, k: int|
            0 <= i < g1.len() && 0 <= k < deps_of(g1, i).len() implies i < #[trigger] deps_of(g1, i)[k] < g1.len() by {
            if i < n {
                let d = deps_of(g1, i)[k];
                assert(deps_of(g1, i).contains(d));
                if deps_of(g0, i).contains(d) {
                    let k0 = choose|k0: int| 0 <= k0 < deps_of(g0, i).len() && deps_of(g0, i)[k0] == d;
                    assert(i < deps_of(g0, i)[k0] < g0.len());
                } else {
                    assert(d == n && ops.contains(i));
                    let ko = choose|ko: int| 0 <= ko < ops.len() && ops[ko] == i;
                    assert(0 <= ops[ko] < g0.len());
                }
            }
        }
    }
    assert(wired(g1)) by {
        assert forall|i: int, j: int|
            0 <= i < g1.len() && 0 <= j < g1.len() && #[trigger] deps_of(g1, j).contains(i) implies
            operands_of(g1, i).contains(j) by {
            if j < n {
                if deps_of(g0, j).contains(i) {
                    assert(operands_of(g0, i).contains(j));
                    assert(i < n) by {
                        let k0 = choose|k0: int| 0 <= k0 < deps_of(g0, j).len() && deps_of(g0, j)[k0]
                            == i;
                        assert(j < deps_of(g0, j)[k0] < g0.len());
                    }
                    assert(operands_of(g1, i) == operands_of(g0, i));
                } else {
                    assert(i == n && ops.contains(j));
                    assert(operands_of(g1, i) == ops);
                }
            } else {
                // the new node has no dependents
                assert(deps_of(g1, j).len() == 0);
                let kk = choose|kk: int| 0 <= kk < deps_of(g1, j).len() && deps_of(g1, j)[kk] == i;
                assert(false);
            }
        }
        assert forall|i: int, j: int|
            0 <= i < g1.len() && 0 <= j < g1.len() && #[trigger] operands_of(g1, i).contains(j)
            implies deps_of(g1, j).contains(i) by {
            if i < n {
                assert(operands_of(g1, i) == operands_of(g0, i));
                assert(deps_of(g0, j).contains(i));
                assert(j < n) by {
                    let k0 = choose|k0: int| 0 <= k0 < operands_of(g0, i).len() && operands_of(
                        g0,
                        i,
                    )[k0] == j;
                    assert(0 <= operands_of(g0, i)[k0] < i);
                }
            } else {
                assert(operands_of(g1, i) == ops);
                assert(0 <= j < g0.len()) by {
                    let ko = choose|ko: int| 0 <= ko < ops.len() && ops[ko] == j;
                    assert(0 <= ops[ko] < g0.len());
                }
            }
        }
    }
    assert(inputs_cached(g1));
    assert(cache_closed(g1)) by {
        assert forall|i: int, k: int|
            0 <= i < g1.len() && avail(g1, i) && 0 <= k < operands_of(g1, i).len() implies avail(g1, #[trigger] operands_of(g1, i)[k]) by {
            if i < n {
                assert(operands_of(g1, i) == operands_of(g0, i));
                assert(avail(g0, i));
                assert(avail(g0, operands_of(g0, i)[k]));
                assert(0 <= operands_of(g0, i)[k] < i);
            } else {
                assert(operands_of(g1, i) == ops);
                if is_input(g1, i) {
                    assert(operands_of(g1, i).len() == 0);
                } else {
                    assert(!avail(g1, i));
                }
            }
        }
    }
}

/// The invariant survives appending a binary expression node over operands
/// `x` and `y` and recording it as their dependent.
proof fn lemma_extend_binary(g0: Seq<Node>, g1: Seq<Node>, x: usize, y: usize, iu: usize)
    requires
        inv(g0),
        x < g0.len(),
        y < g0.len(),
        iu == g0.len(),
        g1.len() == g0.len() + 1,
        operands_of(g1, iu as int) == seq![x as int, y as int],
        deps_of(g1, iu as int).len() == 0,
        !is_input(g1, iu as int),
        g1[iu as int].cache is None,
        forall|j: int|
            0 <= j < g0.len() ==> (#[trigger] g1[j]).op == g0[j].op && g1[j].cache == g0[j].cache,
        forall|j: int| 0 <= j < g0.len() && j != x && j != y ==> #[trigger] g1[j] == g0[j],
        x != y ==> g1[x as int].deps@ == g0[x as int].deps@.push(iu) && g1[y as int].deps@ == g0[y as int].deps@.push(iu),
        x == y ==> g1[x as int].deps@ == g0[x as int].deps@.push(iu).push(iu),
    ensures
        inv(g1),
{
    let ops = seq![x as int, y as int];
    assert(ops.contains(x as int)) by {
        assert(ops[0] == x as int);
    }
    assert(ops.contains(y as int)) by {
        assert(ops[1] == y as int);
    }
    assert forall|j: int, d: int|
        0 <= j < g0.len() implies (#[trigger] deps_of(g1, j).contains(d) <==> deps_of(
        g0,
        j,
    ).contains(d) || (d == g0.len() && ops.contains(j))) by {
        if j == x as int || j == y as int {
            if x != y {
                lemma_map_int_push(g0[j].deps@, iu);
                assert(deps_of(g1, j) == deps_of(g0, j).push(iu as int));
                lemma_push_contains(deps_of(g0, j), iu as int, d);
            } else {
                lemma_map_int_push(g0[j].deps@, iu);
                lemma_map_int_push(g0[j].deps@.push(iu), iu);
                assert(deps_of(g1, j) == deps_of(g0, j).push(iu as int).push(iu as int));
                lemma_push_contains(deps_of(g0, j).push(iu as int), iu as int, d);
                lemma_push_contains(deps_of(g0, j), iu as int, d);
            }
        } else {
            assert(g1[j] == g0[j]);
            if ops.contains(j) {
                let k = choose|k: int| 0 <= k < ops.len() && ops[k] == j;
                assert(k == 0 || k == 1);
                assert(false);
            }
        }
    }
    lemma_extend_inv(g0, g1, ops);
}

/// The invariant survives appending a unary expression node over operand
/// `x` and recording it as `x`'s dependent.
proof fn lemma_extend_unary(g0: Seq<Node>, g1: Seq<Node>, x: usize, iu: usize)
    requires
        inv(g0),
        x < g0.len(),
        iu == g0.len(),
        g1.len() == g0.len() + 1,
        operands_of(g1, iu as int) == seq![x as int],
        deps_of(g1, iu as int).len() == 0,
        !is_input(g1, iu as int),
        g1[iu as int].cache is None,
        forall|j: int|
            0 <= j < g0.len() ==> (#[trigger] g1[j]).op == g0[j].op && g1[j].cache == g0[j].cache,
        forall|j: int| 0 <= j < g0.len() && j != x ==> #[trigger] g1[j] == g0[j],
        g1[x as int].deps@ == g0[x as int].deps@.push(iu),
    ensures
        inv(g1),
{
    let ops = seq![x as int];
    assert(ops.contains(x as int)) by {
        assert(ops[0] == x as int);
    }
    assert forall|j: int, d: int|
        0 <= j < g0.len() implies (#[trigger] deps_of(g1, j).contains(d) <==> deps_of(
        g0,
        j,
    ).contains(d) || (d == g0.len() && ops.contains(j))) by {
        if j == x as int {
            lemma_map_int_push(g0[j].deps@, iu);
            assert(deps_of(g1, j) == deps_of(g0, j).push(iu as int));
            lemma_push_contains(deps_of(g0, j), iu as int, d);
        } else {
            assert(g1[j] == g0[j]);
            if ops.contains(j) {
                let k = choose|k: int| 0 <= k < ops.len() && ops[k] == j;
                assert(false);
            }
        }
    }
    lemma_extend_inv(g0, g1, ops);
}

/// After clearing the caches of everything reachable from `i` — node `i`
/// included — while leaving every other node alone, an available node still
/// never rests on an unavailable operand.
proof fn lemma_clear_preserves_closed(g0: Seq<Node>, g1: Seq<Node>, i: int)
    requires
        wf(g0),
        cache_closed(g0),
        0 <= i < g0.len(),
        same_shape(g0, g1),
        forall|j: int|
            0 <= j < g0.len() && reaches(g0, i, j) ==> (#[trigger] g1[j]).cache is None,
        forall|j: int| 0 <= j < g0.len() && !reaches(g0, i, j) ==> #[trigger] g1[j] == g0[j],
    ensures
        cache_closed(g1),
{
    crate::reach::lemma_shape_preserves_edges(g0, g1);
    assert forall|n: int, k: int|
        0 <= n < g1.len() && avail(g1, n) && 0 <= k < operands_of(g1, n).len() implies avail(
        g1,
        #[trigger] operands_of(g1, n)[k],
    ) by {
        assert(reaches(g0, n, n));
        if reaches(g0, i, n) {
            assert(g1[n].cache is None);
            assert(false);
        }
        assert(g1[n] == g0[n]);
        assert(operands_of(g1, n) == operands_of(g0, n));
        let o = operands_of(g0, n)[k];
        assert(0 <= o < n);
        assert(avail(g0, o));
        if reaches(g0, i, o) {
            assert(operands_of(g0, n).contains(o));
            assert(deps_of(g0, o).contains(n));
            lemma_reaches_step(g0, o, n, n);
            lemma_reaches_trans(g0, i, o, n);
            assert(false);
        }
        assert(g1[o] == g0[o]);
    }
}

/// After overwriting a leaf's value and clearing everything it reaches, an
/// available node still never rests on an unavailable operand.
proof fn lemma_set_preserves_closed(g1: Seq<Node>, g2: Seq<Node>, i: int)
    requires
        wf(g1),
        cache_closed(g1),
        0 <= i < g1.len(),
        is_input(g1, i),
        same_deps(g1, g2),
        forall|j: int|
            0 <= j < g1.len() ==> (#[trigger] g2[j]).op == g1[j].op && operands_of(g2, j)
                == operands_of(g1, j),
        g2[i].cache is Some,
        forall|j: int|
            0 <= j < g1.len() && j != i && reaches(g1, i, j) ==> (#[trigger] g2[j]).cache is None,
        forall|j: int| 0 <= j < g1.len() && !reaches(g1, i, j) ==> #[trigger] g2[j] == g1[j],
    ensures
        cache_closed(g2),
{
    assert forall|n: int, k: int|
        0 <= n < g2.len() && avail(g2, n) && 0 <= k < operands_of(g2, n).len() implies avail(
        g2,
        #[trigger] operands_of(g2, n)[k],
    ) by {
        assert(operands_of(g2, n) == operands_of(g1, n));
        if n == i {
            assert(operands_of(g1, n).len() == 0);
        } else {
            assert(reaches(g1, n, n));
            if reaches(g1, i, n) {
                assert(g2[n].cache is None);
                assert(false);
            }
            assert(g2[n] == g1[n]);
            let o = operands_of(g1, n)[k];
            assert(0 <= o < n);
            assert(avail(g1, o));
            if o == i {
                assert(avail(g2, o));
            } else {
                if reaches(g1, i, o) {
                    assert(operands_of(g1, n).contains(o));
                    assert(deps_of(g1, o).contains(n));
                    lemma_reaches_step(g1, o, n, n);
                    lemma_reaches_trans(g1, i, o, n);
                    assert(false);
                }
                assert(g2[o] == g1[o]);
            }
        }
    }
}

impl Graph {
    /// Creates an empty arena.
    pub fn new() -> (g: Graph)
        ensures
            g@.len() == 0,
            inv(g@),
    {
        Graph { nodes: Vec::new() }
    }

    /// The number of nodes in the arena.
    pub fn len(&self) -> (n: usize)
        ensures
            n == self@.len(),
    {
        self.nodes.len()
    }

    /// The memoized result of node `i`: the current value of a leaf, or the
    /// cached bits of an expression node, if it has any.
    pub fn cached(&self, i: usize) -> (r: Option<u32>)
        requires
            i < self@.len(),
        ensures
            r == self@[i as int].cache,
    {
        self.nodes[i].cache
    }

    /// How many dependent entries node `i` carries.
    pub fn dependent_count(&self, i: usize) -> (n: usize)
        requires
            i < self@.len(),
        ensures
            n == deps_of(self@, i as int).len(),
    {
        self.nodes[i].deps.len()
    }

    /// Creates a leaf node holding `value` (IEEE-754 bits); its dependents
    /// list starts empty.
    pub fn input(&mut self, value: u32) -> (i: usize)
        requires
            inv(old(self)@),
        ensures
            inv(final(self)@),
            i == old(self)@.len(),
            final(self)@.len() == old(self)@.len() + 1,
            forall|j: int| 0 <= j < old(self)@.len() ==> #[trigger] final(self)@[j] == old(self)@[j],
            final(self)@[i as int].op == Operation::Input(value),
            final(self)@[i as int].cache == Some(value),
            deps_of(final(self)@, i as int).len() == 0,
    {
        let i = self.nodes.len();
        self.nodes.push(Node { op: Operation::Input(value), cache: Some(value), deps: Vec::new() });
        proof {
            let g0 = old(self)@;
            let g1 = self@;
            assert(operands_of(g1, g0.len() as int) == Seq::<int>::empty());
            assert forall|j: int, d: int|
                0 <= j < g0.len() implies (#[trigger] deps_of(g1, j).contains(d) <==> deps_of(
                g0,
                j,
            ).contains(d) || (d == g0.len() && Seq::<int>::empty().contains(j))) by {
                assert(g1[j] == g0[j]);
                assert(!Seq::<int>::empty().contains(j));
            }
            lemma_extend_inv(g0, g1, Seq::empty());
        }
        i
    }

    /// Creates an expression node for the sum of nodes `x` and `y`, and
    /// records the new node as a dependent of both.
    pub fn add(&mut self, x: usize, y: usize) -> (i: usize)
        requires
            inv(old(self)@),
            x < old(self)@.len(),
            y < old(self)@.len(),
        ensures
            inv(final(self)@),
            i == old(self)@.len(),
            final(self)@.len() == old(self)@.len() + 1,
            final(self)@[i as int].op == Operation::Add(x, y),
            final(self)@[i as int].cache is None,
            deps_of(final(self)@, i as int).len() == 0,
            forall|j: int|
                0 <= j < old(self)@.len() ==> (#[trigger] final(self)@[j]).op == old(self)@[j].op
                    && final(self)@[j].cache == old(self)@[j].cache,
            forall|j: int|
                0 <= j < old(self)@.len() && j != x && j != y ==> #[trigger] final(self)@[j] == old(self)@[j],
            x != y ==> final(self)@[x as int].deps@ == old(self)@[x as int].deps@.push(i) && final(self)@[y as int].deps@ == old(self)@[y as int].deps@.push(i),
            x == y ==> final(self)@[x as int].deps@ == old(self)@[x as int].deps@.push(i).push(i),
    {
        let i = self.nodes.len();
        self.nodes.push(Node { op: Operation::Add(x, y), cache: None, deps: Vec::new() });
        self.nodes[x].deps.push(i);
        self.nodes[y].deps.push(i);
        proof {
            assert(operands_of(self@, i as int) == seq![x as int, y as int]);
            lemma_extend_binary(old(self)@, self@, x, y, i);
        }
        i
    }

    /// Creates an expression node summing every node in `args`, in declared
    /// order (the empty sum evaluates to zero), and records the new node as
    /// a dependent of each of them — once per occurrence.
    pub fn add_var(&mut self, args: Vec<usize>) -> (i: usize)
        requires
            inv(old(self)@),
            forall|k: int| 0 <= k < args@.len() ==> (#[trigger] args@[k]) < old(self)@.len(),
        ensures
            inv(final(self)@),
            i == old(self)@.len(),
            final(self)@.len() == old(self)@.len() + 1,
            final(self)@[i as int].op == Operation::AddVar(args),
            final(self)@[i as int].cache is None,
            deps_of(final(self)@, i as int).len() == 0,
            forall|j: int|
                0 <= j < old(self)@.len() ==> (#[trigger] final(self)@[j]).op == old(self)@[j].op
                    && final(self)@[j].cache == old(self)@[j].cache,
            forall|j: int|
                0 <= j < old(self)@.len() && !args@.contains(j as usize) ==> #[trigger] final(self)@[j] == old(self)@[j],
            forall|j: int, d: int|
                0 <= j < old(self)@.len() ==> (#[trigger] deps_of(final(self)@, j).contains(d) <==>
                    deps_of(old(self)@, j).contains(d) || (d == i && args@.contains(j as usize))),
            forall|j: int|
                0 <= j < old(self)@.len() ==> (#[trigger] final(self)@[j]).deps@ == old(self)@[j].deps@ + repeated(count_of(args@, j as usize), i),
    {
        let ghost argsv = args@;
        let i = self.nodes.len();
        let n = args.len();
        proof {
            assert forall|j: int|
                0 <= j < old(self)@.len() implies (#[trigger] self@[j]).deps@ == old(self)@[j].deps@
                + repeated(count_of(argsv.take(0), j as usize), i) by {
                assert(argsv.take(0).len() == 0);
                assert(count_of(argsv.take(0), j as usize) == 0);
                assert(old(self)@[j].deps@ + repeated(0nat, i) =~= old(self)@[j].deps@);
            }
        }
        let mut k: usize = 0;
        while k < n
            invariant
                self@.len() == old(self)@.len(),
                i == old(self)@.len(),
                n == argsv.len(),
                argsv == args@,
                k <= n,
                forall|kk: int| 0 <= kk < argsv.len() ==> (#[trigger] argsv[kk]) < old(self)@.len(),
                forall|j: int|
                    0 <= j < old(self)@.len() ==> (#[trigger] self@[j]).op == old(self)@[j].op
                        && self@[j].cache == old(self)@[j].cache,
                forall|j: int|
                    0 <= j < old(self)@.len() && !argsv.take(k as int).contains(j as usize)
                        ==> #[trigger] self@[j] == old(self)@[j],
                forall|j: int, d: int|
                    0 <= j < old(self)@.len() ==> (#[trigger] deps_of(self@, j).contains(d) <==>
                        deps_of(old(self)@, j).contains(d) || (d == i && argsv.take(
                        k as int,
                    ).contains(j as usize))),
                forall|j: int|
                    0 <= j < old(self)@.len() ==> (#[trigger] self@[j]).deps@ == old(self)@[j].deps@
                        + repeated(count_of(argsv.take(k as int), j as usize), i),
            decreases n - k,
        {
            let a = args[k];
            let ghost gprev = self@;
            self.nodes[a].deps.push(i);
            proof {
                assert(argsv.take(k as int + 1) =~= argsv.take(k as int).push(a));
                lemma_map_int_push(gprev[a as int].deps@, i);
                assert(deps_of(self@, a as int) == deps_of(gprev, a as int).push(i as int));
                assert(argsv.take(k as int + 1).contains(a)) by {
                    assert(argsv.take(k as int + 1)[k as int] == a);
                }
                assert forall|j: int, d: int|
                    0 <= j < old(self)@.len() implies (#[trigger] deps_of(self@, j).contains(d)
                    <==> deps_of(old(self)@, j).contains(d) || (d == i && argsv.take(
                    k as int + 1,
                ).contains(j as usize))) by {
                    assert(deps_of(gprev, j).contains(d) <==> deps_of(old(self)@, j).contains(
                        d,
                    ) || (d == i && argsv.take(k as int).contains(j as usize)));
                    if j == a as int {
                        lemma_push_contains(deps_of(gprev, j), i as int, d);
                    } else {
                        assert(self@[j] == gprev[j]);
                        lemma_push_contains(argsv.take(k as int), a, j as usize);
                        assert(argsv.take(k as int + 1).contains(j as usize) == argsv.take(
                            k as int,
                        ).contains(j as usize));
                    }
                }
                assert forall|j: int|
                    0 <= j < old(self)@.len() && !argsv.take(k as int + 1).contains(j as usize)
                    implies #[trigger] self@[j] == old(self)@[j] by {
                    lemma_push_contains(argsv.take(k as int), a, j as usize);
                    assert(j != a as int);
                    assert(self@[j] == gprev[j]);
                }
                assert forall|j: int|
                    0 <= j < old(self)@.len() implies (#[trigger] self@[j]).deps@ == old(self)@[j].deps@
                    + repeated(count_of(argsv.take(k as int + 1), j as usize), i) by {
                    lemma_count_push(argsv.take(k as int), a, j as usize);
                    let c = count_of(argsv.take(k as int), j as usize);
                    assert(gprev[j].deps@ == old(self)@[j].deps@ + repeated(c, i));
                    if j == a as int {
                        assert(self@[j].deps@ == gprev[j].deps@.push(i));
                        assert(count_of(argsv.take(k as int + 1), j as usize) == c + 1);
                        assert((old(self)@[j].deps@ + repeated(c, i)).push(i) =~= old(self)@[j].deps@ + repeated(c + 1, i));
                    } else {
                        assert(self@[j] == gprev[j]);
                        assert(count_of(argsv.take(k as int + 1), j as usize) == c);
                    }
                }
            }
            k += 1;
        }
        proof {
            assert(argsv.take(n as int) =~= argsv);
        }
        let ghost gw = self@;
        self.nodes.push(Node { op: Operation::AddVar(args), cache: None, deps: Vec::new() });
        proof {
            let g0 = old(self)@;
            let g1 = self@;
            let ii = i as int;
            assert(g1[ii].op == Operation::AddVar(args));
            let ops = operands_of(g1, ii);
            assert(ops == argsv.map_values(|a: usize| a as int));
            assert forall|j: int| #[trigger] ops.contains(j) implies 0 <= j && argsv.contains(
                j as usize,
            ) by {
                let kk = choose|kk: int| 0 <= kk < ops.len() && ops[kk] == j;
                assert(argsv[kk] as int == j);
                assert(argsv.contains(argsv[kk]));
            }
            assert forall|j: int| 0 <= j < g0.len() && argsv.contains(j as usize) implies
                ops.contains(j) by {
                let kk = choose|kk: int| 0 <= kk < argsv.len() && argsv[kk] == j as usize;
                assert(ops[kk] == j);
            }
            assert forall|k2: int| 0 <= k2 < ops.len() implies 0 <= #[trigger] ops[k2]
                < g0.len() by {
                assert(argsv[k2] < g0.len());
            }
            assert forall|j: int, d: int|
                0 <= j < g0.len() implies (#[trigger] deps_of(g1, j).contains(d) <==> deps_of(
                g0,
                j,
            ).contains(d) || (d == g0.len() && ops.contains(j))) by {
                assert(g1[j] == gw[j]);
                assert(deps_of(gw, j).contains(d) <==> deps_of(g0, j).contains(d) || (d == i
                    && argsv.contains(j as usize)));
            }
            assert forall|j: int|
                0 <= j < g0.len() implies (#[trigger] g1[j]).deps@ == g0[j].deps@ + repeated(
                count_of(args@, j as usize),
                i,
            ) by {
                assert(g1[j] == gw[j]);
                assert(gw[j].deps@ == g0[j].deps@ + repeated(
                    count_of(argsv.take(n as int), j as usize),
                    i,
                ));
                assert(argsv.take(n as int) == argsv);
            }
            lemma_extend_inv(g0, g1, ops);
        }
        i
    }

    /// Creates an expression node for the difference of nodes `x` and `y`,
    /// and records the new node as a dependent of both.
    pub fn sub(&mut self, x: usize, y: usize) -> (i: usize)
        requires
            inv(old(self)@),
            x < old(self)@.len(),
            y < old(self)@.len(),
        ensures
            inv(final(self)@),
            i == old(self)@.len(),
            final(self)@.len() == old(self)@.len() + 1,
            final(self)@[i as int].op == Operation::Sub(x, y),
            final(self)@[i as int].cache is None,
            deps_of(final(self)@, i as int).len() == 0,
            forall|j: int|
                0 <= j < old(self)@.len() ==> (#[trigger] final(self)@[j]).op == old(self)@[j].op
                    && final(self)@[j].cache == old(self)@[j].cache,
            forall|j: int|
                0 <= j < old(self)@.len() && j != x && j != y ==> #[trigger] final(self)@[j] == old(self)@[j],
            x != y ==> final(self)@[x as int].deps@ == old(self)@[x as int].deps@.push(i) && final(self)@[y as int].deps@ == old(self)@[y as int].deps@.push(i),
            x == y ==> final(self)@[x as int].deps@ == old(self)@[x as int].deps@.push(i).push(i),
    {
        let i = self.nodes.len();
        self.nodes.push(Node { op: Operation::Sub(x, y), cache: None, deps: Vec::new() });
        self.nodes[x].deps.push(i);
        self.nodes[y].deps.push(i);
        proof {
            assert(operands_of(self@, i as int) == seq![x as int, y as int]);
            lemma_extend_binary(old(self)@, self@, x, y, i);
        }
        i
    }

    /// Creates an expression node for the product of nodes `x` and `y`, and
    /// records the new node as a dependent of both.
    pub fn mul(&mut self, x: usize, y: usize) -> (i: usize)
        requires
            inv(old(self)@),
            x < old(self)@.len(),
            y < old(self)@.len(),
        ensures
            inv(final(self)@),
            i == old(self)@.len(),
            final(self)@.len() == old(self)@.len() + 1,
            final(self)@[i as int].op == Operation::Mul(x, y),
            final(self)@[i as int].cache is None,
            deps_of(final(self)@, i as int).len() == 0,
            forall|j: int|
                0 <= j < old(self)@.len() ==> (#[trigger] final(self)@[j]).op == old(self)@[j].op
                    && final(self)@[j].cache == old(self)@[j].cache,
            forall|j: int|
                0 <= j < old(self)@.len() && j != x && j != y ==> #[trigger] final(self)@[j] == old(self)@[j],
            x != y ==> final(self)@[x as int].deps@ == old(self)@[x as int].deps@.push(i) && final(self)@[y as int].deps@ == old(self)@[y as int].deps@.push(i),
            x == y ==> final(self)@[x as int].deps@ == old(self)@[x as int].deps@.push(i).push(i),
    {
        let i = self.nodes.len();
        self.nodes.push(Node { op: Operation::Mul(x, y), cache: None, deps: Vec::new() });
        self.nodes[x].deps.push(i);
        self.nodes[y].deps.push(i);
        proof {
            assert(operands_of(self@, i as int) == seq![x as int, y as int]);
            lemma_extend_binary(old(self)@, self@, x, y, i);
        }
        i
    }

    /// Creates an expression node raising node `x` to the constant exponent
    /// `exponent` (IEEE-754 bits), and records the new node as `x`'s
    /// dependent.
    pub fn pow(&mut self, x: usize, exponent: u32) -> (i: usize)
        requires
            inv(old(self)@),
            x < old(self)@.len(),
        ensures
            inv(final(self)@),
            i == old(self)@.len(),
            final(self)@.len() == old(self)@.len() + 1,
            final(self)@[i as int].op == Operation::Pow(x, exponent),
            final(self)@[i as int].cache is None,
            deps_of(final(self)@, i as int).len() == 0,
            forall|j: int|
                0 <= j < old(self)@.len() ==> (#[trigger] final(self)@[j]).op == old(self)@[j].op
                    && final(self)@[j].cache == old(self)@[j].cache,
            forall|j: int|
                0 <= j < old(self)@.len() && j != x ==> #[trigger] final(self)@[j] == old(self)@[j],
            final(self)@[x as int].deps@ == old(self)@[x as int].deps@.push(i),
    {
        let i = self.nodes.len();
        self.nodes.push(Node { op: Operation::Pow(x, exponent), cache: None, deps: Vec::new() });
        self.nodes[x].deps.push(i);
        proof {
            assert(operands_of(self@, i as int) == seq![x as int]);
            lemma_extend_unary(old(self)@, self@, x, i);
        }
        i
    }

    /// Creates an expression node for the sine of node `x`, and records the
    /// new node as `x`'s dependent.
    pub fn sin(&mut self, x: usize) -> (i: usize)
        requires
            inv(old(self)@),
            x < old(self)@.len(),
        ensures
            inv(final(self)@),
            i == old(self)@.len(),
            final(self)@.len() == old(self)@.len() + 1,
            final(self)@[i as int].op == Operation::Sin(x),
            final(self)@[i as int].cache is None,
            deps_of(final(self)@, i as int).len() == 0,
            forall|j: int|
                0 <= j < old(self)@.len() ==> (#[trigger] final(self)@[j]).op == old(self)@[j].op
                    && final(self)@[j].cache == old(self)@[j].cache,
            forall|j: int|
                0 <= j < old(self)@.len() && j != x ==> #[trigger] final(self)@[j] == old(self)@[j],
            final(self)@[x as int].deps@ == old(self)@[x as int].deps@.push(i),
    {
        let i = self.nodes.len();
        self.nodes.push(Node { op: Operation::Sin(x), cache: None, deps: Vec::new() });
        self.nodes[x].deps.push(i);
        proof {
            assert(operands_of(self@, i as int) == seq![x as int]);
            lemma_extend_unary(old(self)@, self@, x, i);
        }
        i
    }

    /// Whether node `i` is a leaf.
    pub fn is_leaf(&self, i: usize) -> (r: bool)
        requires
            i < self@.len(),
        ensures
            r == is_input(self@, i as int),
    {
        match &self.nodes[i].op {
            Operation::Input(_) => true,
            _ => false,
        }
    }

    /// Clears the cache of node `i` and of everything reachable from it
    /// along dependent edges. Mutually recursive with `clear_deps`.
    fn clear_rec(&mut self, i: usize)
        requires
            wf(old(self)@),
            i < old(self)@.len(),
            !is_input(old(self)@, i as int),
        ensures
            wf(final(self)@),
            same_shape(old(self)@, final(self)@),
            forall|j: int|
                0 <= j < old(self)@.len() && reaches(old(self)@, i as int, j) ==> (#[trigger] final(self)@[j]).cache is None,
            forall|j: int|
                0 <= j < old(self)@.len() && !reaches(old(self)@, i as int, j) ==> #[trigger] final(self)@[j] == old(self)@[j],
        decreases old(self)@.len() - i, 1int,
    {
        let ghost g0 = self@;
        self.nodes[i].cache = None;
        let ghost gmid = self@;
        proof {
            assert forall|j: int| 0 <= j < g0.len() implies #[trigger] shape_at(g0, gmid, j) by {}
            assert(wf(gmid)) by {
                crate::reach::lemma_shape_preserves_edges(g0, gmid);
                assert forall|j: int|
                    0 <= j < gmid.len() implies ((#[trigger] gmid[j].op) matches Operation::Input(b)
                    ==> gmid[j].cache == Some(b)) by {
                    if j != i as int {
                        assert(gmid[j] == g0[j]);
                    }
                }
            }
        }
        self.clear_deps(i);
        proof {
            crate::reach::lemma_shape_preserves_edges(g0, gmid);
            assert forall|j: int| 0 <= j < g0.len() implies #[trigger] shape_at(g0, self@, j) by {
                assert(shape_at(g0, gmid, j));
                assert(shape_at(gmid, self@, j));
            }
            assert forall|j: int| #[trigger] reaches(gmid, i as int, j) == reaches(
                g0,
                i as int,
                j,
            ) by {
                lemma_reaches_stable(g0, gmid, i as int, j);
            }
            assert forall|j: int|
                0 <= j < g0.len() && reaches(g0, i as int, j) implies (#[trigger] self@[j]).cache
                is None by {
                if j == i as int {
                    assert(self@[j] == gmid[j]);
                } else {
                    assert(reaches(gmid, i as int, j));
                }
            }
            assert forall|j: int|
                0 <= j < g0.len() && !reaches(g0, i as int, j) implies #[trigger] self@[j] == g0[j] by {
                assert(reaches(g0, i as int, i as int));
                assert(j != i as int);
                assert(gmid[j] == g0[j]);
                assert(!reaches(gmid, i as int, j));
                assert(self@[j] == gmid[j]);
            }
        }
    }

    /// Clears the caches of everything reachable from node `i` along
    /// dependent edges, except node `i` itself.
    fn clear_deps(&mut self, i: usize)
        requires
            wf(old(self)@),
            i < old(self)@.len(),
        ensures
            wf(final(self)@),
            same_shape(old(self)@, final(self)@),
            forall|j: int|
                0 <= j < old(self)@.len() && j != i as int && reaches(old(self)@, i as int, j)
                    ==> (#[trigger] final(self)@[j]).cache is None,
            forall|j: int|
                0 <= j < old(self)@.len() && (j == i as int || !reaches(old(self)@, i as int, j))
                    ==> #[trigger] final(self)@[j] == old(self)@[j],
        decreases old(self)@.len() - i, 0int,
    {
        let ghost g0 = self@;
        let m = self.nodes[i].deps.len();
        let mut k: usize = 0;
        while k < m
            invariant
                wf(g0),
                g0 == old(self)@,
                i < g0.len(),
                m == deps_of(g0, i as int).len(),
                m == g0[i as int].deps@.len(),
                k <= m,
                wf(self@),
                self@.len() == g0.len(),
                same_shape(g0, self@),
                forall|kk: int, j: int|
                    0 <= kk < k && 0 <= j < g0.len() && #[trigger] reaches(
                        g0,
                        deps_of(g0, i as int)[kk],
                        j,
                    ) ==> self@[j].cache is None,
                forall|j: int|
                    0 <= j < g0.len() && (j == i as int || !reaches(g0, i as int, j))
                        ==> #[trigger] self@[j] == g0[j],
                forall|j: int|
                    0 <= j < g0.len() ==> ((#[trigger] self@[j]).cache is None || self@[j] == g0[j]),
            decreases m - k,
        {
            proof {
                assert(shape_at(g0, self@, i as int));
            }
            let d = self.nodes[i].deps[k];
            proof {
                assert(self@[i as int].deps == g0[i as int].deps);
                assert(deps_of(g0, i as int)[k as int] == d as int);
                assert((i as int) < deps_of(g0, i as int)[k as int] < g0.len());
                assert(deps_of(g0, i as int).contains(d as int));
                lemma_dep_is_expr(g0, i as int, d as int);
                assert(shape_at(g0, self@, d as int));
                assert(!is_input(self@, d as int));
            }
            let ghost gpre = self@;
            self.clear_rec(d);
            proof {
                crate::reach::lemma_shape_preserves_edges(g0, gpre);
                assert forall|j: int| 0 <= j < g0.len() implies #[trigger] shape_at(
                    g0,
                    self@,
                    j,
                ) by {
                    assert(shape_at(g0, gpre, j));
                    assert(shape_at(gpre, self@, j));
                }
                assert forall|j: int| #[trigger] reaches(gpre, d as int, j) == reaches(
                    g0,
                    d as int,
                    j,
                ) by {
                    lemma_reaches_stable(g0, gpre, d as int, j);
                }
                assert forall|kk: int, j: int|
                    0 <= kk < k + 1 && 0 <= j < g0.len() && #[trigger] reaches(
                        g0,
                        deps_of(g0, i as int)[kk],
                        j,
                    ) implies self@[j].cache is None by {
                    if kk == k {
                        assert(reaches(gpre, d as int, j));
                        assert(self@[j].cache is None);
                    } else {
                        assert(gpre[j].cache is None);
                        if !reaches(gpre, d as int, j) {
                            assert(self@[j] == gpre[j]);
                        }
                    }
                }
                assert forall|j: int|
                    0 <= j < g0.len() && (j == i as int || !reaches(g0, i as int, j))
                    implies #[trigger] self@[j] == g0[j] by {
                    assert(gpre[j] == g0[j]);
                    if reaches(gpre, d as int, j) {
                        assert(reaches(g0, d as int, j));
                        lemma_reaches_step(g0, i as int, d as int, j);
                        if j == i as int {
                            lemma_reaches_bounds(g0, d as int, j);
                        }
                        assert(false);
                    }
                    assert(self@[j] == gpre[j]);
                }
                assert forall|j: int|
                    0 <= j < g0.len() implies ((#[trigger] self@[j]).cache is None || self@[j]
                    == g0[j]) by {
                    if !reaches(gpre, d as int, j) {
                        assert(self@[j] == gpre[j]);
                    } else {
                        assert(self@[j].cache is None);
                    }
                }
            }
            k += 1;
        }
        proof {
            assert forall|j: int|
                0 <= j < g0.len() && j != i as int && reaches(g0, i as int, j) implies (
            #[trigger] self@[j]).cache is None by {
                let kk = choose|kk: int|
                    0 <= kk < deps_of(g0, i as int).len() && reaches(
                        g0,
                        #[trigger] deps_of(g0, i as int)[kk],
                        j,
                    );
                assert(reaches(g0, deps_of(g0, i as int)[kk], j));
            }
        }
    }

    /// Clears node `i`'s memoized result and, following the dependents
    /// lists outward, the memoized result of every node reachable from it.
    /// On a leaf this does nothing: a leaf's cache is its current value.
    pub fn reset_cache(&mut self, i: usize)
        requires
            inv(old(self)@),
            i < old(self)@.len(),
        ensures
            inv(final(self)@),
            is_input(old(self)@, i as int) ==> *final(self) == *old(self),
            !is_input(old(self)@, i as int) ==> same_shape(old(self)@, final(self)@) && (forall|
                j: int,
            |
                0 <= j < old(self)@.len() && reaches(old(self)@, i as int, j) ==> (#[trigger] final(self)@[j]).cache is None) && (forall|j: int|
                0 <= j < old(self)@.len() && !reaches(old(self)@, i as int, j) ==> #[trigger] final(self)@[j] == old(self)@[j]),
    {
        if self.is_leaf(i) {
            return ;
        }
        self.clear_rec(i);
        proof {
            lemma_clear_preserves_closed(old(self)@, self@, i as int);
        }
    }

    /// Overwrites the value of leaf `i` and propagates invalidation: the
    /// cache of every node reachable from the leaf along dependent edges is
    /// cleared, unconditionally — even when the new value equals the old
    /// one — and no other node is touched. On a non-leaf node this is a
    /// silent no-op (nothing in the graph changes).
    pub fn set(&mut self, i: usize, value: u32)
        requires
            inv(old(self)@),
            i < old(self)@.len(),
        ensures
            inv(final(self)@),
            !is_input(old(self)@, i as int) ==> *final(self) == *old(self),
            is_input(old(self)@, i as int) ==> final(self)@.len() == old(self)@.len() && final(self)@[i as int].op == Operation::Input(value) && final(self)@[i as int].cache == Some(
                value,
            ) && final(self)@[i as int].deps == old(self)@[i as int].deps && (forall|j: int|
                0 <= j < old(self)@.len() && j != i && reaches(old(self)@, i as int, j)
                    ==> (#[trigger] final(self)@[j]).op == old(self)@[j].op && final(self)@[j].deps
                    == old(self)@[j].deps && final(self)@[j].cache is None) && (forall|j: int|
                0 <= j < old(self)@.len() && !reaches(old(self)@, i as int, j) ==> #[trigger] final(self)@[j] == old(self)@[j]),
            // invalidation correctness: every node that depends on the leaf is cleared
            is_input(old(self)@, i as int) ==> forall|j: int|
                0 <= j < old(self)@.len() && j != i && depends_on(old(self)@, j, i as int)
                    ==> (#[trigger] final(self)@[j]).cache is None,
            // locality: a node that does not depend on the leaf is untouched
            is_input(old(self)@, i as int) ==> forall|j: int|
                0 <= j < old(self)@.len() && !depends_on(old(self)@, j, i as int)
                    ==> #[trigger] final(self)@[j] == old(self)@[j],
    {
        if !self.is_leaf(i) {
            return ;
        }
        let ghost g0 = self@;
        self.nodes[i].op = Operation::Input(value);
        self.nodes[i].cache = Some(value);
        let ghost g1 = self@;
        proof {
            // deps untouched; operands of a leaf are empty before and after
            assert forall|j: int| 0 <= j < g0.len() implies #[trigger] deps_of(g0, j) == deps_of(
                g1,
                j,
            ) by {
                if j != i as int {
                    assert(g1[j] == g0[j]);
                }
            }
            assert forall|j: int|
                0 <= j < g0.len() implies #[trigger] operands_of(g1, j) == operands_of(g0, j) by {
                if j != i as int {
                    assert(g1[j] == g0[j]);
                } else {
                    assert(operands_of(g0, j) == Seq::<int>::empty());
                    assert(operands_of(g1, j) == Seq::<int>::empty());
                }
            }
            assert(wf(g1)) by {
                assert forall|a: int, kk: int|
                    0 <= a < g1.len() && 0 <= kk < deps_of(g1, a).len() implies a < #[trigger]
                deps_of(g1, a)[kk] < g1.len() by {
                    assert(deps_of(g1, a) == deps_of(g0, a));
                    assert(a < deps_of(g0, a)[kk] < g0.len());
                }
                assert forall|a: int, kk: int|
                    0 <= a < g1.len() && 0 <= kk < operands_of(g1, a).len() implies 0 <= #[trigger]
                operands_of(g1, a)[kk] < a by {
                    assert(operands_of(g1, a) == operands_of(g0, a));
                    assert(0 <= operands_of(g0, a)[kk] < a);
                }
                assert forall|a: int, b: int|
                    0 <= a < g1.len() && 0 <= b < g1.len() && #[trigger] deps_of(g1, b).contains(a)
                    implies operands_of(g1, a).contains(b) by {
                    assert(deps_of(g0, b).contains(a));
                    assert(operands_of(g0, a).contains(b));
                }
                assert forall|a: int, b: int|
                    0 <= a < g1.len() && 0 <= b < g1.len() && #[trigger] operands_of(g1, a).contains(
                        b,
                    ) implies deps_of(g1, b).contains(a) by {
                    assert(operands_of(g0, a).contains(b));
                    assert(deps_of(g0, b).contains(a));
                }
                assert forall|j: int|
                    0 <= j < g1.len() implies ((#[trigger] g1[j].op) matches Operation::Input(b)
                    ==> g1[j].cache == Some(b)) by {
                    if j != i as int {
                        assert(g1[j] == g0[j]);
                    }
                }
            }
            assert(cache_closed(g1)) by {
                assert forall|n: int, kk: int|
                    0 <= n < g1.len() && avail(g1, n) && 0 <= kk < operands_of(g1, n).len() implies
                avail(g1, #[trigger] operands_of(g1, n)[kk]) by {
                    assert(operands_of(g1, n) == operands_of(g0, n));
                    if n == i as int {
                        assert(operands_of(g0, n).len() == 0);
                    } else {
                        assert(g1[n] == g0[n]);
                        let o = operands_of(g0, n)[kk];
                        assert(avail(g0, o));
                        assert(0 <= o < n);
                        if o == i as int {
                            assert(avail(g1, o));
                        } else {
                            assert(g1[o] == g0[o]);
                        }
                    }
                }
            }
        }
        self.clear_deps(i);
        proof {
            assert forall|j: int| #[trigger] reaches(g1, i as int, j) == reaches(
                g0,
                i as int,
                j,
            ) by {
                lemma_reaches_stable(g0, g1, i as int, j);
            }
            crate::reach::lemma_shape_preserves_edges(g1, self@);
            assert forall|j: int|
                0 <= j < g0.len() implies (#[trigger] self@[j]).op == g1[j].op && self@[j].deps
                == g1[j].deps by {
                assert(shape_at(g1, self@, j));
            }
            assert(self@[i as int] == g1[i as int]) by {
                assert(reaches(g1, i as int, i as int));
            }
            lemma_set_preserves_closed(g1, self@, i as int);
            assert forall|j: int|
                0 <= j < g0.len() && !reaches(g0, i as int, j) implies #[trigger] self@[j] == g0[j] by {
                assert(reaches(g1, i as int, i as int));
                assert(j != i as int);
                assert(g1[j] == g0[j]);
                assert(self@[j] == g1[j]);
            }
            assert forall|j: int|
                0 <= j < g0.len() && j != i as int && reaches(g0, i as int, j) implies (
            #[trigger] self@[j]).cache is None by {
                assert(reaches(g1, i as int, j));
            }
            assert forall|j: int|
                0 <= j < g0.len() implies (reaches(g0, i as int, j) <==> depends_on(
                g0,
                j,
                i as int,
            )) by {
                crate::reach::lemma_invalidation_exact(g0, i as int, j);
            }
        }
    }

    /// Whether node `j`'s value is available without recomputation.
    fn avail_at(&self, j: usize) -> (r: bool)
        requires
            j < self@.len(),
        ensures
            r == avail(self@, j as int),
    {
        self.nodes[j].cache.is_some()
    }

    /// The available bits of node `j`.
    fn value_at(&self, j: usize) -> (v: u32)
        requires
            j < self@.len(),
            avail(self@, j as int),
        ensures
            v == value_of(self@, j as int),
    {
        self.nodes[j].cache.unwrap()
    }

    /// Finds, below node `i`, the next node that must be evaluated: the
    /// first (in left-to-right, depth-first order) node that `i` depends on
    /// whose value is missing while all of its operands' values are at
    /// hand. Returns `None` exactly when `i`'s own value is already
    /// available.
    pub fn next_ready(&self, i: usize) -> (r: Option<usize>)
        requires
            wf(self@),
            i < self@.len(),
        ensures
            r is None <==> avail(self@, i as int),
            (r matches Some(p) ==> p < self@.len() && !avail(self@, p as int) && !is_input(
                self@,
                p as int,
            ) && depends_on(self@, i as int, p as int) && (forall|k: int|
                0 <= k < operands_of(self@, p as int).len() ==> avail(
                    self@,
                    #[trigger] operands_of(self@, p as int)[k],
                ))),
        decreases i, 1int,
    {
        if self.nodes[i].cache.is_some() {
            return None;
        }
        proof {
            assert(!avail(self@, i as int));
            if is_input(self@, i as int) {
                assert((self@[i as int].op) matches Operation::Input(b) ==> self@[i as int].cache
                    == Some(b));
                assert(false);
            }
            assert(depends_on(self@, i as int, i as int));
        }
        match &self.nodes[i].op {
            Operation::Input(_) => {
                proof {
                    assert(false);
                }
                None
            },
            Operation::Add(x, y) => {
                let (x, y) = (*x, *y);
                proof {
                    assert(operands_of(self@, i as int) == seq![x as int, y as int]);
                }
                self.next_ready_pair(i, x, y)
            },
            Operation::Sub(x, y) => {
                let (x, y) = (*x, *y);
                proof {
                    assert(operands_of(self@, i as int) == seq![x as int, y as int]);
                }
                self.next_ready_pair(i, x, y)
            },
            Operation::Mul(x, y) => {
                let (x, y) = (*x, *y);
                proof {
                    assert(operands_of(self@, i as int) == seq![x as int, y as int]);
                }
                self.next_ready_pair(i, x, y)
            },
            Operation::Pow(x, _) => {
                let x = *x;
                proof {
                    assert(operands_of(self@, i as int) == seq![x as int]);
                }
                self.next_ready_one(i, x)
            },
            Operation::Sin(x) => {
                let x = *x;
                proof {
                    assert(operands_of(self@, i as int) == seq![x as int]);
                }
                self.next_ready_one(i, x)
            },
            Operation::AddVar(args) => {
                let n = args.len();
                let mut k: usize = 0;
                while k < n
                    invariant
                        wf(self@),
                        i < self@.len(),
                        !avail(self@, i as int),
                        !is_input(self@, i as int),
                        n == args@.len(),
                        k <= n,
                        self@[i as int].op == Operation::AddVar(*args),
                        operands_of(self@, i as int) == args@.map_values(|a: usize| a as int),
                        forall|kk: int|
                            0 <= kk < k ==> avail(
                                self@,
                                #[trigger] operands_of(self@, i as int)[kk],
                            ),
                    decreases n - k,
                {
                    let a = args[k];
                    proof {
                        assert(operands_of(self@, i as int)[k as int] == a as int);
                        assert(0 <= operands_of(self@, i as int)[k as int] < i as int);
                    }
                    if !self.avail_at(a) {
                        let r = self.next_ready(a);
                        proof {
                            assert(r is Some);
                            assert(operands_of(self@, i as int).contains(a as int));
                            lemma_depends_step(self@, i as int, a as int, r->0 as int);
                        }
                        return r;
                    }
                    k += 1;
                }
                Some(i)
            },
        }
    }

    /// `next_ready` for a node with exactly two operands.
    fn next_ready_pair(&self, i: usize, x: usize, y: usize) -> (r: Option<usize>)
        requires
            wf(self@),
            i < self@.len(),
            !avail(self@, i as int),
            !is_input(self@, i as int),
            operands_of(self@, i as int) == seq![x as int, y as int],
        ensures
            r is Some,
            (r matches Some(p) ==> p < self@.len() && !avail(self@, p as int) && !is_input(
                self@,
                p as int,
            ) && depends_on(self@, i as int, p as int) && (forall|k: int|
                0 <= k < operands_of(self@, p as int).len() ==> avail(
                    self@,
                    #[trigger] operands_of(self@, p as int)[k],
                ))),
        decreases i, 0int,
    {
        proof {
            assert(0 <= operands_of(self@, i as int)[0] < i as int);
            assert(0 <= operands_of(self@, i as int)[1] < i as int);
            assert(depends_on(self@, i as int, i as int));
        }
        if !self.avail_at(x) {
            let r = self.next_ready(x);
            proof {
                assert(r is Some);
                assert(operands_of(self@, i as int).contains(x as int));
                lemma_depends_step(self@, i as int, x as int, r->0 as int);
            }
            r
        } else if !self.avail_at(y) {
            let r = self.next_ready(y);
            proof {
                assert(r is Some);
                assert(operands_of(self@, i as int).contains(y as int));
                lemma_depends_step(self@, i as int, y as int, r->0 as int);
            }
            r
        } else {
            proof {
                assert forall|k: int|
                    0 <= k < operands_of(self@, i as int).len() implies avail(
                    self@,
                    #[trigger] operands_of(self@, i as int)[k],
                ) by {
                    if k == 0 {
                    } else {
                        assert(k == 1);
                    }
                }
            }
            Some(i)
        }
    }

    /// `next_ready` for a node with exactly one operand.
    fn next_ready_one(&self, i: usize, x: usize) -> (r: Option<usize>)
        requires
            wf(self@),
            i < self@.len(),
            !avail(self@, i as int),
            !is_input(self@, i as int),
            operands_of(self@, i as int) == seq![x as int],
        ensures
            r is Some,
            (r matches Some(p) ==> p < self@.len() && !avail(self@, p as int) && !is_input(
                self@,
                p as int,
            ) && depends_on(self@, i as int, p as int) && (forall|k: int|
                0 <= k < operands_of(self@, p as int).len() ==> avail(
                    self@,
                    #[trigger] operands_of(self@, p as int)[k],
                ))),
        decreases i, 0int,
    {
        proof {
            assert(0 <= operands_of(self@, i as int)[0] < i as int);
            assert(depends_on(self@, i as int, i as int));
        }
        if !self.avail_at(x) {
            let r = self.next_ready(x);
            proof {
                assert(r is Some);
                assert(operands_of(self@, i as int).contains(x as int));
                lemma_depends_step(self@, i as int, x as int, r->0 as int);
            }
            r
        } else {
            proof {
                assert forall|k: int|
                    0 <= k < operands_of(self@, i as int).len() implies avail(
                    self@,
                    #[trigger] operands_of(self@, i as int)[k],
                ) by {
                    assert(k == 0);
                }
            }
            Some(i)
        }
    }

    /// The work item for evaluating node `i`: its operation with the
    /// current operand values filled in, in declared order.
    pub fn pending_op(&self, i: usize) -> (r: PendingOp)
        requires
            wf(self@),
            i < self@.len(),
            !is_input(self@, i as int),
            forall|k: int|
                0 <= k < operands_of(self@, i as int).len() ==> avail(
                    self@,
                    #[trigger] operands_of(self@, i as int)[k],
                ),
        ensures
            r@ == pending_of(self@, i as int),
    {
        match &self.nodes[i].op {
            Operation::Input(_) => {
                proof {
                    assert(false);
                }
                PendingOp::Sin(0)
            },
            Operation::Add(x, y) => {
                proof {
                    assert(operands_of(self@, i as int) == seq![*x as int, *y as int]);
                    assert(0 <= operands_of(self@, i as int)[0] < i as int);
                    assert(0 <= operands_of(self@, i as int)[1] < i as int);
                    assert(avail(self@, operands_of(self@, i as int)[0]));
                    assert(avail(self@, operands_of(self@, i as int)[1]));
                }
                PendingOp::Add(self.value_at(*x), self.value_at(*y))
            },
            Operation::Sub(x, y) => {
                proof {
                    assert(operands_of(self@, i as int) == seq![*x as int, *y as int]);
                    assert(0 <= operands_of(self@, i as int)[0] < i as int);
                    assert(0 <= operands_of(self@, i as int)[1] < i as int);
                    assert(avail(self@, operands_of(self@, i as int)[0]));
                    assert(avail(self@, operands_of(self@, i as int)[1]));
                }
                PendingOp::Sub(self.value_at(*x), self.value_at(*y))
            },
            Operation::Mul(x, y) => {
                proof {
                    assert(operands_of(self@, i as int) == seq![*x as int, *y as int]);
                    assert(0 <= operands_of(self@, i as int)[0] < i as int);
                    assert(0 <= operands_of(self@, i as int)[1] < i as int);
                    assert(avail(self@, operands_of(self@, i as int)[0]));
                    assert(avail(self@, operands_of(self@, i as int)[1]));
                }
                PendingOp::Mul(self.value_at(*x), self.value_at(*y))
            },
            Operation::Pow(x, e) => {
                proof {
                    assert(operands_of(self@, i as int) == seq![*x as int]);
                    assert(0 <= operands_of(self@, i as int)[0] < i as int);
                    assert(avail(self@, operands_of(self@, i as int)[0]));
                }
                PendingOp::Pow(self.value_at(*x), *e)
            },
            Operation::Sin(x) => {
                proof {
                    assert(operands_of(self@, i as int) == seq![*x as int]);
                    assert(0 <= operands_of(self@, i as int)[0] < i as int);
                    assert(avail(self@, operands_of(self@, i as int)[0]));
                }
                PendingOp::Sin(self.value_at(*x))
            },
            Operation::AddVar(args) => {
                let n = args.len();
                let mut vals: Vec<u32> = Vec::new();
                let mut k: usize = 0;
                while k < n
                    invariant
                        wf(self@),
                        i < self@.len(),
                        n == args@.len(),
                        k <= n,
                        self@[i as int].op == Operation::AddVar(*args),
                        operands_of(self@, i as int) == args@.map_values(|a: usize| a as int),
                        forall|kk: int|
                            0 <= kk < args@.len() ==> avail(
                                self@,
                                #[trigger] operands_of(self@, i as int)[kk],
                            ),
                        vals@.len() == k,
                        forall|kk: int|
                            0 <= kk < k ==> #[trigger] vals@[kk] == value_of(
                                self@,
                                args@[kk] as int,
                            ),
                    decreases n - k,
                {
                    let a = args[k];
                    proof {
                        assert(operands_of(self@, i as int)[k as int] == a as int);
                        assert(0 <= operands_of(self@, i as int)[k as int] < i as int);
                        assert(avail(self@, operands_of(self@, i as int)[k as int]));
                    }
                    vals.push(self.value_at(a));
                    k += 1;
                }
                proof {
                    assert(vals@ =~= args@.map_values(|a: usize| value_of(self@, a as int)));
                }
                PendingOp::AddVar(vals)
            },
        }
    }

    /// Memoizes `value` as the result of the pending expression node `i`.
    /// Nothing else in the graph changes.
    pub fn store(&mut self, i: usize, value: u32)
        requires
            inv(old(self)@),
            i < old(self)@.len(),
            !avail(old(self)@, i as int),
            forall|k: int|
                0 <= k < operands_of(old(self)@, i as int).len() ==> avail(
                    old(self)@,
                    #[trigger] operands_of(old(self)@, i as int)[k],
                ),
        ensures
            inv(final(self)@),
            final(self)@.len() == old(self)@.len(),
            forall|j: int| 0 <= j < old(self)@.len() && j != i ==> #[trigger] final(self)@[j] == old(self)@[j],
            final(self)@[i as int].op == old(self)@[i as int].op,
            final(self)@[i as int].deps == old(self)@[i as int].deps,
            final(self)@[i as int].cache == Some(value),
    {
        let ghost g0 = self@;
        self.nodes[i].cache = Some(value);
        proof {
            let g1 = self@;
            assert forall|j: int| 0 <= j < g0.len() implies #[trigger] deps_of(g1, j) == deps_of(
                g0,
                j,
            ) && operands_of(g1, j) == operands_of(g0, j) by {
                if j != i as int {
                    assert(g1[j] == g0[j]);
                }
            }
            assert(wf(g1)) by {
                assert forall|a: int, kk: int|
                    0 <= a < g1.len() && 0 <= kk < deps_of(g1, a).len() implies a < #[trigger]
                deps_of(g1, a)[kk] < g1.len() by {
                    assert(deps_of(g1, a) == deps_of(g0, a));
                    assert(a < deps_of(g0, a)[kk] < g0.len());
                }
                assert forall|a: int, kk: int|
                    0 <= a < g1.len() && 0 <= kk < operands_of(g1, a).len() implies 0 <= #[trigger]
                operands_of(g1, a)[kk] < a by {
                    assert(operands_of(g1, a) == operands_of(g0, a));
                    assert(0 <= operands_of(g0, a)[kk] < a);
                }
                assert forall|a: int, b: int|
                    0 <= a < g1.len() && 0 <= b < g1.len() && #[trigger] deps_of(g1, b).contains(a)
                    implies operands_of(g1, a).contains(b) by {
                    assert(deps_of(g0, b).contains(a));
                    assert(operands_of(g0, a).contains(b));
                }
                assert forall|a: int, b: int|
                    0 <= a < g1.len() && 0 <= b < g1.len() && #[trigger] operands_of(g1, a).contains(
                        b,
                    ) implies deps_of(g1, b).contains(a) by {
                    assert(operands_of(g0, a).contains(b));
                    assert(deps_of(g0, b).contains(a));
                }
                assert forall|j: int|
                    0 <= j < g1.len() implies ((#[trigger] g1[j].op) matches Operation::Input(b)
                    ==> g1[j].cache == Some(b)) by {
                    if j != i as int {
                        assert(g1[j] == g0[j]);
                    } else {
                        if is_input(g0, i as int) {
                            assert(avail(g0, i as int));
                            assert(false);
                        }
                    }
                }
            }
            assert(cache_closed(g1)) by {
                assert forall|n: int, kk: int|
                    0 <= n < g1.len() && avail(g1, n) && 0 <= kk < operands_of(g1, n).len() implies
                avail(g1, #[trigger] operands_of(g1, n)[kk]) by {
                    assert(operands_of(g1, n) == operands_of(g0, n));
                    let o = operands_of(g0, n)[kk];
                    assert(0 <= o < n);
                    if n == i as int {
                        assert(avail(g0, o));
                    } else {
                        assert(g1[n] == g0[n]);
                        assert(avail(g0, o));
                    }
                    if o != i as int {
                        assert(g1[o] == g0[o]);
                    }
                }
            }
        }
    }

    /// Evaluates node `root` and returns its value (IEEE-754 bits),
    /// memoizing every intermediate result along the way.
    ///
    /// The arithmetic itself is done by `kernel`, the function the
    /// embedding caller supplies to combine operand bits per operation.
    /// Evaluation is pull-based: a node whose value is available is
    /// returned as-is — nodes the root depends on are (re)computed exactly
    /// when their memoized value is missing, each one exactly once, in
    /// left-to-right depth-first order, and nothing outside the root's
    /// operand cone is touched.
    pub fn compute<F: Fn(PendingOp) -> u32>(&mut self, root: usize, kernel: F) -> (r: u32)
        requires
            inv(old(self)@),
            root < old(self)@.len(),
            forall|p: PendingOp| call_requires(kernel, (p,)),
        ensures
            inv(final(self)@),
            final(self)@.len() == old(self)@.len(),
            forall|j: int|
                0 <= j < old(self)@.len() ==> (#[trigger] final(self)@[j]).op == old(self)@[j].op
                    && final(self)@[j].deps == old(self)@[j].deps,
            avail(final(self)@, root as int),
            r == value_of(final(self)@, root as int),
            forall|j: int|
                0 <= j < old(self)@.len() && avail(old(self)@, j) ==> #[trigger] final(self)@[j]
                    == old(self)@[j],
            forall|j: int|
                0 <= j < old(self)@.len() && !avail(old(self)@, j) && !avail(final(self)@, j)
                    ==> #[trigger] final(self)@[j] == old(self)@[j],
            forall|j: int|
                0 <= j < old(self)@.len() && !avail(old(self)@, j) && #[trigger] avail(
                    final(self)@,
                    j,
                ) ==> depends_on(old(self)@, root as int, j) && (exists|p: PendingOp|
                    p@ == pending_of(final(self)@, j) && call_ensures(
                        kernel,
                        (p,),
                        value_of(final(self)@, j),
                    )),
            // idempotence: evaluating an already-available node changes nothing
            avail(old(self)@, root as int) ==> final(self)@ == old(self)@ && r == value_of(
                old(self)@,
                root as int,
            ),
    {
        let ghost g0 = self@;
        loop
            invariant
                g0 == old(self)@,
                inv(g0),
                root < g0.len(),
                inv(self@),
                self@.len() == g0.len(),
                forall|p: PendingOp| call_requires(kernel, (p,)),
                forall|j: int|
                    0 <= j < g0.len() ==> (#[trigger] self@[j]).op == g0[j].op && self@[j].deps
                        == g0[j].deps,
                forall|j: int|
                    0 <= j < g0.len() && avail(g0, j) ==> #[trigger] self@[j] == g0[j],
                forall|j: int|
                    0 <= j < g0.len() && !avail(g0, j) && !avail(self@, j) ==> #[trigger] self@[j]
                        == g0[j],
                forall|j: int|
                    0 <= j < g0.len() && !avail(g0, j) && #[trigger] avail(self@, j) ==> depends_on(
                        g0,
                        root as int,
                        j,
                    ) && (exists|p: PendingOp|
                        p@ == pending_of(self@, j) && call_ensures(
                            kernel,
                            (p,),
                            value_of(self@, j),
                        )),
            ensures
                g0 == old(self)@,
                inv(self@),
                self@.len() == g0.len(),
                avail(self@, root as int),
                forall|j: int|
                    0 <= j < g0.len() ==> (#[trigger] self@[j]).op == g0[j].op && self@[j].deps
                        == g0[j].deps,
                forall|j: int|
                    0 <= j < g0.len() && avail(g0, j) ==> #[trigger] self@[j] == g0[j],
                forall|j: int|
                    0 <= j < g0.len() && !avail(g0, j) && !avail(self@, j) ==> #[trigger] self@[j]
                        == g0[j],
                forall|j: int|
                    0 <= j < g0.len() && !avail(g0, j) && #[trigger] avail(self@, j) ==> depends_on(
                        g0,
                        root as int,
                        j,
                    ) && (exists|p: PendingOp|
                        p@ == pending_of(self@, j) && call_ensures(
                            kernel,
                            (p,),
                            value_of(self@, j),
                        )),
            decreases unavail_set(self@).len(),
        {
            let nxt = self.next_ready(root);
            if nxt.is_none() {
                break ;
            }
            let p = nxt.unwrap();
            let ghost gpre = self@;
            let task = self.pending_op(p);
            let ghost tsnap = task;
            let v = kernel(task);
            self.store(p, v);
            proof {
                assert(!avail(g0, p as int)) by {
                    if avail(g0, p as int) {
                        assert(gpre[p as int] == g0[p as int]);
                    }
                }
                // the freshly filled node
                assert(pending_of(self@, p as int) == pending_of(gpre, p as int)) by {
                    assert forall|k: int|
                        0 <= k < operands_of(gpre, p as int).len() implies value_of(
                        gpre,
                        #[trigger] operands_of(gpre, p as int)[k],
                    ) == value_of(self@, operands_of(gpre, p as int)[k]) by {
                        let o = operands_of(gpre, p as int)[k];
                        assert(0 <= o < p as int);
                        assert(self@[o] == gpre[o]);
                    }
                    lemma_pending_stable(gpre, self@, p as int);
                }
                assert(depends_on(g0, root as int, p as int)) by {
                    lemma_depends_stable(g0, gpre, root as int, p as int);
                }
                assert(tsnap@ == pending_of(self@, p as int) && call_ensures(
                    kernel,
                    (tsnap,),
                    value_of(self@, p as int),
                ));
                // previously filled nodes keep their consistent values
                assert forall|j: int|
                    0 <= j < g0.len() && !avail(g0, j) && #[trigger] avail(self@, j) implies
                depends_on(g0, root as int, j) && (exists|p2: PendingOp|
                    p2@ == pending_of(self@, j) && call_ensures(
                        kernel,
                        (p2,),
                        value_of(self@, j),
                    )) by {
                    if j == p as int {
                        assert(exists|p2: PendingOp|
                            p2@ == pending_of(self@, j) && call_ensures(
                                kernel,
                                (p2,),
                                value_of(self@, j),
                            )) by {
                            assert(tsnap@ == pending_of(self@, j) && call_ensures(
                                kernel,
                                (tsnap,),
                                value_of(self@, j),
                            ));
                        }
                    } else {
                        assert(self@[j] == gpre[j]);
                        assert(avail(gpre, j));
                        let p2 = choose|p2: PendingOp|
                            p2@ == pending_of(gpre, j) && call_ensures(
                                kernel,
                                (p2,),
                                value_of(gpre, j),
                            );
                        assert(pending_of(self@, j) == pending_of(gpre, j)) by {
                            assert(!is_input(gpre, j)) by {
                                if is_input(gpre, j) {
                                    assert(is_input(g0, j));
                                    assert((g0[j].op) matches Operation::Input(b) ==> g0[j].cache
                                        == Some(b));
                                    assert(avail(g0, j));
                                    assert(false);
                                }
                            }
                            assert forall|k: int|
                                0 <= k < operands_of(gpre, j).len() implies value_of(
                                gpre,
                                #[trigger] operands_of(gpre, j)[k],
                            ) == value_of(self@, operands_of(gpre, j)[k]) by {
                                let o = operands_of(gpre, j)[k];
                                assert(0 <= o < j);
                                assert(avail(gpre, o));
                                assert(o != p as int);
                                assert(self@[o] == gpre[o]);
                            }
                            lemma_pending_stable(gpre, self@, j);
                        }
                        assert(p2@ == pending_of(self@, j) && call_ensures(
                            kernel,
                            (p2,),
                            value_of(self@, j),
                        ));
                    }
                }
                // the measure shrinks
                lemma_unavail_fill(gpre, self@, p as int);
            }
        }
        proof {
            if avail(g0, root as int) {
                crate::reach::lemma_compute_idempotent(g0, root as int);
                assert forall|j: int| 0 <= j < g0.len() implies self@[j] == g0[j] by {
                    if !avail(g0, j) && avail(self@, j) {
                        assert(depends_on(g0, root as int, j));
                        assert(avail(g0, j));
                    }
                }
                assert(self@ =~= g0);
            }
        }
        let out = self.value_at(root);
        out
    }
}

} // verus!
