//! Well-formedness of the arena and reachability along its two edge
//! relations: operand edges (pointing backward) and dependent edges
//! (pointing forward).

use vstd::prelude::*;

use crate::node::avail;
use crate::node::deps_of;
use crate::node::is_input;
use crate::node::operands_of;
use crate::node::Node;
use crate::ops::Operation;

verus! {

/// Every dependent edge points strictly forward in the arena.
pub open spec fn deps_wf(g: Seq<Node>) -> bool {
    forall|i: int, k: int|
        0 <= i < g.len() && 0 <= k < deps_of(g, i).len() ==> i < #[trigger] deps_of(g, i)[k]
            < g.len()
}

/// Every operand edge points strictly backward in the arena.
pub open spec fn ops_wf(g: Seq<Node>) -> bool {
    forall|i: int, k: int|
        0 <= i < g.len() && 0 <= k < operands_of(g, i).len() ==> 0 <= #[trigger] operands_of(
            g,
            i,
        )[k] < i
}

/// The dependent lists record exactly the operand relation, as sets:
/// `i` is listed as a dependent of `j` if and only if `j` is an operand of `i`.
pub open spec fn wired(g: Seq<Node>) -> bool {
    &&& forall|i: int, j: int|
        0 <= i < g.len() && 0 <= j < g.len() && #[trigger] deps_of(g, j).contains(i)
            ==> operands_of(g, i).contains(j)
    &&& forall|i: int, j: int|
        0 <= i < g.len() && 0 <= j < g.len() && #[trigger] operands_of(g, i).contains(j)
            ==> deps_of(g, j).contains(i)
}

/// A leaf's cache always mirrors its current value.
pub open spec fn inputs_cached(g: Seq<Node>) -> bool {
    forall|i: int|
        0 <= i < g.len() ==> ((#[trigger] g[i].op) matches Operation::Input(b) ==> g[i].cache
            == Some(b))
}

/// Structural well-formedness: what every graph the constructors build
/// satisfies, and every operation preserves.
pub open spec fn wf(g: Seq<Node>) -> bool {
    deps_wf(g) && ops_wf(g) && wired(g) && inputs_cached(g)
}

/// An available node never rests on an unavailable operand: memoized
/// results are only ever cleared together with everything built on top of
/// them, so a cached value can never silently survive the invalidation of
/// something below it.
pub open spec fn cache_closed(g: Seq<Node>) -> bool {
    forall|i: int, k: int|
        0 <= i < g.len() && avail(g, i) && 0 <= k < operands_of(g, i).len() ==> avail(
            g,
            #[trigger] operands_of(g, i)[k],
        )
}

/// The full invariant of a graph.
pub open spec fn inv(g: Seq<Node>) -> bool {
    wf(g) && cache_closed(g)
}

/// Node `b` can be reached from node `a` by following zero or more
/// dependent edges. This is the set that invalidation clears.
pub open spec fn reaches(g: Seq<Node>, a: int, b: int) -> bool
    decreases g.len() - a
        when 0 <= a < g.len() && deps_wf(g)
{
    a == b || exists|k: int|
        0 <= k < deps_of(g, a).len() && reaches(g, #[trigger] deps_of(g, a)[k], b)
}

/// Node `n` depends on node `l`: `l` can be reached from `n` by following
/// zero or more operand edges, so `n`'s value is computed (directly or
/// indirectly) from `l`'s.
pub open spec fn depends_on(g: Seq<Node>, n: int, l: int) -> bool
    decreases n
        when 0 <= n < g.len() && ops_wf(g)
{
    n == l || exists|k: int|
        0 <= k < operands_of(g, n).len() && depends_on(g, #[trigger] operands_of(g, n)[k], l)
}

/// `g2` has the same operations and the same dependent lists as `g1`;
/// only caches may differ.
pub open spec fn shape_at(g1: Seq<Node>, g2: Seq<Node>, i: int) -> bool {
    g1[i].op == g2[i].op && g1[i].deps == g2[i].deps
}

pub open spec fn same_shape(g1: Seq<Node>, g2: Seq<Node>) -> bool {
    g1.len() == g2.len() && forall|i: int| 0 <= i < g1.len() ==> #[trigger] shape_at(g1, g2, i)
}

/// `g2` has the same dependent lists as `g1`; operations and caches may
/// differ. This is all that reachability along dependent edges looks at.
pub open spec fn same_deps(g1: Seq<Node>, g2: Seq<Node>) -> bool {
    g1.len() == g2.len() && forall|i: int|
        0 <= i < g1.len() ==> #[trigger] deps_of(g1, i) == deps_of(g2, i)
}

/// Operand and dependent lists are functions of the shape alone.
pub proof fn lemma_shape_preserves_edges(g1: Seq<Node>, g2: Seq<Node>)
    requires
        same_shape(g1, g2),
    ensures
        forall|i: int| 0 <= i < g2.len() ==> #[trigger] deps_of(g2, i) == deps_of(g1, i),
        forall|i: int| 0 <= i < g2.len() ==> #[trigger] operands_of(g2, i) == operands_of(g1, i),
        deps_wf(g1) ==> deps_wf(g2),
        ops_wf(g1) ==> ops_wf(g2),
        wired(g1) ==> wired(g2),
        same_deps(g1, g2),
{
    assert forall|i: int| 0 <= i < g2.len() implies #[trigger] deps_of(g2, i) == deps_of(
        g1,
        i,
    ) by {
        assert(shape_at(g1, g2, i));
        assert(g1[i].deps@ == g2[i].deps@);
        assert(deps_of(g2, i) =~= deps_of(g1, i));
    }
    assert forall|i: int| 0 <= i < g1.len() implies #[trigger] deps_of(g1, i) == deps_of(
        g2,
        i,
    ) by {
        assert(deps_of(g2, i) == deps_of(g1, i));
    }
    assert forall|i: int| 0 <= i < g2.len() implies #[trigger] operands_of(g2, i) == operands_of(
        g1,
        i,
    ) by {
        assert(shape_at(g1, g2, i));
    }
    if deps_wf(g1) {
        assert forall|i: int, k: int|
            0 <= i < g2.len() && 0 <= k < deps_of(g2, i).len() implies i < #[trigger] deps_of(
            g2,
            i,
        )[k] < g2.len() by {
            assert(deps_of(g2, i) == deps_of(g1, i));
            assert(i < deps_of(g1, i)[k] < g1.len());
        }
    }
    if ops_wf(g1) {
        assert forall|i: int, k: int|
            0 <= i < g2.len() && 0 <= k < operands_of(g2, i).len() implies 0 <= #[trigger]
            operands_of(g2, i)[k] < i by {
            assert(operands_of(g2, i) == operands_of(g1, i));
            assert(0 <= operands_of(g1, i)[k] < i);
        }
    }
    if wired(g1) {
        assert forall|i: int, j: int|
            0 <= i < g2.len() && 0 <= j < g2.len() && #[trigger] deps_of(g2, j).contains(i) implies
            operands_of(g2, i).contains(j) by {
            assert(deps_of(g2, j) == deps_of(g1, j));
            assert(operands_of(g2, i) == operands_of(g1, i));
            assert(deps_of(g1, j).contains(i));
        }
        assert forall|i: int, j: int|
            0 <= i < g2.len() && 0 <= j < g2.len() && #[trigger] operands_of(g2, i).contains(j)
            implies deps_of(g2, j).contains(i) by {
            assert(deps_of(g2, j) == deps_of(g1, j));
            assert(operands_of(g2, i) == operands_of(g1, i));
            assert(operands_of(g1, i).contains(j));
        }
    }
}

/// Reachability only looks at the dependent lists.
pub proof fn lemma_reaches_stable(g1: Seq<Node>, g2: Seq<Node>, a: int, b: int)
    requires
        deps_wf(g1),
        same_deps(g1, g2),
        0 <= a < g1.len(),
    ensures
        reaches(g1, a, b) == reaches(g2, a, b),
    decreases g1.len() - a,
{
    assert forall|i: int, k: int|
        0 <= i < g2.len() && 0 <= k < deps_of(g2, i).len() implies i < #[trigger] deps_of(
        g2,
        i,
    )[k] < g2.len() by {
        assert(deps_of(g1, i) == deps_of(g2, i));
        assert(i < deps_of(g1, i)[k] < g1.len());
    }
    let d1 = deps_of(g1, a);
    assert(deps_of(g2, a) == d1);
    assert forall|k: int| 0 <= k < d1.len() implies reaches(g1, #[trigger] d1[k], b) == reaches(
        g2,
        d1[k],
        b,
    ) by {
        lemma_reaches_stable(g1, g2, d1[k], b);
    }
    if reaches(g1, a, b) && a != b {
        let k = choose|k: int| 0 <= k < d1.len() && reaches(g1, #[trigger] d1[k], b);
        assert(reaches(g2, deps_of(g2, a)[k], b));
    }
    if reaches(g2, a, b) && a != b {
        let k = choose|k: int| 0 <= k < deps_of(g2, a).len() && reaches(
            g2,
            #[trigger] deps_of(g2, a)[k],
            b,
        );
        assert(reaches(g1, d1[k], b));
    }
}

/// A reached node lies within the arena, at or after the start.
pub proof fn lemma_reaches_bounds(g: Seq<Node>, a: int, b: int)
    requires
        deps_wf(g),
        0 <= a < g.len(),
        reaches(g, a, b),
    ensures
        0 <= b < g.len(),
        a <= b,
    decreases g.len() - a,
{
    if a != b {
        let k = choose|k: int| 0 <= k < deps_of(g, a).len() && reaches(
            g,
            #[trigger] deps_of(g, a)[k],
            b,
        );
        lemma_reaches_bounds(g, deps_of(g, a)[k], b);
    }
}

/// Reachability extends backward over one dependent edge.
pub proof fn lemma_reaches_step(g: Seq<Node>, a: int, d: int, b: int)
    requires
        deps_wf(g),
        0 <= a < g.len(),
        deps_of(g, a).contains(d),
        reaches(g, d, b),
    ensures
        reaches(g, a, b),
{
    let k = choose|k: int| 0 <= k < deps_of(g, a).len() && deps_of(g, a)[k] == d;
    assert(reaches(g, #[trigger] deps_of(g, a)[k], b));
}

/// Reachability is transitive.
pub proof fn lemma_reaches_trans(g: Seq<Node>, a: int, m: int, b: int)
    requires
        deps_wf(g),
        0 <= a < g.len(),
        reaches(g, a, m),
        reaches(g, m, b),
    ensures
        reaches(g, a, b),
    decreases g.len() - a,
{
    if a != m {
        let k = choose|k: int| 0 <= k < deps_of(g, a).len() && reaches(
            g,
            #[trigger] deps_of(g, a)[k],
            m,
        );
        lemma_reaches_trans(g, deps_of(g, a)[k], m, b);
        assert(reaches(g, #[trigger] deps_of(g, a)[k], b));
    }
}

/// Every dependent is an expression node: only expression nodes reference
/// operands, and a dependents list records exactly the operand relation.
pub proof fn lemma_dep_is_expr(g: Seq<Node>, j: int, d: int)
    requires
        wired(g),
        0 <= j < g.len(),
        0 <= d < g.len(),
        deps_of(g, j).contains(d),
    ensures
        !is_input(g, d),
{
    assert(operands_of(g, d).contains(j));
    if is_input(g, d) {
        let k = choose|k: int| 0 <= k < operands_of(g, d).len() && operands_of(g, d)[k] == j;
        assert(false);
    }
}

/// A node only ever depends on earlier nodes, itself included.
pub proof fn lemma_depends_bounds(g: Seq<Node>, n: int, l: int)
    requires
        ops_wf(g),
        0 <= n < g.len(),
        depends_on(g, n, l),
    ensures
        0 <= l <= n,
    decreases n,
{
    if n != l {
        let k = choose|k: int| 0 <= k < operands_of(g, n).len() && depends_on(
            g,
            #[trigger] operands_of(g, n)[k],
            l,
        );
        lemma_depends_bounds(g, operands_of(g, n)[k], l);
    }
}

/// Dependence extends over one operand edge.
pub proof fn lemma_depends_step(g: Seq<Node>, n: int, o: int, l: int)
    requires
        ops_wf(g),
        0 <= n < g.len(),
        operands_of(g, n).contains(o),
        depends_on(g, o, l),
    ensures
        depends_on(g, n, l),
{
    let k = choose|k: int| 0 <= k < operands_of(g, n).len() && operands_of(g, n)[k] == o;
    assert(depends_on(g, #[trigger] operands_of(g, n)[k], l));
}

/// Dependence is transitive.
pub proof fn lemma_depends_trans(g: Seq<Node>, n: int, m: int, l: int)
    requires
        ops_wf(g),
        0 <= n < g.len(),
        depends_on(g, n, m),
        depends_on(g, m, l),
    ensures
        depends_on(g, n, l),
    decreases n,
{
    if n != m {
        let k = choose|k: int| 0 <= k < operands_of(g, n).len() && depends_on(
            g,
            #[trigger] operands_of(g, n)[k],
            m,
        );
        lemma_depends_trans(g, operands_of(g, n)[k], m, l);
        assert(depends_on(g, #[trigger] operands_of(g, n)[k], l));
    }
}

proof fn lemma_reaches_implies_depends(g: Seq<Node>, l: int, n: int)
    requires
        wf(g),
        0 <= l < g.len(),
        reaches(g, l, n),
    ensures
        depends_on(g, n, l),
    decreases g.len() - l,
{
    lemma_reaches_bounds(g, l, n);
    if l != n {
        let k = choose|k: int| 0 <= k < deps_of(g, l).len() && reaches(g, #[trigger] deps_of(g, l)[k], n);
        let d = deps_of(g, l)[k];
        lemma_reaches_implies_depends(g, d, n);
        assert(deps_of(g, l).contains(d));
        assert(operands_of(g, d).contains(l));
        lemma_depends_step(g, d, l, l);
        lemma_depends_trans(g, n, d, l);
    }
}

proof fn lemma_depends_implies_reaches(g: Seq<Node>, n: int, l: int)
    requires
        wf(g),
        0 <= n < g.len(),
        depends_on(g, n, l),
    ensures
        reaches(g, l, n),
    decreases n,
{
    lemma_depends_bounds(g, n, l);
    if n != l {
        let k = choose|k: int| 0 <= k < operands_of(g, n).len() && depends_on(
            g,
            #[trigger] operands_of(g, n)[k],
            l,
        );
        let o = operands_of(g, n)[k];
        lemma_depends_implies_reaches(g, o, l);
        assert(operands_of(g, n).contains(o));
        assert(deps_of(g, o).contains(n));
        lemma_reaches_step(g, o, n, n);
        lemma_reaches_trans(g, l, o, n);
    }
}

/// Invalidation is exact: the nodes reachable from a node `l` along
/// dependent edges — the set that mutating `l` clears — are precisely the
/// nodes that depend on `l` through operand edges. So invalidation clears
/// every node whose memoized value could have become stale, and no other.
pub proof fn lemma_invalidation_exact(g: Seq<Node>, l: int, n: int)
    requires
        wf(g),
        0 <= l < g.len(),
        0 <= n < g.len(),
    ensures
        reaches(g, l, n) <==> depends_on(g, n, l),
{
    if reaches(g, l, n) {
        lemma_reaches_implies_depends(g, l, n);
    }
    if depends_on(g, n, l) {
        lemma_depends_implies_reaches(g, n, l);
    }
}

proof fn lemma_avail_down(g: Seq<Node>, n: int, j: int)
    requires
        ops_wf(g),
        cache_closed(g),
        0 <= n < g.len(),
        avail(g, n),
        depends_on(g, n, j),
    ensures
        avail(g, j),
    decreases n,
{
    if n != j {
        let k = choose|k: int| 0 <= k < operands_of(g, n).len() && depends_on(
            g,
            #[trigger] operands_of(g, n)[k],
            j,
        );
        let o = operands_of(g, n)[k];
        assert(avail(g, o));
        lemma_avail_down(g, o, j);
    }
}

/// Dependence only looks at the operations.
pub proof fn lemma_depends_stable(g1: Seq<Node>, g2: Seq<Node>, n: int, l: int)
    requires
        ops_wf(g1),
        0 <= n < g1.len(),
        g1.len() == g2.len(),
        forall|j: int| 0 <= j < g1.len() ==> (#[trigger] g1[j]).op == g2[j].op,
    ensures
        depends_on(g1, n, l) == depends_on(g2, n, l),
    decreases n,
{
    assert forall|i: int| 0 <= i < g1.len() implies #[trigger] operands_of(g1, i) == operands_of(
        g2,
        i,
    ) by {
        assert(g1[i].op == g2[i].op);
    }
    assert forall|i: int, k: int|
        0 <= i < g2.len() && 0 <= k < operands_of(g2, i).len() implies 0 <= #[trigger] operands_of(
        g2,
        i,
    )[k] < i by {
        assert(operands_of(g2, i) == operands_of(g1, i));
        assert(0 <= operands_of(g1, i)[k] < i);
    }
    let o1 = operands_of(g1, n);
    assert(operands_of(g2, n) == o1);
    assert forall|k: int| 0 <= k < o1.len() implies depends_on(g1, #[trigger] o1[k], l) == depends_on(
        g2,
        o1[k],
        l,
    ) by {
        lemma_depends_stable(g1, g2, o1[k], l);
    }
    if depends_on(g1, n, l) && n != l {
        let k = choose|k: int| 0 <= k < o1.len() && depends_on(g1, #[trigger] o1[k], l);
        assert(depends_on(g2, operands_of(g2, n)[k], l));
    }
    if depends_on(g2, n, l) && n != l {
        let k = choose|k: int|
            0 <= k < operands_of(g2, n).len() && depends_on(g2, #[trigger] operands_of(g2, n)[k], l);
        assert(depends_on(g1, o1[k], l));
    }
}

/// The set of nodes whose value is not currently available.
pub open spec fn unavail_set(g: Seq<Node>) -> Set<int> {
    Set::new(|j: int| 0 <= j < g.len() && !avail(g, j))
}

pub proof fn lemma_unavail_finite(g: Seq<Node>)
    ensures
        unavail_set(g).finite(),
{
    vstd::set_lib::lemma_int_range(0, g.len() as int);
    assert(unavail_set(g).subset_of(vstd::set_lib::set_int_range(0, g.len() as int)));
    vstd::set_lib::lemma_len_subset(
        unavail_set(g),
        vstd::set_lib::set_int_range(0, g.len() as int),
    );
}

/// Filling exactly one empty cache strictly shrinks the set of unavailable
/// nodes.
pub proof fn lemma_unavail_fill(g1: Seq<Node>, g2: Seq<Node>, p: int)
    requires
        g1.len() == g2.len(),
        0 <= p < g1.len(),
        !avail(g1, p),
        avail(g2, p),
        forall|j: int| 0 <= j < g1.len() && j != p ==> avail(g1, j) == avail(g2, j),
    ensures
        unavail_set(g2).len() < unavail_set(g1).len(),
{
    lemma_unavail_finite(g1);
    assert(unavail_set(g2) =~= unavail_set(g1).remove(p));
    assert(unavail_set(g1).contains(p));
}

/// Idempotence of evaluation: once a node's value is available, every node
/// it depends on is available as well, so a further evaluation of it has no
/// step left to take — by `Graph::compute`'s contract it changes no node
/// and returns the memoized bits unchanged.
pub proof fn lemma_compute_idempotent(g: Seq<Node>, root: int)
    requires
        inv(g),
        0 <= root < g.len(),
        avail(g, root),
    ensures
        forall|j: int| #[trigger] depends_on(g, root, j) ==> avail(g, j),
{
    assert forall|j: int| #[trigger] depends_on(g, root, j) implies avail(g, j) by {
        lemma_avail_down(g, root, j);
    }
}

} // verus!
