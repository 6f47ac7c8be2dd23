use std::cell::Cell;

use compute_graph::graph::Graph;
use compute_graph::ops::PendingOp;

fn kernel(op: PendingOp) -> u32 {
    match op {
        PendingOp::Add(a, b) => (f32::from_bits(a) + f32::from_bits(b)).to_bits(),
        PendingOp::AddVar(vs) => {
            let mut acc: f32 = 0.0;
            for v in vs {
                acc += f32::from_bits(v);
            }
            acc.to_bits()
        }
        PendingOp::Sub(a, b) => (f32::from_bits(a) - f32::from_bits(b)).to_bits(),
        PendingOp::Mul(a, b) => (f32::from_bits(a) * f32::from_bits(b)).to_bits(),
        PendingOp::Pow(a, e) => f32::from_bits(a).powf(f32::from_bits(e)).to_bits(),
        PendingOp::Sin(a) => f32::from_bits(a).sin().to_bits(),
    }
}

fn compute(g: &mut Graph, i: usize) -> f32 {
    f32::from_bits(g.compute(i, kernel))
}

fn input(g: &mut Graph, v: f32) -> usize {
    g.input(v.to_bits())
}

fn set(g: &mut Graph, i: usize, v: f32) {
    g.set(i, v.to_bits())
}

fn round(x: f32, precision: u32) -> f32 {
    let m = 10i32.pow(precision) as f32;
    (x * m).round() / m
}

#[test]
fn test() {
    let mut g = Graph::new();
    let x1 = input(&mut g, 1.0);
    let x2 = input(&mut g, 2.0);
    let x3 = input(&mut g, 3.0);
    let p = g.pow(x3, 3.0f32.to_bits());
    let a = g.add(x2, p);
    let s = g.sin(a);
    let m = g.mul(x2, s);
    let graph = g.add(x1, m);

    let mut result = compute(&mut g, graph);
    result = round(result, 5);
    assert_eq!(result, -0.32727);

    set(&mut g, x1, 2.0);
    set(&mut g, x2, 3.0);
    set(&mut g, x3, 4.0);
    result = compute(&mut g, graph);
    result = round(result, 5);
    assert_eq!(result, -0.56656);
}

#[test]
fn add_two_variables() {
    let mut g = Graph::new();
    let x1 = input(&mut g, 1.0);
    let x2 = input(&mut g, 2.0);
    let graph = g.add(x1, x2);

    let result = compute(&mut g, graph);
    assert_eq!(result, 3.0);

    let result = compute(&mut g, graph);
    assert_eq!(result, 3.0);

    set(&mut g, x1, 3.0);

    let result = compute(&mut g, graph);
    assert_eq!(result, 5.0);

    let result = compute(&mut g, graph);
    assert_eq!(result, 5.0);
}

#[test]
fn test_3() {
    let mut g = Graph::new();
    let x1 = input(&mut g, 2.0);
    let x2 = input(&mut g, 3.0);
    let x3 = input(&mut g, 4.0);
    let m1 = g.mul(x1, x3);
    let m2 = g.mul(x2, x3);
    let graph = g.add(m1, m2);

    let result = compute(&mut g, graph);
    assert_eq!(result, 20.0);
    let result = compute(&mut g, graph);
    assert_eq!(result, 20.0);

    set(&mut g, x1, 5.0);
    let result = compute(&mut g, graph);
    assert_eq!(result, 32.0);
    let result = compute(&mut g, graph);
    assert_eq!(result, 32.0);

    set(&mut g, x3, 1.0);
    let result = compute(&mut g, graph);
    assert_eq!(result, 8.0);
    let result = compute(&mut g, graph);
    assert_eq!(result, 8.0);
}

#[test]
fn test_4() {
    let mut g = Graph::new();
    let x1 = input(&mut g, 2.0);
    let v = g.add_var(vec![x1, x1]);
    let graph = g.mul(x1, v);

    let result = compute(&mut g, graph);
    assert_eq!(result, 8.0);
}

#[test]
fn add_var_registers_each_occurrence() {
    let mut g = Graph::new();
    let x = input(&mut g, 1.0);
    let y = input(&mut g, 2.0);
    let v = g.add_var(vec![x, y, x]);
    assert_eq!(g.dependent_count(x), 2);
    assert_eq!(g.dependent_count(y), 1);
    assert_eq!(compute(&mut g, v), 4.0);
}

#[test]
fn addvar_empty() {
    let mut g = Graph::new();
    let v = g.add_var(vec![]);
    assert_eq!(compute(&mut g, v), 0.0);
}

#[test]
fn addvar_single() {
    let mut g = Graph::new();
    let a = input(&mut g, 2.5);
    let v = g.add_var(vec![a]);
    let single = compute(&mut g, v);
    let direct = compute(&mut g, a);
    assert_eq!(single.to_bits(), direct.to_bits());
    assert_eq!(single, 2.5);
}

#[test]
fn repeated_compute_is_idempotent() {
    let count = Cell::new(0u32);
    let counting = |op: PendingOp| {
        count.set(count.get() + 1);
        kernel(op)
    };

    let mut g = Graph::new();
    let x1 = input(&mut g, 1.0);
    let x2 = input(&mut g, 2.0);
    let s = g.sin(x2);
    let graph = g.add(x1, s);

    let r1 = g.compute(graph, &counting);
    let steps = count.get();
    assert_eq!(steps, 2);

    let r2 = g.compute(graph, &counting);
    assert_eq!(r1, r2);
    assert_eq!(count.get(), steps);
}

#[test]
fn set_forces_recompute() {
    let count = Cell::new(0u32);
    let counting = |op: PendingOp| {
        count.set(count.get() + 1);
        kernel(op)
    };

    let mut g = Graph::new();
    let x = input(&mut g, 2.0);
    let s = g.sin(x);
    let graph = g.mul(x, s);

    let r1 = g.compute(graph, &counting);
    let steps = count.get();

    // Writing the very same value back still invalidates everything above.
    g.set(x, 2.0f32.to_bits());
    assert_eq!(g.cached(s), None);
    assert_eq!(g.cached(graph), None);

    let r2 = g.compute(graph, &counting);
    assert_eq!(r1, r2);
    assert_eq!(count.get(), 2 * steps);
}

#[test]
fn invalidation_is_local() {
    let mut g = Graph::new();
    let x = input(&mut g, 1.0);
    let a = g.sin(x);
    let y = input(&mut g, 2.0);
    let b = g.sin(y);

    compute(&mut g, a);
    compute(&mut g, b);
    assert!(g.cached(a).is_some());
    assert!(g.cached(b).is_some());

    set(&mut g, x, 5.0);
    assert_eq!(g.cached(a), None);
    assert!(g.cached(b).is_some());
}

#[test]
fn set_on_non_leaf_is_noop() {
    let mut g = Graph::new();
    let x = input(&mut g, 2.0);
    let s = g.sin(x);
    let r1 = compute(&mut g, s);

    set(&mut g, s, 9.0);
    assert_eq!(g.cached(s), Some(r1.to_bits()));
    assert_eq!(compute(&mut g, s), r1);
}

#[test]
fn reset_cache_clears_downstream() {
    let mut g = Graph::new();
    let x = input(&mut g, 1.5);
    let s = g.sin(x);
    let m = g.mul(s, s);
    compute(&mut g, m);
    assert!(g.cached(s).is_some());
    assert!(g.cached(m).is_some());

    g.reset_cache(s);
    assert_eq!(g.cached(s), None);
    assert_eq!(g.cached(m), None);
    // a leaf's cache is its value: resetting it changes nothing
    g.reset_cache(x);
    assert_eq!(g.cached(x), Some(1.5f32.to_bits()));
}

#[test]
fn pow_edge_cases() {
    let mut g = Graph::new();
    let zero = input(&mut g, 0.0);
    let p = g.pow(zero, 0.0f32.to_bits());
    assert_eq!(compute(&mut g, p), 1.0);

    let neg = input(&mut g, -2.0);
    let q = g.pow(neg, 0.5f32.to_bits());
    assert!(compute(&mut g, q).is_nan());
}
