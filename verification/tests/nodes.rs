use compute_graph::graph::Graph;
use compute_graph::ops::PendingOp;

fn kernel(op: PendingOp) -> u32 {
    match op {
        PendingOp::Add(a, b) => (f32::from_bits(a) + f32::from_bits(b)).to_bits(),
        PendingOp::AddVar(vs) => {
            let mut acc: f32 = 0.0;
            for v in vs {
                acc += f32::from_bits(v);
            }
            acc.to_bits()
        }
        PendingOp::Sub(a, b) => (f32::from_bits(a) - f32::from_bits(b)).to_bits(),
        PendingOp::Mul(a, b) => (f32::from_bits(a) * f32::from_bits(b)).to_bits(),
        PendingOp::Pow(a, e) => f32::from_bits(a).powf(f32::from_bits(e)).to_bits(),
        PendingOp::Sin(a) => f32::from_bits(a).sin().to_bits(),
    }
}

fn compute(g: &mut Graph, i: usize) -> f32 {
    f32::from_bits(g.compute(i, kernel))
}

fn input(g: &mut Graph, v: f32) -> usize {
    g.input(v.to_bits())
}

fn set(g: &mut Graph, i: usize, v: f32) {
    g.set(i, v.to_bits())
}

fn round(x: f32, precision: u32) -> f32 {
    let m = 10i32.pow(precision) as f32;
    (x * m).round() / m
}

fn check_node(g: &mut Graph, node: usize, expected: f32) {
    assert_eq!(g.cached(node), None);
    let result = round(compute(g, node), 5);
    assert_eq!(result, round(expected, 5));
    assert_eq!(
        g.cached(node).map(|v| round(f32::from_bits(v), 5)),
        Some(expected)
    );
}

#[test]
fn node_add() {
    let mut g = Graph::new();
    let x1 = input(&mut g, 1.0);
    let x2 = input(&mut g, 2.0);
    let x = g.add(x1, x2);
    check_node(&mut g, x, 3.0);

    set(&mut g, x1, 3.0);
    set(&mut g, x2, 4.0);
    check_node(&mut g, x, 7.0);
}

#[test]
fn node_add_var() {
    let mut g = Graph::new();
    let x1 = input(&mut g, 1.0);
    let x2 = input(&mut g, 2.0);
    let x3 = input(&mut g, 3.0);
    let x = g.add_var(vec![x1, x2, x3]);
    check_node(&mut g, x, 6.0);

    set(&mut g, x1, 4.0);
    set(&mut g, x2, 5.0);
    set(&mut g, x3, 6.0);
    check_node(&mut g, x, 15.0);
}

#[test]
fn node_sub() {
    let mut g = Graph::new();
    let x1 = input(&mut g, 1.0);
    let x2 = input(&mut g, 2.0);
    let x = g.sub(x1, x2);
    check_node(&mut g, x, -1.0);

    set(&mut g, x1, 2.0);
    set(&mut g, x2, 1.0);
    check_node(&mut g, x, 1.0);
}

#[test]
fn node_mul() {
    let mut g = Graph::new();
    let x1 = input(&mut g, 2.0);
    let x2 = input(&mut g, 3.0);
    let x = g.mul(x1, x2);
    check_node(&mut g, x, 6.0);

    set(&mut g, x1, 4.0);
    set(&mut g, x2, 5.0);
    check_node(&mut g, x, 20.0);
}

#[test]
fn node_pow() {
    let mut g = Graph::new();
    let x1 = input(&mut g, 2.0);
    let x = g.pow(x1, 3.0f32.to_bits());
    check_node(&mut g, x, 8.0);

    set(&mut g, x1, 3.0);
    check_node(&mut g, x, 27.0);
}

#[test]
fn node_sin() {
    let mut g = Graph::new();
    let x1 = input(&mut g, std::f32::consts::PI);
    let x = g.sin(x1);
    check_node(&mut g, x, 0.0);

    set(&mut g, x1, std::f32::consts::FRAC_PI_2);
    check_node(&mut g, x, 1.0);
}

#[test]
fn nested_expression() {
    let mut g = Graph::new();
    let x1 = input(&mut g, 1.0);
    let x2 = input(&mut g, 2.0);
    let x3 = input(&mut g, 3.0);
    let p = g.pow(x3, 2.0f32.to_bits());
    let m = g.mul(x2, p);
    let x = g.add(x1, m);
    check_node(&mut g, x, 19.0);

    set(&mut g, x1, 4.0);
    set(&mut g, x2, 5.0);
    set(&mut g, x3, 6.0);
    check_node(&mut g, x, 184.0);
}

#[test]
fn expression_with_same_input() {
    let mut g = Graph::new();
    let x1 = input(&mut g, 2.0);
    let s = g.sin(x1);
    let p = g.pow(s, 3.0f32.to_bits());
    let m = g.mul(x1, p);
    let d = g.sub(x1, m);
    let v = g.add_var(vec![x1, x1, d]);
    let x = g.add(x1, v);
    check_node(&mut g, x, 6.49635);

    set(&mut g, x1, 3.0);
    check_node(&mut g, x, 11.99157);
}

#[test]
fn set_compute() {
    let mut g = Graph::new();
    let x = input(&mut g, 42.0);
    assert_eq!(compute(&mut g, x), 42.0);

    set(&mut g, x, 43.0);
    assert_eq!(compute(&mut g, x), 43.0);
}

#[test]
fn set_reset_dependencies() {
    let mut g = Graph::new();
    let x = input(&mut g, 42.0);
    let cached = g.sin(x);
    g.store(cached, 1.0f32.to_bits());

    assert!(g.dependent_count(x) > 0);
    assert_eq!(g.cached(cached), Some(1.0f32.to_bits()));

    set(&mut g, x, 43.0);
    assert!(g.dependent_count(x) > 0);
    assert_eq!(g.cached(cached), None);
}
