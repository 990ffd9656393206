use compgraph::dsl;
use compgraph::node::Graph;
use compgraph::Compute;

#[test]
fn sum_lit_lit() {
    let mut g = Graph::new();
    let l1 = dsl::lit(&mut g, 5);
    let l2 = dsl::lit(&mut g, 37);

    let graph = dsl::add(&mut g, l1, l2);
    let result = g.compute(graph);

    assert_eq!(result, Some(42));
}

#[test]
fn sum_var_lit() {
    let mut g = Graph::new();
    let l1 = dsl::lit(&mut g, 5);
    let v1 = dsl::var(&mut g, "v1");
    let graph = dsl::add(&mut g, v1.as_node_ref(), l1);

    v1.set(&mut g, 5);

    let result = g.compute(graph);

    assert_eq!(result, Some(10));
}

#[test]
fn sum_var_unset_lit() {
    let mut g = Graph::new();
    let l1 = dsl::lit(&mut g, 5);
    let v1 = dsl::var(&mut g, "v1");

    let graph = dsl::add(&mut g, v1.as_node_ref(), l1);
    let result = g.compute(graph);

    assert_eq!(result, None);
}

#[test]
fn sum_var_var() {
    let mut g = Graph::new();
    let v1 = dsl::var(&mut g, "v1");
    let v2 = dsl::var(&mut g, "v2");

    let graph = dsl::add(&mut g, v1.as_node_ref(), v2.as_node_ref());

    v1.set(&mut g, 2);
    v2.set(&mut g, 3);

    assert_eq!(g.compute(graph), Some(5));

    v1.set(&mut g, 6);
    v2.set(&mut g, 9);

    assert_eq!(g.compute(graph), Some(15));
}

#[test]
fn product_var_var_clear() {
    let mut g = Graph::new();
    let x1 = dsl::var(&mut g, "x1");
    let x2 = dsl::var(&mut g, "x2");

    x1.set(&mut g, 20);
    x2.set(&mut g, 30);

    let graph = dsl::mul(&mut g, x1.as_node_ref(), x2.as_node_ref());

    assert_eq!(g.compute(graph), Some(600));

    x1.set(&mut g, 50);
    x2.clear(&mut g);

    assert_eq!(g.compute(graph), None);
}

#[test]
fn polynomial() {
    let mut g = Graph::new();
    let x = dsl::var(&mut g, "x");
    let y = dsl::var(&mut g, "y");

    let three = dsl::lit(&mut g, 3);
    let two = dsl::lit(&mut g, 2);
    let twelve = dsl::lit(&mut g, 12);

    let x_cubed = dsl::pow(&mut g, x.as_node_ref(), three);
    let two_y = dsl::mul(&mut g, two, y.as_node_ref());
    let sum = dsl::add(&mut g, x_cubed, two_y);
    let graph = dsl::add(&mut g, sum, twelve);

    x.set(&mut g, 2);
    y.set(&mut g, 4);

    // 2^3 + 2*4 + 12 = 28
    // ^       ^
    // x       y

    assert_eq!(g.compute(graph), Some(28));
}

#[test]
fn repeated_compute_is_deterministic() {
    let mut g = Graph::new();
    let x = dsl::var(&mut g, "x");
    let y = dsl::var(&mut g, "y");
    let graph = dsl::mul(&mut g, x.as_node_ref(), y.as_node_ref());

    x.set(&mut g, 6);
    y.set(&mut g, 7);

    let first = g.compute(graph);
    assert_eq!(first, Some(42));
    assert_eq!(g.compute(graph), first);
    assert_eq!(g.compute(graph), first);
}

#[test]
fn untouched_subgraph_keeps_its_cache() {
    let mut g = Graph::new();
    let x = dsl::var(&mut g, "x");
    let y = dsl::var(&mut g, "y");
    let left = dsl::neg(&mut g, x.as_node_ref());
    let right = dsl::neg(&mut g, y.as_node_ref());

    x.set(&mut g, 1);
    y.set(&mut g, 2);
    assert_eq!(g.compute(left), Some(-1));
    assert_eq!(g.compute(right), Some(-2));

    // Mutating x clears only the nodes downstream of x; the right-hand
    // subgraph keeps its cached value without re-evaluation.
    x.set(&mut g, 10);
    assert_eq!(g.cached(left), None);
    assert_eq!(g.cached(right), Some(-2));
    assert_eq!(g.compute(left), Some(-10));
    assert_eq!(g.compute(right), Some(-2));
}

#[test]
fn binary_computes_both_inputs_eagerly() {
    let mut g = Graph::new();
    let x = dsl::var(&mut g, "x");
    let y = dsl::var(&mut g, "y");
    let costly = dsl::neg(&mut g, y.as_node_ref());
    let graph = dsl::add(&mut g, x.as_node_ref(), costly);

    y.set(&mut g, 3);

    // The first input (x) is unavailable, yet evaluating the sum still
    // computes and caches the second input.
    assert_eq!(g.compute(graph), None);
    assert_eq!(g.cached(costly), Some(-3));
    assert_eq!(g.cached(graph), None);
}

#[test]
fn unary_propagates_unavailability() {
    let mut g = Graph::new();
    let x = dsl::var(&mut g, "x");
    let n = dsl::neg(&mut g, x.as_node_ref());

    assert_eq!(g.compute(n), None);

    x.set(&mut g, 7);
    assert_eq!(g.compute(n), Some(-7));

    x.clear(&mut g);
    assert_eq!(g.compute(n), None);
}

#[test]
fn shared_input_feeds_two_parents() {
    let mut g = Graph::new();
    let x = dsl::var(&mut g, "x");
    let shared = dsl::neg(&mut g, x.as_node_ref());
    let parent1 = dsl::neg(&mut g, shared);
    let two = dsl::lit(&mut g, 2);
    let parent2 = dsl::mul(&mut g, two, shared);

    x.set(&mut g, 5);
    assert_eq!(g.compute(parent1), Some(5));
    assert_eq!(g.compute(parent2), Some(-10));

    // One mutation of the shared leaf invalidates both parents.
    x.set(&mut g, 1);
    assert_eq!(g.cached(parent1), None);
    assert_eq!(g.cached(parent2), None);
    assert_eq!(g.compute(parent1), Some(1));
    assert_eq!(g.compute(parent2), Some(-2));
}

#[test]
fn invalidate_clears_node_and_dependents_only() {
    let mut g = Graph::new();
    let five = dsl::lit(&mut g, 5);
    let mid = dsl::neg(&mut g, five);
    let one = dsl::lit(&mut g, 1);
    let root = dsl::add(&mut g, mid, one);

    assert_eq!(g.compute(root), Some(-4));
    assert_eq!(g.cached(five), Some(5));

    g.invalidate(mid);
    assert_eq!(g.cached(mid), None);
    assert_eq!(g.cached(root), None);
    assert_eq!(g.cached(five), Some(5));

    assert_eq!(g.compute(root), Some(-4));
}

#[test]
fn pow_exact_values() {
    let mut g = Graph::new();
    let two = dsl::lit(&mut g, 2);
    let ten = dsl::lit(&mut g, 10);
    let p = dsl::pow(&mut g, two, ten);
    assert_eq!(g.compute(p), Some(1024));

    let base = dsl::lit(&mut g, -3);
    let exp = dsl::lit(&mut g, 3);
    let q = dsl::pow(&mut g, base, exp);
    assert_eq!(g.compute(q), Some(-27));

    let zero_exp = dsl::lit(&mut g, 0);
    let seven = dsl::lit(&mut g, 7);
    let r = dsl::pow(&mut g, seven, zero_exp);
    assert_eq!(g.compute(r), Some(1));

    let neg_exp = dsl::lit(&mut g, -1);
    let s = dsl::pow(&mut g, seven, neg_exp);
    assert_eq!(g.compute(s), Some(0));
}

#[test]
fn arithmetic_wraps_around() {
    let mut g = Graph::new();
    let big = dsl::lit(&mut g, i64::MAX);
    let one = dsl::lit(&mut g, 1);
    let s = dsl::add(&mut g, big, one);
    assert_eq!(g.compute(s), Some(i64::MIN));

    let min = dsl::lit(&mut g, i64::MIN);
    let n = dsl::neg(&mut g, min);
    assert_eq!(g.compute(n), Some(i64::MIN));
}

#[test]
fn compute_through_trait() {
    let mut g = Graph::new();
    let a = dsl::lit(&mut g, 20);
    let b = dsl::lit(&mut g, 22);
    let graph = dsl::add(&mut g, a, b);
    assert_eq!(Compute::compute(&mut g, graph), Some(42));
}
