use micrograd::engine::{add_vec, back, sequence, test_engine, trace, Graph, NNode, Op};

fn leaf(g: &mut Graph, v: f64) -> NNode {
    NNode::new(g, v.to_bits())
}

fn data_of(g: &Graph, n: NNode) -> f64 {
    f64::from_bits(g.data(n.root))
}

fn grad_of(g: &Graph, n: NNode) -> f64 {
    f64::from_bits(g.grad(n.root))
}

#[test]
fn leaf_has_no_parents_and_keeps_its_grad() {
    let mut g = Graph::new();
    let a = leaf(&mut g, 4.25);
    assert!(g.nodes[a.root].op == Op::Leaf);
    assert_eq!(g.nodes[a.root].prev.len(), 0);
    assert_eq!(grad_of(&g, a), 0.0);
    g.set_grad(a.root, (0.5f64).to_bits());
    a.backwards(&mut g);
    assert_eq!(grad_of(&g, a), 0.5);
    let order = sequence(&g, a.root);
    assert_eq!(order, vec![a.root]);
}

#[test]
fn add_sequences_root_last_and_gives_unit_gradients() {
    let mut g = Graph::new();
    let a = leaf(&mut g, 1.5);
    let b = leaf(&mut g, 2.25);
    let c = a.add(&mut g, &b);
    assert_eq!(data_of(&g, c), 1.5 + 2.25);
    let order = sequence(&g, c.root);
    assert_eq!(order.len(), 3);
    assert_eq!(*order.last().unwrap(), c.root);
    let rev: Vec<usize> = order.iter().rev().cloned().collect();
    assert_eq!(rev[0], c.root);
    assert!(rev.contains(&a.root) && rev.contains(&b.root));
    g.set_grad(c.root, (1.0f64).to_bits());
    c.backwards(&mut g);
    assert_eq!(grad_of(&g, a), 1.0);
    assert_eq!(grad_of(&g, b), 1.0);
}

#[test]
fn multiply_backward_swaps_operand_data() {
    let mut g = Graph::new();
    let a = leaf(&mut g, 2.0);
    let b = leaf(&mut g, -3.0);
    let c = a.mul(&mut g, &b);
    assert_eq!(data_of(&g, c), -6.0);
    g.set_grad(c.root, (1.0f64).to_bits());
    c.backwards(&mut g);
    assert_eq!(grad_of(&g, a), -3.0);
    assert_eq!(grad_of(&g, b), 2.0);
}

#[test]
fn subtract_backward_mirrors_the_additive_rule() {
    // The subtraction rule deliberately matches the additive one: both
    // operands receive the node's gradient unscaled.
    let mut g = Graph::new();
    let a = leaf(&mut g, 5.0);
    let b = leaf(&mut g, 3.0);
    let c = a.sub(&mut g, &b);
    assert_eq!(data_of(&g, c), 2.0);
    g.set_grad(c.root, (1.0f64).to_bits());
    c.backwards(&mut g);
    assert_eq!(grad_of(&g, a), 1.0);
    assert_eq!(grad_of(&g, b), 1.0);
}

#[test]
fn subtract_forward_is_exact_ieee() {
    let mut g = Graph::new();
    let a = leaf(&mut g, 0.1);
    let b = leaf(&mut g, 0.2);
    let c = a.sub(&mut g, &b);
    assert_eq!(data_of(&g, c).to_bits(), (0.1f64 - 0.2f64).to_bits());
    let d = a.mul(&mut g, &b);
    assert_eq!(data_of(&g, d).to_bits(), (0.1f64 * 0.2f64).to_bits());
    let e = a.add(&mut g, &b);
    assert_eq!(data_of(&g, e).to_bits(), (0.1f64 + 0.2f64).to_bits());
}

#[test]
fn power_forward_and_backward() {
    let mut g = Graph::new();
    let a = leaf(&mut g, 2.0);
    let b = leaf(&mut g, 3.0);
    let c = a.pow(&mut g, &b);
    assert!((data_of(&g, c) - 8.0).abs() < 1e-12);
    g.set_grad(c.root, (1.0f64).to_bits());
    c.backwards(&mut g);
    // d(a^b)/da = b * a^(b-1) = 3 * 4 = 12; the exponent is a constant.
    assert!((grad_of(&g, a) - 12.0).abs() < 1e-9);
    assert_eq!(grad_of(&g, b), 0.0);
}

#[test]
fn power_backward_scales_with_the_node_gradient() {
    let mut g = Graph::new();
    let a = leaf(&mut g, 2.0);
    let b = leaf(&mut g, 3.0);
    let c = a.pow(&mut g, &b);
    g.set_grad(c.root, (2.0f64).to_bits());
    c.backwards(&mut g);
    assert!((grad_of(&g, a) - 24.0).abs() < 1e-9);
}

#[test]
fn tanh_of_zero_is_zero_with_unit_local_derivative() {
    let mut g = Graph::new();
    let a = leaf(&mut g, 0.0);
    let t = a.tanh(&mut g);
    assert_eq!(data_of(&g, t), 0.0);
    g.set_grad(t.root, (1.0f64).to_bits());
    t.backwards(&mut g);
    assert_eq!(grad_of(&g, a), 1.0);
}

#[test]
fn tanh_matches_the_exponential_formula() {
    let mut g = Graph::new();
    let x = 0.5f64;
    let a = leaf(&mut g, x);
    let t = a.tanh(&mut g);
    let e2x = std::f64::consts::E.powf(2.0 * x);
    let expected = (e2x - 1.0) / (e2x + 1.0);
    assert!((data_of(&g, t) - expected).abs() < 1e-12);
    assert!((data_of(&g, t) - x.tanh()).abs() < 1e-12);
}

#[test]
fn shared_subgraph_accumulates_both_paths() {
    // d = (a + b) * a: the gradient of a must collect the contribution of
    // the direct multiply path and of the additive path.
    let mut g = Graph::new();
    let a = leaf(&mut g, 2.0);
    let b = leaf(&mut g, 3.0);
    let c = a.add(&mut g, &b);
    let d = c.mul(&mut g, &a);
    assert_eq!(data_of(&g, d), 10.0);
    g.set_grad(d.root, (1.0f64).to_bits());
    d.backwards(&mut g);
    // dd/da = a + (a + b) = 2 + 5 = 7, dd/db = a = 2
    assert_eq!(grad_of(&g, a), 7.0);
    assert_eq!(grad_of(&g, b), 2.0);
    let order = sequence(&g, d.root);
    assert_eq!(order.len(), 4, "each shared node is sequenced exactly once");
}

#[test]
fn add_vec_sums_any_number_of_operands() {
    let mut g = Graph::new();
    let a = leaf(&mut g, 1.5);
    let b = leaf(&mut g, 2.25);
    let c = leaf(&mut g, -0.75);
    let s = add_vec(&mut g, &vec![a, b, c]);
    assert_eq!(data_of(&g, s), 3.0);
    assert_eq!(g.nodes[s.root].prev.len(), 3);
    assert!(g.nodes[s.root].op == Op::Add);
    g.set_grad(s.root, (1.0f64).to_bits());
    s.backwards(&mut g);
    assert_eq!(grad_of(&g, a), 1.0);
    assert_eq!(grad_of(&g, b), 1.0);
    assert_eq!(grad_of(&g, c), 1.0);
}

#[test]
fn add_vec_of_nothing_is_zero() {
    let mut g = Graph::new();
    let s = add_vec(&mut g, &vec![]);
    assert_eq!(data_of(&g, s), 0.0);
    assert_eq!(g.nodes[s.root].prev.len(), 0);
}

#[test]
fn builders_are_value_immutable_and_identity_distinct() {
    let mut g = Graph::new();
    let a = leaf(&mut g, 1.25);
    let b = leaf(&mut g, -2.5);
    let c1 = a.add(&mut g, &b);
    let c2 = a.add(&mut g, &b);
    assert_ne!(c1.root, c2.root);
    assert_ne!(g.nodes[c1.root].id, g.nodes[c2.root].id);
    assert_eq!(g.data(c1.root), g.data(c2.root));
    let m1 = a.mul(&mut g, &b);
    let m2 = a.mul(&mut g, &b);
    assert_ne!(m1.root, m2.root);
    assert_eq!(g.data(m1.root), g.data(m2.root));
    // the operands themselves were never modified
    assert_eq!(data_of(&g, a), 1.25);
    assert_eq!(data_of(&g, b), -2.5);
}

#[test]
fn back_applies_a_single_local_rule() {
    let mut g = Graph::new();
    let a = leaf(&mut g, 2.0);
    let b = leaf(&mut g, -3.0);
    let c = a.mul(&mut g, &b);
    g.set_grad(c.root, (1.0f64).to_bits());
    back(&mut g, c.root);
    assert_eq!(grad_of(&g, a), -3.0);
    assert_eq!(grad_of(&g, b), 2.0);
    // a leaf's rule is a no-op
    back(&mut g, a.root);
    assert_eq!(grad_of(&g, a), -3.0);
}

#[test]
fn repeated_backward_passes_accumulate() {
    let mut g = Graph::new();
    let a = leaf(&mut g, 2.0);
    let b = leaf(&mut g, -3.0);
    let c = a.mul(&mut g, &b);
    g.set_grad(c.root, (1.0f64).to_bits());
    c.backwards(&mut g);
    c.backwards(&mut g);
    // without zeroing in between, contributions add up
    assert_eq!(grad_of(&g, a), -6.0);
}

#[test]
fn set_data_and_set_grad_update_in_place() {
    let mut g = Graph::new();
    let a = leaf(&mut g, 1.0);
    g.set_data(a.root, (4.5f64).to_bits());
    g.set_grad(a.root, (-0.5f64).to_bits());
    assert_eq!(data_of(&g, a), 4.5);
    assert_eq!(grad_of(&g, a), -0.5);
    assert_eq!(g.len(), 1);
}

#[test]
fn labels_are_stored_and_replaceable() {
    let mut g = Graph::new();
    let a = NNode::init(&mut g, (2.0f64).to_bits(), "x1".to_string());
    assert_eq!(g.nodes[a.root].label, "x1");
    let b = NNode::new(&mut g, 0);
    assert_eq!(g.nodes[b.root].label, "");
    g.set_label(b.root, "bias".to_string());
    assert_eq!(g.nodes[b.root].label, "bias");
}

#[test]
fn trace_collects_every_node_and_edge() {
    let mut g = Graph::new();
    let a = leaf(&mut g, 2.0);
    let b = leaf(&mut g, 3.0);
    let c = a.add(&mut g, &b);
    let d = c.mul(&mut g, &a);
    let (nodes, edges) = trace(&g, d.root);
    assert_eq!(nodes.len(), 4);
    assert!(nodes.contains(&a.root) && nodes.contains(&b.root));
    assert!(edges.contains(&(c.root, d.root)));
    assert!(edges.contains(&(a.root, d.root)));
    assert!(edges.contains(&(a.root, c.root)));
    assert!(edges.contains(&(b.root, c.root)));
}

#[test]
fn worked_example_from_the_engine() {
    let (g, hs) = test_engine();
    let (x1, x2, w1, w2, _b, o) = (hs[0], hs[1], hs[2], hs[3], hs[4], hs[5]);
    assert!((data_of(&g, o) - 0.7071067811865476).abs() < 1e-9);
    assert!((grad_of(&g, x1) - (-1.5)).abs() < 1e-9);
    assert!((grad_of(&g, w1) - 1.0).abs() < 1e-9);
    assert!((grad_of(&g, x2) - 0.5).abs() < 1e-9);
    assert!((grad_of(&g, w2) - 0.0).abs() < 1e-9);
}

#[test]
fn worked_example_built_by_hand() {
    let mut g = Graph::new();
    let x1 = leaf(&mut g, 2.0);
    let x2 = leaf(&mut g, 0.0);
    let w1 = leaf(&mut g, -3.0);
    let w2 = leaf(&mut g, 1.0);
    let b = leaf(&mut g, 6.8813735870195432);
    let x1w1 = x1.mul(&mut g, &w1);
    let x2w2 = x2.mul(&mut g, &w2);
    let s = x1w1.add(&mut g, &x2w2);
    let m = s.add(&mut g, &b);
    let o = m.tanh(&mut g);
    g.set_grad(o.root, (1.0f64).to_bits());
    o.backwards(&mut g);
    assert!((data_of(&g, o) - 0.7071067811865476).abs() < 1e-9);
    assert!((grad_of(&g, x1) - (-1.5)).abs() < 1e-9);
    assert!((grad_of(&g, w1) - 1.0).abs() < 1e-9);
    assert!((grad_of(&g, x2) - 0.5).abs() < 1e-9);
    assert!((grad_of(&g, w2) - 0.0).abs() < 1e-9);
}
