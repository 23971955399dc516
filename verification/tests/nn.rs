use micrograd::engine::{Graph, NNode};
use micrograd::nn::{Layer, Neuron, MLP};

fn bits(vs: &[f64]) -> Vec<u64> {
    vs.iter().map(|v| v.to_bits()).collect()
}

fn leaves(g: &mut Graph, vs: &[f64]) -> Vec<NNode> {
    vs.iter().map(|v| NNode::new(g, v.to_bits())).collect()
}

#[test]
fn neuron_call_matches_the_manual_formula() {
    let mut g = Graph::new();
    let n = Neuron::from_weights(&mut g, &bits(&[0.5, -0.25]), (0.125f64).to_bits());
    let x = leaves(&mut g, &[2.0, 4.0]);
    let out = n.call(&mut g, &x);
    let act = 0.5 * 2.0 + (-0.25) * 4.0 + 0.125;
    let e2x = std::f64::consts::E.powf(2.0 * act);
    let expected = (e2x - 1.0) / (e2x + 1.0);
    assert!((f64::from_bits(g.data(out.root)) - expected).abs() < 1e-12);
}

#[test]
fn neuron_parameters_are_weights_then_bias() {
    let mut g = Graph::new();
    let n = Neuron::from_weights(&mut g, &bits(&[0.5, -0.25, 0.75]), (0.125f64).to_bits());
    let ps = n.parameters();
    assert_eq!(ps.len(), 4);
    assert_eq!(ps[0].root, n.w[0].root);
    assert_eq!(ps[1].root, n.w[1].root);
    assert_eq!(ps[2].root, n.w[2].root);
    assert_eq!(ps[3].root, n.b.root);
    assert_eq!(f64::from_bits(g.data(ps[3].root)), 0.125);
}

#[test]
fn layer_holds_its_initial_values() {
    let mut g = Graph::new();
    let init = bits(&[0.1, 0.2, 0.3, -0.4, 0.5, 0.6, 0.7, -0.8]);
    let l = Layer::new(&mut g, 3, 2, &init);
    assert_eq!(l.neurons.len(), 2);
    assert_eq!(l.neurons[0].w.len(), 3);
    assert_eq!(f64::from_bits(g.data(l.neurons[0].w[0].root)), 0.1);
    assert_eq!(f64::from_bits(g.data(l.neurons[0].b.root)), -0.4);
    assert_eq!(f64::from_bits(g.data(l.neurons[1].w[2].root)), 0.7);
    assert_eq!(f64::from_bits(g.data(l.neurons[1].b.root)), -0.8);
    assert_eq!(l.parameters().len(), 8);
}

#[test]
fn layer_call_produces_one_output_per_neuron() {
    let mut g = Graph::new();
    let init = bits(&[0.1, 0.2, -0.3, 0.4, 0.5, -0.6]);
    let l = Layer::new(&mut g, 2, 2, &init);
    let x = leaves(&mut g, &[1.0, -1.0]);
    let out = l.call(&mut g, &x);
    assert_eq!(out.len(), 2);
    let a0: f64 = 0.1 * 1.0 + 0.2 * (-1.0) + (-0.3);
    assert!((f64::from_bits(g.data(out[0].root)) - a0.tanh()).abs() < 1e-9);
}

#[test]
fn mlp_shapes_and_parameter_count() {
    let mut g = Graph::new();
    let nouts = vec![4usize, 4, 1];
    let inits = vec![
        bits(&vec![0.01f64; 4 * 4]),
        bits(&vec![0.02f64; 4 * 5]),
        bits(&vec![0.03f64; 1 * 5]),
    ];
    let m = MLP::new(&mut g, 3, &nouts, &inits);
    assert_eq!(m.size, vec![3, 4, 4, 1]);
    assert_eq!(m.layers.len(), 3);
    assert_eq!(m.layers[0].neurons.len(), 4);
    assert_eq!(m.parameters().len(), 16 + 20 + 5);
    let x = leaves(&mut g, &[2.0, 3.0, -1.0]);
    let y = m.call(&mut g, &x);
    assert_eq!(y.len(), 1);
}

#[test]
fn mlp_call_composes_the_layers() {
    let mut g = Graph::new();
    let nouts = vec![1usize, 1];
    let inits = vec![bits(&[0.5, 0.25]), bits(&[-0.75, 0.125])];
    let m = MLP::new(&mut g, 1, &nouts, &inits);
    let x = leaves(&mut g, &[2.0]);
    let y = m.call(&mut g, &x);
    assert_eq!(y.len(), 1);
    let h1 = (0.5f64 * 2.0 + 0.25).tanh();
    let expected = (-0.75f64 * h1 + 0.125).tanh();
    assert!((f64::from_bits(g.data(y[0].root)) - expected).abs() < 1e-9);
}

#[test]
fn mlp_gradient_descent_reduces_the_loss() {
    // one tiny deterministic training run: loss must go down
    let mut g = Graph::new();
    let nouts = vec![2usize, 1];
    let inits = vec![
        bits(&[0.5, -0.3, 0.1, 0.8, 0.2, -0.4]),
        bits(&[0.7, -0.2, 0.05]),
    ];
    let m = MLP::new(&mut g, 2, &nouts, &inits);
    let x = leaves(&mut g, &[1.0, -2.0]);
    let target = 0.5f64;

    let mut losses: Vec<f64> = Vec::new();
    for _ in 0..5 {
        let y = m.call(&mut g, &x);
        let t = NNode::new(&mut g, target.to_bits());
        let diff = y[0].sub(&mut g, &t);
        let two = NNode::new(&mut g, (2.0f64).to_bits());
        let loss = diff.pow(&mut g, &two);
        losses.push(f64::from_bits(g.data(loss.root)));
        for p in m.parameters() {
            g.set_grad(p.root, 0u64);
        }
        g.set_grad(loss.root, (1.0f64).to_bits());
        loss.backwards(&mut g);
        for p in m.parameters() {
            let d = f64::from_bits(g.data(p.root));
            let gr = f64::from_bits(g.grad(p.root));
            g.set_data(p.root, (d - 0.1 * gr).to_bits());
        }
    }
    assert!(losses[4] < losses[0]);
}
