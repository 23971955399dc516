//! The feed-forward network collaborator: neurons, layers and a
//! multi-layer perceptron, built on top of the engine's graph-building
//! operations. It contains no differentiation logic of its own — it only
//! grows the graph — and its random initial weights are drawn by the
//! caller and passed in as plain bit patterns.

use crate::engine::{
    add_vec, extends, fold_sum, roots_of, tanh_of, wf, Graph, NNode, Op, Value,
};
use crate::scalar::{prod_bits, ZERO_BITS};
use vstd::prelude::*;

verus! {

broadcast use vstd::string::to_string_from_display_ensures_for_str;

/// A single neuron: one weight node per input, plus a bias node.
pub struct Neuron {
    pub w: Vec<NNode>,
    pub b: NNode,
}

/// Whether every handle of `hs` points inside an arena of length `n`.
pub open spec fn handles_below(hs: Seq<NNode>, n: int) -> bool {
    forall|k: int| 0 <= k < hs.len() ==> (#[trigger] hs[k]).root < n
}

/// Whether all of a neuron's nodes lie inside an arena of length `n`.
pub open spec fn neuron_in(nr: Neuron, n: int) -> bool {
    &&& handles_below(nr.w@, n)
    &&& nr.b.root < n
}

/// The pairwise products of the weights' and inputs' forward values,
/// truncated to the shorter of the two sequences.
pub open spec fn paired_products(s: Seq<Value>, w: Seq<NNode>, x: Seq<NNode>) -> Seq<u64> {
    Seq::new(
        if w.len() <= x.len() {
            w.len()
        } else {
            x.len()
        },
        |i: int| prod_bits(s[w[i].root as int].data, s[x[i].root as int].data),
    )
}

/// The parameter handles of a neuron: its weights, then its bias.
pub open spec fn neuron_params(nr: Neuron) -> Seq<NNode> {
    nr.w@.push(nr.b)
}

/// The forward values of a sequence of handles in the arena `s`.
pub open spec fn values_of(s: Seq<Value>, hs: Seq<NNode>) -> Seq<u64> {
    hs.map_values(|h: NNode| s[h.root as int].data)
}

/// The forward value a neuron computes from the given input values, its
/// weights and bias read from the arena `s`: tanh of the weighted sum
/// plus bias, truncated to the shorter of weights and inputs.
pub open spec fn neuron_out(s: Seq<Value>, nr: Neuron, xs: Seq<u64>) -> u64 {
    let n = if nr.w@.len() <= xs.len() {
        nr.w@.len()
    } else {
        xs.len()
    };
    let prods = Seq::new(n, |i: int| prod_bits(s[nr.w@[i].root as int].data, xs[i]));
    tanh_of(fold_sum(prods.push(s[nr.b.root as int].data)))
}

/// The values a whole layer produces from the given input values: one
/// [`neuron_out`] per neuron.
pub open spec fn layer_outs(s: Seq<Value>, l: Layer, xs: Seq<u64>) -> Seq<u64> {
    Seq::new(l.neurons@.len(), |k: int| neuron_out(s, l.neurons@[k], xs))
}

/// The values a chain of layers produces: each layer consumes the
/// previous layer's outputs, the first consuming the inputs themselves.
pub open spec fn mlp_outs(s: Seq<Value>, layers: Seq<Layer>, xs: Seq<u64>) -> Seq<u64>
    decreases layers.len(),
{
    if layers.len() == 0 {
        xs
    } else {
        mlp_outs(s, layers.drop_first(), layer_outs(s, layers[0], xs))
    }
}

/// Appending one layer to a chain feeds it the chain's outputs.
proof fn lemma_mlp_outs_snoc(s: Seq<Value>, layers: Seq<Layer>, lay: Layer, xs: Seq<u64>)
    ensures
        mlp_outs(s, layers.push(lay), xs) == layer_outs(s, lay, mlp_outs(s, layers, xs)),
    decreases layers.len(),
{
    if layers.len() == 0 {
        assert(layers.push(lay).drop_first() =~= Seq::<Layer>::empty());
        assert(mlp_outs(s, layers.push(lay), xs) == mlp_outs(
            s,
            Seq::<Layer>::empty(),
            layer_outs(s, lay, xs),
        ));
        assert(mlp_outs(s, Seq::<Layer>::empty(), layer_outs(s, lay, xs)) == layer_outs(
            s,
            lay,
            xs,
        ));
    } else {
        assert(layers.push(lay).drop_first() =~= layers.drop_first().push(lay));
        assert(mlp_outs(s, layers.push(lay), xs) == mlp_outs(
            s,
            layers.drop_first().push(lay),
            layer_outs(s, layers[0], xs),
        ));
        lemma_mlp_outs_snoc(s, layers.drop_first(), lay, layer_outs(s, layers[0], xs));
    }
}

impl Neuron {
    /// Creates a neuron whose weights hold the given bit patterns, one
    /// leaf node per weight, plus a bias leaf labelled `b`. Drawing the
    /// values — customarily uniformly from the unit interval around zero —
    /// is the caller's business; the library only records them.
    pub fn from_weights(g: &mut Graph, w_bits: &Vec<u64>, b_bits: u64) -> (r: Neuron)
        requires
            wf(old(g)@),
        ensures
            wf(final(g)@),
            extends(old(g)@, final(g)@),
            final(g)@.len() == old(g)@.len() + w_bits@.len() + 1,
            r.w@.len() == w_bits@.len(),
            forall|k: int|
                0 <= k < w_bits@.len() ==> (#[trigger] r.w@[k]).root == old(g)@.len() + k,
            forall|k: int|
                0 <= k < w_bits@.len() ==> {
                    &&& (#[trigger] final(g)@[old(g)@.len() + k]).data == w_bits@[k]
                    &&& final(g)@[old(g)@.len() + k].op == Op::Leaf
                    &&& final(g)@[old(g)@.len() + k].grad == ZERO_BITS
                },
            r.b.root == old(g)@.len() + w_bits@.len(),
            final(g)@[r.b.root as int].data == b_bits,
            final(g)@[r.b.root as int].op == Op::Leaf,
            final(g)@[r.b.root as int].grad == ZERO_BITS,
            final(g)@[r.b.root as int].label@ == "b"@,
            neuron_in(r, final(g)@.len() as int),
    {
        let ghost s0 = g@;
        let mut w: Vec<NNode> = Vec::new();
        let mut i: usize = 0;
        while i < w_bits.len()
            invariant
                wf(g@),
                extends(s0, g@),
                i <= w_bits@.len(),
                g@.len() == s0.len() + i,
                w@.len() == i,
                forall|k: int| 0 <= k < i ==> (#[trigger] w@[k]).root == s0.len() + k,
                forall|k: int|
                    0 <= k < i ==> {
                        &&& (#[trigger] g@[s0.len() + k]).data == w_bits@[k]
                        &&& g@[s0.len() + k].op == Op::Leaf
                        &&& g@[s0.len() + k].grad == ZERO_BITS
                    },
            decreases w_bits@.len() - i,
        {
            let h = NNode::new(g, w_bits[i]);
            w.push(h);
            i = i + 1;
        }
        let b = NNode::init(g, b_bits, "b".to_string());
        Neuron { w, b }
    }

    /// Applies the neuron to the inputs `x`: multiplies each weight with
    /// the paired input, sums the products together with the bias through
    /// one n-ary fan-in, and feeds the sum through tanh. The result node's
    /// forward value is exactly that composition over the operand values
    /// at entry; no existing node is modified.
    pub fn call(&self, g: &mut Graph, x: &Vec<NNode>) -> (r: NNode)
        requires
            wf(old(g)@),
            neuron_in(*self, old(g)@.len() as int),
            handles_below(x@, old(g)@.len() as int),
        ensures
            wf(final(g)@),
            extends(old(g)@, final(g)@),
            r.root < final(g)@.len(),
            final(g)@[r.root as int].op == Op::Tanh,
            final(g)@[r.root as int].data == tanh_of(
                fold_sum(
                    paired_products(old(g)@, self.w@, x@).push(
                        old(g)@[self.b.root as int].data,
                    ),
                ),
            ),
    {
        let ghost s0 = g@;
        let ghost prods = paired_products(s0, self.w@, x@);
        let n = if self.w.len() <= x.len() {
            self.w.len()
        } else {
            x.len()
        };
        let mut act: Vec<NNode> = Vec::new();
        let mut i: usize = 0;
        while i < n
            invariant
                wf(g@),
                extends(s0, g@),
                i <= n,
                n == prods.len(),
                n <= self.w@.len() && n <= x@.len(),
                neuron_in(*self, s0.len() as int),
                handles_below(x@, s0.len() as int),
                prods == paired_products(s0, self.w@, x@),
                act@.len() == i,
                forall|k: int| 0 <= k < i ==> (#[trigger] act@[k]).root < g@.len(),
                forall|k: int| 0 <= k < i ==> g@[(#[trigger] act@[k]).root as int].data == prods[k],
            decreases n - i,
        {
            let m = self.w[i].mul(g, &x[i]);
            act.push(m);
            i = i + 1;
        }
        act.push(self.b);
        let ghost s1 = g@;
        let ghost datas = roots_of(act@).map_values(|t: usize| s1[t as int].data);
        proof {
            assert(datas =~= prods.push(s0[self.b.root as int].data)) by {
                assert forall|k: int| 0 <= k < datas.len() implies datas[k] == prods.push(
                    s0[self.b.root as int].data,
                )[k] by {
                    assert(roots_of(act@)[k] == act@[k].root);
                    if k < n {
                        assert(s1[act@[k].root as int].data == prods[k]);
                    } else {
                        assert(act@[k] == self.b);
                        assert(s1[self.b.root as int] == s0[self.b.root as int]);
                    }
                }
            }
        }
        let out = add_vec(g, &act);
        let norm = out.tanh(g);
        norm
    }

    /// The neuron's parameter handles: every weight, then the bias.
    pub fn parameters(&self) -> (r: Vec<NNode>)
        ensures
            r@ == neuron_params(*self),
    {
        let mut out: Vec<NNode> = Vec::new();
        let mut i: usize = 0;
        while i < self.w.len()
            invariant
                i <= self.w@.len(),
                out@ == self.w@.take(i as int),
            decreases self.w@.len() - i,
        {
            let h = self.w[i];
            out.push(h);
            proof {
                assert(self.w@.take(i as int).push(self.w@[i as int]) =~= self.w@.take(i + 1));
            }
            i = i + 1;
        }
        proof {
            assert(self.w@.take(self.w@.len() as int) =~= self.w@);
        }
        out.push(self.b);
        out
    }
}

/// A layer: a row of neurons sharing the same inputs.
pub struct Layer {
    pub neurons: Vec<Neuron>,
}

/// Whether all of a layer's nodes lie inside an arena of length `n`.
pub open spec fn layer_in(l: Layer, n: int) -> bool {
    forall|k: int| 0 <= k < l.neurons@.len() ==> neuron_in(#[trigger] l.neurons@[k], n)
}

/// The parameter handles of a layer: each neuron's parameters in turn.
pub open spec fn layer_params(l: Layer) -> Seq<NNode> {
    l.neurons@.map_values(|nr: Neuron| neuron_params(nr)).flatten()
}

/// Containment in an arena is monotone in the arena's length.
proof fn lemma_neuron_in_mono(nr: Neuron, n1: int, n2: int)
    requires
        neuron_in(nr, n1),
        n1 <= n2,
    ensures
        neuron_in(nr, n2),
{
}

/// Containment of a whole layer is monotone in the arena's length.
proof fn lemma_layer_in_mono(l: Layer, n1: int, n2: int)
    requires
        layer_in(l, n1),
        n1 <= n2,
    ensures
        layer_in(l, n2),
{
    assert forall|k: int| 0 <= k < l.neurons@.len() implies neuron_in(
        #[trigger] l.neurons@[k],
        n2,
    ) by {
        lemma_neuron_in_mono(l.neurons@[k], n1, n2);
    }
}

/// Appending one inner sequence to a flattened family appends its
/// elements after the rest.
proof fn lemma_flatten_snoc(m: Seq<Seq<NNode>>, x: Seq<NNode>)
    ensures
        m.push(x).flatten() == m.flatten() + x,
    decreases m.len(),
{
    if m.len() == 0 {
        assert(m.push(x).drop_first() =~= Seq::<Seq<NNode>>::empty());
        assert(m.push(x).flatten() == x + Seq::<Seq<NNode>>::empty().flatten());
        assert(x + Seq::<NNode>::empty() =~= x);
        assert(m.flatten() + x =~= x);
    } else {
        assert(m.push(x).drop_first() =~= m.drop_first().push(x));
        assert(m.push(x).flatten() == m[0] + m.drop_first().push(x).flatten());
        lemma_flatten_snoc(m.drop_first(), x);
        assert(m[0] + (m.drop_first().flatten() + x) =~= (m[0] + m.drop_first().flatten()) + x);
    }
}

impl Layer {
    /// Creates a layer of `nout` neurons with `nin` inputs each. `init`
    /// supplies the initial values, `nin` weights and one bias per neuron,
    /// consumed in order; the caller draws them.
    pub fn new(g: &mut Graph, nin: usize, nout: usize, init: &Vec<u64>) -> (r: Layer)
        requires
            wf(old(g)@),
            init@.len() == (nout as int) * (nin as int + 1),
        ensures
            wf(final(g)@),
            extends(old(g)@, final(g)@),
            r.neurons@.len() == nout,
            layer_in(r, final(g)@.len() as int),
            forall|i: int| 0 <= i < nout ==> (#[trigger] r.neurons@[i]).w@.len() == nin,
            forall|i: int, j: int|
                0 <= i < nout && 0 <= j < nin ==> final(g)@[(#[trigger] r.neurons@[i].w@[j]).root as int].data
                    == init@[i * (nin as int + 1) + j],
            forall|i: int|
                0 <= i < nout ==> final(g)@[(#[trigger] r.neurons@[i]).b.root as int].data
                    == init@[i * (nin as int + 1) + nin],
    {
        let ghost s0 = g@;
        let total: usize = init.len();
        let mut neurons: Vec<Neuron> = Vec::new();
        let mut off: usize = 0;
        let mut i: usize = 0;
        while i < nout
            invariant
                wf(g@),
                extends(s0, g@),
                init@.len() == (nout as int) * (nin as int + 1),
                init@.len() == total,
                i <= nout,
                off == i * (nin as int + 1),
                neurons@.len() == i,
                forall|k: int|
                    0 <= k < i ==> neuron_in(#[trigger] neurons@[k], g@.len() as int),
                forall|k: int| 0 <= k < i ==> (#[trigger] neurons@[k]).w@.len() == nin,
                forall|k: int, j: int|
                    0 <= k < i && 0 <= j < nin ==> g@[(#[trigger] neurons@[k].w@[j]).root as int].data
                        == init@[k * (nin as int + 1) + j],
                forall|k: int|
                    0 <= k < i ==> g@[(#[trigger] neurons@[k]).b.root as int].data == init@[k * (nin
                        as int + 1) + nin],
            decreases nout - i,
        {
            proof {
                assert((i as int + 1) * (nin as int + 1) <= (nout as int) * (nin as int + 1))
                    by (nonlinear_arith)
                    requires
                        0 <= i as int,
                        0 <= nin as int,
                        i < nout,
                {}
                assert((i as int + 1) * (nin as int + 1) == i * (nin as int + 1) + (nin as int + 1))
                    by (nonlinear_arith)
                {}
            }
            let mut wb: Vec<u64> = Vec::new();
            let mut j: usize = 0;
            while j < nin
                invariant
                    j <= nin,
                    wb@.len() == j,
                    off + nin as int + 1 <= total,
                    init@.len() == total,
                    forall|l: int| 0 <= l < j ==> wb@[l] == init@[off + l],
                decreases nin - j,
            {
                wb.push(init[off + j]);
                j = j + 1;
            }
            let ghost glen = g@.len() as int;
            let nr = Neuron::from_weights(g, &wb, init[off + nin]);
            neurons.push(nr);
            proof {
                assert forall|k: int|
                    0 <= k < neurons@.len() implies neuron_in(
                    #[trigger] neurons@[k],
                    g@.len() as int,
                ) by {
                    if k < i {
                        lemma_neuron_in_mono(neurons@[k], glen, g@.len() as int);
                    }
                }
            }
            off = off + nin + 1;
            i = i + 1;
        }
        Layer { neurons }
    }

    /// Applies every neuron of the layer to the same inputs and returns
    /// one output handle per neuron, each a tanh node whose forward value
    /// is exactly that neuron's composition over the operand values at
    /// entry.
    pub fn call(&self, g: &mut Graph, x: &Vec<NNode>) -> (r: Vec<NNode>)
        requires
            wf(old(g)@),
            layer_in(*self, old(g)@.len() as int),
            handles_below(x@, old(g)@.len() as int),
        ensures
            wf(final(g)@),
            extends(old(g)@, final(g)@),
            r@.len() == self.neurons@.len(),
            handles_below(r@, final(g)@.len() as int),
            forall|k: int|
                0 <= k < r@.len() ==> final(g)@[(#[trigger] r@[k]).root as int].op == Op::Tanh,
            forall|k: int|
                0 <= k < r@.len() ==> final(g)@[(#[trigger] r@[k]).root as int].data == tanh_of(
                    fold_sum(
                        paired_products(old(g)@, self.neurons@[k].w@, x@).push(
                            old(g)@[self.neurons@[k].b.root as int].data,
                        ),
                    ),
                ),
    {
        let ghost s0 = g@;
        let mut out: Vec<NNode> = Vec::new();
        let mut i: usize = 0;
        while i < self.neurons.len()
            invariant
                wf(g@),
                extends(s0, g@),
                i <= self.neurons@.len(),
                layer_in(*self, s0.len() as int),
                handles_below(x@, s0.len() as int),
                out@.len() == i,
                handles_below(out@, g@.len() as int),
                forall|k: int|
                    0 <= k < i ==> g@[(#[trigger] out@[k]).root as int].op == Op::Tanh,
                forall|k: int|
                    0 <= k < i ==> g@[(#[trigger] out@[k]).root as int].data == tanh_of(
                        fold_sum(
                            paired_products(s0, self.neurons@[k].w@, x@).push(
                                s0[self.neurons@[k].b.root as int].data,
                            ),
                        ),
                    ),
            decreases self.neurons@.len() - i,
        {
            let ghost s_pre = g@;
            let h = self.neurons[i].call(g, x);
            out.push(h);
            proof {
                // the neuron read the same operand values the layer was
                // handed: the graph only grew in between
                assert(paired_products(s_pre, self.neurons@[i as int].w@, x@) =~= paired_products(
                    s0,
                    self.neurons@[i as int].w@,
                    x@,
                ));
                assert(s_pre[self.neurons@[i as int].b.root as int] == s0[self.neurons@[i as
                    int].b.root as int]);
            }
            i = i + 1;
        }
        out
    }

    /// The layer's parameter handles: each neuron's weights and bias, in
    /// neuron order.
    pub fn parameters(&self) -> (r: Vec<NNode>)
        ensures
            r@ == layer_params(*self),
    {
        let mut out: Vec<NNode> = Vec::new();
        let mut i: usize = 0;
        while i < self.neurons.len()
            invariant
                i <= self.neurons@.len(),
                out@ == self.neurons@.take(i as int).map_values(
                    |nr: Neuron| neuron_params(nr),
                ).flatten(),
            decreases self.neurons@.len() - i,
        {
            let mut ps = self.neurons[i].parameters();
            let mut k: usize = 0;
            let ghost before = out@;
            while k < ps.len()
                invariant
                    k <= ps@.len(),
                    out@ == before + ps@.take(k as int),
                decreases ps@.len() - k,
            {
                let h = ps[k];
                out.push(h);
                proof {
                    assert(before + ps@.take(k + 1) =~= (before + ps@.take(k as int)).push(
                        ps@[k as int],
                    ));
                }
                k = k + 1;
            }
            proof {
                assert(ps@.take(ps@.len() as int) =~= ps@);
                let taken = self.neurons@.take(i as int).map_values(|nr: Neuron| neuron_params(nr));
                lemma_flatten_snoc(taken, ps@);
                assert(self.neurons@.take(i + 1).map_values(|nr: Neuron| neuron_params(nr))
                    =~= taken.push(neuron_params(self.neurons@[i as int])));
            }
            i = i + 1;
        }
        proof {
            assert(self.neurons@.take(self.neurons@.len() as int) =~= self.neurons@);
        }
        out
    }
}

/// A multi-layer perceptron: a chain of layers, each feeding the next.
pub struct MLP {
    pub size: Vec<usize>,
    pub layers: Vec<Layer>,
}

/// Whether all of a perceptron's nodes lie inside an arena of length `n`.
pub open spec fn mlp_in(m: MLP, n: int) -> bool {
    forall|k: int| 0 <= k < m.layers@.len() ==> layer_in(#[trigger] m.layers@[k], n)
}

impl MLP {
    /// Creates a perceptron with `nin` inputs and one layer per entry of
    /// `nouts`, each consuming the matching entry of `inits` for its
    /// initial weights and biases.
    pub fn new(g: &mut Graph, nin: usize, nouts: &Vec<usize>, inits: &Vec<Vec<u64>>) -> (r: MLP)
        requires
            wf(old(g)@),
            inits@.len() == nouts@.len(),
            forall|i: int|
                0 <= i < nouts@.len() ==> (#[trigger] inits@[i])@.len() == (nouts@[i] as int) * ((
                if i == 0 {
                    nin as int
                } else {
                    nouts@[i - 1] as int
                }) + 1),
        ensures
            wf(final(g)@),
            extends(old(g)@, final(g)@),
            r.size@ == seq![nin] + nouts@,
            r.layers@.len() == nouts@.len(),
            mlp_in(r, final(g)@.len() as int),
            forall|i: int|
                0 <= i < nouts@.len() ==> (#[trigger] r.layers@[i]).neurons@.len() == nouts@[i],
            forall|i: int, k: int|
                0 <= i < r.layers@.len() && 0 <= k < r.layers@[i].neurons@.len() ==> (
                #[trigger] r.layers@[i].neurons@[k]).w@.len() == r.size@[i],
    {
        let ghost s0 = g@;
        let mut size: Vec<usize> = Vec::new();
        size.push(nin);
        let mut i: usize = 0;
        while i < nouts.len()
            invariant
                i <= nouts@.len(),
                size@ == seq![nin] + nouts@.take(i as int),
            decreases nouts@.len() - i,
        {
            size.push(nouts[i]);
            proof {
                assert((seq![nin] + nouts@.take(i as int)).push(nouts@[i as int]) =~= seq![nin]
                    + nouts@.take(i + 1));
            }
            i = i + 1;
        }
        proof {
            assert(nouts@.take(nouts@.len() as int) =~= nouts@);
        }
        let mut layers: Vec<Layer> = Vec::new();
        let mut l: usize = 0;
        while l < nouts.len()
            invariant
                wf(g@),
                extends(s0, g@),
                l <= nouts@.len(),
                inits@.len() == nouts@.len(),
                size@ == seq![nin] + nouts@,
                forall|i2: int|
                    0 <= i2 < nouts@.len() ==> (#[trigger] inits@[i2])@.len() == (nouts@[i2] as int)
                        * ((if i2 == 0 {
                        nin as int
                    } else {
                        nouts@[i2 - 1] as int
                    }) + 1),
                layers@.len() == l,
                forall|i2: int| 0 <= i2 < l ==> layer_in(#[trigger] layers@[i2], g@.len() as int),
                forall|i2: int|
                    0 <= i2 < l ==> (#[trigger] layers@[i2]).neurons@.len() == nouts@[i2],
                forall|i2: int, k: int|
                    0 <= i2 < l && 0 <= k < layers@[i2].neurons@.len() ==> (
                    #[trigger] layers@[i2].neurons@[k]).w@.len() == size@[i2],
            decreases nouts@.len() - l,
        {
            let fan_in = size[l];
            proof {
                assert(size@[l as int] == if l == 0 {
                    nin
                } else {
                    nouts@[l - 1]
                });
            }
            let ghost glen = g@.len() as int;
            let lay = Layer::new(g, fan_in, nouts[l], &inits[l]);
            layers.push(lay);
            proof {
                assert forall|i2: int| 0 <= i2 < layers@.len() implies layer_in(
                    #[trigger] layers@[i2],
                    g@.len() as int,
                ) by {
                    if i2 < l {
                        lemma_layer_in_mono(layers@[i2], glen, g@.len() as int);
                    }
                }
            }
            l = l + 1;
        }
        MLP { size, layers }
    }

    /// Feeds the inputs through every layer in turn and returns the final
    /// layer's outputs (or the inputs themselves if there is no layer).
    /// The outputs' forward values are exactly the layers' composition
    /// [`mlp_outs`] over the input values at entry: each layer's tanh of
    /// weighted sum plus bias, chained.
    pub fn call(&self, g: &mut Graph, x: &Vec<NNode>) -> (r: Vec<NNode>)
        requires
            wf(old(g)@),
            mlp_in(*self, old(g)@.len() as int),
            handles_below(x@, old(g)@.len() as int),
        ensures
            wf(final(g)@),
            extends(old(g)@, final(g)@),
            handles_below(r@, final(g)@.len() as int),
            self.layers@.len() == 0 ==> r@ == x@,
            self.layers@.len() > 0 ==> r@.len() == self.layers@.last().neurons@.len(),
            self.layers@.len() > 0 ==> forall|k: int|
                0 <= k < r@.len() ==> final(g)@[(#[trigger] r@[k]).root as int].op == Op::Tanh,
            r@.len() == mlp_outs(old(g)@, self.layers@, values_of(old(g)@, x@)).len(),
            forall|k: int|
                0 <= k < r@.len() ==> final(g)@[(#[trigger] r@[k]).root as int].data == mlp_outs(
                    old(g)@,
                    self.layers@,
                    values_of(old(g)@, x@),
                )[k],
    {
        let ghost s0 = g@;
        let ghost xs0 = values_of(s0, x@);
        let mut out: Vec<NNode> = Vec::new();
        let mut i: usize = 0;
        while i < x.len()
            invariant
                i <= x@.len(),
                out@ == x@.take(i as int),
            decreases x@.len() - i,
        {
            let h = x[i];
            out.push(h);
            proof {
                assert(x@.take(i as int).push(x@[i as int]) =~= x@.take(i + 1));
            }
            i = i + 1;
        }
        proof {
            assert(x@.take(x@.len() as int) =~= x@);
            assert(mlp_outs(s0, self.layers@.take(0), xs0) == xs0) by {
                assert(self.layers@.take(0) =~= Seq::<Layer>::empty());
            }
        }
        let mut l: usize = 0;
        while l < self.layers.len()
            invariant
                wf(g@),
                extends(s0, g@),
                l <= self.layers@.len(),
                mlp_in(*self, s0.len() as int),
                handles_below(x@, s0.len() as int),
                xs0 == values_of(s0, x@),
                handles_below(out@, g@.len() as int),
                l == 0 ==> out@ == x@,
                l > 0 ==> out@.len() == self.layers@[l - 1].neurons@.len(),
                l > 0 ==> forall|k: int|
                    0 <= k < out@.len() ==> g@[(#[trigger] out@[k]).root as int].op == Op::Tanh,
                out@.len() == mlp_outs(s0, self.layers@.take(l as int), xs0).len(),
                forall|k: int|
                    0 <= k < out@.len() ==> g@[(#[trigger] out@[k]).root as int].data == mlp_outs(
                        s0,
                        self.layers@.take(l as int),
                        xs0,
                    )[k],
            decreases self.layers@.len() - l,
        {
            let ghost s_pre = g@;
            let ghost vals = mlp_outs(s0, self.layers@.take(l as int), xs0);
            let ghost lay = self.layers@[l as int];
            let prev = out;
            out = self.layers[l].call(g, &prev);
            proof {
                // the layer read exactly the chain's values so far: its
                // weights and bias are old nodes, and the handed handles
                // carry the previous layer's outputs
                assert forall|k: int| 0 <= k < lay.neurons@.len() implies paired_products(
                    s_pre,
                    lay.neurons@[k].w@,
                    prev@,
                ).push(s_pre[lay.neurons@[k].b.root as int].data) =~= Seq::new(
                    if lay.neurons@[k].w@.len() <= vals.len() {
                        lay.neurons@[k].w@.len()
                    } else {
                        vals.len()
                    },
                    |i: int| prod_bits(s0[lay.neurons@[k].w@[i].root as int].data, vals[i]),
                ).push(s0[lay.neurons@[k].b.root as int].data) by {
                    assert(neuron_in(lay.neurons@[k], s0.len() as int));
                    assert(s_pre[lay.neurons@[k].b.root as int] == s0[lay.neurons@[k].b.root
                        as int]);
                    assert forall|i: int|
                        0 <= i < paired_products(s_pre, lay.neurons@[k].w@, prev@).len() implies
                        paired_products(s_pre, lay.neurons@[k].w@, prev@)[i] == prod_bits(
                        s0[lay.neurons@[k].w@[i].root as int].data,
                        vals[i],
                    ) by {
                        assert(s_pre[lay.neurons@[k].w@[i].root as int] == s0[lay.neurons@[k].w@[i].root as int]);
                        assert(s_pre[prev@[i].root as int].data == vals[i]);
                    }
                }
                assert forall|k: int| 0 <= k < out@.len() implies g@[(#[trigger] out@[k]).root
                    as int].data == layer_outs(s0, lay, vals)[k] by {
                    assert(g@[out@[k].root as int].data == tanh_of(
                        fold_sum(
                            paired_products(s_pre, lay.neurons@[k].w@, prev@).push(
                                s_pre[lay.neurons@[k].b.root as int].data,
                            ),
                        ),
                    ));
                }
                lemma_mlp_outs_snoc(s0, self.layers@.take(l as int), lay, xs0);
                assert(self.layers@.take(l as int).push(lay) =~= self.layers@.take(l as int + 1));
            }
            l = l + 1;
        }
        proof {
            assert(self.layers@.take(self.layers@.len() as int) =~= self.layers@);
        }
        out
    }

    /// The perceptron's parameter handles: every layer's parameters in
    /// layer order.
    pub fn parameters(&self) -> (r: Vec<NNode>)
        ensures
            r@ == self.layers@.map_values(|l: Layer| layer_params(l)).flatten(),
    {
        let mut out: Vec<NNode> = Vec::new();
        let mut i: usize = 0;
        while i < self.layers.len()
            invariant
                i <= self.layers@.len(),
                out@ == self.layers@.take(i as int).map_values(
                    |l: Layer| layer_params(l),
                ).flatten(),
            decreases self.layers@.len() - i,
        {
            let mut ps = self.layers[i].parameters();
            let mut k: usize = 0;
            let ghost before = out@;
            while k < ps.len()
                invariant
                    k <= ps@.len(),
                    out@ == before + ps@.take(k as int),
                decreases ps@.len() - k,
            {
                let h = ps[k];
                out.push(h);
                proof {
                    assert(before + ps@.take(k + 1) =~= (before + ps@.take(k as int)).push(
                        ps@[k as int],
                    ));
                }
                k = k + 1;
            }
            proof {
                assert(ps@.take(ps@.len() as int) =~= ps@);
                let taken = self.layers@.take(i as int).map_values(|l: Layer| layer_params(l));
                lemma_flatten_snoc(taken, ps@);
                assert(self.layers@.take(i + 1).map_values(|l: Layer| layer_params(l)) =~= taken
                    .push(layer_params(self.layers@[i as int])));
            }
            i = i + 1;
        }
        proof {
            assert(self.layers@.take(self.layers@.len() as int) =~= self.layers@);
        }
        out
    }
}

} // verus!
