//! The computation graph: node arena, graph-building operations,
//! topological sequencing and the backward propagator.

use crate::scalar::{
    bits_add, bits_div, bits_mul, bits_pow, bits_sub, diff_bits, pow_bits, prod_bits, quot_bits,
    sum_bits, E_BITS, ONE_BITS, TWO_BITS, ZERO_BITS,
};
use vstd::prelude::*;

verus! {

broadcast use vstd::string::to_string_from_display_ensures_for_str;

/// The operation that produced a node. `Leaf` marks an input or parameter
/// node with no parents; every other tag selects the local derivative rule
/// that the backward propagator applies at the node.
#[derive(Clone, Copy, PartialEq, Eq, Structural, Debug)]
pub enum Op {
    Leaf,
    Add,
    Subtract,
    Multiply,
    Power,
    Tanh,
}

/// One node of the computation graph.
///
/// `data` and `grad` are IEEE-754 double bit patterns. `prev` holds the
/// arena indices of the operand nodes, in the order the operation took
/// them; `id` always equals the node's own arena index, so index equality
/// is identity.
pub struct Value {
    pub id: usize,
    pub data: u64,
    pub grad: u64,
    pub op: Op,
    pub prev: Vec<usize>,
    pub label: String,
}

/// The arena that owns every node of a graph. Nodes refer to their
/// operands by index into this arena; an operation can only mention nodes
/// that already exist, so every graph is acyclic by construction.
pub struct Graph {
    pub nodes: Vec<Value>,
}

/// A handle to one node of a [`Graph`]: just the arena index of its root.
#[derive(Clone, Copy, PartialEq, Eq, Structural, Debug)]
pub struct NNode {
    pub root: usize,
}

impl View for Graph {
    type V = Seq<Value>;

    open spec fn view(&self) -> Seq<Value> {
        self.nodes@
    }
}

/// The number of parents a node's operation requires: none for a leaf, one
/// for the unary tanh, two for the asymmetric binary operations. `Add` is
/// n-ary (the n-ary sum reuses the additive rule), so any arity is fine.
pub open spec fn arity_ok(v: Value) -> bool {
    match v.op {
        Op::Leaf => v.prev@.len() == 0,
        Op::Add => true,
        Op::Subtract => v.prev@.len() == 2,
        Op::Multiply => v.prev@.len() == 2,
        Op::Power => v.prev@.len() == 2,
        Op::Tanh => v.prev@.len() == 1,
    }
}

/// Well-formedness of the node at index `i`: its `id` is its index, its
/// arity matches its operation, and every parent index points strictly
/// below it, which keeps the graph acyclic.
pub open spec fn wf_at(s: Seq<Value>, i: int) -> bool {
    &&& s[i].id == i
    &&& arity_ok(s[i])
    &&& forall|j: int| 0 <= j < s[i].prev@.len() ==> (#[trigger] s[i].prev@[j]) < i
}

/// Well-formedness of a whole arena.
pub open spec fn wf(s: Seq<Value>) -> bool {
    forall|i: int| 0 <= i < s.len() ==> #[trigger] wf_at(s, i)
}

/// Appending a node whose `id` is the new index, whose arity matches its
/// operation and whose parents all lie below it keeps the arena well
/// formed.
proof fn lemma_wf_push(s: Seq<Value>, v: Value)
    requires
        wf(s),
        v.id == s.len(),
        arity_ok(v),
        forall|j: int| 0 <= j < v.prev@.len() ==> (#[trigger] v.prev@[j]) < s.len(),
    ensures
        wf(s.push(v)),
{
    let s2 = s.push(v);
    assert forall|i: int| 0 <= i < s2.len() implies #[trigger] wf_at(s2, i) by {
        if i < s.len() {
            assert(wf_at(s, i));
            assert(s2[i] == s[i]);
        } else {
            assert(s2[i] == v);
        }
    }
}

impl NNode {
    /// Creates a leaf node holding `data`, with no parents, gradient zero
    /// and an empty label, and returns a handle to it.
    pub fn new(g: &mut Graph, data: u64) -> (n: NNode)
        requires
            wf(old(g)@),
        ensures
            wf(final(g)@),
            n.root == old(g)@.len(),
            final(g)@ == old(g)@.push(final(g)@.last()),
            final(g)@.last().id == old(g)@.len(),
            final(g)@.last().data == data,
            final(g)@.last().grad == ZERO_BITS,
            final(g)@.last().op == Op::Leaf,
            final(g)@.last().prev@ == Seq::<usize>::empty(),
            final(g)@.last().label@ == Seq::<char>::empty(),
    {
        let id = g.nodes.len();
        let v = Value {
            id,
            data,
            grad: ZERO_BITS,
            op: Op::Leaf,
            prev: Vec::new(),
            label: String::new(),
        };
        proof {
            lemma_wf_push(g@, v);
        }
        g.nodes.push(v);
        NNode { root: id }
    }

    /// Creates a leaf node holding `data` with the given label.
    pub fn init(g: &mut Graph, data: u64, label: String) -> (n: NNode)
        requires
            wf(old(g)@),
        ensures
            wf(final(g)@),
            n.root == old(g)@.len(),
            final(g)@ == old(g)@.push(final(g)@.last()),
            final(g)@.last().id == old(g)@.len(),
            final(g)@.last().data == data,
            final(g)@.last().grad == ZERO_BITS,
            final(g)@.last().op == Op::Leaf,
            final(g)@.last().prev@ == Seq::<usize>::empty(),
            final(g)@.last().label@ == label@,
    {
        let id = g.nodes.len();
        let v = Value {
            id,
            data,
            grad: ZERO_BITS,
            op: Op::Leaf,
            prev: Vec::new(),
            label,
        };
        proof {
            lemma_wf_push(g@, v);
        }
        g.nodes.push(v);
        NNode { root: id }
    }

    /// Creates the node for the sum of `self` and `other`:
    /// `data` is the sum of the operands' `data`, the operands are recorded
    /// as parents in order, and neither operand is modified.
    pub fn add(&self, g: &mut Graph, other: &NNode) -> (n: NNode)
        requires
            wf(old(g)@),
            self.root < old(g)@.len(),
            other.root < old(g)@.len(),
        ensures
            wf(final(g)@),
            n.root == old(g)@.len(),
            final(g)@ == old(g)@.push(final(g)@.last()),
            final(g)@.last().id == old(g)@.len(),
            final(g)@.last().data == sum_bits(
                old(g)@[self.root as int].data,
                old(g)@[other.root as int].data,
            ),
            final(g)@.last().grad == ZERO_BITS,
            final(g)@.last().op == Op::Add,
            final(g)@.last().prev@ == seq![self.root, other.root],
            final(g)@.last().label@ == Seq::<char>::empty(),
    {
        let data = bits_add(g.nodes[self.root].data, g.nodes[other.root].data);
        push_binary(g, data, Op::Add, self.root, other.root)
    }

    /// Creates the node for the difference of `self` and `other`.
    pub fn sub(&self, g: &mut Graph, other: &NNode) -> (n: NNode)
        requires
            wf(old(g)@),
            self.root < old(g)@.len(),
            other.root < old(g)@.len(),
        ensures
            wf(final(g)@),
            n.root == old(g)@.len(),
            final(g)@ == old(g)@.push(final(g)@.last()),
            final(g)@.last().id == old(g)@.len(),
            final(g)@.last().data == diff_bits(
                old(g)@[self.root as int].data,
                old(g)@[other.root as int].data,
            ),
            final(g)@.last().grad == ZERO_BITS,
            final(g)@.last().op == Op::Subtract,
            final(g)@.last().prev@ == seq![self.root, other.root],
            final(g)@.last().label@ == Seq::<char>::empty(),
    {
        let data = bits_sub(g.nodes[self.root].data, g.nodes[other.root].data);
        push_binary(g, data, Op::Subtract, self.root, other.root)
    }

    /// Creates the node for the product of `self` and `other`.
    pub fn mul(&self, g: &mut Graph, other: &NNode) -> (n: NNode)
        requires
            wf(old(g)@),
            self.root < old(g)@.len(),
            other.root < old(g)@.len(),
        ensures
            wf(final(g)@),
            n.root == old(g)@.len(),
            final(g)@ == old(g)@.push(final(g)@.last()),
            final(g)@.last().id == old(g)@.len(),
            final(g)@.last().data == prod_bits(
                old(g)@[self.root as int].data,
                old(g)@[other.root as int].data,
            ),
            final(g)@.last().grad == ZERO_BITS,
            final(g)@.last().op == Op::Multiply,
            final(g)@.last().prev@ == seq![self.root, other.root],
            final(g)@.last().label@ == Seq::<char>::empty(),
    {
        let data = bits_mul(g.nodes[self.root].data, g.nodes[other.root].data);
        push_binary(g, data, Op::Multiply, self.root, other.root)
    }

    /// Creates the node for `self` raised to `other`. The exponent is
    /// recorded as the second parent but is treated as a constant by the
    /// backward propagator: no gradient flows into it. A domain violation
    /// (non-positive base with a non-integral exponent) silently yields the
    /// NaN that real-valued exponentiation produces; it is not guarded.
    pub fn pow(&self, g: &mut Graph, other: &NNode) -> (n: NNode)
        requires
            wf(old(g)@),
            self.root < old(g)@.len(),
            other.root < old(g)@.len(),
        ensures
            wf(final(g)@),
            n.root == old(g)@.len(),
            final(g)@ == old(g)@.push(final(g)@.last()),
            final(g)@.last().id == old(g)@.len(),
            final(g)@.last().data == pow_bits(
                old(g)@[self.root as int].data,
                old(g)@[other.root as int].data,
            ),
            final(g)@.last().grad == ZERO_BITS,
            final(g)@.last().op == Op::Power,
            final(g)@.last().prev@ == seq![self.root, other.root],
            final(g)@.last().label@ == Seq::<char>::empty(),
    {
        let data = bits_pow(g.nodes[self.root].data, g.nodes[other.root].data);
        push_binary(g, data, Op::Power, self.root, other.root)
    }

    /// Creates the node for the hyperbolic tangent of `self`, computed as
    /// `(e^(2x) - 1) / (e^(2x) + 1)`.
    pub fn tanh(&self, g: &mut Graph) -> (n: NNode)
        requires
            wf(old(g)@),
            self.root < old(g)@.len(),
        ensures
            wf(final(g)@),
            n.root == old(g)@.len(),
            final(g)@ == old(g)@.push(final(g)@.last()),
            final(g)@.last().id == old(g)@.len(),
            final(g)@.last().data == tanh_of(old(g)@[self.root as int].data),
            final(g)@.last().grad == ZERO_BITS,
            final(g)@.last().op == Op::Tanh,
            final(g)@.last().prev@ == seq![self.root],
            final(g)@.last().label@ == Seq::<char>::empty(),
    {
        let x = g.nodes[self.root].data;
        let e2x = bits_pow(E_BITS, bits_mul(TWO_BITS, x));
        let data = bits_div(bits_sub(e2x, ONE_BITS), bits_add(e2x, ONE_BITS));
        let id = g.nodes.len();
        let mut prev: Vec<usize> = Vec::new();
        prev.push(self.root);
        let v = Value { id, data, grad: ZERO_BITS, op: Op::Tanh, prev, label: String::new() };
        proof {
            assert(v.prev@ =~= seq![self.root]);
            lemma_wf_push(g@, v);
        }
        g.nodes.push(v);
        NNode { root: id }
    }
}

/// The bit pattern of the hyperbolic tangent of `x`, as the tanh operation
/// computes it: `(e^(2x) - 1) / (e^(2x) + 1)`, with `e^(2x)` obtained by
/// raising Euler's number to `2x`.
pub open spec fn tanh_of(x: u64) -> u64 {
    let e2x = pow_bits(E_BITS, prod_bits(TWO_BITS, x));
    quot_bits(diff_bits(e2x, ONE_BITS), sum_bits(e2x, ONE_BITS))
}

/// Shared tail of the binary graph builders: appends a node with the given
/// `data` and operation whose parents are `a` then `b`.
fn push_binary(g: &mut Graph, data: u64, op: Op, a: usize, b: usize) -> (n: NNode)
    requires
        wf(old(g)@),
        a < old(g)@.len(),
        b < old(g)@.len(),
        op != Op::Leaf,
        op != Op::Tanh,
    ensures
        wf(final(g)@),
        n.root == old(g)@.len(),
        final(g)@ == old(g)@.push(final(g)@.last()),
        final(g)@.last().id == old(g)@.len(),
        final(g)@.last().data == data,
        final(g)@.last().grad == ZERO_BITS,
        final(g)@.last().op == op,
        final(g)@.last().prev@ == seq![a, b],
        final(g)@.last().label@ == Seq::<char>::empty(),
{
    let id = g.nodes.len();
    let mut prev: Vec<usize> = Vec::new();
    prev.push(a);
    prev.push(b);
    let v = Value { id, data, grad: ZERO_BITS, op, prev, label: String::new() };
    proof {
        assert(v.prev@ =~= seq![a, b]);
        lemma_wf_push(g@, v);
    }
    g.nodes.push(v);
    NNode { root: id }
}

/// The left fold that the n-ary sum uses for its forward value: starting
/// from zero, add each operand's `data` in order.
pub open spec fn fold_sum(ds: Seq<u64>) -> u64
    decreases ds.len(),
{
    if ds.len() == 0 {
        ZERO_BITS
    } else {
        sum_bits(fold_sum(ds.drop_last()), ds.last())
    }
}

/// The arena indices of a sequence of handles.
pub open spec fn roots_of(hs: Seq<NNode>) -> Seq<usize> {
    hs.map_values(|h: NNode| h.root)
}

/// Creates one node for the sum of any number of operands: an n-ary fan-in
/// that records every operand as a parent and reuses the additive backward
/// rule. Its `data` is the left fold of the operands' `data` starting from
/// zero.
pub fn add_vec(g: &mut Graph, values: &Vec<NNode>) -> (n: NNode)
    requires
        wf(old(g)@),
        forall|i: int| 0 <= i < values@.len() ==> (#[trigger] values@[i].root) < old(g)@.len(),
    ensures
        wf(final(g)@),
        n.root == old(g)@.len(),
        final(g)@ == old(g)@.push(final(g)@.last()),
        final(g)@.last().id == old(g)@.len(),
        final(g)@.last().data == fold_sum(
            roots_of(values@).map_values(|r: usize| old(g)@[r as int].data),
        ),
        final(g)@.last().grad == ZERO_BITS,
        final(g)@.last().op == Op::Add,
        final(g)@.last().prev@ == roots_of(values@),
        final(g)@.last().label@ == Seq::<char>::empty(),
{
    let ghost datas = roots_of(values@).map_values(|r: usize| g@[r as int].data);
    let mut acc: u64 = ZERO_BITS;
    let mut prev: Vec<usize> = Vec::new();
    let mut i: usize = 0;
    while i < values.len()
        invariant
            wf(g@),
            i <= values@.len(),
            forall|k: int| 0 <= k < values@.len() ==> (#[trigger] values@[k].root) < g@.len(),
            datas == roots_of(values@).map_values(|r: usize| g@[r as int].data),
            prev@ == roots_of(values@).take(i as int),
            acc == fold_sum(datas.take(i as int)),
        decreases values@.len() - i,
    {
        let r = values[i].root;
        acc = bits_add(acc, g.nodes[r].data);
        prev.push(r);
        proof {
            assert(datas.take(i + 1).drop_last() =~= datas.take(i as int));
            assert(datas.take(i + 1).last() == g@[values@[i as int].root as int].data);
            assert(prev@ =~= roots_of(values@).take(i + 1));
        }
        i = i + 1;
    }
    proof {
        assert(datas.take(values@.len() as int) =~= datas);
        assert(prev@ =~= roots_of(values@));
    }
    let id = g.nodes.len();
    let v = Value { id, data: acc, grad: ZERO_BITS, op: Op::Add, prev, label: String::new() };
    proof {
        lemma_wf_push(g@, v);
    }
    g.nodes.push(v);
    NNode { root: id }
}

impl Graph {
    /// An empty arena.
    pub fn new() -> (g: Graph)
        ensures
            g@ == Seq::<Value>::empty(),
            wf(g@),
    {
        Graph { nodes: Vec::new() }
    }

    /// The number of nodes in the arena.
    pub fn len(&self) -> (r: usize)
        ensures
            r == self@.len(),
    {
        self.nodes.len()
    }

    /// The forward value of node `i`, as a bit pattern.
    pub fn data(&self, i: usize) -> (r: u64)
        requires
            i < self@.len(),
        ensures
            r == self@[i as int].data,
    {
        self.nodes[i].data
    }

    /// The accumulated gradient of node `i`, as a bit pattern.
    pub fn grad(&self, i: usize) -> (r: u64)
        requires
            i < self@.len(),
        ensures
            r == self@[i as int].grad,
    {
        self.nodes[i].grad
    }

    /// Overwrites the gradient accumulator of node `i`: the caller seeds
    /// the root with one before a backward pass and resets parameters to
    /// zero between passes.
    pub fn set_grad(&mut self, i: usize, grad: u64)
        requires
            wf(old(self)@),
            i < old(self)@.len(),
        ensures
            wf(final(self)@),
            final(self)@ == old(self)@.update(
                i as int,
                Value { grad, ..old(self)@[i as int] },
            ),
    {
        self.nodes[i].grad = grad;
        proof {
            lemma_wf_update_scalars(old(self)@, i as int, final(self)@);
        }
    }

    /// Overwrites the forward value of node `i`; the training collaborator
    /// uses this to update parameters in place.
    pub fn set_data(&mut self, i: usize, data: u64)
        requires
            wf(old(self)@),
            i < old(self)@.len(),
        ensures
            wf(final(self)@),
            final(self)@ == old(self)@.update(
                i as int,
                Value { data, ..old(self)@[i as int] },
            ),
    {
        self.nodes[i].data = data;
        proof {
            lemma_wf_update_scalars(old(self)@, i as int, final(self)@);
        }
    }

    /// Replaces the label of node `i`.
    pub fn set_label(&mut self, i: usize, label: String)
        requires
            wf(old(self)@),
            i < old(self)@.len(),
        ensures
            wf(final(self)@),
            final(self)@ == old(self)@.update(
                i as int,
                Value { label, ..old(self)@[i as int] },
            ),
    {
        self.nodes[i].label = label;
        proof {
            lemma_wf_update_scalars(old(self)@, i as int, final(self)@);
        }
    }
}

// ---------------------------------------------------------------------
// Topological sequencing
// ---------------------------------------------------------------------

/// The depth-first walk that the sequencer performs from node `v`, given
/// the output built so far (`t`) and the identities already visited
/// (`vis`). On the first visit of a node the walk marks it visited,
/// descends into each parent in recorded order, and only then appends the
/// node itself, so every parent precedes its consumer in the output.
pub open spec fn dfs(s: Seq<Value>, v: usize, t: Seq<usize>, vis: Seq<usize>) -> (Seq<
    usize,
>, Seq<usize>)
    decreases v, 1int, 0int,
    when v < s.len() && wf(s)
{
    if vis.contains(v) {
        (t, vis)
    } else {
        let r = dfs_kids(s, s[v as int].prev@, t, vis.push(v), v);
        (r.0.push(v), r.1)
    }
}

/// The walk over a list of parents, all of which lie strictly below
/// `bound`: visit each in order, threading the accumulated state through.
pub open spec fn dfs_kids(
    s: Seq<Value>,
    ps: Seq<usize>,
    t: Seq<usize>,
    vis: Seq<usize>,
    bound: usize,
) -> (Seq<usize>, Seq<usize>)
    decreases bound, 0int, ps.len(),
    when wf(s) && bound < s.len() && (forall|j: int| 0 <= j < ps.len() ==> (#[trigger] ps[j])
        < bound)
{
    if ps.len() == 0 {
        (t, vis)
    } else {
        let r = dfs(s, ps[0], t, vis);
        dfs_kids(s, ps.drop_first(), r.0, r.1, bound)
    }
}

/// Whether a vector of indices contains `x`.
fn contains_idx(v: &Vec<usize>, x: usize) -> (b: bool)
    ensures
        b == v@.contains(x),
{
    let mut i: usize = 0;
    while i < v.len()
        invariant
            i <= v@.len(),
            forall|k: int| 0 <= k < i ==> v@[k] != x,
        decreases v@.len() - i,
    {
        if v[i] == x {
            return true;
        }
        i = i + 1;
    }
    false
}

/// One step of the depth-first walk, mirroring [`dfs`].
fn build_topo(g: &Graph, v: usize, topo: &mut Vec<usize>, visited: &mut Vec<usize>)
    requires
        wf(g@),
        v < g@.len(),
    ensures
        (final(topo)@, final(visited)@) == dfs(g@, v, old(topo)@, old(visited)@),
    decreases v, 1int, 0int,
{
    if !contains_idx(visited, v) {
        visited.push(v);
        build_topo_kids(g, v, 0, topo, visited);
        proof {
            assert(wf_at(g@, v as int));
            assert(g@[v as int].prev@.skip(0) =~= g@[v as int].prev@);
        }
        topo.push(v);
        proof {
            let r = dfs_kids(g@, g@[v as int].prev@, old(topo)@, old(visited)@.push(v), v);
            assert(dfs(g@, v, old(topo)@, old(visited)@) == (r.0.push(v), r.1));
        }
    }
}

/// The walk over the parents of node `v` from position `j` on, mirroring
/// [`dfs_kids`].
fn build_topo_kids(g: &Graph, v: usize, j: usize, topo: &mut Vec<usize>, visited: &mut Vec<usize>)
    requires
        wf(g@),
        v < g@.len(),
        j <= g@[v as int].prev@.len(),
    ensures
        (final(topo)@, final(visited)@) == dfs_kids(
            g@,
            g@[v as int].prev@.skip(j as int),
            old(topo)@,
            old(visited)@,
            v,
        ),
    decreases v, 0int, g@[v as int].prev@.len() - j,
{
    proof {
        assert(wf_at(g@, v as int));
    }
    let ghost ps = g@[v as int].prev@.skip(j as int);
    if j < g.nodes[v].prev.len() {
        let p = g.nodes[v].prev[j];
        proof {
            assert(ps[0] == p);
        }
        build_topo(g, p, topo, visited);
        build_topo_kids(g, v, j + 1, topo, visited);
        proof {
            assert(ps.drop_first() =~= g@[v as int].prev@.skip(j + 1));
        }
    }
}

/// Sequences every node reachable from `root` into a topological order:
/// parents first, the root last, each node exactly once however many
/// consumers share it. The order is exactly the one the depth-first walk
/// produces, so it is deterministic for a fixed graph.
pub fn sequence(g: &Graph, root: usize) -> (order: Vec<usize>)
    requires
        wf(g@),
        root < g@.len(),
    ensures
        order@ == dfs(g@, root, Seq::<usize>::empty(), Seq::<usize>::empty()).0,
        all_below(order@, g@.len() as int),
        order@.no_duplicates(),
        ordered_closed(g@, order@),
        order@.len() > 0,
        order@.last() == root,
{
    let mut topo: Vec<usize> = Vec::new();
    let mut visited: Vec<usize> = Vec::new();
    build_topo(g, root, &mut topo, &mut visited);
    proof {
        law_topological_order(g@, root);
    }
    topo
}

/// The sequencer is correct: the order it produces from `root` visits
/// each reachable node exactly once (dedup is by arena identity, so two
/// equal-valued nodes stay distinct), puts every parent of an emitted
/// node strictly before that node, and emits the root last. Reversing it
/// therefore visits the root first and each node only after all of its
/// consumers.
pub proof fn law_topological_order(s: Seq<Value>, root: usize)
    requires
        wf(s),
        root < s.len(),
    ensures
        ({
            let order = dfs(s, root, Seq::<usize>::empty(), Seq::<usize>::empty()).0;
            &&& all_below(order, s.len() as int)
            &&& order.no_duplicates()
            &&& ordered_closed(s, order)
            &&& order.len() > 0
            &&& order.last() == root
        }),
{
    lemma_dfs_order(s, root, Seq::<usize>::empty(), Seq::<usize>::empty());
}

/// Whether every index in `q` lies strictly below `n`.
pub open spec fn all_below(q: Seq<usize>, n: int) -> bool {
    forall|k: int| 0 <= k < q.len() ==> (#[trigger] q[k]) < n
}

/// Whether the arena `s2` extends `s`: building operations only append,
/// so every node of the old arena is still there, unchanged.
pub open spec fn extends(s: Seq<Value>, s2: Seq<Value>) -> bool {
    &&& s.len() <= s2.len()
    &&& forall|k: int| #![trigger s[k]] #![trigger s2[k]] 0 <= k < s.len() ==> s2[k] == s[k]
}

/// Every index the walk emits or marks visited stays inside the arena.
proof fn lemma_dfs_bounds(s: Seq<Value>, v: usize, t: Seq<usize>, vis: Seq<usize>)
    requires
        wf(s),
        v < s.len(),
        all_below(t, s.len() as int),
        all_below(vis, s.len() as int),
    ensures
        all_below(dfs(s, v, t, vis).0, s.len() as int),
        all_below(dfs(s, v, t, vis).1, s.len() as int),
    decreases v, 1int, 0int,
{
    if !vis.contains(v) {
        assert(wf_at(s, v as int));
        assert(all_below(vis.push(v), s.len() as int));
        lemma_dfs_kids_bounds(s, s[v as int].prev@, t, vis.push(v), v);
        let r = dfs_kids(s, s[v as int].prev@, t, vis.push(v), v);
        assert(all_below(r.0.push(v), s.len() as int));
    }
}

/// Bounds for the walk over a parent list.
proof fn lemma_dfs_kids_bounds(
    s: Seq<Value>,
    ps: Seq<usize>,
    t: Seq<usize>,
    vis: Seq<usize>,
    bound: usize,
)
    requires
        wf(s),
        bound < s.len(),
        all_below(ps, bound as int),
        all_below(t, s.len() as int),
        all_below(vis, s.len() as int),
    ensures
        all_below(dfs_kids(s, ps, t, vis, bound).0, s.len() as int),
        all_below(dfs_kids(s, ps, t, vis, bound).1, s.len() as int),
    decreases bound, 0int, ps.len(),
{
    if ps.len() != 0 {
        lemma_dfs_bounds(s, ps[0], t, vis);
        let r = dfs(s, ps[0], t, vis);
        assert(all_below(ps.drop_first(), bound as int));
        lemma_dfs_kids_bounds(s, ps.drop_first(), r.0, r.1, bound);
    }
}

/// Whether `x` occurs in `t` strictly before position `k`.
pub open spec fn seen_before(t: Seq<usize>, x: usize, k: int) -> bool {
    exists|l: int| 0 <= l < k && t[l] == x
}

/// Whether `t` is closed and ordered under the parent relation of `s`:
/// every parent of every node of `t` occurs in `t` strictly before it.
/// This is what makes `t` a topological order.
pub open spec fn ordered_closed(s: Seq<Value>, t: Seq<usize>) -> bool {
    forall|k: int, j: int|
        0 <= k < t.len() && 0 <= j < s[t[k] as int].prev@.len() ==> seen_before(
            t,
            #[trigger] s[t[k] as int].prev@[j],
            k,
        )
}

/// Whether every element of `t` also occurs in `vis`.
pub open spec fn included(t: Seq<usize>, vis: Seq<usize>) -> bool {
    forall|x: usize| #[trigger] t.contains(x) ==> vis.contains(x)
}

/// Whether `x` is open in a walk state: marked visited, but not yet
/// emitted. Open nodes are exactly the ones whose visit is still on the
/// walk's call stack.
pub open spec fn is_open(t: Seq<usize>, vis: Seq<usize>, x: usize) -> bool {
    vis.contains(x) && !t.contains(x)
}

/// The main induction behind the sequencer's correctness. Starting from a
/// state whose output `t` is a duplicate-free topological order contained
/// in `vis`, and whose open nodes all lie strictly above `v`, the walk
/// from `v` returns such a state again, with the same open nodes, with `t`
/// as an unchanged prefix of the output, with `v` emitted, and — when `v`
/// was not yet visited — with `v` emitted last.
proof fn lemma_dfs_order(s: Seq<Value>, v: usize, t: Seq<usize>, vis: Seq<usize>)
    requires
        wf(s),
        v < s.len(),
        all_below(t, s.len() as int),
        t.no_duplicates(),
        included(t, vis),
        ordered_closed(s, t),
        forall|x: usize| is_open(t, vis, x) ==> x > v,
    ensures
        ({
            let r = dfs(s, v, t, vis);
            &&& all_below(r.0, s.len() as int)
            &&& r.0.no_duplicates()
            &&& included(r.0, r.1)
            &&& ordered_closed(s, r.0)
            &&& r.0.len() >= t.len()
            &&& r.0.take(t.len() as int) == t
            &&& forall|x: usize| #[trigger] t.contains(x) ==> r.0.contains(x)
            &&& forall|x: usize| #[trigger] vis.contains(x) ==> r.1.contains(x)
            &&& r.0.contains(v)
            &&& forall|x: usize| is_open(r.0, r.1, x) <==> is_open(t, vis, x)
            &&& forall|k: int| t.len() <= k < r.0.len() ==> !vis.contains(#[trigger] r.0[k])
            &&& (!vis.contains(v) ==> r.0.len() > t.len() && r.0.last() == v)
        }),
    decreases v, 1int, 0int,
{
    if vis.contains(v) {
        assert(t.contains(v)) by {
            if !t.contains(v) {
                assert(is_open(t, vis, v));
            }
        }
        assert(t.take(t.len() as int) =~= t);
    } else {
        assert(wf_at(s, v as int));
        let ps = s[v as int].prev@;
        let vis1 = vis.push(v);
        assert forall|x: usize| #[trigger] vis1.contains(x) implies vis.contains(x) || x == v by {
            let l = choose|l: int| 0 <= l < vis1.len() && vis1[l] == x;
            if l < vis.len() {
                assert(vis[l] == x);
            }
        }
        assert(vis1[vis.len() as int] == v);
        assert(vis1.contains(v));
        assert forall|x: usize| is_open(t, vis1, x) implies x >= v by {
            if x != v {
                assert(is_open(t, vis, x));
            }
        }
        assert forall|x: usize| #[trigger] t.contains(x) implies vis1.contains(x) by {
            assert(vis.contains(x));
            let l = choose|l: int| 0 <= l < vis.len() && vis[l] == x;
            assert(vis1[l] == x);
        }
        lemma_dfs_kids_order(s, ps, t, vis1, v);
        let r = dfs_kids(s, ps, t, vis1, v);
        let t2 = r.0.push(v);
        // v is still open after the walk over the parents, so it is not in
        // r.0 and appending it keeps the output duplicate-free.
        assert(is_open(t, vis1, v));
        assert(is_open(r.0, r.1, v));
        assert(t2.no_duplicates()) by {
            assert forall|k: int, l: int|
                0 <= k < t2.len() && 0 <= l < t2.len() && k != l implies t2[k] != t2[l] by {
                if k < r.0.len() && l < r.0.len() {
                    assert(r.0[k] != r.0[l]);
                } else if k < r.0.len() {
                    assert(r.0.contains(r.0[k]));
                } else if l < r.0.len() {
                    assert(r.0.contains(r.0[l]));
                }
            }
        }
        assert(all_below(t2, s.len() as int));
        assert(included(t2, r.1)) by {
            assert forall|x: usize| #[trigger] t2.contains(x) implies r.1.contains(x) by {
                let l = choose|l: int| 0 <= l < t2.len() && t2[l] == x;
                if l < r.0.len() {
                    assert(r.0.contains(x));
                } else {
                    assert(x == v);
                    assert(vis1.contains(v));
                }
            }
        }
        assert(ordered_closed(s, t2)) by {
            assert forall|k: int, j: int|
                0 <= k < t2.len() && 0 <= j < s[t2[k] as int].prev@.len() implies seen_before(
                t2,
                s[t2[k] as int].prev@[j],
                k,
            ) by {
                if k < r.0.len() {
                    assert(t2[k] == r.0[k]);
                    assert(seen_before(r.0, s[r.0[k] as int].prev@[j], k));
                    let l = choose|l: int| 0 <= l < k && r.0[l] == s[r.0[k] as int].prev@[j];
                    assert(t2[l] == r.0[l]);
                } else {
                    assert(t2[k] == v);
                    let p = ps[j];
                    assert(r.0.contains(p));
                    let l = choose|l: int| 0 <= l < r.0.len() && r.0[l] == p;
                    assert(t2[l] == p);
                }
            }
        }
        assert(t2.take(t.len() as int) =~= r.0.take(t.len() as int));
        assert forall|x: usize| is_open(t2, r.1, x) <==> is_open(t, vis, x) by {
            assert(t2[r.0.len() as int] == v);
            assert(t2.contains(v));
            if x != v {
                assert(t2.contains(x) == r.0.contains(x)) by {
                    if t2.contains(x) {
                        let l = choose|l: int| 0 <= l < t2.len() && t2[l] == x;
                        assert(l < r.0.len());
                        assert(r.0.contains(x));
                    }
                    if r.0.contains(x) {
                        let l = choose|l: int| 0 <= l < r.0.len() && r.0[l] == x;
                        assert(t2[l] == x);
                    }
                }
                assert(is_open(r.0, r.1, x) <==> is_open(t, vis1, x));
                assert(vis1.contains(x) == vis.contains(x)) by {
                    if vis1.contains(x) {
                        let l = choose|l: int| 0 <= l < vis1.len() && vis1[l] == x;
                        assert(l < vis.len());
                        assert(vis.contains(x));
                    }
                    if vis.contains(x) {
                        let l = choose|l: int| 0 <= l < vis.len() && vis[l] == x;
                        assert(vis1[l] == x);
                    }
                }
            } else {
                assert(!is_open(t2, r.1, v));
                assert(!is_open(t, vis, v));
            }
        }
        assert forall|k: int| t.len() <= k < t2.len() implies !vis.contains(#[trigger] t2[k]) by {
            if k < r.0.len() {
                assert(!vis1.contains(r.0[k]));
                assert(vis1.contains(r.0[k]) || !vis.contains(r.0[k])) by {
                    if vis.contains(r.0[k]) {
                        let l = choose|l: int| 0 <= l < vis.len() && vis[l] == r.0[k];
                        assert(vis1[l] == r.0[k]);
                    }
                }
            }
        }
        assert(t2.last() == v);
        assert(t2[r.0.len() as int] == v);
        assert(t2.contains(v));
        assert forall|x: usize| #[trigger] t.contains(x) implies t2.contains(x) by {
            assert(r.0.contains(x));
            let l = choose|l: int| 0 <= l < r.0.len() && r.0[l] == x;
            assert(t2[l] == x);
        }
        assert forall|x: usize| #[trigger] vis.contains(x) implies r.1.contains(x) by {
            let l = choose|l: int| 0 <= l < vis.len() && vis[l] == x;
            assert(vis1[l] == x);
            assert(vis1.contains(x));
        }
    }
}

/// The same induction, walking a list of parents that all lie strictly
/// below `bound`, from a state whose open nodes all lie at or above
/// `bound`.
proof fn lemma_dfs_kids_order(
    s: Seq<Value>,
    ps: Seq<usize>,
    t: Seq<usize>,
    vis: Seq<usize>,
    bound: usize,
)
    requires
        wf(s),
        bound < s.len(),
        all_below(ps, bound as int),
        all_below(t, s.len() as int),
        t.no_duplicates(),
        included(t, vis),
        ordered_closed(s, t),
        forall|x: usize| is_open(t, vis, x) ==> x >= bound,
    ensures
        ({
            let r = dfs_kids(s, ps, t, vis, bound);
            &&& all_below(r.0, s.len() as int)
            &&& r.0.no_duplicates()
            &&& included(r.0, r.1)
            &&& ordered_closed(s, r.0)
            &&& r.0.len() >= t.len()
            &&& r.0.take(t.len() as int) == t
            &&& forall|x: usize| #[trigger] t.contains(x) ==> r.0.contains(x)
            &&& forall|x: usize| #[trigger] vis.contains(x) ==> r.1.contains(x)
            &&& forall|j: int| 0 <= j < ps.len() ==> r.0.contains(#[trigger] ps[j])
            &&& forall|x: usize| is_open(r.0, r.1, x) <==> is_open(t, vis, x)
            &&& forall|k: int| t.len() <= k < r.0.len() ==> !vis.contains(#[trigger] r.0[k])
        }),
    decreases bound, 0int, ps.len(),
{
    if ps.len() == 0 {
        assert(t.take(t.len() as int) =~= t);
    } else {
        assert forall|x: usize| is_open(t, vis, x) implies x > ps[0] by {}
        lemma_dfs_order(s, ps[0], t, vis);
        let r1 = dfs(s, ps[0], t, vis);
        assert(all_below(ps.drop_first(), bound as int));
        assert forall|x: usize| is_open(r1.0, r1.1, x) implies x >= bound by {
            assert(is_open(t, vis, x));
        }
        lemma_dfs_kids_order(s, ps.drop_first(), r1.0, r1.1, bound);
        let r = dfs_kids(s, ps.drop_first(), r1.0, r1.1, bound);
        // the prefix property composes across the two steps
        assert(r.0.take(t.len() as int) =~= t) by {
            assert(r.0.take(r1.0.len() as int) == r1.0);
            assert(r1.0.take(t.len() as int) == t);
            assert forall|k: int| 0 <= k < t.len() implies r.0[k] == t[k] by {
                assert(r.0.take(r1.0.len() as int)[k] == r1.0[k]);
                assert(r1.0.take(t.len() as int)[k] == t[k]);
            }
        }
        assert forall|j: int| 0 <= j < ps.len() implies r.0.contains(#[trigger] ps[j]) by {
            if j == 0 {
                assert(r1.0.contains(ps[0]));
            } else {
                assert(ps.drop_first()[j - 1] == ps[j]);
            }
        }
        assert forall|k: int| t.len() <= k < r.0.len() implies !vis.contains(#[trigger] r.0[k]) by {
            if k < r1.0.len() {
                assert(r.0.take(r1.0.len() as int)[k] == r1.0[k]);
                assert(!vis.contains(r1.0[k]));
            } else {
                assert(!r1.1.contains(r.0[k]));
                assert(vis.contains(r.0[k]) ==> r1.1.contains(r.0[k]));
            }
        }
    }
}

// ---------------------------------------------------------------------
// Backward propagation
// ---------------------------------------------------------------------

/// Adds the contribution `d` into the gradient accumulator of node `p`,
/// leaving every other field and node untouched.
pub open spec fn add_to(s: Seq<Value>, p: int, d: u64) -> Seq<Value> {
    s.update(p, Value { grad: sum_bits(s[p].grad, d), ..s[p] })
}

/// Adds the same contribution into every node of `ps`, in order. A parent
/// listed twice receives the contribution twice.
pub open spec fn acc_list(s: Seq<Value>, ps: Seq<usize>, d: u64) -> Seq<Value>
    decreases ps.len(),
{
    if ps.len() == 0 {
        s
    } else {
        acc_list(add_to(s, ps[0] as int, d), ps.drop_first(), d)
    }
}

/// The local derivative rule applied at node `v`: reading the node's own
/// accumulated gradient and its parents' forward values, add the proper
/// contribution into each parent's gradient accumulator.
///
/// The subtraction rule deliberately matches the additive one — both
/// parents receive the node's gradient unscaled — and the exponent of a
/// power node is treated as a constant: it receives only a zero
/// contribution.
pub open spec fn back_one(s: Seq<Value>, v: int) -> Seq<Value> {
    let n = s[v];
    match n.op {
        Op::Leaf => s,
        Op::Add => acc_list(s, n.prev@, n.grad),
        Op::Subtract => acc_list(s, n.prev@, n.grad),
        Op::Multiply => {
            let a = n.prev@[0] as int;
            let b = n.prev@[1] as int;
            let s1 = add_to(s, a, prod_bits(s[b].data, n.grad));
            add_to(s1, b, prod_bits(s[a].data, n.grad))
        },
        Op::Power => {
            let a = n.prev@[0] as int;
            let b = n.prev@[1] as int;
            let local = prod_bits(s[b].data, pow_bits(s[a].data, diff_bits(s[b].data, ONE_BITS)));
            let s1 = add_to(s, a, prod_bits(local, n.grad));
            add_to(s1, b, ZERO_BITS)
        },
        Op::Tanh => {
            let a = n.prev@[0] as int;
            add_to(s, a, prod_bits(diff_bits(ONE_BITS, pow_bits(n.data, TWO_BITS)), n.grad))
        },
    }
}

/// The backward pass over a whole processing order, front to back.
pub open spec fn back_seq(s: Seq<Value>, order: Seq<usize>) -> Seq<Value>
    decreases order.len(),
{
    if order.len() == 0 {
        s
    } else {
        back_seq(back_one(s, order[0] as int), order.drop_first())
    }
}

/// Two arenas with the same nodes up to their gradient accumulators.
pub open spec fn same_shape(s: Seq<Value>, s2: Seq<Value>) -> bool {
    &&& s2.len() == s.len()
    &&& forall|i: int|
        0 <= i < s.len() ==> {
            &&& (#[trigger] s2[i]).id == s[i].id
            &&& s2[i].op == s[i].op
            &&& s2[i].prev == s[i].prev
            &&& s2[i].data == s[i].data
            &&& s2[i].label == s[i].label
        }
}

/// [`acc_list`] touches only gradient accumulators.
proof fn lemma_acc_list_shape(s: Seq<Value>, ps: Seq<usize>, d: u64)
    requires
        forall|j: int| 0 <= j < ps.len() ==> (#[trigger] ps[j]) < s.len(),
    ensures
        same_shape(s, acc_list(s, ps, d)),
    decreases ps.len(),
{
    if ps.len() != 0 {
        let s1 = add_to(s, ps[0] as int, d);
        assert(same_shape(s, s1));
        lemma_acc_list_shape(s1, ps.drop_first(), d);
    }
}

/// [`back_one`] touches only gradient accumulators.
proof fn lemma_back_one_shape(s: Seq<Value>, v: int)
    requires
        wf(s),
        0 <= v < s.len(),
    ensures
        same_shape(s, back_one(s, v)),
{
    assert(wf_at(s, v));
    match s[v].op {
        Op::Add | Op::Subtract => {
            lemma_acc_list_shape(s, s[v].prev@, s[v].grad);
        },
        _ => {},
    }
}

/// An arena with the same shape as a well-formed one is well formed.
proof fn lemma_same_shape_wf(s: Seq<Value>, s2: Seq<Value>)
    requires
        wf(s),
        same_shape(s, s2),
    ensures
        wf(s2),
{
    assert forall|i: int| 0 <= i < s2.len() implies #[trigger] wf_at(s2, i) by {
        assert(wf_at(s, i));
        assert(s2[i].prev@ == s[i].prev@);
    }
}

/// Appending one node to a processing order runs the local rule for that
/// node after the rest of the pass.
proof fn lemma_back_seq_snoc(s: Seq<Value>, order: Seq<usize>, x: usize)
    ensures
        back_seq(s, order.push(x)) == back_one(back_seq(s, order), x as int),
    decreases order.len(),
{
    if order.len() == 0 {
        assert(order.push(x).drop_first() =~= Seq::<usize>::empty());
        assert(back_seq(s, order.push(x)) == back_seq(
            back_one(s, x as int),
            Seq::<usize>::empty(),
        ));
        assert(back_seq(back_one(s, x as int), Seq::<usize>::empty()) == back_one(s, x as int));
    } else {
        assert(order.push(x).drop_first() =~= order.drop_first().push(x));
        assert(back_seq(s, order.push(x)) == back_seq(
            back_one(s, order[0] as int),
            order.drop_first().push(x),
        ));
        lemma_back_seq_snoc(back_one(s, order[0] as int), order.drop_first(), x);
    }
}

/// Appending one parent to an accumulation list adds its contribution
/// after the rest.
proof fn lemma_acc_list_snoc(s: Seq<Value>, ps: Seq<usize>, x: usize, d: u64)
    ensures
        acc_list(s, ps.push(x), d) == add_to(acc_list(s, ps, d), x as int, d),
    decreases ps.len(),
{
    if ps.len() == 0 {
        assert(ps.push(x).drop_first() =~= Seq::<usize>::empty());
        assert(acc_list(s, ps.push(x), d) == acc_list(
            add_to(s, x as int, d),
            Seq::<usize>::empty(),
            d,
        ));
        assert(acc_list(add_to(s, x as int, d), Seq::<usize>::empty(), d) == add_to(
            s,
            x as int,
            d,
        ));
    } else {
        assert(ps.push(x).drop_first() =~= ps.drop_first().push(x));
        assert(acc_list(s, ps.push(x), d) == acc_list(
            add_to(s, ps[0] as int, d),
            ps.drop_first().push(x),
            d,
        ));
        lemma_acc_list_snoc(add_to(s, ps[0] as int, d), ps.drop_first(), x, d);
    }
}

/// Applies the local derivative rule of node `v` once: reads `v`'s own
/// gradient and its parents' forward values and adds the corresponding
/// contribution into each parent's gradient accumulator. Everything but
/// the parents' `grad` fields is left untouched.
pub fn back(g: &mut Graph, v: usize)
    requires
        wf(old(g)@),
        v < old(g)@.len(),
    ensures
        wf(final(g)@),
        final(g)@.len() == old(g)@.len(),
        final(g)@ == back_one(old(g)@, v as int),
{
    proof {
        assert(wf_at(g@, v as int));
    }
    let ghost s0 = g@;
    let op = g.nodes[v].op;
    let gv = g.nodes[v].grad;
    match op {
        Op::Leaf => {},
        Op::Add | Op::Subtract => {
            let ghost ps = s0[v as int].prev@;
            let pl = g.nodes[v].prev.len();
            let mut j: usize = 0;
            while j < pl
                invariant
                    wf(s0),
                    v < s0.len(),
                    s0[v as int].op == op,
                    (op == Op::Add || op == Op::Subtract),
                    ps == s0[v as int].prev@,
                    gv == s0[v as int].grad,
                    pl == ps.len(),
                    j <= pl,
                    same_shape(s0, g@),
                    wf(g@),
                    g@ == acc_list(s0, ps.take(j as int), gv),
                decreases pl - j,
            {
                proof {
                    assert(wf_at(s0, v as int));
                    lemma_acc_list_shape(s0, ps.take(j as int), gv);
                }
                let p = g.nodes[v].prev[j];
                let c = bits_add(g.nodes[p].grad, gv);
                g.nodes[p].grad = c;
                proof {
                    lemma_acc_list_snoc(s0, ps.take(j as int), p, gv);
                    assert(ps.take(j + 1) =~= ps.take(j as int).push(p));
                    assert(g@ =~= add_to(acc_list(s0, ps.take(j as int), gv), p as int, gv));
                    lemma_acc_list_shape(s0, ps.take(j + 1), gv);
                    lemma_same_shape_wf(s0, g@);
                }
                j = j + 1;
            }
            proof {
                assert(ps.take(pl as int) =~= ps);
            }
        },
        Op::Multiply => {
            let a = g.nodes[v].prev[0];
            let b = g.nodes[v].prev[1];
            let ca = bits_mul(g.nodes[b].data, gv);
            let c0 = bits_add(g.nodes[a].grad, ca);
            g.nodes[a].grad = c0;
            let cb = bits_mul(g.nodes[a].data, gv);
            let c1 = bits_add(g.nodes[b].grad, cb);
            g.nodes[b].grad = c1;
            proof {
                assert(g@ =~= back_one(s0, v as int));
                lemma_back_one_shape(s0, v as int);
                lemma_same_shape_wf(s0, g@);
            }
        },
        Op::Power => {
            let a = g.nodes[v].prev[0];
            let b = g.nodes[v].prev[1];
            let local = bits_mul(
                g.nodes[b].data,
                bits_pow(g.nodes[a].data, bits_sub(g.nodes[b].data, ONE_BITS)),
            );
            let ca = bits_mul(local, gv);
            let c0 = bits_add(g.nodes[a].grad, ca);
            g.nodes[a].grad = c0;
            let c1 = bits_add(g.nodes[b].grad, ZERO_BITS);
            g.nodes[b].grad = c1;
            proof {
                assert(g@ =~= back_one(s0, v as int));
                lemma_back_one_shape(s0, v as int);
                lemma_same_shape_wf(s0, g@);
            }
        },
        Op::Tanh => {
            let a = g.nodes[v].prev[0];
            let c = bits_mul(bits_sub(ONE_BITS, bits_pow(g.nodes[v].data, TWO_BITS)), gv);
            let c0 = bits_add(g.nodes[a].grad, c);
            g.nodes[a].grad = c0;
            proof {
                assert(g@ =~= back_one(s0, v as int));
                lemma_back_one_shape(s0, v as int);
                lemma_same_shape_wf(s0, g@);
            }
        },
    }
}

impl NNode {
    /// Runs one backward pass from this node: sequences every reachable
    /// node topologically, then processes the reverse of that order — the
    /// root first, leaves last — applying each node's local derivative
    /// rule. By the time a node is processed, every consumer that feeds it
    /// has already added its contribution, so gradients accumulate and are
    /// never overwritten.
    ///
    /// The caller seeds the root's gradient (normally with one) before the
    /// pass and is responsible for zeroing gradients between independent
    /// passes; repeated passes accumulate by design.
    pub fn backwards(&self, g: &mut Graph)
        requires
            wf(old(g)@),
            self.root < old(g)@.len(),
        ensures
            wf(final(g)@),
            final(g)@.len() == old(g)@.len(),
            final(g)@ == back_seq(
                old(g)@,
                dfs(old(g)@, self.root, Seq::<usize>::empty(), Seq::<usize>::empty()).0.reverse(),
            ),
    {
        let ghost s0 = g@;
        let topo: Vec<usize> = sequence(g, self.root);
        proof {
            lemma_dfs_bounds(s0, self.root, Seq::<usize>::empty(), Seq::<usize>::empty());
        }
        let ghost order = topo@;
        let mut i: usize = topo.len();
        proof {
            assert(order.skip(i as int) =~= Seq::<usize>::empty());
            assert(Seq::<usize>::empty().reverse() =~= Seq::<usize>::empty());
        }
        while i > 0
            invariant
                wf(g@),
                g@.len() == s0.len(),
                i <= order.len(),
                topo@ == order,
                all_below(order, s0.len() as int),
                g@ == back_seq(s0, order.skip(i as int).reverse()),
            decreases i,
        {
            i = i - 1;
            let v = topo[i];
            let ghost pre = g@;
            back(g, v);
            proof {
                assert(order.skip(i as int).reverse() =~= order.skip(i as int + 1).reverse().push(
                    order[i as int],
                ));
                lemma_back_seq_snoc(s0, order.skip(i as int + 1).reverse(), v);
                lemma_back_one_shape(pre, v as int);
            }
        }
        proof {
            assert(order.skip(0) =~= order);
        }
    }
}

// ---------------------------------------------------------------------
// Observational traversal for the visualization collaborator
// ---------------------------------------------------------------------

/// The walk that collects every reachable node and every parent-to-child
/// edge from `v`. Nodes are deduplicated by identity; an edge is recorded
/// each time the walk crosses it, before descending into the parent.
pub open spec fn walk(s: Seq<Value>, v: usize, nodes: Seq<usize>, edges: Seq<(usize, usize)>) -> (
    Seq<usize>,
    Seq<(usize, usize)>,
)
    decreases v, 1int, 0int,
    when v < s.len() && wf(s)
{
    let nodes1 = if nodes.contains(v) {
        nodes
    } else {
        nodes.push(v)
    };
    walk_kids(s, s[v as int].prev@, nodes1, edges, v)
}

/// The walk over the parents of node `bound`: record the edge to each
/// parent, descend into it, and continue with the rest.
pub open spec fn walk_kids(
    s: Seq<Value>,
    ps: Seq<usize>,
    nodes: Seq<usize>,
    edges: Seq<(usize, usize)>,
    bound: usize,
) -> (Seq<usize>, Seq<(usize, usize)>)
    decreases bound, 0int, ps.len(),
    when wf(s) && bound < s.len() && (forall|j: int| 0 <= j < ps.len() ==> (#[trigger] ps[j])
        < bound)
{
    if ps.len() == 0 {
        (nodes, edges)
    } else {
        let r = walk(s, ps[0], nodes, edges.push((ps[0], bound)));
        walk_kids(s, ps.drop_first(), r.0, r.1, bound)
    }
}

/// One step of the collecting walk, mirroring [`walk`].
fn build(g: &Graph, v: usize, nodes: &mut Vec<usize>, edges: &mut Vec<(usize, usize)>)
    requires
        wf(g@),
        v < g@.len(),
    ensures
        (final(nodes)@, final(edges)@) == walk(g@, v, old(nodes)@, old(edges)@),
    decreases v, 1int, 0int,
{
    if !contains_idx(nodes, v) {
        nodes.push(v);
    }
    build_kids(g, v, 0, nodes, edges);
    proof {
        assert(wf_at(g@, v as int));
        assert(g@[v as int].prev@.skip(0) =~= g@[v as int].prev@);
    }
}

/// The collecting walk over the parents of `v` from position `j` on,
/// mirroring [`walk_kids`].
fn build_kids(g: &Graph, v: usize, j: usize, nodes: &mut Vec<usize>, edges: &mut Vec<(usize, usize)>)
    requires
        wf(g@),
        v < g@.len(),
        j <= g@[v as int].prev@.len(),
    ensures
        (final(nodes)@, final(edges)@) == walk_kids(
            g@,
            g@[v as int].prev@.skip(j as int),
            old(nodes)@,
            old(edges)@,
            v,
        ),
    decreases v, 0int, g@[v as int].prev@.len() - j,
{
    proof {
        assert(wf_at(g@, v as int));
    }
    let ghost ps = g@[v as int].prev@.skip(j as int);
    if j < g.nodes[v].prev.len() {
        let p = g.nodes[v].prev[j];
        proof {
            assert(ps[0] == p);
        }
        edges.push((p, v));
        build(g, p, nodes, edges);
        build_kids(g, v, j + 1, nodes, edges);
        proof {
            assert(ps.drop_first() =~= g@[v as int].prev@.skip(j as int + 1));
        }
    }
}

/// Collects every node reachable from `root` and every parent-to-child
/// edge, exactly as the collecting walk specifies. The traversal is
/// observational: it never touches `data` or `grad`. The visualization
/// collaborator renders its output.
pub fn trace(g: &Graph, root: usize) -> (r: (Vec<usize>, Vec<(usize, usize)>))
    requires
        wf(g@),
        root < g@.len(),
    ensures
        (r.0@, r.1@) == walk(g@, root, Seq::<usize>::empty(), Seq::<(usize, usize)>::empty()),
{
    let mut nodes: Vec<usize> = Vec::new();
    let mut edges: Vec<(usize, usize)> = Vec::new();
    build(g, root, &mut nodes, &mut edges);
    (nodes, edges)
}

// ---------------------------------------------------------------------
// Laws
// ---------------------------------------------------------------------

/// A leaf node has no parents (that is part of well-formedness), so a
/// backward pass started from a lone leaf sequences exactly that node and
/// changes nothing: its gradient stays whatever the caller set, and no
/// propagation happens.
pub proof fn law_leaf_backward(s: Seq<Value>, v: usize)
    requires
        wf(s),
        v < s.len(),
        s[v as int].op == Op::Leaf,
    ensures
        s[v as int].prev@.len() == 0,
        dfs(s, v, Seq::<usize>::empty(), Seq::<usize>::empty()).0 == seq![v],
        back_seq(s, dfs(s, v, Seq::<usize>::empty(), Seq::<usize>::empty()).0.reverse()) == s,
{
    assert(wf_at(s, v as int));
    let e = Seq::<usize>::empty();
    let vis1 = e.push(v);
    assert(s[v as int].prev@ =~= e);
    assert(dfs_kids(s, s[v as int].prev@, e, vis1, v) == (e, vis1));
    assert(dfs(s, v, e, e) == (e.push(v), vis1));
    assert(e.push(v) =~= seq![v]);
    assert(seq![v].reverse() =~= seq![v]);
    assert(back_one(s, v as int) == s);
    assert(seq![v].drop_first() =~= e);
    assert(back_seq(s, seq![v]) == back_seq(back_one(s, v as int), e));
    assert(back_seq(s, e) == s);
}

/// Forward values are a function of the operand values alone: appending
/// the sum of the same two operands twice yields two nodes with distinct
/// identities but identical `data`. Nodes are value-immutable and
/// identity-distinct.
pub proof fn law_forward_idempotence(
    s0: Seq<Value>,
    s1: Seq<Value>,
    s2: Seq<Value>,
    a: usize,
    b: usize,
)
    requires
        a < s0.len(),
        b < s0.len(),
        s1 == s0.push(s1.last()),
        s1.last().id == s0.len(),
        s1.last().data == sum_bits(s0[a as int].data, s0[b as int].data),
        s2 == s1.push(s2.last()),
        s2.last().id == s1.len(),
        s2.last().data == sum_bits(s1[a as int].data, s1[b as int].data),
    ensures
        s2.last().data == s1.last().data,
        s2.last().id != s1.last().id,
{
    assert(s1[a as int] == s0[a as int]);
    assert(s1[b as int] == s0[b as int]);
}

/// The additive rule across a whole backward pass: for a sum of two
/// distinct leaves, the pass from the sum node adds the node's own
/// gradient — unscaled — into each operand's accumulator. Seeding the
/// root with one therefore leaves one in both.
pub proof fn law_add_backward(s: Seq<Value>, a: usize, b: usize, c: usize)
    requires
        wf(s),
        c < s.len(),
        s[c as int].op == Op::Add,
        s[c as int].prev@ == seq![a, b],
        s[a as int].op == Op::Leaf,
        s[b as int].op == Op::Leaf,
        a != b,
    ensures
        ({
            let r = back_seq(s, dfs(s, c, Seq::<usize>::empty(), Seq::<usize>::empty()).0.reverse());
            let gc = s[c as int].grad;
            &&& r[a as int].grad == sum_bits(s[a as int].grad, gc)
            &&& r[b as int].grad == sum_bits(s[b as int].grad, gc)
        }),
{
    assert(wf_at(s, c as int));
    assert(wf_at(s, a as int));
    assert(wf_at(s, b as int));
    assert(s[c as int].prev@[0] == a && s[c as int].prev@[1] == b);
    assert(a < c && b < c);
    let e = Seq::<usize>::empty();

    // the walk sequences [a, b, c]
    let visc = e.push(c);
    let visa = visc.push(a);
    let visb = visa.push(b);
    assert(s[a as int].prev@ =~= e);
    assert(s[b as int].prev@ =~= e);
    assert(!visc.contains(a)) by {
        assert(visc[0] == c);
    }
    assert(dfs_kids(s, s[a as int].prev@, e, visa, a) == (e, visa));
    assert(dfs(s, a, e, visc) == (e.push(a), visa));
    assert(e.push(a) =~= seq![a]);
    assert(!visa.contains(b)) by {
        assert(visa[0] == c && visa[1] == a);
    }
    assert(dfs_kids(s, s[b as int].prev@, seq![a], visb, b) == (seq![a], visb));
    assert(dfs(s, b, seq![a], visa) == (seq![a].push(b), visb));
    assert(seq![a].push(b) =~= seq![a, b]);
    let psc = s[c as int].prev@;
    assert(psc.drop_first() =~= seq![b]);
    assert(psc.drop_first().drop_first() =~= e);
    assert(dfs_kids(s, e, seq![a, b], visb, c) == (seq![a, b], visb));
    assert(dfs_kids(s, seq![b], seq![a], visa, c) == (seq![a, b], visb));
    assert(dfs_kids(s, psc, e, visc, c) == (seq![a, b], visb));
    assert(!e.contains(c));
    assert(dfs(s, c, e, e) == (seq![a, b].push(c), visb));
    assert(seq![a, b].push(c) =~= seq![a, b, c]);
    assert(seq![a, b, c].reverse() =~= seq![c, b, a]);

    // c's additive rule feeds both leaves; the leaves do nothing
    let gc = s[c as int].grad;
    let s_c = back_one(s, c as int);
    let s_ca = add_to(s, a as int, gc);
    assert(acc_list(s, psc, gc) == acc_list(s_ca, psc.drop_first(), gc));
    let s_cb = add_to(s_ca, b as int, gc);
    assert(acc_list(s_ca, seq![b], gc) == acc_list(s_cb, seq![b].drop_first(), gc));
    assert(seq![b].drop_first() =~= e);
    assert(acc_list(s_cb, e, gc) == s_cb);
    assert(s_c == s_cb);
    assert(s_c[a as int].grad == sum_bits(s[a as int].grad, gc));
    assert(s_c[b as int].grad == sum_bits(s[b as int].grad, gc));
    assert(s_c[a as int].op == Op::Leaf && s_c[b as int].op == Op::Leaf);
    let s_b = back_one(s_c, b as int);
    assert(s_b == s_c);
    let s_a = back_one(s_b, a as int);
    assert(s_a == s_b);
    assert(seq![c, b, a].drop_first() =~= seq![b, a]);
    assert(seq![b, a].drop_first() =~= seq![a]);
    assert(seq![a].drop_first() =~= e);
    assert(back_seq(s, seq![c, b, a]) == back_seq(s_c, seq![b, a]));
    assert(back_seq(s_c, seq![b, a]) == back_seq(s_b, seq![a]));
    assert(back_seq(s_b, seq![a]) == back_seq(s_a, e));
    assert(back_seq(s_a, e) == s_a);
}

/// The canonical shared-subgraph case: `d = multiply(c, a)` with
/// `c = add(a, b)`, so `a` feeds `d` both directly and through `c`. A
/// backward pass from `d` accumulates into `a`'s gradient the
/// contributions of both paths — the direct product path and the additive
/// path — rather than either alone, and `b` receives the additive path's
/// contribution. This is what the identity-keyed visited set of the
/// sequencer guarantees.
pub proof fn law_shared_subgraph(s: Seq<Value>, a: usize, b: usize, c: usize, d: usize)
    requires
        wf(s),
        d < s.len(),
        s[d as int].op == Op::Multiply,
        s[d as int].prev@ == seq![c, a],
        s[c as int].op == Op::Add,
        s[c as int].prev@ == seq![a, b],
        s[a as int].op == Op::Leaf,
        s[b as int].op == Op::Leaf,
        a != b,
    ensures
        ({
            let r = back_seq(s, dfs(s, d, Seq::<usize>::empty(), Seq::<usize>::empty()).0.reverse());
            let gd = s[d as int].grad;
            let gc = sum_bits(s[c as int].grad, prod_bits(s[a as int].data, gd));
            &&& r[a as int].grad == sum_bits(
                sum_bits(s[a as int].grad, prod_bits(s[c as int].data, gd)),
                gc,
            )
            &&& r[b as int].grad == sum_bits(s[b as int].grad, gc)
        }),
{
    assert(wf_at(s, d as int));
    assert(wf_at(s, c as int));
    assert(s[d as int].prev@[0] == c && s[d as int].prev@[1] == a);
    assert(s[c as int].prev@[0] == a && s[c as int].prev@[1] == b);
    assert(c < d && a < d && a < c && b < c);
    let e = Seq::<usize>::empty();

    // The walk from d explores c, below it a then b, then closes c, skips
    // the already-visited a, and closes d: the order is [a, b, c, d].
    let visd = e.push(d);
    let visc = visd.push(c);
    let visa = visc.push(a);
    let visb = visa.push(b);
    assert(wf_at(s, a as int));
    assert(wf_at(s, b as int));
    assert(s[a as int].prev@ =~= e);
    assert(s[b as int].prev@ =~= e);
    assert(!visc.contains(a)) by {
        assert(visc[0] == d && visc[1] == c);
    }
    assert(dfs_kids(s, s[a as int].prev@, e, visa, a) == (e, visa));
    assert(dfs(s, a, e, visc) == (e.push(a), visa));
    assert(e.push(a) =~= seq![a]);
    assert(!visa.contains(b)) by {
        assert(visa[0] == d && visa[1] == c && visa[2] == a);
    }
    assert(dfs_kids(s, s[b as int].prev@, seq![a], visb, b) == (seq![a], visb));
    assert(dfs(s, b, seq![a], visa) == (seq![a].push(b), visb));
    assert(seq![a].push(b) =~= seq![a, b]);

    let psc = s[c as int].prev@;
    assert(psc.drop_first() =~= seq![b]);
    assert(psc.drop_first().drop_first() =~= e);
    assert(dfs_kids(s, e, seq![a, b], visb, c) == (seq![a, b], visb));
    assert(dfs_kids(s, seq![b], seq![a], visa, c) == (seq![a, b], visb));
    assert(dfs_kids(s, psc, e, visc, c) == (seq![a, b], visb));
    assert(!visd.contains(c)) by {
        assert(visd[0] == d);
    }
    assert(dfs(s, c, e, visd) == (seq![a, b].push(c), visb));
    assert(seq![a, b].push(c) =~= seq![a, b, c]);

    let psd = s[d as int].prev@;
    assert(psd.drop_first() =~= seq![a]);
    assert(psd.drop_first().drop_first() =~= e);
    assert(visb.contains(a)) by {
        assert(visb[2] == a);
    }
    assert(dfs(s, a, seq![a, b, c], visb) == (seq![a, b, c], visb));
    assert(dfs_kids(s, e, seq![a, b, c], visb, d) == (seq![a, b, c], visb));
    assert(dfs_kids(s, seq![a], seq![a, b, c], visb, d) == (seq![a, b, c], visb));
    assert(dfs_kids(s, psd, e, visd, d) == (seq![a, b, c], visb));
    assert(!e.contains(d));
    assert(dfs(s, d, e, e) == (seq![a, b, c].push(d), visb));
    assert(seq![a, b, c].push(d) =~= seq![a, b, c, d]);
    let order = seq![a, b, c, d];
    assert(order.reverse() =~= seq![d, c, b, a]);

    // Backward: d's multiplicative rule feeds c and a, then c's additive
    // rule feeds a and b, and the two leaves do nothing.
    let gd = s[d as int].grad;
    let gc = sum_bits(s[c as int].grad, prod_bits(s[a as int].data, gd));
    let s_d = back_one(s, d as int);
    assert(s_d == add_to(add_to(s, c as int, prod_bits(s[a as int].data, gd)), a as int,
        prod_bits(s[c as int].data, gd)));
    assert(s_d[c as int].grad == gc);
    assert(s_d[a as int].grad == sum_bits(s[a as int].grad, prod_bits(s[c as int].data, gd)));
    assert(s_d[b as int] == s[b as int]);
    assert(s_d[c as int].op == Op::Add && s_d[c as int].prev@ == psc);

    let s_c = back_one(s_d, c as int);
    assert(s_c == acc_list(s_d, psc, gc));
    let s_ca = add_to(s_d, a as int, gc);
    assert(acc_list(s_d, psc, gc) == acc_list(s_ca, psc.drop_first(), gc));
    let s_cb = add_to(s_ca, b as int, gc);
    assert(acc_list(s_ca, seq![b], gc) == acc_list(s_cb, seq![b].drop_first(), gc));
    assert(seq![b].drop_first() =~= e);
    assert(acc_list(s_cb, e, gc) == s_cb);
    assert(s_c == s_cb);
    assert(s_c[a as int].grad == sum_bits(s_d[a as int].grad, gc));
    assert(s_c[b as int].grad == sum_bits(s[b as int].grad, gc));
    assert(s_c[a as int].op == Op::Leaf && s_c[b as int].op == Op::Leaf);

    let s_b = back_one(s_c, b as int);
    assert(s_b == s_c);
    let s_a = back_one(s_b, a as int);
    assert(s_a == s_b);

    assert(seq![d, c, b, a].drop_first() =~= seq![c, b, a]);
    assert(seq![c, b, a].drop_first() =~= seq![b, a]);
    assert(seq![b, a].drop_first() =~= seq![a]);
    assert(seq![a].drop_first() =~= e);
    assert(back_seq(s, seq![d, c, b, a]) == back_seq(s_d, seq![c, b, a]));
    assert(back_seq(s_d, seq![c, b, a]) == back_seq(s_c, seq![b, a]));
    assert(back_seq(s_c, seq![b, a]) == back_seq(s_b, seq![a]));
    assert(back_seq(s_b, seq![a]) == back_seq(s_a, e));
    assert(back_seq(s_a, e) == s_a);
}

/// Replacing only the `data`, `grad` or `label` of one node preserves well
/// formedness, which speaks of `id`, `op` and `prev` alone.
proof fn lemma_wf_update_scalars(s: Seq<Value>, i: int, s2: Seq<Value>)
    requires
        wf(s),
        0 <= i < s.len(),
        s2.len() == s.len(),
        forall|k: int| 0 <= k < s.len() && k != i ==> s2[k] == s[k],
        s2[i].id == s[i].id,
        s2[i].op == s[i].op,
        s2[i].prev == s[i].prev,
    ensures
        wf(s2),
{
    assert forall|k: int| 0 <= k < s2.len() implies #[trigger] wf_at(s2, k) by {
        assert(wf_at(s, k));
    }
}

/// The backward pass touches only gradient accumulators, whatever the
/// processing order, as long as its indices stay inside the arena.
proof fn lemma_back_seq_shape(s: Seq<Value>, order: Seq<usize>)
    requires
        wf(s),
        all_below(order, s.len() as int),
    ensures
        same_shape(s, back_seq(s, order)),
        wf(back_seq(s, order)),
    decreases order.len(),
{
    if order.len() == 0 {
    } else {
        lemma_back_one_shape(s, order[0] as int);
        let s1 = back_one(s, order[0] as int);
        lemma_same_shape_wf(s, s1);
        assert(all_below(order.drop_first(), s1.len() as int));
        lemma_back_seq_shape(s1, order.drop_first());
    }
}

/// Bit pattern of minus three: the first weight of the worked example.
pub const NEG_THREE_BITS: u64 = 0xC008_0000_0000_0000;

/// Bit pattern of the worked example's bias.
pub const EXAMPLE_BIAS_BITS: u64 = 0x401B_8686_CC2F_3A85;

/// The arena of the worked example just before its backward pass: the
/// four labelled leaves x1, x2, w1, w2, the two products, the bias, the
/// two sums, and the tanh output `o` with its gradient seeded to one.
/// Every field of every node is pinned.
pub open spec fn worked_example_arena(s: Seq<Value>) -> bool {
    &&& s.len() == 10
    &&& forall|k: int| 0 <= k < 10 ==> (#[trigger] s[k]).id == k
    &&& forall|k: int| 0 <= k < 10 && k != 9 ==> (#[trigger] s[k]).grad == ZERO_BITS
    &&& s[9].grad == ONE_BITS
    &&& forall|k: int|
        k == 0 || k == 1 || k == 2 || k == 3 || k == 6 ==> {
            &&& (#[trigger] s[k]).op == Op::Leaf
            &&& s[k].prev@ == Seq::<usize>::empty()
        }
    &&& s[0].data == TWO_BITS && s[0].label@ == "x1"@
    &&& s[1].data == ZERO_BITS && s[1].label@ == "x2"@
    &&& s[2].data == NEG_THREE_BITS && s[2].label@ == "w1"@
    &&& s[3].data == ONE_BITS && s[3].label@ == "w2"@
    &&& s[4].op == Op::Multiply && s[4].prev@ == seq![0usize, 2usize] && s[4].data == prod_bits(
        TWO_BITS,
        NEG_THREE_BITS,
    ) && s[4].label@ == "x1w1"@
    &&& s[5].op == Op::Multiply && s[5].prev@ == seq![1usize, 3usize] && s[5].data == prod_bits(
        ZERO_BITS,
        ONE_BITS,
    ) && s[5].label@ == "x2w2"@
    &&& s[6].data == EXAMPLE_BIAS_BITS && s[6].label@ == "b"@
    &&& s[7].op == Op::Add && s[7].prev@ == seq![4usize, 5usize] && s[7].data == sum_bits(
        s[4].data,
        s[5].data,
    ) && s[7].label@ == "x1w1+x2w2"@
    &&& s[8].op == Op::Add && s[8].prev@ == seq![7usize, 6usize] && s[8].data == sum_bits(
        s[7].data,
        EXAMPLE_BIAS_BITS,
    ) && s[8].label@ == "m"@
    &&& s[9].op == Op::Tanh && s[9].prev@ == seq![8usize] && s[9].data == tanh_of(s[8].data)
        && s[9].label@ == "o"@
}

/// The documented worked example: a neuron's weighted sum plus bias fed
/// through tanh. Builds leaves x1, x2, w1, w2 and the bias, combines them
/// into `o = tanh(x1*w1 + x2*w2 + b)`, seeds `o`'s gradient with one and
/// runs a backward pass. Returns the graph together with the handles of
/// x1, x2, w1, w2, the bias and `o`, in that order: the result is exactly
/// the backward pass over the pinned worked-example arena, and the
/// forward values it computed are stated over the named operations.
pub fn test_engine() -> (r: (Graph, Vec<NNode>))
    ensures
        wf(r.0@),
        r.1@.len() == 6,
        forall|k: int| 0 <= k < r.1@.len() ==> (#[trigger] r.1@[k]).root < r.0@.len(),
        r.1@[0].root == 0 && r.1@[1].root == 1 && r.1@[2].root == 2 && r.1@[3].root == 3
            && r.1@[4].root == 6 && r.1@[5].root == 9,
        exists|built: Seq<Value>|
            {
                &&& #[trigger] worked_example_arena(built)
                &&& r.0@ == back_seq(
                    built,
                    dfs(built, 9, Seq::<usize>::empty(), Seq::<usize>::empty()).0.reverse(),
                )
            },
        r.0@.len() == 10,
        r.0@[0].data == TWO_BITS,
        r.0@[1].data == ZERO_BITS,
        r.0@[2].data == NEG_THREE_BITS,
        r.0@[3].data == ONE_BITS,
        r.0@[6].data == EXAMPLE_BIAS_BITS,
        r.0@[9].op == Op::Tanh,
        r.0@[9].data == tanh_of(
            sum_bits(
                sum_bits(prod_bits(TWO_BITS, NEG_THREE_BITS), prod_bits(ZERO_BITS, ONE_BITS)),
                EXAMPLE_BIAS_BITS,
            ),
        ),
{
    let mut g = Graph::new();
    // the leaf data are the bit patterns of two, zero, minus three and one
    let x1 = NNode::init(&mut g, TWO_BITS, "x1".to_string());
    let x2 = NNode::init(&mut g, ZERO_BITS, "x2".to_string());
    let w1 = NNode::init(&mut g, NEG_THREE_BITS, "w1".to_string());
    let w2 = NNode::init(&mut g, ONE_BITS, "w2".to_string());
    let x1w1 = x1.mul(&mut g, &w1);
    g.set_label(x1w1.root, "x1w1".to_string());
    let x2w2 = x2.mul(&mut g, &w2);
    g.set_label(x2w2.root, "x2w2".to_string());
    let b = NNode::init(&mut g, EXAMPLE_BIAS_BITS, "b".to_string());
    let x1w1x2w2 = x1w1.add(&mut g, &x2w2);
    g.set_label(x1w1x2w2.root, "x1w1+x2w2".to_string());
    let m = x1w1x2w2.add(&mut g, &b);
    g.set_label(m.root, "m".to_string());
    let o = m.tanh(&mut g);
    g.set_label(o.root, "o".to_string());
    g.set_grad(o.root, ONE_BITS);
    let ghost built = g@;
    proof {
        assert(worked_example_arena(built));
    }
    o.backwards(&mut g);
    proof {
        let order = dfs(built, 9, Seq::<usize>::empty(), Seq::<usize>::empty()).0;
        lemma_dfs_bounds(built, 9, Seq::<usize>::empty(), Seq::<usize>::empty());
        assert(all_below(order.reverse(), built.len() as int)) by {
            assert forall|k: int|
                0 <= k < order.reverse().len() implies (#[trigger] order.reverse()[k])
                < built.len() by {
                assert(order.reverse()[k] == order[order.len() - 1 - k]);
            }
        }
        lemma_back_seq_shape(built, order.reverse());
    }
    let mut hs: Vec<NNode> = Vec::new();
    hs.push(x1);
    hs.push(x2);
    hs.push(w1);
    hs.push(w2);
    hs.push(b);
    hs.push(o);
    (g, hs)
}

} // verus!
