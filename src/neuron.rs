//! A neuron: `tanh` of the weighted sum of its inputs plus a bias, built as
//! nodes of a graph.
use vstd::prelude::*;

use crate::value::{Graph, Op};

verus! {

/// A neuron was called with a number of inputs that differs from its number
/// of weights.
#[derive(Clone, Copy, Debug, PartialEq, Eq, Structural)]
pub struct ArityError {
    pub inputs: usize,
    pub weights: usize,
}

/// Node `n` is the sum of the products `xs[i] * ws[i]` for `i < k`, added
/// from left to right.
pub open spec fn is_dot(g: &Graph, n: int, xs: Seq<usize>, ws: Seq<usize>, k: nat) -> bool
    decreases k,
{
    if k == 0 {
        false
    } else if k == 1 {
        0 <= n < g.size() && g.op_at(n) == Op::Mul && g.parents(n) == seq![xs[0], ws[0]]
    } else {
        let m = g.parent(n, 1);
        &&& 0 <= n < g.size()
        &&& g.op_at(n) == Op::Add
        &&& g.parents(n).len() == 2
        &&& is_dot(g, g.parent(n, 0), xs, ws, (k - 1) as nat)
        &&& 0 <= m < g.size()
        &&& g.op_at(m) == Op::Mul
        &&& g.parents(m) == seq![xs[k - 1], ws[k - 1]]
    }
}

/// Node `r` is `tanh(sum(xs[i] * ws[i]) + b)`; with no inputs, `tanh(b)`.
pub open spec fn is_neuron_out(g: &Graph, r: int, xs: Seq<usize>, ws: Seq<usize>, b: usize) -> bool {
    let q = g.parent(r, 0);
    &&& 0 <= r < g.size()
    &&& g.op_at(r) == Op::Tanh
    &&& g.parents(r).len() == 1
    &&& if xs.len() == 0 {
        q == b
    } else {
        &&& 0 <= q < g.size()
        &&& g.op_at(q) == Op::Add
        &&& g.parents(q).len() == 2
        &&& g.parents(q)[1] == b
        &&& is_dot(g, g.parent(q, 0), xs, ws, xs.len())
    }
}

pub proof fn lemma_dot_extends(g1: &Graph, g2: &Graph, n: int, xs: Seq<usize>, ws: Seq<usize>, k: nat)
    requires
        g2.extends(g1),
        is_dot(g1, n, xs, ws, k),
    ensures
        is_dot(g2, n, xs, ws, k),
    decreases k,
{
    assert(g2@[n] == g1@[n]);
    if k > 1 {
        lemma_dot_extends(g1, g2, g1.parent(n, 0), xs, ws, (k - 1) as nat);
        assert(g2@[g1.parent(n, 1)] == g1@[g1.parent(n, 1)]);
    }
}

pub proof fn lemma_neuron_out_extends(g1: &Graph, g2: &Graph, r: int, xs: Seq<usize>, ws: Seq<usize>, b: usize)
    requires
        g2.extends(g1),
        is_neuron_out(g1, r, xs, ws, b),
    ensures
        is_neuron_out(g2, r, xs, ws, b),
{
    assert(g2@[r] == g1@[r]);
    if xs.len() > 0 {
        let q = g1.parent(r, 0);
        assert(g2@[q] == g1@[q]);
        lemma_dot_extends(g1, g2, g1.parent(q, 0), xs, ws, xs.len());
    }
}

/// A neuron: one weight node for each input and a bias node, all leaves of
/// the graph that it builds on.
#[derive(Clone, Debug)]
pub struct Neuron {
    weights: Vec<usize>,
    bias: usize,
}

impl Neuron {
    pub closed spec fn weight_nodes(&self) -> Seq<usize> {
        self.weights@
    }

    pub closed spec fn bias_node(&self) -> usize {
        self.bias
    }

    /// The weights and the bias are nodes of `g`.
    pub open spec fn wf(&self, g: &Graph) -> bool {
        &&& forall|i: int| 0 <= i < self.weight_nodes().len() ==> #[trigger] self.weight_nodes()[i] < g.size()
        &&& self.bias_node() < g.size()
    }

    pub proof fn lemma_wf_extends(&self, g1: &Graph, g2: &Graph)
        requires
            g2.extends(g1),
            self.wf(g1),
        ensures
            self.wf(g2),
    {
    }

    /// A neuron with `nin` weights: `nin + 1` new leaves of `g`, the weights
    /// first and the bias last. Their values are the caller's to set.
    pub fn new(g: &mut Graph, nin: usize) -> (r: Neuron)
        requires
            old(g).wf(),
        ensures
            final(g).wf(),
            final(g).extends(old(g)),
            final(g).size() == old(g).size() + nin + 1,
            r.wf(final(g)),
            r.weight_nodes().len() == nin,
            forall|i: int| 0 <= i < nin ==> #[trigger] r.weight_nodes()[i] == old(g).size() + i,
            r.bias_node() == old(g).size() + nin,
            forall|i: int|
                old(g).size() <= i < final(g).size() ==> #[trigger] final(g).op_at(i) == Op::Leaf,
    {
        let mut weights: Vec<usize> = Vec::new();
        let mut i: usize = 0;
        while i < nin
            invariant
                g.wf(),
                g.extends(old(g)),
                i <= nin,
                g.size() == old(g).size() + i,
                weights@.len() == i,
                forall|k: int| 0 <= k < i ==> #[trigger] weights@[k] == old(g).size() + k,
                forall|k: int| old(g).size() <= k < g.size() ==> #[trigger] g.op_at(k) == Op::Leaf,
            decreases nin - i,
        {
            let w = g.leaf();
            weights.push(w);
            i = i + 1;
        }
        let bias = g.leaf();
        Neuron { weights, bias }
    }

    /// `tanh(sum(inputs[i] * weights[i]) + bias)`, built as new nodes of `g`;
    /// an error, with `g` unchanged, where the number of inputs differs from
    /// the number of weights.
    pub fn call(&self, g: &mut Graph, inputs: &Vec<usize>) -> (r: Result<usize, ArityError>)
        requires
            old(g).wf(),
            self.wf(old(g)),
            forall|i: int| 0 <= i < inputs@.len() ==> #[trigger] inputs@[i] < old(g).size(),
        ensures
            r is Err <==> inputs@.len() != self.weight_nodes().len(),
            r matches Err(e) ==> e == (ArityError { inputs: inputs@.len() as usize, weights: self.weight_nodes().len() as usize }) && final(g)@ == old(g)@,
            r is Ok ==> final(g).wf() && final(g).extends(old(g)),
            r matches Ok(o) ==> is_neuron_out(final(g), o as int, inputs@, self.weight_nodes(), self.bias_node()),
    {
        let n = inputs.len();
        if n != self.weights.len() {
            return Err(ArityError { inputs: n, weights: self.weights.len() });
        }
        if n == 0 {
            let r = g.tanh(self.bias);
            return Ok(r);
        }
        assert(self.weight_nodes()[0] < g.size());
        let mut acc = g.mul(inputs[0], self.weights[0]);
        assert(g.parents(acc as int) == seq![inputs@[0], self.weight_nodes()[0]]);
        let mut i: usize = 1;
        while i < n
            invariant
                g.wf(),
                g.extends(old(g)),
                self.wf(old(g)),
                n == inputs@.len(),
                n == self.weight_nodes().len(),
                forall|k: int| 0 <= k < inputs@.len() ==> #[trigger] inputs@[k] < old(g).size(),
                1 <= i <= n,
                acc < g.size(),
                is_dot(g, acc as int, inputs@, self.weight_nodes(), i as nat),
            decreases n - i,
        {
            let ghost g0 = *g;
            assert(self.weight_nodes()[i as int] < old(g).size());
            let m = g.mul(inputs[i], self.weights[i]);
            let ghost g1 = *g;
            let next = g.add(acc, m);
            proof {
                lemma_dot_extends(&g0, g, acc as int, inputs@, self.weight_nodes(), i as nat);
                assert(g@[m as int] == g1@[m as int]);
                assert(g.parent(next as int, 0) == acc);
                assert(g.parent(next as int, 1) == m);
            }
            acc = next;
            i = i + 1;
        }
        let ghost gp = *g;
        let q = g.add(acc, self.bias);
        proof {
            lemma_dot_extends(&gp, g, acc as int, inputs@, self.weight_nodes(), n as nat);
        }
        let ghost gq = *g;
        let r = g.tanh(q);
        proof {
            assert(g@[q as int] == gq@[q as int]);
            lemma_dot_extends(&gq, g, acc as int, inputs@, self.weight_nodes(), n as nat);
        }
        Ok(r)
    }

    /// The weights, then the bias.
    pub fn parameters(&self) -> (r: Vec<usize>)
        ensures
            r@ == self.weight_nodes().push(self.bias_node()),
    {
        let mut r = self.weights.clone();
        r.push(self.bias);
        r
    }

    pub fn weights(&self) -> (r: Vec<usize>)
        ensures
            r@ == self.weight_nodes(),
    {
        self.weights.clone()
    }

    pub fn num_weights(&self) -> (r: usize)
        ensures
            r == self.weight_nodes().len(),
    {
        self.weights.len()
    }

    pub fn set_weights(&mut self, weights: Vec<usize>)
        ensures
            final(self).weight_nodes() == weights@,
            final(self).bias_node() == old(self).bias_node(),
    {
        self.weights = weights;
    }

    pub fn bias(&self) -> (r: usize)
        ensures
            r == self.bias_node(),
    {
        self.bias
    }

    pub fn set_bias(&mut self, bias: usize)
        ensures
            final(self).bias_node() == bias,
            final(self).weight_nodes() == old(self).weight_nodes(),
    {
        self.bias = bias;
    }
}

} // verus!
