//! A layer: neurons that read the same inputs.
use vstd::prelude::*;

use crate::neuron::{is_neuron_out, lemma_neuron_out_extends, ArityError, Neuron};
use crate::value::Graph;

verus! {

/// Every neuron of `ns` takes `n` inputs.
pub open spec fn takes(ns: Seq<Neuron>, n: nat) -> bool {
    forall|i: int| 0 <= i < ns.len() ==> (#[trigger] ns[i]).weight_nodes().len() == n
}

/// `ys[i]` is the output of neuron `ns[i]` on the inputs `xs`, for each `i`.
pub open spec fn is_layer_out(g: &Graph, ns: Seq<Neuron>, xs: Seq<usize>, ys: Seq<usize>) -> bool {
    &&& ys.len() == ns.len()
    &&& forall|i: int|
        0 <= i < ns.len() ==> #[trigger] is_neuron_out(
            g,
            ys[i] as int,
            xs,
            ns[i].weight_nodes(),
            ns[i].bias_node(),
        )
}

pub proof fn lemma_layer_out_extends(g1: &Graph, g2: &Graph, ns: Seq<Neuron>, xs: Seq<usize>, ys: Seq<usize>)
    requires
        g2.extends(g1),
        is_layer_out(g1, ns, xs, ys),
    ensures
        is_layer_out(g2, ns, xs, ys),
{
    assert forall|i: int| 0 <= i < ns.len() implies #[trigger] is_neuron_out(
        g2,
        ys[i] as int,
        xs,
        ns[i].weight_nodes(),
        ns[i].bias_node(),
    ) by {
        assert(is_neuron_out(g1, ys[i] as int, xs, ns[i].weight_nodes(), ns[i].bias_node()));
        lemma_neuron_out_extends(g1, g2, ys[i] as int, xs, ns[i].weight_nodes(), ns[i].bias_node());
    }
}

/// The parameters of the neurons of `ns`, neuron by neuron.
pub open spec fn params_of(ns: Seq<Neuron>) -> Seq<usize>
    decreases ns.len(),
{
    if ns.len() == 0 {
        seq![]
    } else {
        params_of(ns.drop_last()) + ns.last().weight_nodes().push(ns.last().bias_node())
    }
}

/// A layer: neurons that all read the same inputs.
#[derive(Clone, Debug)]
pub struct Layer {
    neurons: Vec<Neuron>,
}

impl Layer {
    pub closed spec fn neuron_list(&self) -> Seq<Neuron> {
        self.neurons@
    }

    /// Every neuron's nodes are nodes of `g`.
    pub open spec fn wf(&self, g: &Graph) -> bool {
        forall|i: int| 0 <= i < self.neuron_list().len() ==> (#[trigger] self.neuron_list()[i]).wf(g)
    }

    pub proof fn lemma_wf_extends(&self, g1: &Graph, g2: &Graph)
        requires
            g2.extends(g1),
            self.wf(g1),
        ensures
            self.wf(g2),
    {
        assert forall|i: int| 0 <= i < self.neuron_list().len() implies (#[trigger] self.neuron_list()[i]).wf(g2) by {
            self.neuron_list()[i].lemma_wf_extends(g1, g2);
        }
    }

    /// A layer of `nout` new neurons of `nin` weights each.
    pub fn new(g: &mut Graph, nin: usize, nout: usize) -> (r: Layer)
        requires
            old(g).wf(),
        ensures
            final(g).wf(),
            final(g).extends(old(g)),
            r.wf(final(g)),
            r.neuron_list().len() == nout,
            takes(r.neuron_list(), nin as nat),
    {
        let mut neurons: Vec<Neuron> = Vec::new();
        let mut i: usize = 0;
        while i < nout
            invariant
                g.wf(),
                g.extends(old(g)),
                i <= nout,
                neurons@.len() == i,
                forall|k: int| 0 <= k < i ==> (#[trigger] neurons@[k]).wf(g),
                takes(neurons@, nin as nat),
            decreases nout - i,
        {
            let ghost g0 = *g;
            let n = Neuron::new(g, nin);
            proof {
                assert forall|k: int| 0 <= k < i implies (#[trigger] neurons@[k]).wf(g) by {
                    neurons@[k].lemma_wf_extends(&g0, g);
                }
            }
            neurons.push(n);
            i = i + 1;
        }
        Layer { neurons }
    }

    /// The output of each neuron on `inputs`, built as new nodes of `g`; an
    /// error, with `g` unchanged, for the first neuron whose number of
    /// weights differs from the number of inputs.
    pub fn call(&self, g: &mut Graph, inputs: &Vec<usize>) -> (r: Result<Vec<usize>, ArityError>)
        requires
            old(g).wf(),
            self.wf(old(g)),
            forall|i: int| 0 <= i < inputs@.len() ==> #[trigger] inputs@[i] < old(g).size(),
        ensures
            r is Err <==> !takes(self.neuron_list(), inputs@.len()),
            r matches Err(e) ==> e.weights != e.inputs,
            r matches Err(e) ==> final(g)@ == old(g)@ && exists|i: int|
                0 <= i < self.neuron_list().len() && takes(self.neuron_list().take(i), inputs@.len())
                    && e == (ArityError {
                    inputs: inputs@.len() as usize,
                    weights: self.neuron_list()[i].weight_nodes().len() as usize,
                }) && self.neuron_list()[i].weight_nodes().len() != inputs@.len(),
            r is Ok ==> final(g).wf() && final(g).extends(old(g)),
            r matches Ok(ys) ==> is_layer_out(final(g), self.neuron_list(), inputs@, ys@),
    {
        let mut j: usize = 0;
        while j < self.neurons.len()
            invariant
                j <= self.neuron_list().len(),
                takes(self.neuron_list().take(j as int), inputs@.len()),
            decreases self.neuron_list().len() - j,
        {
            let w = self.neurons[j].num_weights();
            if w != inputs.len() {
                assert(!takes(self.neuron_list(), inputs@.len()));
                return Err(ArityError { inputs: inputs.len(), weights: w });
            }
            assert forall|k: int| 0 <= k < j + 1 implies (#[trigger] self.neuron_list().take(j + 1)[k]).weight_nodes().len() == inputs@.len() by {
                if k < j {
                    assert(self.neuron_list().take(j + 1)[k] == self.neuron_list().take(j as int)[k]);
                }
            }
            j = j + 1;
        }
        assert(self.neuron_list().take(j as int) =~= self.neuron_list());
        let mut outs: Vec<usize> = Vec::new();
        let mut i: usize = 0;
        while i < self.neurons.len()
            invariant
                g.wf(),
                g.extends(old(g)),
                self.wf(old(g)),
                takes(self.neuron_list(), inputs@.len()),
                forall|k: int| 0 <= k < inputs@.len() ==> #[trigger] inputs@[k] < old(g).size(),
                i <= self.neuron_list().len(),
                is_layer_out(g, self.neuron_list().take(i as int), inputs@, outs@),
            decreases self.neuron_list().len() - i,
        {
            let ghost g0 = *g;
            let ghost ns = self.neuron_list();
            proof {
                self.lemma_wf_extends(&*old(g), g);
                assert(ns[i as int].wf(g));
                assert(ns[i as int].weight_nodes().len() == inputs@.len());
            }
            let res = self.neurons[i].call(g, inputs);
            match res {
                Ok(o) => {
                    proof {
                        lemma_layer_out_extends(&g0, g, ns.take(i as int), inputs@, outs@);
                        assert forall|k: int| 0 <= k < i + 1 implies #[trigger] is_neuron_out(
                            g,
                            outs@.push(o)[k] as int,
                            inputs@,
                            ns.take(i + 1)[k].weight_nodes(),
                            ns.take(i + 1)[k].bias_node(),
                        ) by {
                            if k < i {
                                assert(ns.take(i + 1)[k] == ns.take(i as int)[k]);
                                assert(is_neuron_out(g, outs@[k] as int, inputs@, ns.take(i as int)[k].weight_nodes(), ns.take(i as int)[k].bias_node()));
                            }
                        }
                    }
                    outs.push(o);
                },
                Err(e) => {
                    return Err(e);
                },
            }
            i = i + 1;
        }
        assert(self.neuron_list().take(i as int) =~= self.neuron_list());
        Ok(outs)
    }

    /// The parameters of each neuron, in order.
    pub fn parameters(&self) -> (r: Vec<usize>)
        ensures
            r@ == params_of(self.neuron_list()),
    {
        let mut r: Vec<usize> = Vec::new();
        let mut i: usize = 0;
        while i < self.neurons.len()
            invariant
                i <= self.neuron_list().len(),
                r@ == params_of(self.neuron_list().take(i as int)),
            decreases self.neuron_list().len() - i,
        {
            let mut p = self.neurons[i].parameters();
            proof {
                let t = self.neuron_list().take(i + 1);
                assert(t.drop_last() =~= self.neuron_list().take(i as int));
                assert(t.last() == self.neuron_list()[i as int]);
            }
            r.append(&mut p);
            i = i + 1;
        }
        assert(self.neuron_list().take(i as int) =~= self.neuron_list());
        r
    }

    pub fn neurons(&self) -> (r: &Vec<Neuron>)
        ensures
            r@ == self.neuron_list(),
    {
        &self.neurons
    }

    pub fn set_neurons(&mut self, neurons: Vec<Neuron>)
        ensures
            final(self).neuron_list() == neurons@,
    {
        self.neurons = neurons;
    }
}

} // verus!
