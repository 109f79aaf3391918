//! A multilayer perceptron: layers that each read the outputs of the one
//! before.
use vstd::prelude::*;

use crate::layer::{is_layer_out, lemma_layer_out_extends, params_of, takes, Layer};
use crate::neuron::ArityError;
use crate::value::Graph;

verus! {

/// The number of inputs that layer `k` of `layers` reads when the network
/// is given `n` inputs: `n` for the first layer, else the width of the layer
/// before it.
pub open spec fn in_width(layers: Seq<Layer>, n: nat, k: int) -> nat {
    if k == 0 {
        n
    } else {
        layers[k - 1].neuron_list().len()
    }
}

/// Each layer's neurons take as many inputs as reach that layer.
pub open spec fn widths_fit(layers: Seq<Layer>, n: nat) -> bool {
    forall|k: int| 0 <= k < layers.len() ==> takes((#[trigger] layers[k]).neuron_list(), in_width(layers, n, k))
}

/// `mids` holds the inputs, the output of each layer in turn, and so the
/// network's output last.
pub open spec fn is_chain(g: &Graph, layers: Seq<Layer>, mids: Seq<Seq<usize>>) -> bool {
    &&& mids.len() == layers.len() + 1
    &&& forall|k: int|
        0 <= k < layers.len() ==> #[trigger] is_layer_out(g, layers[k].neuron_list(), mids[k], mids[k + 1])
}

/// The parameters of the layers of `ls`, layer by layer.
pub open spec fn layer_params(ls: Seq<Layer>) -> Seq<usize>
    decreases ls.len(),
{
    if ls.len() == 0 {
        seq![]
    } else {
        layer_params(ls.drop_last()) + params_of(ls.last().neuron_list())
    }
}

/// A multilayer perceptron: layers applied one after the other.
#[derive(Clone, Debug)]
pub struct Mlp {
    layers: Vec<Layer>,
}

impl Mlp {
    pub closed spec fn layer_list(&self) -> Seq<Layer> {
        self.layers@
    }

    /// Every layer's nodes are nodes of `g`.
    pub open spec fn wf(&self, g: &Graph) -> bool {
        forall|k: int| 0 <= k < self.layer_list().len() ==> (#[trigger] self.layer_list()[k]).wf(g)
    }

    /// A network of `nin` inputs whose layer `k` has `nouts[k]` new neurons,
    /// each taking as many inputs as the layer before has neurons.
    pub fn new(g: &mut Graph, nin: usize, nouts: Vec<usize>) -> (r: Mlp)
        requires
            old(g).wf(),
        ensures
            final(g).wf(),
            final(g).extends(old(g)),
            r.wf(final(g)),
            r.layer_list().len() == nouts@.len(),
            forall|k: int|
                0 <= k < nouts@.len() ==> (#[trigger] r.layer_list()[k]).neuron_list().len() == nouts@[k],
            widths_fit(r.layer_list(), nin as nat),
    {
        let mut layers: Vec<Layer> = Vec::new();
        let mut width = nin;
        let mut k: usize = 0;
        while k < nouts.len()
            invariant
                g.wf(),
                g.extends(old(g)),
                k <= nouts@.len(),
                layers@.len() == k,
                width == in_width(layers@, nin as nat, k as int),
                forall|i: int| 0 <= i < k ==> (#[trigger] layers@[i]).wf(g),
                forall|i: int| 0 <= i < k ==> (#[trigger] layers@[i]).neuron_list().len() == nouts@[i],
                widths_fit(layers@, nin as nat),
            decreases nouts@.len() - k,
        {
            let ghost g0 = *g;
            let ghost before = layers@;
            let layer = Layer::new(g, width, nouts[k]);
            proof {
                assert forall|i: int| 0 <= i < k implies (#[trigger] layers@[i]).wf(g) by {
                    layers@[i].lemma_wf_extends(&g0, g);
                }
            }
            layers.push(layer);
            proof {
                assert forall|i: int| 0 <= i < layers@.len() implies takes(
                    (#[trigger] layers@[i]).neuron_list(),
                    in_width(layers@, nin as nat, i),
                ) by {
                    if i < k {
                        assert(layers@[i] == before[i]);
                        assert(in_width(layers@, nin as nat, i) == in_width(before, nin as nat, i));
                    }
                }
            }
            width = nouts[k];
            k = k + 1;
        }
        Mlp { layers }
    }

    /// The network's output on `inputs`: each layer reads the outputs of the
    /// one before it. An error where some neuron's number of weights differs
    /// from the number of inputs that reach it.
    pub fn call(&self, g: &mut Graph, inputs: &Vec<usize>) -> (r: Result<Vec<usize>, ArityError>)
        requires
            old(g).wf(),
            self.wf(old(g)),
            forall|i: int| 0 <= i < inputs@.len() ==> #[trigger] inputs@[i] < old(g).size(),
        ensures
            final(g).wf(),
            final(g).extends(old(g)),
            r is Err <==> !widths_fit(self.layer_list(), inputs@.len()),
            r matches Err(e) ==> e.weights != e.inputs,
            r matches Ok(ys) ==> exists|mids: Seq<Seq<usize>>|
                #[trigger] is_chain(final(g), self.layer_list(), mids) && mids[0] == inputs@ && mids.last() == ys@,
    {
        let ghost ls = self.layer_list();
        let mut output: Vec<usize> = inputs.clone();
        let ghost mut mids: Seq<Seq<usize>> = seq![inputs@];
        let mut k: usize = 0;
        while k < self.layers.len()
            invariant
                g.wf(),
                g.extends(old(g)),
                self.wf(old(g)),
                ls == self.layer_list(),
                k <= ls.len(),
                mids.len() == k + 1,
                mids[0] == inputs@,
                mids.last() == output@,
                output@.len() == in_width(ls, inputs@.len(), k as int),
                forall|i: int| 0 <= i < output@.len() ==> #[trigger] output@[i] < g.size(),
                forall|i: int| 0 <= i < k ==> takes((#[trigger] ls[i]).neuron_list(), in_width(ls, inputs@.len(), i)),
                forall|i: int| 0 <= i < k ==> #[trigger] is_layer_out(g, ls[i].neuron_list(), mids[i], mids[i + 1]),
            decreases ls.len() - k,
        {
            let ghost g0 = *g;
            proof {
                ls[k as int].lemma_wf_extends(&*old(g), g);
            }
            let res = self.layers[k].call(g, &output);
            match res {
                Ok(ys) => {
                    proof {
                        assert forall|i: int| 0 <= i < k implies #[trigger] is_layer_out(g, ls[i].neuron_list(), mids[i], mids[i + 1]) by {
                            lemma_layer_out_extends(&g0, g, ls[i].neuron_list(), mids[i], mids[i + 1]);
                        }
                        assert forall|i: int| 0 <= i < ys@.len() implies #[trigger] ys@[i] < g.size() by {
                            assert(crate::neuron::is_neuron_out(g, ys@[i] as int, output@, ls[k as int].neuron_list()[i].weight_nodes(), ls[k as int].neuron_list()[i].bias_node()));
                        }
                        let m2 = mids.push(ys@);
                        assert forall|i: int| 0 <= i < k + 1 implies #[trigger] is_layer_out(g, ls[i].neuron_list(), m2[i], m2[i + 1]) by {
                            assert(m2[i] == mids.push(ys@)[i]);
                            if i < k {
                                assert(m2[i] == mids[i]);
                                assert(m2[i + 1] == mids[i + 1]);
                            }
                        }
                        mids = m2;
                    }
                    output = ys;
                },
                Err(e) => {
                    proof {
                        assert(!takes(ls[k as int].neuron_list(), in_width(ls, inputs@.len(), k as int)));
                    }
                    return Err(e);
                },
            }
            k = k + 1;
        }
        proof {
            assert(is_chain(g, ls, mids));
        }
        Ok(output)
    }

    /// The parameters of each layer, in order.
    pub fn parameters(&self) -> (r: Vec<usize>)
        ensures
            r@ == layer_params(self.layer_list()),
    {
        let mut r: Vec<usize> = Vec::new();
        let mut i: usize = 0;
        while i < self.layers.len()
            invariant
                i <= self.layer_list().len(),
                r@ == layer_params(self.layer_list().take(i as int)),
            decreases self.layer_list().len() - i,
        {
            let mut p = self.layers[i].parameters();
            proof {
                let t = self.layer_list().take(i + 1);
                assert(t.drop_last() =~= self.layer_list().take(i as int));
                assert(t.last() == self.layer_list()[i as int]);
            }
            r.append(&mut p);
            i = i + 1;
        }
        assert(self.layer_list().take(i as int) =~= self.layer_list());
        r
    }

    pub fn layers(&self) -> (r: &Vec<Layer>)
        ensures
            r@ == self.layer_list(),
    {
        &self.layers
    }
}

} // verus!
