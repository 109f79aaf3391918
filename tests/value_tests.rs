use micrograd_rust::layer::Layer;
use micrograd_rust::mlp::Mlp;
use micrograd_rust::neuron::{ArityError, Neuron};
use micrograd_rust::value::{is_in, Factor, Graph, Op, Step, Value};

/// Values and gradients for the nodes of a graph, evaluated in f32.
struct Tape {
    g: Graph,
    data: Vec<f32>,
    grad: Vec<f32>,
}

impl Tape {
    fn new() -> Tape {
        Tape { g: Graph::new(), data: Vec::new(), grad: Vec::new() }
    }

    fn leaf(&mut self, v: f32) -> usize {
        self.eval();
        let h = self.g.leaf();
        self.data.push(v);
        self.grad.push(0.0);
        h
    }

    /// Computes the value of every node added since the last call; new
    /// leaves take their values from `fill`.
    fn sync(&mut self, mut fill: impl FnMut() -> f32) {
        for i in self.data.len()..self.g.len() {
            let node = self.g.get(i);
            let p = node.prev.clone();
            let d = &self.data;
            let v = match node.op {
                Op::Leaf => fill(),
                Op::Add => d[p[0]] + d[p[1]],
                Op::Mul => d[p[0]] * d[p[1]],
                Op::Pow => d[p[0]].powf(d[p[1]]),
                Op::Exp => d[p[0]].exp(),
                Op::Tanh => {
                    let e = (2.0 * d[p[0]]).exp();
                    (e + -1.0) * (e + 1.0).powf(-1.0)
                }
            };
            self.data.push(v);
            self.grad.push(0.0);
        }
    }

    fn eval(&mut self) {
        self.sync(|| 0.0);
    }

    fn factor(&self, f: Factor) -> f32 {
        match f {
            Factor::One => 1.0,
            Factor::ValueOf(k) => self.data[k],
            Factor::OneMinusSquareOf(k) => 1.0 - self.data[k].powi(2),
            Factor::PowerRule(a, p) => self.data[p] * self.data[a].powf(self.data[p] - 1.0),
        }
    }

    fn apply(&mut self, steps: &[Step]) {
        for s in steps {
            let c = self.factor(s.factor) * self.grad[s.from];
            self.grad[s.to] += c;
        }
    }

    fn backward(&mut self, root: usize) {
        let steps = self.g.backward(root);
        self.grad[root] = 1.0;
        self.apply(&steps);
    }

    fn once_backward(&mut self, n: usize) {
        let steps = self.g.once_backward(n);
        self.apply(&steps);
    }
}

#[test]
fn test_value() {
    let mut t = Tape::new();
    let v = t.leaf(5.0);
    let f: f32 = 5.0;
    assert_eq!(t.data[v], f, "testing Value initialization with float {:?}", f);
}

#[test]
fn test_value_add() {
    let mut t = Tape::new();
    let a = t.leaf(5.0);
    let b = t.leaf(2.2);
    let result = t.g.add(a, b);
    t.eval();
    let expected: f32 = 7.2;
    assert_eq!(t.data[result], expected, "testing Value add with {:?} and {:?}", a, b);
    assert_eq!(t.g.get(result).op(), Op::Add);
    assert_eq!(t.g.get(result).prev().len(), 2, "testing if new Value has 2 children");
}

#[test]
fn test_value_add_backward() {
    let mut t = Tape::new();
    let a = t.leaf(5.0);
    let b = t.leaf(2.2);
    let result = t.g.add(a, b);
    t.eval();
    t.grad[result] = 5.0;
    t.once_backward(result);
    assert_eq!(t.grad[a], 5.0);
    assert_eq!(t.grad[b], 5.0);
}

#[test]
fn test_value_mul() {
    let mut t = Tape::new();
    let a = t.leaf(5.0);
    let b = t.leaf(2.0);
    let result = t.g.mul(a, b);
    t.eval();
    let expected: f32 = 10.0;
    assert_eq!(t.data[result], expected, "testing Value mul with {:?} and {:?}", a, b);
    assert_eq!(t.g.get(result).op(), Op::Mul);
    assert_eq!(t.g.get(result).prev().len(), 2, "testing if new Value has 2 children");
}

#[test]
fn test_value_mul_backward() {
    let mut t = Tape::new();
    let a = t.leaf(5.0);
    let two = t.leaf(2.0);
    let result = t.g.mul(a, two);
    t.eval();
    t.grad[result] = 2.0;
    t.once_backward(result);
    assert_eq!(t.grad[a], 4.0);
}

#[test]
fn test_value_tanh() {
    let mut t = Tape::new();
    let a = t.leaf(2.0);
    let result = t.g.tanh(a);
    t.eval();
    let expected: f32 = (2.0_f32).tanh();
    assert_eq!(t.data[result], expected, "testing Value tanh on {:?}", a);
}

#[test]
fn test_value_tanh_backward() {
    let mut t = Tape::new();
    let a = t.leaf(2.0);
    let result = t.g.tanh(a);
    t.eval();
    t.grad[result] = 2.0;
    t.once_backward(result);
    let expected: f32 = (1.0 - t.data[a].tanh().powi(2)) * t.grad[result];
    assert_eq!(t.grad[a], expected, "testing Value tanh backward on {:?}", a);
}

#[test]
fn test_value_backward() {
    let mut t = Tape::new();
    let x1 = t.leaf(2.0);
    let x2 = t.leaf(0.0);
    let w1 = t.leaf(-3.0);
    let w2 = t.leaf(1.0);
    let b = t.leaf(6.8813735870195432);
    let x1w1 = t.g.mul(x1, w1);
    let x2w2 = t.g.mul(x2, w2);
    let x1w1x2w2 = t.g.add(x1w1, x2w2);
    let x1w1x2w2b = t.g.add(x1w1x2w2, b);
    let out = t.g.tanh(x1w1x2w2b);
    t.eval();
    t.grad[out] = 1.0;
    t.backward(out);
    assert_eq!(t.data[out], 0.7071067);
    assert_eq!(t.grad[x1w1x2w2b], 0.5000001);
    assert_eq!(t.grad[x1], -1.5000004);
}

#[test]
fn test_value_grad_accumulates() {
    let mut t = Tape::new();
    let a = t.leaf(2.0);
    let result = t.g.add(a, a);
    t.eval();
    t.backward(result);
    assert_eq!(t.grad[a], 2.0);

    let a = t.leaf(2.0);
    let result = t.g.mul(a, a);
    t.eval();
    t.backward(result);
    assert_eq!(t.grad[a], 4.0);
}

#[test]
fn test_neuron_call() {
    let mut t = Tape::new();
    let x1 = t.leaf(2.0);
    let x2 = t.leaf(0.0);
    let w1 = t.leaf(-3.0);
    let w2 = t.leaf(1.0);
    let b = t.leaf(6.8813735870195432);

    let mut neuron = Neuron::new(&mut t.g, 2);
    t.sync(|| 0.5);
    neuron.set_weights(vec![w1, w2]);
    neuron.set_bias(b);

    let result = neuron.call(&mut t.g, &vec![x1, x2]).unwrap();
    t.eval();
    t.backward(result);

    assert_eq!(t.data[result], 0.7071067);
    assert_eq!(t.grad[*neuron.weights().get(0).unwrap()], 1.0000002);
    assert_eq!(t.grad[*neuron.weights().get(1).unwrap()], 0.0);
    assert_eq!(t.grad[x1], -1.5000004);
    assert_eq!(t.grad[x2], 0.5000001);
}

#[test]
fn test_init_layer() {
    let mut t = Tape::new();
    let x1 = t.leaf(2.0);
    let x2 = t.leaf(0.0);
    let layer = Layer::new(&mut t.g, 2, 3);
    t.sync(|| 0.25);
    let out = layer.call(&mut t.g, &vec![x1, x2]).unwrap();
    t.eval();
    assert_eq!(out.len(), 3);
}

#[test]
fn test_mlp_init_and_call() {
    let mut t = Tape::new();
    let mlp = Mlp::new(&mut t.g, 3, vec![3, 3, 1]);
    t.sync(|| 0.1);
    let inputs: Vec<usize> = vec![2.0, 3.0, 2.0].into_iter().map(|v| t.leaf(v)).collect();
    let out = mlp.call(&mut t.g, &inputs).unwrap();
    t.eval();
    assert_eq!(out.len(), 1);
    assert_eq!(mlp.parameters().len(), 3 * 4 + 3 * 4 + 4);
}

#[test]
fn known_example_all_gradients() {
    let mut t = Tape::new();
    let x1 = t.leaf(2.0);
    let x2 = t.leaf(0.0);
    let w1 = t.leaf(-3.0);
    let w2 = t.leaf(1.0);
    let b = t.leaf(6.8813735870195432);
    let x1w1 = t.g.mul(x1, w1);
    let x2w2 = t.g.mul(x2, w2);
    let s = t.g.add(x1w1, x2w2);
    let n = t.g.add(s, b);
    let out = t.g.tanh(n);
    t.eval();
    t.backward(out);
    assert!((t.data[out] - 0.7071067).abs() < 1e-6);
    assert!((t.grad[w1] - 1.0000002).abs() < 1e-6);
    assert!(t.grad[w2].abs() < 1e-6);
    assert!((t.grad[x1] + 1.5000004).abs() < 1e-6);
    assert!((t.grad[x2] - 0.5000001).abs() < 1e-6);
}

#[test]
fn backward_twice_without_reset_accumulates() {
    let mut t = Tape::new();
    let a = t.leaf(3.0);
    let b = t.leaf(-2.0);
    let r = t.g.mul(a, b);
    t.eval();
    t.backward(r);
    assert_eq!(t.grad[a], -2.0);
    assert_eq!(t.grad[b], 3.0);
    t.backward(r);
    assert_eq!(t.grad[a], -4.0);
    assert_eq!(t.grad[b], 6.0);

    // an inner node keeps its gradient too, so its second contribution is doubled
    let p = t.g.mul(a, b);
    let q = t.g.add(p, a);
    t.eval();
    t.grad[a] = 0.0;
    t.grad[b] = 0.0;
    t.backward(q);
    assert_eq!(t.grad[a], -1.0);
    assert_eq!(t.grad[b], 3.0);
    t.backward(q);
    assert_eq!(t.grad[a], -4.0);
    assert_eq!(t.grad[b], 9.0);
}

#[test]
fn topological_order_puts_parents_first() {
    let mut g = Graph::new();
    let a = g.leaf();
    let b = g.leaf();
    let unused = g.leaf();
    let c = g.mul(a, b);
    let d = g.add(c, a);
    let e = g.exp(c);
    let f = g.add(d, e);
    let order = g.topological_order(f);
    assert_eq!(order, vec![a, b, c, d, e, f]);
    assert!(!is_in(unused, &order));
    for (i, &n) in order.iter().enumerate() {
        for p in g.get(n).prev() {
            let pos = order.iter().position(|x| x == p).unwrap();
            assert!(pos < i);
        }
    }
    assert_eq!(*order.last().unwrap(), f);
}

#[test]
fn backward_steps_run_root_first() {
    let mut g = Graph::new();
    let a = g.leaf();
    let b = g.leaf();
    let c = g.mul(a, b);
    let d = g.add(c, c);
    let steps = g.backward(d);
    assert_eq!(
        steps,
        vec![
            Step { from: d, to: c, factor: Factor::One },
            Step { from: d, to: c, factor: Factor::One },
            Step { from: c, to: a, factor: Factor::ValueOf(b) },
            Step { from: c, to: b, factor: Factor::ValueOf(a) },
        ]
    );
}

#[test]
fn local_rules_of_each_operation() {
    let mut g = Graph::new();
    let a = g.leaf();
    let p = g.leaf();
    let pw = g.powv(a, p);
    let ex = g.exp(a);
    let th = g.tanh(a);
    assert_eq!(g.once_backward(a), vec![]);
    assert_eq!(g.once_backward(pw), vec![Step { from: pw, to: a, factor: Factor::PowerRule(a, p) }]);
    assert_eq!(g.once_backward(ex), vec![Step { from: ex, to: a, factor: Factor::ValueOf(ex) }]);
    assert_eq!(g.once_backward(th), vec![Step { from: th, to: a, factor: Factor::OneMinusSquareOf(th) }]);
}

#[test]
fn pow_and_exp_gradients() {
    let mut t = Tape::new();
    let a = t.leaf(3.0);
    let two = t.leaf(2.0);
    let sq = t.g.powv(a, two);
    let e = t.g.exp(sq);
    t.eval();
    t.backward(sq);
    assert_eq!(t.data[sq], 9.0);
    assert_eq!(t.grad[a], 6.0);
    assert_eq!(t.grad[two], 0.0);
    assert_eq!(t.data[e], 9.0_f32.exp());
}

#[test]
fn push_checks_arity_and_parents() {
    let mut g = Graph::new();
    let a = g.leaf();
    assert_eq!(g.push(Value { op: Op::Add, prev: vec![a] }), None);
    assert_eq!(g.push(Value { op: Op::Exp, prev: vec![7] }), None);
    assert_eq!(g.len(), 1);
    assert_eq!(g.push(Value { op: Op::Exp, prev: vec![a] }), Some(1));
    assert!(Value::with_op(Op::Mul, vec![a]).is_none());
    assert_eq!(Value::with_op(Op::Tanh, vec![a]).unwrap().prev(), &vec![a]);
    assert_eq!(Value::new().op(), Op::Leaf);
}

#[test]
fn neuron_rejects_wrong_arity() {
    let mut g = Graph::new();
    let x = g.leaf();
    let n = Neuron::new(&mut g, 2);
    let size = g.len();
    assert_eq!(n.call(&mut g, &vec![x]), Err(ArityError { inputs: 1, weights: 2 }));
    assert_eq!(n.call(&mut g, &vec![x, x, x]), Err(ArityError { inputs: 3, weights: 2 }));
    assert_eq!(g.len(), size);
}

#[test]
fn layer_and_mlp_reject_wrong_arity() {
    let mut g = Graph::new();
    let x = g.leaf();
    let layer = Layer::new(&mut g, 2, 3);
    assert_eq!(layer.call(&mut g, &vec![x]), Err(ArityError { inputs: 1, weights: 2 }));
    let mlp = Mlp::new(&mut g, 2, vec![2, 1]);
    assert_eq!(mlp.call(&mut g, &vec![x]), Err(ArityError { inputs: 1, weights: 2 }));
    assert!(mlp.call(&mut g, &vec![x, x]).is_ok());
}

#[test]
fn neuron_parameters_are_weights_then_bias() {
    let mut g = Graph::new();
    let n = Neuron::new(&mut g, 3);
    assert_eq!(n.parameters(), vec![0, 1, 2, 3]);
    assert_eq!(n.num_weights(), 3);
    assert_eq!(n.bias(), 3);
    let layer = Layer::new(&mut g, 1, 2);
    assert_eq!(layer.parameters(), vec![4, 5, 6, 7]);
    assert_eq!(layer.neurons().len(), 2);
}

#[test]
fn neuron_without_inputs_is_tanh_of_bias() {
    let mut t = Tape::new();
    let n = Neuron::new(&mut t.g, 0);
    t.sync(|| 0.5);
    let r = n.call(&mut t.g, &vec![]).unwrap();
    t.eval();
    assert_eq!(t.g.get(r).op(), Op::Tanh);
    assert_eq!(t.g.get(r).prev(), &vec![n.bias()]);
}

#[test]
fn training_reduces_loss() {
    let mut t = Tape::new();
    let mlp = Mlp::new(&mut t.g, 3, vec![4, 4, 1]);
    let mut seed: u32 = 12345;
    t.sync(|| {
        seed = seed.wrapping_mul(1103515245).wrapping_add(12345);
        ((seed >> 8) as f32 / (1u32 << 24) as f32) * 2.0 - 1.0
    });
    let xs = vec![
        vec![2.0, 3.0, -1.0],
        vec![3.0, -1.0, 0.5],
        vec![0.5, 1.0, 1.0],
        vec![1.0, 1.0, -1.0],
    ];
    let ys = [1.0, -1.0, -1.0, 1.0];
    let params = mlp.parameters();
    let mut losses: Vec<f32> = Vec::new();
    for _ in 0..30 {
        let mut loss: Option<usize> = None;
        for (x, y) in xs.iter().zip(ys) {
            let inputs: Vec<usize> = x.iter().map(|v| t.leaf(*v)).collect();
            let pred = mlp.call(&mut t.g, &inputs).unwrap()[0];
            let target = t.leaf(-y);
            let diff = t.g.add(pred, target);
            let two = t.leaf(2.0);
            let sq = t.g.powv(diff, two);
            loss = Some(match loss {
                None => sq,
                Some(l) => t.g.add(l, sq),
            });
        }
        let loss = loss.unwrap();
        t.eval();
        for &p in &params {
            t.grad[p] = 0.0;
        }
        t.backward(loss);
        for &p in &params {
            t.data[p] += -0.06 * t.grad[p];
        }
        losses.push(t.data[loss]);
    }
    assert!(losses[29] < losses[0]);
}
