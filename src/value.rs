//! The computation graph: nodes held in an arena and named by index, their
//! topological order from a root, and the gradient contributions that the
//! backward pass makes, node by node.
use vstd::prelude::*;

verus! {

/// The operation that produced a node of the graph.
#[derive(Clone, Copy, Debug, PartialEq, Eq, Structural)]
pub enum Op {
    /// An input or a trainable parameter.
    Leaf,
    /// `a + b`.
    Add,
    /// `a * b`.
    Mul,
    /// `a ^ p`, with the exponent held by the second parent.
    Pow,
    /// `e ^ a`.
    Exp,
    /// `tanh(a)`.
    Tanh,
}

/// Number of parents that a node produced by `op` has.
pub open spec fn arity(op: Op) -> nat {
    match op {
        Op::Leaf => 0,
        Op::Add => 2,
        Op::Mul => 2,
        Op::Pow => 2,
        Op::Exp => 1,
        Op::Tanh => 1,
    }
}

/// Number of parents that a node produced by `op` has.
pub fn op_arity(op: Op) -> (r: usize)
    ensures
        r == arity(op),
{
    match op {
        Op::Leaf => 0,
        Op::Add => 2,
        Op::Mul => 2,
        Op::Pow => 2,
        Op::Exp => 1,
        Op::Tanh => 1,
    }
}

/// The factor by which a gradient contribution scales the gradient of the
/// node it comes from.
#[derive(Clone, Copy, Debug, PartialEq, Eq, Structural)]
pub enum Factor {
    /// The constant one.
    One,
    /// The value of the given node.
    ValueOf(usize),
    /// One minus the square of the value of the given node.
    OneMinusSquareOf(usize),
    /// `p * a ^ (p - 1)`, for the base node `a` and the exponent node `p`.
    PowerRule(usize, usize),
}

/// One gradient contribution of the backward pass: the gradient of `to` grows
/// by `factor` times the gradient of `from`.
#[derive(Clone, Copy, Debug, PartialEq, Eq, Structural)]
pub struct Step {
    pub from: usize,
    pub to: usize,
    pub factor: Factor,
}

/// One node of a computation graph: the operation that produced it and the
/// handles of its operands (its parents), in order.
#[derive(Clone, Debug)]
pub struct Value {
    pub op: Op,
    pub prev: Vec<usize>,
}

impl Value {
    /// A leaf: an input or a trainable parameter, with no parents.
    pub fn new() -> (r: Value)
        ensures
            r.op == Op::Leaf,
            r.prev@ == Seq::<usize>::empty(),
    {
        Value { op: Op::Leaf, prev: Vec::new() }
    }

    /// A node produced by `op` from `prev`; `None` where the number of
    /// operands does not fit the operation.
    pub fn with_op(op: Op, prev: Vec<usize>) -> (r: Option<Value>)
        ensures
            r is Some <==> prev@.len() == arity(op),
            r matches Some(v) ==> v.op == op && v.prev@ == prev@,
    {
        if prev.len() == op_arity(op) {
            Some(Value { op, prev })
        } else {
            None
        }
    }

    pub fn op(&self) -> (r: Op)
        ensures
            r == self.op,
    {
        self.op
    }

    pub fn prev(&self) -> (r: &Vec<usize>)
        ensures
            r@ == self.prev@,
    {
        &self.prev
    }
}

/// Whether the handle `v` occurs in `values`.
pub fn is_in(v: usize, values: &Vec<usize>) -> (r: bool)
    ensures
        r == values@.contains(v),
{
    let mut i: usize = 0;
    while i < values.len()
        invariant
            0 <= i <= values@.len(),
            forall|k: int| 0 <= k < i ==> values@[k] != v,
        decreases values@.len() - i,
    {
        if values[i] == v {
            return true;
        }
        i = i + 1;
    }
    false
}

/// `a` is `b` followed by zero or more elements.
pub open spec fn is_prefix(b: Seq<usize>, a: Seq<usize>) -> bool {
    &&& b.len() <= a.len()
    &&& forall|i: int| 0 <= i < b.len() ==> #[trigger] a[i] == b[i]
}

/// A computation graph held as an arena: a node is named by its index, and
/// each node's parents stand before it, so the graph is acyclic by
/// construction.
pub struct Graph {
    values: Vec<Value>,
}

impl Graph {
    pub closed spec fn view(&self) -> Seq<Value> {
        self.values@
    }

    pub open spec fn size(&self) -> nat {
        self@.len()
    }

    pub open spec fn op_at(&self, i: int) -> Op {
        self@[i].op
    }

    pub open spec fn parents(&self, i: int) -> Seq<usize> {
        self@[i].prev@
    }

    pub open spec fn parent(&self, i: int, j: int) -> int {
        self@[i].prev@[j] as int
    }

    /// Each node has as many parents as its operation takes, and each parent
    /// stands before it.
    pub open spec fn wf(&self) -> bool {
        forall|i: int|
            #![trigger self@[i]]
            0 <= i < self.size() ==> {
                &&& self.parents(i).len() == arity(self.op_at(i))
                &&& forall|j: int|
                    0 <= j < self.parents(i).len() ==> #[trigger] self.parents(i)[j] < i
            }
    }

    /// `self` is `old` with nodes appended at its end.
    pub open spec fn extends(&self, old: &Graph) -> bool {
        &&& old.size() <= self.size()
        &&& forall|i: int| 0 <= i < old.size() ==> #[trigger] self@[i] == old@[i]
    }

    /// `self` is `old` with `v` appended.
    pub open spec fn appends(&self, old: &Graph, v: Value) -> bool {
        self@ == old@.push(v)
    }

    /// `self` is `old` with one node appended, produced by `op` from `prev`.
    pub open spec fn adds_node(&self, old: &Graph, op: Op, prev: Seq<usize>) -> bool {
        &&& self.wf()
        &&& self.size() == old.size() + 1
        &&& self.extends(old)
        &&& self.op_at(old.size() as int) == op
        &&& self.parents(old.size() as int) == prev
    }

    /// `b` is one of the parents of node `a`.
    pub open spec fn is_edge(&self, a: int, b: int) -> bool {
        0 <= a < self.size() && exists|j: int|
            0 <= j < self.parents(a).len() && #[trigger] self.parents(a)[j] as int == b
    }

    /// `p` is a walk along parent edges.
    pub open spec fn is_path(&self, p: Seq<int>) -> bool {
        &&& p.len() >= 1
        &&& forall|k: int| 0 <= k < p.len() - 1 ==> self.is_edge(#[trigger] p[k], p[k + 1])
    }

    /// `to` can be reached from `from` by following parent edges.
    pub open spec fn reaches(&self, from: int, to: int) -> bool {
        exists|p: Seq<int>| #[trigger] self.is_path(p) && p[0] == from && p.last() == to
    }

    /// Every node of `s` comes after all of its parents.
    pub open spec fn topo_valid(&self, s: Seq<usize>) -> bool {
        forall|i: int, j: int|
            #![trigger self.parents(s[i] as int)[j]]
            0 <= i < s.len() && 0 <= j < self.parents(s[i] as int).len() ==> s.subrange(0, i).contains(
                self.parents(s[i] as int)[j],
            )
    }

    /// What holds between the nodes already visited by a depth-first
    /// traversal and the order it has built so far.
    pub open spec fn dfs_state(&self, visited: Seq<usize>, topo: Seq<usize>) -> bool {
        &&& visited.no_duplicates()
        &&& topo.no_duplicates()
        &&& forall|i: int| 0 <= i < visited.len() ==> #[trigger] visited[i] < self.size()
        &&& forall|i: int| 0 <= i < topo.len() ==> visited.contains(#[trigger] topo[i])
        &&& self.topo_valid(topo)
    }

    /// `s` lists, once each and with every node after its parents, exactly
    /// the nodes that `root` reaches, and ends with `root`.
    pub open spec fn is_topo_order(&self, root: int, s: Seq<usize>) -> bool {
        &&& s.no_duplicates()
        &&& self.topo_valid(s)
        &&& s.len() > 0
        &&& s.last() == root
        &&& forall|x: usize| s.contains(x) <==> #[trigger] self.reaches(root, x as int)
    }

    /// The state, visited nodes and order, after a depth-first traversal
    /// from `v`: a node already visited is skipped; otherwise it is marked,
    /// its parents are traversed in order, and it is appended to the order.
    pub open spec fn dfs_visit(&self, v: usize, visited: Seq<usize>, topo: Seq<usize>) -> (Seq<usize>, Seq<usize>)
        decreases v, self.parents(v as int).len() + 1,
    {
        if visited.contains(v) {
            (visited, topo)
        } else {
            let (vis, tp) = self.dfs_children(v, self.parents(v as int).len(), visited.push(v), topo);
            (vis, tp.push(v))
        }
    }

    /// The state after traversing the first `j` parents of `v`, in order.
    pub open spec fn dfs_children(&self, v: usize, j: nat, visited: Seq<usize>, topo: Seq<usize>) -> (Seq<usize>, Seq<usize>)
        decreases v, j,
    {
        if j == 0 {
            (visited, topo)
        } else {
            let (vis, tp) = self.dfs_children(v, (j - 1) as nat, visited, topo);
            let c = self.parents(v as int)[j - 1];
            if c < v {
                self.dfs_visit(c, vis, tp)
            } else {
                (vis, tp)
            }
        }
    }

    /// The order of a depth-first traversal from `root`.
    pub open spec fn dfs_order(&self, root: usize) -> Seq<usize> {
        self.dfs_visit(root, seq![], seq![]).1
    }

    /// The gradient contributions that node `n` makes to its parents, given
    /// its own gradient.
    pub open spec fn local_steps(&self, m: usize) -> Seq<Step> {
        let a = self@[m as int].prev@[0];
        let b = self@[m as int].prev@[1];
        match self.op_at(m as int) {
            Op::Leaf => seq![],
            Op::Add => seq![
                Step { from: m, to: a, factor: Factor::One },
                Step { from: m, to: b, factor: Factor::One },
            ],
            Op::Mul => seq![
                Step { from: m, to: a, factor: Factor::ValueOf(b) },
                Step { from: m, to: b, factor: Factor::ValueOf(a) },
            ],
            Op::Pow => seq![Step { from: m, to: a, factor: Factor::PowerRule(a, b) }],
            Op::Exp => seq![Step { from: m, to: a, factor: Factor::ValueOf(m) }],
            Op::Tanh => seq![Step { from: m, to: a, factor: Factor::OneMinusSquareOf(m) }],
        }
    }

    /// The contributions of the nodes of `order`, from the last node to the
    /// first.
    pub open spec fn steps_of(&self, order: Seq<usize>) -> Seq<Step>
        decreases order.len(),
    {
        if order.len() == 0 {
            seq![]
        } else {
            self.local_steps(order.last()) + self.steps_of(order.drop_last())
        }
    }

    proof fn lemma_reaches_self(&self, v: int)
        ensures
            self.reaches(v, v),
    {
        let p = seq![v];
        assert(self.is_path(p));
    }

    proof fn lemma_reaches_step(&self, v: int, c: int, t: int)
        requires
            self.is_edge(v, c),
            self.reaches(c, t),
        ensures
            self.reaches(v, t),
    {
        let p = choose|p: Seq<int>| #[trigger] self.is_path(p) && p[0] == c && p.last() == t;
        let q = seq![v] + p;
        assert forall|k: int| 0 <= k < q.len() - 1 implies self.is_edge(#[trigger] q[k], q[k + 1]) by {
            if k > 0 {
                assert(q[k] == p[k - 1]);
                assert(q[k + 1] == p[k]);
            }
        }
        assert(self.is_path(q));
        assert(q.last() == p.last());
    }

    proof fn lemma_topo_push(&self, s: Seq<usize>, v: usize)
        requires
            self.topo_valid(s),
            forall|k: int|
                0 <= k < self.parents(v as int).len() ==> s.contains(
                    #[trigger] self.parents(v as int)[k],
                ),
        ensures
            self.topo_valid(s.push(v)),
    {
        let t = s.push(v);
        assert forall|i: int, j: int|
            #![trigger self.parents(t[i] as int)[j]]
            0 <= i < t.len() && 0 <= j < self.parents(t[i] as int).len() implies t.subrange(
                0,
                i,
            ).contains(self.parents(t[i] as int)[j]) by {
            if i < s.len() {
                assert(t[i] == s[i]);
                assert(t.subrange(0, i) =~= s.subrange(0, i));
            } else {
                assert(t[i] == v);
                assert(t.subrange(0, i) =~= s);
            }
        }
    }

    proof fn lemma_path_in(&self, s: Seq<usize>, p: Seq<int>, k: int)
        requires
            self.topo_valid(s),
            self.is_path(p),
            exists|i: int| 0 <= i < s.len() && s[i] as int == p[0],
            0 <= k < p.len(),
        ensures
            exists|i: int| 0 <= i < s.len() && s[i] as int == p[k],
        decreases k,
    {
        if k > 0 {
            self.lemma_path_in(s, p, k - 1);
            assert(self.is_edge(p[k - 1], p[k]));
            let i = choose|i: int| 0 <= i < s.len() && s[i] as int == p[k - 1];
            let ps = self.parents(s[i] as int);
            let j = choose|j: int| 0 <= j < ps.len() && #[trigger] ps[j] as int == p[k];
            assert(s.subrange(0, i).contains(self.parents(s[i] as int)[j]));
            let w = choose|w: int| 0 <= w < i && s.subrange(0, i)[w] == ps[j];
            assert(s[w] as int == p[k]);
        }
    }

    proof fn lemma_closed_contains_reachable(&self, s: Seq<usize>, root: usize, x: int)
        requires
            self.topo_valid(s),
            s.contains(root),
            self.reaches(root as int, x),
        ensures
            0 <= x && s.contains(x as usize),
    {
        let p = choose|p: Seq<int>| #[trigger] self.is_path(p) && p[0] == root && p.last() == x;
        let i0 = choose|i: int| 0 <= i < s.len() && s[i] == root;
        assert(s[i0] as int == p[0]);
        self.lemma_path_in(s, p, p.len() - 1);
        let i = choose|i: int| 0 <= i < s.len() && s[i] as int == p[p.len() - 1];
        assert(s[i] == x as usize);
    }

    pub fn new() -> (r: Graph)
        ensures
            r.wf(),
            r.size() == 0,
    {
        Graph { values: Vec::new() }
    }

    pub fn len(&self) -> (r: usize)
        ensures
            r == self.size(),
    {
        self.values.len()
    }

    pub fn get(&self, i: usize) -> (r: &Value)
        requires
            i < self.size(),
        ensures
            *r == self@[i as int],
    {
        &self.values[i]
    }

    /// Appends `v` and returns its handle; `None`, with the graph unchanged,
    /// where `v` has the wrong number of parents or a parent that is not yet
    /// in the graph.
    pub fn push(&mut self, v: Value) -> (r: Option<usize>)
        requires
            old(self).wf(),
        ensures
            final(self).wf(),
            r is Some <==> (v.prev@.len() == arity(v.op) && forall|j: int|
                0 <= j < v.prev@.len() ==> #[trigger] v.prev@[j] < old(self).size()),
            r matches Some(h) ==> h == old(self).size() && final(self).appends(old(self), v),
            r is None ==> final(self)@ == old(self)@,
    {
        if v.prev.len() != op_arity(v.op) {
            return None;
        }
        let n = self.values.len();
        let mut j: usize = 0;
        while j < v.prev.len()
            invariant
                0 <= j <= v.prev@.len(),
                n == self.size(),
                self@ == old(self)@,
                self.wf(),
                forall|k: int| 0 <= k < j ==> #[trigger] v.prev@[k] < n,
            decreases v.prev@.len() - j,
        {
            if v.prev[j] >= n {
                return None;
            }
            j = j + 1;
        }
        self.values.push(v);
        proof {
            assert(self@ == old(self)@.push(v));
            assert forall|i: int| #![trigger self@[i]] 0 <= i < self.size() implies {
                &&& self.parents(i).len() == arity(self.op_at(i))
                &&& forall|j: int|
                    0 <= j < self.parents(i).len() ==> #[trigger] self.parents(i)[j] < i
            } by {
                if i < n {
                    assert(self@[i] == old(self)@[i]);
                }
            }
        }
        Some(n)
    }

    fn append(&mut self, op: Op, prev: Vec<usize>) -> (r: usize)
        requires
            old(self).wf(),
            prev@.len() == arity(op),
            forall|j: int| 0 <= j < prev@.len() ==> #[trigger] prev@[j] < old(self).size(),
        ensures
            final(self).wf(),
            r == old(self).size(),
            final(self)@ == old(self)@.push(Value { op, prev }),
    {
        let v = Value { op, prev };
        assert(forall|j: int| 0 <= j < v.prev@.len() ==> #[trigger] v.prev@[j] < old(self).size());
        let r = self.push(v);
        r.unwrap()
    }

    /// A new leaf node.
    pub fn leaf(&mut self) -> (r: usize)
        requires
            old(self).wf(),
        ensures
            r == old(self).size(),
            final(self).adds_node(old(self), Op::Leaf, Seq::empty()),
    {
        self.append(Op::Leaf, Vec::new())
    }

    fn append_unary(&mut self, op: Op, a: usize) -> (r: usize)
        requires
            old(self).wf(),
            arity(op) == 1,
            a < old(self).size(),
        ensures
            r == old(self).size(),
            final(self).adds_node(old(self), op, seq![a]),
    {
        let r = self.append(op, vec![a]);
        assert(final(self).parents(r as int) =~= seq![a]);
        r
    }

    fn append_binary(&mut self, op: Op, a: usize, b: usize) -> (r: usize)
        requires
            old(self).wf(),
            arity(op) == 2,
            a < old(self).size(),
            b < old(self).size(),
        ensures
            r == old(self).size(),
            final(self).adds_node(old(self), op, seq![a, b]),
    {
        let r = self.append(op, vec![a, b]);
        assert(final(self).parents(r as int) =~= seq![a, b]);
        r
    }

    /// The sum `a + b`.
    pub fn add(&mut self, a: usize, b: usize) -> (r: usize)
        requires
            old(self).wf(),
            a < old(self).size(),
            b < old(self).size(),
        ensures
            r == old(self).size(),
            final(self).adds_node(old(self), Op::Add, seq![a, b]),
    {
        self.append_binary(Op::Add, a, b)
    }

    /// The product `a * b`.
    pub fn mul(&mut self, a: usize, b: usize) -> (r: usize)
        requires
            old(self).wf(),
            a < old(self).size(),
            b < old(self).size(),
        ensures
            r == old(self).size(),
            final(self).adds_node(old(self), Op::Mul, seq![a, b]),
    {
        self.append_binary(Op::Mul, a, b)
    }

    /// The power `a ^ p`, with the exponent held by the node `p`.
    pub fn powv(&mut self, a: usize, p: usize) -> (r: usize)
        requires
            old(self).wf(),
            a < old(self).size(),
            p < old(self).size(),
        ensures
            r == old(self).size(),
            final(self).adds_node(old(self), Op::Pow, seq![a, p]),
    {
        self.append_binary(Op::Pow, a, p)
    }

    /// The exponential `e ^ a`.
    pub fn exp(&mut self, a: usize) -> (r: usize)
        requires
            old(self).wf(),
            a < old(self).size(),
        ensures
            r == old(self).size(),
            final(self).adds_node(old(self), Op::Exp, seq![a]),
    {
        self.append_unary(Op::Exp, a)
    }

    /// The hyperbolic tangent `tanh(a)`.
    pub fn tanh(&mut self, a: usize) -> (r: usize)
        requires
            old(self).wf(),
            a < old(self).size(),
        ensures
            r == old(self).size(),
            final(self).adds_node(old(self), Op::Tanh, seq![a]),
    {
        self.append_unary(Op::Tanh, a)
    }

    /// Depth-first traversal from `v`: each node not yet in `visited` is
    /// marked, its parents are traversed in order, and then it is appended
    /// to `topo`.
    pub fn build_topo(&self, v: usize, visited: &mut Vec<usize>, topo: &mut Vec<usize>)
        requires
            self.wf(),
            v < self.size(),
            self.dfs_state(old(visited)@, old(topo)@),
            forall|x: usize|
                old(visited)@.contains(x) && !old(topo)@.contains(x) ==> v < x,
        ensures
            self.dfs_state(final(visited)@, final(topo)@),
            is_prefix(old(visited)@, final(visited)@),
            is_prefix(old(topo)@, final(topo)@),
            (final(visited)@, final(topo)@) == self.dfs_visit(v, old(visited)@, old(topo)@),
            final(topo)@.contains(v),
            !old(visited)@.contains(v) ==> final(topo)@.last() == v,
            forall|x: usize|
                final(visited)@.contains(x) && !old(visited)@.contains(x) ==> final(topo)@.contains(x),
            forall|i: int|
                old(topo)@.len() <= i < final(topo)@.len() ==> !old(visited)@.contains(
                    #[trigger] final(topo)@[i],
                ) && self.reaches(v as int, final(topo)@[i] as int),
        decreases v,
    {
        if is_in(v, visited) {
            proof {
                if !topo@.contains(v) {
                    assert(v < v);
                }
            }
            return;
        }
        let ghost visited0 = visited@;
        let ghost topo0 = topo@;
        visited.push(v);
        proof {
            assert(forall|i: int| 0 <= i < topo0.len() ==> visited@.contains(#[trigger] topo0[i])) by {
                assert forall|i: int| 0 <= i < topo0.len() implies visited@.contains(#[trigger] topo0[i]) by {
                    let k = choose|k: int| 0 <= k < visited0.len() && visited0[k] == topo0[i];
                    assert(visited@[k] == topo0[i]);
                }
            }
            assert(visited@[visited0.len() as int] == v);
        }
        let prev = &self.values[v].prev;
        let mut j: usize = 0;
        while j < prev.len()
            invariant
                self.wf(),
                v < self.size(),
                prev@ == self.parents(v as int),
                0 <= j <= prev@.len(),
                (visited@, topo@) == self.dfs_children(v, j as nat, visited0.push(v), topo0),
                self.dfs_state(visited@, topo@),
                is_prefix(visited0.push(v), visited@),
                is_prefix(topo0, topo@),
                !topo@.contains(v),
                forall|x: usize| visited0.contains(x) && !topo0.contains(x) ==> v < x,
                forall|x: usize|
                    visited@.contains(x) && !topo@.contains(x) ==> x == v || (visited0.contains(x)
                        && !topo0.contains(x)),
                forall|x: usize|
                    visited@.contains(x) && !visited0.contains(x) && x != v ==> topo@.contains(x),
                forall|k: int| 0 <= k < j ==> topo@.contains(#[trigger] prev@[k]),
                forall|i: int|
                    topo0.len() <= i < topo@.len() ==> !visited0.contains(#[trigger] topo@[i])
                        && self.reaches(v as int, topo@[i] as int),
            decreases prev@.len() - j,
        {
            let c = prev[j];
            let ghost visited1 = visited@;
            let ghost topo1 = topo@;
            assert(visited@[visited0.len() as int] == visited0.push(v)[visited0.len() as int]);
            assert(c < v);
            assert forall|x: usize| visited@.contains(x) && !topo@.contains(x) implies c < x by {
                if x != v {
                    assert(visited0.contains(x) && !topo0.contains(x));
                    assert(v < x);
                }
            }
            self.build_topo(c, visited, topo);
            proof {
                assert(self.parents(v as int)[j as int] == c);
                assert((visited@, topo@) == self.dfs_children(v, (j + 1) as nat, visited0.push(v), topo0));
                assert(visited1.contains(v));
                assert forall|k: int| 0 <= k <= j implies topo@.contains(#[trigger] prev@[k]) by {
                    if k < j {
                        let w = choose|w: int| 0 <= w < topo1.len() && topo1[w] == prev@[k];
                        assert(topo@[w] == prev@[k]);
                    }
                }
                assert forall|i: int|
                    topo0.len() <= i < topo@.len() implies !visited0.contains(#[trigger] topo@[i])
                        && self.reaches(v as int, topo@[i] as int) by {
                    if i < topo1.len() {
                        assert(topo@[i] == topo1[i]);
                    } else {
                        assert(!visited1.contains(topo@[i]));
                        if visited0.contains(topo@[i]) {
                            let w = choose|w: int| 0 <= w < visited0.len() && visited0[w] == topo@[i];
                            assert(visited1[w] == visited0.push(v)[w]);
                            assert(visited1[w] == topo@[i]);
                        }
                        assert(self.reaches(c as int, topo@[i] as int));
                        assert(self.parents(v as int)[j as int] == c);
                        assert(self.is_edge(v as int, c as int));
                        self.lemma_reaches_step(v as int, c as int, topo@[i] as int);
                    }
                }
                if topo@.contains(v) {
                    let w = choose|w: int| 0 <= w < topo@.len() && topo@[w] == v;
                    if w < topo1.len() {
                        assert(topo1[w] == v);
                    } else {
                        assert(!visited1.contains(topo@[w]));
                    }
                }
                assert forall|x: usize|
                    visited@.contains(x) && !topo@.contains(x) implies x == v || (visited0.contains(x)
                        && !topo0.contains(x)) by {
                    if !visited1.contains(x) {
                        assert(topo@.contains(x));
                    } else if topo1.contains(x) {
                        let w = choose|w: int| 0 <= w < topo1.len() && topo1[w] == x;
                        assert(topo@[w] == x);
                    }
                }
                assert forall|x: usize|
                    visited@.contains(x) && !visited0.contains(x) && x != v implies topo@.contains(x) by {
                    if visited1.contains(x) {
                        assert(topo1.contains(x));
                        let w = choose|w: int| 0 <= w < topo1.len() && topo1[w] == x;
                        assert(topo@[w] == x);
                    }
                }
            }
            j = j + 1;
        }
        let ghost topo2 = topo@;
        topo.push(v);
        assert(topo@.last() == v);
        assert((visited@, topo@) == self.dfs_visit(v, old(visited)@, old(topo)@));
        proof {
            assert(topo@[topo2.len() as int] == v);
            assert forall|a: int, b: int| 0 <= a < topo@.len() && 0 <= b < topo@.len() && a != b
                implies topo@[a] != topo@[b] by {
                if a == topo2.len() {
                    assert(topo2[b] == topo@[b]);
                } else if b == topo2.len() {
                    assert(topo2[a] == topo@[a]);
                } else {
                    assert(topo2[a] == topo@[a]);
                    assert(topo2[b] == topo@[b]);
                }
            }
            assert(visited@.no_duplicates());
            assert forall|i: int| 0 <= i < topo@.len() implies visited@.contains(#[trigger] topo@[i]) by {
                if i < topo2.len() {
                    assert(topo@[i] == topo2[i]);
                } else {
                    assert(visited@[visited0.len() as int] == v);
                }
            }
            assert forall|k: int| 0 <= k < self.parents(v as int).len() implies topo2.contains(
                #[trigger] self.parents(v as int)[k],
            ) by {
                assert(prev@[k] == self.parents(v as int)[k]);
            }
            self.lemma_topo_push(topo2, v);
            assert(topo@ == topo2.push(v));
            assert(self.topo_valid(topo@));
            assert(self.dfs_state(visited@, topo@));
            assert forall|i: int|
                topo0.len() <= i < topo@.len() implies !visited0.contains(#[trigger] topo@[i])
                    && self.reaches(v as int, topo@[i] as int) by {
                if i < topo2.len() {
                    assert(topo@[i] == topo2[i]);
                } else {
                    self.lemma_reaches_self(v as int);
                }
            }
            assert forall|x: usize|
                visited@.contains(x) && !visited0.contains(x) implies topo@.contains(x) by {
                if x == v {
                    assert(topo@[topo2.len() as int] == v);
                } else {
                    let w = choose|w: int| 0 <= w < topo2.len() && topo2[w] == x;
                    assert(topo@[w] == x);
                }
            }
        }
    }

    /// The nodes that `root` reaches, each after all of its parents, in the
    /// order of a depth-first traversal from `root`.
    pub fn topological_order(&self, root: usize) -> (r: Vec<usize>)
        requires
            self.wf(),
            root < self.size(),
        ensures
            r@ == self.dfs_order(root),
            self.is_topo_order(root as int, r@),
    {
        let mut visited: Vec<usize> = Vec::new();
        let mut topo: Vec<usize> = Vec::new();
        assert(self.topo_valid(topo@));
        self.build_topo(root, &mut visited, &mut topo);
        proof {
            assert forall|x: usize| topo@.contains(x) <==> #[trigger] self.reaches(root as int, x as int) by {
                if topo@.contains(x) {
                    let i = choose|i: int| 0 <= i < topo@.len() && topo@[i] == x;
                    assert(self.reaches(root as int, topo@[i] as int));
                }
                if self.reaches(root as int, x as int) {
                    self.lemma_closed_contains_reachable(topo@, root, x as int);
                }
            }
        }
        topo
    }

    /// The gradient contributions of node `n`.
    pub fn once_backward(&self, n: usize) -> (r: Vec<Step>)
        requires
            self.wf(),
            n < self.size(),
        ensures
            r@ == self.local_steps(n),
    {
        let v = &self.values[n];
        match v.op {
            Op::Leaf => Vec::new(),
            Op::Add => vec![
                Step { from: n, to: v.prev[0], factor: Factor::One },
                Step { from: n, to: v.prev[1], factor: Factor::One },
            ],
            Op::Mul => vec![
                Step { from: n, to: v.prev[0], factor: Factor::ValueOf(v.prev[1]) },
                Step { from: n, to: v.prev[1], factor: Factor::ValueOf(v.prev[0]) },
            ],
            Op::Pow => vec![Step { from: n, to: v.prev[0], factor: Factor::PowerRule(v.prev[0], v.prev[1]) }],
            Op::Exp => vec![Step { from: n, to: v.prev[0], factor: Factor::ValueOf(n) }],
            Op::Tanh => vec![Step { from: n, to: v.prev[0], factor: Factor::OneMinusSquareOf(n) }],
        }
    }

    /// The contributions of the nodes of `order`, taken from its last node to
    /// its first.
    pub fn backward_steps(&self, order: &Vec<usize>) -> (r: Vec<Step>)
        requires
            self.wf(),
            forall|i: int| 0 <= i < order@.len() ==> #[trigger] order@[i] < self.size(),
        ensures
            r@ == self.steps_of(order@),
    {
        let mut steps: Vec<Step> = Vec::new();
        let mut i: usize = order.len();
        assert(order@.subrange(0, i as int) =~= order@);
        assert(steps@ + self.steps_of(order@) =~= self.steps_of(order@));
        while i > 0
            invariant
                self.wf(),
                i <= order@.len(),
                forall|k: int| 0 <= k < order@.len() ==> #[trigger] order@[k] < self.size(),
                steps@ + self.steps_of(order@.subrange(0, i as int)) == self.steps_of(order@),
            decreases i,
        {
            let ghost pre = order@.subrange(0, i as int);
            let mut local = self.once_backward(order[i - 1]);
            proof {
                assert(pre.drop_last() =~= order@.subrange(0, i - 1));
                assert(pre.last() == order@[i - 1]);
                assert(steps@ + local@ + self.steps_of(order@.subrange(0, i - 1)) =~= steps@ + self.steps_of(pre));
            }
            steps.append(&mut local);
            i = i - 1;
        }
        proof {
            assert(order@.subrange(0, 0) =~= Seq::<usize>::empty());
            assert(steps@ + Seq::<Step>::empty() =~= steps@);
        }
        steps
    }

    /// The backward pass from `root`: the gradient contributions of the nodes
    /// that `root` reaches, in reverse topological order, root first. Running
    /// them after setting the gradient of `root` to one adds to each node's
    /// gradient the derivative of `root` with respect to it.
    pub fn backward(&self, root: usize) -> (r: Vec<Step>)
        requires
            self.wf(),
            root < self.size(),
        ensures
            self.is_topo_order(root as int, self.dfs_order(root)),
            r@ == self.steps_of(self.dfs_order(root)),
    {
        let order = self.topological_order(root);
        proof {
            assert forall|i: int| 0 <= i < order@.len() implies #[trigger] order@[i] < self.size() by {
                assert(order@.contains(order@[i]));
                assert(self.reaches(root as int, order@[i] as int));
                let p = choose|p: Seq<int>| #[trigger] self.is_path(p) && p[0] == root && p.last() == order@[i] as int;
                if p.len() > 1 {
                    assert(self.is_edge(p[p.len() - 2], p[p.len() - 1]));
                    let a = p[p.len() - 2];
                    let j = choose|j: int| 0 <= j < self.parents(a).len() && self.parents(a)[j] == order@[i];
                    assert(self.parents(a)[j] < a);
                }
            }
        }
        self.backward_steps(&order)
    }

    proof fn lemma_local_steps_edges(&self, n: usize)
        requires
            self.wf(),
            n < self.size(),
        ensures
            forall|k: int|
                0 <= k < self.local_steps(n).len() ==> (#[trigger] self.local_steps(n)[k]).from == n
                    && self.parents(n as int).contains(self.local_steps(n)[k].to)
                    && self.local_steps(n)[k].to < n,
    {
        let ps = self.parents(n as int);
        assert forall|k: int| 0 <= k < self.local_steps(n).len() implies (#[trigger] self.local_steps(n)[k]).from == n
            && self.parents(n as int).contains(self.local_steps(n)[k].to) && self.local_steps(n)[k].to < n by {
            assert(self@[n as int].prev@ == ps);
            if k == 0 {
                assert(ps[0] < n);
                assert(ps.contains(ps[0]));
            } else {
                assert(ps[1] < n);
                assert(ps.contains(ps[1]));
            }
        }
    }

    proof fn lemma_steps_of_edges(&self, s: Seq<usize>)
        requires
            self.wf(),
            forall|i: int| 0 <= i < s.len() ==> #[trigger] s[i] < self.size(),
        ensures
            forall|k: int|
                0 <= k < self.steps_of(s).len() ==> s.contains((#[trigger] self.steps_of(s)[k]).from)
                    && self.parents(self.steps_of(s)[k].from as int).contains(self.steps_of(s)[k].to),
        decreases s.len(),
    {
        if s.len() > 0 {
            let pre = s.drop_last();
            let l = self.local_steps(s.last());
            self.lemma_steps_of_edges(pre);
            self.lemma_local_steps_edges(s.last());
            let plan = self.steps_of(s);
            assert(plan == l + self.steps_of(pre));
            assert forall|k: int| 0 <= k < plan.len() implies s.contains((#[trigger] plan[k]).from)
                && self.parents(plan[k].from as int).contains(plan[k].to) by {
                if k < l.len() {
                    assert(plan[k] == l[k]);
                    assert(s[s.len() - 1] == s.last());
                } else {
                    assert(plan[k] == self.steps_of(pre)[k - l.len()]);
                    let w = choose|w: int| 0 <= w < pre.len() && pre[w] == plan[k].from;
                    assert(s[w] == pre[w]);
                }
            }
        }
    }

    /// The backward pass is reverse topological: over the nodes of a
    /// topological order, every contribution into a node comes before every
    /// contribution out of it, so each node's rule reads a gradient that is
    /// already complete.
    pub proof fn lemma_steps_reverse_topological(&self, order: Seq<usize>)
        requires
            self.wf(),
            order.no_duplicates(),
            self.topo_valid(order),
            forall|i: int| 0 <= i < order.len() ==> #[trigger] order[i] < self.size(),
        ensures
            forall|i: int, k: int|
                0 <= i < k < self.steps_of(order).len() ==> (#[trigger] self.steps_of(order)[i]).from
                    != (#[trigger] self.steps_of(order)[k]).to,
        decreases order.len(),
    {
        if order.len() > 0 {
            let pre = order.drop_last();
            let last = order.last();
            let l = self.local_steps(last);
            let rest = self.steps_of(pre);
            let plan = self.steps_of(order);
            assert(plan == l + rest);
            assert(pre.no_duplicates());
            assert forall|i: int, j: int|
                #![trigger self.parents(pre[i] as int)[j]]
                0 <= i < pre.len() && 0 <= j < self.parents(pre[i] as int).len() implies pre.subrange(
                    0,
                    i,
                ).contains(self.parents(pre[i] as int)[j]) by {
                assert(pre[i] == order[i]);
                assert(order.subrange(0, i) =~= pre.subrange(0, i));
            }
            self.lemma_steps_reverse_topological(pre);
            self.lemma_steps_of_edges(pre);
            self.lemma_local_steps_edges(last);
            assert forall|i: int, k: int|
                0 <= i < k < plan.len() implies (#[trigger] plan[i]).from != (#[trigger] plan[k]).to by {
                if k < l.len() {
                    assert(plan[i] == l[i]);
                    assert(plan[k] == l[k]);
                } else if i < l.len() {
                    assert(plan[i] == l[i]);
                    assert(plan[k] == rest[k - l.len()]);
                    let c = plan[k].from;
                    let ic = choose|w: int| 0 <= w < pre.len() && pre[w] == c;
                    let ps = self.parents(c as int);
                    let j = choose|j: int| 0 <= j < ps.len() && ps[j] == plan[k].to;
                    assert(order[ic] == c);
                    assert(order.subrange(0, ic).contains(self.parents(order[ic] as int)[j]));
                    let w = choose|w: int| 0 <= w < ic && order.subrange(0, ic)[w] == ps[j];
                    assert(order[w] == ps[j]);
                    if plan[k].to == last {
                        assert(order[order.len() - 1] == last);
                    }
                } else {
                    assert(plan[i] == rest[i - l.len()]);
                    assert(plan[k] == rest[k - l.len()]);
                }
            }
        }
    }

    /// Each operand of an addition, a product, an exponential or a tanh
    /// receives its own contribution: an operand used twice receives two,
    /// which the backward pass adds up.
    pub proof fn lemma_one_step_per_operand(&self, n: usize)
        requires
            self.wf(),
            n < self.size(),
            self.op_at(n as int) != Op::Pow,
        ensures
            self.local_steps(n).len() == self.parents(n as int).len(),
            forall|j: int|
                0 <= j < self.parents(n as int).len() ==> (#[trigger] self.local_steps(n)[j]).to
                    == self.parents(n as int)[j] && self.local_steps(n)[j].from == n,
    {
        assert(self.parents(n as int).len() == arity(self.op_at(n as int)));
    }
}

} // verus!
