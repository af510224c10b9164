//! The computation-graph arena: node representation, the catalogue of
//! differentiable primitive operations, and the accessors through which the
//! embedding application reads and writes the scalar cells.

use vstd::prelude::*;

verus! {

/// Tag identifying which primitive operation produced a node.
///
/// A `Leaf` is a graph input with no operands.  The binary operations take
/// two operands, the unary ones a single operand.  `Softmax(i)` marks the
/// `i`-th output of a joint softmax over all of the node's operands: each
/// output depends on every input, so every output node lists the full input
/// vector as its operands.
#[derive(Clone, Copy, PartialEq, Eq, Structural, Debug)]
pub enum Op {
    Leaf,
    Add,
    Mul,
    Pow,
    Recip,
    Exp,
    Ln,
    Tanh,
    Relu,
    Softmax(usize),
}

/// The mathematical model of one graph node: its operation tag, the indices
/// of its operands, and the two opaque scalar cells.
#[verifier::ext_equal]
pub struct NodeView {
    pub op: Op,
    pub args: Seq<usize>,
    pub val: u32,
    pub grad: u32,
}

/// How many operands a node with the given tag must have.
pub open spec fn arity_ok(op: Op, n: nat) -> bool {
    match op {
        Op::Leaf => n == 0,
        Op::Add | Op::Mul | Op::Pow => n == 2,
        Op::Recip | Op::Exp | Op::Ln | Op::Tanh | Op::Relu => n == 1,
        Op::Softmax(k) => n >= 1 && k < n,
    }
}

/// A node is well formed at position `i` when its operand count matches its
/// tag and every operand points at a strictly earlier node.  The latter is
/// the invariant that makes the graph a DAG by construction.
pub open spec fn node_wf(s: Seq<NodeView>, i: int) -> bool {
    &&& arity_ok(s[i].op, s[i].args.len())
    &&& forall|k: int| 0 <= k < s[i].args.len() ==> (s[i].args[k] as int) < i
}

/// Well-formedness of the whole arena.
pub open spec fn graph_wf(s: Seq<NodeView>) -> bool {
    forall|i: int| 0 <= i < s.len() ==> #[trigger] node_wf(s, i)
}

/// The activation-kind selector of the batch helpers: `Linear` is the
/// identity, the others dispatch to the corresponding elementwise primitive
/// or, for `Softmax`, to the joint softmax over the whole vector.
#[derive(Clone, Copy, PartialEq, Eq, Structural, Debug)]
pub enum Activations {
    Linear,
    Relu,
    Tanh,
    Softmax,
}

/// The operation tag of node `i`, as an abbreviation in contracts.
pub open spec fn op_of(s: Seq<NodeView>, i: int) -> Op {
    s[i].op
}

/// The operand count of node `i`.
pub open spec fn arity_of(s: Seq<NodeView>, i: int) -> nat {
    s[i].args.len()
}

/// The `k`-th operand of node `i`, as an unbounded integer.
pub open spec fn arg_of(s: Seq<NodeView>, i: int, k: int) -> int {
    s[i].args[k] as int
}

/// The value cell of node `i`.
pub open spec fn val_of(s: Seq<NodeView>, i: int) -> u32 {
    s[i].val
}

/// The gradient cell of node `i`.
pub open spec fn grad_of(s: Seq<NodeView>, i: int) -> u32 {
    s[i].grad
}

/// A freshly created non-leaf node: both scalar cells still zero.
pub open spec fn fresh_node(s: Seq<NodeView>, i: int, op: Op) -> bool {
    &&& op_of(s, i) == op
    &&& val_of(s, i) == SCALAR_ZERO
    &&& grad_of(s, i) == SCALAR_ZERO
}

/// The scalar cell pattern used for a zero scalar.
pub const SCALAR_ZERO: u32 = 0;

/// The scalar cell pattern that the backward pass writes into the terminal
/// node as the seed gradient; the embedding application interprets it as the
/// unit scalar.
pub const SCALAR_ONE: u32 = 0x3F80_0000;

/// The scalar cell pattern for the negated unit scalar, used by the derived
/// composites (subtraction, negation).
pub const SCALAR_NEG_ONE: u32 = 0xBF80_0000;

/// The computation-graph arena.  Nodes are append-only: once created, a
/// node's tag and operand list never change; only its two scalar cells are
/// ever written again.
pub struct Graph {
    ops: Vec<Op>,
    args: Vec<Vec<usize>>,
    vals: Vec<u32>,
    grads: Vec<u32>,
}

impl View for Graph {
    type V = Seq<NodeView>;

    closed spec fn view(&self) -> Seq<NodeView> {
        Seq::new(
            self.ops@.len(),
            |i: int|
                (NodeView {
                    op: self.ops@[i],
                    args: self.args@[i]@,
                    val: self.vals@[i],
                    grad: self.grads@[i],
                }),
        )
    }
}

impl Graph {
    /// The private representation invariant: the four columns have equal
    /// length.
    spec fn cols_ok(self) -> bool {
        &&& self.ops@.len() == self.args@.len()
        &&& self.ops@.len() == self.vals@.len()
        &&& self.ops@.len() == self.grads@.len()
    }

    /// The graph invariant: the representation is consistent and the
    /// modelled arena is well formed.
    pub open spec fn wf(self) -> bool {
        &&& self.inv()
        &&& graph_wf(self@)
    }

    /// The part of the invariant that is internal to the representation.
    pub closed spec fn inv(self) -> bool {
        self.cols_ok()
    }

    /// Creates an empty graph.
    pub fn new() -> (g: Graph)
        ensures
            g.wf(),
            g@.len() == 0,
    {
        Graph { ops: Vec::new(), args: Vec::new(), vals: Vec::new(), grads: Vec::new() }
    }

    /// The number of nodes created so far.
    pub fn len(&self) -> (n: usize)
        ensures
            n == self@.len(),
    {
        self.ops.len()
    }

    /// Creates a leaf node carrying the given scalar pattern, with gradient
    /// zero, and returns its index.  Leaves are the only nodes whose value
    /// cell is meaningful at creation; every other node's value is computed
    /// by the embedding application from its operands.
    pub fn leaf(&mut self, val: u32) -> (i: usize)
        requires
            old(self).wf(),
        ensures
            final(self).wf(),
            i == old(self)@.len(),
            final(self)@ == old(self)@.push(
                (NodeView { op: Op::Leaf, args: Seq::empty(), val: val, grad: SCALAR_ZERO }),
            ),
    {
        let i = self.ops.len();
        self.ops.push(Op::Leaf);
        self.args.push(Vec::new());
        self.vals.push(val);
        self.grads.push(SCALAR_ZERO);
        proof {
            assert(self@ =~= old(self)@.push(
                NodeView { op: Op::Leaf, args: Seq::empty(), val: val, grad: SCALAR_ZERO },
            ));
            assert forall|j: int| 0 <= j < self@.len() implies #[trigger] node_wf(self@, j) by {
                if j < old(self)@.len() {
                    assert(node_wf(old(self)@, j));
                }
            }
        }
        i
    }

    /// Appends one non-leaf node with the given tag and operands; its value
    /// and gradient cells start at zero.  The value is not computed here:
    /// the embedding application evaluates new nodes in index order, which
    /// is already a topological order.
    fn push_node(&mut self, op: Op, args: Vec<usize>) -> (i: usize)
        requires
            old(self).wf(),
            arity_ok(op, args@.len()),
            forall|k: int| 0 <= k < args@.len() ==> (args@[k] as int) < old(self)@.len(),
        ensures
            final(self).wf(),
            i == old(self)@.len(),
            final(self)@ == old(self)@.push(
                (NodeView { op: op, args: args@, val: SCALAR_ZERO, grad: SCALAR_ZERO }),
            ),
    {
        let ghost gargs = args@;
        let i = self.ops.len();
        self.ops.push(op);
        self.args.push(args);
        self.vals.push(SCALAR_ZERO);
        self.grads.push(SCALAR_ZERO);
        proof {
            assert(self@ =~= old(self)@.push(
                NodeView { op: op, args: gargs, val: SCALAR_ZERO, grad: SCALAR_ZERO },
            ));
            assert forall|j: int| 0 <= j < self@.len() implies #[trigger] node_wf(self@, j) by {
                if j < old(self)@.len() {
                    assert(node_wf(old(self)@, j));
                }
            }
        }
        i
    }

    /// Creates the node `a + b` and returns its index.
    pub fn add(&mut self, a: usize, b: usize) -> (i: usize)
        requires
            old(self).wf(),
            a < old(self)@.len(),
            b < old(self)@.len(),
        ensures
            final(self).wf(),
            i == old(self)@.len(),
            final(self)@ == old(self)@.push(
                (NodeView { op: Op::Add, args: seq![a, b], val: SCALAR_ZERO, grad: SCALAR_ZERO }),
            ),
    {
        self.push_binary(Op::Add, a, b)
    }

    /// Creates the node `a * b` and returns its index.
    pub fn mul(&mut self, a: usize, b: usize) -> (i: usize)
        requires
            old(self).wf(),
            a < old(self)@.len(),
            b < old(self)@.len(),
        ensures
            final(self).wf(),
            i == old(self)@.len(),
            final(self)@ == old(self)@.push(
                (NodeView { op: Op::Mul, args: seq![a, b], val: SCALAR_ZERO, grad: SCALAR_ZERO }),
            ),
    {
        self.push_binary(Op::Mul, a, b)
    }

    /// Creates the node `a` raised to the power held by `b`, and returns its
    /// index.  The backward rule for this node propagates into both the base
    /// and the exponent (the mathematically complete two-sided rule).
    pub fn pow(&mut self, a: usize, b: usize) -> (i: usize)
        requires
            old(self).wf(),
            a < old(self)@.len(),
            b < old(self)@.len(),
        ensures
            final(self).wf(),
            i == old(self)@.len(),
            final(self)@ == old(self)@.push(
                (NodeView { op: Op::Pow, args: seq![a, b], val: SCALAR_ZERO, grad: SCALAR_ZERO }),
            ),
    {
        self.push_binary(Op::Pow, a, b)
    }

    /// Creates the reciprocal node of `a` and returns its index.
    pub fn recip(&mut self, a: usize) -> (i: usize)
        requires
            old(self).wf(),
            a < old(self)@.len(),
        ensures
            final(self).wf(),
            i == old(self)@.len(),
            final(self)@ == old(self)@.push(
                (NodeView { op: Op::Recip, args: seq![a], val: SCALAR_ZERO, grad: SCALAR_ZERO }),
            ),
    {
        self.push_unary(Op::Recip, a)
    }

    /// Creates the exponential node of `a` and returns its index.
    pub fn exp(&mut self, a: usize) -> (i: usize)
        requires
            old(self).wf(),
            a < old(self)@.len(),
        ensures
            final(self).wf(),
            i == old(self)@.len(),
            final(self)@ == old(self)@.push(
                (NodeView { op: Op::Exp, args: seq![a], val: SCALAR_ZERO, grad: SCALAR_ZERO }),
            ),
    {
        self.push_unary(Op::Exp, a)
    }

    /// Creates the natural-logarithm node of `a` and returns its index.
    pub fn ln(&mut self, a: usize) -> (i: usize)
        requires
            old(self).wf(),
            a < old(self)@.len(),
        ensures
            final(self).wf(),
            i == old(self)@.len(),
            final(self)@ == old(self)@.push(
                (NodeView { op: Op::Ln, args: seq![a], val: SCALAR_ZERO, grad: SCALAR_ZERO }),
            ),
    {
        self.push_unary(Op::Ln, a)
    }

    /// Creates the hyperbolic-tangent node of `a` and returns its index.
    pub fn tanh(&mut self, a: usize) -> (i: usize)
        requires
            old(self).wf(),
            a < old(self)@.len(),
        ensures
            final(self).wf(),
            i == old(self)@.len(),
            final(self)@ == old(self)@.push(
                (NodeView { op: Op::Tanh, args: seq![a], val: SCALAR_ZERO, grad: SCALAR_ZERO }),
            ),
    {
        self.push_unary(Op::Tanh, a)
    }

    /// Creates the rectified-linear node of `a` and returns its index.
    pub fn relu(&mut self, a: usize) -> (i: usize)
        requires
            old(self).wf(),
            a < old(self)@.len(),
        ensures
            final(self).wf(),
            i == old(self)@.len(),
            final(self)@ == old(self)@.push(
                (NodeView { op: Op::Relu, args: seq![a], val: SCALAR_ZERO, grad: SCALAR_ZERO }),
            ),
    {
        self.push_unary(Op::Relu, a)
    }

    /// Shared body of the binary builders.
    fn push_binary(&mut self, op: Op, a: usize, b: usize) -> (i: usize)
        requires
            old(self).wf(),
            arity_ok(op, 2),
            a < old(self)@.len(),
            b < old(self)@.len(),
        ensures
            final(self).wf(),
            i == old(self)@.len(),
            final(self)@ == old(self)@.push(
                (NodeView { op: op, args: seq![a, b], val: SCALAR_ZERO, grad: SCALAR_ZERO }),
            ),
    {
        let mut v: Vec<usize> = Vec::new();
        v.push(a);
        v.push(b);
        proof {
            assert(v@ =~= seq![a, b]);
        }
        self.push_node(op, v)
    }

    /// Shared body of the unary builders.
    fn push_unary(&mut self, op: Op, a: usize) -> (i: usize)
        requires
            old(self).wf(),
            arity_ok(op, 1),
            a < old(self)@.len(),
        ensures
            final(self).wf(),
            i == old(self)@.len(),
            final(self)@ == old(self)@.push(
                (NodeView { op: op, args: seq![a], val: SCALAR_ZERO, grad: SCALAR_ZERO }),
            ),
    {
        let mut v: Vec<usize> = Vec::new();
        v.push(a);
        proof {
            assert(v@ =~= seq![a]);
        }
        self.push_node(op, v)
    }

    /// The operation tag of node `i`.
    pub fn op(&self, i: usize) -> (o: Op)
        requires
            self.wf(),
            i < self@.len(),
        ensures
            o == self@[i as int].op,
    {
        self.ops[i]
    }

    /// The number of operands of node `i`.
    pub fn arity(&self, i: usize) -> (n: usize)
        requires
            self.wf(),
            i < self@.len(),
        ensures
            n == self@[i as int].args.len(),
    {
        self.args[i].len()
    }

    /// The `k`-th operand of node `i`.  Operands always point at strictly
    /// earlier nodes.
    pub fn operand(&self, i: usize, k: usize) -> (a: usize)
        requires
            self.wf(),
            i < self@.len(),
            k < self@[i as int].args.len(),
        ensures
            a == self@[i as int].args[k as int],
            a < i,
    {
        proof {
            assert(node_wf(self@, i as int));
        }
        self.args[i][k]
    }

    /// The current scalar pattern in the value cell of node `i`.
    pub fn data(&self, i: usize) -> (v: u32)
        requires
            self.wf(),
            i < self@.len(),
        ensures
            v == self@[i as int].val,
    {
        self.vals[i]
    }

    /// The current scalar pattern in the gradient cell of node `i`.
    pub fn grad(&self, i: usize) -> (v: u32)
        requires
            self.wf(),
            i < self@.len(),
        ensures
            v == self@[i as int].grad,
    {
        self.grads[i]
    }

    /// Writes the value cell of node `i`.  The embedding application uses
    /// this to store the result of evaluating the node's forward operation,
    /// and to apply an update step to a parameter leaf.
    pub fn set_data(&mut self, i: usize, v: u32)
        requires
            old(self).wf(),
            i < old(self)@.len(),
        ensures
            final(self).wf(),
            final(self)@ == old(self)@.update(
                i as int,
                (NodeView { val: v, ..old(self)@[i as int] }),
            ),
    {
        self.vals[i] = v;
        proof {
            assert(self@ =~= old(self)@.update(
                i as int,
                NodeView { val: v, ..old(self)@[i as int] },
            ));
            assert forall|j: int| 0 <= j < self@.len() implies #[trigger] node_wf(self@, j) by {
                assert(node_wf(old(self)@, j));
            }
        }
    }

    /// Writes the gradient cell of node `i`.  The embedding application uses
    /// this to accumulate a scheduled gradient contribution into an operand.
    pub fn set_grad(&mut self, i: usize, v: u32)
        requires
            old(self).wf(),
            i < old(self)@.len(),
        ensures
            final(self).wf(),
            final(self)@ == old(self)@.update(
                i as int,
                (NodeView { grad: v, ..old(self)@[i as int] }),
            ),
    {
        self.grads[i] = v;
        proof {
            assert(self@ =~= old(self)@.update(
                i as int,
                NodeView { grad: v, ..old(self)@[i as int] },
            ));
            assert forall|j: int| 0 <= j < self@.len() implies #[trigger] node_wf(self@, j) by {
                assert(node_wf(old(self)@, j));
            }
        }
    }

    /// Resets the gradient cell of node `i` to zero.  The value cell and the
    /// graph structure are untouched; gradients are never reset implicitly.
    pub fn zero_grad(&mut self, i: usize)
        requires
            old(self).wf(),
            i < old(self)@.len(),
        ensures
            final(self).wf(),
            final(self)@ == old(self)@.update(
                i as int,
                (NodeView { grad: SCALAR_ZERO, ..old(self)@[i as int] }),
            ),
    {
        self.set_grad(i, SCALAR_ZERO);
    }

    /// Creates `-a` as the derived composite `a * (-1)`: a fresh leaf
    /// carrying the negated unit pattern, then a multiplication node.
    pub fn neg(&mut self, a: usize) -> (i: usize)
        requires
            old(self).wf(),
            a < old(self)@.len(),
        ensures
            final(self).wf(),
            final(self)@.len() == old(self)@.len() + 2,
            forall|j: int| 0 <= j < old(self)@.len() ==> final(self)@[j] == old(self)@[j],
            ({
                let l = old(self)@.len() as int;
                let s = final(self)@;
                &&& op_of(s, l) == Op::Leaf
                &&& val_of(s, l) == SCALAR_NEG_ONE
                &&& grad_of(s, l) == SCALAR_ZERO
                &&& fresh_node(s, l + 1, Op::Mul)
                &&& arity_of(s, l + 1) == 2
                &&& arg_of(s, l + 1, 0) == a
                &&& arg_of(s, l + 1, 1) == l
            }),
            i == old(self)@.len() + 1,
    {
        let m = self.leaf(SCALAR_NEG_ONE);
        self.mul(a, m)
    }

    /// Creates `a - b` as the derived composite `a + b * (-1)`.
    pub fn sub(&mut self, a: usize, b: usize) -> (i: usize)
        requires
            old(self).wf(),
            a < old(self)@.len(),
            b < old(self)@.len(),
        ensures
            final(self).wf(),
            final(self)@.len() == old(self)@.len() + 3,
            forall|j: int| 0 <= j < old(self)@.len() ==> final(self)@[j] == old(self)@[j],
            ({
                let l = old(self)@.len() as int;
                let s = final(self)@;
                &&& op_of(s, l) == Op::Leaf
                &&& val_of(s, l) == SCALAR_NEG_ONE
                &&& grad_of(s, l) == SCALAR_ZERO
                &&& fresh_node(s, l + 1, Op::Mul)
                &&& arity_of(s, l + 1) == 2
                &&& arg_of(s, l + 1, 0) == b
                &&& arg_of(s, l + 1, 1) == l
                &&& fresh_node(s, l + 2, Op::Add)
                &&& arity_of(s, l + 2) == 2
                &&& arg_of(s, l + 2, 0) == a
                &&& arg_of(s, l + 2, 1) == l + 1
            }),
            i == old(self)@.len() + 2,
    {
        let m = self.leaf(SCALAR_NEG_ONE);
        let nb = self.mul(b, m);
        self.add(a, nb)
    }

    /// Creates `a / b` as the derived composite `a * reciprocal(b)`.
    pub fn div(&mut self, a: usize, b: usize) -> (i: usize)
        requires
            old(self).wf(),
            a < old(self)@.len(),
            b < old(self)@.len(),
        ensures
            final(self).wf(),
            final(self)@.len() == old(self)@.len() + 2,
            forall|j: int| 0 <= j < old(self)@.len() ==> final(self)@[j] == old(self)@[j],
            ({
                let l = old(self)@.len() as int;
                let s = final(self)@;
                &&& fresh_node(s, l, Op::Recip)
                &&& arity_of(s, l) == 1
                &&& arg_of(s, l, 0) == b
                &&& fresh_node(s, l + 1, Op::Mul)
                &&& arity_of(s, l + 1) == 2
                &&& arg_of(s, l + 1, 0) == a
                &&& arg_of(s, l + 1, 1) == l
            }),
            i == old(self)@.len() + 1,
    {
        let rb = self.recip(b);
        self.mul(a, rb)
    }

    /// Copies a vector of node indices; used to give every softmax output
    /// its own copy of the shared operand list.
    fn copy_ids(xs: &Vec<usize>) -> (v: Vec<usize>)
        ensures
            v@ == xs@,
    {
        let mut v: Vec<usize> = Vec::new();
        let mut j: usize = 0;
        while j < xs.len()
            invariant
                j <= xs@.len(),
                v@ == xs@.subrange(0, j as int),
            decreases xs@.len() - j,
        {
            v.push(xs[j]);
            proof {
                assert(v@ =~= xs@.subrange(0, j + 1 as int));
            }
            j += 1;
        }
        proof {
            assert(v@ =~= xs@);
        }
        v
    }

    /// Creates the joint softmax of the nodes in `xs`: one output node per
    /// input, each listing the whole input vector as its operands, so that
    /// every output depends on every input.  Returns the output indices in
    /// order.  The embedding application evaluates the outputs with the
    /// numerically stabilized formula (subtract the maximum before
    /// exponentiating), and its backward rule applies the full
    /// Jacobian-vector product.
    pub fn softmax(&mut self, xs: &Vec<usize>) -> (r: Vec<usize>)
        requires
            old(self).wf(),
            xs@.len() >= 1,
            forall|k: int| 0 <= k < xs@.len() ==> (xs@[k] as int) < old(self)@.len(),
            old(self)@.len() + xs@.len() <= usize::MAX,
        ensures
            final(self).wf(),
            final(self)@.len() == old(self)@.len() + xs@.len(),
            forall|j: int| 0 <= j < old(self)@.len() ==> final(self)@[j] == old(self)@[j],
            forall|k: int|
                0 <= k < xs@.len() ==> #[trigger] final(self)@[old(self)@.len() + k] == (NodeView {
                    op: Op::Softmax(k as usize),
                    args: xs@,
                    val: SCALAR_ZERO,
                    grad: SCALAR_ZERO,
                }),
            r@.len() == xs@.len(),
            forall|k: int| 0 <= k < r@.len() ==> (r@[k] as int) == old(self)@.len() + k,
    {
        let l = self.len();
        let n = xs.len();
        let mut r: Vec<usize> = Vec::new();
        let mut k: usize = 0;
        while k < n
            invariant
                self.wf(),
                n == xs@.len(),
                l == old(self)@.len(),
                l + n <= usize::MAX,
                k <= n,
                forall|j: int| 0 <= j < xs@.len() ==> (xs@[j] as int) < old(self)@.len(),
                self@.len() == l + k,
                forall|j: int| 0 <= j < old(self)@.len() ==> self@[j] == old(self)@[j],
                forall|j: int|
                    0 <= j < k ==> #[trigger] self@[l + j] == (NodeView {
                        op: Op::Softmax(j as usize),
                        args: xs@,
                        val: SCALAR_ZERO,
                        grad: SCALAR_ZERO,
                    }),
                r@.len() == k,
                forall|j: int| 0 <= j < r@.len() ==> (r@[j] as int) == l + j,
            decreases n - k,
        {
            let v = Self::copy_ids(xs);
            let i = self.push_node(Op::Softmax(k), v);
            r.push(i);
            k += 1;
        }
        r
    }

    /// Creates the running sum of the nodes in `xs`: a zero leaf, then one
    /// addition node per element, each chaining the previous partial sum
    /// with the next element.  Returns the final partial-sum node (the zero
    /// leaf itself when `xs` is empty).
    pub fn sum(&mut self, xs: &Vec<usize>) -> (i: usize)
        requires
            old(self).wf(),
            forall|k: int| 0 <= k < xs@.len() ==> (xs@[k] as int) < old(self)@.len(),
            old(self)@.len() + xs@.len() + 1 <= usize::MAX,
        ensures
            final(self).wf(),
            final(self)@.len() == old(self)@.len() + xs@.len() + 1,
            forall|j: int| 0 <= j < old(self)@.len() ==> final(self)@[j] == old(self)@[j],
            ({
                let l = old(self)@.len() as int;
                let s = final(self)@;
                &&& op_of(s, l) == Op::Leaf
                &&& val_of(s, l) == SCALAR_ZERO
                &&& grad_of(s, l) == SCALAR_ZERO
                &&& forall|k: int|
                    0 <= k < xs@.len() ==> #[trigger] fresh_node(s, l + 1 + k, Op::Add)
                        && arity_of(s, l + 1 + k) == 2 && arg_of(s, l + 1 + k, 0) == l + k
                        && arg_of(s, l + 1 + k, 1) == xs@[k]
            }),
            i == old(self)@.len() + xs@.len(),
    {
        let mut acc = self.leaf(SCALAR_ZERO);
        let n = xs.len();
        let mut k: usize = 0;
        while k < n
            invariant
                self.wf(),
                n == xs@.len(),
                old(self)@.len() + n + 1 <= usize::MAX,
                k <= n,
                forall|j: int| 0 <= j < xs@.len() ==> (xs@[j] as int) < old(self)@.len(),
                self@.len() == old(self)@.len() + k + 1,
                acc == old(self)@.len() + k,
                forall|j: int| 0 <= j < old(self)@.len() ==> self@[j] == old(self)@[j],
                op_of(self@, old(self)@.len() as int) == Op::Leaf,
                val_of(self@, old(self)@.len() as int) == SCALAR_ZERO,
                grad_of(self@, old(self)@.len() as int) == SCALAR_ZERO,
                forall|j: int|
                    0 <= j < k ==> #[trigger] fresh_node(self@, old(self)@.len() + 1 + j, Op::Add)
                        && arity_of(self@, old(self)@.len() + 1 + j) == 2
                        && arg_of(self@, old(self)@.len() + 1 + j, 0) == old(self)@.len() + j
                        && arg_of(self@, old(self)@.len() + 1 + j, 1) == xs@[j],
            decreases n - k,
        {
            let ghost prev = self@;
            acc = self.add(acc, xs[k]);
            proof {
                assert forall|j: int|
                    0 <= j < k + 1 implies #[trigger] fresh_node(
                        self@,
                        old(self)@.len() + 1 + j,
                        Op::Add,
                    ) && arity_of(self@, old(self)@.len() + 1 + j) == 2 && arg_of(
                        self@,
                        old(self)@.len() + 1 + j,
                        0,
                    ) == old(self)@.len() + j && arg_of(self@, old(self)@.len() + 1 + j, 1)
                        == xs@[j] by {
                    if j < k {
                        assert(fresh_node(prev, old(self)@.len() + 1 + j, Op::Add));
                        assert(self@[old(self)@.len() + 1 + j] == prev[old(self)@.len() + 1 + j]);
                    }
                }
            }
            k += 1;
        }
        acc
    }

    /// The activation dispatcher of the batch helpers: maps an
    /// activation-kind selector to the corresponding elementwise primitive.
    /// `Linear` is the identity and creates no node; `Tanh` and `Relu`
    /// create one elementwise node per input; `Softmax` creates the joint
    /// softmax of the whole vector.
    pub fn activate(&mut self, xs: &Vec<usize>, act: &Activations) -> (r: Vec<usize>)
        requires
            old(self).wf(),
            forall|k: int| 0 <= k < xs@.len() ==> (xs@[k] as int) < old(self)@.len(),
            old(self)@.len() + xs@.len() <= usize::MAX,
            act == Activations::Softmax ==> xs@.len() >= 1,
        ensures
            final(self).wf(),
            forall|j: int| 0 <= j < old(self)@.len() ==> final(self)@[j] == old(self)@[j],
            r@.len() == xs@.len(),
            act == Activations::Linear ==> final(self)@ == old(self)@ && r@ == xs@,
            act != Activations::Linear ==> ({
                let l = old(self)@.len() as int;
                let s = final(self)@;
                &&& s.len() == l + xs@.len()
                &&& forall|k: int| 0 <= k < r@.len() ==> (r@[k] as int) == l + k
                &&& forall|k: int|
                    #![trigger s.index(l + k)]
                    0 <= k < xs@.len() ==> arity_of(s, l + k) == ({
                        if act == Activations::Softmax {
                            xs@.len()
                        } else {
                            1nat
                        }
                    }) && fresh_node(
                        s,
                        l + k,
                        ({
                            match act {
                                Activations::Relu => Op::Relu,
                                Activations::Tanh => Op::Tanh,
                                _ => Op::Softmax(k as usize),
                            }
                        }),
                    ) && arg_of(s, l + k, ({
                        if act == Activations::Softmax {
                            k
                        } else {
                            0
                        }
                    })) == xs@[k]
            }),
    {
        match *act {
            Activations::Linear => Self::copy_ids(xs),
            Activations::Softmax => {
                let r = self.softmax(xs);
                proof {
                    assert forall|k: int|
                        #![trigger self@.index(old(self)@.len() + k)]
                        0 <= k < xs@.len() implies arity_of(self@, old(self)@.len() + k)
                        == xs@.len() && fresh_node(self@, old(self)@.len() + k, Op::Softmax(k as usize))
                        && arg_of(self@, old(self)@.len() + k, k) == xs@[k] && self@[old(self)@.len()
                        + k].args == xs@ by {}
                }
                r
            },
            Activations::Relu => {
                let n = xs.len();
                let l = self.len();
                let mut r: Vec<usize> = Vec::new();
                let mut k: usize = 0;
                while k < n
                    invariant
                        self.wf(),
                        n == xs@.len(),
                        l == old(self)@.len(),
                        l + n <= usize::MAX,
                        k <= n,
                        forall|j: int| 0 <= j < xs@.len() ==> (xs@[j] as int) < old(self)@.len(),
                        self@.len() == l + k,
                        forall|j: int| 0 <= j < old(self)@.len() ==> self@[j] == old(self)@[j],
                        r@.len() == k,
                        forall|j: int| 0 <= j < r@.len() ==> (r@[j] as int) == l + j,
                        forall|j: int|
                            #![trigger self@[l + j]]
                            0 <= j < k ==> arity_of(self@, l + j) == 1 && fresh_node(
                                self@,
                                l + j,
                                Op::Relu,
                            ) && arg_of(self@, l + j, 0) == xs@[j],
                    decreases n - k,
                {
                    let ghost prev = self@;
                    let i = self.relu(xs[k]);
                    r.push(i);
                    proof {
                        assert forall|j: int|
                            #![trigger self@[l + j]]
                            0 <= j < k + 1 implies arity_of(self@, l + j) == 1 && fresh_node(
                            self@,
                            l + j,
                            Op::Relu,
                        ) && arg_of(self@, l + j, 0) == xs@[j] by {
                            if j < k {
                                assert(self@[l + j] == prev[l + j]);
                            }
                        }
                    }
                    k += 1;
                }
                r
            },
            Activations::Tanh => {
                let n = xs.len();
                let l = self.len();
                let mut r: Vec<usize> = Vec::new();
                let mut k: usize = 0;
                while k < n
                    invariant
                        self.wf(),
                        n == xs@.len(),
                        l == old(self)@.len(),
                        l + n <= usize::MAX,
                        k <= n,
                        forall|j: int| 0 <= j < xs@.len() ==> (xs@[j] as int) < old(self)@.len(),
                        self@.len() == l + k,
                        forall|j: int| 0 <= j < old(self)@.len() ==> self@[j] == old(self)@[j],
                        r@.len() == k,
                        forall|j: int| 0 <= j < r@.len() ==> (r@[j] as int) == l + j,
                        forall|j: int|
                            #![trigger self@[l + j]]
                            0 <= j < k ==> arity_of(self@, l + j) == 1 && fresh_node(
                                self@,
                                l + j,
                                Op::Tanh,
                            ) && arg_of(self@, l + j, 0) == xs@[j],
                    decreases n - k,
                {
                    let ghost prev = self@;
                    let i = self.tanh(xs[k]);
                    r.push(i);
                    proof {
                        assert forall|j: int|
                            #![trigger self@[l + j]]
                            0 <= j < k + 1 implies arity_of(self@, l + j) == 1 && fresh_node(
                            self@,
                            l + j,
                            Op::Tanh,
                        ) && arg_of(self@, l + j, 0) == xs@[j] by {
                            if j < k {
                                assert(self@[l + j] == prev[l + j]);
                            }
                        }
                    }
                    k += 1;
                }
                r
            },
        }
    }
}

/// Every operand list of a real arena is machine-sized: it is stored in a
/// vector.
pub proof fn lemma_args_sized(g: &Graph)
    ensures
        forall|i: int| 0 <= i < g@.len() ==> (#[trigger] g@[i]).args.len() <= usize::MAX,
{
    broadcast use vstd::std_specs::vec::axiom_spec_len;

    assert forall|i: int| 0 <= i < g@.len() implies (#[trigger] g@[i]).args.len()
        <= usize::MAX by {
        assert(g@[i].args == g.args@[i]@);
        assert(vstd::std_specs::vec::spec_vec_len(&g.args@[i]) == g.args@[i]@.len());
    }
}

} // verus!
