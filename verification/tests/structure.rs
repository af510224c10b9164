//! Structural behaviour of the graph engine: wiring of the builders, the
//! topological sorter's order, the backward tape's contents, and the
//! shape-mismatch failures.  These tests never interpret the scalar cells.

use micrograd::backward::Contribution;
use micrograd::engine::{Activations, Graph, Op, SCALAR_NEG_ONE, SCALAR_ONE, SCALAR_ZERO};
use micrograd::mat::MatError;

fn diamond() -> (Graph, usize, usize, usize, usize) {
    // a and b are leaves; c = a * b; d = a + c reaches a over two paths.
    let mut g = Graph::new();
    let a = g.leaf(5);
    let b = g.leaf(7);
    let c = g.mul(a, b);
    let d = g.add(a, c);
    (g, a, b, c, d)
}

#[test]
fn leaf_cells_and_len() {
    let mut g = Graph::new();
    assert_eq!(g.len(), 0);
    let a = g.leaf(42);
    assert_eq!(g.len(), 1);
    assert_eq!(a, 0);
    assert_eq!(g.op(a), Op::Leaf);
    assert_eq!(g.arity(a), 0);
    assert_eq!(g.data(a), 42);
    assert_eq!(g.grad(a), SCALAR_ZERO);
}

#[test]
fn builder_wiring() {
    let mut g = Graph::new();
    let a = g.leaf(1);
    let b = g.leaf(2);
    let m = g.mul(a, b);
    assert_eq!(g.op(m), Op::Mul);
    assert_eq!(g.arity(m), 2);
    assert_eq!(g.operand(m, 0), a);
    assert_eq!(g.operand(m, 1), b);
    let p = g.pow(a, b);
    assert_eq!(g.op(p), Op::Pow);
    let r = g.recip(a);
    assert_eq!(g.op(r), Op::Recip);
    assert_eq!(g.operand(r, 0), a);
    let e = g.exp(a);
    assert_eq!(g.op(e), Op::Exp);
    let l = g.ln(a);
    assert_eq!(g.op(l), Op::Ln);
    let t = g.tanh(a);
    assert_eq!(g.op(t), Op::Tanh);
    let u = g.relu(a);
    assert_eq!(g.op(u), Op::Relu);
    for i in [m, p, r, e, l, t, u] {
        assert_eq!(g.data(i), SCALAR_ZERO);
        assert_eq!(g.grad(i), SCALAR_ZERO);
    }
}

#[test]
fn neg_sub_div_composites() {
    let mut g = Graph::new();
    let a = g.leaf(1);
    let b = g.leaf(2);
    // neg: a fresh leaf holding the negated unit, then a multiplication.
    let n = g.neg(a);
    assert_eq!(g.op(n), Op::Mul);
    let neg_one = g.operand(n, 1);
    assert_eq!(g.operand(n, 0), a);
    assert_eq!(g.op(neg_one), Op::Leaf);
    assert_eq!(g.data(neg_one), SCALAR_NEG_ONE);
    // sub: a + b * (-1).
    let s = g.sub(a, b);
    assert_eq!(g.op(s), Op::Add);
    assert_eq!(g.operand(s, 0), a);
    let bm = g.operand(s, 1);
    assert_eq!(g.op(bm), Op::Mul);
    assert_eq!(g.operand(bm, 0), b);
    assert_eq!(g.data(g.operand(bm, 1)), SCALAR_NEG_ONE);
    // div: a * reciprocal(b).
    let d = g.div(a, b);
    assert_eq!(g.op(d), Op::Mul);
    assert_eq!(g.operand(d, 0), a);
    let rb = g.operand(d, 1);
    assert_eq!(g.op(rb), Op::Recip);
    assert_eq!(g.operand(rb, 0), b);
}

#[test]
fn sum_wiring() {
    let mut g = Graph::new();
    let a = g.leaf(1);
    let b = g.leaf(2);
    let c = g.leaf(3);
    let s = g.sum(&vec![a, b, c]);
    // A zero leaf, then a left fold of additions.
    let z = 3;
    assert_eq!(g.op(z), Op::Leaf);
    assert_eq!(g.data(z), SCALAR_ZERO);
    assert_eq!(g.op(4), Op::Add);
    assert_eq!(g.operand(4, 0), z);
    assert_eq!(g.operand(4, 1), a);
    assert_eq!(g.op(5), Op::Add);
    assert_eq!(g.operand(5, 0), 4);
    assert_eq!(g.operand(5, 1), b);
    assert_eq!(g.op(6), Op::Add);
    assert_eq!(g.operand(6, 0), 5);
    assert_eq!(g.operand(6, 1), c);
    assert_eq!(s, 6);
}

#[test]
fn sum_of_nothing_is_zero_leaf() {
    let mut g = Graph::new();
    let s = g.sum(&vec![]);
    assert_eq!(g.op(s), Op::Leaf);
    assert_eq!(g.data(s), SCALAR_ZERO);
    assert_eq!(g.len(), 1);
}

#[test]
fn softmax_wiring() {
    let mut g = Graph::new();
    let a = g.leaf(1);
    let b = g.leaf(2);
    let c = g.leaf(3);
    let outs = g.softmax(&vec![a, b, c]);
    assert_eq!(outs, vec![3, 4, 5]);
    for (k, &o) in outs.iter().enumerate() {
        assert_eq!(g.op(o), Op::Softmax(k));
        assert_eq!(g.arity(o), 3);
        assert_eq!(g.operand(o, 0), a);
        assert_eq!(g.operand(o, 1), b);
        assert_eq!(g.operand(o, 2), c);
    }
}

#[test]
fn activate_dispatch() {
    let mut g = Graph::new();
    let a = g.leaf(1);
    let b = g.leaf(2);
    let xs = vec![a, b];
    let lin = g.activate(&xs, &Activations::Linear);
    assert_eq!(lin, xs);
    assert_eq!(g.len(), 2);
    let th = g.activate(&xs, &Activations::Tanh);
    assert_eq!(th, vec![2, 3]);
    assert_eq!(g.op(th[0]), Op::Tanh);
    assert_eq!(g.operand(th[1], 0), b);
    let re = g.activate(&xs, &Activations::Relu);
    assert_eq!(g.op(re[0]), Op::Relu);
    assert_eq!(g.operand(re[0], 0), a);
    let so = g.activate(&xs, &Activations::Softmax);
    assert_eq!(g.op(so[0]), Op::Softmax(0));
    assert_eq!(g.op(so[1]), Op::Softmax(1));
    assert_eq!(g.arity(so[0]), 2);
}

#[test]
fn topo_order_diamond() {
    let (g, a, b, c, d) = diamond();
    let order = g.build_topo(d);
    assert_eq!(order, vec![a, b, c, d]);
}

#[test]
fn topo_order_follows_operand_order() {
    let mut g = Graph::new();
    let x = g.leaf(1);
    let y = g.leaf(2);
    let n = g.add(y, x);
    let order = g.build_topo(n);
    // Operands are visited in declared order: y before x.
    assert_eq!(order, vec![y, x, n]);
}

#[test]
fn topo_positions_exceed_operand_positions() {
    let (g, _, _, _, d) = diamond();
    let order = g.build_topo(d);
    for (p, &node) in order.iter().enumerate() {
        for k in 0..g.arity(node) {
            let arg = g.operand(node, k);
            let q = order.iter().position(|&x| x == arg).expect("operand missing from order");
            assert!(q < p, "operand {arg} of {node} not placed earlier");
        }
    }
}

#[test]
fn topo_skips_unreachable() {
    let mut g = Graph::new();
    let a = g.leaf(1);
    let _stray = g.leaf(9);
    let b = g.leaf(2);
    let c = g.add(a, b);
    let order = g.build_topo(c);
    assert_eq!(order, vec![a, b, c]);
}

#[test]
fn backward_seeds_terminal_and_nothing_else() {
    let (mut g, a, b, c, d) = diamond();
    let _tape = g.backward(d);
    assert_eq!(g.grad(d), SCALAR_ONE);
    assert_eq!(g.grad(a), SCALAR_ZERO);
    assert_eq!(g.grad(b), SCALAR_ZERO);
    assert_eq!(g.grad(c), SCALAR_ZERO);
    assert_eq!(g.data(d), SCALAR_ZERO);
}

#[test]
fn backward_tape_diamond() {
    let (mut g, _a, _b, c, d) = diamond();
    let tape = g.backward(d);
    assert_eq!(
        tape,
        vec![
            Contribution { parent: d, slot: 0 },
            Contribution { parent: d, slot: 1 },
            Contribution { parent: c, slot: 0 },
            Contribution { parent: c, slot: 1 },
        ]
    );
}

#[test]
fn backward_tape_each_edge_once() {
    let (mut g, _a, _b, _c, d) = diamond();
    let tape = g.backward(d);
    for x in 0..tape.len() {
        for y in 0..tape.len() {
            if x != y {
                assert_ne!(tape[x], tape[y]);
            }
        }
    }
    // Every operand slot of every reachable node appears.
    let order = g.build_topo(d);
    let mut expected = 0;
    for &node in &order {
        expected += g.arity(node);
    }
    assert_eq!(tape.len(), expected);
}

#[test]
fn backward_tape_contributions_into_before_by() {
    let (mut g, _a, _b, _c, d) = diamond();
    let tape = g.backward(d);
    for x in 0..tape.len() {
        for y in 0..tape.len() {
            let target_y = g.operand(tape[y].parent, tape[y].slot);
            if target_y == tape[x].parent {
                assert!(y < x, "contribution into node scheduled after its own rule");
            }
        }
    }
}

#[test]
fn backward_on_leaf_terminal() {
    let mut g = Graph::new();
    let a = g.leaf(3);
    let tape = g.backward(a);
    assert!(tape.is_empty());
    assert_eq!(g.grad(a), SCALAR_ONE);
}

#[test]
fn backward_schedule_is_deterministic() {
    let (mut g1, _, _, _, d1) = diamond();
    let (mut g2, _, _, _, d2) = diamond();
    let o1 = g1.build_topo(d1);
    let o2 = g2.build_topo(d2);
    assert_eq!(o1, o2);
    let t1 = g1.backward(d1);
    let t2 = g2.backward(d2);
    assert_eq!(t1, t2);
    // Cell writes do not change the schedule.
    for i in 0..g1.len() {
        g1.zero_grad(i);
        g1.set_data(i, 77);
    }
    let t1_again = g1.backward(d1);
    assert_eq!(t1, t1_again);
}

#[test]
fn zero_grad_touches_only_the_gradient() {
    let mut g = Graph::new();
    let a = g.leaf(11);
    g.set_grad(a, 99);
    g.zero_grad(a);
    assert_eq!(g.grad(a), SCALAR_ZERO);
    assert_eq!(g.data(a), 11);
    assert_eq!(g.op(a), Op::Leaf);
}

#[test]
fn matmul_wiring_and_result() {
    let mut g = Graph::new();
    let a00 = g.leaf(1);
    let a01 = g.leaf(2);
    let a10 = g.leaf(3);
    let a11 = g.leaf(4);
    let b0 = g.leaf(5);
    let b1 = g.leaf(6);
    let rows = vec![vec![a00, a01], vec![a10, a11]];
    let r = g.matmul(&rows, &vec![b0, b1]).expect("shapes match");
    assert_eq!(r.len(), 2);
    for (i, &id) in r.iter().enumerate() {
        assert_eq!(g.op(id), Op::Add);
        let m0 = g.operand(id, 0);
        let m1 = g.operand(id, 1);
        assert_eq!(g.op(m0), Op::Mul);
        assert_eq!(g.op(m1), Op::Mul);
        assert_eq!(g.operand(m0, 0), rows[i][0]);
        assert_eq!(g.operand(m0, 1), b0);
        assert_eq!(g.operand(m1, 0), rows[i][1]);
        assert_eq!(g.operand(m1, 1), b1);
    }
}

#[test]
fn matmul_rejects_ragged_rows() {
    let mut g = Graph::new();
    let a = g.leaf(1);
    let b = g.leaf(2);
    let before = g.len();
    let r = g.matmul(&vec![vec![a, b], vec![a]], &vec![a, b]);
    assert_eq!(r, Err(MatError::SizeMismatch));
    assert_eq!(g.len(), before, "a failed call must create no node");
}

#[test]
fn matadd_wiring_and_mismatch() {
    let mut g = Graph::new();
    let a = g.leaf(1);
    let b = g.leaf(2);
    let c = g.leaf(3);
    let d = g.leaf(4);
    let r = g
        .matadd(&vec![vec![a, b], vec![c, d]], &vec![vec![d, c], vec![b, a]])
        .expect("shapes match");
    assert_eq!(r.len(), 2);
    assert_eq!(g.op(r[0][0]), Op::Add);
    assert_eq!(g.operand(r[0][0], 0), a);
    assert_eq!(g.operand(r[0][0], 1), d);
    assert_eq!(g.operand(r[1][1], 0), d);
    assert_eq!(g.operand(r[1][1], 1), a);
    let before = g.len();
    assert_eq!(g.matadd(&vec![vec![a]], &vec![vec![a, b]]), Err(MatError::SizeMismatch));
    assert_eq!(g.matadd(&vec![vec![a]], &vec![vec![a], vec![b]]), Err(MatError::SizeMismatch));
    assert_eq!(g.len(), before);
}

#[test]
fn matmul_add_wiring_and_mismatch() {
    let mut g = Graph::new();
    let a0 = g.leaf(1);
    let a1 = g.leaf(2);
    let b0 = g.leaf(3);
    let b1 = g.leaf(4);
    let c0 = g.leaf(5);
    let r = g.matmul_add(&vec![vec![a0, a1]], &vec![b0, b1], &vec![c0]).expect("shapes match");
    assert_eq!(r.len(), 1);
    assert_eq!(g.op(r[0]), Op::Add);
    let dot = g.operand(r[0], 0);
    assert_eq!(g.operand(r[0], 1), c0);
    assert_eq!(g.op(dot), Op::Add);
    assert_eq!(g.op(g.operand(dot, 0)), Op::Mul);
    let before = g.len();
    assert_eq!(
        g.matmul_add(&vec![vec![a0, a1]], &vec![b0, b1], &vec![c0, c0]),
        Err(MatError::SizeMismatch)
    );
    assert_eq!(
        g.matmul_add(&vec![vec![a0]], &vec![b0, b1], &vec![c0]),
        Err(MatError::SizeMismatch)
    );
    assert_eq!(g.len(), before);
}
