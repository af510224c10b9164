//! Numeric behaviour of the engine under the reference scalar driver.
//!
//! The engine stores scalars as opaque 32-bit patterns and schedules all
//! work; the driver below interprets the patterns as IEEE-754 single
//! precision, evaluates forward values in index order, and replays the
//! backward tape, accumulating each scheduled contribution with the local
//! gradient rule of the parent's operation.

use micrograd::engine::{Activations, Graph, Op};

fn fval(g: &Graph, i: usize) -> f32 {
    f32::from_bits(g.data(i))
}

fn fgrad(g: &Graph, i: usize) -> f32 {
    f32::from_bits(g.grad(i))
}

fn leaf(g: &mut Graph, v: f32) -> usize {
    g.leaf(v.to_bits())
}

fn softmax_of_operands(g: &Graph, p: usize) -> Vec<f32> {
    let n = g.arity(p);
    let mut xs = Vec::new();
    for k in 0..n {
        xs.push(fval(g, g.operand(p, k)));
    }
    let mut m = xs[0];
    for &x in &xs {
        if x > m {
            m = x;
        }
    }
    let es: Vec<f32> = xs.iter().map(|x| (x - m).exp()).collect();
    let s: f32 = es.iter().sum();
    es.iter().map(|e| e / s).collect()
}

/// Evaluates every node from `from` on, in index order (which is already a
/// topological order), writing the forward value of each non-leaf node.
fn eval(g: &mut Graph, from: usize) {
    for i in from..g.len() {
        let v = match g.op(i) {
            Op::Leaf => continue,
            Op::Add => fval(g, g.operand(i, 0)) + fval(g, g.operand(i, 1)),
            Op::Mul => fval(g, g.operand(i, 0)) * fval(g, g.operand(i, 1)),
            Op::Pow => fval(g, g.operand(i, 0)).powf(fval(g, g.operand(i, 1))),
            Op::Recip => 1.0 / fval(g, g.operand(i, 0)),
            Op::Exp => fval(g, g.operand(i, 0)).exp(),
            Op::Ln => fval(g, g.operand(i, 0)).ln(),
            Op::Tanh => fval(g, g.operand(i, 0)).tanh(),
            Op::Relu => fval(g, g.operand(i, 0)).max(0.0),
            Op::Softmax(k) => softmax_of_operands(g, i)[k],
        };
        g.set_data(i, v.to_bits());
    }
}

/// Runs a backward pass: asks the engine for the replay tape, then
/// accumulates every scheduled contribution into its target's gradient.
fn run_backward(g: &mut Graph, t: usize) {
    let tape = g.backward(t);
    for c in tape {
        let p = c.parent;
        let s = c.slot;
        let gout = fgrad(g, p);
        let y = fval(g, p);
        let tgt = g.operand(p, s);
        let delta = match g.op(p) {
            Op::Leaf => unreachable!("leaves have no operand slots"),
            Op::Add => gout,
            Op::Mul => fval(g, g.operand(p, 1 - s)) * gout,
            Op::Pow => {
                let base = fval(g, g.operand(p, 0));
                let e = fval(g, g.operand(p, 1));
                if s == 0 {
                    e * base.powf(e - 1.0) * gout
                } else {
                    y * base.ln() * gout
                }
            }
            Op::Recip => {
                let a = fval(g, g.operand(p, 0));
                -(1.0 / a.powf(2.0)) * gout
            }
            Op::Exp => y * gout,
            Op::Ln => gout / fval(g, g.operand(p, 0)),
            Op::Tanh => {
                let th = fval(g, g.operand(p, 0)).tanh();
                (1.0 - th * th) * gout
            }
            Op::Relu => {
                if y > 0.0 {
                    gout
                } else {
                    0.0
                }
            }
            Op::Softmax(i) => {
                let ps = softmax_of_operands(g, p);
                let pi = ps[i];
                let pj = ps[s];
                (if i == s { pi * (1.0 - pi) } else { -pi * pj }) * gout
            }
        };
        let acc = fgrad(g, tgt) + delta;
        g.set_grad(tgt, acc.to_bits());
    }
}

fn zero_all(g: &mut Graph) {
    for i in 0..g.len() {
        g.zero_grad(i);
    }
}

#[test]
fn test_usage() {
    let g = &mut Graph::new();
    let a = leaf(g, -4.0);
    let b = leaf(g, 2.0);

    let mut c = g.add(a, b);
    let ab = g.mul(a, b);
    let three = leaf(g, 3.0);
    let b3 = g.pow(b, three);
    let mut d = g.add(ab, b3);

    let two = leaf(g, 2.0);
    let one = leaf(g, 1.0);
    let tc = g.mul(two, c);
    c = g.add(tc, one);
    let one2 = leaf(g, 1.0);
    let two2 = leaf(g, 2.0);
    let tc2 = g.mul(two2, c);
    let s1 = g.add(one2, tc2);
    let na = g.neg(a);
    c = g.add(s1, na);

    let two3 = leaf(g, 2.0);
    let d2 = g.mul(d, two3);
    let dd = g.add(d, d2);
    let ba = g.add(b, a);
    let rba = g.relu(ba);
    d = g.add(dd, rba);
    let three2 = leaf(g, 3.0);
    let d3 = g.mul(three2, d);
    let dd2 = g.add(d, d3);
    let bma = g.sub(b, a);
    let rbma = g.relu(bma);
    d = g.add(dd2, rbma);

    let e = g.sub(c, d);
    let two4 = leaf(g, 2.0);
    let f = g.pow(e, two4);
    let two5 = leaf(g, 2.0);
    let mut gg = g.div(f, two5);
    let ten = leaf(g, 10.0);
    let tf = g.div(ten, f);
    gg = g.add(gg, tf);

    eval(g, 0);
    assert_eq!(format!("{:.4}", fval(g, gg)), "24.7041");
    run_backward(g, gg);
    assert_eq!(format!("{:.4}", fgrad(g, a)), "138.8338");
    assert_eq!(format!("{:.4}", fgrad(g, b)), "645.5773");
}

/// Builds a one-operation graph, evaluates it, and returns the engine's
/// gradients of the operand leaves after one backward pass, together with
/// the forward value.
fn grads_of<F: Fn(&mut Graph, &[usize]) -> usize>(inputs: &[f32], build: F) -> (f32, Vec<f32>) {
    let g = &mut Graph::new();
    let ids: Vec<usize> = inputs.iter().map(|&v| leaf(g, v)).collect();
    let t = build(g, &ids);
    eval(g, 0);
    let y = fval(g, t);
    run_backward(g, t);
    (y, ids.iter().map(|&i| fgrad(g, i)).collect())
}

/// The forward value of the same one-operation graph at shifted inputs,
/// for the central finite-difference estimate.
fn value_at<F: Fn(&mut Graph, &[usize]) -> usize>(inputs: &[f32], build: &F) -> f32 {
    let g = &mut Graph::new();
    let ids: Vec<usize> = inputs.iter().map(|&v| leaf(g, v)).collect();
    let t = build(g, ids.as_slice());
    eval(g, 0);
    fval(g, t)
}

/// Central finite-difference check of every operand gradient of one
/// primitive operation.
fn check_analytic<F: Fn(&mut Graph, &[usize]) -> usize>(inputs: &[f32], build: F) {
    let eps = 1e-4f32;
    let (_, grads) = grads_of(inputs, &build);
    for j in 0..inputs.len() {
        let mut hi = inputs.to_vec();
        let mut lo = inputs.to_vec();
        hi[j] += eps;
        lo[j] -= eps;
        let est = (value_at(&hi, &build) - value_at(&lo, &build)) / (2.0 * eps);
        assert!(
            (grads[j] - est).abs() < 1e-3,
            "operand {j}: engine gradient {} vs estimate {est}",
            grads[j]
        );
    }
}

#[test]
fn analytic_derivative_add() {
    check_analytic(&[0.7, -1.3], |g, ids| g.add(ids[0], ids[1]));
}

#[test]
fn analytic_derivative_mul() {
    check_analytic(&[0.6, 0.8], |g, ids| g.mul(ids[0], ids[1]));
}

#[test]
fn analytic_derivative_pow_both_sides() {
    check_analytic(&[1.2, 2.5], |g, ids| g.pow(ids[0], ids[1]));
}

#[test]
fn analytic_derivative_recip() {
    check_analytic(&[1.3], |g, ids| g.recip(ids[0]));
}

#[test]
fn analytic_derivative_exp() {
    check_analytic(&[0.5], |g, ids| g.exp(ids[0]));
}

#[test]
fn analytic_derivative_ln() {
    check_analytic(&[1.7], |g, ids| g.ln(ids[0]));
}

#[test]
fn analytic_derivative_tanh() {
    check_analytic(&[0.3], |g, ids| g.tanh(ids[0]));
}

#[test]
fn analytic_derivative_relu() {
    check_analytic(&[0.7], |g, ids| g.relu(ids[0]));
    check_analytic(&[-0.7], |g, ids| g.relu(ids[0]));
}

#[test]
fn analytic_derivative_softmax() {
    // One output of the joint softmax, derived with respect to each input.
    check_analytic(&[0.3, -0.2, 0.5], |g, ids| g.softmax(&ids.to_vec())[0]);
    check_analytic(&[0.3, -0.2, 0.5], |g, ids| g.softmax(&ids.to_vec())[2]);
}

#[test]
fn exact_rule_values() {
    // d(a+b) = (1, 1); d(a*b) = (b, a).
    let (_, gr) = grads_of(&[3.0, 4.0], |g, ids| g.add(ids[0], ids[1]));
    assert_eq!(gr, vec![1.0, 1.0]);
    let (_, gr) = grads_of(&[3.0, 4.0], |g, ids| g.mul(ids[0], ids[1]));
    assert_eq!(gr, vec![4.0, 3.0]);
    // The rectifier passes the gradient only where the output is positive.
    let (y, gr) = grads_of(&[-2.0], |g, ids| g.relu(ids[0]));
    assert_eq!(y, 0.0);
    assert_eq!(gr, vec![0.0]);
    // exponential: dy/dx = y.
    let (y, gr) = grads_of(&[0.5], |g, ids| g.exp(ids[0]));
    assert_eq!(gr, vec![y]);
    // reciprocal at 2: -1/4.
    let (_, gr) = grads_of(&[2.0], |g, ids| g.recip(ids[0]));
    assert_eq!(gr, vec![-0.25]);
}

#[test]
fn diamond_sharing_sums_both_paths() {
    // c = a * b, d = a + c: grad(a) must be 1 + b, never just one path.
    let g = &mut Graph::new();
    let a = leaf(g, 3.0);
    let b = leaf(g, 4.0);
    let c = g.mul(a, b);
    let d = g.add(a, c);
    eval(g, 0);
    run_backward(g, d);
    assert_eq!(fgrad(g, a), 1.0 + 4.0);
    assert_eq!(fgrad(g, b), 3.0);
}

#[test]
fn accumulation_doubles_without_reset() {
    let g = &mut Graph::new();
    let a = leaf(g, -4.0);
    let b = leaf(g, 2.0);
    let c = g.mul(a, b);
    let d = g.add(a, c);
    let e = g.tanh(d);
    eval(g, 0);
    run_backward(g, e);
    let ga1 = fgrad(g, a);
    let gb1 = fgrad(g, b);
    run_backward(g, e);
    assert_eq!(fgrad(g, a), 2.0 * ga1);
    assert_eq!(fgrad(g, b), 2.0 * gb1);
}

#[test]
fn reset_then_backward_reproduces_gradients() {
    let g = &mut Graph::new();
    let a = leaf(g, -4.0);
    let b = leaf(g, 2.0);
    let c = g.mul(a, b);
    let d = g.add(a, c);
    let e = g.tanh(d);
    eval(g, 0);
    run_backward(g, e);
    let ga1 = fgrad(g, a);
    let gb1 = fgrad(g, b);
    zero_all(g);
    run_backward(g, e);
    assert_eq!(fgrad(g, a), ga1);
    assert_eq!(fgrad(g, b), gb1);
}

#[test]
fn softmax_jacobian_rows_sum_to_zero() {
    // A uniform upstream gradient of one into every softmax output makes
    // every input gradient the sum of one Jacobian column, which is zero.
    let g = &mut Graph::new();
    let xs = vec![leaf(g, 0.3), leaf(g, -1.2), leaf(g, 0.8), leaf(g, 2.0)];
    let outs = g.softmax(&xs);
    let t = g.sum(&outs);
    eval(g, 0);
    run_backward(g, t);
    for &x in &xs {
        assert!(fgrad(g, x).abs() < 1e-6, "input gradient {}", fgrad(g, x));
    }
}

#[test]
fn matmul_values() {
    let g = &mut Graph::new();
    let rows = vec![
        vec![leaf(g, 1.0), leaf(g, 2.0)],
        vec![leaf(g, 3.0), leaf(g, 4.0)],
    ];
    let b = vec![leaf(g, 5.0), leaf(g, 6.0)];
    let r = g.matmul(&rows, &b).expect("shapes match");
    eval(g, 0);
    assert_eq!(fval(g, r[0]), 17.0);
    assert_eq!(fval(g, r[1]), 39.0);
}

#[test]
fn matmul_add_values() {
    let g = &mut Graph::new();
    let rows = vec![vec![leaf(g, 1.0), leaf(g, 2.0)]];
    let b = vec![leaf(g, 5.0), leaf(g, 6.0)];
    let c = vec![leaf(g, 0.5)];
    let r = g.matmul_add(&rows, &b, &c).expect("shapes match");
    eval(g, 0);
    assert_eq!(fval(g, r[0]), 17.5);
}

#[test]
fn matadd_values() {
    let g = &mut Graph::new();
    let x = vec![vec![leaf(g, 1.0), leaf(g, 2.0)]];
    let y = vec![vec![leaf(g, 10.0), leaf(g, 20.0)]];
    let r = g.matadd(&x, &y).expect("shapes match");
    eval(g, 0);
    assert_eq!(fval(g, r[0][0]), 11.0);
    assert_eq!(fval(g, r[0][1]), 22.0);
}

#[test]
fn sum_and_activate_values() {
    let g = &mut Graph::new();
    let xs = vec![leaf(g, 1.0), leaf(g, 2.0), leaf(g, 3.5)];
    let s = g.sum(&xs);
    let th = g.activate(&xs, &Activations::Tanh);
    let neg_in = leaf(g, -1.0);
    let re = g.activate(&vec![neg_in, xs[2]], &Activations::Relu);
    let so = g.activate(&xs, &Activations::Softmax);
    eval(g, 0);
    assert_eq!(fval(g, s), 6.5);
    assert!((fval(g, th[1]) - 2.0f32.tanh()).abs() < 1e-6);
    assert_eq!(fval(g, re[0]), 0.0);
    assert_eq!(fval(g, re[1]), 3.5);
    let total: f32 = so.iter().map(|&o| fval(g, o)).sum();
    assert!((total - 1.0).abs() < 1e-6);
}

#[test]
fn adjust_step_on_parameters() {
    // A plain gradient-descent update: value += step * gradient, done by
    // the driver through the value cell.
    let g = &mut Graph::new();
    let a = leaf(g, 3.0);
    let b = leaf(g, 4.0);
    let c = g.mul(a, b);
    eval(g, 0);
    run_backward(g, c);
    let step = -0.01f32;
    for &p in &[a, b] {
        let updated = fval(g, p) + step * fgrad(g, p);
        g.set_data(p, updated.to_bits());
    }
    assert_eq!(fval(g, a), 3.0 + step * 4.0);
    assert_eq!(fval(g, b), 4.0 + step * 3.0);
}
