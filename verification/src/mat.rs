//! Batch helpers layered on the primitives: elementwise matrix addition,
//! matrix–vector multiplication, and matrix–vector multiplication with bias
//! addition.  A matrix is a grid of node indices; each helper wires the
//! corresponding scalar nodes into the arena.
//!
//! These are the only operations with a fixed-size shape contract, so they
//! are the one place the engine can be handed mismatched sizes at run time.
//! A mismatch is an explicit, immediate failure — never silent truncation
//! or padding.

use vstd::prelude::*;

use crate::engine::{Graph, NodeView, Op, SCALAR_ZERO};

verus! {

/// Every index in `xs` points below `l`.
pub open spec fn ids_below(xs: Seq<usize>, l: int) -> bool {
    forall|k: int| 0 <= k < xs.len() ==> (#[trigger] xs[k] as int) < l
}

/// A grid of node indices as a sequence of rows.
pub open spec fn grid(a: &Vec<Vec<usize>>) -> Seq<Seq<usize>> {
    Seq::new(a@.len(), |i: int| a@[i]@)
}


/// The arena offset of row `i` of an elementwise grid operation: the sum
/// of the lengths of the earlier rows.
pub open spec fn row_off(g: Seq<Seq<usize>>, i: int) -> int
    decreases i,
{
    if i <= 0 {
        0
    } else {
        row_off(g, i - 1) + g[i - 1].len()
    }
}

/// Row offsets grow with the row index.
pub proof fn lemma_row_off_mono(g: Seq<Seq<usize>>, m: int, i: int)
    requires
        0 <= m <= i,
    ensures
        row_off(g, m) <= row_off(g, i),
    decreases i - m,
{
    if m < i {
        lemma_row_off_mono(g, m, i - 1);
    }
}

/// The nodes of one elementwise-addition row, built at position `l` over
/// operand rows `xs` and `ys` of equal length.
pub open spec fn addrow_span(s: Seq<NodeView>, l: int, xs: Seq<usize>, ys: Seq<usize>) -> bool {
    forall|j: int|
        #![trigger s.index(l + j)]
        0 <= j < xs.len() ==> s[l + j] == (NodeView {
            op: Op::Add,
            args: seq![xs[j], ys[j]],
            val: SCALAR_ZERO,
            grad: SCALAR_ZERO,
        })
}

/// An elementwise-addition row is untouched by later node creation.
pub proof fn lemma_addrow_span_frame(
    s1: Seq<NodeView>,
    s2: Seq<NodeView>,
    l: int,
    xs: Seq<usize>,
    ys: Seq<usize>,
)
    requires
        addrow_span(s1, l, xs, ys),
        0 <= l,
        l + xs.len() <= s1.len(),
        s1.len() <= s2.len(),
        forall|j: int| 0 <= j < s1.len() ==> s2[j] == s1[j],
    ensures
        addrow_span(s2, l, xs, ys),
{
    assert forall|j: int| 0 <= j < xs.len() implies #[trigger] s2.index(l + j) == s1.index(
        l + j,
    ) by {}
}

/// The indices in `xs` count up from `base`.
pub open spec fn ids_run(xs: Seq<usize>, base: int) -> bool {
    forall|j: int| 0 <= j < xs.len() ==> (#[trigger] xs[j] as int) == base + j
}

/// The failure of a batch helper whose arguments do not have the shapes it
/// requires.
#[derive(Clone, Copy, PartialEq, Eq, Structural, Debug)]
pub enum MatError {
    SizeMismatch,
}

/// The nodes of one dot product, built at position `l` of the arena over
/// operand rows `xs` and `ys` of equal nonzero length `n`: first the `n`
/// products, then the left-fold chain of `n - 1` additions.
pub open spec fn dot_span(s: Seq<NodeView>, l: int, xs: Seq<usize>, ys: Seq<usize>) -> bool {
    let n = xs.len() as int;
    &&& forall|k: int|
        #![trigger s.index(l + k)]
        0 <= k < n ==> s[l + k] == (NodeView {
            op: Op::Mul,
            args: seq![xs[k], ys[k]],
            val: SCALAR_ZERO,
            grad: SCALAR_ZERO,
        })
    &&& forall|k: int|
        #![trigger s.index(l + n + k - 1)]
        1 <= k < n ==> s[l + n + k - 1] == (NodeView {
            op: Op::Add,
            args: seq![
                (if k == 1 {
                    l
                } else {
                    l + n + k - 2
                }) as usize,
                (l + k) as usize,
            ],
            val: SCALAR_ZERO,
            grad: SCALAR_ZERO,
        })
}

/// The index of the node holding a dot product built at position `l` over
/// rows of length `n`: the single product when `n` is one, else the last
/// addition of the chain.
pub open spec fn dot_result(l: int, n: int) -> int {
    if n == 1 {
        l
    } else {
        l + 2 * n - 2
    }
}

/// A dot span is untouched by later node creation: it only speaks of
/// positions below its own end.
pub proof fn lemma_dot_span_frame(
    s1: Seq<NodeView>,
    s2: Seq<NodeView>,
    l: int,
    xs: Seq<usize>,
    ys: Seq<usize>,
)
    requires
        dot_span(s1, l, xs, ys),
        0 <= l,
        l + 2 * xs.len() - 1 <= s1.len(),
        s1.len() <= s2.len(),
        forall|j: int| 0 <= j < s1.len() ==> s2[j] == s1[j],
    ensures
        dot_span(s2, l, xs, ys),
{
    let n = xs.len() as int;
    assert forall|k: int| 0 <= k < n implies #[trigger] s2.index(l + k) == s1.index(l + k) by {}
    assert forall|k: int| 1 <= k < n implies #[trigger] s2.index(l + n + k - 1) == s1.index(
        l + n + k - 1,
    ) by {}
}

impl Graph {
    /// Wires the dot product of two equal-length rows of nodes: the
    /// elementwise products, then their running sum as a left fold, exactly
    /// as a row of a matrix–vector multiplication reduces.
    fn dot(&mut self, xs: &Vec<usize>, ys: &Vec<usize>) -> (i: usize)
        requires
            old(self).wf(),
            xs@.len() == ys@.len(),
            xs@.len() >= 1,
            forall|k: int| 0 <= k < xs@.len() ==> (#[trigger] xs@[k] as int) < old(self)@.len(),
            forall|k: int| 0 <= k < ys@.len() ==> (#[trigger] ys@[k] as int) < old(self)@.len(),
        ensures
            final(self).wf(),
            final(self)@.len() == old(self)@.len() + 2 * xs@.len() - 1,
            forall|j: int| 0 <= j < old(self)@.len() ==> final(self)@[j] == old(self)@[j],
            dot_span(final(self)@, old(self)@.len() as int, xs@, ys@),
            i == dot_result(old(self)@.len() as int, xs@.len() as int),
    {
        let ghost l = self@.len() as int;
        let ghost n = xs@.len() as int;
        let num = xs.len();
        let mut k: usize = 0;
        while k < num
            invariant
                self.wf(),
                l == old(self)@.len(),
                n == xs@.len(),
                num == n,
                xs@.len() == ys@.len(),
                k <= num,
                forall|m: int| 0 <= m < xs@.len() ==> (#[trigger] xs@[m] as int) < l,
                forall|m: int| 0 <= m < ys@.len() ==> (#[trigger] ys@[m] as int) < l,
                self@.len() == l + k,
                forall|j: int| 0 <= j < l ==> self@[j] == old(self)@[j],
                forall|m: int|
                    #![trigger self@.index(l + m)]
                    0 <= m < k ==> self@[l + m] == (NodeView {
                        op: Op::Mul,
                        args: seq![xs@[m], ys@[m]],
                        val: SCALAR_ZERO,
                        grad: SCALAR_ZERO,
                    }),
            decreases num - k,
        {
            let ghost prev = self@;
            self.mul(xs[k], ys[k]);
            proof {
                assert forall|m: int|
                    #![trigger self@.index(l + m)]
                    0 <= m < k + 1 implies self@[l + m] == (NodeView {
                    op: Op::Mul,
                    args: seq![xs@[m], ys@[m]],
                    val: SCALAR_ZERO,
                    grad: SCALAR_ZERO,
                }) by {
                    if m < k {
                        assert(self@[l + m] == prev[l + m]);
                    }
                }
            }
            k += 1;
        }
        let total = self.len();
        let mul_base = total - num;
        let mut acc: usize = mul_base;
        let mut k: usize = 1;
        while k < num
            invariant
                self.wf(),
                l == old(self)@.len(),
                n == xs@.len(),
                num == n,
                xs@.len() == ys@.len(),
                mul_base == l,
                l + n <= usize::MAX,
                1 <= k <= num,
                self@.len() == l + n + k - 1,
                acc == (if k == 1 {
                    l
                } else {
                    l + n + k - 2
                }),
                forall|j: int| 0 <= j < l ==> self@[j] == old(self)@[j],
                forall|m: int|
                    #![trigger self@.index(l + m)]
                    0 <= m < n ==> self@[l + m] == (NodeView {
                        op: Op::Mul,
                        args: seq![xs@[m], ys@[m]],
                        val: SCALAR_ZERO,
                        grad: SCALAR_ZERO,
                    }),
                forall|m: int|
                    #![trigger self@.index(l + n + m - 1)]
                    1 <= m < k ==> self@[l + n + m - 1] == (NodeView {
                        op: Op::Add,
                        args: seq![
                            (if m == 1 {
                                l
                            } else {
                                l + n + m - 2
                            }) as usize,
                            (l + m) as usize,
                        ],
                        val: SCALAR_ZERO,
                        grad: SCALAR_ZERO,
                    }),
            decreases num - k,
        {
            let ghost prev = self@;
            let m_k = mul_base + k;
            acc = self.add(acc, m_k);
            proof {
                assert forall|m: int|
                    #![trigger self@.index(l + n + m - 1)]
                    1 <= m < k + 1 implies self@[l + n + m - 1] == (NodeView {
                    op: Op::Add,
                    args: seq![
                        (if m == 1 {
                            l
                        } else {
                            l + n + m - 2
                        }) as usize,
                        (l + m) as usize,
                    ],
                    val: SCALAR_ZERO,
                    grad: SCALAR_ZERO,
                }) by {
                    if m < k {
                        assert(self@[l + n + m - 1] == prev[l + n + m - 1]);
                    }
                }
                assert forall|m: int|
                    #![trigger self@.index(l + m)]
                    0 <= m < n implies self@[l + m] == (NodeView {
                    op: Op::Mul,
                    args: seq![xs@[m], ys@[m]],
                    val: SCALAR_ZERO,
                    grad: SCALAR_ZERO,
                }) by {
                    assert(self@[l + m] == prev[l + m]);
                }
            }
            k += 1;
        }
        acc
    }

    /// Matrix–vector multiplication: wires one dot product per row of `a`
    /// against `b` and returns the row results.  Every row of `a` must
    /// have the length of `b`; a differently sized row is an explicit,
    /// immediate failure that creates no node.
    pub fn matmul(&mut self, a: &Vec<Vec<usize>>, b: &Vec<usize>) -> (r: Result<
        Vec<usize>,
        MatError,
    >)
        requires
            old(self).wf(),
            b@.len() >= 1,
            forall|i: int| 0 <= i < a@.len() ==> #[trigger] ids_below(a@[i]@, old(self)@.len() as int),
            ids_below(b@, old(self)@.len() as int),
        ensures
            final(self).wf(),
            forall|j: int| 0 <= j < old(self)@.len() ==> final(self)@[j] == old(self)@[j],
            r is Err <==> exists|i: int|
                0 <= i < a@.len() && (#[trigger] a@[i]@).len() != b@.len(),
            r is Err ==> final(self)@ == old(self)@,
            r is Ok ==> ({
                let l = old(self)@.len() as int;
                let n = b@.len() as int;
                let ids = (r->Ok_0)@;
                &&& final(self)@.len() == l + a@.len() * (2 * n - 1)
                &&& ids.len() == a@.len()
                &&& forall|i: int|
                    0 <= i < a@.len() ==> #[trigger] dot_span(
                        final(self)@,
                        l + i * (2 * n - 1),
                        a@[i]@,
                        b@,
                    ) && (ids[i] as int) == dot_result(l + i * (2 * n - 1), n)
            }),
    {
        let ghost l = self@.len() as int;
        let ghost n = b@.len() as int;
        let rows = a.len();
        let mut i: usize = 0;
        while i < rows
            invariant
                self.wf(),
                self@ == old(self)@,
                rows == a@.len(),
                i <= rows,
                forall|m: int| 0 <= m < i ==> (#[trigger] a@[m]@).len() == b@.len(),
            decreases rows - i,
        {
            if a[i].len() != b.len() {
                return Err(MatError::SizeMismatch);
            }
            i += 1;
        }
        let mut ids: Vec<usize> = Vec::new();
        let mut i: usize = 0;
        while i < rows
            invariant
                self.wf(),
                l == old(self)@.len(),
                n == b@.len(),
                n >= 1,
                rows == a@.len(),
                i <= rows,
                forall|m: int| 0 <= m < a@.len() ==> (#[trigger] a@[m]@).len() == b@.len(),
                forall|m: int| 0 <= m < a@.len() ==> #[trigger] ids_below(a@[m]@, l),
                ids_below(b@, l),
                self@.len() == l + i * (2 * n - 1),
                forall|j: int| 0 <= j < l ==> self@[j] == old(self)@[j],
                ids@.len() == i,
                forall|m: int|
                    0 <= m < i ==> #[trigger] dot_span(self@, l + m * (2 * n - 1), a@[m]@, b@) && (
                    ids@[m] as int) == dot_result(l + m * (2 * n - 1), n),
            decreases rows - i,
        {
            let ghost prev = self@;
            proof {
                assert(i * (2 * n - 1) >= 0) by (nonlinear_arith)
                    requires
                        n >= 1,
                        i >= 0,
                ;
                assert(ids_below(a@[i as int]@, l));
                assert(ids_below(a@[i as int]@, self@.len() as int));
                assert(ids_below(b@, self@.len() as int));
            }
            let id = self.dot(&a[i], b);
            ids.push(id);
            proof {
                assert((i + 1) * (2 * n - 1) == i * (2 * n - 1) + (2 * n - 1)) by (nonlinear_arith);
                assert forall|m: int|
                    0 <= m < i + 1 implies #[trigger] dot_span(
                    self@,
                    l + m * (2 * n - 1),
                    a@[m]@,
                    b@,
                ) && (ids@[m] as int) == dot_result(l + m * (2 * n - 1), n) by {
                    if m < i {
                        assert(dot_span(prev, l + m * (2 * n - 1), a@[m]@, b@));
                        assert((m + 1) * (2 * n - 1) == m * (2 * n - 1) + (2 * n - 1))
                            by (nonlinear_arith);
                        assert(m * (2 * n - 1) <= i * (2 * n - 1)) by (nonlinear_arith)
                            requires
                                0 <= m <= i,
                                n >= 1,
                        ;
                        assert((m + 1) * (2 * n - 1) <= i * (2 * n - 1)) by (nonlinear_arith)
                            requires
                                0 <= m < i,
                                n >= 1,
                        ;
                        lemma_dot_span_frame(prev, self@, l + m * (2 * n - 1), a@[m]@, b@);
                    }
                }
            }
            i += 1;
        }
        proof {
            assert(!(exists|m: int| 0 <= m < a@.len() && (#[trigger] a@[m]@).len() != b@.len()));
        }
        Ok(ids)
    }

    /// Elementwise matrix addition: wires one addition node per grid cell
    /// and returns the grid of result indices.  The two grids must have
    /// the same shape; a mismatch is an explicit, immediate failure that
    /// creates no node.
    pub fn matadd(&mut self, a: &Vec<Vec<usize>>, b: &Vec<Vec<usize>>) -> (r: Result<
        Vec<Vec<usize>>,
        MatError,
    >)
        requires
            old(self).wf(),
            forall|i: int| 0 <= i < a@.len() ==> #[trigger] ids_below(a@[i]@, old(self)@.len() as int),
            forall|i: int| 0 <= i < b@.len() ==> #[trigger] ids_below(b@[i]@, old(self)@.len() as int),
        ensures
            final(self).wf(),
            forall|j: int| 0 <= j < old(self)@.len() ==> final(self)@[j] == old(self)@[j],
            r is Err <==> (a@.len() != b@.len() || exists|i: int|
                0 <= i < a@.len() && (#[trigger] a@[i]@).len() != b@[i]@.len()),
            r is Err ==> final(self)@ == old(self)@,
            r is Ok ==> ({
                let l = old(self)@.len() as int;
                let ga = grid(a);
                let gb = grid(b);
                let rr = (r->Ok_0)@;
                &&& final(self)@.len() == l + row_off(ga, ga.len() as int)
                &&& rr.len() == a@.len()
                &&& forall|i: int|
                    0 <= i < a@.len() ==> #[trigger] addrow_span(
                        final(self)@,
                        l + row_off(ga, i),
                        ga[i],
                        gb[i],
                    ) && rr[i]@.len() == ga[i].len() && ids_run(rr[i]@, l + row_off(ga, i))
            }),
    {
        let ghost l = self@.len() as int;
        let ghost ga = grid(a);
        let ghost gb = grid(b);
        if a.len() != b.len() {
            return Err(MatError::SizeMismatch);
        }
        let rows = a.len();
        let mut i: usize = 0;
        while i < rows
            invariant
                self.wf(),
                self@ == old(self)@,
                rows == a@.len(),
                a@.len() == b@.len(),
                i <= rows,
                forall|m: int| 0 <= m < i ==> (#[trigger] a@[m]@).len() == b@[m]@.len(),
            decreases rows - i,
        {
            if a[i].len() != b[i].len() {
                return Err(MatError::SizeMismatch);
            }
            i += 1;
        }
        let mut out: Vec<Vec<usize>> = Vec::new();
        let mut i: usize = 0;
        while i < rows
            invariant
                self.wf(),
                l == old(self)@.len(),
                ga == grid(a),
                gb == grid(b),
                rows == a@.len(),
                a@.len() == b@.len(),
                i <= rows,
                forall|m: int| 0 <= m < a@.len() ==> (#[trigger] a@[m]@).len() == b@[m]@.len(),
                forall|m: int| 0 <= m < a@.len() ==> #[trigger] ids_below(a@[m]@, l),
                forall|m: int| 0 <= m < b@.len() ==> #[trigger] ids_below(b@[m]@, l),
                self@.len() == l + row_off(ga, i as int),
                forall|j: int| 0 <= j < l ==> self@[j] == old(self)@[j],
                out@.len() == i,
                forall|m: int|
                    0 <= m < i ==> #[trigger] addrow_span(self@, l + row_off(ga, m), ga[m], gb[m])
                        && out@[m]@.len() == ga[m].len() && ids_run(out@[m]@, l + row_off(ga, m)),
            decreases rows - i,
        {
            let ghost row_base = l + row_off(ga, i as int);
            proof {
                lemma_row_off_mono(ga, 0, i as int);
            }
            let cols = a[i].len();
            let mut row: Vec<usize> = Vec::new();
            let mut j: usize = 0;
            while j < cols
                invariant
                    self.wf(),
                    l == old(self)@.len(),
                    ga == grid(a),
                    gb == grid(b),
                    rows == a@.len(),
                    a@.len() == b@.len(),
                    i < rows,
                    cols == a@[i as int]@.len(),
                    a@[i as int]@.len() == b@[i as int]@.len(),
                    j <= cols,
                    forall|m: int| 0 <= m < a@.len() ==> #[trigger] ids_below(a@[m]@, l),
                    forall|m: int| 0 <= m < b@.len() ==> #[trigger] ids_below(b@[m]@, l),
                    row_base == l + row_off(ga, i as int),
                    row_base >= l,
                    self@.len() == row_base + j,
                    forall|q: int| 0 <= q < l ==> self@[q] == old(self)@[q],
                    forall|m: int|
                        0 <= m < i ==> #[trigger] addrow_span(self@, l + row_off(ga, m), ga[m], gb[m])
                            && out@[m]@.len() == ga[m].len() && ids_run(out@[m]@, l + row_off(ga, m)),
                    row@.len() == j,
                    ids_run(row@, row_base),
                    forall|q: int|
                        #![trigger self@.index(row_base + q)]
                        0 <= q < j ==> self@[row_base + q] == (NodeView {
                            op: Op::Add,
                            args: seq![ga[i as int][q], gb[i as int][q]],
                            val: SCALAR_ZERO,
                            grad: SCALAR_ZERO,
                        }),
                decreases cols - j,
            {
                let ghost prev = self@;
                proof {
                    assert(ids_below(a@[i as int]@, l));
                    assert(ids_below(b@[i as int]@, l));
                }
                let id = self.add(a[i][j], b[i][j]);
                row.push(id);
                proof {
                    assert forall|q: int|
                        #![trigger self@.index(row_base + q)]
                        0 <= q < j + 1 implies self@[row_base + q] == (NodeView {
                        op: Op::Add,
                        args: seq![ga[i as int][q], gb[i as int][q]],
                        val: SCALAR_ZERO,
                        grad: SCALAR_ZERO,
                    }) by {
                        if q < j {
                            assert(self@[row_base + q] == prev[row_base + q]);
                        }
                    }
                    assert forall|m: int|
                        0 <= m < i implies #[trigger] addrow_span(
                        self@,
                        l + row_off(ga, m),
                        ga[m],
                        gb[m],
                    ) && out@[m]@.len() == ga[m].len() && ids_run(out@[m]@, l + row_off(ga, m)) by {
                        assert(addrow_span(prev, l + row_off(ga, m), ga[m], gb[m]));
                        assert(row_off(ga, m + 1) == row_off(ga, m) + ga[m].len());
                        lemma_row_off_mono(ga, 0, m);
                        lemma_row_off_mono(ga, m + 1, i as int);
                        lemma_addrow_span_frame(prev, self@, l + row_off(ga, m), ga[m], gb[m]);
                    }
                }
                j += 1;
            }
            out.push(row);
            proof {
                assert(row_off(ga, i + 1) == row_off(ga, i as int) + ga[i as int].len());
                assert forall|m: int|
                    0 <= m < i + 1 implies #[trigger] addrow_span(
                    self@,
                    l + row_off(ga, m),
                    ga[m],
                    gb[m],
                ) && out@[m]@.len() == ga[m].len() && ids_run(out@[m]@, l + row_off(ga, m)) by {}
            }
            i += 1;
        }
        proof {
            assert(!(exists|m: int|
                0 <= m < a@.len() && (#[trigger] a@[m]@).len() != b@[m]@.len()));
        }
        Ok(out)
    }

    /// Matrix–vector multiplication with bias addition: per row of `a`,
    /// the dot product against `b` followed by one addition of the row's
    /// bias node from `c`.  Row lengths must match `b` and there must be
    /// one bias per row; a mismatch is an explicit, immediate failure that
    /// creates no node.
    pub fn matmul_add(&mut self, a: &Vec<Vec<usize>>, b: &Vec<usize>, c: &Vec<usize>) -> (r:
        Result<Vec<usize>, MatError>)
        requires
            old(self).wf(),
            b@.len() >= 1,
            forall|i: int| 0 <= i < a@.len() ==> #[trigger] ids_below(a@[i]@, old(self)@.len() as int),
            ids_below(b@, old(self)@.len() as int),
            ids_below(c@, old(self)@.len() as int),
        ensures
            final(self).wf(),
            forall|j: int| 0 <= j < old(self)@.len() ==> final(self)@[j] == old(self)@[j],
            r is Err <==> (a@.len() != c@.len() || exists|i: int|
                0 <= i < a@.len() && (#[trigger] a@[i]@).len() != b@.len()),
            r is Err ==> final(self)@ == old(self)@,
            r is Ok ==> ({
                let l = old(self)@.len() as int;
                let n = b@.len() as int;
                let ids = (r->Ok_0)@;
                &&& final(self)@.len() == l + a@.len() * (2 * n)
                &&& ids.len() == a@.len()
                &&& forall|i: int|
                    0 <= i < a@.len() ==> #[trigger] dot_span(
                        final(self)@,
                        l + i * (2 * n),
                        a@[i]@,
                        b@,
                    ) && final(self)@[l + i * (2 * n) + 2 * n - 1] == (NodeView {
                        op: Op::Add,
                        args: seq![
                            dot_result(l + i * (2 * n), n) as usize,
                            c@[i],
                        ],
                        val: SCALAR_ZERO,
                        grad: SCALAR_ZERO,
                    }) && (ids[i] as int) == l + i * (2 * n) + 2 * n - 1
            }),
    {
        let ghost l = self@.len() as int;
        let ghost n = b@.len() as int;
        if a.len() != c.len() {
            return Err(MatError::SizeMismatch);
        }
        let rows = a.len();
        let mut i: usize = 0;
        while i < rows
            invariant
                self.wf(),
                self@ == old(self)@,
                rows == a@.len(),
                i <= rows,
                forall|m: int| 0 <= m < i ==> (#[trigger] a@[m]@).len() == b@.len(),
            decreases rows - i,
        {
            if a[i].len() != b.len() {
                return Err(MatError::SizeMismatch);
            }
            i += 1;
        }
        let mut ids: Vec<usize> = Vec::new();
        let mut i: usize = 0;
        while i < rows
            invariant
                self.wf(),
                l == old(self)@.len(),
                n == b@.len(),
                n >= 1,
                rows == a@.len(),
                a@.len() == c@.len(),
                i <= rows,
                forall|m: int| 0 <= m < a@.len() ==> (#[trigger] a@[m]@).len() == b@.len(),
                forall|m: int| 0 <= m < a@.len() ==> #[trigger] ids_below(a@[m]@, l),
                ids_below(b@, l),
                ids_below(c@, l),
                self@.len() == l + i * (2 * n),
                forall|j: int| 0 <= j < l ==> self@[j] == old(self)@[j],
                ids@.len() == i,
                forall|m: int|
                    0 <= m < i ==> #[trigger] dot_span(self@, l + m * (2 * n), a@[m]@, b@)
                        && self@[l + m * (2 * n) + 2 * n - 1] == (NodeView {
                        op: Op::Add,
                        args: seq![
                            dot_result(l + m * (2 * n), n) as usize,
                            c@[m],
                        ],
                        val: SCALAR_ZERO,
                        grad: SCALAR_ZERO,
                    }) && (ids@[m] as int) == l + m * (2 * n) + 2 * n - 1,
            decreases rows - i,
        {
            let ghost prev = self@;
            proof {
                assert(i * (2 * n) >= 0) by (nonlinear_arith)
                    requires
                        n >= 1,
                        i >= 0,
                ;
                assert(ids_below(a@[i as int]@, l));
                assert(ids_below(a@[i as int]@, self@.len() as int));
                assert(ids_below(b@, self@.len() as int));
            }
            let d = self.dot(&a[i], b);
            let ghost mid = self@;
            let id = self.add(d, c[i]);
            ids.push(id);
            proof {
                assert((i + 1) * (2 * n) == i * (2 * n) + 2 * n) by (nonlinear_arith);
                assert(dot_span(mid, l + i * (2 * n), a@[i as int]@, b@));
                lemma_dot_span_frame(mid, self@, l + i * (2 * n), a@[i as int]@, b@);
                assert forall|m: int|
                    0 <= m < i + 1 implies #[trigger] dot_span(self@, l + m * (2 * n), a@[m]@, b@)
                    && self@[l + m * (2 * n) + 2 * n - 1] == (NodeView {
                    op: Op::Add,
                    args: seq![
                        dot_result(l + m * (2 * n), n) as usize,
                        c@[m],
                    ],
                    val: SCALAR_ZERO,
                    grad: SCALAR_ZERO,
                }) && (ids@[m] as int) == l + m * (2 * n) + 2 * n - 1 by {
                    if m == i {
                        assert(d as int == dot_result(l + i * (2 * n), n));
                        assert(seq![d, c@[i as int]] =~= seq![
                            dot_result(l + i * (2 * n), n) as usize,
                            c@[i as int],
                        ]);
                    }
                    if m < i {
                        assert(dot_span(prev, l + m * (2 * n), a@[m]@, b@));
                        assert((m + 1) * (2 * n) == m * (2 * n) + 2 * n) by (nonlinear_arith);
                        assert((m + 1) * (2 * n) <= i * (2 * n)) by (nonlinear_arith)
                            requires
                                0 <= m < i,
                                n >= 1,
                        ;
                        lemma_dot_span_frame(prev, self@, l + m * (2 * n), a@[m]@, b@);
                        assert(self@[l + m * (2 * n) + 2 * n - 1] == prev[l + m * (2 * n) + 2 * n
                            - 1]);
                    }
                }
            }
            i += 1;
        }
        proof {
            assert(!(exists|m: int| 0 <= m < a@.len() && (#[trigger] a@[m]@).len() != b@.len()));
        }
        Ok(ids)
    }
}

} // verus!
