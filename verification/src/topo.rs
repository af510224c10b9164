//! The topological sorter.
//!
//! The backward pass must replay local gradient rules so that a node's own
//! gradient is final before the node distributes contributions into its
//! operands.  The sorter computes a post-order depth-first traversal from
//! the terminal: every node appears after all of its operands, each
//! reachable node appears exactly once, and nothing unreachable appears.
//!
//! The traversal depends only on the wiring of the graph — which node lists
//! which operands — never on the scalar cells.  The specification therefore
//! works on the projection [`structure`], which makes it immediate that
//! writing value or gradient cells cannot change the visitation order.

use vstd::prelude::*;

use crate::engine::{graph_wf, node_wf, Graph, NodeView};

verus! {

/// The wiring of an arena: for each node, its operand list.
pub open spec fn structure(s: Seq<NodeView>) -> Seq<Seq<usize>> {
    Seq::new(s.len(), |i: int| s[i].args)
}

/// Wiring well-formedness of one node: operands point strictly earlier.
pub open spec fn st_node_wf(st: Seq<Seq<usize>>, i: int) -> bool {
    forall|k: int| 0 <= k < st[i].len() ==> (st[i][k] as int) < i
}

/// Wiring well-formedness of the whole arena.
pub open spec fn st_wf(st: Seq<Seq<usize>>) -> bool {
    forall|i: int| 0 <= i < st.len() ==> #[trigger] st_node_wf(st, i)
}

/// Every operand list of the wiring is machine-sized.  A wiring projected
/// from a real arena always is, since operand lists live in vectors.
pub open spec fn st_sized(st: Seq<Seq<usize>>) -> bool {
    forall|i: int| 0 <= i < st.len() ==> (#[trigger] st[i]).len() <= usize::MAX
}

/// The wiring of a real arena is machine-sized.
pub proof fn lemma_structure_sized(s: Seq<NodeView>)
    requires
        forall|i: int| 0 <= i < s.len() ==> (#[trigger] s[i]).args.len() <= usize::MAX,
    ensures
        st_sized(structure(s)),
{
}

/// A well-formed arena has a well-formed wiring.
pub proof fn lemma_structure_wf(s: Seq<NodeView>)
    requires
        graph_wf(s),
    ensures
        st_wf(structure(s)),
{
    let st = structure(s);
    assert forall|i: int| 0 <= i < st.len() implies #[trigger] st_node_wf(st, i) by {
        assert(node_wf(s, i));
    }
}

/// The post-order depth-first visit of node `i`, appending to `ord` every
/// node reachable from `i` that `ord` does not already hold, operands
/// before dependents, `i` itself last.
pub open spec fn dfs(st: Seq<Seq<usize>>, i: usize, ord: Seq<usize>) -> Seq<usize>
    decreases i, 1int, 0int,
        when st_wf(st) && (i as int) < st.len()
{
    if ord.contains(i) {
        ord
    } else {
        dfs_list(st, i, st[i as int], 0, ord).push(i)
    }
}

/// Visits `args[k..]` in order, threading the accumulated sequence.  The
/// `bound` parameter carries the index of the node whose operands these
/// are; every operand lies strictly below it, which is what makes the
/// mutual recursion terminate.
pub open spec fn dfs_list(
    st: Seq<Seq<usize>>,
    bound: usize,
    args: Seq<usize>,
    k: int,
    ord: Seq<usize>,
) -> Seq<usize>
    decreases bound, 0int, args.len() - k,
        when st_wf(st) && (bound as int) < st.len() && forall|j: int|
            0 <= j < args.len() ==> (args[j] as int) < bound
{
    if k < 0 || k >= args.len() {
        ord
    } else {
        dfs_list(st, bound, args, k + 1, dfs(st, args[k], ord))
    }
}

/// The set of nodes reachable from `i`, itself included.
pub open spec fn reach(st: Seq<Seq<usize>>, i: usize) -> Set<usize>
    decreases i, 1int, 0int,
        when st_wf(st) && (i as int) < st.len()
{
    reach_list(st, i, st[i as int], 0).insert(i)
}

/// The union of the nodes reachable from `args[k..]`.
pub open spec fn reach_list(
    st: Seq<Seq<usize>>,
    bound: usize,
    args: Seq<usize>,
    k: int,
) -> Set<usize>
    decreases bound, 0int, args.len() - k,
        when st_wf(st) && (bound as int) < st.len() && forall|j: int|
            0 <= j < args.len() ==> (args[j] as int) < bound
{
    if k < 0 || k >= args.len() {
        Set::empty()
    } else {
        reach(st, args[k]).union(reach_list(st, bound, args, k + 1))
    }
}

/// The `k`-th operand of the node at position `p` of `ord` already stands
/// at some strictly earlier position.
pub open spec fn placed_before(st: Seq<Seq<usize>>, ord: Seq<usize>, p: int, k: int) -> bool {
    exists|q: int| 0 <= q < p && ord[q] == st[ord[p] as int][k]
}

/// What the sorter promises of a visitation sequence: every entry is a
/// valid node, no node appears twice, and every entry's operands appear at
/// strictly earlier positions.
pub open spec fn ord_ok(st: Seq<Seq<usize>>, ord: Seq<usize>) -> bool {
    &&& forall|p: int| 0 <= p < ord.len() ==> (#[trigger] ord[p] as int) < st.len()
    &&& forall|p: int, q: int| 0 <= p < q < ord.len() ==> ord[p] != ord[q]
    &&& forall|p: int, k: int|
        0 <= p < ord.len() && 0 <= k < st[ord[p] as int].len() ==> #[trigger] placed_before(
            st,
            ord,
            p,
            k,
        )
}

/// Everything reachable from `i` lies at or below `i`.
pub proof fn lemma_reach_bound(st: Seq<Seq<usize>>, i: usize)
    requires
        st_wf(st),
        (i as int) < st.len(),
    ensures
        forall|x: usize| reach(st, i).contains(x) ==> x <= i,
    decreases i, 1int, 0int,
{
    assert(st_node_wf(st, i as int));
    lemma_reach_list_bound(st, i, st[i as int], 0);
    assert forall|x: usize| reach(st, i).contains(x) implies x <= i by {
        if x != i {
            assert(reach_list(st, i, st[i as int], 0).contains(x));
        }
    }
}

/// Everything reachable from `args[k..]` lies strictly below `bound`.
pub proof fn lemma_reach_list_bound(st: Seq<Seq<usize>>, bound: usize, args: Seq<usize>, k: int)
    requires
        st_wf(st),
        (bound as int) < st.len(),
        forall|j: int| 0 <= j < args.len() ==> (args[j] as int) < bound,
    ensures
        forall|x: usize| reach_list(st, bound, args, k).contains(x) ==> x < bound,
    decreases bound, 0int, args.len() - k,
{
    if 0 <= k < args.len() {
        lemma_reach_bound(st, args[k]);
        lemma_reach_list_bound(st, bound, args, k + 1);
        assert forall|x: usize| reach_list(st, bound, args, k).contains(x) implies x < bound by {
            if !reach(st, args[k]).contains(x) {
                assert(reach_list(st, bound, args, k + 1).contains(x));
            }
        }
    }
}

/// A node is reachable from itself.
pub proof fn lemma_reach_self(st: Seq<Seq<usize>>, i: usize)
    requires
        st_wf(st),
        (i as int) < st.len(),
    ensures
        reach(st, i).contains(i),
{
    assert(st_node_wf(st, i as int));
}

/// Each operand in `args[k..]` is in the union of their reach sets.
pub proof fn lemma_reach_list_member(
    st: Seq<Seq<usize>>,
    bound: usize,
    args: Seq<usize>,
    k: int,
    j: int,
)
    requires
        st_wf(st),
        (bound as int) < st.len(),
        forall|m: int| 0 <= m < args.len() ==> (args[m] as int) < bound,
        0 <= k <= j < args.len(),
    ensures
        reach_list(st, bound, args, k).contains(args[j]),
    decreases j - k,
{
    if k == j {
        lemma_reach_self(st, args[k]);
    } else {
        lemma_reach_list_member(st, bound, args, k + 1, j);
    }
}

/// A sequence that satisfies `ord_ok` and holds `i` also holds everything
/// reachable from `i`: the operand-closure property propagates downwards.
pub proof fn lemma_closed_reach(st: Seq<Seq<usize>>, ord: Seq<usize>, i: usize)
    requires
        st_wf(st),
        (i as int) < st.len(),
        ord_ok(st, ord),
        ord.contains(i),
    ensures
        forall|x: usize| reach(st, i).contains(x) ==> ord.contains(x),
    decreases i, 1int, 0int,
{
    assert(st_node_wf(st, i as int));
    let p = choose|p: int| 0 <= p < ord.len() && ord[p] == i;
    assert forall|k: int| 0 <= k < st[i as int].len() implies ord.contains(
        #[trigger] st[i as int][k],
    ) by {
        assert(placed_before(st, ord, p, k));
        let q = choose|q: int| 0 <= q < p && ord[q] == st[ord[p] as int][k];
        assert(ord[q] == st[i as int][k]);
    }
    lemma_closed_reach_list(st, ord, i, st[i as int], 0);
}

/// Companion of [`lemma_closed_reach`] for an operand list.
pub proof fn lemma_closed_reach_list(
    st: Seq<Seq<usize>>,
    ord: Seq<usize>,
    bound: usize,
    args: Seq<usize>,
    k: int,
)
    requires
        st_wf(st),
        (bound as int) < st.len(),
        forall|j: int| 0 <= j < args.len() ==> (args[j] as int) < bound,
        ord_ok(st, ord),
        forall|j: int| 0 <= j < args.len() ==> ord.contains(#[trigger] args[j]),
    ensures
        forall|x: usize| reach_list(st, bound, args, k).contains(x) ==> ord.contains(x),
    decreases bound, 0int, args.len() - k,
{
    if 0 <= k < args.len() {
        lemma_closed_reach(st, ord, args[k]);
        lemma_closed_reach_list(st, ord, bound, args, k + 1);
    }
}

/// The main induction: the depth-first visit preserves the sorter's
/// promise, only appends, and afterwards holds exactly the old entries
/// plus everything reachable from the visited node.
pub proof fn lemma_dfs(st: Seq<Seq<usize>>, i: usize, ord: Seq<usize>)
    requires
        st_wf(st),
        (i as int) < st.len(),
        ord_ok(st, ord),
    ensures
        ({
            let r = dfs(st, i, ord);
            &&& ord_ok(st, r)
            &&& r.len() >= ord.len()
            &&& forall|p: int| 0 <= p < ord.len() ==> r[p] == ord[p]
            &&& forall|x: usize|
                #[trigger] r.contains(x) <==> ord.contains(x) || reach(st, i).contains(x)
        }),
    decreases i, 1int, 0int,
{
    assert(st_node_wf(st, i as int));
    if ord.contains(i) {
        lemma_closed_reach(st, ord, i);
    } else {
        lemma_dfs_list(st, i, st[i as int], 0, ord);
        let r1 = dfs_list(st, i, st[i as int], 0, ord);
        let r = r1.push(i);
        lemma_reach_list_bound(st, i, st[i as int], 0);
        assert(!r1.contains(i));
        // The pushed sequence keeps the promise: old positions are
        // untouched, the new last entry is fresh, and its operands were
        // all placed by the visit of the operand list.
        assert forall|p: int| 0 <= p < r.len() implies (#[trigger] r[p] as int) < st.len() by {
            if p < r1.len() {
                assert(r1[p] == r[p]);
            }
        }
        assert forall|p: int, q: int| 0 <= p < q < r.len() implies r[p] != r[q] by {
            if q < r1.len() {
                assert(r1[p] == r[p] && r1[q] == r[q]);
            } else {
                assert(r[q] == i);
                assert(r1[p] == r[p]);
                assert(r1.contains(r1[p]));
            }
        }
        assert forall|p: int, k: int|
            0 <= p < r.len() && 0 <= k < st[r[p] as int].len() implies #[trigger] placed_before(
            st,
            r,
            p,
            k,
        ) by {
            if p < r1.len() {
                assert(r1[p] == r[p]);
                assert(placed_before(st, r1, p, k));
                let q = choose|q: int| 0 <= q < p && r1[q] == st[r1[p] as int][k];
                assert(0 <= q < p && r[q] == st[r[p] as int][k]);
            } else {
                assert(r[p] == i);
                lemma_reach_list_member(st, i, st[i as int], 0, k);
                assert(r1.contains(st[i as int][k]));
                let q = choose|q: int| 0 <= q < r1.len() && r1[q] == st[i as int][k];
                assert(0 <= q < p && r[q] == st[r[p] as int][k]);
            }
        }
        assert forall|x: usize|
            #[trigger] r.contains(x) <==> ord.contains(x) || reach(st, i).contains(x) by {
            if r.contains(x) {
                let p = choose|p: int| 0 <= p < r.len() && r[p] == x;
                if p < r1.len() {
                    assert(r1.contains(x));
                } else {
                    assert(x == i);
                    lemma_reach_self(st, i);
                }
            }
            if ord.contains(x) {
                assert(r1.contains(x));
                let p = choose|p: int| 0 <= p < r1.len() && r1[p] == x;
                assert(r[p] == x);
            }
            if reach(st, i).contains(x) {
                if x == i {
                    assert(r[r.len() - 1] == i);
                } else {
                    assert(reach_list(st, i, st[i as int], 0).contains(x));
                    assert(r1.contains(x));
                    let p = choose|p: int| 0 <= p < r1.len() && r1[p] == x;
                    assert(r[p] == x);
                }
            }
            if r1.contains(x) {
                let p = choose|p: int| 0 <= p < r1.len() && r1[p] == x;
                assert(r[p] == x);
            }
        }
    }
}

/// Companion of [`lemma_dfs`] for an operand list.
pub proof fn lemma_dfs_list(
    st: Seq<Seq<usize>>,
    bound: usize,
    args: Seq<usize>,
    k: int,
    ord: Seq<usize>,
)
    requires
        st_wf(st),
        (bound as int) < st.len(),
        forall|j: int| 0 <= j < args.len() ==> (args[j] as int) < bound,
        ord_ok(st, ord),
    ensures
        ({
            let r = dfs_list(st, bound, args, k, ord);
            &&& ord_ok(st, r)
            &&& r.len() >= ord.len()
            &&& forall|p: int| 0 <= p < ord.len() ==> r[p] == ord[p]
            &&& forall|x: usize|
                #[trigger] r.contains(x) <==> ord.contains(x) || reach_list(
                    st,
                    bound,
                    args,
                    k,
                ).contains(x)
        }),
    decreases bound, 0int, args.len() - k,
{
    if 0 <= k < args.len() {
        lemma_dfs(st, args[k], ord);
        let m = dfs(st, args[k], ord);
        lemma_dfs_list(st, bound, args, k + 1, m);
    }
}

/// The visitation order of a backward pass from terminal `t`: a post-order
/// depth-first traversal starting from an empty sequence.
pub open spec fn spec_topo(st: Seq<Seq<usize>>, t: usize) -> Seq<usize> {
    dfs(st, t, Seq::empty())
}

impl Graph {
    /// One step of the depth-first traversal: visits node `i`, appending
    /// every not-yet-visited node reachable from it to `order` in
    /// post-order.  `visited` mirrors membership in `order`.
    fn topo_visit(&self, i: usize, visited: &mut Vec<bool>, order: &mut Vec<usize>)
        requires
            self.wf(),
            i < self@.len(),
            st_wf(structure(self@)),
            old(visited)@.len() == self@.len(),
            forall|p: int| 0 <= p < old(order)@.len() ==> (#[trigger] old(order)@[p] as int) < self@.len(),
            forall|j: usize|
                (j as int) < self@.len() ==> (old(visited)@[j as int] <==> old(order)@.contains(j)),
        ensures
            final(visited)@.len() == old(visited)@.len(),
            final(order)@ == dfs(structure(self@), i, old(order)@),
            forall|p: int|
                0 <= p < final(order)@.len() ==> (#[trigger] final(order)@[p] as int) < self@.len(),
            forall|j: usize|
                (j as int) < self@.len() ==> (final(visited)@[j as int]
                    <==> final(order)@.contains(j)),
        decreases i,
    {
        let ghost st = structure(self@);
        proof {
            assert(node_wf(self@, i as int));
            assert(st_node_wf(st, i as int));
        }
        if !visited[i] {
            proof {
                assert(!old(order)@.contains(i));
            }
            let n = self.arity(i);
            let ghost entry_ord = order@;
            let mut k: usize = 0;
            while k < n
                invariant
                    self.wf(),
                    i < self@.len(),
                    st == structure(self@),
                    st_wf(st),
                    st_node_wf(st, i as int),
                    entry_ord == old(order)@,
                    !entry_ord.contains(i),
                    n == st[i as int].len(),
                    k <= n,
                    visited@.len() == self@.len(),
                    forall|p: int|
                        0 <= p < order@.len() ==> (#[trigger] order@[p] as int) < self@.len(),
                    forall|j: usize|
                        (j as int) < self@.len() ==> (visited@[j as int] <==> order@.contains(j)),
                    dfs_list(st, i, st[i as int], k as int, order@) == dfs_list(
                        st,
                        i,
                        st[i as int],
                        0,
                        entry_ord,
                    ),
                decreases n - k,
            {
                let a = self.operand(i, k);
                let ghost prev_ord = order@;
                self.topo_visit(a, visited, order);
                proof {
                    assert(a == st[i as int][k as int]);
                    assert(order@ == dfs(st, a, prev_ord));
                    assert(dfs_list(st, i, st[i as int], k as int, prev_ord) == dfs_list(
                        st,
                        i,
                        st[i as int],
                        k + 1,
                        dfs(st, st[i as int][k as int], prev_ord),
                    ));
                }
                k += 1;
            }
            proof {
                assert(dfs_list(st, i, st[i as int], n as int, order@) == order@);
            }
            let ghost r1 = order@;
            visited[i] = true;
            order.push(i);
            proof {
                assert(r1 == dfs_list(st, i, st[i as int], 0, entry_ord));
                assert(order@ == dfs(st, i, entry_ord));
                assert forall|j: usize|
                    (j as int) < self@.len() implies (visited@[j as int] <==> order@.contains(
                    j,
                )) by {
                    if j != i {
                        if order@.contains(j) {
                            let p = choose|p: int| 0 <= p < order@.len() && order@[p] == j;
                            assert(order@[p] == r1[p]);
                            assert(r1.contains(j));
                        }
                        if r1.contains(j) {
                            let p = choose|p: int| 0 <= p < r1.len() && r1[p] == j;
                            assert(order@[p] == j);
                        }
                    } else {
                        assert(order@[order@.len() - 1] == i);
                    }
                }
            }
        } else {
            proof {
                assert(old(order)@.contains(i));
            }
        }
    }

    /// The topological sorter: computes the visitation order of a backward
    /// pass from terminal `t`.  In the returned sequence every node's
    /// position is strictly greater than the position of each of its
    /// operands, no node appears twice, and a node appears exactly when it
    /// is reachable from the terminal; the terminal itself comes last.
    pub fn build_topo(&self, t: usize) -> (order: Vec<usize>)
        requires
            self.wf(),
            t < self@.len(),
        ensures
            order@ == spec_topo(structure(self@), t),
            ord_ok(structure(self@), order@),
            forall|x: usize|
                #[trigger] order@.contains(x) <==> reach(structure(self@), t).contains(x),
            order@.len() >= 1,
            order@[order@.len() - 1] == t,
    {
        proof {
            lemma_structure_wf(self@);
        }
        let n = self.len();
        let mut visited: Vec<bool> = Vec::new();
        let mut j: usize = 0;
        while j < n
            invariant
                j <= n,
                visited@.len() == j,
                forall|m: int| 0 <= m < j ==> !visited@[m],
            decreases n - j,
        {
            visited.push(false);
            j += 1;
        }
        let mut order: Vec<usize> = Vec::new();
        self.topo_visit(t, &mut visited, &mut order);
        proof {
            lemma_dfs(structure(self@), t, Seq::empty());
            assert(!Seq::<usize>::empty().contains(t));
            assert(order@[order@.len() - 1] == t);
            assert forall|x: usize|
                #[trigger] order@.contains(x) <==> reach(structure(self@), t).contains(x) by {
                assert(!Seq::<usize>::empty().contains(x));
            }
        }
        order
    }
}

} // verus!
