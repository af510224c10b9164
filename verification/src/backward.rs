//! The backward driver's schedule.
//!
//! A backward pass from a terminal node seeds the terminal's gradient with
//! the unit scalar and then replays, in reverse topological order, the
//! local gradient rule of every reachable node.  Each rule application
//! distributes one contribution per operand slot.  The engine emits this
//! replay as a tape of [`Contribution`] entries; the embedding application
//! walks the tape in order, computes each contribution numerically, and
//! adds it into the target operand's gradient cell.
//!
//! The theorems below pin the tape down: every operand slot of every node
//! reachable from the terminal appears exactly once, nothing else appears,
//! and every contribution *into* a node is scheduled before every
//! contribution *by* that node — so a node's gradient is final by the time
//! the node distributes it, on arbitrary DAG shapes, shared subexpressions
//! included.

use vstd::prelude::*;

use crate::engine::{Graph, NodeView, SCALAR_ONE};
use crate::topo::{lemma_dfs, placed_before, reach, spec_topo, st_sized, st_wf, structure};

verus! {

/// One scheduled gradient contribution: the node whose backward rule runs
/// (`parent`) and which of its operand slots receives the contribution.
/// The target node is `parent`'s operand at position `slot`.
#[derive(Clone, Copy, PartialEq, Eq, Structural, Debug)]
pub struct Contribution {
    pub parent: usize,
    pub slot: usize,
}

/// The node index a contribution is accumulated into.
pub open spec fn target_of(st: Seq<Seq<usize>>, c: Contribution) -> int {
    st[c.parent as int][c.slot as int] as int
}

/// The tape entries of one node's backward rule: one per operand slot, in
/// slot order.
pub open spec fn node_block(p: usize, n: nat) -> Seq<Contribution> {
    Seq::new(n, |k: int| Contribution { parent: p, slot: k as usize })
}

/// The tape for the first `r` entries of the visitation order, processed
/// from position `r - 1` down to position `0` — that is, in reverse
/// topological order.
pub open spec fn tape_down(st: Seq<Seq<usize>>, ord: Seq<usize>, r: int) -> Seq<Contribution>
    decreases r,
{
    if r <= 0 {
        Seq::empty()
    } else {
        node_block(ord[r - 1], st[ord[r - 1] as int].len()) + tape_down(st, ord, r - 1)
    }
}

/// The complete replay tape of a backward pass from terminal `t`.
pub open spec fn spec_tape(st: Seq<Seq<usize>>, t: usize) -> Seq<Contribution> {
    tape_down(st, spec_topo(st, t), spec_topo(st, t).len() as int)
}

/// Structural facts about a partial tape, proved by induction on `r`:
/// every entry comes from a block of some visited node, every slot of
/// every visited node appears, no entry repeats, and entries of later
/// blocks belong to earlier order positions.
proof fn lemma_tape_down(st: Seq<Seq<usize>>, ord: Seq<usize>, r: int)
    requires
        0 <= r <= ord.len(),
        st_sized(st),
        forall|p: int| 0 <= p < ord.len() ==> (#[trigger] ord[p] as int) < st.len(),
        forall|p: int, q: int| 0 <= p < q < ord.len() ==> ord[p] != ord[q],
    ensures
        ({
            let tape = tape_down(st, ord, r);
            &&& forall|x: int|
                0 <= x < tape.len() ==> exists|j: int|
                    0 <= j < r && ord[j] == (#[trigger] tape[x]).parent && (tape[x].slot as int)
                        < st[ord[j] as int].len()
            &&& forall|j: int, s: int|
                0 <= j < r && 0 <= s < st[ord[j] as int].len() ==> #[trigger] tape.contains(
                    (Contribution { parent: ord[j], slot: s as usize }),
                )
            &&& forall|x: int, y: int| 0 <= x < y < tape.len() ==> tape[x] != tape[y]
            &&& forall|x: int, y: int, jx: int, jy: int|
                #![trigger tape.index(x), tape.index(y), ord.index(jx), ord.index(jy)]
                0 <= x <= y < tape.len() && 0 <= jx < ord.len() && 0 <= jy < ord.len() && ord[jx]
                    == tape[x].parent && ord[jy] == tape[y].parent ==> jy <= jx
        }),
    decreases r,
{
    if r > 0 {
        lemma_tape_down(st, ord, r - 1);
        let p = ord[r - 1];
        let m = st[p as int].len() as int;
        assert(st[p as int].len() <= usize::MAX);
        let blk = node_block(p, m as nat);
        let rest = tape_down(st, ord, r - 1);
        let tape = tape_down(st, ord, r);
        assert(tape == blk + rest);
        assert(tape.len() == m + rest.len());
        assert forall|x: int| 0 <= x < tape.len() implies exists|j: int|
            0 <= j < r && ord[j] == (#[trigger] tape[x]).parent && (tape[x].slot as int)
                < st[ord[j] as int].len() by {
            if x < m {
                assert(tape[x] == blk[x]);
                assert(ord[r - 1] == tape[x].parent && (tape[x].slot as int)
                    < st[ord[r - 1] as int].len());
            } else {
                assert(tape[x] == rest[x - m]);
                let j = choose|j: int|
                    0 <= j < r - 1 && ord[j] == rest[x - m].parent && (rest[x - m].slot as int)
                        < st[ord[j] as int].len();
                assert(ord[j] == tape[x].parent && (tape[x].slot as int) < st[ord[j] as int].len());
            }
        }
        assert forall|j: int, s: int|
            0 <= j < r && 0 <= s < st[ord[j] as int].len() implies #[trigger] tape.contains(
            (Contribution { parent: ord[j], slot: s as usize }),
        ) by {
            let c = Contribution { parent: ord[j], slot: s as usize };
            if j == r - 1 {
                assert(tape[s] == blk[s]);
                assert(blk[s] == c);
            } else {
                assert(rest.contains(c));
                let x = choose|x: int| 0 <= x < rest.len() && rest[x] == c;
                assert(tape[m + x] == c);
            }
        }
        assert forall|x: int, y: int| 0 <= x < y < tape.len() implies tape[x] != tape[y] by {
            if x < m && y >= m {
                // Parents differ: the head block's node is fresh in `ord`.
                assert(tape[x] == blk[x]);
                assert(tape[y] == rest[y - m]);
                let j = choose|j: int|
                    0 <= j < r - 1 && ord[j] == rest[y - m].parent && (rest[y - m].slot as int)
                        < st[ord[j] as int].len();
                assert(ord[j] != ord[r - 1]);
            } else if x >= m {
                assert(tape[x] == rest[x - m] && tape[y] == rest[y - m]);
            } else {
                assert(tape[x] == blk[x] && tape[y] == blk[y]);
                assert(tape[x].slot == x as usize && tape[y].slot == y as usize);
                assert(x as usize != y as usize);
            }
        }
        assert forall|x: int, y: int, jx: int, jy: int|
            #![trigger tape.index(x), tape.index(y), ord.index(jx), ord.index(jy)]
            0 <= x <= y < tape.len() && 0 <= jx < ord.len() && 0 <= jy < ord.len() && ord[jx]
                == tape[x].parent && ord[jy] == tape[y].parent implies jy <= jx by {
            if x < m && y < m {
                assert(tape[x] == blk[x] && tape[y] == blk[y]);
                assert(ord[jx] == ord[r - 1] && ord[jy] == ord[r - 1]);
                assert(jx == r - 1 && jy == r - 1);
            } else if x < m && y >= m {
                assert(tape[x] == blk[x]);
                assert(ord[jx] == ord[r - 1]);
                assert(jx == r - 1);
                assert(tape[y] == rest[y - m]);
                let j = choose|j: int|
                    0 <= j < r - 1 && ord[j] == rest[y - m].parent && (rest[y - m].slot as int)
                        < st[ord[j] as int].len();
                assert(ord[jy] == ord[j]);
                assert(jy == j);
            } else {
                assert(tape[x] == rest[x - m] && tape[y] == rest[y - m]);
            }
        }
    }
}

/// Exactly-once scheduling.  In the replay tape of a backward pass, every
/// operand slot of every node reachable from the terminal appears exactly
/// once, and nothing else appears: a node reachable over several paths — a
/// shared subexpression, a diamond — still distributes each of its
/// per-operand contributions a single time, and unreachable nodes play no
/// part.
pub proof fn lemma_tape_exactly_once(st: Seq<Seq<usize>>, t: usize)
    requires
        st_wf(st),
        st_sized(st),
        (t as int) < st.len(),
    ensures
        ({
            let tape = spec_tape(st, t);
            &&& forall|x: int|
                0 <= x < tape.len() ==> reach(st, t).contains((#[trigger] tape[x]).parent) && (
                tape[x].slot as int) < st[tape[x].parent as int].len()
            &&& forall|p: usize, s: int|
                reach(st, t).contains(p) && 0 <= s < st[p as int].len() ==> #[trigger] tape.contains(
                    (Contribution { parent: p, slot: s as usize }),
                )
            &&& forall|x: int, y: int| 0 <= x < y < tape.len() ==> tape[x] != tape[y]
        }),
{
    let ord = spec_topo(st, t);
    lemma_dfs(st, t, Seq::empty());
    lemma_tape_down(st, ord, ord.len() as int);
    let tape = spec_tape(st, t);
    assert forall|x: int|
        0 <= x < tape.len() implies reach(st, t).contains((#[trigger] tape[x]).parent) && (
    tape[x].slot as int) < st[tape[x].parent as int].len() by {
        let j = choose|j: int|
            0 <= j < ord.len() && ord[j] == tape[x].parent && (tape[x].slot as int)
                < st[ord[j] as int].len();
        assert(ord.contains(tape[x].parent));
        assert(!Seq::<usize>::empty().contains(tape[x].parent));
    }
    assert forall|p: usize, s: int|
        reach(st, t).contains(p) && 0 <= s < st[p as int].len() implies #[trigger] tape.contains(
        (Contribution { parent: p, slot: s as usize }),
    ) by {
        assert(ord.contains(p));
        let j = choose|j: int| 0 <= j < ord.len() && ord[j] == p;
    }
}

/// Safe ordering.  In the replay tape, every contribution *into* a node
/// precedes every contribution *by* that node: by the time a node's own
/// backward rule distributes its gradient, everything feeding that
/// gradient has already been accumulated.  This is the invariant that
/// makes the reversed post-order replay correct for arbitrary DAGs.
pub proof fn lemma_tape_safe_order(st: Seq<Seq<usize>>, t: usize)
    requires
        st_wf(st),
        st_sized(st),
        (t as int) < st.len(),
    ensures
        ({
            let tape = spec_tape(st, t);
            forall|x: int, y: int|
                0 <= x < tape.len() && 0 <= y < tape.len() && target_of(st, #[trigger] tape[y])
                    == (#[trigger] tape[x]).parent ==> y < x
        }),
{
    let ord = spec_topo(st, t);
    lemma_dfs(st, t, Seq::empty());
    lemma_tape_down(st, ord, ord.len() as int);
    let tape = spec_tape(st, t);
    assert forall|x: int, y: int|
        0 <= x < tape.len() && 0 <= y < tape.len() && target_of(st, #[trigger] tape[y])
            == (#[trigger] tape[x]).parent implies y < x by {
        if x <= y {
            let jx = choose|j: int|
                0 <= j < ord.len() && ord[j] == tape[x].parent && (tape[x].slot as int)
                    < st[ord[j] as int].len();
            let jy = choose|j: int|
                0 <= j < ord.len() && ord[j] == tape[y].parent && (tape[y].slot as int)
                    < st[ord[j] as int].len();
            // The target of `tape[y]` is an operand of the node at order
            // position `jy`, so it was placed strictly earlier.
            assert(placed_before(st, ord, jy, tape[y].slot as int));
            let q = choose|q: int|
                0 <= q < jy && ord[q] == st[ord[jy] as int][tape[y].slot as int];
            assert(ord[q] == tape[x].parent);
            assert(q == jx);
            assert(jy <= jx);
        }
    }
}

/// The schedule reads nothing but the wiring.  Two arenas with the same
/// operand structure — whatever their value and gradient cells hold —
/// produce the same visitation order and the same replay tape.  In
/// particular, resetting gradients, writing values, or running a backward
/// pass (which only writes the seed gradient) never changes the schedule,
/// so repeating a pass replays the identical tape.
pub proof fn lemma_schedule_wiring_only(a: Seq<NodeView>, b: Seq<NodeView>, t: usize)
    requires
        structure(a) == structure(b),
    ensures
        spec_topo(structure(a), t) == spec_topo(structure(b), t),
        spec_tape(structure(a), t) == spec_tape(structure(b), t),
{
}

/// Writing a scalar cell of a node keeps the wiring: the projection the
/// scheduler works on is untouched by `set_data`, `set_grad`, `zero_grad`
/// and the backward seed.
pub proof fn lemma_cell_write_keeps_wiring(s: Seq<NodeView>, i: int, nv: NodeView)
    requires
        0 <= i < s.len(),
        nv.op == s[i].op,
        nv.args == s[i].args,
    ensures
        structure(s.update(i, nv)) == structure(s),
{
    assert(structure(s.update(i, nv)) =~= structure(s));
}

impl Graph {
    /// Builds the replay tape for the given visitation order: one block of
    /// contributions per visited node, later-visited nodes first, slots in
    /// declared operand order within a block.
    fn make_tape(&self, order: &Vec<usize>) -> (tape: Vec<Contribution>)
        requires
            self.wf(),
            forall|p: int| 0 <= p < order@.len() ==> (#[trigger] order@[p] as int) < self@.len(),
        ensures
            tape@ == tape_down(structure(self@), order@, order@.len() as int),
    {
        let ghost st = structure(self@);
        let ghost total = tape_down(st, order@, order@.len() as int);
        let mut tape: Vec<Contribution> = Vec::new();
        let mut r = order.len();
        while r > 0
            invariant
                self.wf(),
                st == structure(self@),
                total == tape_down(st, order@, order@.len() as int),
                r <= order@.len(),
                forall|p: int| 0 <= p < order@.len() ==> (#[trigger] order@[p] as int) < self@.len(),
                tape@ + tape_down(st, order@, r as int) == total,
            decreases r,
        {
            r -= 1;
            let p = order[r];
            let n = self.arity(p);
            let ghost before = tape@;
            let mut s: usize = 0;
            while s < n
                invariant
                    n == st[p as int].len(),
                    s <= n,
                    tape@ == before + node_block(p, s as nat),
                decreases n - s,
            {
                tape.push(Contribution { parent: p, slot: s });
                proof {
                    assert(node_block(p, (s + 1) as nat) =~= node_block(p, s as nat).push(
                        Contribution { parent: p, slot: s },
                    ));
                    assert(tape@ =~= before + node_block(p, (s + 1) as nat));
                }
                s += 1;
            }
            proof {
                assert(st[p as int] == self@[p as int].args);
                assert(tape_down(st, order@, r + 1) == node_block(
                    order@[r as int],
                    st[order@[r as int] as int].len(),
                ) + tape_down(st, order@, r as int));
                assert(tape@ + tape_down(st, order@, r as int) =~= (before + tape_down(
                    st,
                    order@,
                    r + 1,
                )));
            }
        }
        proof {
            assert(tape@ + tape_down(st, order@, 0) =~= tape@);
        }
        tape
    }

    /// The backward pass, up to arithmetic: computes the visitation order
    /// from terminal `t`, seeds `t`'s gradient cell with the unit scalar,
    /// and returns the replay tape.  No other cell is touched — gradient
    /// accumulation is the embedding application's numeric work, performed
    /// by walking the tape in order and adding each contribution into the
    /// target operand's gradient cell, which is never reset here, so
    /// repeated passes accumulate.
    pub fn backward(&mut self, t: usize) -> (tape: Vec<Contribution>)
        requires
            old(self).wf(),
            t < old(self)@.len(),
        ensures
            final(self).wf(),
            final(self)@ == old(self)@.update(
                t as int,
                (NodeView { grad: SCALAR_ONE, ..old(self)@[t as int] }),
            ),
            tape@ == spec_tape(structure(old(self)@), t),
    {
        let order = self.build_topo(t);
        let tape = self.make_tape(&order);
        self.set_grad(t, SCALAR_ONE);
        proof {
            lemma_cell_write_keeps_wiring(
                old(self)@,
                t as int,
                NodeView { grad: SCALAR_ONE, ..old(self)@[t as int] },
            );
        }
        tape
    }
}

} // verus!
