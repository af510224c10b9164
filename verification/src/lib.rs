//! A reverse-mode automatic-differentiation core over scalar quantities.
//!
//! The engine keeps every node of a computation graph in one growable arena;
//! a node is addressed by the index it was given at creation, and its operand
//! list always points at strictly earlier indices, so the graph is acyclic by
//! construction.  The scalar payload of a node (its current value and its
//! accumulated gradient) is carried as an opaque 32-bit pattern: the engine
//! never interprets those bits numerically.  The embedding application owns
//! the numeric interpretation — typically IEEE-754 single precision — and
//! performs every arithmetic step; the engine decides, and proves correct,
//! everything else: which nodes exist, how they are wired, in which order a
//! backward pass must replay the local gradient rules, and that each
//! gradient contribution is scheduled exactly once.
//!
//! The embedding drives the engine in two moves.  Forward: after creating
//! nodes, it walks the new indices in order (index order is a topological
//! order) and writes each node's value cell from its operands' values.
//! Backward: it calls [`engine::Graph::backward`], which seeds the
//! terminal's gradient cell with the unit scalar and returns a replay tape;
//! the embedding walks the tape in order and, for each entry, computes the
//! parent's local gradient rule at the entry's operand slot and adds the
//! contribution into the target operand's gradient cell.  The theorems in
//! [`backward`] guarantee that this replay touches every reachable
//! contribution edge exactly once and always finishes a node's own gradient
//! before the node distributes it, on arbitrary DAG shapes.

pub mod backward;
pub mod engine;
pub mod mat;
pub mod topo;
