//! A compiler core for neural-network inference graphs.
//!
//! A model arrives as a partially specified graph of operations. The library
//! infers the missing type and shape information, rewrites the graph into
//! increasingly specialized forms (typed, optionally pulsed, optimized), and
//! hands back a validated graph ready for execution. Every rewrite goes
//! through one atomic editing primitive, the patch, so the graph invariants
//! are maintained in a single place.
//!
//! The pieces, leaves first: [`fact`] is the lattice of edge descriptions
//! and their unification; [`graph`] the arena of nodes, outlets and inlets
//! with its invariant; [`construct`] the incremental builder front ends use;
//! [`topo`] the scheduler and the proof that schedulability is acyclicity;
//! [`patch`] the atomic changeset; [`ops`] the typing rule of each
//! operation; [`analyse`] the inference fixed point; [`rewrite`] the
//! incorporation, declutter and optimizer passes; [`stream`] type lowering,
//! stream concretization and the pulse transform; [`eval`] the reference
//! semantics and the pulse-equivalence laws; [`driver`] the staged pipeline.

pub mod analyse;
pub mod construct;
pub mod driver;
pub mod eval;
pub mod fact;
pub mod graph;
pub mod ops;
pub mod patch;
pub mod rewrite;
pub mod stream;
pub mod topo;
