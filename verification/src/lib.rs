//! A scalar-valued reverse-mode automatic-differentiation engine.
//!
//! Expressions over scalar values build a directed acyclic graph as a side
//! effect of evaluation: every operator allocates a new node recording its
//! operands, so the graph is acyclic by construction.  The backward pass then
//! computes the gradient of a chosen root node with respect to every node
//! that contributed to it, applying each reachable node's derivative rule
//! exactly once, in an order in which every parent runs before any of its
//! children, and accumulating (never overwriting) each contribution.
//!
//! Scalars ([`value::Val`]) are exact rationals with a single absorbing
//! non-finite value standing in for whatever the representation cannot hold.
//! Nodes live in an arena ([`graph::Graph`]) and are addressed by index, so
//! handles have identity semantics: two leaves holding the same number stay
//! distinct, and a node reachable along several paths is still processed
//! once.
//!
//! The contracts pin the engine down exactly: each operator's forward value
//! is the exact rational result of its operands' values, and
//! [`graph::Graph::backward`] leaves precisely the gradients of the
//! specified pass.  On top of those sit the proved laws: the chain rule
//! ([`graph::lemma_chain_rule`] — every node's final gradient is its prior
//! gradient plus one contribution per operand slot of each reachable parent,
//! computed from the parent's own final gradient), accumulation across
//! passes ([`graph::lemma_pass_accumulates`],
//! [`graph::lemma_backward_accumulates`], [`graph::lemma_terms_independent`]),
//! idempotent re-seeding of the root ([`graph::lemma_backward_reseed`]), and
//! exactness and symmetry of the arithmetic surface
//! ([`value::lemma_sum_exact`], [`value::lemma_diff_exact`],
//! [`value::lemma_quot_exact`], [`value::lemma_powi_exact`],
//! [`value::lemma_sum_comm`], [`value::lemma_prod_comm`]).

pub mod graph;
pub mod value;
