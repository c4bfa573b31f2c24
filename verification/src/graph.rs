//! The computation graph: an arena of nodes and the backward engine.
//!
//! Every operator allocates a new node at the end of the arena whose children
//! are pre-existing nodes, so a child's index is always smaller than its
//! parent's and the graph is acyclic by construction.  A node is addressed by
//! its arena index, which gives every handle identity semantics: two leaves
//! holding the same number are still distinct nodes.
//!
//! Gradients live beside the nodes and are mutated only by [`Graph::backward`];
//! operator constructors never touch an operand node.

use vstd::prelude::*;

verus! {

use crate::value::{
    Val, val_wf, val_pos, zero_val, one_val, neg_one_val, sum_spec, prod_spec, max_zero_spec,
    powi_spec,
};

/// The operator that produced a node.  `Leaf` marks an input constant or
/// parameter not derived from other nodes.
#[derive(Clone, Copy, Debug, PartialEq, Eq, Structural)]
pub enum Op {
    Leaf,
    Add,
    Mul,
    Pow,
    Relu,
}

/// One node of the graph: its forward value, its operator tag, and the arena
/// indices of the operands that produced it, in operator-defined order.
pub struct Node {
    pub value: Val,
    pub op: Op,
    pub children: Vec<usize>,
}

/// A single node is well formed: its value is well formed, its child count
/// matches its operator, and every child index is smaller than its own.
pub open spec fn node_ok(nodes: Seq<Node>, i: int) -> bool {
    &&& val_wf(nodes[i].value)
    &&& match nodes[i].op {
        Op::Leaf => nodes[i].children@.len() == 0,
        Op::Add | Op::Mul | Op::Pow => nodes[i].children@.len() == 2,
        Op::Relu => nodes[i].children@.len() == 1,
    }
    &&& forall|j: int|
        0 <= j < nodes[i].children@.len() ==> (#[trigger] nodes[i].children@[j]) < i
}

pub open spec fn nodes_ok(nodes: Seq<Node>) -> bool {
    forall|i: int| 0 <= i < nodes.len() ==> #[trigger] node_ok(nodes, i)
}

pub open spec fn grads_ok(grads: Seq<Val>) -> bool {
    forall|i: int| 0 <= i < grads.len() ==> val_wf(#[trigger] grads[i])
}

/// The node at index `c` is an operand of the node at index `p`.
pub open spec fn is_child(nodes: Seq<Node>, p: int, c: int) -> bool {
    exists|j: int|
        0 <= j < nodes[p].children@.len() && (#[trigger] nodes[p].children@[j]) as int == c
}

/// The node at index `i` is reachable from `root` over the children relation
/// (the root reaches itself).
pub open spec fn reaches(nodes: Seq<Node>, root: int, i: int) -> bool
    decreases root - i,
{
    if 0 <= i <= root && root < nodes.len() {
        i == root || exists|p: int|
            i < p <= root && reaches(nodes, root, p) && #[trigger] is_child(nodes, p, i)
    } else {
        false
    }
}

/// The gradient at index `c` increased by the term `t` (accumulation, never
/// assignment).
pub open spec fn upd_grad(grads: Seq<Val>, c: int, t: Val) -> Seq<Val> {
    grads.update(c, sum_spec(grads[c], t))
}

/// One application of the derivative rule of the node at index `i`: the
/// node's gradient `g`, distributed to its children.
///
/// - add pushes `g` to each operand, in order, so `x + x` receives both;
/// - multiply pushes `g` times the other operand's value to each operand;
/// - power pushes `g * p * base^(p-1)` to the base; the exponent leaf is a
///   non-differentiated constant and receives nothing;
/// - rectify pushes `g` to its operand if the node's value is positive,
///   nothing otherwise (the subgradient at zero is zero);
/// - a leaf has no rule.
pub open spec fn step(nodes: Seq<Node>, grads: Seq<Val>, i: int) -> Seq<Val> {
    let g = grads[i];
    match nodes[i].op {
        Op::Leaf => grads,
        Op::Add => {
            let c0 = nodes[i].children@[0] as int;
            let c1 = nodes[i].children@[1] as int;
            upd_grad(upd_grad(grads, c0, g), c1, g)
        },
        Op::Mul => {
            let c0 = nodes[i].children@[0] as int;
            let c1 = nodes[i].children@[1] as int;
            let t0 = prod_spec(g, nodes[c1].value);
            let t1 = prod_spec(g, nodes[c0].value);
            upd_grad(upd_grad(grads, c0, t0), c1, t1)
        },
        Op::Pow => {
            let c0 = nodes[i].children@[0] as int;
            let c1 = nodes[i].children@[1] as int;
            let t = prod_spec(
                prod_spec(g, nodes[c1].value),
                powi_spec(nodes[c0].value, sum_spec(nodes[c1].value, neg_one_val())),
            );
            upd_grad(grads, c0, t)
        },
        Op::Relu => {
            let c0 = nodes[i].children@[0] as int;
            if val_pos(nodes[i].value) {
                upd_grad(grads, c0, g)
            } else {
                grads
            }
        },
    }
}

/// The rule of node `i` runs only if the root reaches it.
pub open spec fn step_if(nodes: Seq<Node>, grads: Seq<Val>, root: int, i: int) -> Seq<Val> {
    if reaches(nodes, root, i) {
        step(nodes, grads, i)
    } else {
        grads
    }
}

/// The backward pass over indices `root` down to `lo`: the rules of the
/// reachable nodes among them, applied in decreasing index order.  Since
/// every child index is smaller than its parent's, this order runs every
/// parent of a node before the node itself.
pub open spec fn pass_upto(nodes: Seq<Node>, grads: Seq<Val>, root: int, lo: int) -> Seq<Val>
    decreases root + 1 - lo,
{
    if lo > root {
        grads
    } else {
        step_if(nodes, pass_upto(nodes, grads, root, lo + 1), root, lo)
    }
}

/// The contribution terms the rule of node `i` pushes to node `j`, in slot
/// order: two entries when `j` fills both operand slots, one when it fills
/// one, none otherwise.
pub open spec fn step_terms(nodes: Seq<Node>, grads: Seq<Val>, i: int, j: int) -> Seq<Val> {
    let g = grads[i];
    match nodes[i].op {
        Op::Leaf => Seq::empty(),
        Op::Add => {
            let c0 = nodes[i].children@[0] as int;
            let c1 = nodes[i].children@[1] as int;
            let first: Seq<Val> = if c0 == j {
                seq![g]
            } else {
                Seq::empty()
            };
            let second: Seq<Val> = if c1 == j {
                seq![g]
            } else {
                Seq::empty()
            };
            first + second
        },
        Op::Mul => {
            let c0 = nodes[i].children@[0] as int;
            let c1 = nodes[i].children@[1] as int;
            let first: Seq<Val> = if c0 == j {
                seq![prod_spec(g, nodes[c1].value)]
            } else {
                Seq::empty()
            };
            let second: Seq<Val> = if c1 == j {
                seq![prod_spec(g, nodes[c0].value)]
            } else {
                Seq::empty()
            };
            first + second
        },
        Op::Pow => {
            let c0 = nodes[i].children@[0] as int;
            let c1 = nodes[i].children@[1] as int;
            if c0 == j {
                seq![
                    prod_spec(
                        prod_spec(g, nodes[c1].value),
                        powi_spec(nodes[c0].value, sum_spec(nodes[c1].value, neg_one_val())),
                    ),
                ]
            } else {
                Seq::empty()
            }
        },
        Op::Relu => {
            let c0 = nodes[i].children@[0] as int;
            if val_pos(nodes[i].value) && c0 == j {
                seq![g]
            } else {
                Seq::empty()
            }
        },
    }
}

/// Every contribution term the backward pass over indices `root` down to
/// `lo` pushes to node `j`, in the order pushed.
pub open spec fn pass_terms(nodes: Seq<Node>, grads: Seq<Val>, root: int, lo: int, j: int) -> Seq<
    Val,
>
    decreases root + 1 - lo,
{
    if lo > root {
        Seq::empty()
    } else {
        pass_terms(nodes, grads, root, lo + 1, j) + (if reaches(nodes, root, lo) {
            step_terms(nodes, pass_upto(nodes, grads, root, lo + 1), lo, j)
        } else {
            Seq::empty()
        })
    }
}

/// The contribution terms every reachable node of index `root` down to `lo`
/// pushes to node `j`, read against one fixed gradient state `fin` — used to
/// state the chain rule against the final gradients of the pass.
pub open spec fn parent_terms(
    nodes: Seq<Node>,
    fin: Seq<Val>,
    root: int,
    lo: int,
    j: int,
) -> Seq<Val>
    decreases root + 1 - lo,
{
    if lo > root {
        Seq::empty()
    } else {
        parent_terms(nodes, fin, root, lo + 1, j) + (if reaches(nodes, root, lo) {
            step_terms(nodes, fin, lo, j)
        } else {
            Seq::empty()
        })
    }
}

/// The terms summed onto a starting gradient, one after the other, in order.
pub open spec fn fold_sum(seed: Val, ts: Seq<Val>) -> Val
    decreases ts.len(),
{
    if ts.len() == 0 {
        seed
    } else {
        sum_spec(fold_sum(seed, ts.drop_last()), ts.last())
    }
}

/// An operand of a reachable node is itself reachable.
pub proof fn lemma_child_reachable(nodes: Seq<Node>, root: int, p: int, c: int)
    requires
        nodes_ok(nodes),
        reaches(nodes, root, p),
        is_child(nodes, p, c),
        0 <= c,
    ensures
        reaches(nodes, root, c),
{
    let t = choose|t: int|
        0 <= t < nodes[p].children@.len() && (#[trigger] nodes[p].children@[t]) as int == c;
    assert(node_ok(nodes, p));
    assert(nodes[p].children@[t] < p);
    assert(c < p <= root);
}

/// A reachable node other than the root is the operand of some reachable
/// node with a larger index.
proof fn lemma_reaches_inv(nodes: Seq<Node>, root: int, i: int)
    requires
        reaches(nodes, root, i),
        0 <= i < root,
        root < nodes.len(),
    ensures
        exists|p: int|
            i < p <= root && reaches(nodes, root, p) && #[trigger] is_child(nodes, p, i),
{
    assert(i == root || exists|p: int|
        i < p <= root && reaches(nodes, root, p) && #[trigger] is_child(nodes, p, i));
}

/// A node that is not an operand of node `i` keeps its gradient across the
/// rule of node `i`.
proof fn lemma_step_untouched(nodes: Seq<Node>, grads: Seq<Val>, i: int, q: int)
    requires
        nodes_ok(nodes),
        0 <= i < nodes.len(),
        0 <= q < grads.len(),
        grads.len() == nodes.len(),
        !is_child(nodes, i, q),
    ensures
        step(nodes, grads, i).len() == grads.len(),
        step(nodes, grads, i)[q] == grads[q],
{
    assert(node_ok(nodes, i));
    match nodes[i].op {
        Op::Leaf => {},
        Op::Add | Op::Mul | Op::Pow => {
            let c0 = nodes[i].children@[0] as int;
            let c1 = nodes[i].children@[1] as int;
            assert(nodes[i].children@[0] < i);
            assert(nodes[i].children@[1] < i);
            assert(q != c0) by {
                if q == c0 {
                    assert((nodes[i].children@[0]) as int == q);
                }
            }
            assert(q != c1) by {
                if q == c1 {
                    assert((nodes[i].children@[1]) as int == q);
                }
            }
        },
        Op::Relu => {
            let c0 = nodes[i].children@[0] as int;
            assert(nodes[i].children@[0] < i);
            assert(q != c0) by {
                if q == c0 {
                    assert((nodes[i].children@[0]) as int == q);
                }
            }
        },
    }
}

/// What the backward pass leaves alone: the root itself and everything above
/// it, and every node the root does not reach.
pub proof fn lemma_pass_props(nodes: Seq<Node>, grads: Seq<Val>, root: int, lo: int)
    requires
        nodes_ok(nodes),
        grads.len() == nodes.len(),
        0 <= lo,
        0 <= root < nodes.len(),
    ensures
        pass_upto(nodes, grads, root, lo).len() == grads.len(),
        forall|q: int|
            root <= q < grads.len() ==> #[trigger] pass_upto(nodes, grads, root, lo)[q]
                == grads[q],
        forall|q: int|
            0 <= q < grads.len() && !reaches(nodes, root, q) ==> #[trigger] pass_upto(
                nodes,
                grads,
                root,
                lo,
            )[q] == grads[q],
    decreases root + 1 - lo,
{
    if lo > root {
    } else {
        lemma_pass_props(nodes, grads, root, lo + 1);
        let mid = pass_upto(nodes, grads, root, lo + 1);
        let res = pass_upto(nodes, grads, root, lo);
        assert(node_ok(nodes, lo));
        if reaches(nodes, root, lo) {
            assert forall|q: int| root <= q < grads.len() implies res[q] == mid[q] by {
                assert(!is_child(nodes, lo, q)) by {
                    if is_child(nodes, lo, q) {
                        let t = choose|t: int|
                            0 <= t < nodes[lo].children@.len()
                                && (#[trigger] nodes[lo].children@[t]) as int == q;
                        assert(nodes[lo].children@[t] < lo);
                    }
                }
                lemma_step_untouched(nodes, mid, lo, q);
            }
            assert forall|q: int|
                0 <= q < grads.len() && !reaches(nodes, root, q) implies res[q] == mid[q] by {
                assert(!is_child(nodes, lo, q)) by {
                    if is_child(nodes, lo, q) {
                        lemma_child_reachable(nodes, root, lo, q);
                    }
                }
                lemma_step_untouched(nodes, mid, lo, q);
            }
            assert(!is_child(nodes, lo, root)) by {
                if is_child(nodes, lo, root) {
                    let t = choose|t: int|
                        0 <= t < nodes[lo].children@.len()
                            && (#[trigger] nodes[lo].children@[t]) as int == root;
                    assert(nodes[lo].children@[t] < lo);
                }
            }
            lemma_step_untouched(nodes, mid, lo, root);
        }
    }
}

/// Law: the backward pass accumulates, it never resets: what it leaves at a
/// node is exactly that node's starting gradient with the pass's
/// contribution terms summed on, one `+=` after the other, in the order they
/// were pushed.  A node referenced by several consumers — or by both operand
/// slots of one consumer — therefore receives every contribution, and a
/// gradient left over from an earlier pass is added to rather than replaced
/// (only the root's seed is set before a pass begins).
pub proof fn lemma_pass_accumulates(nodes: Seq<Node>, grads: Seq<Val>, root: int, lo: int, j: int)
    requires
        nodes_ok(nodes),
        grads.len() == nodes.len(),
        0 <= root < nodes.len(),
        0 <= lo,
        0 <= j < nodes.len(),
    ensures
        pass_upto(nodes, grads, root, lo)[j] == fold_sum(
            grads[j],
            pass_terms(nodes, grads, root, lo, j),
        ),
    decreases root + 1 - lo,
{
    if lo > root {
    } else {
        lemma_pass_accumulates(nodes, grads, root, lo + 1, j);
        lemma_pass_props(nodes, grads, root, lo + 1);
        let mid = pass_upto(nodes, grads, root, lo + 1);
        let a = pass_terms(nodes, grads, root, lo + 1, j);
        let res = pass_upto(nodes, grads, root, lo);
        let t = pass_terms(nodes, grads, root, lo, j);
        assert(node_ok(nodes, lo));
        if reaches(nodes, root, lo) {
            let s = step_terms(nodes, mid, lo, j);
            assert(t == a + s);
            let g = mid[lo];
            match nodes[lo].op {
                Op::Leaf => {
                    assert(t =~= a);
                },
                Op::Add | Op::Mul => {
                    let c0 = nodes[lo].children@[0] as int;
                    let c1 = nodes[lo].children@[1] as int;
                    assert(nodes[lo].children@[0] < lo);
                    assert(nodes[lo].children@[1] < lo);
                    let t0 = if nodes[lo].op is Add {
                        g
                    } else {
                        prod_spec(g, nodes[c1].value)
                    };
                    let t1 = if nodes[lo].op is Add {
                        g
                    } else {
                        prod_spec(g, nodes[c0].value)
                    };
                    assert(res == upd_grad(upd_grad(mid, c0, t0), c1, t1));
                    if c0 == j && c1 == j {
                        assert(s =~= seq![t0, t1]);
                        assert(res[j] == sum_spec(sum_spec(mid[j], t0), t1));
                        assert((a + s).drop_last() =~= a + seq![t0]);
                        assert((a + seq![t0]).drop_last() =~= a);
                        assert(fold_sum(grads[j], a + seq![t0]) == sum_spec(
                            fold_sum(grads[j], a),
                            t0,
                        ));
                        assert(fold_sum(grads[j], t) == sum_spec(
                            fold_sum(grads[j], a + seq![t0]),
                            t1,
                        ));
                    } else if c0 == j {
                        assert(s =~= seq![t0]);
                        assert(res[j] == sum_spec(mid[j], t0));
                        assert((a + s).drop_last() =~= a);
                    } else if c1 == j {
                        assert(s =~= seq![t1]);
                        assert(res[j] == sum_spec(mid[j], t1));
                        assert((a + s).drop_last() =~= a);
                    } else {
                        assert(s =~= Seq::<Val>::empty());
                        assert(t =~= a);
                        assert(res[j] == mid[j]);
                    }
                },
                Op::Pow => {
                    let c0 = nodes[lo].children@[0] as int;
                    let c1 = nodes[lo].children@[1] as int;
                    assert(nodes[lo].children@[0] < lo);
                    let tp = prod_spec(
                        prod_spec(g, nodes[c1].value),
                        powi_spec(nodes[c0].value, sum_spec(nodes[c1].value, neg_one_val())),
                    );
                    assert(res == upd_grad(mid, c0, tp));
                    if c0 == j {
                        assert(s =~= seq![tp]);
                        assert(res[j] == sum_spec(mid[j], tp));
                        assert((a + s).drop_last() =~= a);
                    } else {
                        assert(s =~= Seq::<Val>::empty());
                        assert(t =~= a);
                        assert(res[j] == mid[j]);
                    }
                },
                Op::Relu => {
                    let c0 = nodes[lo].children@[0] as int;
                    assert(nodes[lo].children@[0] < lo);
                    if val_pos(nodes[lo].value) && c0 == j {
                        assert(s =~= seq![g]);
                        assert(res[j] == sum_spec(mid[j], g));
                        assert((a + s).drop_last() =~= a);
                    } else {
                        assert(s =~= Seq::<Val>::empty());
                        assert(t =~= a);
                        assert(res[j] == mid[j]);
                    }
                },
            }
        } else {
            assert(t =~= a);
        }
    }
}

/// Steps at indices below `lo1` never touch a node at `lo1 - 1` or above:
/// once the pass has moved past a node, that node's gradient is settled.
proof fn lemma_pass_frame_low(
    nodes: Seq<Node>,
    grads: Seq<Val>,
    root: int,
    lo1: int,
    lo2: int,
    p: int,
)
    requires
        nodes_ok(nodes),
        grads.len() == nodes.len(),
        0 <= root < nodes.len(),
        0 <= lo2 <= lo1,
        p >= lo1 - 1,
        0 <= p < nodes.len(),
    ensures
        pass_upto(nodes, grads, root, lo2)[p] == pass_upto(nodes, grads, root, lo1)[p],
    decreases lo1 - lo2,
{
    if lo2 == lo1 {
    } else {
        lemma_pass_frame_low(nodes, grads, root, lo1, lo2 + 1, p);
        if lo2 > root {
        } else {
            let mid = pass_upto(nodes, grads, root, lo2 + 1);
            lemma_pass_props(nodes, grads, root, lo2 + 1);
            if reaches(nodes, root, lo2) {
                assert(node_ok(nodes, lo2));
                assert(!is_child(nodes, lo2, p)) by {
                    if is_child(nodes, lo2, p) {
                        let t = choose|t: int|
                            0 <= t < nodes[lo2].children@.len()
                                && (#[trigger] nodes[lo2].children@[t]) as int == p;
                        assert(nodes[lo2].children@[t] < lo2);
                    }
                }
                lemma_step_untouched(nodes, mid, lo2, p);
            }
        }
    }
}

/// The terms a pass pushes to node `j` can be read against the pass's final
/// gradients: by the time a node's rule runs, all of its parents have run,
/// so its gradient is already the final one, and the rules of nodes at or
/// below `j` push nothing to `j` at all.
proof fn lemma_terms_settled(nodes: Seq<Node>, grads: Seq<Val>, root: int, lo: int, j: int)
    requires
        nodes_ok(nodes),
        grads.len() == nodes.len(),
        0 <= root < nodes.len(),
        0 <= lo,
        0 <= j < nodes.len(),
    ensures
        pass_terms(nodes, grads, root, lo, j) == parent_terms(
            nodes,
            pass_upto(nodes, grads, root, 0),
            root,
            lo,
            j,
        ),
    decreases root + 1 - lo,
{
    if lo > root {
    } else {
        lemma_terms_settled(nodes, grads, root, lo + 1, j);
        if reaches(nodes, root, lo) {
            lemma_pass_frame_low(nodes, grads, root, lo + 1, 0, lo);
            let fin = pass_upto(nodes, grads, root, 0);
            assert(fin[lo] == pass_upto(nodes, grads, root, lo + 1)[lo]);
            assert(step_terms(nodes, pass_upto(nodes, grads, root, lo + 1), lo, j) == step_terms(
                nodes,
                pass_upto(nodes, grads, root, 0),
                lo,
                j,
            ));
        }
    }
}

/// Law: the multivariate chain rule, as reverse-mode differentiation
/// computes it.  After a backward pass, the gradient of every node `j` is
/// `j`'s starting gradient plus one contribution for every operand slot of
/// every reachable parent in which `j` stands, each computed from that
/// parent's own final gradient and local derivative rule — the parents'
/// gradients are already complete when they propagate, however many paths
/// lead from the root to `j`.
pub proof fn lemma_chain_rule(nodes: Seq<Node>, grads: Seq<Val>, root: int, j: int)
    requires
        nodes_ok(nodes),
        grads.len() == nodes.len(),
        0 <= root < nodes.len(),
        0 <= j < nodes.len(),
    ensures
        pass_upto(nodes, grads, root, 0)[j] == fold_sum(
            grads[j],
            parent_terms(nodes, pass_upto(nodes, grads, root, 0), root, 0, j),
        ),
{
    lemma_pass_accumulates(nodes, grads, root, 0, j);
    lemma_terms_settled(nodes, grads, root, 0, j);
}

/// Law: what the backward pass pushes to a node does not depend on that
/// node's own starting gradient.  Two passes over the same graph whose
/// starting gradients agree everywhere above `j` push identical contribution
/// terms to `j` and leave identical gradients everywhere above `j`; together
/// with the accumulation law, the gradient a pass leaves at `j` is whatever
/// `j` started with plus a contribution the start of `j` had no part in.
pub proof fn lemma_terms_independent(
    nodes: Seq<Node>,
    g1: Seq<Val>,
    g2: Seq<Val>,
    root: int,
    lo: int,
    j: int,
)
    requires
        nodes_ok(nodes),
        g1.len() == nodes.len(),
        g2.len() == nodes.len(),
        0 <= root < nodes.len(),
        0 <= lo,
        0 <= j < nodes.len(),
        forall|q: int| j < q < nodes.len() ==> g1[q] == g2[q],
    ensures
        forall|q: int|
            j < q < nodes.len() ==> #[trigger] pass_upto(nodes, g1, root, lo)[q] == pass_upto(
                nodes,
                g2,
                root,
                lo,
            )[q],
        pass_terms(nodes, g1, root, lo, j) == pass_terms(nodes, g2, root, lo, j),
    decreases root + 1 - lo,
{
    if lo > root {
    } else {
        lemma_terms_independent(nodes, g1, g2, root, lo + 1, j);
        lemma_pass_props(nodes, g1, root, lo + 1);
        lemma_pass_props(nodes, g2, root, lo + 1);
        let m1 = pass_upto(nodes, g1, root, lo + 1);
        let m2 = pass_upto(nodes, g2, root, lo + 1);
        let r1 = pass_upto(nodes, g1, root, lo);
        let r2 = pass_upto(nodes, g2, root, lo);
        assert(node_ok(nodes, lo));
        if reaches(nodes, root, lo) {
            // the pushed terms read only the pushing node's gradient and the
            // operand values, which agree
            if lo > j {
                assert(m1[lo] == m2[lo]);
                assert(step_terms(nodes, m1, lo, j) == step_terms(nodes, m2, lo, j));
            } else {
                match nodes[lo].op {
                    Op::Leaf => {},
                    Op::Add | Op::Mul | Op::Pow => {
                        assert(nodes[lo].children@[0] < lo);
                        assert(nodes[lo].children@[1] < lo);
                    },
                    Op::Relu => {
                        assert(nodes[lo].children@[0] < lo);
                    },
                }
                assert(step_terms(nodes, m1, lo, j) =~= Seq::<Val>::empty());
                assert(step_terms(nodes, m2, lo, j) =~= Seq::<Val>::empty());
            }
            assert forall|q: int| j < q < nodes.len() implies #[trigger] r1[q] == r2[q] by {
                if lo <= j {
                    assert(!is_child(nodes, lo, q)) by {
                        if is_child(nodes, lo, q) {
                            let t = choose|t: int|
                                0 <= t < nodes[lo].children@.len()
                                    && (#[trigger] nodes[lo].children@[t]) as int == q;
                            assert(nodes[lo].children@[t] < lo);
                        }
                    }
                    lemma_step_untouched(nodes, m1, lo, q);
                    lemma_step_untouched(nodes, m2, lo, q);
                } else {
                    assert(m1[lo] == m2[lo]);
                    assert(m1[q] == m2[q]);
                    match nodes[lo].op {
                        Op::Leaf => {},
                        Op::Add | Op::Mul => {
                            let c0 = nodes[lo].children@[0] as int;
                            let c1 = nodes[lo].children@[1] as int;
                            assert(nodes[lo].children@[0] < lo);
                            assert(nodes[lo].children@[1] < lo);
                            if q == c0 || q == c1 {
                                assert(m1[c0] == m2[c0] || q != c0);
                                assert(m1[c1] == m2[c1] || q != c1);
                            }
                        },
                        Op::Pow => {
                            assert(nodes[lo].children@[0] < lo);
                        },
                        Op::Relu => {
                            assert(nodes[lo].children@[0] < lo);
                        },
                    }
                }
            }
        }
    }
}

/// Law: a backward pass run without resetting gradients accumulates.  For a
/// non-root node `j`, the pass leaves `j`'s prior gradient with the pass's
/// contribution terms summed on — it never replaces it — and those terms are
/// the same whatever gradient `j` carried into the pass (here `w` stands for
/// any such leftover), so a second pass adds its contributions on top of the
/// first pass's result.
pub proof fn lemma_backward_accumulates(
    nodes: Seq<Node>,
    grads: Seq<Val>,
    root: int,
    j: int,
    w: Val,
)
    requires
        nodes_ok(nodes),
        grads.len() == nodes.len(),
        0 <= root < nodes.len(),
        0 <= j < nodes.len(),
        j != root,
    ensures
        pass_upto(nodes, grads.update(root, one_val()), root, 0)[j] == fold_sum(
            grads[j],
            pass_terms(nodes, grads.update(root, one_val()), root, 0, j),
        ),
        pass_terms(nodes, grads.update(j, w).update(root, one_val()), root, 0, j) == pass_terms(
            nodes,
            grads.update(root, one_val()),
            root,
            0,
            j,
        ),
{
    let seeded = grads.update(root, one_val());
    lemma_pass_accumulates(nodes, seeded, root, 0, j);
    assert(seeded[j] == grads[j]);
    lemma_terms_independent(nodes, grads.update(j, w).update(root, one_val()), seeded, root, 0, j);
}

/// Law: re-seeding is idempotent at the root, and passes never touch what the
/// root does not reach.  Whatever gradients an earlier backward pass left
/// behind (the pass accumulates into non-root gradients rather than resetting
/// them), a further pass from the same root leaves the root's gradient at
/// exactly one, and leaves every unreachable node's gradient as it found it.
pub proof fn lemma_backward_reseed(nodes: Seq<Node>, grads: Seq<Val>, root: int)
    requires
        nodes_ok(nodes),
        grads.len() == nodes.len(),
        0 <= root < nodes.len(),
    ensures
        pass_upto(nodes, grads.update(root, one_val()), root, 0)[root] == one_val(),
        forall|j: int|
            0 <= j < nodes.len() && !reaches(nodes, root, j) ==> #[trigger] pass_upto(
                nodes,
                grads.update(root, one_val()),
                root,
                0,
            )[j] == grads[j],
{
    let seeded = grads.update(root, one_val());
    lemma_pass_props(nodes, seeded, root, 0);
    assert forall|j: int|
        0 <= j < nodes.len() && !reaches(nodes, root, j) implies #[trigger] pass_upto(
        nodes,
        seeded,
        root,
        0,
    )[j] == grads[j] by {
        assert(reaches(nodes, root, root));
        assert(j != root);
        assert(pass_upto(nodes, seeded, root, 0)[j] == seeded[j]);
    }
}

/// The scalar computation graph.
pub struct Graph {
    nodes: Vec<Node>,
    grads: Vec<Val>,
}

impl Graph {
    /// The nodes, as the contracts speak of them.
    pub closed spec fn spec_nodes(self) -> Seq<Node> {
        self.nodes@
    }

    /// The gradient accumulators, one per node, as the contracts speak of
    /// them.
    pub closed spec fn spec_grads(self) -> Seq<Val> {
        self.grads@
    }

    pub open spec fn wf(self) -> bool {
        &&& nodes_ok(self.spec_nodes())
        &&& grads_ok(self.spec_grads())
        &&& self.spec_grads().len() == self.spec_nodes().len()
    }

    pub open spec fn len_spec(self) -> int {
        self.spec_nodes().len() as int
    }

    pub open spec fn value_at(self, i: int) -> Val {
        self.spec_nodes()[i].value
    }

    pub open spec fn grad_at(self, i: int) -> Val {
        self.spec_grads()[i]
    }

    pub open spec fn op_at(self, i: int) -> Op {
        self.spec_nodes()[i].op
    }

    pub open spec fn children_at(self, i: int) -> Seq<usize> {
        self.spec_nodes()[i].children@
    }

    /// The nodes of `pre` still stand, unchanged in value, operator, children
    /// and gradient, at the same indices of `post`.
    pub open spec fn grown_from(post: Graph, pre: Graph) -> bool {
        &&& post.len_spec() >= pre.len_spec()
        &&& forall|i: int|
            0 <= i < pre.len_spec() ==> #[trigger] post.spec_nodes()[i] == pre.spec_nodes()[i]
        &&& forall|i: int|
            0 <= i < pre.len_spec() ==> #[trigger] post.spec_grads()[i] == pre.spec_grads()[i]
    }

    pub fn new() -> (g: Graph)
        ensures
            g.wf(),
            g.len_spec() == 0,
    {
        Graph { nodes: Vec::new(), grads: Vec::new() }
    }

    pub fn len(&self) -> (n: usize)
        ensures
            n as int == self.len_spec(),
    {
        self.nodes.len()
    }

    fn push_node(&mut self, value: Val, op: Op, children: Vec<usize>) -> (id: usize)
        requires
            old(self).wf(),
            val_wf(value),
            match op {
                Op::Leaf => children@.len() == 0,
                Op::Add | Op::Mul | Op::Pow => children@.len() == 2,
                Op::Relu => children@.len() == 1,
            },
            forall|j: int|
                0 <= j < children@.len() ==> (#[trigger] children@[j]) < old(self).len_spec(),
        ensures
            final(self).wf(),
            id as int == old(self).len_spec(),
            final(self).len_spec() == old(self).len_spec() + 1,
            Graph::grown_from(*final(self), *old(self)),
            final(self).value_at(id as int) == value,
            final(self).op_at(id as int) == op,
            final(self).children_at(id as int) == children@,
            final(self).grad_at(id as int) == zero_val(),
    {
        let id = self.nodes.len();
        self.nodes.push(Node { value, op, children });
        self.grads.push(Val::Finite { num: 0, den: 1 });
        proof {
            let post = self.nodes@;
            let pre = old(self).nodes@;
            assert forall|i: int| 0 <= i < post.len() implies #[trigger] node_ok(post, i) by {
                if i < pre.len() {
                    assert(node_ok(pre, i));
                    assert(post[i] == pre[i]);
                }
            }
        }
        id
    }

    /// A leaf node holding an input value: no operator, no children, gradient
    /// zero.
    pub fn leaf(&mut self, v: Val) -> (id: usize)
        requires
            old(self).wf(),
            val_wf(v),
        ensures
            final(self).wf(),
            id as int == old(self).len_spec(),
            final(self).len_spec() == old(self).len_spec() + 1,
            Graph::grown_from(*final(self), *old(self)),
            final(self).value_at(id as int) == v,
            final(self).op_at(id as int) == Op::Leaf,
            final(self).children_at(id as int).len() == 0,
            final(self).grad_at(id as int) == zero_val(),
    {
        self.push_node(v, Op::Leaf, Vec::new())
    }

    /// A leaf node holding the integer `n`.
    pub fn leaf_int(&mut self, n: i64) -> (id: usize)
        requires
            old(self).wf(),
        ensures
            final(self).wf(),
            id as int == old(self).len_spec(),
            final(self).len_spec() == old(self).len_spec() + 1,
            Graph::grown_from(*final(self), *old(self)),
            final(self).value_at(id as int) == (Val::Finite { num: n, den: 1 }),
            final(self).op_at(id as int) == Op::Leaf,
            final(self).children_at(id as int).len() == 0,
            final(self).grad_at(id as int) == zero_val(),
    {
        self.leaf(Val::Finite { num: n, den: 1 })
    }

    /// `a + b`: a new node whose value is the exact sum of the operands'
    /// values and whose children are `[a, b]`.  The operands are not changed.
    pub fn add(&mut self, a: usize, b: usize) -> (id: usize)
        requires
            old(self).wf(),
            a < old(self).len_spec(),
            b < old(self).len_spec(),
        ensures
            final(self).wf(),
            id as int == old(self).len_spec(),
            final(self).len_spec() == old(self).len_spec() + 1,
            Graph::grown_from(*final(self), *old(self)),
            final(self).value_at(id as int) == sum_spec(
                old(self).value_at(a as int),
                old(self).value_at(b as int),
            ),
            final(self).op_at(id as int) == Op::Add,
            final(self).children_at(id as int) == seq![a, b],
            final(self).grad_at(id as int) == zero_val(),
    {
        proof {
            assert(node_ok(self.spec_nodes(), a as int));
            assert(node_ok(self.spec_nodes(), b as int));
        }
        let v = self.nodes[a].value.plus(self.nodes[b].value);
        let id = self.push_node(v, Op::Add, vec![a, b]);
        proof {
            assert(final(self).children_at(id as int) =~= seq![a, b]);
        }
        id
    }

    /// `a * b`: a new node whose value is the exact product of the operands'
    /// values and whose children are `[a, b]`.  The operands are not changed.
    pub fn mul(&mut self, a: usize, b: usize) -> (id: usize)
        requires
            old(self).wf(),
            a < old(self).len_spec(),
            b < old(self).len_spec(),
        ensures
            final(self).wf(),
            id as int == old(self).len_spec(),
            final(self).len_spec() == old(self).len_spec() + 1,
            Graph::grown_from(*final(self), *old(self)),
            final(self).value_at(id as int) == prod_spec(
                old(self).value_at(a as int),
                old(self).value_at(b as int),
            ),
            final(self).op_at(id as int) == Op::Mul,
            final(self).children_at(id as int) == seq![a, b],
            final(self).grad_at(id as int) == zero_val(),
    {
        proof {
            assert(node_ok(self.spec_nodes(), a as int));
            assert(node_ok(self.spec_nodes(), b as int));
        }
        let v = self.nodes[a].value.times(self.nodes[b].value);
        let id = self.push_node(v, Op::Mul, vec![a, b]);
        proof {
            assert(final(self).children_at(id as int) =~= seq![a, b]);
        }
        id
    }

    /// `a ^ e`: the exponent is itself recorded as a constant leaf, so the
    /// derivative rule can read it from the children rather than closing over
    /// state.  Two nodes are allocated: the exponent leaf, then the power
    /// node with children `[a, exponent]`.
    pub fn pow(&mut self, a: usize, e: Val) -> (id: usize)
        requires
            old(self).wf(),
            a < old(self).len_spec(),
            val_wf(e),
        ensures
            final(self).wf(),
            id as int == old(self).len_spec() + 1,
            final(self).len_spec() == old(self).len_spec() + 2,
            Graph::grown_from(*final(self), *old(self)),
            final(self).value_at(id as int) == powi_spec(old(self).value_at(a as int), e),
            final(self).op_at(id as int) == Op::Pow,
            final(self).children_at(id as int) == seq![a, (id - 1) as usize],
            final(self).value_at(id as int - 1) == e,
            final(self).op_at(id as int - 1) == Op::Leaf,
            final(self).grad_at(id as int) == zero_val(),
            final(self).grad_at(id as int - 1) == zero_val(),
    {
        proof {
            assert(node_ok(self.spec_nodes(), a as int));
        }
        let v = self.nodes[a].value.powi(e);
        let p = self.leaf(e);
        let id = self.push_node(v, Op::Pow, vec![a, p]);
        proof {
            assert(final(self).children_at(id as int) =~= seq![a, p]);
        }
        id
    }

    /// `max(a, 0)`, the rectifier: a new node with the single child `[a]`.
    pub fn relu(&mut self, a: usize) -> (id: usize)
        requires
            old(self).wf(),
            a < old(self).len_spec(),
        ensures
            final(self).wf(),
            id as int == old(self).len_spec(),
            final(self).len_spec() == old(self).len_spec() + 1,
            Graph::grown_from(*final(self), *old(self)),
            final(self).value_at(id as int) == max_zero_spec(old(self).value_at(a as int)),
            final(self).op_at(id as int) == Op::Relu,
            final(self).children_at(id as int) == seq![a],
            final(self).grad_at(id as int) == zero_val(),
    {
        proof {
            assert(node_ok(self.spec_nodes(), a as int));
        }
        let v = self.nodes[a].value.max_zero();
        let id = self.push_node(v, Op::Relu, vec![a]);
        proof {
            assert(final(self).children_at(id as int) =~= seq![a]);
        }
        id
    }

    /// `-a`, implemented as multiplication by a constant leaf holding `-1`:
    /// the leaf is allocated first, then the product node.
    pub fn neg(&mut self, a: usize) -> (id: usize)
        requires
            old(self).wf(),
            a < old(self).len_spec(),
        ensures
            final(self).wf(),
            id as int == old(self).len_spec() + 1,
            final(self).len_spec() == old(self).len_spec() + 2,
            Graph::grown_from(*final(self), *old(self)),
            final(self).value_at(id as int) == prod_spec(
                old(self).value_at(a as int),
                neg_one_val(),
            ),
            final(self).op_at(id as int) == Op::Mul,
            final(self).children_at(id as int) == seq![a, (id - 1) as usize],
            final(self).value_at(id as int - 1) == neg_one_val(),
            final(self).op_at(id as int - 1) == Op::Leaf,
            forall|j: int|
                old(self).len_spec() <= j < final(self).len_spec()
                    ==> final(self).grad_at(j) == zero_val(),
    {
        let m = self.leaf(Val::Finite { num: -1i64, den: 1 });
        self.mul(a, m)
    }

    /// `a - b`, implemented as `a + (-b)`.
    pub fn sub(&mut self, a: usize, b: usize) -> (id: usize)
        requires
            old(self).wf(),
            a < old(self).len_spec(),
            b < old(self).len_spec(),
        ensures
            final(self).wf(),
            id as int == old(self).len_spec() + 2,
            final(self).len_spec() == old(self).len_spec() + 3,
            Graph::grown_from(*final(self), *old(self)),
            final(self).value_at(id as int) == sum_spec(
                old(self).value_at(a as int),
                prod_spec(old(self).value_at(b as int), neg_one_val()),
            ),
            final(self).op_at(id as int) == Op::Add,
            final(self).children_at(id as int) == seq![a, (id - 1) as usize],
            forall|j: int|
                old(self).len_spec() <= j < final(self).len_spec()
                    ==> final(self).grad_at(j) == zero_val(),
    {
        let ghost pre = *self;
        let n = self.neg(b);
        let ghost mid = *self;
        let id = self.add(a, n);
        proof {
            assert forall|j: int|
                pre.len_spec() <= j < self.len_spec() implies self.grad_at(j) == zero_val() by {
                if j < mid.len_spec() {
                    assert(mid.grad_at(j) == zero_val());
                    assert(self.spec_grads()[j] == mid.spec_grads()[j]);
                } else {
                    assert(j == mid.len_spec());
                }
            }
        }
        id
    }

    /// `a / b`, implemented as `a * b^(-1)`.  A zero-valued `b` makes the
    /// quotient non-finite.
    pub fn div(&mut self, a: usize, b: usize) -> (id: usize)
        requires
            old(self).wf(),
            a < old(self).len_spec(),
            b < old(self).len_spec(),
        ensures
            final(self).wf(),
            id as int == old(self).len_spec() + 2,
            final(self).len_spec() == old(self).len_spec() + 3,
            Graph::grown_from(*final(self), *old(self)),
            final(self).value_at(id as int) == prod_spec(
                old(self).value_at(a as int),
                powi_spec(old(self).value_at(b as int), neg_one_val()),
            ),
            final(self).op_at(id as int) == Op::Mul,
            final(self).children_at(id as int) == seq![a, (id - 1) as usize],
            forall|j: int|
                old(self).len_spec() <= j < final(self).len_spec()
                    ==> final(self).grad_at(j) == zero_val(),
    {
        let r = self.pow(b, Val::Finite { num: -1i64, den: 1 });
        self.mul(a, r)
    }

    /// Computes the gradient of the node `root` with respect to every node
    /// reachable from it, by reverse-mode differentiation.
    ///
    /// The root's gradient is first set to one (the seed, `d root / d root`);
    /// then every reachable node's derivative rule runs exactly once, in
    /// decreasing index order — a reverse topological order of the graph, so
    /// every parent of a node runs before the node's own turn and the node's
    /// gradient is complete when it propagates to its children.  Each rule
    /// only ever adds to a child's gradient, so a node referenced by several
    /// consumers (or by both operand slots of one consumer) sums every
    /// contribution; gradients left over from an earlier pass are added to,
    /// never reset.  Nodes the root does not reach, and the node values
    /// themselves, are untouched.
    pub fn backward(&mut self, root: usize)
        requires
            old(self).wf(),
            root < old(self).len_spec(),
        ensures
            final(self).wf(),
            final(self).spec_nodes() == old(self).spec_nodes(),
            final(self).spec_grads() == pass_upto(
                old(self).spec_nodes(),
                old(self).spec_grads().update(root as int, one_val()),
                root as int,
                0,
            ),
            final(self).grad_at(root as int) == one_val(),
            forall|j: int|
                0 <= j < old(self).len_spec() && !reaches(
                    old(self).spec_nodes(),
                    root as int,
                    j,
                ) ==> final(self).grad_at(j) == old(self).grad_at(j),
    {
        let ghost nodes0 = self.nodes@;
        let n = self.nodes.len();

        // mark every node the root reaches, in decreasing index order: every
        // parent of a node has a larger index, so each node's mark is final
        // before its own children are marked from it
        let mut reach: Vec<bool> = Vec::new();
        let mut k: usize = 0;
        while k < n
            invariant
                k <= n,
                reach@.len() == k,
                forall|q: int| 0 <= q < k ==> !(#[trigger] reach@[q]),
            decreases n - k,
        {
            reach.push(false);
            k = k + 1;
        }
        reach.set(root, true);

        let mut j: usize = 0;
        while j <= root
            invariant
                self.nodes@ == nodes0,
                self.grads@ == old(self).spec_grads(),
                nodes_ok(nodes0),
                n == nodes0.len(),
                root < n,
                j <= root + 1,
                reach@.len() == n,
                forall|q: int|
                    root - j < q < n ==> (#[trigger] reach@[q]) == reaches(
                        nodes0,
                        root as int,
                        q,
                    ),
                forall|q: int|
                    0 <= q <= root - j ==> ((#[trigger] reach@[q]) <==> (q == root as int
                        || exists|p: int|
                            root - j < p <= root && reaches(nodes0, root as int, p)
                                && #[trigger] is_child(nodes0, p, q))),
            decreases root + 1 - j,
        {
            let i = root - j;
            proof {
                assert(node_ok(nodes0, i as int));
                if i as int == root as int {
                    assert(reaches(nodes0, root as int, i as int));
                    assert(reach@[i as int]);
                } else {
                    if reach@[i as int] {
                        let p = choose|p: int|
                            i < p <= root && reaches(nodes0, root as int, p)
                                && #[trigger] is_child(nodes0, p, i as int);
                        lemma_child_reachable(nodes0, root as int, p, i as int);
                    } else {
                        if reaches(nodes0, root as int, i as int) {
                            lemma_reaches_inv(nodes0, root as int, i as int);
                            assert(false);
                        }
                    }
                }
                assert(reach@[i as int] == reaches(nodes0, root as int, i as int));
            }
            let ghost pre_inner = reach@;
            if reach[i] {
                let m = self.nodes[i].children.len();
                let mut s: usize = 0;
                while s < m
                    invariant
                        self.nodes@ == nodes0,
                        nodes_ok(nodes0),
                        n == nodes0.len(),
                        root < n,
                        i <= root,
                        s <= m,
                        m == nodes0[i as int].children@.len(),
                        reach@.len() == n,
                        pre_inner.len() == n,
                        forall|q: int|
                            0 <= q < n ==> ((#[trigger] reach@[q]) <==> (pre_inner[q]
                                || exists|t: int|
                                    0 <= t < s && (#[trigger] nodes0[i as int].children@[t]) as int
                                        == q)),
                    decreases m - s,
                {
                    proof {
                        assert(node_ok(nodes0, i as int));
                        assert(nodes0[i as int].children@[s as int] < i);
                    }
                    let c = self.nodes[i].children[s];
                    reach.set(c, true);
                    s = s + 1;
                    proof {
                        assert forall|q: int| 0 <= q < n implies ((#[trigger] reach@[q]) <==> (
                        pre_inner[q] || exists|t: int|
                            0 <= t < s && (#[trigger] nodes0[i as int].children@[t]) as int
                                == q)) by {
                            if q == c as int {
                                assert(nodes0[i as int].children@[s - 1] as int == q);
                            }
                        }
                    }
                }
                proof {
                    assert forall|q: int| 0 <= q < n implies ((#[trigger] reach@[q]) <==> (
                    pre_inner[q] || is_child(nodes0, i as int, q))) by {}
                }
            }
            j = j + 1;
            proof {
                let b = root - j;
                assert forall|q: int|
                    b < q < n implies (#[trigger] reach@[q]) == reaches(
                    nodes0,
                    root as int,
                    q,
                ) by {
                    if q == i as int {
                        if !(i as int == root as int) {
                            assert(reaches(nodes0, root as int, i as int) == (exists|p: int|
                                i < p <= root && reaches(nodes0, root as int, p)
                                    && #[trigger] is_child(nodes0, p, i as int)));
                        }
                    } else {
                        assert(pre_inner[q] == reaches(nodes0, root as int, q));
                        if reach@[q] != pre_inner[q] {
                            assert(is_child(nodes0, i as int, q));
                            let t = choose|t: int|
                                0 <= t < nodes0[i as int].children@.len() && (#[trigger] nodes0[i
                                    as int].children@[t]) as int == q;
                            assert(node_ok(nodes0, i as int));
                            assert(nodes0[i as int].children@[t] < i);
                            assert(false);
                        }
                    }
                }
                assert forall|q: int|
                    0 <= q <= b implies ((#[trigger] reach@[q]) <==> (q == root as int
                        || exists|p: int|
                            b < p <= root && reaches(nodes0, root as int, p)
                                && #[trigger] is_child(nodes0, p, q))) by {
                    let marked = reaches(nodes0, root as int, i as int) && is_child(
                        nodes0,
                        i as int,
                        q,
                    );
                    assert(reach@[q] <==> (pre_inner[q] || marked));
                    if reach@[q] {
                        if pre_inner[q] {
                            if q != root as int {
                                let p = choose|p: int|
                                    i < p <= root && reaches(nodes0, root as int, p)
                                        && #[trigger] is_child(nodes0, p, q);
                                assert(b < p <= root && reaches(nodes0, root as int, p)
                                    && is_child(nodes0, p, q));
                            }
                        } else {
                            assert(marked);
                            assert(b < i as int <= root && reaches(nodes0, root as int, i as int)
                                && is_child(nodes0, i as int, q));
                        }
                    } else {
                        if q != root as int {
                            if exists|p: int|
                                b < p <= root && reaches(nodes0, root as int, p)
                                    && #[trigger] is_child(nodes0, p, q) {
                                let p = choose|p: int|
                                    b < p <= root && reaches(nodes0, root as int, p)
                                        && #[trigger] is_child(nodes0, p, q);
                                if p == i as int {
                                    assert(marked);
                                } else {
                                    assert(i < p <= root && reaches(nodes0, root as int, p)
                                        && is_child(nodes0, p, q));
                                }
                                assert(false);
                            }
                        }
                    }
                }
            }
        }
        proof {
            assert forall|q: int|
                0 <= q < n implies (#[trigger] reach@[q]) == reaches(
                nodes0,
                root as int,
                q,
            ) by {}
        }

        // seed, then apply each reachable node's rule, parents first
        self.grads.set(root, Val::Finite { num: 1, den: 1 });
        let ghost seeded = self.grads@;
        proof {
            assert(seeded =~= old(self).spec_grads().update(root as int, one_val()));
        }
        let mut j2: usize = 0;
        while j2 <= root
            invariant
                self.nodes@ == nodes0,
                nodes_ok(nodes0),
                grads_ok(self.grads@),
                n == nodes0.len(),
                self.grads@.len() == n,
                root < n,
                j2 <= root + 1,
                reach@.len() == n,
                forall|q: int|
                    0 <= q < n ==> (#[trigger] reach@[q]) == reaches(nodes0, root as int, q),
                self.grads@ == pass_upto(
                    nodes0,
                    seeded,
                    root as int,
                    root as int - j2 as int + 1,
                ),
            decreases root + 1 - j2,
        {
            let i = root - j2;
            let ghost mid = self.grads@;
            proof {
                assert(pass_upto(nodes0, seeded, root as int, i as int) == step_if(
                    nodes0,
                    pass_upto(nodes0, seeded, root as int, i as int + 1),
                    root as int,
                    i as int,
                ));
                assert(node_ok(nodes0, i as int));
            }
            if reach[i] {
                let op = self.nodes[i].op;
                proof {
                    assert(val_wf(self.grads@[i as int]));
                }
                let gv = self.grads[i];
                match op {
                    Op::Leaf => {
                        proof {
                            assert(step(nodes0, mid, i as int) == mid);
                        }
                    },
                    Op::Add => {
                        let c0 = self.nodes[i].children[0];
                        let c1 = self.nodes[i].children[1];
                        proof {
                            assert(nodes0[i as int].children@[0] < i);
                            assert(nodes0[i as int].children@[1] < i);
                            assert(val_wf(self.grads@[c0 as int]));
                        }
                        let n0 = self.grads[c0].plus(gv);
                        self.grads.set(c0, n0);
                        proof {
                            assert(val_wf(self.grads@[c1 as int]));
                        }
                        let n1 = self.grads[c1].plus(gv);
                        self.grads.set(c1, n1);
                        proof {
                            assert(self.grads@ == step(nodes0, mid, i as int));
                        }
                    },
                    Op::Mul => {
                        let c0 = self.nodes[i].children[0];
                        let c1 = self.nodes[i].children[1];
                        proof {
                            assert(nodes0[i as int].children@[0] < i);
                            assert(nodes0[i as int].children@[1] < i);
                            assert(node_ok(nodes0, c0 as int));
                            assert(node_ok(nodes0, c1 as int));
                            assert(val_wf(self.grads@[c0 as int]));
                        }
                        let t0 = gv.times(self.nodes[c1].value);
                        let n0 = self.grads[c0].plus(t0);
                        self.grads.set(c0, n0);
                        proof {
                            assert(val_wf(self.grads@[c1 as int]));
                        }
                        let t1 = gv.times(self.nodes[c0].value);
                        let n1 = self.grads[c1].plus(t1);
                        self.grads.set(c1, n1);
                        proof {
                            assert(self.grads@ == step(nodes0, mid, i as int));
                        }
                    },
                    Op::Pow => {
                        let c0 = self.nodes[i].children[0];
                        let c1 = self.nodes[i].children[1];
                        proof {
                            assert(nodes0[i as int].children@[0] < i);
                            assert(nodes0[i as int].children@[1] < i);
                            assert(node_ok(nodes0, c0 as int));
                            assert(node_ok(nodes0, c1 as int));
                            assert(val_wf(self.grads@[c0 as int]));
                        }
                        let pv = self.nodes[c1].value;
                        let bv = self.nodes[c0].value;
                        let a1 = gv.times(pv);
                        let pm1 = pv.plus(Val::Finite { num: -1i64, den: 1 });
                        let a2 = bv.powi(pm1);
                        let t = a1.times(a2);
                        let n0 = self.grads[c0].plus(t);
                        self.grads.set(c0, n0);
                        proof {
                            assert(self.grads@ == step(nodes0, mid, i as int));
                        }
                    },
                    Op::Relu => {
                        let c0 = self.nodes[i].children[0];
                        proof {
                            assert(nodes0[i as int].children@[0] < i);
                            assert(node_ok(nodes0, i as int));
                            assert(val_wf(self.grads@[c0 as int]));
                        }
                        if self.nodes[i].value.is_pos() {
                            let n0 = self.grads[c0].plus(gv);
                            self.grads.set(c0, n0);
                        }
                        proof {
                            assert(self.grads@ == step(nodes0, mid, i as int));
                        }
                    },
                }
            }
            j2 = j2 + 1;
        }
        proof {
            lemma_pass_props(nodes0, seeded, root as int, 0);
            assert(final(self).grad_at(root as int) == seeded[root as int]);
            assert forall|q: int|
                0 <= q < n && !reaches(nodes0, root as int, q) implies final(self).grad_at(q)
                == old(self).grad_at(q) by {
                assert(final(self).spec_grads()[q] == seeded[q]);
                assert(reaches(nodes0, root as int, root as int));
                assert(q != root as int);
            }
        }
    }

    /// `a + v` for a plain value `v`: the value becomes a leaf, then the sum
    /// node is built, so the forward value equals that of `add` on a leaf
    /// holding `v`.
    pub fn add_value(&mut self, a: usize, v: Val) -> (id: usize)
        requires
            old(self).wf(),
            a < old(self).len_spec(),
            val_wf(v),
        ensures
            final(self).wf(),
            id as int == old(self).len_spec() + 1,
            final(self).len_spec() == old(self).len_spec() + 2,
            Graph::grown_from(*final(self), *old(self)),
            final(self).value_at(id as int) == sum_spec(old(self).value_at(a as int), v),
            forall|j: int|
                old(self).len_spec() <= j < final(self).len_spec()
                    ==> final(self).grad_at(j) == zero_val(),
    {
        let l = self.leaf(v);
        self.add(a, l)
    }

    /// `v + a` for a plain value `v`.
    pub fn value_add(&mut self, v: Val, a: usize) -> (id: usize)
        requires
            old(self).wf(),
            a < old(self).len_spec(),
            val_wf(v),
        ensures
            final(self).wf(),
            id as int == old(self).len_spec() + 1,
            final(self).len_spec() == old(self).len_spec() + 2,
            Graph::grown_from(*final(self), *old(self)),
            final(self).value_at(id as int) == sum_spec(v, old(self).value_at(a as int)),
            forall|j: int|
                old(self).len_spec() <= j < final(self).len_spec()
                    ==> final(self).grad_at(j) == zero_val(),
    {
        let l = self.leaf(v);
        self.add(l, a)
    }

    /// `a * v` for a plain value `v`.
    pub fn mul_value(&mut self, a: usize, v: Val) -> (id: usize)
        requires
            old(self).wf(),
            a < old(self).len_spec(),
            val_wf(v),
        ensures
            final(self).wf(),
            id as int == old(self).len_spec() + 1,
            final(self).len_spec() == old(self).len_spec() + 2,
            Graph::grown_from(*final(self), *old(self)),
            final(self).value_at(id as int) == prod_spec(old(self).value_at(a as int), v),
            forall|j: int|
                old(self).len_spec() <= j < final(self).len_spec()
                    ==> final(self).grad_at(j) == zero_val(),
    {
        let l = self.leaf(v);
        self.mul(a, l)
    }

    /// `v * a` for a plain value `v`.
    pub fn value_mul(&mut self, v: Val, a: usize) -> (id: usize)
        requires
            old(self).wf(),
            a < old(self).len_spec(),
            val_wf(v),
        ensures
            final(self).wf(),
            id as int == old(self).len_spec() + 1,
            final(self).len_spec() == old(self).len_spec() + 2,
            Graph::grown_from(*final(self), *old(self)),
            final(self).value_at(id as int) == prod_spec(v, old(self).value_at(a as int)),
            forall|j: int|
                old(self).len_spec() <= j < final(self).len_spec()
                    ==> final(self).grad_at(j) == zero_val(),
    {
        let l = self.leaf(v);
        self.mul(l, a)
    }

    /// `a - v` for a plain value `v`.
    pub fn sub_value(&mut self, a: usize, v: Val) -> (id: usize)
        requires
            old(self).wf(),
            a < old(self).len_spec(),
            val_wf(v),
        ensures
            final(self).wf(),
            final(self).len_spec() == old(self).len_spec() + 4,
            id as int == old(self).len_spec() + 3,
            Graph::grown_from(*final(self), *old(self)),
            final(self).value_at(id as int) == sum_spec(
                old(self).value_at(a as int),
                prod_spec(v, neg_one_val()),
            ),
            forall|j: int|
                old(self).len_spec() <= j < final(self).len_spec()
                    ==> final(self).grad_at(j) == zero_val(),
    {
        let l = self.leaf(v);
        self.sub(a, l)
    }

    /// `v - a` for a plain value `v`.
    pub fn value_sub(&mut self, v: Val, a: usize) -> (id: usize)
        requires
            old(self).wf(),
            a < old(self).len_spec(),
            val_wf(v),
        ensures
            final(self).wf(),
            final(self).len_spec() == old(self).len_spec() + 4,
            id as int == old(self).len_spec() + 3,
            Graph::grown_from(*final(self), *old(self)),
            final(self).value_at(id as int) == sum_spec(
                v,
                prod_spec(old(self).value_at(a as int), neg_one_val()),
            ),
            forall|j: int|
                old(self).len_spec() <= j < final(self).len_spec()
                    ==> final(self).grad_at(j) == zero_val(),
    {
        let l = self.leaf(v);
        self.sub(l, a)
    }

    /// `a / v` for a plain value `v`.
    pub fn div_value(&mut self, a: usize, v: Val) -> (id: usize)
        requires
            old(self).wf(),
            a < old(self).len_spec(),
            val_wf(v),
        ensures
            final(self).wf(),
            final(self).len_spec() == old(self).len_spec() + 4,
            id as int == old(self).len_spec() + 3,
            Graph::grown_from(*final(self), *old(self)),
            final(self).value_at(id as int) == prod_spec(
                old(self).value_at(a as int),
                powi_spec(v, neg_one_val()),
            ),
            forall|j: int|
                old(self).len_spec() <= j < final(self).len_spec()
                    ==> final(self).grad_at(j) == zero_val(),
    {
        let l = self.leaf(v);
        self.div(a, l)
    }

    /// `v / a` for a plain value `v`.
    pub fn value_div(&mut self, v: Val, a: usize) -> (id: usize)
        requires
            old(self).wf(),
            a < old(self).len_spec(),
            val_wf(v),
        ensures
            final(self).wf(),
            final(self).len_spec() == old(self).len_spec() + 4,
            id as int == old(self).len_spec() + 3,
            Graph::grown_from(*final(self), *old(self)),
            final(self).value_at(id as int) == prod_spec(
                v,
                powi_spec(old(self).value_at(a as int), neg_one_val()),
            ),
            forall|j: int|
                old(self).len_spec() <= j < final(self).len_spec()
                    ==> final(self).grad_at(j) == zero_val(),
    {
        let l = self.leaf(v);
        self.div(l, a)
    }

    /// The forward value of a node.
    pub fn value(&self, id: usize) -> (v: Val)
        requires
            self.wf(),
            id < self.len_spec(),
        ensures
            v == self.value_at(id as int),
    {
        self.nodes[id].value
    }

    /// The accumulated gradient of a node: zero until a backward pass has
    /// reached it.
    pub fn gradient(&self, id: usize) -> (v: Val)
        requires
            self.wf(),
            id < self.len_spec(),
        ensures
            v == self.grad_at(id as int),
    {
        self.grads[id]
    }

    /// The operator tag of a node, for a graph exporter.
    pub fn op_tag(&self, id: usize) -> (o: Op)
        requires
            self.wf(),
            id < self.len_spec(),
        ensures
            o == self.op_at(id as int),
    {
        self.nodes[id].op
    }

    /// The ordered operand indices of a node, for a graph exporter.
    pub fn children(&self, id: usize) -> (c: Vec<usize>)
        requires
            self.wf(),
            id < self.len_spec(),
        ensures
            c@ == self.children_at(id as int),
    {
        let n = self.nodes[id].children.len();
        let mut out: Vec<usize> = Vec::new();
        let mut k: usize = 0;
        while k < n
            invariant
                k <= n,
                n == self.spec_nodes()[id as int].children@.len(),
                self.wf(),
                id < self.len_spec(),
                out@ == self.spec_nodes()[id as int].children@.subrange(0, k as int),
            decreases n - k,
        {
            out.push(self.nodes[id].children[k]);
            k = k + 1;
            proof {
                assert(out@ =~= self.spec_nodes()[id as int].children@.subrange(0, k as int));
            }
        }
        proof {
            assert(out@ =~= self.spec_nodes()[id as int].children@);
        }
        out
    }
}

} // verus!
