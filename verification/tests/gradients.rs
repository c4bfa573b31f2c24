use autograd::graph::{Graph, Op};
use autograd::value::Val;

#[test]
fn gradient_seed() {
    let mut g = Graph::new();
    let x: usize = g.leaf(Val::Finite { num: 5, den: 3 });
    let y: usize = g.leaf_int(2);
    let r: usize = g.mul(x, y);
    assert!(g.gradient(r).same_value(Val::Finite { num: 0, den: 1 }));
    g.backward(r);
    assert!(g.gradient(r).same_value(Val::Finite { num: 1, den: 1 }));
}

#[test]
fn self_aliasing() {
    // s = x + x: both operand slots must contribute
    let mut g = Graph::new();
    let x: usize = g.leaf_int(5);
    let s: usize = g.add(x, x);
    assert!(g.value(s).same_value(Val::Finite { num: 10, den: 1 }));
    g.backward(s);
    assert!(g.gradient(x).same_value(Val::Finite { num: 2, den: 1 }));
}

#[test]
fn self_aliasing_mul() {
    // s = x * x: d s / d x == 2 x
    let mut g = Graph::new();
    let x: usize = g.leaf_int(5);
    let s: usize = g.mul(x, x);
    assert!(g.value(s).same_value(Val::Finite { num: 25, den: 1 }));
    g.backward(s);
    assert!(g.gradient(x).same_value(Val::Finite { num: 10, den: 1 }));
}

#[test]
fn relu_subgradient_boundary() {
    // at exactly zero the subgradient is zero, not one
    let mut g = Graph::new();
    let x: usize = g.leaf_int(0);
    let r: usize = g.relu(x);
    assert!(g.value(r).same_value(Val::Finite { num: 0, den: 1 }));
    g.backward(r);
    assert!(g.gradient(r).same_value(Val::Finite { num: 1, den: 1 }));
    assert!(g.gradient(x).same_value(Val::Finite { num: 0, den: 1 }));
}

#[test]
fn relu_positive_and_negative() {
    let mut g = Graph::new();
    let x: usize = g.leaf(Val::Finite { num: 7, den: 2 });
    let r: usize = g.relu(x);
    assert!(g.value(r).same_value(Val::Finite { num: 7, den: 2 }));
    g.backward(r);
    assert!(g.gradient(x).same_value(Val::Finite { num: 1, den: 1 }));

    let mut h = Graph::new();
    let y: usize = h.leaf_int(-3);
    let s: usize = h.relu(y);
    assert!(h.value(s).same_value(Val::Finite { num: 0, den: 1 }));
    h.backward(s);
    assert!(h.gradient(y).same_value(Val::Finite { num: 0, den: 1 }));
}

#[test]
fn power_rule() {
    // p = x^3 at x == 2: value 8, gradient 3 * 2^2 == 12
    let mut g = Graph::new();
    let x: usize = g.leaf_int(2);
    let p: usize = g.pow(x, Val::Finite { num: 3, den: 1 });
    assert!(g.value(p).same_value(Val::Finite { num: 8, den: 1 }));
    g.backward(p);
    assert!(g.gradient(x).same_value(Val::Finite { num: 12, den: 1 }));
}

#[test]
fn reseeding_accumulates() {
    // backward twice without resetting: the second pass adds to the prior
    // gradients rather than replacing them; only the root is re-seeded to one
    let mut g = Graph::new();
    let x: usize = g.leaf_int(5);
    let s: usize = g.add(x, x);
    g.backward(s);
    assert!(g.gradient(x).same_value(Val::Finite { num: 2, den: 1 }));
    g.backward(s);
    assert!(g.gradient(s).same_value(Val::Finite { num: 1, den: 1 }));
    assert!(g.gradient(x).same_value(Val::Finite { num: 4, den: 1 }));
}

#[test]
fn unreachable_nodes_untouched() {
    let mut g = Graph::new();
    let x: usize = g.leaf_int(2);
    let y: usize = g.leaf_int(3);
    let other: usize = g.mul(x, y);
    let r: usize = g.add(x, x);
    g.backward(r);
    // y and the detached product keep their zero gradients
    assert!(g.gradient(y).same_value(Val::Finite { num: 0, den: 1 }));
    assert!(g.gradient(other).same_value(Val::Finite { num: 0, den: 1 }));
    assert!(g.gradient(x).same_value(Val::Finite { num: 2, den: 1 }));
}

#[test]
fn construction_surface_commutes() {
    // a op b, a op value, value op a give equal forward values for equal
    // underlying operands
    let mut g = Graph::new();
    let a: usize = g.leaf(Val::Finite { num: 5, den: 4 });
    let b: usize = g.leaf(Val::Finite { num: 2, den: 3 });
    let hh: usize = g.mul(a, b);
    let hv: usize = g.mul_value(a, Val::Finite { num: 2, den: 3 });
    let vh: usize = g.value_mul(Val::Finite { num: 2, den: 3 }, a);
    assert!(g.value(hh).same_value(g.value(hv)));
    assert!(g.value(hh).same_value(g.value(vh)));

    let sh: usize = g.sub(a, b);
    let sv: usize = g.sub_value(a, Val::Finite { num: 2, den: 3 });
    let vs: usize = g.value_sub(Val::Finite { num: 5, den: 4 }, b);
    assert!(g.value(sh).same_value(g.value(sv)));
    assert!(g.value(sh).same_value(g.value(vs)));
    assert!(g.value(sh).same_value(Val::Finite { num: 7, den: 12 }));
}

#[test]
fn division_by_zero_is_non_finite() {
    let mut g = Graph::new();
    let a: usize = g.leaf_int(1);
    let z: usize = g.leaf_int(0);
    let q: usize = g.div(a, z);
    assert!(matches!(g.value(q), Val::NonFinite));
    // and it flows through further arithmetic
    let r: usize = g.add(q, a);
    assert!(matches!(g.value(r), Val::NonFinite));
}

#[test]
fn non_integer_exponent_is_non_finite() {
    let mut g = Graph::new();
    let x: usize = g.leaf_int(4);
    let p: usize = g.pow(x, Val::Finite { num: 1, den: 2 });
    assert!(matches!(g.value(p), Val::NonFinite));
}

#[test]
fn overflow_is_non_finite() {
    let mut g = Graph::new();
    let big: usize = g.leaf_int(0x4000_0000_0000_0000i64);
    let p: usize = g.mul(big, big);
    assert!(matches!(g.value(p), Val::NonFinite));
}

#[test]
fn negate_and_divide_forward_values() {
    let mut g = Graph::new();
    let x: usize = g.leaf(Val::Finite { num: 3, den: 2 });
    let n: usize = g.neg(x);
    assert!(g.value(n).same_value(Val::Finite { num: -3, den: 2 }));
    let a: usize = g.leaf_int(3);
    let b: usize = g.leaf_int(4);
    let q: usize = g.div(a, b);
    assert!(g.value(q).same_value(Val::Finite { num: 3, den: 4 }));
    g.backward(q);
    // d (a/b) / d a == 1/b
    assert!(g.gradient(a).same_value(Val::Finite { num: 1, den: 4 }));
}

#[test]
fn exporter_sees_structure() {
    let mut g = Graph::new();
    let a: usize = g.leaf_int(2);
    let b: usize = g.leaf_int(3);
    let s: usize = g.add(a, b);
    assert!(matches!(g.op_tag(a), Op::Leaf));
    assert!(matches!(g.op_tag(s), Op::Add));
    let cs = g.children(s);
    assert_eq!(cs, vec![a, b]);
    assert_eq!(g.children(a).len(), 0);
    let p: usize = g.pow(s, Val::Finite { num: 2, den: 1 });
    assert!(matches!(g.op_tag(p), Op::Pow));
    let pc = g.children(p);
    assert_eq!(pc[0], s);
    // the exponent is itself a constant leaf node
    assert!(matches!(g.op_tag(pc[1]), Op::Leaf));
    assert!(g.value(pc[1]).same_value(Val::Finite { num: 2, den: 1 }));
}

#[test]
fn pow_negative_exponent() {
    let mut g = Graph::new();
    let x: usize = g.leaf(Val::Finite { num: -2, den: 3 });
    let p: usize = g.pow(x, Val::Finite { num: -1, den: 1 });
    assert!(g.value(p).same_value(Val::Finite { num: -3, den: 2 }));
    let z: usize = g.leaf_int(0);
    let q: usize = g.pow(z, Val::Finite { num: -2, den: 1 });
    assert!(matches!(g.value(q), Val::NonFinite));
}

#[test]
fn chain_rule_deeper_graph() {
    // l = relu(x*y + x) at x == 2, y == 3: l == 8, dl/dx == y + 1 == 4
    let mut g = Graph::new();
    let x: usize = g.leaf_int(2);
    let y: usize = g.leaf_int(3);
    let xy: usize = g.mul(x, y);
    let s: usize = g.add(xy, x);
    let l: usize = g.relu(s);
    assert!(g.value(l).same_value(Val::Finite { num: 8, den: 1 }));
    g.backward(l);
    assert!(g.gradient(x).same_value(Val::Finite { num: 4, den: 1 }));
    assert!(g.gradient(y).same_value(Val::Finite { num: 2, den: 1 }));
}
