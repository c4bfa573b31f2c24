use autograd::graph::Graph;
use autograd::value::Val;

// 1.5 is held as 3/2, 3.0 as 3/1, 2.25 as 9/4, and so on; results are
// compared as rationals, so unreduced forms like 12/4 count as equal to 3.

#[test]
fn add() {
    let mut g = Graph::new();
    let v1: usize = g.leaf(Val::Finite { num: 3, den: 2 });
    let three = Val::Finite { num: 3, den: 1 };

    let a: usize = g.leaf(Val::Finite { num: 3, den: 2 });
    let b: usize = g.leaf(Val::Finite { num: 3, den: 2 });
    let r1: usize = g.add(a, b);
    assert!(g.value(r1).same_value(three));

    let c: usize = g.leaf(Val::Finite { num: 3, den: 2 });
    let r2: usize = g.add_value(c, Val::Finite { num: 3, den: 2 });
    assert!(g.value(r2).same_value(three));

    let d: usize = g.leaf(Val::Finite { num: 3, den: 2 });
    let r3: usize = g.value_add(Val::Finite { num: 3, den: 2 }, d);
    assert!(g.value(r3).same_value(three));

    let e: usize = g.leaf(Val::Finite { num: 3, den: 2 });
    let r4: usize = g.add(e, v1);
    assert!(g.value(r4).same_value(three));

    let f: usize = g.leaf(Val::Finite { num: 3, den: 2 });
    let r5: usize = g.add(v1, f);
    assert!(g.value(r5).same_value(three));

    let r6: usize = g.add(v1, v1);
    assert!(g.value(r6).same_value(three));

    let r7: usize = g.value_add(Val::Finite { num: 3, den: 2 }, v1);
    assert!(g.value(r7).same_value(three));

    let r8: usize = g.add_value(v1, Val::Finite { num: 3, den: 2 });
    assert!(g.value(r8).same_value(three));
}

#[test]
fn mul() {
    let mut g = Graph::new();
    let v1: usize = g.leaf(Val::Finite { num: 3, den: 2 });
    let expect = Val::Finite { num: 9, den: 4 };

    let a: usize = g.leaf(Val::Finite { num: 3, den: 2 });
    let b: usize = g.leaf(Val::Finite { num: 3, den: 2 });
    let r1: usize = g.mul(a, b);
    assert!(g.value(r1).same_value(expect));

    let c: usize = g.leaf(Val::Finite { num: 3, den: 2 });
    let r2: usize = g.mul_value(c, Val::Finite { num: 3, den: 2 });
    assert!(g.value(r2).same_value(expect));

    let d: usize = g.leaf(Val::Finite { num: 3, den: 2 });
    let r3: usize = g.value_mul(Val::Finite { num: 3, den: 2 }, d);
    assert!(g.value(r3).same_value(expect));

    let e: usize = g.leaf(Val::Finite { num: 3, den: 2 });
    let r4: usize = g.mul(e, v1);
    assert!(g.value(r4).same_value(expect));

    let f: usize = g.leaf(Val::Finite { num: 3, den: 2 });
    let r5: usize = g.mul(v1, f);
    assert!(g.value(r5).same_value(expect));

    let r6: usize = g.mul(v1, v1);
    assert!(g.value(r6).same_value(expect));

    let r7: usize = g.value_mul(Val::Finite { num: 3, den: 2 }, v1);
    assert!(g.value(r7).same_value(expect));

    let r8: usize = g.mul_value(v1, Val::Finite { num: 3, den: 2 });
    assert!(g.value(r8).same_value(expect));
}

#[test]
fn sub() {
    let mut g = Graph::new();
    let v1: usize = g.leaf(Val::Finite { num: 3, den: 2 });
    let zero = Val::Finite { num: 0, den: 1 };

    let a: usize = g.leaf(Val::Finite { num: 3, den: 2 });
    let b: usize = g.leaf(Val::Finite { num: 3, den: 2 });
    let r1: usize = g.sub(a, b);
    assert!(g.value(r1).same_value(zero));

    let c: usize = g.leaf(Val::Finite { num: 3, den: 2 });
    let r2: usize = g.sub_value(c, Val::Finite { num: 3, den: 2 });
    assert!(g.value(r2).same_value(zero));

    let d: usize = g.leaf(Val::Finite { num: 3, den: 2 });
    let r3: usize = g.value_sub(Val::Finite { num: 3, den: 2 }, d);
    assert!(g.value(r3).same_value(zero));

    let e: usize = g.leaf(Val::Finite { num: 3, den: 2 });
    let r4: usize = g.sub(e, v1);
    assert!(g.value(r4).same_value(zero));

    let f: usize = g.leaf(Val::Finite { num: 3, den: 2 });
    let r5: usize = g.sub(v1, f);
    assert!(g.value(r5).same_value(zero));

    let r6: usize = g.sub(v1, v1);
    assert!(g.value(r6).same_value(zero));

    let r7: usize = g.value_sub(Val::Finite { num: 3, den: 2 }, v1);
    assert!(g.value(r7).same_value(zero));

    let r8: usize = g.sub_value(v1, Val::Finite { num: 3, den: 2 });
    assert!(g.value(r8).same_value(zero));
}

#[test]
fn div() {
    let mut g = Graph::new();
    let v1: usize = g.leaf(Val::Finite { num: 3, den: 2 });
    let one = Val::Finite { num: 1, den: 1 };

    let a: usize = g.leaf(Val::Finite { num: 3, den: 2 });
    let b: usize = g.leaf(Val::Finite { num: 3, den: 2 });
    let r1: usize = g.div(a, b);
    assert!(g.value(r1).same_value(one));

    let c: usize = g.leaf(Val::Finite { num: 3, den: 2 });
    let r2: usize = g.div_value(c, Val::Finite { num: 3, den: 2 });
    assert!(g.value(r2).same_value(one));

    let d: usize = g.leaf(Val::Finite { num: 3, den: 2 });
    let r3: usize = g.value_div(Val::Finite { num: 3, den: 2 }, d);
    assert!(g.value(r3).same_value(one));

    let e: usize = g.leaf(Val::Finite { num: 3, den: 2 });
    let r4: usize = g.div(e, v1);
    assert!(g.value(r4).same_value(one));

    let f: usize = g.leaf(Val::Finite { num: 3, den: 2 });
    let r5: usize = g.div(v1, f);
    assert!(g.value(r5).same_value(one));

    let r6: usize = g.div(v1, v1);
    assert!(g.value(r6).same_value(one));

    let r7: usize = g.value_div(Val::Finite { num: 3, den: 2 }, v1);
    assert!(g.value(r7).same_value(one));

    let r8: usize = g.div_value(v1, Val::Finite { num: 3, den: 2 });
    assert!(g.value(r8).same_value(one));
}

#[test]
fn backpropagation() {
    let mut g = Graph::new();
    let x: usize = g.leaf_int(2);
    let y: usize = g.leaf_int(3);
    let z: usize = g.leaf_int(4);
    let xy: usize = g.mul(x, y);
    let xz: usize = g.mul(x, z);
    let l: usize = g.add(xy, xz);

    let zero = Val::Finite { num: 0, den: 1 };
    assert!(g.gradient(x).same_value(zero));
    assert!(g.gradient(y).same_value(zero));
    assert!(g.gradient(z).same_value(zero));
    assert!(g.gradient(l).same_value(zero));

    g.backward(l);

    assert!(g.gradient(l).same_value(Val::Finite { num: 1, den: 1 }));
    assert!(g.gradient(z).same_value(Val::Finite { num: 2, den: 1 }));
    assert!(g.gradient(y).same_value(Val::Finite { num: 2, den: 1 }));
    // l == x * (y + z), so dl/dx == y + z
    assert!(g.gradient(x).same_value(Val::Finite { num: 7, den: 1 }));
}
