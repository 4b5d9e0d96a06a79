//! Concrete checks of the library's stated properties.

use observatory::{
    derivation, init, is_initialized, observable, DerivationPtr, Expr, Graph, Value,
};

fn init_if_needed(g: &mut Graph) {
    if !is_initialized(g) {
        init(g);
    }
}

#[test]
fn freshness_through_a_chain() {
    // After a changing write returns, every transitive reader holds the value
    // recomputed from current observable values.
    let mut g = Graph::new();
    init_if_needed(&mut g);
    let x = observable(&mut g, Value::Int(2));
    let y = observable(&mut g, Value::Int(3));
    let s = derivation(&mut g, Expr::add(Expr::read(x.id), Expr::read(y.id)));
    let t = derivation(&mut g, Expr::add(Expr::read(s.id), Expr::read(x.id)));
    assert_eq!(s.borrow_untracked(&g).value(), Value::Int(5));
    assert_eq!(t.borrow_untracked(&g).value(), Value::Int(7));
    x.set(&mut g, Value::Int(10));
    assert_eq!(s.borrow_untracked(&g).value(), Value::Int(13));
    assert_eq!(t.borrow_untracked(&g).value(), Value::Int(23));
}

#[test]
fn at_most_once_per_write() {
    // Two paths from the same ancestor still mean one recompute per write.
    let mut g = Graph::new();
    init_if_needed(&mut g);
    let base = observable(&mut g, Value::Int(0));
    let l = derivation(&mut g, Expr::add(Expr::read(base.id), Expr::lit_int(1)));
    let r = derivation(&mut g, Expr::add(Expr::read(base.id), Expr::lit_int(2)));
    let join = derivation(&mut g, Expr::add(Expr::read(l.id), Expr::read(r.id)));
    assert_eq!(join.times_computed(&g), 1);
    base.set(&mut g, Value::Int(5));
    assert_eq!(join.times_computed(&g), 2);
    base.set(&mut g, Value::Int(6));
    assert_eq!(join.times_computed(&g), 3);
}

#[test]
fn equal_write_changes_no_cached_value() {
    let mut g = Graph::new();
    init_if_needed(&mut g);
    let v = observable(&mut g, Value::Int(7));
    let d = derivation(&mut g, Expr::add(Expr::read(v.id), Expr::lit_int(1)));
    let e = derivation(&mut g, Expr::add(Expr::read(d.id), Expr::lit_int(1)));
    v.set(&mut g, Value::Int(7));
    assert_eq!(v.borrow_untracked(&g).value(), Value::Int(7));
    assert_eq!(d.borrow_untracked(&g).value(), Value::Int(8));
    assert_eq!(e.borrow_untracked(&g).value(), Value::Int(9));
}

#[test]
fn shedding_stops_recomputation() {
    // Once the condition goes back to false, writes to the shed input no
    // longer reach the derivation at all.
    let mut g = Graph::new();
    init_if_needed(&mut g);
    let cond = observable(&mut g, Value::Bool(false));
    let other = observable(&mut g, Value::Int(10));
    let r = derivation(
        &mut g,
        Expr::cond(Expr::read(cond.id), Expr::read(other.id), Expr::lit_int(0)),
    );
    assert_eq!(r.times_computed(&g), 1);
    cond.set(&mut g, Value::Bool(true));
    assert_eq!(r.times_computed(&g), 2);
    assert_eq!(r.borrow_untracked(&g).value(), Value::Int(10));
    cond.set(&mut g, Value::Bool(false));
    assert_eq!(r.times_computed(&g), 3);
    assert_eq!(r.borrow_untracked(&g).value(), Value::Int(0));
    other.set(&mut g, Value::Int(99));
    assert_eq!(r.times_computed(&g), 3);
    other.set(&mut g, Value::Int(100));
    assert_eq!(r.times_computed(&g), 3);
    assert_eq!(r.borrow_untracked(&g).value(), Value::Int(0));
}

#[test]
fn quiescence_after_write() {
    let mut g = Graph::new();
    init_if_needed(&mut g);
    let base = observable(&mut g, Value::Int(0));
    let a = derivation(&mut g, Expr::add(Expr::read(base.id), Expr::lit_int(1)));
    let b = derivation(&mut g, Expr::add(Expr::read(a.id), Expr::read(base.id)));
    base.set(&mut g, Value::Int(4));
    assert_eq!(a.stale_count(&g), 0);
    assert_eq!(b.stale_count(&g), 0);
    assert!(!a.dirty(&g));
    assert!(!b.dirty(&g));
}

#[test]
fn idempotent_untracked_read() {
    let mut g = Graph::new();
    init_if_needed(&mut g);
    let v = observable(&mut g, Value::Int(3));
    let d = derivation(&mut g, Expr::add(Expr::read(v.id), Expr::lit_int(4)));
    let first = d.borrow_untracked(&g).value();
    let second = d.borrow_untracked(&g).value();
    assert_eq!(first, second);
    assert_eq!(first, Value::Int(7));
}

#[test]
fn boolean_readings() {
    let mut g = Graph::new();
    init_if_needed(&mut g);
    // Integers read as booleans by "non-zero"; booleans read as 0 or 1.
    let flag = observable(&mut g, Value::Int(2));
    let picked = derivation(
        &mut g,
        Expr::cond(Expr::read(flag.id), Expr::lit_int(10), Expr::lit_int(20)),
    );
    assert_eq!(picked.borrow_untracked(&g).value(), Value::Int(10));
    flag.set(&mut g, Value::Int(0));
    assert_eq!(picked.borrow_untracked(&g).value(), Value::Int(20));
    let b = observable(&mut g, Value::Bool(true));
    let as_sum = derivation(&mut g, Expr::add(Expr::read(b.id), Expr::lit_int(5)));
    assert_eq!(as_sum.borrow_untracked(&g).value(), Value::Int(6));
}

#[test]
fn sum_wraps_around() {
    let mut g = Graph::new();
    init_if_needed(&mut g);
    let v = observable(&mut g, Value::Int(i64::MAX));
    let d = derivation(&mut g, Expr::add(Expr::read(v.id), Expr::lit_int(1)));
    assert_eq!(d.borrow_untracked(&g).value(), Value::Int(i64::MIN));
}

#[test]
fn dyn_and_computed_constructors() {
    let mut g = Graph::new();
    init_if_needed(&mut g);
    let v = observable(&mut g, Value::Int(3));
    let a = observatory::derivation_dyn(&mut g, Expr::add(Expr::read(v.id), Expr::lit_int(1)));
    let b = DerivationPtr::computed(&mut g, Expr::add(Expr::read(v.id), Expr::lit_int(2)));
    let c = DerivationPtr::new_dyn(&mut g, Expr::add(Expr::read(v.id), Expr::lit_int(3)));
    assert_eq!(a.borrow_untracked(&g).value(), Value::Int(4));
    assert_eq!(b.borrow_untracked(&g).value(), Value::Int(5));
    assert_eq!(c.borrow_untracked(&g).value(), Value::Int(6));
    v.set(&mut g, Value::Int(10));
    assert_eq!(a.borrow_untracked(&g).value(), Value::Int(11));
    assert_eq!(b.borrow_untracked(&g).value(), Value::Int(12));
    assert_eq!(c.borrow_untracked(&g).value(), Value::Int(13));
}

#[test]
fn value_readings_exact() {
    assert_eq!(Value::Int(5).as_int(), 5);
    assert_eq!(Value::Bool(true).as_int(), 1);
    assert_eq!(Value::Bool(false).as_int(), 0);
    assert!(Value::Int(-1).as_bool());
    assert!(!Value::Int(0).as_bool());
    assert!(Value::Bool(true).as_bool());
    assert!(Value::Int(3).eq_value(Value::Int(3)));
    assert!(!Value::Int(3).eq_value(Value::Bool(true)));
}
