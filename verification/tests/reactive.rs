//! The end-to-end behaviour of observables and derivations.

use observatory::{
    derivation, init, is_initialized, observable, DerivationPtr, Expr, Graph, ObservablePtr,
    PtrUtil, Value,
};

fn init_if_needed(g: &mut Graph) {
    if !is_initialized(g) {
        init(g);
    }
}

struct Holder {
    value: ObservablePtr,
}

#[test]
fn shared_ptr_behavior() {
    let mut g = Graph::new();
    let value = observable(&mut g, Value::Int(123));
    assert_eq!(value.borrow_untracked(&g).value(), Value::Int(123));
    let value2 = ObservablePtr::clone(&value);
    assert_eq!(value2.borrow_untracked(&g).value(), Value::Int(123));
    assert_eq!(value.borrow_untracked(&g).value(), Value::Int(123));
    value2.set(&mut g, Value::Int(42));
    assert_eq!(value.borrow_untracked(&g).value(), Value::Int(42));
    assert_eq!(value2.borrow_untracked(&g).value(), Value::Int(42));
}

#[test]
fn update_immediate_derivation() {
    let mut g = Graph::new();
    init_if_needed(&mut g);
    let value = observable(&mut g, Value::Int(123));
    let derived = derivation(&mut g, Expr::add(Expr::read(value.id), Expr::lit_int(1)));
    assert_eq!(derived.borrow_untracked(&g).value(), Value::Int(124));
    value.set(&mut g, Value::Int(42));
    assert_eq!(derived.borrow_untracked(&g).value(), Value::Int(43));
}

#[test]
fn update_chained_derivation() {
    let mut g = Graph::new();
    init_if_needed(&mut g);
    let value = observable(&mut g, Value::Int(0));
    let deriveda = derivation(&mut g, Expr::add(Expr::read(value.id), Expr::lit_int(1)));
    let derivedb = derivation(&mut g, Expr::add(Expr::read(deriveda.id), Expr::lit_int(1)));

    assert_eq!(value.borrow_untracked(&g).value(), Value::Int(0));
    assert_eq!(deriveda.borrow_untracked(&g).value(), Value::Int(1));
    assert_eq!(derivedb.borrow_untracked(&g).value(), Value::Int(2));

    value.set(&mut g, Value::Int(10));

    assert_eq!(value.borrow_untracked(&g).value(), Value::Int(10));
    assert_eq!(deriveda.borrow_untracked(&g).value(), Value::Int(11));
    assert_eq!(derivedb.borrow_untracked(&g).value(), Value::Int(12));
}

#[test]
fn subscribe_then_drop() {
    let mut g = Graph::new();
    init_if_needed(&mut g);
    let value = observable(&mut g, Value::Int(0));
    let deriveda = derivation(&mut g, Expr::add(Expr::read(value.id), Expr::lit_int(1)));
    let derivedb = derivation(&mut g, Expr::add(Expr::read(deriveda.id), Expr::lit_int(1)));
    derivedb.release(&mut g);
    value.set(&mut g, Value::Int(10));
    assert_eq!(deriveda.borrow_untracked(&g).value(), Value::Int(11));
}

#[test]
fn update_only_once() {
    let mut g = Graph::new();
    init_if_needed(&mut g);
    let base = observable(&mut g, Value::Int(0));

    let mut intermediates: Vec<DerivationPtr> = Vec::new();
    for index in 1..9 {
        let d = derivation(&mut g, Expr::add(Expr::read(base.id), Expr::lit_int(index)));
        intermediates.push(d);
    }

    let mut sum = Expr::lit_int(0);
    for value in &intermediates {
        sum = Expr::add(sum, Expr::read(value.id));
    }
    let result = DerivationPtr::new(&mut g, sum);

    assert_eq!(result.times_computed(&g), 1);
    base.set(&mut g, Value::Int(1));
    assert_eq!(result.times_computed(&g), 2);

    drop(result);
}

#[test]
fn conditionally_observe_second_observable() {
    let mut g = Graph::new();
    init_if_needed(&mut g);
    let condition = observable(&mut g, Value::Bool(false));
    let second = observable(&mut g, Value::Int(10));

    let result = derivation(
        &mut g,
        Expr::cond(
            Expr::read(condition.id),
            Expr::read(second.id),
            Expr::lit_int(0),
        ),
    );

    assert_eq!(result.times_computed(&g), 1);
    assert_eq!(result.borrow_untracked(&g).value(), Value::Int(0));
    second.set(&mut g, Value::Int(15));
    assert_eq!(result.times_computed(&g), 1);
    assert_eq!(result.borrow_untracked(&g).value(), Value::Int(0));
    condition.set(&mut g, Value::Bool(true));
    assert_eq!(result.times_computed(&g), 2);
    assert_eq!(result.borrow_untracked(&g).value(), Value::Int(15));
    second.set(&mut g, Value::Int(5));
    assert_eq!(result.times_computed(&g), 3);
    assert_eq!(result.borrow_untracked(&g).value(), Value::Int(5));
}

#[test]
fn fork_and_join() {
    let mut g = Graph::new();
    init_if_needed(&mut g);
    let value = observable(&mut g, Value::Int(123));

    let left = {
        let value = value.ptr_clone();
        DerivationPtr::new(&mut g, Expr::read(value.id))
    };
    let right = {
        let value = value.ptr_clone();
        DerivationPtr::new(&mut g, Expr::read(value.id))
    };
    let joined = {
        let left = left.ptr_clone();
        let right = right.ptr_clone();
        DerivationPtr::new(&mut g, Expr::add(Expr::read(left.id), Expr::read(right.id)))
    };
    let after = {
        let joined = joined.ptr_clone();
        DerivationPtr::new(&mut g, Expr::read(joined.id))
    };
    assert_eq!(after.times_computed(&g), 1);
    assert_eq!(after.borrow_untracked(&g).value(), Value::Int(123 * 2));
    value.set(&mut g, Value::Int(42));
    assert_eq!(after.times_computed(&g), 2);
    assert_eq!(after.borrow_untracked(&g).value(), Value::Int(42 * 2));
}

#[test]
fn update_through_mut_ref() {
    let mut g = Graph::new();
    init_if_needed(&mut g);
    let value = observable(&mut g, Value::Int(123));
    let value2 = ObservablePtr::clone(&value);
    let derived = DerivationPtr::new(&mut g, Expr::add(Expr::read(value.id), Expr::lit_int(1)));
    assert_eq!(derived.borrow_untracked(&g).value(), Value::Int(124));
    let mut guard = value2.borrow_mut(&mut g);
    guard.write(Value::Int(42));
    guard.release(&mut g);
    assert_eq!(derived.borrow_untracked(&g).value(), Value::Int(43));
}

#[test]
fn ptr_clone_macro() {
    let mut g = Graph::new();
    init_if_needed(&mut g);
    let value = observable(&mut g, Value::Int(123));
    let holder = Holder { value };
    let derived = {
        let value = holder.value.ptr_clone();
        DerivationPtr::new(&mut g, Expr::read(value.id))
    };
    assert_eq!(derived.borrow_untracked(&g).value(), Value::Int(123));
    holder.value.set(&mut g, Value::Int(42));
    assert_eq!(derived.borrow_untracked(&g).value(), Value::Int(42));
}
