//! The node substrate: shared handles, cyclic construction, observer lists.

use observatory::{
    derivation, init, is_initialized, observable, Expr, Graph, ObserverList, PtrUtil, Value,
};

fn init_if_needed(g: &mut Graph) {
    if !is_initialized(g) {
        init(g);
    }
}

#[test]
fn make_and_drop_cyclic() {
    // A derivation's node holds a self-referencing observer identity wired at
    // construction; creating one and releasing it again must leave the graph
    // sound.
    let mut g = Graph::new();
    init_if_needed(&mut g);
    let value = observable(&mut g, Value::Int(0));
    let cyclic = derivation(&mut g, Expr::read(value.id));
    cyclic.release(&mut g);
}

#[test]
fn two_strong() {
    let mut g = Graph::new();
    let ptr = observable(&mut g, Value::Int(123));
    let ptr2 = ptr.ptr_clone();
    drop(ptr);
    assert_eq!(ptr2.borrow_untracked(&g).value(), Value::Int(123));
    drop(ptr2);
}

#[test]
fn many_strong() {
    let mut g = Graph::new();
    let ptr = observable(&mut g, Value::Int(123));
    let ptr2 = ptr.ptr_clone();
    let ptr3 = ptr.ptr_clone();
    let ptr4 = ptr.ptr_clone();
    drop(ptr2);
    drop(ptr);
    drop(ptr3);
    assert_eq!(ptr4.borrow_untracked(&g).value(), Value::Int(123));
    drop(ptr4);
}

#[test]
fn observer_list_add_remove() {
    let mut list = ObserverList::new();
    assert_eq!(list.len(), 0);
    assert!(!list.contains(3));
    list.add(3);
    list.add(7);
    assert_eq!(list.len(), 2);
    assert!(list.contains(3));
    assert!(list.contains(7));
    list.remove(3);
    assert_eq!(list.len(), 1);
    assert!(!list.contains(3));
    assert!(list.contains(7));
}

#[test]
fn runtime_gate() {
    let mut g = Graph::new();
    assert!(!is_initialized(&g));
    init(&mut g);
    assert!(is_initialized(&g));
}

#[test]
fn graph_len_grows() {
    let mut g = Graph::new();
    assert_eq!(g.len(), 0);
    let _a = observable(&mut g, Value::Int(1));
    assert_eq!(g.len(), 1);
    init(&mut g);
    let _d = derivation(&mut g, Expr::lit_int(5));
    assert_eq!(g.len(), 2);
}

#[test]
fn release_unsubscribes_dependency() {
    // After the drop, the value's observer list is empty again: the mirror
    // invariant between dependency and observer edges is restored.
    let mut g = Graph::new();
    init_if_needed(&mut g);
    let value = observable(&mut g, Value::Int(0));
    let derived = derivation(&mut g, Expr::read(value.id));
    assert_eq!(g.observers[value.id].len(), 1);
    derived.release(&mut g);
    assert_eq!(g.observers[value.id].len(), 0);
    value.set(&mut g, Value::Int(9));
    assert_eq!(value.borrow_untracked(&g).value(), Value::Int(9));
}
