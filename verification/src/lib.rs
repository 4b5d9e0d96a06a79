//! MobX-style observables and derivations over a single-owner reactive graph.
//!
//! An *observable* is a leaf node holding a mutable value; a *derivation* is
//! a cached computation over observables and other derivations, written as an
//! [`Expr`]. Reads performed while a derivation (re)computes are captured
//! automatically, so the set of dependencies is rediscovered on every
//! recompute: a branch not taken sheds the dependencies it would have read.
//! A write to an observable broadcasts a STALE notice and then a READY notice
//! through the observer edges; a derivation recomputes exactly once per
//! write, even across diamond-shaped graphs, and only when one of its inputs
//! actually changed. Every write returns with the graph quiescent: all stale
//! counters zero, all dirty flags clear, every cached value fresh.
//!
//! All nodes live in a [`Graph`], which a single owner threads through every
//! operation — ownership of the graph plays the role of the runtime's owning
//! thread. Handles ([`ObservablePtr`], [`DerivationPtr`]) are cheap, copyable
//! identities into that graph.

use vstd::prelude::*;

pub mod expr;
pub mod graph;
pub mod observable;
pub mod observer;
pub mod props;
pub mod ptr_util;
pub mod static_state;
pub mod value;

pub use expr::Expr;
pub use graph::Graph;
pub use observable::{ObservablePtr, ObservableRef, ObservableRefMut};
pub use observer::{DerivationPtr, ObserverList};
pub use ptr_util::PtrUtil;
pub use static_state::{init, is_initialized};
pub use value::Value;

verus! {

/// Creates a new observable leaf holding `value`.
pub fn observable(g: &mut Graph, value: Value) -> (h: ObservablePtr)
    requires
        old(g).wf(),
        old(g).n() < usize::MAX,
    ensures
        final(g).wf(),
        h.is_for(*final(g)),
        h.id == old(g).n(),
        final(g).n() == old(g).n() + 1,
        final(g).vals() == old(g).vals().push(value),
        final(g).kinds@ == old(g).kinds@.push(graph::NodeKind::Observable),
        final(g).initialized == old(g).initialized,
        final(g).tc_of(h.id as int) == 0,
        !final(g).mb_of(h.id as int),
        forall|d: int| 0 <= d < old(g).n() ==> final(g).dep_seq(d) == old(g).dep_seq(d),
        forall|d: int| 0 <= d < old(g).n() ==> final(g).tc_of(d) == old(g).tc_of(d),
        forall|d: int| 0 <= d < old(g).n() ==> final(g).mb_of(d) == old(g).mb_of(d),
{
    ObservablePtr::new(g, value)
}

/// Creates a new derivation computing `compute_value`; the expression runs
/// once and its reads become the dependencies.
pub fn derivation(g: &mut Graph, compute_value: Expr) -> (h: DerivationPtr)
    requires
        old(g).wf(),
        old(g).initialized,
        old(g).n() < usize::MAX,
        forall|i: usize| #[trigger] expr::mentions(compute_value).contains(i) ==> old(g).live(
            i as int,
        ),
    ensures
        final(g).wf(),
        h.is_for(*final(g)),
        h.id == old(g).n(),
        final(g).n() == old(g).n() + 1,
        final(g).vals() == old(g).vals().push(expr::eval_spec(old(g).vals(), compute_value)),
        final(g).expr_of(h.id as int) == compute_value,
        final(g).tc_of(h.id as int) == 1,
        final(g).kinds@ == old(g).kinds@.push(graph::NodeKind::Derivation),
        final(g).initialized == old(g).initialized,
        forall|d: int| 0 <= d < old(g).n() ==> final(g).dep_seq(d) == old(g).dep_seq(d),
        forall|d: int| 0 <= d < old(g).n() ==> final(g).tc_of(d) == old(g).tc_of(d),
        forall|d: int| 0 <= d < old(g).n() ==> final(g).mb_of(d) == old(g).mb_of(d),
{
    DerivationPtr::new(g, compute_value)
}

/// Creates a new derivation from a heap-held expression; identical in
/// behaviour to [`derivation`].
pub fn derivation_dyn(g: &mut Graph, compute_value: Expr) -> (h: DerivationPtr)
    requires
        old(g).wf(),
        old(g).initialized,
        old(g).n() < usize::MAX,
        forall|i: usize| #[trigger] expr::mentions(compute_value).contains(i) ==> old(g).live(
            i as int,
        ),
    ensures
        final(g).wf(),
        h.is_for(*final(g)),
        h.id == old(g).n(),
        final(g).n() == old(g).n() + 1,
        final(g).vals() == old(g).vals().push(expr::eval_spec(old(g).vals(), compute_value)),
        final(g).expr_of(h.id as int) == compute_value,
        final(g).tc_of(h.id as int) == 1,
        final(g).kinds@ == old(g).kinds@.push(graph::NodeKind::Derivation),
        final(g).initialized == old(g).initialized,
        forall|d: int| 0 <= d < old(g).n() ==> final(g).dep_seq(d) == old(g).dep_seq(d),
        forall|d: int| 0 <= d < old(g).n() ==> final(g).tc_of(d) == old(g).tc_of(d),
        forall|d: int| 0 <= d < old(g).n() ==> final(g).mb_of(d) == old(g).mb_of(d),
{
    DerivationPtr::new_dyn(g, compute_value)
}

} // verus!
