//! Observable handles: the leaves of the reactive graph.
//!
//! An [`ObservablePtr`] is a cheap, copyable identity of an observable node;
//! clones share the node. Reads hand back an [`ObservableRef`] snapshot;
//! mutation goes through [`ObservablePtr::set`] or an [`ObservableRefMut`]
//! guard, whose release runs the modification broadcast.

use vstd::prelude::*;

use crate::graph::{Graph, NodeKind};
use crate::static_state::note_observed;
use crate::value::Value;

verus! {

/// A shared handle to an observable node. Copying the handle shares the
/// underlying node, exactly like cloning a reference-counted pointer.
#[derive(Clone, Copy, PartialEq, Eq, Structural, Debug)]
pub struct ObservablePtr {
    pub id: usize,
}

/// A read guard: the value of a node at the moment of the borrow.
#[derive(Clone, Copy, PartialEq, Eq, Structural, Debug)]
pub struct ObservableRef {
    pub value: Value,
}

impl ObservableRef {
    /// The borrowed value.
    pub fn value(&self) -> (r: Value)
        ensures
            r == self.value,
    {
        self.value
    }
}

/// A mutable borrow of an observable's value. While it is out, the node is
/// marked mutably borrowed and no other borrow or write may touch it.
/// Writing goes to the guard; [`ObservableRefMut::release`] ends the borrow,
/// stores the value back and broadcasts the modification.
pub struct ObservableRefMut {
    pub id: usize,
    pub value: Value,
}

impl ObservableRefMut {
    /// The value as currently held by the guard.
    pub fn read(&self) -> (r: Value)
        ensures
            r == self.value,
    {
        self.value
    }

    /// Replaces the value held by the guard.
    pub fn write(&mut self, v: Value)
        ensures
            final(self).id == old(self).id,
            final(self).value == v,
    {
        self.value = v;
    }

    /// Ends the borrow: stores the guard's value into the node, clears the
    /// borrow mark and runs the modification broadcast — observers receive
    /// STALE and then READY with `changed = true`.
    pub fn release(self, g: &mut Graph)
        requires
            old(g).wf(),
            old(g).is_observable(self.id as int),
            old(g).mb_of(self.id as int),
        ensures
            final(g).wf(),
            final(g).n() == old(g).n(),
            final(g).kinds@ == old(g).kinds@,
            final(g).initialized == old(g).initialized,
            final(g).vals()[self.id as int] == self.value,
            !final(g).mb_of(self.id as int),
            forall|i: int|
                0 <= i < old(g).n() && i != self.id as int && old(g).is_observable(i)
                    ==> final(g).vals()[i] == old(g).vals()[i],
            forall|d: int|
                0 <= d < old(g).n() ==> old(g).tc_of(d) <= (#[trigger] final(g).tc_of(d))
                    <= old(g).tc_of(d) + 1,
    {
        let ghost gin = *old(g);
        let _flag = crate::graph::vec_replace(&mut g.mut_borrows, self.id, false);
        let ghost gp = *g;
        proof {
            assert(gp.wf()) by {
                assert forall|d: int| 0 <= d < gp.n() implies gp.edges_wf_at(d) by {
                    assert(gin.edges_wf_at(d));
                }
                assert forall|d: int| 0 <= d < gp.n() implies gp.fresh_at(d) && gp.quiet_at(
                    d,
                ) by {
                    assert(gin.fresh_at(d));
                    assert(gin.quiet_at(d));
                }
                if exists|d: int| 0 <= d < gp.n() && gp.is_derivation(d) {
                    let w = choose|d: int| 0 <= d < gp.n() && gp.is_derivation(d);
                    assert(gin.is_derivation(w));
                }
            }
        }
        g.set_value(self.id, self.value);
    }
}

impl ObservablePtr {
    /// Whether this handle points at a live observable of `g`.
    pub open spec fn is_for(self, g: Graph) -> bool {
        g.is_observable(self.id as int)
    }

    /// Creates a new observable node holding `value`.
    pub fn new(g: &mut Graph, value: Value) -> (h: ObservablePtr)
        requires
            old(g).wf(),
            old(g).n() < usize::MAX,
        ensures
            final(g).wf(),
            h.is_for(*final(g)),
            h.id == old(g).n(),
            final(g).n() == old(g).n() + 1,
            final(g).vals() == old(g).vals().push(value),
            final(g).kinds@ == old(g).kinds@.push(NodeKind::Observable),
            final(g).initialized == old(g).initialized,
            final(g).tc_of(h.id as int) == 0,
            !final(g).mb_of(h.id as int),
            forall|d: int| 0 <= d < old(g).n() ==> final(g).dep_seq(d) == old(g).dep_seq(d),
            forall|d: int| 0 <= d < old(g).n() ==> final(g).tc_of(d) == old(g).tc_of(d),
            forall|d: int| 0 <= d < old(g).n() ==> final(g).mb_of(d) == old(g).mb_of(d),
    {
        let id = g.new_observable(value);
        ObservablePtr { id }
    }

    /// A tracked read: records this node in the open capture frame and hands
    /// back the value. Only meaningful while a derivation computes; a tracked
    /// read with no frame open is a usage error and is excluded up front.
    pub fn borrow(&self, g: &mut Graph) -> (r: ObservableRef)
        requires
            old(g).initialized,
            old(g).capture@.len() > 0,
            old(g).lens_ok(),
            self.id < old(g).n(),
            !old(g).mb_of(self.id as int),
        ensures
            r.value == old(g).vals()[self.id as int],
            *final(g) == (Graph { capture: final(g).capture, ..*old(g) }),
            final(g).capture@.len() == old(g).capture@.len(),
            final(g).capture@.last()@ == crate::static_state::note_one(
                old(g).capture@.last()@,
                self.id,
            ),
            forall|i: int|
                0 <= i < old(g).capture@.len() - 1 ==> final(g).capture@[i] == old(g).capture@[i],
    {
        let v = g.values[self.id];
        note_observed(g, self.id);
        ObservableRef { value: v }
    }

    /// An untracked read: the current value, no capture involved.
    pub fn borrow_untracked(&self, g: &Graph) -> (r: ObservableRef)
        requires
            g.lens_ok(),
            self.id < g.n(),
            !g.mb_of(self.id as int),
        ensures
            r.value == g.vals()[self.id as int],
    {
        ObservableRef { value: g.values[self.id] }
    }

    /// Opens a mutable borrow: marks the node and hands out a guard holding
    /// the current value. Borrowing mutably twice is a usage error and is
    /// excluded up front.
    pub fn borrow_mut(&self, g: &mut Graph) -> (m: ObservableRefMut)
        requires
            old(g).wf(),
            self.is_for(*old(g)),
            !old(g).mb_of(self.id as int),
        ensures
            final(g).wf(),
            m.id == self.id,
            m.value == old(g).vals()[self.id as int],
            final(g).mb_of(self.id as int),
            final(g).n() == old(g).n(),
            final(g).vals() == old(g).vals(),
            final(g).kinds@ == old(g).kinds@,
            final(g).initialized == old(g).initialized,
            forall|i: int|
                0 <= i < old(g).n() && i != self.id as int ==> final(g).mb_of(i)
                    == old(g).mb_of(i),
    {
        let ghost gin = *old(g);
        let v = g.values[self.id];
        let _flag = crate::graph::vec_replace(&mut g.mut_borrows, self.id, true);
        proof {
            assert(g.wf()) by {
                assert forall|d: int| 0 <= d < g.n() implies g.edges_wf_at(d) by {
                    assert(gin.edges_wf_at(d));
                }
                assert forall|d: int| 0 <= d < g.n() implies g.fresh_at(d) && g.quiet_at(d) by {
                    assert(gin.fresh_at(d));
                    assert(gin.quiet_at(d));
                }
                if exists|d: int| 0 <= d < g.n() && g.is_derivation(d) {
                    let w = choose|d: int| 0 <= d < g.n() && g.is_derivation(d);
                    assert(gin.is_derivation(w));
                }
            }
        }
        ObservableRefMut { id: self.id, value: v }
    }

    /// Writes `new_value` and propagates to quiescence: every derivation that
    /// transitively read this observable has settled — recomputed at most
    /// once, and recomputed at all only if one of its inputs changed — by the
    /// time this returns.
    pub fn set(&self, g: &mut Graph, new_value: Value)
        requires
            old(g).wf(),
            self.is_for(*old(g)),
            !old(g).mb_of(self.id as int),
        ensures
            final(g).wf(),
            final(g).n() == old(g).n(),
            final(g).kinds@ == old(g).kinds@,
            final(g).exprs@ == old(g).exprs@,
            final(g).initialized == old(g).initialized,
            final(g).vals()[self.id as int] == new_value,
            forall|i: int|
                0 <= i < old(g).n() && i != self.id as int && old(g).is_observable(i)
                    ==> final(g).vals()[i] == old(g).vals()[i],
            forall|d: int|
                0 <= d < old(g).n() ==> old(g).tc_of(d) <= (#[trigger] final(g).tc_of(d))
                    <= old(g).tc_of(d) + 1,
            forall|d: int|
                #![trigger final(g).vals()[d]]
                #![trigger final(g).dep_seq(d)]
                #![trigger final(g).tc_of(d)]
                0 <= d < old(g).n() && !crate::graph::in_wave(*old(g), self.id as int, d)
                    ==> final(g).vals()[d] == old(g).vals()[d] && final(g).dep_seq(d)
                    == old(g).dep_seq(d) && final(g).tc_of(d) == old(g).tc_of(d),
    {
        g.set_value(self.id, new_value);
    }
}

} // verus!
