//! Observer lists: the weak back-edges of the graph.
//!
//! Every node keeps the list of derivations observing it. The list is ordered
//! by registration and free of duplicates; broadcasts walk it in order.

use vstd::prelude::*;

use crate::expr::{eval_spec, mentions, Expr};
use crate::graph::{Graph, NodeKind};
use crate::observable::ObservableRef;
use crate::static_state::note_observed;

verus! {

/// A sequence has no repeated element.
pub open spec fn no_dup(s: Seq<usize>) -> bool {
    forall|i: int, j: int| 0 <= i < j < s.len() ==> s[i] != s[j]
}

/// The position of the first occurrence of `x` in `s`.
pub open spec fn first_index_of(s: Seq<usize>, x: usize) -> int
    decreases s.len(),
{
    if s.len() == 0 {
        0
    } else if s[0] == x {
        0
    } else {
        1 + first_index_of(s.drop_first(), x)
    }
}

pub proof fn lemma_first_index_of(s: Seq<usize>, x: usize)
    requires
        s.contains(x),
    ensures
        0 <= first_index_of(s, x) < s.len(),
        s[first_index_of(s, x)] == x,
        forall|j: int| 0 <= j < first_index_of(s, x) ==> s[j] != x,
    decreases s.len(),
{
    if s[0] == x {
    } else {
        assert(s.drop_first().contains(x)) by {
            let k = choose|k: int| 0 <= k < s.len() && s[k] == x;
            assert(s.drop_first()[k - 1] == x);
        }
        lemma_first_index_of(s.drop_first(), x);
        assert forall|j: int| 0 <= j < first_index_of(s, x) implies s[j] != x by {
            if j > 0 {
                assert(s.drop_first()[j - 1] == s[j]);
            }
        }
    }
}

/// Stores the observers that must be notified whenever an observable object
/// changes. Used by both observables and derivations.
pub struct ObserverList {
    pub ids: Vec<usize>,
}

impl View for ObserverList {
    type V = Seq<usize>;

    open spec fn view(&self) -> Seq<usize> {
        self.ids@
    }
}

impl ObserverList {
    /// An empty observer list.
    pub fn new() -> (r: ObserverList)
        ensures
            r@ == Seq::<usize>::empty(),
    {
        ObserverList { ids: Vec::new() }
    }

    pub fn len(&self) -> (r: usize)
        ensures
            r == self@.len(),
    {
        self.ids.len()
    }

    /// Whether `observer` is already registered.
    pub fn contains(&self, observer: usize) -> (r: bool)
        ensures
            r == self@.contains(observer),
    {
        let mut k: usize = 0;
        while k < self.ids.len()
            invariant
                k <= self.ids.len(),
                forall|j: int| 0 <= j < k ==> self.ids@[j] != observer,
            decreases self.ids.len() - k,
        {
            if self.ids[k] == observer {
                assert(self.ids@[k as int] == observer);
                return true;
            }
            k += 1;
        }
        false
    }

    /// Registers an observer. Subscribing the same observer twice is an
    /// internal error, so it is excluded up front.
    pub fn add(&mut self, observer: usize)
        requires
            !old(self)@.contains(observer),
        ensures
            final(self)@ == old(self)@.push(observer),
    {
        self.ids.push(observer);
    }

    /// Unregisters an observer: the first occurrence leaves the list.
    /// Unsubscribing an observer that is not registered is an internal error,
    /// so it is excluded up front.
    pub fn remove(&mut self, observer: usize)
        requires
            old(self)@.contains(observer),
        ensures
            final(self)@ == old(self)@.remove(first_index_of(old(self)@, observer)),
    {
        let mut k: usize = 0;
        while k < self.ids.len()
            invariant
                self@ == old(self)@,
                old(self)@.contains(observer),
                k <= self.ids.len(),
                forall|j: int| 0 <= j < k ==> self.ids@[j] != observer,
            decreases self.ids.len() - k,
        {
            if self.ids[k] == observer {
                proof {
                    let s0 = old(self)@;
                    lemma_first_index_of(s0, observer);
                    let idx = first_index_of(s0, observer);
                    assert(self.ids@[k as int] == observer);
                    if (k as int) < idx {
                        assert(s0[k as int] != observer);
                    }
                    if idx < k as int {
                        assert(s0[idx] == observer);
                        assert(self.ids@[idx] != observer);
                    }
                    assert(k as int == idx);
                }
                self.ids.remove(k);
                return ;
            }
            k += 1;
        }
        proof {
            lemma_first_index_of(old(self)@, observer);
            assert(self@[first_index_of(self@, observer)] == observer);
            assert(false);
        }
    }
}

impl ObserverList {
    /// Sends one STALE notice to every registered observer, in registration
    /// order. The list is a snapshot taken out of the graph, so observer
    /// registrations from within cannot affect the pass.
    pub fn broadcast_stale(&self, g: &mut Graph)
        requires
            old(g).lens_ok(),
            no_dup(self@),
            forall|j: int|
                0 <= j < self@.len() ==> (#[trigger] self@[j]) < old(g).n() && old(g).sc_of(
                    self@[j] as int,
                ) < u64::MAX,
        ensures
            *final(g) == (Graph { stale_counts: final(g).stale_counts, ..*old(g) }),
            final(g).stale_counts@.len() == old(g).stale_counts@.len(),
            forall|d: usize|
                (d as int) < old(g).n() ==> (#[trigger] final(g).sc_of(d as int)) == old(g).sc_of(
                    d as int,
                ) + (if self@.contains(d) {
                    1int
                } else {
                    0int
                }),
    {
        let mut k: usize = 0;
        while k < self.ids.len()
            invariant
                no_dup(self@),
                forall|j: int|
                    0 <= j < self@.len() ==> (#[trigger] self@[j]) < old(g).n() && old(g).sc_of(
                        self@[j] as int,
                    ) < u64::MAX,
                k <= self@.len(),
                old(g).lens_ok(),
                g.lens_ok(),
                *g == (Graph { stale_counts: g.stale_counts, ..*old(g) }),
                g.stale_counts@.len() == old(g).stale_counts@.len(),
                forall|d: usize|
                    (d as int) < old(g).n() ==> g.sc_of(d as int) == old(g).sc_of(d as int) + (if self@.take(
                        k as int,
                    ).contains(d) {
                        1int
                    } else {
                        0int
                    }),
            decreases self@.len() - k,
        {
            let ob = self.ids[k];
            proof {
                assert(self@[k as int] == ob);
                assert(!self@.take(k as int).contains(ob)) by {
                    if self@.take(k as int).contains(ob) {
                        let j = choose|j: int| 0 <= j < k && self@.take(k as int)[j] == ob;
                        assert(self@[j] == ob);
                    }
                }
                assert(g.sc_of(ob as int) == old(g).sc_of(ob as int));
            }
            let ghost gpre = *g;
            g.send_stale(ob);
            proof {
                assert(self@.take(k as int + 1) =~= self@.take(k as int).push(ob));
                assert forall|d: usize| (d as int) < old(g).n() implies g.sc_of(d as int) == old(
                    g,
                ).sc_of(d as int) + (if self@.take(k as int + 1).contains(d) {
                    1int
                } else {
                    0int
                }) by {
                    let tk = self@.take(k as int);
                    let tk1 = self@.take(k as int + 1);
                    assert(tk1.contains(d) == (tk.contains(d) || d == ob)) by {
                        if tk.contains(d) {
                            let j = choose|j: int| 0 <= j < tk.len() && tk[j] == d;
                            assert(tk1[j] == d);
                        }
                        if d == ob {
                            assert(tk1.last() == d);
                        }
                        if tk1.contains(d) {
                            let j = choose|j: int| 0 <= j < tk1.len() && tk1[j] == d;
                            if j < tk.len() {
                                assert(tk[j] == d);
                            }
                        }
                    }
                    assert(gpre.sc_of(d as int) == old(g).sc_of(d as int) + (if tk.contains(d) {
                        1int
                    } else {
                        0int
                    }));
                    if d == ob {
                        assert(g.sc_of(d as int) == gpre.sc_of(d as int) + 1);
                    } else {
                        assert(g.stale_counts@[d as int] == gpre.stale_counts@[d as int]);
                    }
                }
            }
            k += 1;
        }
        proof {
            assert(self@.take(self@.len() as int) =~= self@);
        }
    }

    /// Sends one READY notice, carrying `changed`, to every registered
    /// observer, in registration order, over a snapshot of the list.
    pub fn broadcast_ready(&self, g: &mut Graph, changed: bool)
        requires
            old(g).lens_ok(),
            no_dup(self@),
            forall|j: int|
                0 <= j < self@.len() ==> (#[trigger] self@[j]) < old(g).n() && old(g).sc_of(
                    self@[j] as int,
                ) >= 1,
        ensures
            *final(g) == (Graph {
                stale_counts: final(g).stale_counts,
                dirty_flags: final(g).dirty_flags,
                ..*old(g)
            }),
            final(g).stale_counts@.len() == old(g).stale_counts@.len(),
            final(g).dirty_flags@.len() == old(g).dirty_flags@.len(),
            forall|d: usize|
                (d as int) < old(g).n() ==> (#[trigger] final(g).sc_of(d as int)) == old(g).sc_of(
                    d as int,
                ) - (if self@.contains(d) {
                    1int
                } else {
                    0int
                }),
            forall|d: usize|
                (d as int) < old(g).n() ==> (#[trigger] final(g).dirty_of(d as int)) == (old(
                    g,
                ).dirty_of(d as int) || (self@.contains(d) && changed)),
    {
        let mut k: usize = 0;
        while k < self.ids.len()
            invariant
                no_dup(self@),
                forall|j: int|
                    0 <= j < self@.len() ==> (#[trigger] self@[j]) < old(g).n() && old(g).sc_of(
                        self@[j] as int,
                    ) >= 1,
                k <= self@.len(),
                old(g).lens_ok(),
                g.lens_ok(),
                *g == (Graph {
                    stale_counts: g.stale_counts,
                    dirty_flags: g.dirty_flags,
                    ..*old(g)
                }),
                g.stale_counts@.len() == old(g).stale_counts@.len(),
                g.dirty_flags@.len() == old(g).dirty_flags@.len(),
                forall|d: usize|
                    (d as int) < old(g).n() ==> g.sc_of(d as int) == old(g).sc_of(d as int) - (
                    if self@.take(k as int).contains(d) {
                        1int
                    } else {
                        0int
                    }),
                forall|d: usize|
                    (d as int) < old(g).n() ==> g.dirty_of(d as int) == (old(g).dirty_of(d as int)
                        || (self@.take(k as int).contains(d) && changed)),
            decreases self@.len() - k,
        {
            let ob = self.ids[k];
            proof {
                assert(self@[k as int] == ob);
                assert(!self@.take(k as int).contains(ob)) by {
                    if self@.take(k as int).contains(ob) {
                        let j = choose|j: int| 0 <= j < k && self@.take(k as int)[j] == ob;
                        assert(self@[j] == ob);
                    }
                }
                assert(g.sc_of(ob as int) == old(g).sc_of(ob as int));
            }
            let ghost gpre = *g;
            g.send_ready(ob, changed);
            proof {
                assert(self@.take(k as int + 1) =~= self@.take(k as int).push(ob));
                assert forall|d: usize| (d as int) < old(g).n() implies (g.sc_of(d as int) == old(
                    g,
                ).sc_of(d as int) - (if self@.take(k as int + 1).contains(d) {
                    1int
                } else {
                    0int
                }) && g.dirty_of(d as int) == (old(g).dirty_of(d as int) || (self@.take(
                    k as int + 1,
                ).contains(d) && changed))) by {
                    let tk = self@.take(k as int);
                    let tk1 = self@.take(k as int + 1);
                    assert(tk1.contains(d) == (tk.contains(d) || d == ob)) by {
                        if tk.contains(d) {
                            let j = choose|j: int| 0 <= j < tk.len() && tk[j] == d;
                            assert(tk1[j] == d);
                        }
                        if d == ob {
                            assert(tk1.last() == d);
                        }
                        if tk1.contains(d) {
                            let j = choose|j: int| 0 <= j < tk1.len() && tk1[j] == d;
                            if j < tk.len() {
                                assert(tk[j] == d);
                            }
                        }
                    }
                    assert(gpre.sc_of(d as int) == old(g).sc_of(d as int) - (if tk.contains(d) {
                        1int
                    } else {
                        0int
                    }));
                    assert(gpre.dirty_of(d as int) == (old(g).dirty_of(d as int) || (tk.contains(
                        d,
                    ) && changed)));
                    if d == ob {
                        assert(g.sc_of(d as int) == gpre.sc_of(d as int) - 1);
                        assert(g.dirty_of(d as int) == (gpre.dirty_of(d as int) || changed));
                    } else {
                        assert(g.stale_counts@[d as int] == gpre.stale_counts@[d as int]);
                        assert(g.dirty_flags@[d as int] == gpre.dirty_flags@[d as int]);
                    }
                }
            }
            k += 1;
        }
        proof {
            assert(self@.take(self@.len() as int) =~= self@);
        }
    }
}

/// A shared handle to a derivation node: a cached computation whose inputs
/// are discovered by running it. Copying the handle shares the node.
#[derive(Clone, Copy, PartialEq, Eq, Structural, Debug)]
pub struct DerivationPtr {
    pub id: usize,
}

impl DerivationPtr {
    /// Whether this handle points at a live derivation of `g`.
    pub open spec fn is_for(self, g: Graph) -> bool {
        g.is_derivation(self.id as int)
    }

    /// Creates a derivation computing `compute`. The expression runs once,
    /// under dependency capture; its result becomes the initial cached value
    /// and what it read becomes the dependency list, with the new node
    /// registered as an observer of each dependency.
    pub fn new(g: &mut Graph, compute: Expr) -> (h: DerivationPtr)
        requires
            old(g).wf(),
            old(g).initialized,
            old(g).n() < usize::MAX,
            forall|i: usize| #[trigger] mentions(compute).contains(i) ==> old(g).live(i as int),
        ensures
            final(g).wf(),
            h.is_for(*final(g)),
            h.id == old(g).n(),
            final(g).n() == old(g).n() + 1,
            final(g).vals() == old(g).vals().push(eval_spec(old(g).vals(), compute)),
            final(g).expr_of(h.id as int) == compute,
            final(g).tc_of(h.id as int) == 1,
            final(g).kinds@ == old(g).kinds@.push(NodeKind::Derivation),
            final(g).initialized == old(g).initialized,
            forall|d: int| 0 <= d < old(g).n() ==> final(g).dep_seq(d) == old(g).dep_seq(d),
            forall|d: int| 0 <= d < old(g).n() ==> final(g).tc_of(d) == old(g).tc_of(d),
            forall|d: int| 0 <= d < old(g).n() ==> final(g).mb_of(d) == old(g).mb_of(d),
    {
        let id = g.new_derivation(compute);
        DerivationPtr { id }
    }

    /// Creates a derivation from an expression held behind indirection; the
    /// expression tree is already heap-allocated, so this is the same
    /// construction as [`DerivationPtr::new`].
    pub fn new_dyn(g: &mut Graph, compute: Expr) -> (h: DerivationPtr)
        requires
            old(g).wf(),
            old(g).initialized,
            old(g).n() < usize::MAX,
            forall|i: usize| #[trigger] mentions(compute).contains(i) ==> old(g).live(i as int),
        ensures
            final(g).wf(),
            h.is_for(*final(g)),
            h.id == old(g).n(),
            final(g).n() == old(g).n() + 1,
            final(g).vals() == old(g).vals().push(eval_spec(old(g).vals(), compute)),
            final(g).expr_of(h.id as int) == compute,
            final(g).tc_of(h.id as int) == 1,
            final(g).kinds@ == old(g).kinds@.push(NodeKind::Derivation),
            final(g).initialized == old(g).initialized,
            forall|d: int| 0 <= d < old(g).n() ==> final(g).dep_seq(d) == old(g).dep_seq(d),
            forall|d: int| 0 <= d < old(g).n() ==> final(g).tc_of(d) == old(g).tc_of(d),
            forall|d: int| 0 <= d < old(g).n() ==> final(g).mb_of(d) == old(g).mb_of(d),
    {
        DerivationPtr::new(g, compute)
    }

    /// A synonym of [`DerivationPtr::new`].
    pub fn computed(g: &mut Graph, compute: Expr) -> (h: DerivationPtr)
        requires
            old(g).wf(),
            old(g).initialized,
            old(g).n() < usize::MAX,
            forall|i: usize| #[trigger] mentions(compute).contains(i) ==> old(g).live(i as int),
        ensures
            final(g).wf(),
            h.is_for(*final(g)),
            h.id == old(g).n(),
            final(g).n() == old(g).n() + 1,
            final(g).vals() == old(g).vals().push(eval_spec(old(g).vals(), compute)),
            final(g).expr_of(h.id as int) == compute,
            final(g).tc_of(h.id as int) == 1,
            final(g).kinds@ == old(g).kinds@.push(NodeKind::Derivation),
            final(g).initialized == old(g).initialized,
            forall|d: int| 0 <= d < old(g).n() ==> final(g).dep_seq(d) == old(g).dep_seq(d),
            forall|d: int| 0 <= d < old(g).n() ==> final(g).tc_of(d) == old(g).tc_of(d),
            forall|d: int| 0 <= d < old(g).n() ==> final(g).mb_of(d) == old(g).mb_of(d),
    {
        DerivationPtr::new(g, compute)
    }

    /// A tracked read of the cached value: records this node in the open
    /// capture frame. Only meaningful while another derivation computes.
    pub fn borrow(&self, g: &mut Graph) -> (r: ObservableRef)
        requires
            old(g).initialized,
            old(g).capture@.len() > 0,
            old(g).lens_ok(),
            self.id < old(g).n(),
        ensures
            r.value == old(g).vals()[self.id as int],
            *final(g) == (Graph { capture: final(g).capture, ..*old(g) }),
            final(g).capture@.len() == old(g).capture@.len(),
            final(g).capture@.last()@ == crate::static_state::note_one(
                old(g).capture@.last()@,
                self.id,
            ),
            forall|i: int|
                0 <= i < old(g).capture@.len() - 1 ==> final(g).capture@[i] == old(g).capture@[i],
    {
        let v = g.values[self.id];
        note_observed(g, self.id);
        ObservableRef { value: v }
    }

    /// An untracked read of the cached value.
    pub fn borrow_untracked(&self, g: &Graph) -> (r: ObservableRef)
        requires
            g.lens_ok(),
            self.id < g.n(),
        ensures
            r.value == g.vals()[self.id as int],
    {
        ObservableRef { value: g.values[self.id] }
    }

    /// How many times the compute expression has run, the construction run
    /// included.
    pub fn times_computed(&self, g: &Graph) -> (r: u64)
        requires
            g.lens_ok(),
            self.id < g.n(),
        ensures
            r == g.tc_of(self.id as int),
    {
        g.times_computed[self.id]
    }

    /// The pending stale counter; zero whenever the graph is at rest.
    pub fn stale_count(&self, g: &Graph) -> (r: u64)
        requires
            g.lens_ok(),
            self.id < g.n(),
        ensures
            r == g.sc_of(self.id as int),
    {
        g.stale_counts[self.id]
    }

    /// The latched dirty flag; false whenever the graph is at rest.
    pub fn dirty(&self, g: &Graph) -> (r: bool)
        requires
            g.lens_ok(),
            self.id < g.n(),
        ensures
            r == g.dirty_of(self.id as int),
    {
        g.dirty_flags[self.id]
    }

    /// Releases the last strong handle: the derivation unsubscribes from all
    /// of its dependencies and its slot is retired. Nothing may still read
    /// it: no live expression mentions it.
    pub fn release(self, g: &mut Graph)
        requires
            old(g).wf(),
            self.is_for(*old(g)),
            forall|e: int|
                0 <= e < old(g).n() && old(g).live(e) && e != self.id as int ==> !mentions(
                    #[trigger] old(g).expr_of(e),
                ).contains(self.id),
        ensures
            final(g).wf(),
            final(g).n() == old(g).n(),
            final(g).kinds@ == old(g).kinds@.update(self.id as int, NodeKind::Retired),
            final(g).vals() == old(g).vals(),
            final(g).initialized == old(g).initialized,
            forall|q: int|
                0 <= q < old(g).n() && q != self.id as int ==> final(g).dep_seq(q) == old(
                    g,
                ).dep_seq(q) && final(g).tc_of(q) == old(g).tc_of(q),
    {
        g.retire_derivation(self.id);
    }
}

} // verus!
