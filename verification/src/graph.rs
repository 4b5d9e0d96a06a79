//! The node substrate: one arena that owns every node of the reactive graph.
//!
//! Nodes are identified by their creation index. A derivation can only read
//! nodes that already exist when it is constructed, so every dependency edge
//! points from a higher id to a strictly lower id: the forward dependency
//! graph is acyclic by construction, and creation order is a topological
//! order. Observer edges mirror dependency edges exactly (if `d` depends on
//! `p`, then `p` lists `d` as an observer), pointing from lower ids up.

use vstd::prelude::*;

use crate::expr::{agree_at, eval_spec, mentions, reads_spec, Expr};
use crate::observer::{no_dup, ObserverList};
use crate::static_state::{note_all, note_observed, note_one};
use crate::value::Value;

verus! {

/// What a slot of the arena holds: a live observable leaf, a live derivation,
/// or the tombstone of a derivation whose last strong handle was released.
#[derive(Clone, Copy, PartialEq, Eq, Structural, Debug)]
pub enum NodeKind {
    Observable,
    Derivation,
    Retired,
}

/// The reactive graph. All node state is kept in parallel columns indexed by
/// node id; `capture` is the stack of capture frames and `initialized` the
/// runtime gate.
pub struct Graph {
    pub kinds: Vec<NodeKind>,
    pub values: Vec<Value>,
    pub exprs: Vec<Expr>,
    pub deps: Vec<Vec<usize>>,
    pub observers: Vec<ObserverList>,
    pub stale_counts: Vec<u64>,
    pub dirty_flags: Vec<bool>,
    pub times_computed: Vec<u64>,
    pub mut_borrows: Vec<bool>,
    pub capture: Vec<Vec<usize>>,
    pub initialized: bool,
}

impl Graph {
    /// Number of node slots, retired ones included.
    pub open spec fn n(self) -> int {
        self.kinds@.len() as int
    }

    /// The current values of all nodes, by id.
    pub open spec fn vals(self) -> Seq<Value> {
        self.values@
    }

    pub open spec fn kind_of(self, i: int) -> NodeKind {
        self.kinds@[i]
    }

    pub open spec fn expr_of(self, i: int) -> Expr {
        self.exprs@[i]
    }

    /// The forward (strong) dependency edges of node `i`, in first-read order.
    pub open spec fn dep_seq(self, i: int) -> Seq<usize> {
        self.deps@[i]@
    }

    /// The backward (weak) observer edges of node `i`, in registration order.
    pub open spec fn obs_seq(self, i: int) -> Seq<usize> {
        self.observers@[i]@
    }

    /// All observer lists by contents, for stating that a pass leaves them as
    /// it found them.
    pub open spec fn obs_view(self) -> Seq<Seq<usize>> {
        Seq::new(self.observers@.len(), |i: int| self.observers@[i]@)
    }

    pub open spec fn sc_of(self, i: int) -> u64 {
        self.stale_counts@[i]
    }

    pub open spec fn dirty_of(self, i: int) -> bool {
        self.dirty_flags@[i]
    }

    pub open spec fn tc_of(self, i: int) -> u64 {
        self.times_computed@[i]
    }

    pub open spec fn mb_of(self, i: int) -> bool {
        self.mut_borrows@[i]
    }

    pub open spec fn is_observable(self, i: int) -> bool {
        0 <= i < self.n() && self.kind_of(i) == NodeKind::Observable
    }

    pub open spec fn is_derivation(self, i: int) -> bool {
        0 <= i < self.n() && self.kind_of(i) == NodeKind::Derivation
    }

    /// A slot that has not been retired.
    pub open spec fn live(self, i: int) -> bool {
        0 <= i < self.n() && self.kind_of(i) != NodeKind::Retired
    }

    /// All columns cover the same ids.
    pub open spec fn lens_ok(self) -> bool {
        &&& self.values@.len() == self.n()
        &&& self.exprs@.len() == self.n()
        &&& self.deps@.len() == self.n()
        &&& self.observers@.len() == self.n()
        &&& self.stale_counts@.len() == self.n()
        &&& self.dirty_flags@.len() == self.n()
        &&& self.times_computed@.len() == self.n()
        &&& self.mut_borrows@.len() == self.n()
    }

    /// An expression usable by node `d`: everything it could read was created
    /// before `d` and is still live.
    pub open spec fn expr_ok(self, e: Expr, d: int) -> bool {
        forall|i: usize| #[trigger] mentions(e).contains(i) ==> i < d && self.live(i as int)
    }

    /// The dependency list a derivation must carry: the de-duplicated read
    /// trace of its expression over the current values.
    pub open spec fn dep_target(self, d: int) -> Seq<usize> {
        note_all(Seq::empty(), reads_spec(self.vals(), self.expr_of(d)))
    }

    /// Structural health of node `d`: edges are ordered by id, unique, point
    /// at live nodes and are mirrored on the other side; expressions only
    /// mention older live nodes; retired slots are fully detached.
    pub open spec fn edges_wf_at(self, d: int) -> bool {
        &&& no_dup(self.dep_seq(d))
        &&& no_dup(self.obs_seq(d))
        &&& forall|j: int|
            0 <= j < self.dep_seq(d).len() ==> {
                let p = #[trigger] self.dep_seq(d)[j];
                p < d && self.live(p as int) && self.obs_seq(p as int).contains(d as usize)
            }
        &&& forall|j: int|
            0 <= j < self.obs_seq(d).len() ==> {
                let o = #[trigger] self.obs_seq(d)[j];
                d < o && self.is_derivation(o as int) && self.dep_seq(o as int).contains(
                    d as usize,
                )
            }
        &&& (self.kind_of(d) == NodeKind::Observable ==> self.dep_seq(d).len() == 0 && self.tc_of(
            d,
        ) == 0)
        &&& (self.kind_of(d) == NodeKind::Derivation ==> self.expr_ok(self.expr_of(d), d)
            && !self.mb_of(d))
        &&& (self.kind_of(d) == NodeKind::Retired ==> self.dep_seq(d).len() == 0 && self.obs_seq(
            d,
        ).len() == 0 && !self.mb_of(d))
    }

    pub open spec fn edges_wf(self) -> bool {
        &&& self.lens_ok()
        &&& 0 <= self.n() <= usize::MAX
        &&& forall|d: int| 0 <= d < self.n() ==> self.edges_wf_at(d)
    }

    /// Freshness of node `d`: a derivation caches exactly the value of its
    /// expression over the current values, and its dependency list is exactly
    /// what evaluating it today reads.
    pub open spec fn fresh_at(self, d: int) -> bool {
        self.kind_of(d) == NodeKind::Derivation ==> {
            &&& self.vals()[d] == eval_spec(self.vals(), self.expr_of(d))
            &&& self.dep_seq(d) == self.dep_target(d)
        }
    }

    /// Quiescence of node `d`: no pending stale notices, nothing latched.
    pub open spec fn quiet_at(self, d: int) -> bool {
        self.sc_of(d) == 0 && !self.dirty_of(d)
    }

    /// The resting-state invariant of the whole graph. It holds on entry and
    /// exit of every public operation: edges are healthy and mirrored, every
    /// derivation is fresh, all stale counters are zero, no capture frame is
    /// open, and the runtime was initialized before any derivation existed.
    pub open spec fn wf(self) -> bool {
        &&& self.edges_wf()
        &&& self.capture@.len() == 0
        &&& forall|d: int| 0 <= d < self.n() ==> self.fresh_at(d)
        &&& forall|d: int| 0 <= d < self.n() ==> self.quiet_at(d)
        &&& (exists|d: int| 0 <= d < self.n() && self.is_derivation(d)) ==> self.initialized
    }

    /// An empty graph, not yet initialized.
    pub fn new() -> (g: Graph)
        ensures
            g.wf(),
            g.n() == 0,
            !g.initialized,
    {
        Graph {
            kinds: Vec::new(),
            values: Vec::new(),
            exprs: Vec::new(),
            deps: Vec::new(),
            observers: Vec::new(),
            stale_counts: Vec::new(),
            dirty_flags: Vec::new(),
            times_computed: Vec::new(),
            mut_borrows: Vec::new(),
            capture: Vec::new(),
            initialized: false,
        }
    }

    /// Number of node slots created so far.
    pub fn len(&self) -> (r: usize)
        ensures
            r == self.n(),
    {
        self.kinds.len()
    }

    /// The stale phase of a write to `origin`: walks the graph upward in
    /// creation order; every node the wave has reached broadcasts one STALE
    /// notice to its observers, so each counter ends at the number of stale
    /// dependencies. Returns the wave membership, one flag per node.
    fn mark_stale(&mut self, origin: usize) -> (wave: Vec<bool>)
        requires
            old(self).edges_wf(),
            (origin as int) < old(self).n(),
            old(self).is_observable(origin as int),
            forall|d: int| 0 <= d < old(self).n() ==> old(self).quiet_at(d),
        ensures
            final(self).kinds == old(self).kinds,
            final(self).values == old(self).values,
            final(self).exprs == old(self).exprs,
            final(self).deps == old(self).deps,
            final(self).dirty_flags == old(self).dirty_flags,
            final(self).times_computed == old(self).times_computed,
            final(self).mut_borrows == old(self).mut_borrows,
            final(self).capture == old(self).capture,
            final(self).initialized == old(self).initialized,
            final(self).obs_view() == old(self).obs_view(),
            final(self).stale_counts@.len() == old(self).stale_counts@.len(),
            wave@.len() == old(self).n(),
            forall|d: int|
                0 <= d < old(self).n() ==> wave@[d] == in_wave(*old(self), origin as int, d),
            forall|d: int|
                0 <= d < old(self).n() ==> final(self).sc_of(d) == count_wave_le(
                    *old(self),
                    origin as int,
                    old(self).dep_seq(d),
                    old(self).n() - 1,
                ),
    {
        let ghost g0 = *old(self);
        let n = self.kinds.len();
        let mut wave: Vec<bool> = Vec::new();
        let mut i: usize = 0;
        while i < n
            invariant
                i <= n,
                wave@.len() == i,
                forall|j: int| 0 <= j < i ==> !(#[trigger] wave@[j]),
            decreases n - i,
        {
            wave.push(false);
            i += 1;
        }
        let mut u: usize = origin;
        proof {
            assert forall|d: int| 0 <= d < g0.n() implies g0.sc_of(d) == count_wave_le(
                g0,
                origin as int,
                g0.dep_seq(d),
                origin - 1,
            ) by {
                lemma_count_wave_zero(g0, origin as int, g0.dep_seq(d));
                assert(g0.quiet_at(d));
            }
            assert forall|d: int| 0 <= d < g0.n() implies wave@[d] == (in_wave(
                g0,
                origin as int,
                d,
            ) && d < origin) by {
                lemma_wave_ge(g0, origin as int, d);
            }
        }
        while u < n
            invariant
                g0 == *old(self),
                g0.edges_wf(),
                n == g0.n(),
                (origin as int) < g0.n(),
                g0.is_observable(origin as int),
                forall|d: int| 0 <= d < g0.n() ==> g0.quiet_at(d),
                origin <= u <= n,
                self.kinds == g0.kinds,
                self.values == g0.values,
                self.exprs == g0.exprs,
                self.deps == g0.deps,
                self.dirty_flags == g0.dirty_flags,
                self.times_computed == g0.times_computed,
                self.mut_borrows == g0.mut_borrows,
                self.capture == g0.capture,
                self.initialized == g0.initialized,
                self.obs_view() == g0.obs_view(),
                self.observers@.len() == n,
                self.stale_counts@.len() == n,
                wave@.len() == n,
                forall|d: int|
                    0 <= d < n ==> #[trigger] wave@[d] == (in_wave(g0, origin as int, d) && d
                        < u),
                forall|d: int|
                    0 <= d < n ==> self.sc_of(d) == count_wave_le(
                        g0,
                        origin as int,
                        g0.dep_seq(d),
                        u - 1,
                    ),
            decreases n - u,
        {
            let w = if u == origin {
                true
            } else {
                self.stale_counts[u] > 0
            };
            proof {
                assert(g0.edges_wf_at(u as int));
                if u != origin {
                    assert(self.sc_of(u as int) == count_wave_le(
                        g0,
                        origin as int,
                        g0.dep_seq(u as int),
                        u - 1,
                    ));
                    if w {
                        lemma_count_wave_pos(g0, origin as int, g0.dep_seq(u as int), u - 1);
                        let j = choose|j: int|
                            0 <= j < g0.dep_seq(u as int).len() && in_wave(
                                g0,
                                origin as int,
                                g0.dep_seq(u as int)[j] as int,
                            ) && g0.dep_seq(u as int)[j] <= u - 1;
                        assert(g0.dep_seq(u as int)[j] < u);
                        assert(g0.is_derivation(u as int)) by {
                            if g0.kind_of(u as int) != NodeKind::Derivation {
                                assert(g0.dep_seq(u as int).len() == 0);
                            }
                        }
                        assert(in_wave(g0, origin as int, u as int));
                    } else {
                        if in_wave(g0, origin as int, u as int) {
                            let j = choose|j: int|
                                0 <= j < g0.dep_seq(u as int).len() && g0.dep_seq(u as int)[j]
                                    < u && in_wave(
                                    g0,
                                    origin as int,
                                    g0.dep_seq(u as int)[j] as int,
                                );
                            lemma_wave_ge(g0, origin as int, g0.dep_seq(u as int)[j] as int);
                            assert(g0.dep_seq(u as int).contains(g0.dep_seq(u as int)[j]));
                            lemma_count_wave_window(
                                g0,
                                origin as int,
                                g0.dep_seq(u as int),
                                origin - 1,
                                u - 1,
                                g0.dep_seq(u as int)[j],
                            );
                            lemma_count_wave_zero(g0, origin as int, g0.dep_seq(u as int));
                            assert(false);
                        }
                    }
                }
                assert(w == in_wave(g0, origin as int, u as int));
            }
            let _oldbit = vec_replace(&mut wave, u, w);
            if w {
                proof {
                    assert forall|j: int| 0 <= j < g0.obs_seq(u as int).len() implies {
                        let ob = #[trigger] g0.obs_seq(u as int)[j];
                        ob < g0.n() && self.sc_of(ob as int) < u64::MAX
                    } by {
                        let ob = g0.obs_seq(u as int)[j];
                        assert(g0.is_derivation(ob as int));
                        assert(g0.dep_seq(ob as int).contains(u));
                        assert(g0.edges_wf_at(ob as int));
                        lemma_count_wave_window(
                            g0,
                            origin as int,
                            g0.dep_seq(ob as int),
                            u - 1,
                            g0.n() - 1,
                            u,
                        );
                        lemma_count_wave_bounds(
                            g0,
                            origin as int,
                            g0.dep_seq(ob as int),
                            g0.n() - 1,
                        );
                        lemma_count_wave_bounds(g0, origin as int, g0.dep_seq(ob as int), u - 1);
                        vstd::std_specs::vec::axiom_spec_len(&g0.deps@[ob as int]);
                        assert(g0.dep_seq(ob as int).len() <= usize::MAX);
                    }
                }
                let ghost spre = *self;
                let lst = vec_replace(&mut self.observers, u, ObserverList::new());
                let ghost smid = *self;
                proof {
                    assert(spre.obs_view()[u as int] == g0.obs_view()[u as int]);
                    assert(spre.obs_view()[u as int] == spre.observers@[u as int]@);
                    assert(g0.obs_view()[u as int] == g0.obs_seq(u as int));
                    assert(lst@ == g0.obs_seq(u as int));
                    assert(no_dup(lst@)) by {
                        assert(g0.edges_wf_at(u as int));
                    }
                }
                lst.broadcast_stale(self);
                let ghost safter = *self;
                let _discard = vec_replace(&mut self.observers, u, lst);
                proof {
                    assert(self.obs_view() =~= g0.obs_view()) by {
                        assert forall|q: int| 0 <= q < n implies self.obs_view()[q]
                            == g0.obs_view()[q] by {
                            if q != u as int {
                                assert(self.observers@[q] == spre.observers@[q]);
                            }
                        }
                    }
                    assert forall|d: int| 0 <= d < n implies self.sc_of(d) == count_wave_le(
                        g0,
                        origin as int,
                        g0.dep_seq(d),
                        u as int,
                    ) by {
                        assert(g0.edges_wf_at(d));
                        assert(g0.edges_wf_at(u as int));
                        assert(lst@.contains(d as usize) == g0.dep_seq(d).contains(u)) by {
                            if lst@.contains(d as usize) {
                                let j = choose|j: int|
                                    0 <= j < g0.obs_seq(u as int).len() && g0.obs_seq(
                                        u as int,
                                    )[j] == d as usize;
                                assert(g0.dep_seq(g0.obs_seq(u as int)[j] as int).contains(u));
                            }
                            if g0.dep_seq(d).contains(u) {
                                let j = choose|j: int|
                                    0 <= j < g0.dep_seq(d).len() && g0.dep_seq(d)[j] == u;
                                assert(g0.obs_seq(g0.dep_seq(d)[j] as int).contains(d as usize));
                            }
                        }
                        lemma_count_wave_step(g0, origin as int, g0.dep_seq(d), u - 1);
                        assert(spre.sc_of(d) == count_wave_le(
                            g0,
                            origin as int,
                            g0.dep_seq(d),
                            u - 1,
                        ));
                        let du = d as usize;
                        assert((du as int) == d);
                        assert(smid.stale_counts == spre.stale_counts);
                        assert(safter.sc_of(du as int) == smid.sc_of(du as int) + (
                        if lst@.contains(du) {
                            1int
                        } else {
                            0int
                        }));
                        assert(self.stale_counts == safter.stale_counts);
                    }
                }
            } else {
                proof {
                    assert forall|d: int| 0 <= d < n implies self.sc_of(d) == count_wave_le(
                        g0,
                        origin as int,
                        g0.dep_seq(d),
                        u as int,
                    ) by {
                        assert(g0.edges_wf_at(d));
                        lemma_count_wave_step(g0, origin as int, g0.dep_seq(d), u - 1);
                    }
                }
            }
            u += 1;
        }
        wave
    }

    /// Recomputes derivation `d`, which must have latched a change: runs its
    /// expression under a fresh capture frame, diffs the old dependency list
    /// against what was just read, unsubscribes from dependencies no longer
    /// read and subscribes to the new ones, stores the value, clears the
    /// dirty flag and counts the recompute. Returns whether the cached value
    /// changed by equality.
    pub fn update(&mut self, d: usize) -> (changed: bool)
        requires
            old(self).lens_ok(),
            old(self).n() <= usize::MAX,
            old(self).initialized,
            old(self).capture@.len() == 0,
            old(self).is_derivation(d as int),
            old(self).dirty_of(d as int),
            old(self).expr_ok(old(self).expr_of(d as int), d as int),
            no_dup(old(self).dep_seq(d as int)),
            forall|j: int|
                0 <= j < old(self).dep_seq(d as int).len() ==> (#[trigger] old(self).dep_seq(
                    d as int,
                )[j]) < d && old(self).obs_seq(
                    old(self).dep_seq(d as int)[j] as int,
                ).contains(d),
            forall|p: int| 0 <= p < old(self).n() ==> no_dup(#[trigger] old(self).obs_seq(p)),
            forall|p: int|
                0 <= p < old(self).n() && #[trigger] old(self).obs_seq(p).contains(d) ==> old(
                    self,
                ).dep_seq(d as int).contains(p as usize),
        ensures
            final(self).lens_ok(),
            final(self).n() == old(self).n(),
            final(self).kinds@ == old(self).kinds@,
            final(self).exprs@ == old(self).exprs@,
            final(self).stale_counts@ == old(self).stale_counts@,
            final(self).mut_borrows@ == old(self).mut_borrows@,
            final(self).capture@ == old(self).capture@,
            final(self).initialized == old(self).initialized,
            changed == (eval_spec(old(self).vals(), old(self).expr_of(d as int)) != old(
                self,
            ).vals()[d as int]),
            final(self).vals() == old(self).vals().update(
                d as int,
                eval_spec(old(self).vals(), old(self).expr_of(d as int)),
            ),
            final(self).dirty_flags@ == old(self).dirty_flags@.update(d as int, false),
            final(self).times_computed@ == old(self).times_computed@.update(
                d as int,
                if old(self).tc_of(d as int) < u64::MAX {
                    (old(self).tc_of(d as int) + 1) as u64
                } else {
                    old(self).tc_of(d as int)
                },
            ),
            final(self).dep_seq(d as int) == note_all(
                Seq::empty(),
                reads_spec(old(self).vals(), old(self).expr_of(d as int)),
            ),
            forall|q: int|
                0 <= q < old(self).n() && q != d ==> final(self).dep_seq(q) == old(self).dep_seq(
                    q,
                ),
            forall|p: int|
                0 <= p < old(self).n() ==> final(self).obs_seq(p) == ({
                    let oldd = old(self).dep_seq(d as int);
                    let newd = final(self).dep_seq(d as int);
                    if oldd.contains(p as usize) && !newd.contains(p as usize) {
                        old(self).obs_seq(p).remove(
                            crate::observer::first_index_of(old(self).obs_seq(p), d),
                        )
                    } else if !oldd.contains(p as usize) && newd.contains(p as usize) {
                        old(self).obs_seq(p).push(d)
                    } else {
                        old(self).obs_seq(p)
                    }
                }),
    {
        let ghost g0 = *old(self);
        crate::static_state::push_observing_stack(self);
        let ex = self.exprs[d].clone();
        proof {
            assert(ex == g0.expr_of(d as int));
            assert forall|i: usize| #[trigger] mentions(ex).contains(i) implies i < self.n() by {
                assert(i < d && g0.live(i as int));
            }
        }
        let v = self.eval(&ex);
        let nd = crate::static_state::pop_observing_stack(self);
        proof {
            assert(self.capture@ =~= g0.capture@);
            assert(nd@ == note_all(Seq::empty(), reads_spec(g0.vals(), ex)));
            crate::static_state::lemma_note_all_no_dup(Seq::empty(), reads_spec(g0.vals(), ex));
            crate::expr::lemma_reads_subset_mentions(g0.vals(), ex);
            assert forall|j: int| 0 <= j < nd@.len() implies (#[trigger] nd@[j]) < d by {
                assert(nd@.contains(nd@[j]));
                crate::static_state::lemma_note_all_contains(
                    Seq::empty(),
                    reads_spec(g0.vals(), ex),
                    nd@[j],
                );
                let tr = reads_spec(g0.vals(), ex);
                let k = choose|k: int| 0 <= k < tr.len() && tr[k] == nd@[j];
                assert(mentions(ex).contains(tr[k]));
            }
        }
        let ghost newd = nd@;
        let prev_deps = vec_replace(&mut self.deps, d, nd);
        let ghost gmid = *self;
        proof {
            assert(prev_deps@ == g0.dep_seq(d as int));
            assert(gmid.dep_seq(d as int) == newd);
            assert forall|q: int| 0 <= q < g0.n() && q != d implies gmid.dep_seq(q) == g0.dep_seq(
                q,
            ) by {
                assert(gmid.deps@[q] == g0.deps@[q]);
            }
        }
        let mut k: usize = 0;
        let dlen = prev_deps.len();
        while k < dlen
            invariant
                0 <= (d as int) < g0.n(),
                g0.n() <= usize::MAX,
                g0.lens_ok(),
                gmid.lens_ok(),
                gmid.n() == g0.n(),
                k <= dlen,
                dlen == prev_deps@.len(),
                prev_deps@ == g0.dep_seq(d as int),
                newd == gmid.dep_seq(d as int),
                no_dup(prev_deps@),
                no_dup(newd),
                forall|j: int| 0 <= j < prev_deps@.len() ==> (#[trigger] prev_deps@[j]) < d,
                forall|j: int| 0 <= j < newd.len() ==> (#[trigger] newd[j]) < d,
                forall|j: int|
                    0 <= j < prev_deps@.len() ==> g0.obs_seq(
                        (#[trigger] prev_deps@[j]) as int,
                    ).contains(d),
                forall|p: int| 0 <= p < g0.n() ==> no_dup(#[trigger] g0.obs_seq(p)),
                *self == (Graph { observers: self.observers, ..gmid }),
                self.observers@.len() == g0.n(),
                forall|p: int|
                    0 <= p < g0.n() ==> #[trigger] self.obs_seq(p) == if prev_deps@.take(
                        k as int,
                    ).contains(p as usize) && !newd.contains(p as usize) {
                        g0.obs_seq(p).remove(crate::observer::first_index_of(g0.obs_seq(p), d))
                    } else {
                        g0.obs_seq(p)
                    },
            decreases dlen - k,
        {
            let ghost sin = *self;
            let p = prev_deps[k];
            proof {
                assert(prev_deps@[k as int] == p);
                assert(!prev_deps@.take(k as int).contains(p)) by {
                    if prev_deps@.take(k as int).contains(p) {
                        let j = choose|j: int| 0 <= j < k && prev_deps@.take(k as int)[j] == p;
                        assert(prev_deps@[j] == p);
                    }
                }
                assert(sin.obs_seq(p as int) == g0.obs_seq(p as int));
            }
            let still = crate::static_state::vec_contains(&self.deps[d], p);
            if !still {
                let mut lst = vec_replace(&mut self.observers, p, ObserverList::new());
                lst.remove(d);
                let _discard = vec_replace(&mut self.observers, p, lst);
            }
            proof {
                assert(prev_deps@.take(k as int + 1) =~= prev_deps@.take(k as int).push(p));
                assert forall|q: int| 0 <= q < g0.n() implies #[trigger] self.obs_seq(q)
                    == if prev_deps@.take(k as int + 1).contains(q as usize) && !newd.contains(
                    q as usize,
                ) {
                    g0.obs_seq(q).remove(crate::observer::first_index_of(g0.obs_seq(q), d))
                } else {
                    g0.obs_seq(q)
                } by {
                    let tk = prev_deps@.take(k as int);
                    let tk1 = prev_deps@.take(k as int + 1);
                    assert(tk1.contains(q as usize) == (tk.contains(q as usize) || q
                        == p as int)) by {
                        if tk.contains(q as usize) {
                            let j = choose|j: int| 0 <= j < tk.len() && tk[j] == q as usize;
                            assert(tk1[j] == q as usize);
                        }
                        if q == p as int {
                            assert(tk1.last() == q as usize);
                        }
                        if tk1.contains(q as usize) {
                            let j = choose|j: int| 0 <= j < tk1.len() && tk1[j] == q as usize;
                            if j < tk.len() {
                                assert(tk[j] == q as usize);
                            }
                        }
                    }
                    if q == p as int && !newd.contains(p) {
                        assert(self.obs_seq(q) == sin.obs_seq(q).remove(
                            crate::observer::first_index_of(sin.obs_seq(q), d),
                        ));
                    } else if q == p as int {
                        assert(self.obs_seq(q) == sin.obs_seq(q));
                    } else {
                        assert(self.observers@[q] == sin.observers@[q]);
                        assert(self.obs_seq(q) == sin.obs_seq(q));
                    }
                }
            }
            k += 1;
        }
        proof {
            assert(prev_deps@.take(dlen as int) =~= prev_deps@);
        }
        let ghost grem = *self;
        let mut k2: usize = 0;
        let nlen = self.deps[d].len();
        while k2 < nlen
            invariant
                0 <= (d as int) < g0.n(),
                g0.n() <= usize::MAX,
                g0.lens_ok(),
                gmid.lens_ok(),
                gmid.n() == g0.n(),
                k2 <= nlen,
                nlen == newd.len(),
                prev_deps@ == g0.dep_seq(d as int),
                newd == gmid.dep_seq(d as int),
                no_dup(prev_deps@),
                no_dup(newd),
                forall|j: int| 0 <= j < newd.len() ==> (#[trigger] newd[j]) < d,
                forall|p: int| 0 <= p < g0.n() ==> no_dup(#[trigger] g0.obs_seq(p)),
                forall|p: int|
                    0 <= p < g0.n() && #[trigger] g0.obs_seq(p).contains(d) ==> prev_deps@.contains(
                        p as usize,
                    ),
                *self == (Graph { observers: self.observers, ..gmid }),
                self.observers@.len() == g0.n(),
                forall|p: int|
                    0 <= p < g0.n() ==> #[trigger] self.obs_seq(p) == if prev_deps@.contains(
                        p as usize,
                    ) && !newd.contains(p as usize) {
                        g0.obs_seq(p).remove(crate::observer::first_index_of(g0.obs_seq(p), d))
                    } else if !prev_deps@.contains(p as usize) && newd.take(k2 as int).contains(
                        p as usize,
                    ) {
                        g0.obs_seq(p).push(d)
                    } else {
                        g0.obs_seq(p)
                    },
            decreases nlen - k2,
        {
            let ghost sin = *self;
            let p = self.deps[d][k2];
            proof {
                assert(gmid.dep_seq(d as int)[k2 as int] == p);
                assert(newd[k2 as int] == p);
                assert(!newd.take(k2 as int).contains(p)) by {
                    if newd.take(k2 as int).contains(p) {
                        let j = choose|j: int| 0 <= j < k2 && newd.take(k2 as int)[j] == p;
                        assert(newd[j] == p);
                    }
                }
            }
            let wasold = crate::static_state::vec_contains(&prev_deps, p);
            if !wasold {
                proof {
                    assert(sin.obs_seq(p as int) == g0.obs_seq(p as int));
                    assert(!sin.obs_seq(p as int).contains(d)) by {
                        if g0.obs_seq(p as int).contains(d) {
                            assert(prev_deps@.contains(p));
                        }
                    }
                }
                let mut lst = vec_replace(&mut self.observers, p, ObserverList::new());
                lst.add(d);
                let _discard = vec_replace(&mut self.observers, p, lst);
            }
            proof {
                assert(newd.take(k2 as int + 1) =~= newd.take(k2 as int).push(p));
                assert forall|q: int| 0 <= q < g0.n() implies #[trigger] self.obs_seq(q)
                    == if prev_deps@.contains(q as usize) && !newd.contains(q as usize) {
                    g0.obs_seq(q).remove(crate::observer::first_index_of(g0.obs_seq(q), d))
                } else if !prev_deps@.contains(q as usize) && newd.take(k2 as int + 1).contains(
                    q as usize,
                ) {
                    g0.obs_seq(q).push(d)
                } else {
                    g0.obs_seq(q)
                } by {
                    let tk = newd.take(k2 as int);
                    let tk1 = newd.take(k2 as int + 1);
                    assert(tk1.contains(q as usize) == (tk.contains(q as usize) || q
                        == p as int)) by {
                        if tk.contains(q as usize) {
                            let j = choose|j: int| 0 <= j < tk.len() && tk[j] == q as usize;
                            assert(tk1[j] == q as usize);
                        }
                        if q == p as int {
                            assert(tk1.last() == q as usize);
                        }
                        if tk1.contains(q as usize) {
                            let j = choose|j: int| 0 <= j < tk1.len() && tk1[j] == q as usize;
                            if j < tk.len() {
                                assert(tk[j] == q as usize);
                            }
                        }
                    }
                    if q == p as int && !wasold {
                        assert(self.obs_seq(q) == sin.obs_seq(q).push(d));
                    } else if q == p as int {
                        assert(self.obs_seq(q) == sin.obs_seq(q));
                    } else {
                        assert(self.observers@[q] == sin.observers@[q]);
                        assert(self.obs_seq(q) == sin.obs_seq(q));
                    }
                }
            }
            k2 += 1;
        }
        let ghost gadd = *self;
        proof {
            assert(newd.take(nlen as int) == newd) by {
                assert(newd.take(nlen as int) =~= newd);
            }
            assert forall|p: int| 0 <= p < g0.n() implies #[trigger] gadd.obs_seq(p)
                == if prev_deps@.contains(p as usize) && !newd.contains(p as usize) {
                g0.obs_seq(p).remove(crate::observer::first_index_of(g0.obs_seq(p), d))
            } else if !prev_deps@.contains(p as usize) && newd.contains(p as usize) {
                g0.obs_seq(p).push(d)
            } else {
                g0.obs_seq(p)
            } by {
                assert(gadd.obs_seq(p) == if prev_deps@.contains(p as usize) && !newd.contains(
                    p as usize,
                ) {
                    g0.obs_seq(p).remove(crate::observer::first_index_of(g0.obs_seq(p), d))
                } else if !prev_deps@.contains(p as usize) && newd.take(nlen as int).contains(
                    p as usize,
                ) {
                    g0.obs_seq(p).push(d)
                } else {
                    g0.obs_seq(p)
                });
            }
        }
        let oldval = self.values[d];
        let changed = !v.eq_value(oldval);
        if changed {
            let _discard = vec_replace(&mut self.values, d, v);
        }
        let _discard2 = vec_replace(&mut self.dirty_flags, d, false);
        let t = self.times_computed[d];
        let t2 = if t < u64::MAX {
            t + 1
        } else {
            t
        };
        let _discard3 = vec_replace(&mut self.times_computed, d, t2);
        proof {
            assert(v == eval_spec(g0.vals(), g0.expr_of(d as int)));
            if changed {
                assert(self.vals() == g0.vals().update(d as int, v));
            } else {
                assert(v == oldval);
                assert(self.vals() =~= g0.vals().update(d as int, v));
            }
            assert(self.dirty_flags@ == g0.dirty_flags@.update(d as int, false));
            assert(self.times_computed@ == g0.times_computed@.update(d as int, t2));
            assert(self.dep_seq(d as int) == newd);
            assert(self.capture@ == g0.capture@);
            assert(self.observers@ == gadd.observers@);
            assert forall|p: int| 0 <= p < g0.n() implies #[trigger] self.obs_seq(p)
                == if prev_deps@.contains(p as usize) && !newd.contains(p as usize) {
                g0.obs_seq(p).remove(crate::observer::first_index_of(g0.obs_seq(p), d))
            } else if !prev_deps@.contains(p as usize) && newd.contains(p as usize) {
                g0.obs_seq(p).push(d)
            } else {
                g0.obs_seq(p)
            } by {
                assert(self.obs_seq(p) == gadd.obs_seq(p));
            }
        }
        changed
    }

    /// Settles wave member `u` during the READY phase: if its inputs latched
    /// a change it recomputes, otherwise it keeps its cached value; either
    /// way it then broadcasts READY, carrying whether its value changed, to
    /// its observers. The write origin itself broadcasts READY with
    /// `changed = true`.
    #[verifier::rlimit(100)]
    fn settle_node(&mut self, u: usize, origin: usize, Ghost(gp): Ghost<Graph>, Ghost(g0): Ghost<
        Graph,
    >)
        requires
            ready_static(gp, g0, origin as int),
            ready_mid(gp, g0, *old(self), origin as int, u as int),
            (u as int) < g0.n(),
            origin <= u,
            in_wave(g0, origin as int, u as int),
        ensures
            ready_mid(gp, g0, *final(self), origin as int, u as int + 1),
    {
        let ghost o = origin as int;
        let ghost n = g0.n();
        let ghost siter = *old(self);
        let ch: bool;
        if u == origin {
            ch = true;
        } else {
            proof {
                assert(in_wave(g0, o, u as int));
                assert(g0.is_derivation(u as int));
                assert(siter.is_derivation(u as int));
                assert(siter.sc_of(u as int) == count_wave_le(g0, o, g0.dep_seq(u as int), n - 1)
                    - count_wave_le(g0, o, g0.dep_seq(u as int), u - 1));
                assert(self.sc_of(u as int) == 0) by {
                    assert(g0.edges_wf_at(u as int));
                    assert forall|j: int| 0 <= j < g0.dep_seq(u as int).len() implies (
                    #[trigger] g0.dep_seq(u as int)[j]) <= u - 1 by {}
                    lemma_count_wave_stable(g0, o, g0.dep_seq(u as int), u - 1, n - 1);
                }
                assert(self.dirty_of(u as int) == dirty_target(g0, siter, o, u as int, u - 1));
            }
            let dirty = self.dirty_flags[u];
            proof {
                assert(self.edges_wf_at(u as int));
                assert(gp.is_derivation(u as int));
                assert(gp.initialized);
                assert(self.initialized) by {
                    assert(gp.capture == g0.capture);
                }
                assert(self.capture@.len() == 0) by {
                    assert(gp.wf());
                    assert(gp.capture@.len() == 0);
                }
                assert forall|p: int| 0 <= p < n implies no_dup(#[trigger] self.obs_seq(p)) && (
                self.obs_seq(p).contains(u) ==> self.dep_seq(u as int).contains(p as usize)) by {
                    assert(self.edges_wf_at(p));
                    if self.obs_seq(p).contains(u) {
                        let j = choose|j: int|
                            0 <= j < self.obs_seq(p).len() && self.obs_seq(p)[j] == u;
                        assert(self.dep_seq(self.obs_seq(p)[j] as int).contains(p as usize));
                    }
                }
            }
            if dirty {
                let ch2 = self.update(u);
                ch = ch2;
                proof {
                    let gpost = *self;
                    assert(siter.edges_wf_at(u as int));
                    crate::static_state::lemma_note_all_no_dup(
                        Seq::empty(),
                        reads_spec(siter.vals(), siter.expr_of(u as int)),
                    );
                    crate::expr::lemma_reads_subset_mentions(
                        siter.vals(),
                        siter.expr_of(u as int),
                    );
                    assert forall|j: int|
                        0 <= j < gpost.dep_seq(u as int).len() implies (#[trigger] gpost.dep_seq(
                        u as int,
                    )[j]) < u && siter.live(gpost.dep_seq(u as int)[j] as int) by {
                        let x = gpost.dep_seq(u as int)[j];
                        assert(gpost.dep_seq(u as int).contains(x));
                        crate::static_state::lemma_note_all_contains(
                            Seq::empty(),
                            reads_spec(siter.vals(), siter.expr_of(u as int)),
                            x,
                        );
                        let tr = reads_spec(siter.vals(), siter.expr_of(u as int));
                        let k = choose|k: int| 0 <= k < tr.len() && tr[k] == x;
                        assert(mentions(siter.expr_of(u as int)).contains(tr[k]));
                        assert(siter.expr_ok(siter.expr_of(u as int), u as int));
                    }
                    lemma_edges_wf_rewire(siter, gpost, u as int);
                    assert(siter.expr_ok(siter.expr_of(u as int), u as int));
                    assert forall|i: usize| #[trigger]
                        mentions(siter.expr_of(u as int)).contains(i) implies i < u as int by {}
                    crate::expr::lemma_eval_below(
                        siter.vals(),
                        gpost.vals(),
                        siter.expr_of(u as int),
                        u as int,
                    );
                    assert(gpost.vals()[u as int] == eval_spec(
                        gpost.vals(),
                        gpost.expr_of(u as int),
                    ));
                    assert(gpost.dep_seq(u as int) == note_all(
                        Seq::empty(),
                        reads_spec(gpost.vals(), gpost.expr_of(u as int)),
                    ));
                    assert(siter.vals()[u as int] == g0.vals()[u as int]);
                    assert(ch2 == changed_bit(g0, gpost, o, u as int));
                }
            } else {
                ch = false;
                proof {
                    let d = u as int;
                    assert(gp.fresh_at(d));
                    assert(gp.edges_wf_at(d));
                    let ex = gp.expr_of(d);
                    let tr = reads_spec(gp.vals(), ex);
                    assert(g0.dep_seq(d) == note_all(Seq::empty(), tr));
                    assert forall|k: int| 0 <= k < tr.len() implies agree_at(
                        gp.vals(),
                        self.vals(),
                        #[trigger] tr[k],
                    ) by {
                        let p = tr[k];
                        crate::static_state::lemma_note_all_contains(Seq::empty(), tr, p);
                        assert(g0.dep_seq(d).contains(p));
                        let jj = choose|jj: int|
                            0 <= jj < g0.dep_seq(d).len() && g0.dep_seq(d)[jj] == p;
                        assert(g0.dep_seq(d)[jj] == p);
                        assert(g0.edges_wf_at(d));
                        assert((p as int) < d && g0.live(p as int));
                        assert(p as int != o) by {
                            if p as int == o {
                                assert(in_wave(g0, o, p as int));
                                assert(changed_bit(g0, siter, o, p as int));
                                assert(dirty_target(g0, siter, o, d, u - 1));
                            }
                        }
                        assert(g0.vals()[p as int] == gp.vals()[p as int]);
                        if in_wave(g0, o, p as int) {
                            assert(!changed_bit(g0, siter, o, p as int)) by {
                                if changed_bit(g0, siter, o, p as int) {
                                    assert(dirty_target(g0, siter, o, d, u - 1));
                                }
                            }
                            assert(siter.vals()[p as int] == g0.vals()[p as int]);
                        } else {
                            assert(siter.vals()[p as int] == g0.vals()[p as int]);
                        }
                    }
                    crate::expr::lemma_eval_agree(gp.vals(), self.vals(), ex);
                    assert(self.vals()[d] == g0.vals()[d]);
                    assert(g0.vals()[d] == gp.vals()[d]);
                    assert(self.vals()[d] == eval_spec(self.vals(), self.expr_of(d)));
                    assert(self.dep_seq(d) == note_all(
                        Seq::empty(),
                        reads_spec(self.vals(), self.expr_of(d)),
                    ));
                    assert(!changed_bit(g0, *self, o, d));
                }
            }
        }
        let ghost supd = *self;
        proof {
            assert(supd.edges_wf_at(u as int));
            assert(supd.vals()[u as int] == supd.vals()[u as int]);
            assert(ch == changed_bit(g0, supd, o, u as int)) by {
                if u == origin {
                    assert(supd.vals()[o] == g0.vals()[o]);
                }
            }
            assert forall|j: int| 0 <= j < supd.obs_seq(u as int).len() implies {
                let ob = #[trigger] supd.obs_seq(u as int)[j];
                ob < n && supd.sc_of(ob as int) >= 1
            } by {
                let ob = supd.obs_seq(u as int)[j];
                assert(supd.is_derivation(ob as int));
                assert(supd.dep_seq(ob as int).contains(u));
                assert(u < ob);
                assert(siter.vals()[ob as int] == siter.vals()[ob as int]);
                assert(supd.dep_seq(ob as int) == siter.dep_seq(ob as int));
                assert(siter.dep_seq(ob as int) == g0.dep_seq(ob as int)) by {
                    if in_wave(g0, o, ob as int) {
                        assert(siter.dep_seq(ob as int) == g0.dep_seq(ob as int));
                    } else {
                        assert(siter.dep_seq(ob as int) == g0.dep_seq(ob as int));
                    }
                }
                assert(in_wave(g0, o, ob as int)) by {
                    let jj = choose|jj: int|
                        0 <= jj < g0.dep_seq(ob as int).len() && g0.dep_seq(ob as int)[jj] == u;
                    assert(g0.edges_wf_at(ob as int));
                    assert(g0.dep_seq(ob as int)[jj] < ob && in_wave(
                        g0,
                        o,
                        g0.dep_seq(ob as int)[jj] as int,
                    ));
                    assert(g0.is_derivation(ob as int));
                }
                assert(supd.sc_of(ob as int) == count_wave_le(g0, o, g0.dep_seq(ob as int), n - 1)
                    - count_wave_le(g0, o, g0.dep_seq(ob as int), u - 1)) by {
                    assert(siter.sc_of(ob as int) == supd.sc_of(ob as int));
                }
                assert(g0.edges_wf_at(ob as int));
                lemma_count_wave_window(g0, o, g0.dep_seq(ob as int), u - 1, n - 1, u);
            }
        }
        let lst = vec_replace(&mut self.observers, u, ObserverList::new());
        let ghost smid = *self;
        proof {
            assert(no_dup(lst@)) by {
                assert(supd.edges_wf_at(u as int));
            }
        }
        lst.broadcast_ready(self, ch);
        let ghost safter = *self;
        let _discard = vec_replace(&mut self.observers, u, lst);
        proof {
            let sfin = *self;
            assert(sfin.obs_view() =~= supd.obs_view()) by {
                assert forall|q: int| 0 <= q < n implies sfin.obs_view()[q]
                    == supd.obs_view()[q] by {
                    if q != u as int {
                        assert(sfin.observers@[q] == smid.observers@[q]);
                    }
                }
            }
            assert forall|q: int| 0 <= q < n implies #[trigger] sfin.obs_seq(q) == supd.obs_seq(
                q,
            ) by {
                assert(sfin.obs_view()[q] == supd.obs_view()[q]);
            }
            assert(sfin.edges_wf()) by {
                assert forall|q: int| 0 <= q < n implies sfin.edges_wf_at(q) by {
                    assert(supd.edges_wf_at(q));
                    assert(sfin.obs_seq(q) == supd.obs_seq(q));
                    assert forall|j: int| 0 <= j < sfin.dep_seq(q).len() implies {
                        let p = #[trigger] sfin.dep_seq(q)[j];
                        p < q && sfin.live(p as int) && sfin.obs_seq(p as int).contains(
                            q as usize,
                        )
                    } by {
                        let p = sfin.dep_seq(q)[j];
                        assert(supd.dep_seq(q)[j] == p);
                        assert(sfin.obs_seq(p as int) == supd.obs_seq(p as int));
                    }
                    assert forall|j: int| 0 <= j < sfin.obs_seq(q).len() implies {
                        let ob = #[trigger] sfin.obs_seq(q)[j];
                        q < ob && sfin.is_derivation(ob as int) && sfin.dep_seq(
                            ob as int,
                        ).contains(q as usize)
                    } by {
                        let ob = sfin.obs_seq(q)[j];
                        assert(supd.obs_seq(q)[j] == ob);
                    }
                    assert forall|i: usize|
                        sfin.kind_of(q) == NodeKind::Derivation && #[trigger] mentions(
                            sfin.expr_of(q),
                        ).contains(i) implies i < q && sfin.live(i as int) by {
                        assert(supd.expr_ok(supd.expr_of(q), q));
                        assert(mentions(supd.expr_of(q)).contains(i));
                    }
                }
            }
            // which nodes the READY broadcast reached
            assert forall|d: int| 0 <= d < n implies #[trigger] lst@.contains(d as usize)
                == supd.dep_seq(d).contains(u) by {
                if lst@.contains(d as usize) {
                    let j = choose|j: int|
                        0 <= j < supd.obs_seq(u as int).len() && supd.obs_seq(u as int)[j]
                            == d as usize;
                    assert(supd.edges_wf_at(u as int));
                    assert(supd.dep_seq(supd.obs_seq(u as int)[j] as int).contains(u));
                }
                if supd.dep_seq(d).contains(u) {
                    assert(supd.edges_wf_at(d));
                    let j = choose|j: int|
                        0 <= j < supd.dep_seq(d).len() && supd.dep_seq(d)[j] == u;
                    assert(supd.obs_seq(supd.dep_seq(d)[j] as int).contains(d as usize));
                }
            }
            // untouched nodes stay untouched
            assert forall|d: int|
                #![trigger sfin.vals()[d]]
                #![trigger sfin.dep_seq(d)]
                #![trigger sfin.sc_of(d)]
                0 <= d < n && !in_wave(g0, o, d) implies sfin.vals()[d] == g0.vals()[d]
                && sfin.dep_seq(d) == g0.dep_seq(d) && sfin.tc_of(d) == g0.tc_of(d)
                && sfin.sc_of(d) == 0 && !sfin.dirty_of(d) by {
                assert(siter.sc_of(d) == 0);
                assert(siter.vals()[d] == g0.vals()[d] && siter.dep_seq(d) == g0.dep_seq(d)
                    && siter.tc_of(d) == g0.tc_of(d) && !siter.dirty_of(d));
                assert(d != u as int);
                assert(supd.vals()[d] == siter.vals()[d]);
                assert(supd.dep_seq(d) == siter.dep_seq(d));
                assert(supd.tc_of(d) == siter.tc_of(d));
                assert(!lst@.contains(d as usize)) by {
                    if lst@.contains(d as usize) {
                        assert(supd.dep_seq(d).contains(u));
                        assert(g0.edges_wf_at(d));
                        assert(g0.is_derivation(d)) by {
                            if g0.kind_of(d) != NodeKind::Derivation {
                                assert(g0.dep_seq(d).len() == 0);
                            }
                        }
                        let j = choose|j: int|
                            0 <= j < g0.dep_seq(d).len() && g0.dep_seq(d)[j] == u;
                        assert(g0.dep_seq(d)[j] < d && in_wave(g0, o, g0.dep_seq(d)[j] as int));
                        assert(in_wave(g0, o, d));
                    }
                }
                let du = d as usize;
                assert((du as int) == d);
                assert(safter.sc_of(du as int) == smid.sc_of(du as int));
                assert(safter.dirty_of(du as int) == smid.dirty_of(du as int));
            }
            // settled members, the new one included, are quiet
            assert forall|d: int|
                #![trigger sfin.sc_of(d)]
                #![trigger sfin.tc_of(d)]
                0 <= d < n && in_wave(g0, o, d) && d < u as int + 1 implies sfin.sc_of(d) == 0
                && !sfin.dirty_of(d) && g0.tc_of(d) <= sfin.tc_of(d) <= g0.tc_of(d) + 1 by {
                assert(!lst@.contains(d as usize)) by {
                    if lst@.contains(d as usize) {
                        let j = choose|j: int|
                            0 <= j < supd.obs_seq(u as int).len() && supd.obs_seq(u as int)[j]
                                == d as usize;
                        assert(supd.edges_wf_at(u as int));
                        assert((u as int) < supd.obs_seq(u as int)[j]);
                    }
                }
                let du = d as usize;
                assert((du as int) == d);
                assert(safter.sc_of(du as int) == smid.sc_of(du as int));
                assert(safter.dirty_of(du as int) == smid.dirty_of(du as int));
                if d < u as int {
                    assert(siter.sc_of(d) == 0 && !siter.dirty_of(d));
                    assert(g0.tc_of(d) <= siter.tc_of(d) <= g0.tc_of(d) + 1);
                    assert(supd.sc_of(d) == siter.sc_of(d));
                    assert(supd.tc_of(d) == siter.tc_of(d));
                } else {
                    assert(d == u as int);
                    if u == origin {
                        assert(g0.edges_wf_at(o));
                        assert(g0.dep_seq(o).len() == 0);
                        assert(siter.sc_of(o) == count_wave_le(g0, o, g0.dep_seq(o), n - 1)
                            - count_wave_le(g0, o, g0.dep_seq(o), u - 1));
                        assert(!siter.dirty_of(o)) by {
                            if siter.dirty_of(o) {
                                assert(dirty_target(g0, siter, o, o, u - 1));
                                let j = choose|j: int|
                                    0 <= j < g0.dep_seq(o).len() && in_wave(
                                        g0,
                                        o,
                                        #[trigger] g0.dep_seq(o)[j] as int,
                                    ) && g0.dep_seq(o)[j] <= u - 1 && changed_bit(
                                        g0,
                                        siter,
                                        o,
                                        g0.dep_seq(o)[j] as int,
                                    );
                                assert(false);
                            }
                        }
                        assert(supd.sc_of(d) == siter.sc_of(d));
                        assert(supd.tc_of(d) == siter.tc_of(d));
                        assert(siter.tc_of(o) == g0.tc_of(o));
                    } else {
                        assert(supd.sc_of(u as int) == 0);
                        assert(!supd.dirty_of(u as int));
                        assert(siter.tc_of(u as int) == g0.tc_of(u as int));
                        assert(g0.tc_of(d) <= supd.tc_of(d) <= g0.tc_of(d) + 1);
                    }
                }
            }
            // settled members are fresh
            assert forall|d: int|
                #![trigger sfin.vals()[d]]
                #![trigger sfin.dep_seq(d)]
                0 <= d < n && in_wave(g0, o, d) && d < u as int + 1 && d != o implies
                sfin.vals()[d] == eval_spec(sfin.vals(), sfin.expr_of(d)) && sfin.dep_seq(d)
                == note_all(Seq::empty(), reads_spec(sfin.vals(), sfin.expr_of(d))) by {
                assert(sfin.vals() == supd.vals());
                assert(sfin.dep_seq(d) == supd.dep_seq(d));
                assert(sfin.expr_of(d) == supd.expr_of(d));
                if d < u as int {
                    assert(siter.vals()[d] == eval_spec(siter.vals(), siter.expr_of(d))
                        && siter.dep_seq(d) == note_all(
                        Seq::empty(),
                        reads_spec(siter.vals(), siter.expr_of(d)),
                    ));
                    assert(siter.edges_wf_at(d));
                    assert(siter.expr_ok(siter.expr_of(d), d));
                    crate::expr::lemma_eval_below(
                        siter.vals(),
                        supd.vals(),
                        siter.expr_of(d),
                        d,
                    );
                    assert(supd.vals()[d] == siter.vals()[d]);
                    assert(supd.dep_seq(d) == siter.dep_seq(d));
                } else {
                    assert(d == u as int);
                    assert(supd.vals()[d] == eval_spec(supd.vals(), supd.expr_of(d)));
                    assert(supd.dep_seq(d) == note_all(
                        Seq::empty(),
                        reads_spec(supd.vals(), supd.expr_of(d)),
                    ));
                }
            }
            // the origin's own state is untouched
            assert(sfin.vals()[o] == g0.vals()[o] && sfin.dep_seq(o) == g0.dep_seq(o)
                && sfin.tc_of(o) == g0.tc_of(o)) by {
                assert(siter.vals()[o] == g0.vals()[o] && siter.dep_seq(o) == g0.dep_seq(o)
                    && siter.tc_of(o) == g0.tc_of(o));
                if u as int != o {
                    assert(supd.vals()[o] == siter.vals()[o]);
                    assert(supd.dep_seq(o) == siter.dep_seq(o));
                    assert(supd.tc_of(o) == siter.tc_of(o));
                }
            }
            // pending members keep their pre-cascade state
            assert forall|d: int|
                #![trigger sfin.vals()[d]]
                #![trigger sfin.dep_seq(d)]
                #![trigger sfin.tc_of(d)]
                0 <= d < n && in_wave(g0, o, d) && u as int + 1 <= d implies sfin.vals()[d]
                == g0.vals()[d] && sfin.dep_seq(d) == g0.dep_seq(d) && sfin.tc_of(d) == g0.tc_of(
                d,
            ) by {
                assert(siter.vals()[d] == g0.vals()[d] && siter.dep_seq(d) == g0.dep_seq(d)
                    && siter.tc_of(d) == g0.tc_of(d));
                assert(d != u as int);
                assert(supd.vals()[d] == siter.vals()[d]);
                assert(supd.dep_seq(d) == siter.dep_seq(d));
                assert(supd.tc_of(d) == siter.tc_of(d));
            }
            // pending counters and dirty flags advance by exactly this settle
            assert forall|d: int|
                #![trigger sfin.sc_of(d)]
                #![trigger sfin.dirty_of(d)]
                0 <= d < n && in_wave(g0, o, d) && u as int + 1 <= d implies sfin.sc_of(d)
                == count_wave_le(g0, o, g0.dep_seq(d), n - 1) - count_wave_le(
                g0,
                o,
                g0.dep_seq(d),
                u as int,
            ) && sfin.dirty_of(d) == dirty_target(g0, sfin, o, d, u as int) by {
                assert(g0.edges_wf_at(d));
                assert(siter.vals()[d] == g0.vals()[d]);
                assert(siter.dep_seq(d) == g0.dep_seq(d));
                assert(supd.dep_seq(d) == siter.dep_seq(d));
                lemma_count_wave_step(g0, o, g0.dep_seq(d), u - 1);
                let du = d as usize;
                assert((du as int) == d);
                assert(safter.sc_of(du as int) == smid.sc_of(du as int) - (if lst@.contains(du) {
                    1int
                } else {
                    0int
                }));
                assert(safter.dirty_of(du as int) == (smid.dirty_of(du as int) || (lst@.contains(
                    du,
                ) && ch)));
                assert(smid.sc_of(d) == supd.sc_of(d));
                assert(smid.dirty_of(d) == supd.dirty_of(d));
                assert(supd.sc_of(d) == siter.sc_of(d));
                assert(supd.dirty_of(d) == siter.dirty_of(d));
                assert(siter.sc_of(d) == count_wave_le(g0, o, g0.dep_seq(d), n - 1)
                    - count_wave_le(g0, o, g0.dep_seq(d), u - 1));
                assert(siter.dirty_of(d) == dirty_target(g0, siter, o, d, u - 1));
                // the dirty target accumulates exactly the new settled member
                assert(dirty_target(g0, sfin, o, d, u as int) == (dirty_target(
                    g0,
                    sfin,
                    o,
                    d,
                    u - 1,
                ) || (g0.dep_seq(d).contains(u) && changed_bit(g0, sfin, o, u as int)))) by {
                    if dirty_target(g0, sfin, o, d, u as int) {
                        let j = choose|j: int|
                            0 <= j < g0.dep_seq(d).len() && in_wave(
                                g0,
                                o,
                                #[trigger] g0.dep_seq(d)[j] as int,
                            ) && g0.dep_seq(d)[j] <= u as int && changed_bit(
                                g0,
                                sfin,
                                o,
                                g0.dep_seq(d)[j] as int,
                            );
                        if g0.dep_seq(d)[j] < u {
                            assert(dirty_target(g0, sfin, o, d, u - 1));
                        } else {
                            assert(g0.dep_seq(d)[j] == u);
                            assert(g0.dep_seq(d).contains(u));
                        }
                    }
                    if dirty_target(g0, sfin, o, d, u - 1) {
                        let j = choose|j: int|
                            0 <= j < g0.dep_seq(d).len() && in_wave(
                                g0,
                                o,
                                #[trigger] g0.dep_seq(d)[j] as int,
                            ) && g0.dep_seq(d)[j] <= u - 1 && changed_bit(
                                g0,
                                sfin,
                                o,
                                g0.dep_seq(d)[j] as int,
                            );
                        assert(dirty_target(g0, sfin, o, d, u as int));
                    }
                    if g0.dep_seq(d).contains(u) && changed_bit(g0, sfin, o, u as int) {
                        let j = choose|j: int|
                            0 <= j < g0.dep_seq(d).len() && g0.dep_seq(d)[j] == u;
                        assert(in_wave(g0, o, g0.dep_seq(d)[j] as int) && g0.dep_seq(d)[j]
                            <= u as int && changed_bit(g0, sfin, o, g0.dep_seq(d)[j] as int));
                        assert(dirty_target(g0, sfin, o, d, u as int));
                    }
                }
                // values below u did not move in this settle, so the old
                // dirty target reads the same under the new values
                assert(dirty_target(g0, siter, o, d, u - 1) == dirty_target(
                    g0,
                    sfin,
                    o,
                    d,
                    u - 1,
                )) by {
                    assert forall|p: int| 0 <= p < n && p <= u - 1 implies changed_bit(
                        g0,
                        siter,
                        o,
                        p,
                    ) == changed_bit(g0, sfin, o, p) by {
                        assert(sfin.vals()[p] == supd.vals()[p]);
                        assert(supd.vals()[p] == siter.vals()[p]);
                    }
                    if dirty_target(g0, siter, o, d, u - 1) {
                        let j = choose|j: int|
                            0 <= j < g0.dep_seq(d).len() && in_wave(
                                g0,
                                o,
                                #[trigger] g0.dep_seq(d)[j] as int,
                            ) && g0.dep_seq(d)[j] <= u - 1 && changed_bit(
                                g0,
                                siter,
                                o,
                                g0.dep_seq(d)[j] as int,
                            );
                        assert(changed_bit(g0, sfin, o, g0.dep_seq(d)[j] as int));
                        assert(dirty_target(g0, sfin, o, d, u - 1));
                    }
                    if dirty_target(g0, sfin, o, d, u - 1) {
                        let j = choose|j: int|
                            0 <= j < g0.dep_seq(d).len() && in_wave(
                                g0,
                                o,
                                #[trigger] g0.dep_seq(d)[j] as int,
                            ) && g0.dep_seq(d)[j] <= u - 1 && changed_bit(
                                g0,
                                sfin,
                                o,
                                g0.dep_seq(d)[j] as int,
                            );
                        assert(changed_bit(g0, siter, o, g0.dep_seq(d)[j] as int));
                        assert(dirty_target(g0, siter, o, d, u - 1));
                    }
                }
                assert(changed_bit(g0, sfin, o, u as int) == ch) by {
                    assert(sfin.vals()[u as int] == supd.vals()[u as int]);
                }
            }
            // unchanged columns
            assert(sfin.kinds@ == g0.kinds@);
            assert(sfin.exprs@ == g0.exprs@);
            assert(sfin.mut_borrows@ == g0.mut_borrows@);
            assert(sfin.capture@ == g0.capture@);
            assert(sfin.initialized == g0.initialized);
            assert(sfin.n() == n);
            assert(sfin.vals()[o] == g0.vals()[o]);
            assert(sfin.dep_seq(o) == g0.dep_seq(o));
            assert(sfin.tc_of(o) == g0.tc_of(o));
            assert(o <= u as int + 1 <= n);
            assert(ready_mid(gp, g0, sfin, o, u as int + 1));
        }
    }

    /// The two-phase propagation of a modification of the observable
    /// `origin`: broadcast STALE through the observer edges, then deliver
    /// READY notices in creation order — which respects dependency order, so
    /// a derivation settles only after all of its stale inputs have settled.
    /// A derivation whose dirty flag latched a change recomputes, exactly
    /// once; one whose inputs all reported "unchanged" forwards READY with
    /// `changed = false` and keeps its cached value. `gp` is the graph as it
    /// stood before the write, which must have been well-formed.
    pub fn after_modified(&mut self, origin: usize, Ghost(gp): Ghost<Graph>)
        requires
            gp.wf(),
            gp.is_observable(origin as int),
            old(self).kinds == gp.kinds,
            old(self).exprs == gp.exprs,
            old(self).deps == gp.deps,
            old(self).observers == gp.observers,
            old(self).stale_counts == gp.stale_counts,
            old(self).dirty_flags == gp.dirty_flags,
            old(self).times_computed == gp.times_computed,
            old(self).mut_borrows == gp.mut_borrows,
            old(self).capture == gp.capture,
            old(self).initialized == gp.initialized,
            old(self).values@ == gp.values@.update(origin as int, old(self).vals()[origin as int]),
        ensures
            final(self).wf(),
            final(self).n() == old(self).n(),
            final(self).kinds@ == old(self).kinds@,
            final(self).exprs@ == old(self).exprs@,
            final(self).mut_borrows@ == old(self).mut_borrows@,
            final(self).capture@ == old(self).capture@,
            final(self).initialized == old(self).initialized,
            final(self).vals()[origin as int] == old(self).vals()[origin as int],
            forall|i: int|
                0 <= i < old(self).n() && i != origin as int && old(self).is_observable(i)
                    ==> final(self).vals()[i] == old(self).vals()[i],
            forall|d: int|
                0 <= d < old(self).n() ==> old(self).tc_of(d) <= (#[trigger] final(self).tc_of(
                    d,
                )) <= old(self).tc_of(d) + 1,
            forall|d: int|
                #![trigger final(self).vals()[d]]
                #![trigger final(self).dep_seq(d)]
                #![trigger final(self).tc_of(d)]
                0 <= d < old(self).n() && !in_wave(*old(self), origin as int, d)
                    ==> final(self).vals()[d] == old(self).vals()[d] && final(self).dep_seq(d)
                    == old(self).dep_seq(d) && final(self).tc_of(d) == old(self).tc_of(d),
    {
        let ghost g0 = *old(self);
        let ghost o = origin as int;
        proof {
            assert(g0.edges_wf()) by {
                assert forall|d: int| 0 <= d < g0.n() implies g0.edges_wf_at(d) by {
                    assert(gp.edges_wf_at(d));
                }
            }
            assert forall|d: int| 0 <= d < g0.n() implies g0.quiet_at(d) by {
                assert(gp.quiet_at(d));
            }
            assert(ready_static(gp, g0, o));
        }
        let wave = self.mark_stale(origin);
        let n = self.kinds.len();
        proof {
            let gs = *self;
            assert(gs.vals() == g0.vals());
            assert(gs.obs_view().len() == g0.obs_view().len());
            assert(gs.observers@.len() == n);
            assert(gs.edges_wf()) by {
                assert forall|d: int| 0 <= d < n implies gs.edges_wf_at(d) by {
                    assert(g0.edges_wf_at(d));
                    assert(gs.obs_view()[d] == g0.obs_view()[d]);
                    assert(gs.obs_seq(d) == g0.obs_seq(d));
                    assert forall|j: int| 0 <= j < gs.dep_seq(d).len() implies {
                        let p = #[trigger] gs.dep_seq(d)[j];
                        p < d && gs.live(p as int) && gs.obs_seq(p as int).contains(d as usize)
                    } by {
                        let p = gs.dep_seq(d)[j];
                        assert(g0.dep_seq(d)[j] == p);
                        assert(gs.obs_view()[p as int] == g0.obs_view()[p as int]);
                        assert(gs.obs_seq(p as int) == g0.obs_seq(p as int));
                    }
                    assert forall|j: int| 0 <= j < gs.obs_seq(d).len() implies {
                        let ob = #[trigger] gs.obs_seq(d)[j];
                        d < ob && gs.is_derivation(ob as int) && gs.dep_seq(ob as int).contains(
                            d as usize,
                        )
                    } by {
                        let ob = gs.obs_seq(d)[j];
                        assert(g0.obs_seq(d)[j] == ob);
                    }
                }
            }
            assert forall|d: int|
                #![trigger gs.vals()[d]]
                #![trigger gs.dep_seq(d)]
                #![trigger gs.sc_of(d)]
                0 <= d < n && !in_wave(g0, o, d) implies gs.vals()[d] == g0.vals()[d]
                && gs.dep_seq(d) == g0.dep_seq(d) && gs.tc_of(d) == g0.tc_of(d) && gs.sc_of(d)
                == 0 && !gs.dirty_of(d) by {
                assert(g0.quiet_at(d));
                lemma_count_wave_bounds(g0, o, g0.dep_seq(d), n - 1);
                if gs.sc_of(d) != 0 {
                    lemma_count_wave_pos(g0, o, g0.dep_seq(d), n - 1);
                    let j = choose|j: int|
                        0 <= j < g0.dep_seq(d).len() && in_wave(
                            g0,
                            o,
                            #[trigger] g0.dep_seq(d)[j] as int,
                        ) && g0.dep_seq(d)[j] <= n - 1;
                    assert(g0.edges_wf_at(d));
                    assert(g0.dep_seq(d)[j] < d);
                    assert(g0.is_derivation(d)) by {
                        if g0.kind_of(d) != NodeKind::Derivation {
                            assert(g0.dep_seq(d).len() == 0);
                        }
                    }
                    lemma_wave_ge(g0, o, g0.dep_seq(d)[j] as int);
                    assert(in_wave(g0, o, d));
                }
            }
            assert forall|d: int|
                0 <= d < n && in_wave(g0, o, d) && d < o implies false by {
                lemma_wave_ge(g0, o, d);
            }
            assert forall|d: int|
                #![trigger gs.sc_of(d)]
                0 <= d < n && in_wave(g0, o, d) && o <= d implies gs.sc_of(d) == count_wave_le(
                g0,
                o,
                g0.dep_seq(d),
                n - 1,
            ) - count_wave_le(g0, o, g0.dep_seq(d), o - 1) by {
                lemma_count_wave_zero(g0, o, g0.dep_seq(d));
            }
            assert forall|d: int|
                #![trigger gs.dirty_of(d)]
                0 <= d < n && in_wave(g0, o, d) && o <= d implies gs.dirty_of(d) == dirty_target(
                g0,
                gs,
                o,
                d,
                o - 1,
            ) by {
                assert(g0.quiet_at(d));
                assert(!gs.dirty_of(d));
                if dirty_target(g0, gs, o, d, o - 1) {
                    let j = choose|j: int|
                        0 <= j < g0.dep_seq(d).len() && in_wave(
                            g0,
                            o,
                            #[trigger] g0.dep_seq(d)[j] as int,
                        ) && g0.dep_seq(d)[j] <= o - 1 && changed_bit(
                            g0,
                            gs,
                            o,
                            g0.dep_seq(d)[j] as int,
                        );
                    lemma_wave_ge(g0, o, g0.dep_seq(d)[j] as int);
                }
            }
            assert(ready_mid(gp, g0, gs, o, o));
        }
        let mut u: usize = origin;
        while u < n
            invariant
                ready_static(gp, g0, o),
                ready_mid(gp, g0, *self, o, u as int),
                o == origin as int,
                n == g0.n(),
                origin <= u <= n,
                wave@.len() == n,
                forall|d: int| 0 <= d < n ==> #[trigger] wave@[d] == in_wave(g0, o, d),
            decreases n - u,
        {
            let w = wave[u];
            proof {
                assert(wave@[u as int] == in_wave(g0, o, u as int));
            }
            if w {
                self.settle_node(u, origin, Ghost(gp), Ghost(g0));
            } else {
                proof {
                    lemma_ready_skip(gp, g0, *self, o, u as int);
                }
            }
            u += 1;
        }
        proof {
            lemma_ready_done(gp, g0, *self, o);
            assert forall|d: int|
                #![trigger final(self).vals()[d]]
                #![trigger final(self).dep_seq(d)]
                #![trigger final(self).tc_of(d)]
                0 <= d < n && !in_wave(g0, o, d) implies final(self).vals()[d] == g0.vals()[d]
                && final(self).dep_seq(d) == g0.dep_seq(d) && final(self).tc_of(d) == g0.tc_of(
                d,
            ) by {
                assert(self.sc_of(d) == 0);
                assert(self.vals()[d] == g0.vals()[d]);
            }
        }
    }

    /// Writes `v` into the observable `origin` and propagates: observers are
    /// sent STALE and then READY with `changed = true`, whether or not the
    /// new value equals the old one, and every derivation that transitively
    /// read `origin` settles before the call returns.
    pub fn set_value(&mut self, origin: usize, v: Value)
        requires
            old(self).wf(),
            old(self).is_observable(origin as int),
            !old(self).mb_of(origin as int),
        ensures
            final(self).wf(),
            final(self).n() == old(self).n(),
            final(self).kinds@ == old(self).kinds@,
            final(self).exprs@ == old(self).exprs@,
            final(self).mut_borrows@ == old(self).mut_borrows@,
            final(self).capture@ == old(self).capture@,
            final(self).initialized == old(self).initialized,
            final(self).vals()[origin as int] == v,
            forall|i: int|
                0 <= i < old(self).n() && i != origin as int && old(self).is_observable(i)
                    ==> final(self).vals()[i] == old(self).vals()[i],
            forall|d: int|
                0 <= d < old(self).n() ==> old(self).tc_of(d) <= (#[trigger] final(self).tc_of(
                    d,
                )) <= old(self).tc_of(d) + 1,
            forall|d: int|
                #![trigger final(self).vals()[d]]
                #![trigger final(self).dep_seq(d)]
                #![trigger final(self).tc_of(d)]
                0 <= d < old(self).n() && !in_wave(*old(self), origin as int, d)
                    ==> final(self).vals()[d] == old(self).vals()[d] && final(self).dep_seq(d)
                    == old(self).dep_seq(d) && final(self).tc_of(d) == old(self).tc_of(d),
    {
        let ghost gp = *old(self);
        let _prev = vec_replace(&mut self.values, origin, v);
        let ghost g0 = *self;
        proof {
            assert(g0.values@ == gp.values@.update(origin as int, v));
            assert(g0.vals()[origin as int] == v);
        }
        self.after_modified(origin, Ghost(gp));
        proof {
            assert forall|d: int| 0 <= d < gp.n() implies in_wave(g0, origin as int, d)
                == in_wave(gp, origin as int, d) by {
                lemma_in_wave_agree(g0, gp, origin as int, d);
            }
            assert forall|d: int|
                #![trigger final(self).vals()[d]]
                #![trigger final(self).dep_seq(d)]
                #![trigger final(self).tc_of(d)]
                0 <= d < gp.n() && !in_wave(gp, origin as int, d) implies final(self).vals()[d]
                == gp.vals()[d] && final(self).dep_seq(d) == gp.dep_seq(d) && final(self).tc_of(
                d,
            ) == gp.tc_of(d) by {
                assert(!in_wave(g0, origin as int, d));
                assert(self.vals()[d] == g0.vals()[d]);
                assert(d != origin as int) by {
                    assert(in_wave(gp, origin as int, origin as int));
                }
                assert(g0.vals()[d] == gp.vals()[d]);
            }
        }
    }

    /// Retires derivation `d` when its last strong handle goes away: it
    /// unsubscribes from every dependency, so no weak back-edge is left dangling.
    /// Nothing may still hold it strongly: no live node's expression mentions
    /// it, which also means nobody observes it.
    pub fn retire_derivation(&mut self, d: usize)
        requires
            old(self).wf(),
            old(self).is_derivation(d as int),
            forall|e: int|
                0 <= e < old(self).n() && old(self).live(e) && e != d as int ==> !mentions(
                    #[trigger] old(self).expr_of(e),
                ).contains(d),
        ensures
            final(self).wf(),
            final(self).n() == old(self).n(),
            final(self).kinds@ == old(self).kinds@.update(d as int, NodeKind::Retired),
            final(self).vals() == old(self).vals(),
            final(self).exprs@ == old(self).exprs@,
            final(self).initialized == old(self).initialized,
            forall|q: int|
                0 <= q < old(self).n() && q != d as int ==> final(self).dep_seq(q) == old(
                    self,
                ).dep_seq(q) && final(self).tc_of(q) == old(self).tc_of(q),
    {
        let ghost g0 = *old(self);
        proof {
            assert(g0.edges_wf_at(d as int));
            assert(g0.obs_seq(d as int).len() == 0) by {
                if g0.obs_seq(d as int).len() > 0 {
                    let ob = g0.obs_seq(d as int)[0];
                    assert((d as int) < ob && g0.is_derivation(ob as int) && g0.dep_seq(
                        ob as int,
                    ).contains(d));
                    assert(g0.fresh_at(ob as int));
                    assert(g0.dep_seq(ob as int) == g0.dep_target(ob as int));
                    crate::static_state::lemma_note_all_contains(
                        Seq::empty(),
                        reads_spec(g0.vals(), g0.expr_of(ob as int)),
                        d,
                    );
                    crate::expr::lemma_reads_subset_mentions(
                        g0.vals(),
                        g0.expr_of(ob as int),
                    );
                    let tr = reads_spec(g0.vals(), g0.expr_of(ob as int));
                    let k = choose|k: int| 0 <= k < tr.len() && tr[k] == d;
                    assert(mentions(g0.expr_of(ob as int)).contains(tr[k]));
                    assert(g0.live(ob as int));
                }
            }
        }
        proof {
            assert forall|p: int| 0 <= p < g0.n() implies no_dup(#[trigger] g0.obs_seq(p)) by {
                assert(g0.edges_wf_at(p));
            }
        }
        let prev_deps = vec_replace(&mut self.deps, d, Vec::new());
        let ghost gmid = *self;
        let mut k: usize = 0;
        let dlen = prev_deps.len();
        while k < dlen
            invariant
                0 <= (d as int) < g0.n(),
                g0.n() <= usize::MAX,
                g0.lens_ok(),
                gmid.lens_ok(),
                gmid.n() == g0.n(),
                k <= dlen,
                dlen == prev_deps@.len(),
                prev_deps@ == g0.dep_seq(d as int),
                no_dup(prev_deps@),
                forall|j: int| 0 <= j < prev_deps@.len() ==> (#[trigger] prev_deps@[j]) < d,
                forall|j: int|
                    0 <= j < prev_deps@.len() ==> g0.obs_seq(
                        (#[trigger] prev_deps@[j]) as int,
                    ).contains(d),
                forall|p: int| 0 <= p < g0.n() ==> no_dup(#[trigger] g0.obs_seq(p)),
                *self == (Graph { observers: self.observers, ..gmid }),
                self.observers@.len() == g0.n(),
                forall|p: int|
                    0 <= p < g0.n() ==> #[trigger] self.obs_seq(p) == if prev_deps@.take(
                        k as int,
                    ).contains(p as usize) {
                        g0.obs_seq(p).remove(crate::observer::first_index_of(g0.obs_seq(p), d))
                    } else {
                        g0.obs_seq(p)
                    },
            decreases dlen - k,
        {
            let ghost sin = *self;
            let p = prev_deps[k];
            proof {
                assert(prev_deps@[k as int] == p);
                assert(!prev_deps@.take(k as int).contains(p)) by {
                    if prev_deps@.take(k as int).contains(p) {
                        let j = choose|j: int| 0 <= j < k && prev_deps@.take(k as int)[j] == p;
                        assert(prev_deps@[j] == p);
                    }
                }
                assert(sin.obs_seq(p as int) == g0.obs_seq(p as int));
            }
            let mut lst = vec_replace(&mut self.observers, p, ObserverList::new());
            lst.remove(d);
            let _discard = vec_replace(&mut self.observers, p, lst);
            proof {
                assert(prev_deps@.take(k as int + 1) =~= prev_deps@.take(k as int).push(p));
                assert forall|q: int| 0 <= q < g0.n() implies #[trigger] self.obs_seq(q)
                    == if prev_deps@.take(k as int + 1).contains(q as usize) {
                    g0.obs_seq(q).remove(crate::observer::first_index_of(g0.obs_seq(q), d))
                } else {
                    g0.obs_seq(q)
                } by {
                    let tk = prev_deps@.take(k as int);
                    let tk1 = prev_deps@.take(k as int + 1);
                    assert(tk1.contains(q as usize) == (tk.contains(q as usize) || q
                        == p as int)) by {
                        if tk.contains(q as usize) {
                            let j = choose|j: int| 0 <= j < tk.len() && tk[j] == q as usize;
                            assert(tk1[j] == q as usize);
                        }
                        if q == p as int {
                            assert(tk1.last() == q as usize);
                        }
                        if tk1.contains(q as usize) {
                            let j = choose|j: int| 0 <= j < tk1.len() && tk1[j] == q as usize;
                            if j < tk.len() {
                                assert(tk[j] == q as usize);
                            }
                        }
                    }
                    if q == p as int {
                        assert(self.obs_seq(q) == sin.obs_seq(q).remove(
                            crate::observer::first_index_of(sin.obs_seq(q), d),
                        ));
                    } else {
                        assert(self.observers@[q] == sin.observers@[q]);
                        assert(self.obs_seq(q) == sin.obs_seq(q));
                    }
                }
            }
            k += 1;
        }
        let ghost grem = *self;
        let _oldkind = vec_replace(&mut self.kinds, d, NodeKind::Retired);
        proof {
            let g1 = *self;
            assert(prev_deps@.take(dlen as int) =~= prev_deps@);
            assert(g1.dep_seq(d as int) =~= Seq::<usize>::empty());
            assert(g1.observers == grem.observers);
            assert forall|q: int| 0 <= q < g1.n() implies #[trigger] g1.obs_seq(q)
                == if prev_deps@.contains(q as usize) {
                g0.obs_seq(q).remove(crate::observer::first_index_of(g0.obs_seq(q), d))
            } else {
                g0.obs_seq(q)
            } by {
                assert(grem.obs_seq(q) == if prev_deps@.take(dlen as int).contains(q as usize) {
                    g0.obs_seq(q).remove(crate::observer::first_index_of(g0.obs_seq(q), d))
                } else {
                    g0.obs_seq(q)
                });
                assert(g1.obs_seq(q) == grem.obs_seq(q));
            }
            assert forall|q: int| 0 <= q < g1.n() implies g1.edges_wf_at(q) by {
                assert(g0.edges_wf_at(q));
                assert(g1.kind_of(q) == if q == d as int {
                    NodeKind::Retired
                } else {
                    g0.kind_of(q)
                });
                assert(!g0.dep_seq(q).contains(d) || q == d as int) by {
                    if q != d as int && g0.dep_seq(q).contains(d) {
                        assert(g0.obs_seq(d as int).contains(q as usize)) by {
                            let j = choose|j: int|
                                0 <= j < g0.dep_seq(q).len() && g0.dep_seq(q)[j] == d;
                            assert(g0.obs_seq(g0.dep_seq(q)[j] as int).contains(q as usize));
                        }
                    }
                }
                if q == d as int {
                    assert(!prev_deps@.contains(q as usize)) by {
                        if prev_deps@.contains(q as usize) {
                            let j = choose|j: int|
                                0 <= j < prev_deps@.len() && prev_deps@[j] == q as usize;
                            assert(prev_deps@[j] < d);
                        }
                    }
                    assert(g1.obs_seq(q) == g0.obs_seq(q));
                    assert(g1.obs_seq(q).len() == 0);
                } else {
                    assert(g1.dep_seq(q) == g0.dep_seq(q));
                    if g0.dep_seq(d as int).contains(q as usize) {
                        crate::observer::lemma_first_index_of(g0.obs_seq(q), d);
                        lemma_remove_only(
                            g0.obs_seq(q),
                            crate::observer::first_index_of(g0.obs_seq(q), d),
                            d,
                        );
                    }
                    assert forall|j: int| 0 <= j < g1.dep_seq(q).len() implies {
                        let p = #[trigger] g1.dep_seq(q)[j];
                        p < q && g1.live(p as int) && g1.obs_seq(p as int).contains(q as usize)
                    } by {
                        let p = g1.dep_seq(q)[j];
                        assert(g0.dep_seq(q)[j] == p);
                        assert(p < q && g0.live(p as int) && g0.obs_seq(p as int).contains(
                            q as usize,
                        ));
                        assert(p as int != d as int);
                        assert(g1.kind_of(p as int) == g0.kind_of(p as int));
                        if g0.dep_seq(d as int).contains(p) {
                            crate::observer::lemma_first_index_of(g0.obs_seq(p as int), d);
                            assert(q as usize != d);
                            lemma_contains_remove(
                                g0.obs_seq(p as int),
                                crate::observer::first_index_of(g0.obs_seq(p as int), d),
                                q as usize,
                            );
                        } else {
                            assert(g1.obs_seq(p as int) == g0.obs_seq(p as int));
                        }
                    }
                    assert forall|j: int| 0 <= j < g1.obs_seq(q).len() implies {
                        let ob = #[trigger] g1.obs_seq(q)[j];
                        q < ob && g1.is_derivation(ob as int) && g1.dep_seq(ob as int).contains(
                            q as usize,
                        )
                    } by {
                        let ob = g1.obs_seq(q)[j];
                        if g0.dep_seq(d as int).contains(q as usize) {
                            let idx = crate::observer::first_index_of(g0.obs_seq(q), d);
                            crate::observer::lemma_first_index_of(g0.obs_seq(q), d);
                            assert(g1.obs_seq(q) == g0.obs_seq(q).remove(idx));
                            let sj = if j < idx {
                                j
                            } else {
                                j + 1
                            };
                            assert(g0.obs_seq(q).remove(idx)[j] == g0.obs_seq(q)[sj]);
                            assert(g0.obs_seq(q)[sj] == ob);
                            assert(ob != d);
                            assert(q < ob && g0.is_derivation(ob as int));
                            assert(g0.dep_seq(ob as int).contains(q as usize));
                            assert(g1.dep_seq(ob as int) == g0.dep_seq(ob as int));
                            assert(g1.kind_of(ob as int) == g0.kind_of(ob as int));
                        } else {
                            assert(g1.obs_seq(q) == g0.obs_seq(q));
                            assert(g0.obs_seq(q)[j] == ob);
                            assert(ob != d) by {
                                if ob == d {
                                    assert(g0.dep_seq(d as int).contains(q as usize));
                                }
                            }
                            assert(g1.kind_of(ob as int) == g0.kind_of(ob as int));
                            assert(g1.dep_seq(ob as int) == g0.dep_seq(ob as int));
                        }
                    }
                    if g1.kind_of(q) == NodeKind::Derivation {
                        assert(g0.expr_ok(g0.expr_of(q), q));
                        assert forall|i: usize| #[trigger]
                            mentions(g1.expr_of(q)).contains(i) implies i < q && g1.live(
                            i as int,
                        ) by {
                            assert(mentions(g0.expr_of(q)).contains(i));
                            assert(i < q && g0.live(i as int));
                            assert(i as int != d as int) by {
                                assert(g0.live(q));
                            }
                        }
                    }
                    if g1.kind_of(q) == NodeKind::Observable {
                        assert(g1.tc_of(q) == g0.tc_of(q));
                    }
                    if g1.kind_of(q) == NodeKind::Retired {
                        assert(g0.kind_of(q) == NodeKind::Retired);
                        assert(g1.obs_seq(q) == g0.obs_seq(q));
                    }
                }
            }
            assert forall|q: int| 0 <= q < g1.n() implies g1.fresh_at(q) && g1.quiet_at(q) by {
                assert(g0.fresh_at(q));
                assert(g0.quiet_at(q));
                if g1.kind_of(q) == NodeKind::Derivation {
                    assert(q != d as int);
                    assert(g1.dep_seq(q) == g0.dep_seq(q));
                    assert(g1.vals() == g0.vals());
                    assert(g1.expr_of(q) == g0.expr_of(q));
                }
            }
            assert(g1.wf()) by {
                if exists|q: int| 0 <= q < g1.n() && g1.is_derivation(q) {
                    let w2 = choose|q: int| 0 <= q < g1.n() && g1.is_derivation(q);
                    assert(g0.is_derivation(w2));
                }
            }
            assert(g1.kinds@ =~= g0.kinds@.update(d as int, NodeKind::Retired));
        }
    }

    /// One STALE notice arrives at node `d`: its pending counter rises.
    pub fn send_stale(&mut self, d: usize)
        requires
            old(self).lens_ok(),
            d < old(self).n(),
            old(self).sc_of(d as int) < u64::MAX,
        ensures
            *final(self) == (Graph { stale_counts: final(self).stale_counts, ..*old(self) }),
            final(self).stale_counts@ == old(self).stale_counts@.update(
                d as int,
                (old(self).sc_of(d as int) + 1) as u64,
            ),
    {
        let c = self.stale_counts[d];
        let prev = vec_replace(&mut self.stale_counts, d, c + 1);
    }

    /// One READY notice arrives at node `d`: its pending counter falls and the
    /// change bit latches into the dirty flag.
    pub fn send_ready(&mut self, d: usize, changed: bool)
        requires
            old(self).lens_ok(),
            d < old(self).n(),
            old(self).sc_of(d as int) >= 1,
        ensures
            *final(self) == (Graph {
                stale_counts: final(self).stale_counts,
                dirty_flags: final(self).dirty_flags,
                ..*old(self)
            }),
            final(self).stale_counts@ == old(self).stale_counts@.update(
                d as int,
                (old(self).sc_of(d as int) - 1) as u64,
            ),
            final(self).dirty_flags@ == old(self).dirty_flags@.update(
                d as int,
                old(self).dirty_of(d as int) || changed,
            ),
    {
        let c = self.stale_counts[d];
        let prev = vec_replace(&mut self.stale_counts, d, c - 1);
        let f = self.dirty_flags[d];
        let prevf = vec_replace(&mut self.dirty_flags, d, f || changed);
    }

    /// Appends a fresh derivation node computing `e`. The expression runs
    /// once under a capture frame; what it read becomes the dependency list,
    /// and the new node registers itself as an observer of each dependency.
    pub fn new_derivation(&mut self, e: Expr) -> (id: usize)
        requires
            old(self).wf(),
            old(self).initialized,
            old(self).n() < usize::MAX,
            forall|i: usize| #[trigger] mentions(e).contains(i) ==> old(self).live(i as int),
        ensures
            final(self).wf(),
            id == old(self).n(),
            final(self).n() == old(self).n() + 1,
            final(self).is_derivation(id as int),
            final(self).initialized == old(self).initialized,
            final(self).capture@ == old(self).capture@,
            final(self).vals() == old(self).vals().push(eval_spec(old(self).vals(), e)),
            final(self).expr_of(id as int) == e,
            final(self).tc_of(id as int) == 1,
            final(self).kinds@ == old(self).kinds@.push(NodeKind::Derivation),
            forall|d: int| 0 <= d < old(self).n() ==> final(self).dep_seq(d) == old(self).dep_seq(d),
            forall|d: int| 0 <= d < old(self).n() ==> final(self).tc_of(d) == old(self).tc_of(d),
            forall|d: int| 0 <= d < old(self).n() ==> final(self).mb_of(d) == old(self).mb_of(d),
            forall|d: int|
                0 <= d < old(self).n() ==> final(self).obs_seq(d) == if final(self).dep_seq(
                    id as int,
                ).contains(d as usize) {
                    old(self).obs_seq(d).push(id)
                } else {
                    old(self).obs_seq(d)
                },
    {
        let ghost g0 = *old(self);
        let id = self.kinds.len();
        crate::static_state::push_observing_stack(self);
        proof {
            assert forall|i: usize| #[trigger] mentions(e).contains(i) implies i < self.n() by {
                assert(g0.live(i as int));
            }
        }
        let v = self.eval(&e);
        let d0 = crate::static_state::pop_observing_stack(self);
        proof {
            assert(d0@ == note_all(Seq::empty(), reads_spec(g0.vals(), e)));
            assert(self.capture@ =~= g0.capture@);
            crate::static_state::lemma_note_all_no_dup(
                Seq::empty(),
                reads_spec(g0.vals(), e),
            );
            crate::expr::lemma_reads_subset_mentions(g0.vals(), e);
            assert forall|j: int| 0 <= j < d0@.len() implies (#[trigger] d0@[j]) < id
                && g0.live(d0@[j] as int) by {
                assert(d0@.contains(d0@[j]));
                crate::static_state::lemma_note_all_contains(
                    Seq::empty(),
                    reads_spec(g0.vals(), e),
                    d0@[j],
                );
                let tr = reads_spec(g0.vals(), e);
                let k = choose|k: int| 0 <= k < tr.len() && tr[k] == d0@[j];
                assert(mentions(e).contains(tr[k]));
                assert(g0.live(d0@[j] as int));
            }
        }
        self.kinds.push(NodeKind::Derivation);
        self.values.push(v);
        self.exprs.push(e);
        self.deps.push(d0);
        self.observers.push(ObserverList::new());
        self.stale_counts.push(0);
        self.dirty_flags.push(false);
        self.times_computed.push(1);
        self.mut_borrows.push(false);
        let ghost gmid = *self;
        proof {
            assert(gmid.lens_ok());
            assert(gmid.dep_seq(id as int) == note_all(Seq::empty(), reads_spec(g0.vals(), e)));
            assert(gmid.obs_seq(id as int) =~= Seq::<usize>::empty());
            assert forall|d: int| 0 <= d < g0.n() implies gmid.obs_seq(d) == g0.obs_seq(d)
                && no_dup(gmid.obs_seq(d)) && (forall|j: int|
                0 <= j < gmid.obs_seq(d).len() ==> (#[trigger] gmid.obs_seq(d)[j]) < g0.n()) by {
                assert(gmid.observers@[d] == g0.observers@[d]);
                assert(g0.edges_wf_at(d));
                assert forall|j: int|
                    0 <= j < gmid.obs_seq(d).len() implies (#[trigger] gmid.obs_seq(d)[j])
                    < g0.n() by {
                    assert(g0.obs_seq(d)[j] == gmid.obs_seq(d)[j]);
                    assert(g0.is_derivation(g0.obs_seq(d)[j] as int));
                }
            }
        }
        let dlen = self.deps[id].len();
        let mut k: usize = 0;
        while k < dlen
            invariant
                0 <= id < gmid.n(),
                id == gmid.n() - 1,
                gmid.lens_ok(),
                gmid.n() <= usize::MAX,
                no_dup(gmid.dep_seq(id as int)),
                forall|j: int|
                    0 <= j < gmid.dep_seq(id as int).len() ==> (#[trigger] gmid.dep_seq(
                        id as int,
                    )[j]) < id,
                forall|d: int|
                    0 <= d < id ==> no_dup(gmid.obs_seq(d)) && (forall|j: int|
                        0 <= j < gmid.obs_seq(d).len() ==> (#[trigger] gmid.obs_seq(d)[j]) < id),
                gmid.obs_seq(id as int) == Seq::<usize>::empty(),
                k <= dlen,
                dlen == gmid.dep_seq(id as int).len(),
                *self == (Graph { observers: self.observers, ..gmid }),
                self.observers@.len() == gmid.n(),
                forall|d: int|
                    0 <= d < gmid.n() ==> #[trigger] self.obs_seq(d) == if gmid.dep_seq(
                        id as int,
                    ).take(k as int).contains(d as usize) {
                        gmid.obs_seq(d).push(id)
                    } else {
                        gmid.obs_seq(d)
                    },
            decreases dlen - k,
        {
            let ghost sin = *self;
            let p = self.deps[id][k];
            proof {
                assert(gmid.dep_seq(id as int)[k as int] == p);
                assert(p < id);
                assert(!gmid.dep_seq(id as int).take(k as int).contains(p)) by {
                    if gmid.dep_seq(id as int).take(k as int).contains(p) {
                        let j = choose|j: int|
                            0 <= j < k && gmid.dep_seq(id as int).take(k as int)[j] == p;
                        assert(gmid.dep_seq(id as int)[j] == p);
                    }
                }
                assert(sin.obs_seq(p as int) == gmid.obs_seq(p as int));
                assert(!sin.obs_seq(p as int).contains(id)) by {
                    if sin.obs_seq(p as int).contains(id) {
                        let j = choose|j: int|
                            0 <= j < gmid.obs_seq(p as int).len() && gmid.obs_seq(p as int)[j]
                                == id;
                        assert(gmid.obs_seq(p as int)[j] < id);
                    }
                }
            }
            let mut lst = vec_replace(&mut self.observers, p, ObserverList::new());
            lst.add(id);
            let _discard = vec_replace(&mut self.observers, p, lst);
            proof {
                assert(self.observers@ =~= sin.observers@.update(p as int, self.observers@[p as int]));
                assert(self.obs_seq(p as int) == sin.obs_seq(p as int).push(id));
                assert(gmid.dep_seq(id as int).take(k as int + 1) =~= gmid.dep_seq(
                    id as int,
                ).take(k as int).push(p));
                assert forall|d: int| 0 <= d < gmid.n() implies #[trigger] self.obs_seq(d)
                    == if gmid.dep_seq(id as int).take(k as int + 1).contains(d as usize) {
                    gmid.obs_seq(d).push(id)
                } else {
                    gmid.obs_seq(d)
                } by {
                    let tk = gmid.dep_seq(id as int).take(k as int);
                    let tk1 = gmid.dep_seq(id as int).take(k as int + 1);
                    assert(tk1.contains(d as usize) == (tk.contains(d as usize) || d == p)) by {
                        if tk.contains(d as usize) {
                            let j = choose|j: int| 0 <= j < tk.len() && tk[j] == d as usize;
                            assert(tk1[j] == d as usize);
                        }
                        if d == p {
                            assert(tk1.last() == d as usize);
                        }
                        if tk1.contains(d as usize) {
                            let j = choose|j: int| 0 <= j < tk1.len() && tk1[j] == d as usize;
                            if j < tk.len() {
                                assert(tk[j] == d as usize);
                            }
                        }
                    }
                    if d == p as int {
                        assert(sin.obs_seq(p as int) == gmid.obs_seq(p as int));
                    } else {
                        assert(self.observers@[d] == sin.observers@[d]);
                        assert(self.obs_seq(d) == sin.obs_seq(d));
                    }
                }
            }
            k += 1;
        }
        proof {
            let g1 = *self;
            assert(gmid.dep_seq(id as int).take(dlen as int) =~= gmid.dep_seq(id as int));
            assert forall|d: int| 0 <= d < g0.n() implies g1.obs_seq(d) == if g1.dep_seq(
                id as int,
            ).contains(d as usize) {
                g0.obs_seq(d).push(id)
            } else {
                g0.obs_seq(d)
            } by {
                assert(g1.dep_seq(id as int) == gmid.dep_seq(id as int));
                assert(gmid.obs_seq(d) == g0.obs_seq(d));
            }
            assert(g1.expr_ok(g1.expr_of(id as int), id as int)) by {
                assert forall|i: usize| #[trigger]
                    mentions(g1.expr_of(id as int)).contains(i) implies i < id && g1.live(
                    i as int,
                ) by {
                    assert(mentions(e).contains(i));
                    assert(g0.live(i as int));
                    assert(g1.kind_of(i as int) == g0.kind_of(i as int));
                }
            }
            lemma_edges_wf_extend(g0, g1);
            lemma_fresh_prefix(g0, g1, g0.n());
            assert(g1.vals() =~= g0.vals().push(eval_spec(g0.vals(), e)));
            assert(g1.kinds@ =~= g0.kinds@.push(NodeKind::Derivation));
            assert(g1.fresh_at(id as int)) by {
                crate::expr::lemma_eval_below(g0.vals(), g1.vals(), e, id as int);
                assert(g1.vals()[id as int] == eval_spec(g0.vals(), e));
                assert(g1.dep_seq(id as int) == note_all(
                    Seq::empty(),
                    reads_spec(g1.vals(), e),
                ));
            }
            assert forall|d: int| 0 <= d < g1.n() implies g1.fresh_at(d) && g1.quiet_at(d) by {
                if d < g0.n() {
                    assert(g0.quiet_at(d));
                }
            }
            assert(g1.capture@ =~= g0.capture@);
        }
        id
    }

    /// Evaluates `e` over the current node values, recording every read in
    /// the top capture frame. This is the compute step of a derivation: the
    /// value comes back, the dependencies land in the frame.
    pub fn eval(&mut self, e: &Expr) -> (r: Value)
        requires
            old(self).initialized,
            old(self).lens_ok(),
            old(self).capture@.len() > 0,
            forall|i: usize| #[trigger] mentions(*e).contains(i) ==> i < old(self).n(),
        ensures
            r == eval_spec(old(self).vals(), *e),
            *final(self) == (Graph { capture: final(self).capture, ..*old(self) }),
            final(self).capture@.len() == old(self).capture@.len(),
            final(self).capture@.last()@ == note_all(
                old(self).capture@.last()@,
                reads_spec(old(self).vals(), *e),
            ),
            forall|i: int|
                0 <= i < old(self).capture@.len() - 1 ==> final(self).capture@[i] == old(
                    self,
                ).capture@[i],
        decreases *e,
    {
        match e {
            Expr::Lit(v) => {
                proof {
                    assert(reads_spec(self.vals(), *e) =~= Seq::<usize>::empty());
                }
                *v
            },
            Expr::Read(i) => {
                proof {
                    assert(mentions(*e).contains(*i));
                }
                let v = self.values[*i];
                note_observed(self, *i);
                proof {
                    let tr = reads_spec(old(self).vals(), *e);
                    assert(tr =~= seq![*i]);
                    assert(tr[0] == *i);
                    assert(tr.drop_first() =~= Seq::<usize>::empty());
                    assert(note_all(
                        note_one(old(self).capture@.last()@, *i),
                        tr.drop_first(),
                    ) == note_one(old(self).capture@.last()@, *i));
                    assert(note_all(old(self).capture@.last()@, tr) == note_one(
                        old(self).capture@.last()@,
                        *i,
                    ));
                }
                v
            },
            Expr::Add(a, b) => {
                proof {
                    assert forall|i: usize| #[trigger]
                        mentions(**a).contains(i) implies i < self.n() by {
                        assert(mentions(*e).contains(i));
                    }
                    assert forall|i: usize| #[trigger]
                        mentions(**b).contains(i) implies i < self.n() by {
                        assert(mentions(*e).contains(i));
                    }
                }
                let va = self.eval(a);
                let vb = self.eval(b);
                proof {
                    crate::static_state::lemma_note_all_app(
                        old(self).capture@.last()@,
                        reads_spec(old(self).vals(), **a),
                        reads_spec(old(self).vals(), **b),
                    );
                }
                Value::Int(crate::value::wrap_add(va.as_int(), vb.as_int()))
            },
            Expr::Cond(c, t, f) => {
                proof {
                    assert forall|i: usize| #[trigger]
                        mentions(**c).contains(i) implies i < self.n() by {
                        assert(mentions(*e).contains(i));
                    }
                    assert forall|i: usize| #[trigger]
                        mentions(**t).contains(i) implies i < self.n() by {
                        assert(mentions(*e).contains(i));
                    }
                    assert forall|i: usize| #[trigger]
                        mentions(**f).contains(i) implies i < self.n() by {
                        assert(mentions(*e).contains(i));
                    }
                }
                let vc = self.eval(c);
                if vc.as_bool() {
                    let vt = self.eval(t);
                    proof {
                        crate::static_state::lemma_note_all_app(
                            old(self).capture@.last()@,
                            reads_spec(old(self).vals(), **c),
                            reads_spec(old(self).vals(), **t),
                        );
                    }
                    vt
                } else {
                    let vf = self.eval(f);
                    proof {
                        crate::static_state::lemma_note_all_app(
                            old(self).capture@.last()@,
                            reads_spec(old(self).vals(), **c),
                            reads_spec(old(self).vals(), **f),
                        );
                    }
                    vf
                }
            },
        }
    }

    /// Appends a fresh observable leaf holding `value` and returns its id.
    pub fn new_observable(&mut self, value: Value) -> (id: usize)
        requires
            old(self).wf(),
            old(self).n() < usize::MAX,
        ensures
            final(self).wf(),
            id == old(self).n(),
            final(self).n() == old(self).n() + 1,
            final(self).is_observable(id as int),
            final(self).vals() == old(self).vals().push(value),
            final(self).kinds@ == old(self).kinds@.push(NodeKind::Observable),
            final(self).exprs@ == old(self).exprs@.push(Expr::Lit(value)),
            final(self).initialized == old(self).initialized,
            final(self).capture@ == old(self).capture@,
            forall|d: int| 0 <= d < old(self).n() ==> final(self).dep_seq(d) == old(self).dep_seq(d),
            forall|d: int| 0 <= d < old(self).n() ==> final(self).obs_seq(d) == old(self).obs_seq(d),
            forall|d: int| 0 <= d < old(self).n() ==> final(self).tc_of(d) == old(self).tc_of(d),
            forall|d: int| 0 <= d < old(self).n() ==> final(self).mb_of(d) == old(self).mb_of(d),
            final(self).dep_seq(id as int) == Seq::<usize>::empty(),
            final(self).obs_seq(id as int) == Seq::<usize>::empty(),
            final(self).tc_of(id as int) == 0,
            !final(self).mb_of(id as int),
    {
        let id = self.kinds.len();
        self.kinds.push(NodeKind::Observable);
        self.values.push(value);
        self.exprs.push(Expr::Lit(value));
        self.deps.push(Vec::new());
        self.observers.push(ObserverList::new());
        self.stale_counts.push(0);
        self.dirty_flags.push(false);
        self.times_computed.push(0);
        self.mut_borrows.push(false);
        proof {
            let g0 = *old(self);
            let g1 = *self;
            let newid = g0.n();
            assert(g1.dep_seq(newid) =~= Seq::<usize>::empty());
            assert(g1.obs_seq(newid) =~= Seq::<usize>::empty());
            assert forall|d: int| 0 <= d < g0.n() implies g1.obs_seq(d) == g0.obs_seq(d) by {
                assert(g1.observers@[d] == g0.observers@[d]);
            }
            lemma_edges_wf_extend(g0, g1);
            lemma_fresh_prefix(g0, g1, g0.n());
            assert forall|d: int| 0 <= d < g1.n() implies g1.quiet_at(d) by {
                if d < g0.n() {
                    assert(g0.quiet_at(d));
                }
            }
            if exists|d: int| 0 <= d < g1.n() && g1.is_derivation(d) {
                let w = choose|d: int| 0 <= d < g1.n() && g1.is_derivation(d);
                assert(0 <= w < g0.n() && g0.is_derivation(w));
            }
            assert(g1.vals() =~= g0.vals().push(value));
            assert(g1.kinds@ =~= g0.kinds@.push(NodeKind::Observable));
            assert(g1.exprs@ =~= g0.exprs@.push(Expr::Lit(value)));
        }
        id
    }
}

/// Replaces the element of `v` at `i`, handing back the previous one.
pub(crate) fn vec_replace<T>(v: &mut Vec<T>, i: usize, x: T) -> (prev: T)
    requires
        i < old(v).len(),
    ensures
        prev == old(v)@[i as int],
        final(v)@ == old(v)@.update(i as int, x),
{
    v.push(x);
    let prev = v.swap_remove(i);
    proof {
        assert(v@ =~= old(v)@.update(i as int, x));
    }
    prev
}

/// Whether the stale wave started by a write to `o` reaches node `d`: `d` is
/// `o` itself, or a derivation one of whose dependencies the wave reaches.
/// Dependencies always point below, so the recursion descends.
pub open spec fn in_wave(g: Graph, o: int, d: int) -> bool
    decreases d,
{
    if d == o {
        true
    } else if o < d && g.is_derivation(d) {
        exists|j: int|
            0 <= j < g.dep_seq(d).len() && g.dep_seq(d)[j] < d && in_wave(
                g,
                o,
                #[trigger] g.dep_seq(d)[j] as int,
            )
    } else {
        false
    }
}

/// Wave members never lie below the origin.
pub proof fn lemma_wave_ge(g: Graph, o: int, d: int)
    ensures
        in_wave(g, o, d) ==> d >= o,
{
}

/// How many entries of `s` the wave reaches with id at most `b`: the number
/// of stale notices a node with dependency list `s` has received once every
/// wave member up to `b` has broadcast.
pub open spec fn count_wave_le(g: Graph, o: int, s: Seq<usize>, b: int) -> int
    decreases s.len(),
{
    if s.len() == 0 {
        0
    } else {
        count_wave_le(g, o, s.drop_last(), b) + if in_wave(g, o, s.last() as int) && s.last()
            <= b {
            1int
        } else {
            0int
        }
    }
}

pub proof fn lemma_count_wave_bounds(g: Graph, o: int, s: Seq<usize>, b: int)
    ensures
        0 <= count_wave_le(g, o, s, b) <= s.len(),
    decreases s.len(),
{
    if s.len() > 0 {
        lemma_count_wave_bounds(g, o, s.drop_last(), b);
    }
}

pub proof fn lemma_count_wave_mono(g: Graph, o: int, s: Seq<usize>, b1: int, b2: int)
    requires
        b1 <= b2,
    ensures
        count_wave_le(g, o, s, b1) <= count_wave_le(g, o, s, b2),
    decreases s.len(),
{
    if s.len() > 0 {
        lemma_count_wave_mono(g, o, s.drop_last(), b1, b2);
    }
}

/// Advancing the bound one step counts exactly the new position, when it is
/// a wave member held by `s`.
pub proof fn lemma_count_wave_step(g: Graph, o: int, s: Seq<usize>, b: int)
    requires
        0 <= b + 1 <= usize::MAX,
        crate::observer::no_dup(s),
    ensures
        count_wave_le(g, o, s, b + 1) == count_wave_le(g, o, s, b) + if s.contains(
            (b + 1) as usize,
        ) && in_wave(g, o, b + 1) {
            1int
        } else {
            0int
        },
    decreases s.len(),
{
    if s.len() == 0 {
    } else {
        let st = s.drop_last();
        {
            assert(crate::observer::no_dup(st)) by {
                assert forall|i: int, j: int| 0 <= i < j < st.len() implies st[i] != st[j] by {
                    assert(s[i] == st[i] && s[j] == st[j]);
                }
            }
            lemma_count_wave_step(g, o, st, b);
            if s.last() == (b + 1) as usize {
                assert(!st.contains((b + 1) as usize)) by {
                    if st.contains((b + 1) as usize) {
                        let k = choose|k: int| 0 <= k < st.len() && st[k] == (b + 1) as usize;
                        assert(s[k] == s[s.len() - 1]);
                    }
                }
                assert(s.contains((b + 1) as usize)) by {
                    assert(s[s.len() - 1] == (b + 1) as usize);
                }
            } else {
                assert(s.contains((b + 1) as usize) == st.contains((b + 1) as usize)) by {
                    if s.contains((b + 1) as usize) {
                        let k = choose|k: int| 0 <= k < s.len() && s[k] == (b + 1) as usize;
                        assert(k < s.len() - 1);
                        assert(st[k] == (b + 1) as usize);
                    }
                    if st.contains((b + 1) as usize) {
                        let k = choose|k: int| 0 <= k < st.len() && st[k] == (b + 1) as usize;
                        assert(s[k] == (b + 1) as usize);
                    }
                }
            }
        }
    }
}

/// A wave member of `s` sitting inside the window `(b1, b2]` makes the count
/// at `b2` strictly larger than at `b1`.
pub proof fn lemma_count_wave_window(g: Graph, o: int, s: Seq<usize>, b1: int, b2: int, u: usize)
    requires
        s.contains(u),
        in_wave(g, o, u as int),
        b1 < u <= b2,
    ensures
        count_wave_le(g, o, s, b2) >= count_wave_le(g, o, s, b1) + 1,
    decreases s.len(),
{
    let st = s.drop_last();
    if s.last() == u {
        lemma_count_wave_mono(g, o, st, b1, b2);
    } else {
        assert(st.contains(u)) by {
            let k = choose|k: int| 0 <= k < s.len() && s[k] == u;
            assert(k < s.len() - 1);
            assert(st[k] == u);
        }
        lemma_count_wave_window(g, o, st, b1, b2, u);
    }
}

/// Below the origin nothing is stale: the count at `o - 1` is zero.
pub proof fn lemma_count_wave_zero(g: Graph, o: int, s: Seq<usize>)
    ensures
        count_wave_le(g, o, s, o - 1) == 0,
    decreases s.len(),
{
    if s.len() > 0 {
        lemma_count_wave_zero(g, o, s.drop_last());
        lemma_wave_ge(g, o, s.last() as int);
    }
}

/// The `changed` bit a settled node reports: the write origin always reports
/// a change; a derivation reports whether its cached value moved during the
/// current cascade.
pub open spec fn changed_bit(g0: Graph, g: Graph, o: int, p: int) -> bool {
    if p == o {
        true
    } else {
        g.vals()[p] != g0.vals()[p]
    }
}

/// What a pending derivation's dirty flag must hold once every wave member up
/// to `b` has settled: whether any settled stale dependency reported a change.
pub open spec fn dirty_target(g0: Graph, g: Graph, o: int, d: int, b: int) -> bool {
    exists|j: int|
        0 <= j < g0.dep_seq(d).len() && in_wave(g0, o, #[trigger] g0.dep_seq(d)[j] as int)
            && g0.dep_seq(d)[j] <= b && changed_bit(g0, g, o, g0.dep_seq(d)[j] as int)
}

/// A positive count names a witness.
pub proof fn lemma_count_wave_pos(g: Graph, o: int, s: Seq<usize>, b: int)
    requires
        count_wave_le(g, o, s, b) > 0,
    ensures
        exists|j: int|
            0 <= j < s.len() && in_wave(g, o, #[trigger] s[j] as int) && s[j] <= b,
    decreases s.len(),
{
    if s.len() > 0 {
        if in_wave(g, o, s.last() as int) && s.last() <= b {
            assert(s[s.len() - 1] == s.last());
        } else {
            lemma_count_wave_pos(g, o, s.drop_last(), b);
            let j = choose|j: int|
                0 <= j < s.drop_last().len() && in_wave(g, o, s.drop_last()[j] as int)
                    && s.drop_last()[j] <= b;
            assert(s[j] == s.drop_last()[j]);
        }
    }
}

/// Once the bound passes every element, the count no longer moves.
pub proof fn lemma_count_wave_stable(g: Graph, o: int, s: Seq<usize>, b1: int, b2: int)
    requires
        b1 <= b2,
        forall|j: int| 0 <= j < s.len() ==> (#[trigger] s[j]) <= b1,
    ensures
        count_wave_le(g, o, s, b2) == count_wave_le(g, o, s, b1),
    decreases s.len(),
{
    if s.len() > 0 {
        assert(s.last() == s[s.len() - 1]);
        assert forall|j: int| 0 <= j < s.drop_last().len() implies (#[trigger] s.drop_last()[j])
            <= b1 by {
            assert(s[j] == s.drop_last()[j]);
        }
        lemma_count_wave_stable(g, o, s.drop_last(), b1, b2);
    }
}

/// Removing one position keeps every other element reachable.
pub proof fn lemma_contains_remove(s: Seq<usize>, i: int, x: usize)
    requires
        0 <= i < s.len(),
        s.contains(x),
        s[i] != x,
    ensures
        s.remove(i).contains(x),
{
    let k = choose|k: int| 0 <= k < s.len() && s[k] == x;
    if k < i {
        assert(s.remove(i)[k] == x);
    } else {
        assert(s.remove(i)[k - 1] == x);
    }
}

/// Removing the only occurrence takes the element out for good.
pub proof fn lemma_remove_only(s: Seq<usize>, i: int, x: usize)
    requires
        0 <= i < s.len(),
        s[i] == x,
        no_dup(s),
    ensures
        !s.remove(i).contains(x),
        no_dup(s.remove(i)),
{
    if s.remove(i).contains(x) {
        let k = choose|k: int| 0 <= k < s.remove(i).len() && s.remove(i)[k] == x;
        if k < i {
            assert(s[k] == x);
        } else {
            assert(s[k + 1] == x);
        }
    }
    assert forall|a: int, b: int| 0 <= a < b < s.remove(i).len() implies s.remove(i)[a]
        != s.remove(i)[b] by {
        let sa = if a < i {
            a
        } else {
            a + 1
        };
        let sb = if b < i {
            b
        } else {
            b + 1
        };
        assert(s.remove(i)[a] == s[sa]);
        assert(s.remove(i)[b] == s[sb]);
    }
}

/// Rewiring one derivation's dependencies — removing it from the observer
/// lists of dependencies it shed and appending it to those it gained — keeps
/// the whole edge structure healthy.
proof fn lemma_edges_wf_rewire(gpre: Graph, gpost: Graph, d: int)
    requires
        gpre.edges_wf(),
        gpre.is_derivation(d),
        gpost.lens_ok(),
        gpost.n() == gpre.n(),
        gpost.kinds@ == gpre.kinds@,
        gpost.exprs@ == gpre.exprs@,
        gpost.mut_borrows@ == gpre.mut_borrows@,
        forall|q: int| gpre.is_observable(q) ==> gpost.tc_of(q) == gpre.tc_of(q),
        forall|q: int| 0 <= q < gpre.n() && q != d ==> gpost.dep_seq(q) == gpre.dep_seq(q),
        no_dup(gpost.dep_seq(d)),
        forall|j: int|
            0 <= j < gpost.dep_seq(d).len() ==> (#[trigger] gpost.dep_seq(d)[j]) < d
                && gpre.live(gpost.dep_seq(d)[j] as int),
        forall|p: int|
            0 <= p < gpre.n() ==> #[trigger] gpost.obs_seq(p) == (if gpre.dep_seq(d).contains(
                p as usize,
            ) && !gpost.dep_seq(d).contains(p as usize) {
                gpre.obs_seq(p).remove(
                    crate::observer::first_index_of(gpre.obs_seq(p), (d as usize)),
                )
            } else if !gpre.dep_seq(d).contains(p as usize) && gpost.dep_seq(d).contains(
                p as usize,
            ) {
                gpre.obs_seq(p).push(d as usize)
            } else {
                gpre.obs_seq(p)
            }),
    ensures
        gpost.edges_wf(),
{
    let du = d as usize;
    assert(gpre.edges_wf_at(d));
    assert forall|q: int| 0 <= q < gpost.n() implies gpost.edges_wf_at(q) by {
        assert(gpre.edges_wf_at(q));
        assert(gpre.edges_wf_at(d));
        assert(gpost.kind_of(q) == gpre.kind_of(q));
        assert(gpost.expr_of(q) == gpre.expr_of(q));
        // whether d was removed from, added to, or kept in q's observer list
        let removed = gpre.dep_seq(d).contains(q as usize) && !gpost.dep_seq(d).contains(
            q as usize,
        );
        let added = !gpre.dep_seq(d).contains(q as usize) && gpost.dep_seq(d).contains(
            q as usize,
        );
        if removed {
            assert(gpre.obs_seq(q).contains(du)) by {
                let j = choose|j: int|
                    0 <= j < gpre.dep_seq(d).len() && gpre.dep_seq(d)[j] == q as usize;
                assert(gpre.dep_seq(d)[j] == q as usize);
                assert(gpre.obs_seq(gpre.dep_seq(d)[j] as int).contains(du));
            }
            crate::observer::lemma_first_index_of(gpre.obs_seq(q), du);
            lemma_remove_only(
                gpre.obs_seq(q),
                crate::observer::first_index_of(gpre.obs_seq(q), du),
                du,
            );
        }
        if added {
            assert(!gpre.obs_seq(q).contains(du)) by {
                if gpre.obs_seq(q).contains(du) {
                    let j = choose|j: int|
                        0 <= j < gpre.obs_seq(q).len() && gpre.obs_seq(q)[j] == du;
                    assert(gpre.dep_seq(d).contains(q as usize));
                }
            }
            assert(no_dup(gpost.obs_seq(q))) by {
                let s2 = gpre.obs_seq(q).push(du);
                assert forall|a: int, b: int| 0 <= a < b < s2.len() implies s2[a] != s2[b] by {
                    if b == s2.len() - 1 {
                        assert(s2[a] == gpre.obs_seq(q)[a]);
                        if s2[a] == du {
                            assert(gpre.obs_seq(q).contains(du));
                        }
                    }
                }
            }
        }
        // dependency edges of q
        assert forall|j: int| 0 <= j < gpost.dep_seq(q).len() implies {
            let p = #[trigger] gpost.dep_seq(q)[j];
            p < q && gpost.live(p as int) && gpost.obs_seq(p as int).contains(q as usize)
        } by {
            let p = gpost.dep_seq(q)[j];
            if q != d {
                assert(gpre.dep_seq(q)[j] == p);
                assert(p < q && gpre.live(p as int));
                assert(gpre.obs_seq(p as int).contains(q as usize));
                let p_removed = gpre.dep_seq(d).contains(p) && !gpost.dep_seq(d).contains(p);
                let p_added = !gpre.dep_seq(d).contains(p) && gpost.dep_seq(d).contains(p);
                if p_removed {
                    assert(gpre.obs_seq(p as int).contains(du)) by {
                        let jj = choose|jj: int|
                            0 <= jj < gpre.dep_seq(d).len() && gpre.dep_seq(d)[jj] == p;
                        assert(gpre.dep_seq(d)[jj] == p);
                        assert(gpre.obs_seq(gpre.dep_seq(d)[jj] as int).contains(du));
                    }
                    crate::observer::lemma_first_index_of(gpre.obs_seq(p as int), du);
                    assert(q as usize != du);
                    lemma_contains_remove(
                        gpre.obs_seq(p as int),
                        crate::observer::first_index_of(gpre.obs_seq(p as int), du),
                        q as usize,
                    );
                } else if p_added {
                    lemma_contains_push(gpre.obs_seq(p as int), q as usize, du);
                }
            } else {
                assert(p < d && gpre.live(p as int));
                assert(gpost.live(p as int));
                assert(gpost.dep_seq(d).contains(p)) by {
                    assert(gpost.dep_seq(d)[j] == p);
                }
                if gpre.dep_seq(d).contains(p) {
                    assert(gpre.obs_seq(p as int).contains(du)) by {
                        let jj = choose|jj: int|
                            0 <= jj < gpre.dep_seq(d).len() && gpre.dep_seq(d)[jj] == p;
                        assert(gpre.dep_seq(d)[jj] == p);
                        assert(gpre.obs_seq(gpre.dep_seq(d)[jj] as int).contains(du));
                    }
                    assert(gpost.obs_seq(p as int) == gpre.obs_seq(p as int));
                } else {
                    assert(gpost.obs_seq(p as int) == gpre.obs_seq(p as int).push(du));
                    assert(gpost.obs_seq(p as int).last() == du);
                }
            }
        }
        // observer edges of q
        assert forall|j: int| 0 <= j < gpost.obs_seq(q).len() implies {
            let ob = #[trigger] gpost.obs_seq(q)[j];
            q < ob && gpost.is_derivation(ob as int) && gpost.dep_seq(ob as int).contains(
                q as usize,
            )
        } by {
            let ob = gpost.obs_seq(q)[j];
            if removed {
                let idx = crate::observer::first_index_of(gpre.obs_seq(q), du);
                crate::observer::lemma_first_index_of(gpre.obs_seq(q), du);
                let sj = if j < idx {
                    j
                } else {
                    j + 1
                };
                assert(gpre.obs_seq(q)[sj] == ob);
                assert(ob != du);
                assert(q < ob && gpre.is_derivation(ob as int));
                assert(gpre.dep_seq(ob as int).contains(q as usize));
                assert(gpost.dep_seq(ob as int) == gpre.dep_seq(ob as int));
            } else if added && j == gpost.obs_seq(q).len() - 1 {
                assert(ob == du);
                assert(q < d) by {
                    let jj = choose|jj: int|
                        0 <= jj < gpost.dep_seq(d).len() && gpost.dep_seq(d)[jj] == q as usize;
                    assert(gpost.dep_seq(d)[jj] == q as usize);
                }
            } else {
                assert(gpre.obs_seq(q)[j] == ob);
                assert(q < ob && gpre.is_derivation(ob as int));
                if ob as int == d {
                    assert(gpre.dep_seq(d).contains(q as usize));
                    assert(!(gpre.dep_seq(d).contains(q as usize) && !gpost.dep_seq(d).contains(
                        q as usize,
                    )));
                    assert(gpost.dep_seq(d).contains(q as usize));
                } else {
                    assert(gpost.dep_seq(ob as int) == gpre.dep_seq(ob as int));
                    assert(gpre.dep_seq(ob as int).contains(q as usize));
                }
            }
        }
        // kind-specific clauses
        if gpost.kind_of(q) == NodeKind::Observable {
            assert(gpost.dep_seq(q) == gpre.dep_seq(q));
            assert(gpost.tc_of(q) == gpre.tc_of(q));
        }
        if gpost.kind_of(q) == NodeKind::Derivation {
            assert(gpre.expr_ok(gpre.expr_of(q), q));
            assert forall|i: usize| #[trigger]
                mentions(gpost.expr_of(q)).contains(i) implies i < q && gpost.live(i as int) by {
                assert(mentions(gpre.expr_of(q)).contains(i));
                assert(i < q && gpre.live(i as int));
            }
        }
        if gpost.kind_of(q) == NodeKind::Retired {
            assert(gpost.dep_seq(q) == gpre.dep_seq(q));
            assert(!gpre.dep_seq(d).contains(q as usize)) by {
                if gpre.dep_seq(d).contains(q as usize) {
                    let jj = choose|jj: int|
                        0 <= jj < gpre.dep_seq(d).len() && gpre.dep_seq(d)[jj] == q as usize;
                    assert(gpre.live(gpre.dep_seq(d)[jj] as int));
                }
            }
            assert(!gpost.dep_seq(d).contains(q as usize)) by {
                if gpost.dep_seq(d).contains(q as usize) {
                    let jj = choose|jj: int|
                        0 <= jj < gpost.dep_seq(d).len() && gpost.dep_seq(d)[jj] == q as usize;
                    assert(gpre.live(gpost.dep_seq(d)[jj] as int));
                }
            }
            assert(gpost.obs_seq(q) == gpre.obs_seq(q));
        }
    }
}

/// The fixed context of one propagation: `gp` is the well-formed graph
/// before the write, `g0` the graph right after the origin's value moved.
pub open spec fn ready_static(gp: Graph, g0: Graph, o: int) -> bool {
    &&& gp.wf()
    &&& g0.kinds == gp.kinds
    &&& g0.exprs == gp.exprs
    &&& g0.deps == gp.deps
    &&& g0.observers == gp.observers
    &&& g0.stale_counts == gp.stale_counts
    &&& g0.dirty_flags == gp.dirty_flags
    &&& g0.times_computed == gp.times_computed
    &&& g0.mut_borrows == gp.mut_borrows
    &&& g0.capture == gp.capture
    &&& g0.initialized == gp.initialized
    &&& g0.values@ == gp.values@.update(o, g0.vals()[o])
    &&& g0.edges_wf()
    &&& (forall|d: int| 0 <= d < g0.n() ==> g0.quiet_at(d))
    &&& 0 <= o < g0.n()
    &&& g0.is_observable(o)
    &&& g0.n() <= usize::MAX
}

/// The state of the READY phase when every wave member below `b` has settled:
/// nodes outside the wave are untouched, settled derivations are fresh and
/// quiet, and pending wave members still hold their pre-cascade state, a
/// stale counter equal to the number of unsettled stale dependencies, and a
/// dirty flag recording whether any settled stale dependency changed.
pub open spec fn ready_mid(gp: Graph, g0: Graph, g: Graph, o: int, b: int) -> bool {
    let n = g0.n();
    &&& g.n() == n
    &&& g.edges_wf()
    &&& g.kinds@ == g0.kinds@
    &&& g.exprs@ == g0.exprs@
    &&& g.mut_borrows@ == g0.mut_borrows@
    &&& g.capture@ == g0.capture@
    &&& g.initialized == g0.initialized
    &&& o <= b <= n
    &&& (forall|d: int|
        #![trigger g.vals()[d]]
        #![trigger g.dep_seq(d)]
        #![trigger g.sc_of(d)]
        0 <= d < n && !in_wave(g0, o, d) ==> g.vals()[d] == g0.vals()[d] && g.dep_seq(d)
            == g0.dep_seq(d) && g.tc_of(d) == g0.tc_of(d) && g.sc_of(d) == 0 && !g.dirty_of(d))
    &&& (forall|d: int|
        #![trigger g.sc_of(d)]
        #![trigger g.tc_of(d)]
        0 <= d < n && in_wave(g0, o, d) && d < b ==> g.sc_of(d) == 0 && !g.dirty_of(d)
            && g0.tc_of(d) <= g.tc_of(d) <= g0.tc_of(d) + 1)
    &&& (forall|d: int|
        #![trigger g.vals()[d]]
        #![trigger g.dep_seq(d)]
        0 <= d < n && in_wave(g0, o, d) && d < b && d != o ==> g.vals()[d] == eval_spec(
            g.vals(),
            g.expr_of(d),
        ) && g.dep_seq(d) == note_all(Seq::empty(), reads_spec(g.vals(), g.expr_of(d))))
    &&& g.vals()[o] == g0.vals()[o]
    &&& g.dep_seq(o) == g0.dep_seq(o)
    &&& g.tc_of(o) == g0.tc_of(o)
    &&& (forall|d: int|
        #![trigger g.vals()[d]]
        #![trigger g.dep_seq(d)]
        #![trigger g.tc_of(d)]
        0 <= d < n && in_wave(g0, o, d) && b <= d ==> g.vals()[d] == g0.vals()[d] && g.dep_seq(
            d,
        ) == g0.dep_seq(d) && g.tc_of(d) == g0.tc_of(d))
    &&& (forall|d: int|
        #![trigger g.sc_of(d)]
        0 <= d < n && in_wave(g0, o, d) && b <= d ==> g.sc_of(d) == count_wave_le(
            g0,
            o,
            g0.dep_seq(d),
            n - 1,
        ) - count_wave_le(g0, o, g0.dep_seq(d), b - 1))
    &&& (forall|d: int|
        #![trigger g.dirty_of(d)]
        0 <= d < n && in_wave(g0, o, d) && b <= d ==> g.dirty_of(d) == dirty_target(
            g0,
            g,
            o,
            d,
            b - 1,
        ))
}

/// Passing a node the wave does not reach moves the boundary without
/// touching the graph.
proof fn lemma_ready_skip(gp: Graph, g0: Graph, g: Graph, o: int, b: int)
    requires
        ready_static(gp, g0, o),
        ready_mid(gp, g0, g, o, b),
        o <= b < g0.n(),
        !in_wave(g0, o, b),
    ensures
        ready_mid(gp, g0, g, o, b + 1),
{
    let n = g0.n();
    assert forall|d: int| 0 <= d < n && in_wave(g0, o, d) && b + 1 <= d implies (
    #[trigger] g.sc_of(d)) == count_wave_le(g0, o, g0.dep_seq(d), n - 1) - count_wave_le(
        g0,
        o,
        g0.dep_seq(d),
        b,
    ) by {
        assert(g0.edges_wf_at(d));
        lemma_count_wave_step(g0, o, g0.dep_seq(d), b - 1);
    }
    assert forall|d: int| 0 <= d < n && in_wave(g0, o, d) && b + 1 <= d implies (
    #[trigger] g.dirty_of(d)) == dirty_target(g0, g, o, d, b) by {
        assert(g.dirty_of(d) == dirty_target(g0, g, o, d, b - 1));
        if dirty_target(g0, g, o, d, b) {
            let j = choose|j: int|
                0 <= j < g0.dep_seq(d).len() && in_wave(g0, o, #[trigger] g0.dep_seq(d)[j] as int)
                    && g0.dep_seq(d)[j] <= b && changed_bit(g0, g, o, g0.dep_seq(d)[j] as int);
            assert(g0.dep_seq(d)[j] as int != b);
            assert(dirty_target(g0, g, o, d, b - 1));
        }
        if dirty_target(g0, g, o, d, b - 1) {
            let j = choose|j: int|
                0 <= j < g0.dep_seq(d).len() && in_wave(g0, o, #[trigger] g0.dep_seq(d)[j] as int)
                    && g0.dep_seq(d)[j] <= b - 1 && changed_bit(g0, g, o, g0.dep_seq(d)[j] as int);
            assert(dirty_target(g0, g, o, d, b));
        }
    }
}

/// When the boundary has passed the whole graph, the resting-state invariant
/// holds again.
proof fn lemma_ready_done(gp: Graph, g0: Graph, g: Graph, o: int)
    requires
        ready_static(gp, g0, o),
        ready_mid(gp, g0, g, o, g0.n()),
    ensures
        g.wf(),
        forall|i: int|
            0 <= i < g0.n() && i != o && g0.is_observable(i) ==> g.vals()[i] == g0.vals()[i],
        forall|d: int|
            0 <= d < g0.n() ==> g0.tc_of(d) <= (#[trigger] g.tc_of(d)) <= g0.tc_of(d) + 1,
{
    let n = g0.n();
    assert forall|d: int| 0 <= d < n implies g.fresh_at(d) by {
        if g.kind_of(d) == NodeKind::Derivation {
            if in_wave(g0, o, d) {
                assert(d != o);
                assert(g.vals()[d] == g.vals()[d]);
                assert(g.dep_seq(d) == g.dep_seq(d));
            } else {
                assert(gp.fresh_at(d));
                assert(gp.edges_wf_at(d));
                let ex = gp.expr_of(d);
                let tr = reads_spec(gp.vals(), ex);
                assert(g0.dep_seq(d) == note_all(Seq::empty(), tr));
                assert forall|k: int| 0 <= k < tr.len() implies agree_at(
                    gp.vals(),
                    g.vals(),
                    #[trigger] tr[k],
                ) by {
                    let p = tr[k];
                    crate::static_state::lemma_note_all_contains(Seq::empty(), tr, p);
                    assert(g0.dep_seq(d).contains(p));
                    let jj = choose|jj: int|
                        0 <= jj < g0.dep_seq(d).len() && g0.dep_seq(d)[jj] == p;
                    assert(g0.dep_seq(d)[jj] == p);
                    assert((p as int) < d && g0.live(p as int));
                    assert(!in_wave(g0, o, p as int)) by {
                        if in_wave(g0, o, p as int) {
                            assert(g0.is_derivation(d)) by {
                                assert(g0.kind_of(d) == g.kind_of(d));
                            }
                            assert(in_wave(g0, o, d));
                        }
                    }
                    assert(p as int != o);
                    assert(g.vals()[p as int] == g0.vals()[p as int]);
                    assert(g0.vals()[p as int] == gp.vals()[p as int]);
                }
                crate::expr::lemma_eval_agree(gp.vals(), g.vals(), ex);
                assert(g.vals()[d] == g0.vals()[d]);
                assert(g0.vals()[d] == gp.vals()[d]);
            }
        }
    }
    assert forall|d: int| 0 <= d < n implies g.quiet_at(d) by {
        if in_wave(g0, o, d) {
            assert(g.sc_of(d) == 0 && !g.dirty_of(d));
        } else {
            assert(g.sc_of(d) == 0 && !g.dirty_of(d));
        }
    }
    assert(g.wf()) by {
        if exists|d: int| 0 <= d < g.n() && g.is_derivation(d) {
            let w2 = choose|d: int| 0 <= d < g.n() && g.is_derivation(d);
            assert(gp.is_derivation(w2));
        }
        assert(g.capture@.len() == 0) by {
            assert(gp.capture@.len() == 0);
        }
    }
    assert forall|d: int| 0 <= d < n implies g0.tc_of(d) <= (#[trigger] g.tc_of(d)) <= g0.tc_of(
        d,
    ) + 1 by {
        if !in_wave(g0, o, d) {
            assert(g.sc_of(d) == 0);
            assert(g.tc_of(d) == g0.tc_of(d));
        } else {
            assert(g.sc_of(d) == 0);
            assert(g0.tc_of(d) <= g.tc_of(d) <= g0.tc_of(d) + 1);
        }
    }
    assert forall|i: int|
        0 <= i < n && i != o && g0.is_observable(i) implies g.vals()[i] == g0.vals()[i] by {
        assert(!in_wave(g0, o, i));
    }
}

/// The wave does not look at values: graphs with the same kinds and
/// dependency lists agree on it.
pub proof fn lemma_in_wave_agree(g1: Graph, g2: Graph, o: int, d: int)
    requires
        g1.kinds@ == g2.kinds@,
        forall|i: int| 0 <= i < g1.n() ==> g1.dep_seq(i) == g2.dep_seq(i),
    ensures
        in_wave(g1, o, d) == in_wave(g2, o, d),
    decreases d,
{
    if d != o && o < d && (g1.is_derivation(d) || g2.is_derivation(d)) {
        assert(g1.dep_seq(d) == g2.dep_seq(d));
        assert forall|j: int|
            0 <= j < g1.dep_seq(d).len() && g1.dep_seq(d)[j] < d implies in_wave(
            g1,
            o,
            #[trigger] g1.dep_seq(d)[j] as int,
        ) == in_wave(g2, o, g1.dep_seq(d)[j] as int) by {
            lemma_in_wave_agree(g1, g2, o, g1.dep_seq(d)[j] as int);
        }
    }
}

/// `push` keeps every element reachable.
pub proof fn lemma_contains_push(s: Seq<usize>, x: usize, y: usize)
    requires
        s.contains(x),
    ensures
        s.push(y).contains(x),
{
    let k = choose|k: int| 0 <= k < s.len() && s[k] == x;
    assert(s.push(y)[k] == x);
}

/// Appending one node whose dependencies are mirrored by pushes onto the
/// observer lists of exactly those dependencies keeps the edge structure
/// healthy.
proof fn lemma_edges_wf_extend(g0: Graph, g1: Graph)
    requires
        g0.edges_wf(),
        g1.lens_ok(),
        g1.n() == g0.n() + 1,
        g1.n() <= usize::MAX,
        forall|d: int| 0 <= d < g0.n() ==> g1.kinds@[d] == g0.kinds@[d],
        forall|d: int| 0 <= d < g0.n() ==> g1.exprs@[d] == g0.exprs@[d],
        forall|d: int| 0 <= d < g0.n() ==> g1.deps@[d]@ == g0.deps@[d]@,
        forall|d: int| 0 <= d < g0.n() ==> g1.times_computed@[d] == g0.times_computed@[d],
        forall|d: int| 0 <= d < g0.n() ==> g1.mut_borrows@[d] == g0.mut_borrows@[d],
        forall|d: int|
            0 <= d < g0.n() ==> if g1.dep_seq(g0.n()).contains(d as usize) {
                g1.obs_seq(d) == g0.obs_seq(d).push(g0.n() as usize)
            } else {
                g1.obs_seq(d) == g0.obs_seq(d)
            },
        g1.kind_of(g0.n()) != NodeKind::Retired,
        no_dup(g1.dep_seq(g0.n())),
        g1.obs_seq(g0.n()).len() == 0,
        forall|j: int|
            0 <= j < g1.dep_seq(g0.n()).len() ==> (#[trigger] g1.dep_seq(g0.n())[j]) < g0.n()
                && g0.live(g1.dep_seq(g0.n())[j] as int),
        g1.kind_of(g0.n()) == NodeKind::Derivation ==> g1.expr_ok(g1.expr_of(g0.n()), g0.n())
            && !g1.mb_of(g0.n()),
        g1.kind_of(g0.n()) == NodeKind::Observable ==> g1.dep_seq(g0.n()).len() == 0 && g1.tc_of(
            g0.n(),
        ) == 0,
    ensures
        g1.edges_wf(),
{
    let newid = g0.n();
    assert forall|d: int| 0 <= d < g1.n() implies g1.edges_wf_at(d) by {
        if d < g0.n() {
            assert(g0.edges_wf_at(d));
            assert(g1.dep_seq(d) == g0.dep_seq(d));
            assert(g1.kind_of(d) == g0.kind_of(d));
            assert(g1.expr_of(d) == g0.expr_of(d));
            if g1.dep_seq(newid).contains(d as usize) {
                assert(g1.obs_seq(d) == g0.obs_seq(d).push(newid as usize));
                assert(no_dup(g1.obs_seq(d))) by {
                    let s2 = g0.obs_seq(d).push(newid as usize);
                    assert forall|i: int, j: int| 0 <= i < j < s2.len() implies s2[i] != s2[j] by {
                        if j == s2.len() - 1 {
                            assert(s2[i] == g0.obs_seq(d)[i]);
                            assert(g0.obs_seq(d)[i] < g0.n());
                        }
                    }
                }
            } else {
                assert(g1.obs_seq(d) == g0.obs_seq(d));
            }
            assert forall|j: int| 0 <= j < g1.dep_seq(d).len() implies {
                let p = #[trigger] g1.dep_seq(d)[j];
                p < d && g1.live(p as int) && g1.obs_seq(p as int).contains(d as usize)
            } by {
                let p = g1.dep_seq(d)[j];
                assert(g0.dep_seq(d)[j] == p);
                assert(p < d && g0.live(p as int) && g0.obs_seq(p as int).contains(d as usize));
                assert(g1.kind_of(p as int) == g0.kind_of(p as int));
                if g1.dep_seq(newid).contains(p) {
                    lemma_contains_push(g0.obs_seq(p as int), d as usize, newid as usize);
                }
            }
            assert forall|j: int| 0 <= j < g1.obs_seq(d).len() implies {
                let o = #[trigger] g1.obs_seq(d)[j];
                d < o && g1.is_derivation(o as int) && g1.dep_seq(o as int).contains(d as usize)
            } by {
                let o = g1.obs_seq(d)[j];
                if j < g0.obs_seq(d).len() {
                    assert(g0.obs_seq(d)[j] == o);
                    assert(d < o && g0.is_derivation(o as int));
                    assert(g0.dep_seq(o as int).contains(d as usize));
                    assert(g1.dep_seq(o as int) == g0.dep_seq(o as int));
                    assert(g1.kind_of(o as int) == g0.kind_of(o as int));
                } else {
                    assert(g1.obs_seq(d) == g0.obs_seq(d).push(newid as usize));
                    assert(o == newid as usize);
                    assert(g1.dep_seq(newid).contains(d as usize));
                }
            }
            assert forall|i: usize|
                g1.kind_of(d) == NodeKind::Derivation && mentions(g1.expr_of(d)).contains(
                    i,
                ) implies i < d && g1.live(i as int) by {
                assert(g0.expr_ok(g0.expr_of(d), d));
                assert(i < d && g0.live(i as int));
                assert(g1.kind_of(i as int) == g0.kind_of(i as int));
            }
        } else {
            assert(d == newid);
            assert forall|j: int| 0 <= j < g1.dep_seq(d).len() implies {
                let p = #[trigger] g1.dep_seq(d)[j];
                p < d && g1.live(p as int) && g1.obs_seq(p as int).contains(d as usize)
            } by {
                let p = g1.dep_seq(d)[j];
                assert(p < g0.n() && g0.live(p as int));
                assert(g1.dep_seq(newid).contains(p)) by {
                    assert(g1.dep_seq(newid)[j] == p);
                }
                assert(g1.obs_seq(p as int) == g0.obs_seq(p as int).push(newid as usize));
                assert(g1.obs_seq(p as int).last() == newid as usize);
                assert(g1.kind_of(p as int) == g0.kind_of(p as int));
            }
        }
    }
}

/// Nodes whose expression, dependencies and upstream values are untouched
/// stay fresh.
proof fn lemma_fresh_prefix(g0: Graph, g1: Graph, upto: int)
    requires
        g0.edges_wf(),
        g0.lens_ok(),
        g1.lens_ok(),
        0 <= upto <= g0.n(),
        g1.n() >= upto,
        forall|d: int| 0 <= d < upto ==> g0.fresh_at(d),
        forall|d: int| 0 <= d < upto ==> g1.kinds@[d] == g0.kinds@[d],
        forall|d: int| 0 <= d < upto ==> g1.exprs@[d] == g0.exprs@[d],
        forall|d: int| 0 <= d < upto ==> g1.deps@[d]@ == g0.deps@[d]@,
        forall|i: int| 0 <= i < upto ==> g1.vals()[i] == g0.vals()[i],
    ensures
        forall|d: int| 0 <= d < upto ==> g1.fresh_at(d),
{
    assert forall|d: int| 0 <= d < upto implies g1.fresh_at(d) by {
        if g1.kind_of(d) == NodeKind::Derivation {
            assert(g0.kind_of(d) == NodeKind::Derivation);
            assert(g0.fresh_at(d));
            assert(g0.edges_wf_at(d));
            assert(g0.expr_ok(g0.expr_of(d), d));
            assert forall|i: usize| mentions(g0.expr_of(d)).contains(i) implies i < d by {
                assert(i < d && g0.live(i as int));
            }
            crate::expr::lemma_eval_below(g0.vals(), g1.vals(), g0.expr_of(d), d);
            assert(g1.expr_of(d) == g0.expr_of(d));
            assert(g1.dep_seq(d) == g0.dep_seq(d));
        }
    }
}

} // verus!
