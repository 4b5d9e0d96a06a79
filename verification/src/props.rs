//! The laws of the reactive graph.
//!
//! A well-formed graph is always *fresh*: every derivation caches exactly the
//! value its expression denotes over the current observable values, however
//! deep the chain of derivations in between. Since every public operation
//! returns a well-formed graph, these laws hold at every quiescent moment.

use vstd::prelude::*;

use crate::expr::{eval_spec, mentions, Expr};
use crate::graph::Graph;
use crate::value::{wrap_add_spec, Value};

verus! {

/// The value node `d` denotes: an observable denotes its stored value, a
/// derivation denotes its expression evaluated over what its inputs denote.
/// This is "compute evaluated against current observable values": cached
/// values of intermediate derivations play no part.
pub open spec fn denote_node(g: Graph, d: int) -> Value
    decreases d, 1int, (Expr::Read(0)),
        when 0 <= d
{
    if g.is_derivation(d) {
        denote_expr(g, g.expr_of(d), d)
    } else {
        g.vals()[d]
    }
}

/// The denotation of expression `e` whose reads all lie below `bound`.
pub open spec fn denote_expr(g: Graph, e: Expr, bound: int) -> Value
    decreases bound, 0int, e,
        when 0 <= bound
{
    match e {
        Expr::Lit(v) => v,
        Expr::Read(i) => if i < bound {
            denote_node(g, i as int)
        } else {
            Value::Int(0)
        },
        Expr::Add(a, b) => Value::Int(
            wrap_add_spec(
                denote_expr(g, *a, bound).as_int_spec(),
                denote_expr(g, *b, bound).as_int_spec(),
            ),
        ),
        Expr::Cond(c, t, f) => if denote_expr(g, *c, bound).as_bool_spec() {
            denote_expr(g, *t, bound)
        } else {
            denote_expr(g, *f, bound)
        },
    }
}

/// Freshness (the central law): in a well-formed graph — as left behind by
/// every constructor and every write — each derivation's cached value equals
/// the denotation of its expression over the current observable values.
pub proof fn lemma_freshness(g: Graph, d: int)
    requires
        g.wf(),
        g.is_derivation(d),
    ensures
        g.vals()[d] == denote_node(g, d),
    decreases d, 1int, (Expr::Read(0)),
{
    assert(g.edges_wf_at(d));
    assert(g.fresh_at(d));
    assert(g.expr_ok(g.expr_of(d), d));
    lemma_eval_is_denote(g, g.expr_of(d), d);
}

/// Cached evaluation agrees with the denotation, once every smaller
/// derivation is known fresh.
proof fn lemma_eval_is_denote(g: Graph, e: Expr, bound: int)
    requires
        g.wf(),
        0 <= bound <= g.n(),
        forall|i: usize| #[trigger] mentions(e).contains(i) ==> i < bound && g.live(i as int),
    ensures
        eval_spec(g.vals(), e) == denote_expr(g, e, bound),
    decreases bound, 0int, e,
{
    match e {
        Expr::Lit(_) => {
            assert(eval_spec(g.vals(), e) == denote_expr(g, e, bound));
        },
        Expr::Read(i) => {
            assert(mentions(e).contains(i));
            assert(i < g.vals().len());
            if g.is_derivation(i as int) {
                lemma_freshness(g, i as int);
            } else {
                assert(denote_node(g, i as int) == g.vals()[i as int]);
            }
        },
        Expr::Add(a, b) => {
            assert forall|i: usize| #[trigger] mentions(*a).contains(i) implies i < bound
                && g.live(i as int) by {
                assert(mentions(e).contains(i));
            }
            assert forall|i: usize| #[trigger] mentions(*b).contains(i) implies i < bound
                && g.live(i as int) by {
                assert(mentions(e).contains(i));
            }
            lemma_eval_is_denote(g, *a, bound);
            lemma_eval_is_denote(g, *b, bound);
        },
        Expr::Cond(c, t, f) => {
            assert forall|i: usize| #[trigger] mentions(*c).contains(i) implies i < bound
                && g.live(i as int) by {
                assert(mentions(e).contains(i));
            }
            assert forall|i: usize| #[trigger] mentions(*t).contains(i) implies i < bound
                && g.live(i as int) by {
                assert(mentions(e).contains(i));
            }
            assert forall|i: usize| #[trigger] mentions(*f).contains(i) implies i < bound
                && g.live(i as int) by {
                assert(mentions(e).contains(i));
            }
            lemma_eval_is_denote(g, *c, bound);
            lemma_eval_is_denote(g, *t, bound);
            lemma_eval_is_denote(g, *f, bound);
        },
    }
}

/// The denotation reads only the shape of the graph and its observable
/// values: two graphs with the same nodes, kinds and expressions, whose
/// observables hold equal values, denote alike everywhere.
pub proof fn lemma_denote_leaves(g1: Graph, g2: Graph, d: int)
    requires
        g1.edges_wf(),
        g1.n() == g2.n(),
        g1.kinds@ == g2.kinds@,
        g1.exprs@ == g2.exprs@,
        forall|i: int| g1.is_observable(i) ==> g2.vals()[i] == g1.vals()[i],
        0 <= d < g1.n(),
        g1.kind_of(d) != crate::graph::NodeKind::Retired,
    ensures
        denote_node(g2, d) == denote_node(g1, d),
    decreases d, 1int, (Expr::Read(0)),
{
    if g1.is_derivation(d) {
        assert(g1.edges_wf_at(d));
        assert(g1.expr_ok(g1.expr_of(d), d));
        lemma_denote_expr_leaves(g1, g2, g1.expr_of(d), d);
    } else {
        assert(g1.is_observable(d));
    }
}

proof fn lemma_denote_expr_leaves(g1: Graph, g2: Graph, e: Expr, bound: int)
    requires
        g1.edges_wf(),
        g1.n() == g2.n(),
        g1.kinds@ == g2.kinds@,
        g1.exprs@ == g2.exprs@,
        forall|i: int| g1.is_observable(i) ==> g2.vals()[i] == g1.vals()[i],
        0 <= bound <= g1.n(),
        forall|i: usize| #[trigger] mentions(e).contains(i) ==> i < bound && g1.live(i as int),
    ensures
        denote_expr(g2, e, bound) == denote_expr(g1, e, bound),
    decreases bound, 0int, e,
{
    match e {
        Expr::Lit(_) => {},
        Expr::Read(i) => {
            assert(mentions(e).contains(i));
            lemma_denote_leaves(g1, g2, i as int);
        },
        Expr::Add(a, b) => {
            assert forall|i: usize| #[trigger] mentions(*a).contains(i) implies i < bound
                && g1.live(i as int) by {
                assert(mentions(e).contains(i));
            }
            assert forall|i: usize| #[trigger] mentions(*b).contains(i) implies i < bound
                && g1.live(i as int) by {
                assert(mentions(e).contains(i));
            }
            lemma_denote_expr_leaves(g1, g2, *a, bound);
            lemma_denote_expr_leaves(g1, g2, *b, bound);
        },
        Expr::Cond(c, t, f) => {
            assert forall|i: usize| #[trigger] mentions(*c).contains(i) implies i < bound
                && g1.live(i as int) by {
                assert(mentions(e).contains(i));
            }
            assert forall|i: usize| #[trigger] mentions(*t).contains(i) implies i < bound
                && g1.live(i as int) by {
                assert(mentions(e).contains(i));
            }
            assert forall|i: usize| #[trigger] mentions(*f).contains(i) implies i < bound
                && g1.live(i as int) by {
                assert(mentions(e).contains(i));
            }
            lemma_denote_expr_leaves(g1, g2, *c, bound);
            lemma_denote_expr_leaves(g1, g2, *t, bound);
            lemma_denote_expr_leaves(g1, g2, *f, bound);
        },
    }
}

/// Minimal invalidation: whatever ran in between, if two well-formed states
/// of the graph agree on every observable — as after a write that stored an
/// equal value — then every derivation's cached value is the same in both.
pub proof fn lemma_same_leaves_same_values(g1: Graph, g2: Graph, d: int)
    requires
        g1.wf(),
        g2.wf(),
        g1.n() == g2.n(),
        g1.kinds@ == g2.kinds@,
        g1.exprs@ == g2.exprs@,
        forall|i: int| g1.is_observable(i) ==> g2.vals()[i] == g1.vals()[i],
        g1.is_derivation(d),
    ensures
        g2.vals()[d] == g1.vals()[d],
{
    lemma_freshness(g1, d);
    lemma_freshness(g2, d);
    lemma_denote_leaves(g1, g2, d);
}

/// Quiescence: a well-formed graph — as every public operation leaves it —
/// has every stale counter at zero and every dirty flag clear.
pub proof fn lemma_quiescence(g: Graph, d: int)
    requires
        g.wf(),
        0 <= d < g.n(),
    ensures
        g.sc_of(d) == 0,
        !g.dirty_of(d),
{
    assert(g.quiet_at(d));
}

} // verus!
