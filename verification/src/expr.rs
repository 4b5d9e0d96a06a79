//! Compute expressions for derivations.
//!
//! A derivation's compute function is an [`Expr`]: a small expression over the
//! values of other nodes. Evaluating an expression *reads* nodes; the read
//! trace is what dependency capture records, and only the branch actually
//! taken by a conditional contributes its reads. That is what makes dynamic
//! dependency discovery — and shedding — possible.

use vstd::prelude::*;

use crate::value::{wrap_add_spec, Value};

verus! {

/// A compute expression. `Read(i)` is a tracked read of node `i`; `Add` sums
/// the integer readings of its operands with wrapping arithmetic; `Cond`
/// evaluates its first operand as a boolean and then evaluates only the chosen
/// branch.
#[derive(Debug)]
pub enum Expr {
    Lit(Value),
    Read(usize),
    Add(Box<Expr>, Box<Expr>),
    Cond(Box<Expr>, Box<Expr>, Box<Expr>),
}

/// The value of `e` over the node values `vals`. An out-of-range read yields
/// zero; well-formed graphs never contain one.
pub open spec fn eval_spec(vals: Seq<Value>, e: Expr) -> Value
    decreases e,
{
    match e {
        Expr::Lit(v) => v,
        Expr::Read(i) => if i < vals.len() {
            vals[i as int]
        } else {
            Value::Int(0)
        },
        Expr::Add(a, b) => Value::Int(
            wrap_add_spec(eval_spec(vals, *a).as_int_spec(), eval_spec(vals, *b).as_int_spec()),
        ),
        Expr::Cond(c, t, f) => if eval_spec(vals, *c).as_bool_spec() {
            eval_spec(vals, *t)
        } else {
            eval_spec(vals, *f)
        },
    }
}

/// The read trace of evaluating `e` over `vals`, in evaluation order and with
/// repetitions. Only the taken branch of a `Cond` is read.
pub open spec fn reads_spec(vals: Seq<Value>, e: Expr) -> Seq<usize>
    decreases e,
{
    match e {
        Expr::Lit(_) => Seq::empty(),
        Expr::Read(i) => seq![i],
        Expr::Add(a, b) => reads_spec(vals, *a) + reads_spec(vals, *b),
        Expr::Cond(c, t, f) => reads_spec(vals, *c) + if eval_spec(vals, *c).as_bool_spec() {
            reads_spec(vals, *t)
        } else {
            reads_spec(vals, *f)
        },
    }
}

/// Every node `e` could possibly read, whatever the values: the syntactic
/// occurrences of `Read`. A derivation holds its mentioned nodes strongly, so
/// none of them can be retired while the derivation lives.
pub open spec fn mentions(e: Expr) -> Set<usize>
    decreases e,
{
    match e {
        Expr::Lit(_) => Set::empty(),
        Expr::Read(i) => Set::empty().insert(i),
        Expr::Add(a, b) => mentions(*a).union(mentions(*b)),
        Expr::Cond(c, t, f) => mentions(*c).union(mentions(*t)).union(mentions(*f)),
    }
}

/// The read trace only ever visits mentioned nodes.
pub proof fn lemma_reads_subset_mentions(vals: Seq<Value>, e: Expr)
    ensures
        forall|k: int|
            0 <= k < reads_spec(vals, e).len() ==> mentions(e).contains(reads_spec(vals, e)[k]),
    decreases e,
{
    match e {
        Expr::Lit(_) => {},
        Expr::Read(i) => {},
        Expr::Add(a, b) => {
            lemma_reads_subset_mentions(vals, *a);
            lemma_reads_subset_mentions(vals, *b);
            let la = reads_spec(vals, *a).len() as int;
            assert forall|k: int| 0 <= k < reads_spec(vals, e).len() implies mentions(e).contains(
                reads_spec(vals, e)[k],
            ) by {
                if k < la {
                    assert(reads_spec(vals, e)[k] == reads_spec(vals, *a)[k]);
                } else {
                    assert(reads_spec(vals, e)[k] == reads_spec(vals, *b)[k - la]);
                }
            }
        },
        Expr::Cond(c, t, f) => {
            lemma_reads_subset_mentions(vals, *c);
            lemma_reads_subset_mentions(vals, *t);
            lemma_reads_subset_mentions(vals, *f);
            let lc = reads_spec(vals, *c).len() as int;
            assert forall|k: int| 0 <= k < reads_spec(vals, e).len() implies mentions(e).contains(
                reads_spec(vals, e)[k],
            ) by {
                if k < lc {
                    assert(reads_spec(vals, e)[k] == reads_spec(vals, *c)[k]);
                } else if eval_spec(vals, *c).as_bool_spec() {
                    assert(reads_spec(vals, e)[k] == reads_spec(vals, *t)[k - lc]);
                } else {
                    assert(reads_spec(vals, e)[k] == reads_spec(vals, *f)[k - lc]);
                }
            }
        },
    }
}

/// `vals2` agrees with `vals1` at index `i`, both in range.
pub open spec fn agree_at(vals1: Seq<Value>, vals2: Seq<Value>, i: usize) -> bool {
    i < vals1.len() && i < vals2.len() && vals2[i as int] == vals1[i as int]
}

/// If two valuations agree on every node in `e`'s read trace under the first,
/// evaluation under the second takes the same path: same value, same trace.
pub proof fn lemma_eval_agree(vals1: Seq<Value>, vals2: Seq<Value>, e: Expr)
    requires
        forall|k: int|
            0 <= k < reads_spec(vals1, e).len() ==> agree_at(
                vals1,
                vals2,
                #[trigger] reads_spec(vals1, e)[k],
            ),
    ensures
        eval_spec(vals2, e) == eval_spec(vals1, e),
        reads_spec(vals2, e) == reads_spec(vals1, e),
    decreases e,
{
    match e {
        Expr::Lit(_) => {},
        Expr::Read(i) => {
            assert(reads_spec(vals1, e)[0] == i);
        },
        Expr::Add(a, b) => {
            let la = reads_spec(vals1, *a).len() as int;
            assert forall|k: int| 0 <= k < reads_spec(vals1, *a).len() implies agree_at(
                vals1,
                vals2,
                #[trigger] reads_spec(vals1, *a)[k],
            ) by {
                assert(reads_spec(vals1, e)[k] == reads_spec(vals1, *a)[k]);
            }
            lemma_eval_agree(vals1, vals2, *a);
            assert forall|k: int| 0 <= k < reads_spec(vals1, *b).len() implies agree_at(
                vals1,
                vals2,
                #[trigger] reads_spec(vals1, *b)[k],
            ) by {
                assert(reads_spec(vals1, e)[la + k] == reads_spec(vals1, *b)[k]);
            }
            lemma_eval_agree(vals1, vals2, *b);
        },
        Expr::Cond(c, t, f) => {
            let lc = reads_spec(vals1, *c).len() as int;
            assert forall|k: int| 0 <= k < reads_spec(vals1, *c).len() implies agree_at(
                vals1,
                vals2,
                #[trigger] reads_spec(vals1, *c)[k],
            ) by {
                assert(reads_spec(vals1, e)[k] == reads_spec(vals1, *c)[k]);
            }
            lemma_eval_agree(vals1, vals2, *c);
            if eval_spec(vals1, *c).as_bool_spec() {
                assert forall|k: int| 0 <= k < reads_spec(vals1, *t).len() implies agree_at(
                    vals1,
                    vals2,
                    #[trigger] reads_spec(vals1, *t)[k],
                ) by {
                    assert(reads_spec(vals1, e)[lc + k] == reads_spec(vals1, *t)[k]);
                }
                lemma_eval_agree(vals1, vals2, *t);
            } else {
                assert forall|k: int| 0 <= k < reads_spec(vals1, *f).len() implies agree_at(
                    vals1,
                    vals2,
                    #[trigger] reads_spec(vals1, *f)[k],
                ) by {
                    assert(reads_spec(vals1, e)[lc + k] == reads_spec(vals1, *f)[k]);
                }
                lemma_eval_agree(vals1, vals2, *f);
            }
        },
    }
}

/// Evaluation only looks below `bound` when every mention lies below `bound`:
/// two valuations that agree on `[0, bound)` evaluate alike.
pub proof fn lemma_eval_below(vals1: Seq<Value>, vals2: Seq<Value>, e: Expr, bound: int)
    requires
        forall|i: usize| mentions(e).contains(i) ==> i < bound,
        bound <= vals1.len(),
        bound <= vals2.len(),
        forall|i: int| 0 <= i < bound ==> vals1[i] == vals2[i],
    ensures
        eval_spec(vals2, e) == eval_spec(vals1, e),
        reads_spec(vals2, e) == reads_spec(vals1, e),
{
    lemma_reads_subset_mentions(vals1, e);
    lemma_eval_agree(vals1, vals2, e);
}

impl Clone for Expr {
    /// A structural copy of the expression.
    fn clone(&self) -> (r: Self)
        ensures
            r == *self,
        decreases *self,
    {
        match self {
            Expr::Lit(v) => Expr::Lit(*v),
            Expr::Read(i) => Expr::Read(*i),
            Expr::Add(a, b) => Expr::Add(Box::new((**a).clone()), Box::new((**b).clone())),
            Expr::Cond(c, t, f) => Expr::Cond(
                Box::new((**c).clone()),
                Box::new((**t).clone()),
                Box::new((**f).clone()),
            ),
        }
    }
}

impl Expr {
    /// A constant expression.
    pub fn lit(v: Value) -> (e: Expr)
        ensures
            e == Expr::Lit(v),
    {
        Expr::Lit(v)
    }

    /// A constant integer expression.
    pub fn lit_int(i: i64) -> (e: Expr)
        ensures
            e == Expr::Lit(Value::Int(i)),
    {
        Expr::Lit(Value::Int(i))
    }

    /// A tracked read of node `i`.
    pub fn read(i: usize) -> (e: Expr)
        ensures
            e == Expr::Read(i),
    {
        Expr::Read(i)
    }

    /// The wrapping sum of the integer readings of `a` and `b`.
    pub fn add(a: Expr, b: Expr) -> (e: Expr)
        ensures
            e == Expr::Add(Box::new(a), Box::new(b)),
    {
        Expr::Add(Box::new(a), Box::new(b))
    }

    /// `t` when `c` reads as true, else `f`; only the chosen branch is read.
    pub fn cond(c: Expr, t: Expr, f: Expr) -> (e: Expr)
        ensures
            e == Expr::Cond(Box::new(c), Box::new(t), Box::new(f)),
    {
        Expr::Cond(Box::new(c), Box::new(t), Box::new(f))
    }
}

} // verus!
