//! The runtime gate and the capture stack.
//!
//! This state belongs to the runtime rather than to any one node; it lives
//! in the [`Graph`], whose single owner plays the role of the owning thread. A stack
//! of frames records which nodes are read while a derivation (re)computes:
//! each tracked read appends to the top frame unless already present, so a
//! frame is an ordered, de-duplicated list of first-seen reads.

use vstd::prelude::*;

use crate::graph::Graph;

verus! {

/// One tracked read lands in a frame: appended if no entry shares its
/// identity, first-seen entry wins.
pub open spec fn note_one(frame: Seq<usize>, id: usize) -> Seq<usize> {
    if frame.contains(id) {
        frame
    } else {
        frame.push(id)
    }
}

/// A whole read trace lands in a frame, in order.
pub open spec fn note_all(frame: Seq<usize>, trace: Seq<usize>) -> Seq<usize>
    decreases trace.len(),
{
    if trace.len() == 0 {
        frame
    } else {
        note_all(note_one(frame, trace[0]), trace.drop_first())
    }
}

pub proof fn lemma_note_all_app(frame: Seq<usize>, t1: Seq<usize>, t2: Seq<usize>)
    ensures
        note_all(frame, t1 + t2) == note_all(note_all(frame, t1), t2),
    decreases t1.len(),
{
    if t1.len() == 0 {
        assert(t1 + t2 == t2);
    } else {
        assert((t1 + t2)[0] == t1[0]);
        assert((t1 + t2).drop_first() == t1.drop_first() + t2);
        lemma_note_all_app(note_one(frame, t1[0]), t1.drop_first(), t2);
    }
}

/// What lands in a frame is exactly what was there or was read.
pub proof fn lemma_note_all_contains(frame: Seq<usize>, trace: Seq<usize>, x: usize)
    ensures
        note_all(frame, trace).contains(x) == (frame.contains(x) || trace.contains(x)),
    decreases trace.len(),
{
    if trace.len() == 0 {
    } else {
        lemma_note_all_contains(note_one(frame, trace[0]), trace.drop_first(), x);
        assert(note_one(frame, trace[0]).contains(x) == (frame.contains(x) || trace[0] == x))
            by {
            if frame.contains(x) {
                let k = choose|k: int| 0 <= k < frame.len() && frame[k] == x;
                assert(note_one(frame, trace[0])[k] == x);
            } else if trace[0] == x && !frame.contains(trace[0]) {
                assert(note_one(frame, trace[0]).last() == x);
            } else if note_one(frame, trace[0]).contains(x) && !frame.contains(trace[0]) {
                let k = choose|k: int|
                    0 <= k < note_one(frame, trace[0]).len() && note_one(frame, trace[0])[k] == x;
                if k < frame.len() {
                    assert(frame[k] == x);
                }
            }
        }
        if trace.contains(x) {
            let k = choose|k: int| 0 <= k < trace.len() && trace[k] == x;
            if k > 0 {
                assert(trace.drop_first()[k - 1] == x);
            }
        }
        if trace.drop_first().contains(x) {
            let k = choose|k: int|
                0 <= k < trace.drop_first().len() && trace.drop_first()[k] == x;
            assert(trace[k + 1] == x);
        }
    }
}

/// De-duplication keeps a frame free of repeats.
pub proof fn lemma_note_all_no_dup(frame: Seq<usize>, trace: Seq<usize>)
    requires
        crate::observer::no_dup(frame),
    ensures
        crate::observer::no_dup(note_all(frame, trace)),
    decreases trace.len(),
{
    if trace.len() == 0 {
    } else {
        assert(crate::observer::no_dup(note_one(frame, trace[0]))) by {
            if !frame.contains(trace[0]) {
                let f2 = frame.push(trace[0]);
                assert forall|i: int, j: int| 0 <= i < j < f2.len() implies f2[i] != f2[j] by {
                    if j == f2.len() - 1 {
                        assert(f2[i] == frame[i]);
                        if f2[i] == trace[0] {
                            assert(frame.contains(trace[0]));
                        }
                    }
                }
            }
        }
        lemma_note_all_no_dup(note_one(frame, trace[0]), trace.drop_first());
    }
}

/// Whether `v` holds `x`.
pub fn vec_contains(v: &Vec<usize>, x: usize) -> (r: bool)
    ensures
        r == v@.contains(x),
{
    let mut k: usize = 0;
    while k < v.len()
        invariant
            k <= v.len(),
            forall|j: int| 0 <= j < k ==> v@[j] != x,
        decreases v.len() - k,
    {
        if v[k] == x {
            assert(v@[k as int] == x);
            return true;
        }
        k += 1;
    }
    false
}

/// Marks the graph's runtime as initialized: from here on derivations may be
/// constructed and tracked reads performed. Initializing twice is a usage
/// error and is excluded up front.
pub fn init(g: &mut Graph)
    requires
        !old(g).initialized,
    ensures
        *final(g) == (Graph { initialized: true, ..*old(g) }),
{
    g.initialized = true;
}

/// Whether [`init`] has run on this graph.
pub fn is_initialized(g: &Graph) -> (r: bool)
    ensures
        r == g.initialized,
{
    g.initialized
}

/// Opens a fresh, empty capture frame: recording of tracked reads begins.
pub fn push_observing_stack(g: &mut Graph)
    requires
        old(g).initialized,
        old(g).capture@.len() < usize::MAX,
    ensures
        *final(g) == (Graph { capture: final(g).capture, ..*old(g) }),
        final(g).capture@.len() == old(g).capture@.len() + 1,
        final(g).capture@.last()@ == Seq::<usize>::empty(),
        forall|i: int|
            0 <= i < old(g).capture@.len() ==> final(g).capture@[i] == old(g).capture@[i],
{
    g.capture.push(Vec::new());
}

/// Records a tracked read of node `id` in the top capture frame; a read
/// outside any derivation is a usage error and is excluded up front.
pub fn note_observed(g: &mut Graph, id: usize)
    requires
        old(g).initialized,
        old(g).capture@.len() > 0,
    ensures
        *final(g) == (Graph { capture: final(g).capture, ..*old(g) }),
        final(g).capture@.len() == old(g).capture@.len(),
        final(g).capture@.last()@ == note_one(old(g).capture@.last()@, id),
        forall|i: int|
            0 <= i < old(g).capture@.len() - 1 ==> final(g).capture@[i] == old(g).capture@[i],
{
    let mut frame = g.capture.pop().unwrap();
    let already = vec_contains(&frame, id);
    if !already {
        frame.push(id);
    }
    g.capture.push(frame);
    proof {
        assert(g.capture@ =~= old(g).capture@.update(
            old(g).capture@.len() - 1,
            g.capture@.last(),
        ));
        assert(g.capture@.last()@ == note_one(old(g).capture@.last()@, id));
    }
}

/// Closes the top capture frame and hands back what was read. Popping with no
/// frame open is an internal error and is excluded up front.
pub fn pop_observing_stack(g: &mut Graph) -> (frame: Vec<usize>)
    requires
        old(g).initialized,
        old(g).capture@.len() > 0,
    ensures
        *final(g) == (Graph { capture: final(g).capture, ..*old(g) }),
        final(g).capture@ == old(g).capture@.drop_last(),
        frame@ == old(g).capture@.last()@,
{
    g.capture.pop().unwrap()
}

} // verus!
