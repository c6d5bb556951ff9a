//! The coordinator's step: take a batch of observations into the history and
//! say what is to be published.

use vstd::prelude::*;
use crate::history::History;
use crate::inference::levels::{inferred, orderable, well_formed};
use crate::observations::{Observation, ObservationView, views};
use crate::value::Value;

verus! {

/// The most observations that the coordinator takes in one step.
pub const PROCESS_BUFFER_LIMIT: usize = 100;

/// What the coordinator does after a step.
#[derive(Debug, Clone, Copy, PartialEq, Eq, Structural)]
pub enum Verdict {
    /// The history infers this value: publish it.
    Publish(Value),
    /// The history is in conflict: publish nothing, and go on.
    Conflict,
    /// A producer broke its contract: an interval is malformed, or the order
    /// of the history is undefined.
    Malformed,
}

/// What is to be done with a history that holds `s`, starting from `init`.
pub open spec fn verdict_of(s: Seq<ObservationView>, init: Option<Value>) -> Verdict {
    if !orderable(s) {
        Verdict::Malformed
    } else {
        match inferred(s, init) {
            Some(v) => Verdict::Publish(v),
            None => Verdict::Conflict,
        }
    }
}

/// How many observations at the head of `batch` have a well-formed interval,
/// counted up to the first that has not.
pub open spec fn sound_head(batch: Seq<ObservationView>) -> int
    decreases batch.len(),
{
    if batch.len() == 0 {
        0
    } else if sound_head(batch.drop_last()) < batch.len() - 1 {
        sound_head(batch.drop_last())
    } else if batch.last().wf() {
        batch.len() as int
    } else {
        batch.len() - 1
    }
}

/// One step of the coordinator. The pending observations are moved into the
/// history, and the value inferred from the whole history, starting from
/// `init_consensus`, decides what is published. An observation with a
/// malformed interval ends the step: it and those behind it are dropped. The
/// history is never reset.
pub fn coordinator(
    history: &mut History,
    init_consensus: Option<Value>,
    observations: &mut Vec<Observation>,
) -> (r: Verdict)
    requires
        old(history).wf(),
    ensures
        final(history).wf(),
        final(observations)@.len() == 0,
        final(history)@.to_multiset() == old(history)@.to_multiset().add(
            views(old(observations)@).take(sound_head(views(old(observations)@))).to_multiset(),
        ),
        well_formed(views(old(observations)@)) ==> sound_head(views(old(observations)@)) == old(
            observations,
        )@.len() && r == verdict_of(final(history)@, init_consensus),
        !well_formed(views(old(observations)@)) ==> r == Verdict::Malformed,
{
    let ghost pending = views(observations@);
    let mut i: usize = 0;
    let mut sound = true;
    proof {
        assert(pending.take(0) =~= Seq::<ObservationView>::empty());
        lemma_nothing_added(history@);
    }
    while sound && i < observations.len()
        invariant
            0 <= i <= observations.len(),
            pending == views(observations@),
            history.wf(),
            sound ==> sound_head(pending.take(i as int)) == i,
            !sound ==> i < pending.len() && sound_head(pending.take(i + 1)) == i,
            history@.to_multiset() == old(history)@.to_multiset().add(
                pending.take(i as int).to_multiset(),
            ),
        decreases observations.len() - i + (if sound { 1int } else { 0int }),
    {
        let observation = observations[i].clone();
        assert(observation@ == pending[i as int]);
        proof {
            assert(pending.take(i + 1).drop_last() =~= pending.take(i as int));
            assert(pending.take(i + 1).last() == pending[i as int]);
        }
        if observation.interval.0.0 <= observation.interval.1.0 {
            history.add_new(observation);
            proof {
                broadcast use vstd::seq_lib::group_to_multiset_ensures;

                assert(pending.take(i + 1) =~= pending.take(i as int).push(pending[i as int]));
                assert(history@.to_multiset() =~= old(history)@.to_multiset().add(
                    pending.take(i + 1).to_multiset(),
                ));
            }
            i += 1;
        } else {
            sound = false;
        }
    }
    proof {
        if sound {
            assert(pending.take(pending.len() as int) =~= pending);
            lemma_sound_head_all(pending);
        } else {
            lemma_sound_head_stops(pending, i as int, pending.len() as int);
            assert(pending.take(pending.len() as int) =~= pending);
            assert(!pending[i as int].wf());
        }
    }
    observations.clear();
    if !sound || !history.is_orderable() {
        return Verdict::Malformed;
    }
    match history.apply(init_consensus) {
        Some(v) => Verdict::Publish(v),
        None => Verdict::Conflict,
    }
}

/// To add nothing changes nothing.
proof fn lemma_nothing_added(s: Seq<ObservationView>)
    ensures
        s.to_multiset() == s.to_multiset().add(Seq::<ObservationView>::empty().to_multiset()),
{
    let none = Seq::<ObservationView>::empty();
    assert(s + none =~= s);
    vstd::seq_lib::lemma_multiset_commutative(s, none);
}

/// Where the whole head is sound, every observation is well formed.
proof fn lemma_sound_head_all(batch: Seq<ObservationView>)
    requires
        sound_head(batch) == batch.len(),
    ensures
        well_formed(batch),
    decreases batch.len(),
{
    if batch.len() > 0 {
        lemma_sound_head_bound(batch.drop_last());
        lemma_sound_head_all(batch.drop_last());
        assert forall|i: int| 0 <= i < batch.len() implies (#[trigger] batch[i]).wf() by {
            if i < batch.len() - 1 {
                assert(batch.drop_last()[i] == batch[i]);
            }
        }
    }
}

/// The sound head is a head.
proof fn lemma_sound_head_bound(batch: Seq<ObservationView>)
    ensures
        0 <= sound_head(batch) <= batch.len(),
    decreases batch.len(),
{
    if batch.len() > 0 {
        lemma_sound_head_bound(batch.drop_last());
    }
}

/// Behind the first malformed observation the sound head does not grow.
proof fn lemma_sound_head_stops(batch: Seq<ObservationView>, i: int, n: int)
    requires
        0 <= i < n <= batch.len(),
        sound_head(batch.take(i + 1)) == i,
    ensures
        sound_head(batch.take(n)) == i,
    decreases n - i,
{
    if n > i + 1 {
        lemma_sound_head_stops(batch, i, n - 1);
        assert(batch.take(n).drop_last() =~= batch.take(n - 1));
    }
}

} // verus!
