//! The object stream worker: it walks every object row, applies one
//! action per object (an integrity check or an archive copy), and folds
//! each verdict into the progress counters and the error records.
//!
//! The actions themselves touch the outside world, so the worker takes
//! their verdicts as values: one outcome per object, in stream order.

use crate::model::ObjectError;
use crate::progress::{records_view, Progress, MAX_ERRORS};
use vstd::prelude::*;

verus! {

/// What one per-object action reported: success, or a failure message.
#[derive(Debug)]
pub struct ActionOutcome {
    pub id: u128,
    pub verdict: Result<(), String>,
}

/// The error record an outcome produces: the failure message, or an empty
/// message that clears the object's stored error.
pub open spec fn spec_outcome_msg(o: ActionOutcome) -> Seq<char> {
    match o.verdict {
        Ok(_) => Seq::<char>::empty(),
        Err(m) => m@,
    }
}

/// The records a run of outcomes produces, in order.
pub open spec fn outcome_records(os: Seq<ActionOutcome>) -> Seq<(u128, Seq<char>)> {
    os.map_values(|o: ActionOutcome| (o.id, spec_outcome_msg(o)))
}

/// How many outcomes failed.
pub open spec fn count_failures(os: Seq<ActionOutcome>) -> int
    decreases os.len(),
{
    if os.len() == 0 {
        0
    } else {
        count_failures(os.drop_last()) + if os.last().verdict is Err {
            1int
        } else {
            0int
        }
    }
}

pub proof fn lemma_count_failures_bounds(os: Seq<ActionOutcome>)
    ensures
        0 <= count_failures(os) <= os.len(),
    decreases os.len(),
{
    if os.len() > 0 {
        lemma_count_failures_bounds(os.drop_last());
    }
}

/// Folds one action's verdict into the progress: a failure counts an
/// error and buffers its message, a success buffers a clearing record;
/// either way one more object is completed. A batch is handed back
/// exactly when the buffer overflowed.
pub fn process_object(progress: &mut Progress, outcome: &ActionOutcome) -> (r: Vec<ObjectError>)
    requires
        old(progress).wf(),
        old(progress).spec_completed() < old(progress).spec_total(),
    ensures
        final(progress).wf(),
        final(progress).spec_completed() == old(progress).spec_completed() + 1,
        final(progress).spec_errors() == old(progress).spec_errors() + if outcome.verdict is Err {
            1int
        } else {
            0int
        },
        final(progress).spec_started() == old(progress).spec_started(),
        final(progress).spec_ended() == old(progress).spec_ended(),
        final(progress).spec_total() == old(progress).spec_total(),
        ({
            let appended = records_view(old(progress).spec_messages()).push(
                (outcome.id, spec_outcome_msg(*outcome)),
            );
            if appended.len() > MAX_ERRORS {
                final(progress).spec_messages() == Seq::<ObjectError>::empty() && records_view(
                    r@,
                ) == appended
            } else {
                records_view(final(progress).spec_messages()) == appended && r@ == Seq::<
                    ObjectError,
                >::empty()
            }
        }),
{
    let batch = match &outcome.verdict {
        Ok(_) => progress.clear_error(outcome.id),
        Err(m) => progress.error(outcome.id, m.clone()),
    };
    progress.increment();
    batch
}

/// Runs a whole stream of action outcomes against a fresh progress:
/// every outcome is completed, every failure is counted, and the full
/// record sequence (one record per object, in stream order) is returned
/// for the flush to the metadata store.
pub fn run_object_stream(progress: &mut Progress, outcomes: &Vec<ActionOutcome>) -> (r: Vec<
    ObjectError,
>)
    requires
        old(progress).wf(),
        old(progress).spec_completed() + outcomes@.len() <= old(progress).spec_total(),
        old(progress).spec_messages() == Seq::<ObjectError>::empty(),
    ensures
        final(progress).wf(),
        final(progress).spec_completed() == old(progress).spec_completed() + outcomes@.len(),
        final(progress).spec_errors() == old(progress).spec_errors() + count_failures(outcomes@),
        final(progress).spec_messages() == Seq::<ObjectError>::empty(),
        final(progress).spec_started() == old(progress).spec_started(),
        final(progress).spec_ended() == old(progress).spec_ended(),
        final(progress).spec_total() == old(progress).spec_total(),
        records_view(r@) == outcome_records(outcomes@),
{
    let mut out: Vec<ObjectError> = Vec::new();
    let mut i: usize = 0;
    proof {
        assert(outcomes@.take(0) =~= Seq::<ActionOutcome>::empty());
        assert(records_view(out@) + records_view(progress.spec_messages()) =~= outcome_records(
            outcomes@.take(0),
        ));
    }
    while i < outcomes.len()
        invariant
            progress.wf(),
            i <= outcomes@.len(),
            progress.spec_completed() == old(progress).spec_completed() + i,
            progress.spec_completed() + (outcomes@.len() - i) <= progress.spec_total(),
            progress.spec_errors() == old(progress).spec_errors() + count_failures(
                outcomes@.take(i as int),
            ),
            progress.spec_started() == old(progress).spec_started(),
            progress.spec_ended() == old(progress).spec_ended(),
            progress.spec_total() == old(progress).spec_total(),
            records_view(out@) + records_view(progress.spec_messages()) == outcome_records(
                outcomes@.take(i as int),
            ),
        decreases outcomes@.len() - i,
    {
        proof {
            assert(outcomes@.take(i + 1).drop_last() =~= outcomes@.take(i as int));
            assert(outcomes@.take(i + 1).last() == outcomes@[i as int]);
            lemma_count_failures_bounds(outcomes@.take(i as int));
        }
        let ghost out_before = out@;
        let ghost buf_before = progress.spec_messages();
        let mut batch = process_object(progress, &outcomes[i]);
        out.append(&mut batch);
        proof {
            let rec = (outcomes@[i as int].id, spec_outcome_msg(outcomes@[i as int]));
            let appended = records_view(buf_before).push(rec);
            assert(outcome_records(outcomes@.take(i + 1)) =~= outcome_records(
                outcomes@.take(i as int),
            ).push(rec));
            if appended.len() > MAX_ERRORS {
                assert(records_view(out@) =~= records_view(out_before) + appended);
                assert(records_view(out@) + records_view(progress.spec_messages())
                    =~= outcome_records(outcomes@.take(i + 1)));
            } else {
                assert(out@ =~= out_before);
                assert(records_view(progress.spec_messages()) =~= appended);
                assert(records_view(out@) + records_view(progress.spec_messages())
                    =~= outcome_records(outcomes@.take(i + 1)));
            }
        }
        i = i + 1;
    }
    let ghost buffered = progress.spec_messages();
    let mut rest = progress.messages();
    let ghost out_before = out@;
    out.append(&mut rest);
    proof {
        assert(outcomes@.take(outcomes@.len() as int) =~= outcomes@);
        lemma_count_failures_bounds(outcomes@);
        assert(records_view(out@) =~= records_view(out_before) + records_view(buffered));
        assert(records_view(out@) =~= outcome_records(outcomes@));
    }
    out
}

} // verus!
