//! Writing the outcome of a batch of creation requests back to the ledger,
//! and what that guarantees of later reconciliations.

use vstd::prelude::*;

use crate::date::Date;
use crate::graphql::Error;
use crate::ledger::{
    entry_key, entry_record, lemma_missing_is_set_difference, recorded, Entry, Key, Ledger, Record,
};
use crate::reconcile::{lemma_work_ids_members, missing_for, work_ids, WorkItem};
use crate::schedule::Issue;

verus! {

/// The ledger after recording, in order, every success among `results`.
pub open spec fn applied(ledger: Map<Key, Record>, results: Seq<Result<Entry, Error>>) -> Map<
    Key,
    Record,
>
    decreases results.len(),
{
    if results.len() == 0 {
        ledger
    } else {
        let prev = applied(ledger, results.drop_last());
        match results.last() {
            Ok(e) => prev.insert(entry_key(e), entry_record(e)),
            Err(_) => prev,
        }
    }
}

/// The ledger entry for a work item whose creation request was answered
/// with `result` on `today`; the error where the request failed.
pub fn record_for(item: &WorkItem, result: Result<String, Error>, today: Date) -> (r: Result<
    Entry,
    Error,
>)
    ensures
        match result {
            Ok(id) => r == Ok::<Entry, Error>(
                Entry {
                    name: item.title,
                    issue_number: item.issue_number,
                    issue_id: id,
                    created: today,
                    due: item.due,
                },
            ),
            Err(e) => r == Err::<Entry, Error>(e),
        },
{
    match result {
        Ok(issue_id) => Ok(
            Entry {
                name: item.title.clone(),
                issue_number: item.issue_number,
                issue_id,
                created: today,
                due: item.due,
            },
        ),
        Err(e) => Err(e),
    }
}

/// Records every success among `results` in `ledger`, in order; failures
/// leave the ledger as it is.
pub fn record_results(ledger: &mut Ledger, results: &Vec<Result<Entry, Error>>)
    requires
        old(ledger).wf(),
    ensures
        final(ledger).wf(),
        final(ledger)@ == applied(old(ledger)@, results@),
{
    let mut i: usize = 0;
    while i < results.len()
        invariant
            0 <= i <= results.len(),
            ledger.wf(),
            ledger@ == applied(old(ledger)@, results@.subrange(0, i as int)),
        decreases results.len() - i,
    {
        proof {
            assert(results@.subrange(0, i + 1).drop_last() =~= results@.subrange(0, i as int));
        }
        match &results[i] {
            Ok(entry) => ledger.insert(entry.duplicate()),
            Err(_) => {},
        }
        i = i + 1;
    }
    proof {
        assert(results@.subrange(0, i as int) =~= results@);
    }
}

/// Recording a batch never loses a record, and records every success.
pub proof fn lemma_applied_keeps_keys(ledger: Map<Key, Record>, results: Seq<Result<Entry, Error>>)
    ensures
        forall|k: Key| ledger.contains_key(k) ==> #[trigger] applied(ledger, results).contains_key(k),
        forall|i: int|
            0 <= i < results.len() && (#[trigger] results[i]) is Ok ==> applied(
                ledger,
                results,
            ).contains_key(entry_key(results[i]->Ok_0)),
    decreases results.len(),
{
    if results.len() > 0 {
        lemma_applied_keeps_keys(ledger, results.drop_last());
        assert forall|k: Key| ledger.contains_key(k) implies #[trigger] applied(
            ledger,
            results,
        ).contains_key(k) by {
            assert(applied(ledger, results.drop_last()).contains_key(k));
        }
        assert forall|i: int|
            0 <= i < results.len() && (#[trigger] results[i]) is Ok implies applied(
                ledger,
                results,
            ).contains_key(entry_key(results[i]->Ok_0)) by {
            if i < results.len() - 1 {
                assert(results.drop_last()[i] == results[i]);
            }
        }
    }
}

/// A key that no success of the batch carries is recorded afterwards only
/// where it was recorded before.
proof fn lemma_applied_other_keys(
    ledger: Map<Key, Record>,
    results: Seq<Result<Entry, Error>>,
    k: Key,
)
    requires
        forall|i: int|
            0 <= i < results.len() && (#[trigger] results[i]) is Ok ==> entry_key(results[i]->Ok_0)
                != k,
    ensures
        applied(ledger, results).contains_key(k) == ledger.contains_key(k),
    decreases results.len(),
{
    if results.len() > 0 {
        assert forall|i: int|
            0 <= i < results.drop_last().len() && (#[trigger] results.drop_last()[i]) is Ok implies entry_key(
            results.drop_last()[i]->Ok_0) != k by {
            assert(results.drop_last()[i] == results[i]);
        }
        lemma_applied_other_keys(ledger, results.drop_last(), k);
        assert(results.last() == results[results.len() - 1]);
    }
}

/// Reconciling again with the same day, after a batch in which nothing was
/// created (or no batch at all), gives the same work list: the ledger is
/// unchanged.
pub proof fn lemma_reconcile_idempotent(
    issues: Seq<(String, Issue)>,
    ledger: Map<Key, Record>,
    results: Seq<Result<Entry, Error>>,
    today: Date,
)
    requires
        forall|i: int| 0 <= i < results.len() ==> (#[trigger] results[i]) is Err,
    ensures
        applied(ledger, results) == ledger,
        work_ids(issues, applied(ledger, results), today) == work_ids(issues, ledger, today),
    decreases results.len(),
{
    if results.len() > 0 {
        assert forall|i: int| 0 <= i < results.drop_last().len() implies (
        #[trigger] results.drop_last()[i]) is Err by {
            assert(results.drop_last()[i] == results[i]);
        }
        lemma_reconcile_idempotent(issues, ledger, results.drop_last(), today);
        assert(results.last() == results[results.len() - 1]);
    }
}

/// Once a batch has created occurrence `n` of a schedule, no later
/// reconciliation, on any day and after any further batches, lists that
/// occurrence again.
pub proof fn lemma_no_duplicate_creation(
    issues: Seq<(String, Issue)>,
    ledger: Map<Key, Record>,
    results: Seq<Result<Entry, Error>>,
    later: Seq<Result<Entry, Error>>,
    today: Date,
    i: int,
)
    requires
        0 <= i < results.len(),
        results[i] is Ok,
    ensures
        forall|k: int|
            0 <= k < work_ids(issues, applied(applied(ledger, results), later), today).len() ==> {
                let id = #[trigger] work_ids(issues, applied(applied(ledger, results), later), today)[k];
                !(issues[id.0].0@ == results[i]->Ok_0.name@ && id.1 == results[i]->Ok_0.issue_number)
            },
{
    let e = results[i]->Ok_0;
    let after = applied(applied(ledger, results), later);
    let ids = work_ids(issues, after, today);
    lemma_applied_keeps_keys(ledger, results);
    lemma_applied_keeps_keys(applied(ledger, results), later);
    assert(after.contains_key(entry_key(e)));
    assert forall|k: int| 0 <= k < ids.len() implies {
        let id = #[trigger] ids[k];
        !(issues[id.0].0@ == e.name@ && id.1 == e.issue_number)
    } by {
        let id = ids[k];
        assert(ids.contains(id));
        lemma_work_ids_members(issues, after, today, id.0, id.1);
        let sched = issues[id.0];
        lemma_missing_is_set_difference(recorded(after, sched.0@), sched.1.due_index(today));
        if sched.0@ == e.name@ && id.1 == e.issue_number {
            assert(recorded(after, sched.0@).contains(id.1));
        }
    }
}

/// After a batch in which occurrence `n` of schedule `name` failed (and no
/// success carried it), the ledger records every success but not `n`, and
/// the next reconciliation lists `n` again for each schedule of that name
/// under which it is due, and lists none of the batch's successes.
pub proof fn lemma_partial_failure_recovery(
    issues: Seq<(String, Issue)>,
    ledger: Map<Key, Record>,
    results: Seq<Result<Entry, Error>>,
    today: Date,
    name: Seq<char>,
    n: u32,
)
    requires
        !ledger.contains_key((name, n)),
        forall|i: int|
            0 <= i < results.len() && (#[trigger] results[i]) is Ok ==> entry_key(results[i]->Ok_0)
                != (name, n),
    ensures
        !applied(ledger, results).contains_key((name, n)),
        forall|i: int|
            0 <= i < results.len() && (#[trigger] results[i]) is Ok ==> applied(
                ledger,
                results,
            ).contains_key(entry_key(results[i]->Ok_0)),
        forall|j: int|
            0 <= j < issues.len() && (#[trigger] issues[j]).0@ == name && (match issues[j].1.due_index(
                today,
            ) {
                Some(c) => n <= c,
                None => false,
            }) ==> work_ids(issues, applied(ledger, results), today).contains((j, n)),
        forall|i: int, k: int|
            0 <= i < results.len() && (#[trigger] results[i]) is Ok && 0 <= k < work_ids(
                issues,
                applied(ledger, results),
                today,
            ).len() ==> {
                let id = #[trigger] work_ids(issues, applied(ledger, results), today)[k];
                !(issues[id.0].0@ == results[i]->Ok_0.name@ && id.1 == results[i]->Ok_0.issue_number)
            },
{
    let after = applied(ledger, results);
    assert(applied(after, Seq::<Result<Entry, Error>>::empty()) == after);
    assert forall|i: int, k: int|
        0 <= i < results.len() && (#[trigger] results[i]) is Ok && 0 <= k < work_ids(
            issues,
            after,
            today,
        ).len() implies {
        let id = #[trigger] work_ids(issues, after, today)[k];
        !(issues[id.0].0@ == results[i]->Ok_0.name@ && id.1 == results[i]->Ok_0.issue_number)
    } by {
        lemma_no_duplicate_creation(
            issues,
            ledger,
            results,
            Seq::<Result<Entry, Error>>::empty(),
            today,
            i,
        );
    }
    lemma_applied_keeps_keys(ledger, results);
    lemma_applied_other_keys(ledger, results, (name, n));
    assert forall|j: int|
        0 <= j < issues.len() && (#[trigger] issues[j]).0@ == name && (match issues[j].1.due_index(
            today,
        ) {
            Some(c) => n <= c,
            None => false,
        }) implies work_ids(issues, after, today).contains((j, n)) by {
        lemma_missing_is_set_difference(recorded(after, name), issues[j].1.due_index(today));
        assert(!recorded(after, name).contains(n));
        lemma_work_ids_members(issues, after, today, j, n);
    }
}

} // verus!
