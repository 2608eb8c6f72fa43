//! Reconciliation: from the schedules, the ledger and a day, the ordered list
//! of occurrences that still have to be created.

use vstd::prelude::*;

use crate::date::Date;
use crate::ledger::{missing_spec, recorded, Key, Ledger, Record};
use crate::schedule::Issue;

verus! {

/// One occurrence to create, with what its creation request needs.
#[derive(Debug)]
pub struct WorkItem {
    /// Index of the occurrence.
    pub issue_number: u32,
    /// Name of the schedule, used as the issue's title.
    pub title: String,
    /// Path of the project to create the issue in.
    pub project_path: String,
    /// Name of the template that renders the description.
    pub template: String,
    /// Arguments for the template, as the text of a JSON object.
    pub template_args: String,
    /// Due date of the occurrence.
    pub due: Option<Date>,
    /// Labels of the issue.
    pub labels: Vec<String>,
}

/// The due date that a work item for occurrence `n` carries: none only where
/// the date is out of the representable range.
pub open spec fn due_of(issue: Issue, n: u32) -> Option<Date> {
    if issue.due_fits(n) {
        Some(Date { day: issue.due_day(n) as i32 })
    } else {
        None
    }
}

/// `w` is the work item for occurrence `n` of schedule `name`.
pub open spec fn describes(w: WorkItem, name: String, issue: Issue, n: u32) -> bool {
    &&& w.issue_number == n
    &&& w.title@ == name@
    &&& w.project_path@ == issue.project@
    &&& w.template@ == issue.template@
    &&& w.template_args@ == issue.template_args@
    &&& w.labels@ == issue.labels@
    &&& w.due == due_of(issue, n)
}

/// The occurrences of schedule `name` that are due on `today` and not yet
/// recorded, ascending.
pub open spec fn missing_for(ledger: Map<Key, Record>, name: String, issue: Issue, today: Date) -> Seq<
    u32,
> {
    missing_spec(recorded(ledger, name@), issue.due_index(today))
}

/// The work list as pairs (position of the schedule in `issues`, occurrence
/// index): each schedule's missing occurrences in ascending order, the
/// schedules in the order given.
pub open spec fn work_ids(issues: Seq<(String, Issue)>, ledger: Map<Key, Record>, today: Date) -> Seq<
    (int, u32),
>
    decreases issues.len(),
{
    if issues.len() == 0 {
        Seq::empty()
    } else {
        let last = issues.len() - 1;
        work_ids(issues.drop_last(), ledger, today) + missing_for(
            ledger,
            issues[last].0,
            issues[last].1,
            today,
        ).map_values(|n: u32| (last, n))
    }
}

/// No two schedules in the list share a name.
pub open spec fn distinct_names(issues: Seq<(String, Issue)>) -> bool {
    forall|i: int, j: int|
        0 <= i < j < issues.len() ==> (#[trigger] issues[i]).0@ != (#[trigger] issues[j]).0@
}

/// Every schedule in the list is well formed.
pub open spec fn all_wf(issues: Seq<(String, Issue)>) -> bool {
    forall|i: int| 0 <= i < issues.len() ==> (#[trigger] issues[i]).1.wf()
}

/// A copy of a list of strings.
fn copy_strings(v: &Vec<String>) -> (r: Vec<String>)
    ensures
        r@ == v@,
{
    let mut out: Vec<String> = Vec::new();
    let mut i: usize = 0;
    while i < v.len()
        invariant
            0 <= i <= v.len(),
            out@ == v@.subrange(0, i as int),
        decreases v.len() - i,
    {
        out.push(v[i].clone());
        i = i + 1;
        proof {
            assert(out@ =~= v@.subrange(0, i as int));
        }
    }
    proof {
        assert(out@ =~= v@);
    }
    out
}

/// The due date that the work item for occurrence `n` carries.
fn due_for(issue: &Issue, n: u32) -> (r: Option<Date>)
    requires
        issue.wf(),
    ensures
        r == due_of(*issue, n),
{
    let t: u128 = issue.tempo.seconds as u128;
    assert(t * n <= 0x1_0000_0000_0000_0000 * 0x1_0000_0000) by (nonlinear_arith)
        requires
            t <= 0x1_0000_0000_0000_0000,
            n <= 0x1_0000_0000,
    ;
    let days: u128 = (t * (n as u128)) / 86400;
    if days <= 0x1_0000_0000 {
        let day: i128 = issue.start.day as i128 + days as i128;
        if i32::MIN as i128 <= day && day <= i32::MAX as i128 {
            return Some(issue.due_date(n));
        }
    }
    None
}

/// Appends to `out` the work items for the occurrences of schedule `name`
/// that are due on `date` and not recorded in `ledger`, ascending.
pub fn issues_to_create_for_name(
    date: Date,
    ledger: &Ledger,
    name: &String,
    issue: &Issue,
    out: &mut Vec<WorkItem>,
)
    requires
        issue.wf(),
    ensures
        final(out).len() == old(out).len() + missing_for(ledger@, *name, *issue, date).len(),
        forall|k: int| 0 <= k < old(out).len() ==> final(out)@[k] == old(out)@[k],
        forall|k: int|
            0 <= k < missing_for(ledger@, *name, *issue, date).len() ==> describes(
                #[trigger] final(out)@[old(out).len() + k],
                *name,
                *issue,
                missing_for(ledger@, *name, *issue, date)[k],
            ),
{
    let current_issue = issue.most_recent_issue(date);
    let missing = ledger.missing_issues(name.as_str(), current_issue);
    let ghost start = out@;
    let mut k: usize = 0;
    while k < missing.len()
        invariant
            0 <= k <= missing.len(),
            issue.wf(),
            missing@ == missing_for(ledger@, *name, *issue, date),
            out.len() == start.len() + k,
            forall|j: int| 0 <= j < start.len() ==> out@[j] == start[j],
            forall|j: int|
                0 <= j < k ==> describes(#[trigger] out@[start.len() + j], *name, *issue, missing@[j]),
        decreases missing.len() - k,
    {
        let n = missing[k];
        let item = WorkItem {
            issue_number: n,
            title: name.clone(),
            project_path: issue.project.clone(),
            template: issue.template.clone(),
            template_args: issue.template_args.clone(),
            due: due_for(issue, n),
            labels: copy_strings(&issue.labels),
        };
        let ghost prev = out@;
        out.push(item);
        proof {
            assert forall|j: int| 0 <= j < k + 1 implies describes(
                #[trigger] out@[start.len() + j],
                *name,
                *issue,
                missing@[j],
            ) by {
                if j < k {
                    assert(out@[start.len() + j] == prev[start.len() + j]);
                }
            }
        }
        k = k + 1;
    }
}

/// The work list grows schedule by schedule.
proof fn lemma_work_ids_step(issues: Seq<(String, Issue)>, i: int, ledger: Map<Key, Record>, today: Date)
    requires
        0 <= i < issues.len(),
    ensures
        work_ids(issues.subrange(0, i + 1), ledger, today) == work_ids(issues.subrange(0, i), ledger, today)
            + missing_for(ledger, issues[i].0, issues[i].1, today).map_values(|n: u32| (i, n)),
{
    assert(issues.subrange(0, i + 1).drop_last() =~= issues.subrange(0, i));
}

/// The work list holds the pair (schedule `j`, occurrence `n`) exactly when
/// `n` is among schedule `j`'s missing occurrences.
pub proof fn lemma_work_ids_members(
    issues: Seq<(String, Issue)>,
    ledger: Map<Key, Record>,
    today: Date,
    j: int,
    n: u32,
)
    ensures
        work_ids(issues, ledger, today).contains((j, n)) <==> (0 <= j < issues.len()
            && missing_for(ledger, issues[j].0, issues[j].1, today).contains(n)),
    decreases issues.len(),
{
    if issues.len() > 0 {
        let last = issues.len() - 1;
        let init = issues.drop_last();
        lemma_work_ids_members(init, ledger, today, j, n);
        let head = work_ids(init, ledger, today);
        let miss = missing_for(ledger, issues[last].0, issues[last].1, today);
        let tail = miss.map_values(|m: u32| (last, m));
        let all = work_ids(issues, ledger, today);
        assert(all == head + tail);
        if all.contains((j, n)) {
            let p = choose|p: int| 0 <= p < all.len() && all[p] == (j, n);
            if p < head.len() {
                assert(head[p] == (j, n));
                assert(head.contains((j, n)));
                assert(init[j] == issues[j]);
            } else {
                let q = p - head.len();
                assert(tail[q] == (j, n));
                assert(miss[q] == n);
                assert(miss.contains(n));
            }
        }
        if 0 <= j < issues.len() && missing_for(ledger, issues[j].0, issues[j].1, today).contains(n) {
            if j < last {
                assert(init[j] == issues[j]);
                assert(head.contains((j, n)));
                let p = choose|p: int| 0 <= p < head.len() && head[p] == (j, n);
                assert(all[p] == (j, n));
            } else {
                let q = choose|q: int| 0 <= q < miss.len() && miss[q] == n;
                assert(tail[q] == (j, n));
                assert(all[head.len() + q] == (j, n));
            }
        }
    }
}

/// The full work list on `date`: for each schedule in the order given, the
/// work items of its due occurrences that `ledger` does not record.
pub fn issues_to_create(date: Date, ledger: &Ledger, issues: &Vec<(String, Issue)>) -> (r: Vec<
    WorkItem,
>)
    requires
        all_wf(issues@),
        distinct_names(issues@),
    ensures
        r.len() == work_ids(issues@, ledger@, date).len(),
        forall|k: int|
            0 <= k < r.len() ==> describes(
                #[trigger] r[k],
                issues@[work_ids(issues@, ledger@, date)[k].0].0,
                issues@[work_ids(issues@, ledger@, date)[k].0].1,
                work_ids(issues@, ledger@, date)[k].1,
            ),
        forall|j: int, n: u32|
            0 <= j < issues@.len() ==> ((exists|k: int|
                0 <= k < r.len() && #[trigger] r[k].title@ == issues@[j].0@ && r[k].issue_number
                    == n) <==> missing_for(ledger@, issues@[j].0, issues@[j].1, date).contains(n)),
{
    let mut out: Vec<WorkItem> = Vec::new();
    let mut i: usize = 0;
    while i < issues.len()
        invariant
            0 <= i <= issues.len(),
            all_wf(issues@),
            out.len() == work_ids(issues@.subrange(0, i as int), ledger@, date).len(),
            forall|k: int|
                0 <= k < out.len() ==> describes(
                    #[trigger] out[k],
                    issues@[work_ids(issues@.subrange(0, i as int), ledger@, date)[k].0].0,
                    issues@[work_ids(issues@.subrange(0, i as int), ledger@, date)[k].0].1,
                    work_ids(issues@.subrange(0, i as int), ledger@, date)[k].1,
                ),
        decreases issues.len() - i,
    {
        let ghost before = out@;
        let ghost ids = work_ids(issues@.subrange(0, i as int), ledger@, date);
        assert(issues@[i as int].1.wf());
        issues_to_create_for_name(date, ledger, &issues[i].0, &issues[i].1, &mut out);
        proof {
            lemma_work_ids_step(issues@, i as int, ledger@, date);
            let next = work_ids(issues@.subrange(0, i + 1), ledger@, date);
            let miss = missing_for(ledger@, issues@[i as int].0, issues@[i as int].1, date);
            assert forall|k: int| 0 <= k < out.len() implies describes(
                #[trigger] out[k],
                issues@[next[k].0].0,
                issues@[next[k].0].1,
                next[k].1,
            ) by {
                if k < before.len() {
                    assert(next[k] == ids[k]);
                    assert(out@[k] == before[k]);
                } else {
                    let m = k - before.len();
                    assert(next[k] == (i as int, miss[m]));
                    assert(out@[before.len() + m] == out[k]);
                }
            }
        }
        i = i + 1;
    }
    proof {
        assert(issues@.subrange(0, i as int) =~= issues@);
        let ids = work_ids(issues@, ledger@, date);
        assert forall|j: int, n: u32| 0 <= j < issues@.len() implies ((exists|k: int|
            0 <= k < out.len() && #[trigger] out[k].title@ == issues@[j].0@ && out[k].issue_number
                == n) <==> missing_for(ledger@, issues@[j].0, issues@[j].1, date).contains(n)) by {
            lemma_work_ids_members(issues@, ledger@, date, j, n);
            if exists|k: int|
                0 <= k < out.len() && #[trigger] out[k].title@ == issues@[j].0@ && out[k].issue_number
                    == n {
                let k = choose|k: int|
                    0 <= k < out.len() && #[trigger] out[k].title@ == issues@[j].0@
                        && out[k].issue_number == n;
                let id = ids[k];
                lemma_work_ids_members(issues@, ledger@, date, id.0, id.1);
                assert(ids.contains(id));
                assert(id.0 == j) by {
                    if id.0 < j {
                        assert(issues@[id.0].0@ != issues@[j].0@);
                    } else if id.0 > j {
                        assert(issues@[j].0@ != issues@[id.0].0@);
                    }
                }
                assert(id == (j, n));
            }
            if missing_for(ledger@, issues@[j].0, issues@[j].1, date).contains(n) {
                assert(ids.contains((j, n)));
                let k = choose|k: int| 0 <= k < ids.len() && ids[k] == (j, n);
                assert(out[k].title@ == issues@[j].0@ && out[k].issue_number == n);
            }
        }
    }
    out
}

} // verus!
