//! The ledger: which occurrences of each named schedule have already been
//! created, with what the tracker returned for them.

use std::collections::HashSet;

use vstd::prelude::*;

use crate::date::Date;

verus! {

broadcast use vstd::std_specs::hash::group_hash_axioms;

/// A ledger key: schedule name and occurrence index.
pub type Key = (Seq<char>, u32);

/// What is recorded of one occurrence: remote issue id, creation date and
/// due date.
pub type Record = (Seq<char>, Date, Option<Date>);

/// One recorded occurrence of a named schedule.
#[derive(Debug, PartialEq, Eq)]
pub struct Entry {
    /// Name of the schedule.
    pub name: String,
    /// Index of the occurrence.
    pub issue_number: u32,
    /// Identifier that the tracker gave the created issue.
    pub issue_id: String,
    /// Day on which the issue was created.
    pub created: Date,
    /// Due date of the issue.
    pub due: Option<Date>,
}

/// The fields recorded for one occurrence, without its name and index.
#[derive(Debug, PartialEq, Eq)]
pub struct Data {
    /// Identifier that the tracker gave the created issue.
    pub issue_id: String,
    /// Day on which the issue was created.
    pub created: Date,
    /// Due date of the issue.
    pub due: Option<Date>,
}

/// The key under which an entry is recorded.
pub open spec fn entry_key(e: Entry) -> Key {
    (e.name@, e.issue_number)
}

/// What an entry records under its key.
pub open spec fn entry_record(e: Entry) -> Record {
    (e.issue_id@, e.created, e.due)
}

/// The ledger that results from recording the entries of `s` one after
/// another, a later entry replacing an earlier one under the same key.
pub open spec fn model_of(s: Seq<Entry>) -> Map<Key, Record>
    decreases s.len(),
{
    if s.len() == 0 {
        Map::empty()
    } else {
        model_of(s.drop_last()).insert(entry_key(s.last()), entry_record(s.last()))
    }
}

/// No two entries of `s` share a key.
pub open spec fn unique_keys(s: Seq<Entry>) -> bool {
    forall|i: int, j: int|
        0 <= i < j < s.len() ==> entry_key(#[trigger] s[i]) != entry_key(#[trigger] s[j])
}

/// The occurrence indices recorded under `name`.
pub open spec fn recorded(m: Map<Key, Record>, name: Seq<char>) -> Set<u32> {
    Set::new(|n: u32| m.contains_key((name, n)))
}

impl Entry {
    /// A copy of this entry.
    pub fn duplicate(&self) -> (r: Entry)
        ensures
            r == *self,
    {
        Entry {
            name: self.name.clone(),
            issue_number: self.issue_number,
            issue_id: self.issue_id.clone(),
            created: self.created,
            due: self.due,
        }
    }
}

/// A key is in the model of `s` exactly when some entry of `s` has it.
pub proof fn lemma_model_keys(s: Seq<Entry>, k: Key)
    ensures
        model_of(s).contains_key(k) <==> exists|i: int| 0 <= i < s.len() && entry_key(s[i]) == k,
    decreases s.len(),
{
    if s.len() > 0 {
        lemma_model_keys(s.drop_last(), k);
        if model_of(s.drop_last()).contains_key(k) {
            let i = choose|i: int| 0 <= i < s.drop_last().len() && entry_key(s.drop_last()[i]) == k;
            assert(entry_key(s[i]) == k);
        }
        if exists|i: int| 0 <= i < s.len() && entry_key(s[i]) == k {
            let i = choose|i: int| 0 <= i < s.len() && entry_key(s[i]) == k;
            if i < s.len() - 1 {
                assert(entry_key(s.drop_last()[i]) == k);
            }
        }
    }
}

/// In a key-unique sequence, each entry's record is what the model holds
/// under its key.
proof fn lemma_model_value(s: Seq<Entry>, i: int)
    requires
        unique_keys(s),
        0 <= i < s.len(),
    ensures
        model_of(s).contains_key(entry_key(s[i])),
        model_of(s)[entry_key(s[i])] == entry_record(s[i]),
    decreases s.len(),
{
    if i < s.len() - 1 {
        assert(s.drop_last()[i] == s[i]);
        lemma_model_value(s.drop_last(), i);
        assert(entry_key(s[i]) != entry_key(s.last()));
    }
}

/// Replacing an entry of a key-unique sequence by one with the same key
/// records the new entry under that key and changes nothing else.
proof fn lemma_model_update(s: Seq<Entry>, i: int, e: Entry)
    requires
        unique_keys(s),
        0 <= i < s.len(),
        entry_key(e) == entry_key(s[i]),
    ensures
        model_of(s.update(i, e)) == model_of(s).insert(entry_key(e), entry_record(e)),
    decreases s.len(),
{
    let u = s.update(i, e);
    if i == s.len() - 1 {
        assert(u.drop_last() =~= s.drop_last());
        assert(model_of(u) =~= model_of(s).insert(entry_key(e), entry_record(e)));
    } else {
        assert(u.drop_last() =~= s.drop_last().update(i, e));
        lemma_model_update(s.drop_last(), i, e);
        assert(entry_key(s[i]) != entry_key(s.last()));
        assert(model_of(u) =~= model_of(s).insert(entry_key(e), entry_record(e)));
    }
}

/// The durable record of created occurrences: for each schedule name, the
/// occurrence indices created so far and what was recorded for each.
#[derive(Debug, PartialEq, Eq)]
pub struct Ledger {
    entries: Vec<Entry>,
}

impl Default for Ledger {
    fn default() -> (r: Ledger)
        ensures
            r.wf(),
            r@ == Map::<Key, Record>::empty(),
    {
        Ledger::new()
    }
}

impl View for Ledger {
    type V = Map<Key, Record>;

    closed spec fn view(&self) -> Map<Key, Record> {
        model_of(self.entries@)
    }
}

impl Ledger {
    /// The ledger's entries hold each key at most once.
    pub closed spec fn wf(&self) -> bool {
        unique_keys(self.entries@)
    }

    /// The ledger's entries in the order in which they are kept.
    pub closed spec fn saved(&self) -> Seq<Entry> {
        self.entries@
    }

    /// An empty ledger: nothing has been created yet.
    pub fn new() -> (r: Ledger)
        ensures
            r.wf(),
            r@ == Map::<Key, Record>::empty(),
            r.saved() == Seq::<Entry>::empty(),
    {
        Ledger { entries: Vec::new() }
    }

    /// Records `entry`, replacing what was recorded under the same name and
    /// index.
    pub fn insert(&mut self, entry: Entry)
        requires
            old(self).wf(),
        ensures
            final(self).wf(),
            final(self)@ == old(self)@.insert(entry_key(entry), entry_record(entry)),
            !old(self)@.contains_key(entry_key(entry)) ==> final(self).saved() == old(
                self,
            ).saved().push(entry),
    {
        let mut i: usize = 0;
        while i < self.entries.len()
            invariant
                0 <= i <= self.entries.len(),
                self.entries@ == old(self).entries@,
                unique_keys(self.entries@),
                forall|j: int| 0 <= j < i ==> entry_key(#[trigger] self.entries@[j]) != entry_key(
                    entry,
                ),
            decreases self.entries.len() - i,
        {
            if self.entries[i].issue_number == entry.issue_number && self.entries[i].name
                == entry.name {
                proof {
                    lemma_model_update(self.entries@, i as int, entry);
                    lemma_model_keys(self.entries@, entry_key(entry));
                    assert(entry_key(self.entries@[i as int]) == entry_key(entry));
                }
                let ghost before = self.entries@;
                self.entries.set(i, entry);
                proof {
                    assert(self.entries@ == before.update(i as int, entry));
                    assert(unique_keys(self.entries@)) by {
                        assert forall|a: int, b: int| 0 <= a < b < self.entries@.len() implies entry_key(
                            #[trigger] self.entries@[a],
                        ) != entry_key(#[trigger] self.entries@[b]) by {
                            assert(entry_key(before[a]) != entry_key(before[b]));
                        }
                    }
                }
                return ;
            }
            i = i + 1;
        }
        let ghost before = self.entries@;
        self.entries.push(entry);
        proof {
            lemma_model_keys(before, entry_key(entry));
            assert(self.entries@.drop_last() =~= before);
            assert(unique_keys(self.entries@)) by {
                assert forall|a: int, b: int| 0 <= a < b < self.entries@.len() implies entry_key(
                    #[trigger] self.entries@[a],
                ) != entry_key(#[trigger] self.entries@[b]) by {
                    if b < before.len() {
                        assert(entry_key(before[a]) != entry_key(before[b]));
                    } else {
                        assert(entry_key(before[a]) != entry_key(entry));
                    }
                }
            }
        }
    }

    /// Whether occurrence `number` of schedule `name` is recorded.
    pub fn contains(&self, name: &str, number: u32) -> (r: bool)
        ensures
            r == self@.contains_key((name@, number)),
    {
        let wanted: String = name.to_owned();
        let mut i: usize = 0;
        while i < self.entries.len()
            invariant
                0 <= i <= self.entries.len(),
                wanted@ == name@,
                forall|j: int|
                    0 <= j < i ==> entry_key(#[trigger] self.entries@[j]) != (name@, number),
            decreases self.entries.len() - i,
        {
            if self.entries[i].issue_number == number && self.entries[i].name == wanted {
                proof {
                    assert(entry_key(self.entries@[i as int]) == (wanted@, number));
                    lemma_model_keys(self.entries@, (name@, number));
                }
                return true;
            }
            i = i + 1;
        }
        proof {
            lemma_model_keys(self.entries@, (name@, number));
        }
        false
    }

    /// What is recorded for occurrence `number` of schedule `name`, if
    /// anything.
    pub fn get(&self, name: &str, number: u32) -> (r: Option<Data>)
        requires
            self.wf(),
        ensures
            r is Some <==> self@.contains_key((name@, number)),
            r matches Some(d) ==> self@[(name@, number)] == (d.issue_id@, d.created, d.due),
    {
        let wanted: String = name.to_owned();
        let mut i: usize = 0;
        while i < self.entries.len()
            invariant
                0 <= i <= self.entries.len(),
                wanted@ == name@,
                unique_keys(self.entries@),
                forall|j: int|
                    0 <= j < i ==> entry_key(#[trigger] self.entries@[j]) != (name@, number),
            decreases self.entries.len() - i,
        {
            if self.entries[i].issue_number == number && self.entries[i].name == wanted {
                proof {
                    lemma_model_value(self.entries@, i as int);
                }
                let e = &self.entries[i];
                return Some(Data { issue_id: e.issue_id.clone(), created: e.created, due: e.due });
            }
            i = i + 1;
        }
        proof {
            lemma_model_keys(self.entries@, (name@, number));
        }
        None
    }

    /// The occurrence indices recorded for schedule `name`.
    pub fn numbers(&self, name: &str) -> (r: HashSet<u32>)
        ensures
            r@ == recorded(self@, name@),
    {
        let name: String = name.to_owned();
        let mut set: HashSet<u32> = HashSet::new();
        let mut i: usize = 0;
        while i < self.entries.len()
            invariant
                0 <= i <= self.entries.len(),
                forall|n: u32|
                    set@.contains(n) <==> exists|j: int|
                        0 <= j < i && #[trigger] entry_key(self.entries@[j]) == (name@, n),
            decreases self.entries.len() - i,
        {
            if self.entries[i].name == name {
                set.insert(self.entries[i].issue_number);
            }
            proof {
                assert forall|n: u32|
                    set@.contains(n) <==> exists|j: int|
                        0 <= j < i + 1 && #[trigger] entry_key(self.entries@[j]) == (name@, n) by {
                    if exists|j: int|
                        0 <= j < i + 1 && #[trigger] entry_key(self.entries@[j]) == (name@, n) {
                        let j = choose|j: int|
                            0 <= j < i + 1 && #[trigger] entry_key(self.entries@[j]) == (name@, n);
                        if j < i {
                            assert(set@.contains(n));
                        }
                    }
                    if set@.contains(n) && entry_key(self.entries@[i as int]) != (name@, n) {
                        let j = choose|j: int|
                            0 <= j < i && #[trigger] entry_key(self.entries@[j]) == (name@, n);
                        assert(0 <= j < i + 1);
                    }
                }
            }
            i = i + 1;
        }
        proof {
            assert forall|n: u32| set@.contains(n) <==> recorded(self@, name@).contains(n) by {
                lemma_model_keys(self.entries@, (name@, n));
            }
            assert(set@ =~= recorded(self@, name@));
        }
        set
    }

    /// The ledger's entries, one per recorded occurrence, for persisting.
    pub fn to_entries(&self) -> (r: Vec<Entry>)
        requires
            self.wf(),
        ensures
            r@ == self.saved(),
    {
        let mut out: Vec<Entry> = Vec::new();
        let mut i: usize = 0;
        while i < self.entries.len()
            invariant
                0 <= i <= self.entries.len(),
                out@ == self.entries@.subrange(0, i as int),
            decreases self.entries.len() - i,
        {
            out.push(self.entries[i].duplicate());
            i = i + 1;
            proof {
                assert(out@ =~= self.entries@.subrange(0, i as int));
            }
        }
        proof {
            assert(out@ =~= self.entries@);
        }
        out
    }

    /// The ledger that records `entries` one after another, a later entry
    /// replacing an earlier one with the same name and index.
    pub fn from_entries(entries: Vec<Entry>) -> (r: Ledger)
        ensures
            r.wf(),
            r@ == model_of(entries@),
            unique_keys(entries@) ==> r.saved() == entries@,
    {
        let mut ledger = Ledger::new();
        let mut i: usize = 0;
        while i < entries.len()
            invariant
                0 <= i <= entries.len(),
                ledger.wf(),
                ledger@ == model_of(entries@.subrange(0, i as int)),
                unique_keys(entries@) ==> ledger.saved() == entries@.subrange(0, i as int),
            decreases entries.len() - i,
        {
            let ghost prefix = entries@.subrange(0, i as int);
            proof {
                assert(entries@.subrange(0, i + 1).drop_last() =~= prefix);
                lemma_model_keys(prefix, entry_key(entries@[i as int]));
                if unique_keys(entries@) {
                    assert forall|j: int| 0 <= j < prefix.len() implies entry_key(prefix[j])
                        != entry_key(entries@[i as int]) by {
                        assert(entry_key(entries@[j]) != entry_key(entries@[i as int]));
                    }
                }
            }
            ledger.insert(entries[i].duplicate());
            i = i + 1;
            proof {
                assert(entries@.subrange(0, i as int) =~= prefix.push(entries@[i - 1]));
            }
        }
        proof {
            assert(entries@.subrange(0, i as int) =~= entries@);
        }
        ledger
    }

    /// The occurrence indices up to and including `current_issue` that are
    /// not recorded for schedule `name`, in ascending order.
    pub fn missing_issues(&self, name: &str, current_issue: Option<u32>) -> (r: Vec<u32>)
        ensures
            r@ == missing_spec(recorded(self@, name@), current_issue),
    {
        let already_issued = self.numbers(name);
        missing_issue_numbers(&already_issued, current_issue)
    }
}

/// Indices below `k` that are not in `set`, ascending.
pub open spec fn missing_below(set: Set<u32>, k: nat) -> Seq<u32>
    decreases k,
{
    if k == 0 {
        Seq::empty()
    } else {
        let prev = missing_below(set, (k - 1) as nat);
        if set.contains((k - 1) as u32) {
            prev
        } else {
            prev.push((k - 1) as u32)
        }
    }
}

/// Indices from 0 up to and including `current` that are not in `set`,
/// ascending; nothing where no occurrence is current.
pub open spec fn missing_spec(set: Set<u32>, current: Option<u32>) -> Seq<u32> {
    match current {
        None => Seq::empty(),
        Some(c) => missing_below(set, c as nat + 1),
    }
}

/// Finds all indices up to and including `current_issue` that have not
/// already been issued, in ascending order.
pub fn missing_issue_numbers(already_issued: &HashSet<u32>, current_issue: Option<u32>) -> (r:
    Vec<u32>)
    ensures
        r@ == missing_spec(already_issued@, current_issue),
{
    let mut out: Vec<u32> = Vec::new();
    match current_issue {
        None => out,
        Some(current) => {
            let mut n: u64 = 0;
            while n <= current as u64
                invariant
                    n <= current as u64 + 1,
                    out@ == missing_below(already_issued@, n as nat),
                decreases current as u64 + 1 - n,
            {
                let k: u32 = n as u32;
                if !already_issued.contains(&k) {
                    out.push(k);
                }
                n = n + 1;
            }
            out
        },
    }
}

/// Elements of `missing_below(set, k)` are exactly the indices below `k`
/// not in `set`, and they strictly ascend.
proof fn lemma_missing_below(set: Set<u32>, k: nat)
    requires
        k <= u32::MAX as nat + 1,
    ensures
        forall|n: u32| #[trigger]
            missing_below(set, k).contains(n) <==> (n < k && !set.contains(n)),
        forall|i: int, j: int|
            0 <= i < j < missing_below(set, k).len() ==> missing_below(set, k)[i]
                < missing_below(set, k)[j],
        forall|i: int| 0 <= i < missing_below(set, k).len() ==> missing_below(set, k)[i] < k,
    decreases k,
{
    if k > 0 {
        lemma_missing_below(set, (k - 1) as nat);
        let prev = missing_below(set, (k - 1) as nat);
        let m = (k - 1) as u32;
        if !set.contains(m) {
            let cur = prev.push(m);
            assert forall|n: u32| #[trigger] cur.contains(n) <==> (n < k && !set.contains(n)) by {
                if cur.contains(n) {
                    let i = choose|i: int| 0 <= i < cur.len() && cur[i] == n;
                    if i < prev.len() {
                        assert(prev[i] == n);
                        assert(prev.contains(n));
                    }
                }
                if n < k && !set.contains(n) {
                    if n == m {
                        assert(cur[prev.len() as int] == n);
                    } else {
                        assert(prev.contains(n));
                        let i = choose|i: int| 0 <= i < prev.len() && prev[i] == n;
                        assert(cur[i] == n);
                    }
                }
            }
        }
    }
}

/// What `missing_issues` and `missing_issue_numbers` return is exactly the
/// indices from 0 to the current one (none where there is no current one)
/// that are not already issued, each once, in strictly ascending order.
pub proof fn lemma_missing_is_set_difference(already_issued: Set<u32>, current: Option<u32>)
    ensures
        forall|n: u32| #[trigger]
            missing_spec(already_issued, current).contains(n) <==> (match current {
                Some(c) => n <= c && !already_issued.contains(n),
                None => false,
            }),
        forall|i: int, j: int|
            0 <= i < j < missing_spec(already_issued, current).len() ==> missing_spec(
                already_issued,
                current,
            )[i] < missing_spec(already_issued, current)[j],
        current is None ==> missing_spec(already_issued, current).len() == 0,
{
    if let Some(c) = current {
        lemma_missing_below(already_issued, c as nat + 1);
    }
}

/// Saving a ledger as its entries and loading those entries back gives the
/// same ledger: the entries hold each key once and record exactly the
/// ledger's contents.
pub proof fn lemma_round_trip(ledger: &Ledger)
    requires
        ledger.wf(),
    ensures
        unique_keys(ledger.saved()),
        model_of(ledger.saved()) == ledger@,
{
}

} // verus!
