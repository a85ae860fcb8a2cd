//! Completion logs: the history of one task, kept as a strictly ordered
//! sequence of records, and the union of two such histories.

use crate::amount::{Amount, ONE_BITS};
use crate::ident::TaskID;
use crate::seqs::lemma_push_holds;
use crate::time::{Duration, UnixTime};
use crate::utils::{is_seconds, number, numeral, secs_as_str, str_as_secs};
use std::collections::HashMap;
use vstd::prelude::*;

verus! {

broadcast use vstd::std_specs::hash::group_hash_axioms;

/// One completion of a task: when it happened and how many units it covered.
#[derive(Clone, Copy, Debug, PartialEq, Eq, Structural)]
pub struct LogRecord {
    pub time: UnixTime,
    pub units: Amount,
}

impl LogRecord {
    /// Strict order of records: by time, then by the bits of the units.
    pub open spec fn precedes(self, other: LogRecord) -> bool {
        self.time.lt(other.time) || (self.time == other.time && self.units.0 < other.units.0)
    }

    /// Of two records exactly one precedes the other, unless they are equal.
    pub proof fn lemma_trichotomy(a: LogRecord, b: LogRecord)
        ensures
            a.precedes(b) || b.precedes(a) || a == b,
            !(a.precedes(b) && b.precedes(a)),
            !a.precedes(a),
    {
        if !a.time.lt(b.time) && !b.time.lt(a.time) {
            Duration::lemma_parts_determine(a.time, b.time);
        }
    }

    /// The order of records is transitive.
    pub proof fn lemma_transitive(a: LogRecord, b: LogRecord, c: LogRecord)
        requires
            a.precedes(b),
            b.precedes(c),
        ensures
            a.precedes(c),
    {
    }

    /// A record of `units` completed at `time`.
    pub fn new(time: UnixTime, units: Amount) -> (res: LogRecord)
        ensures
            res.time == time,
            res.units == units,
    {
        LogRecord { time, units }
    }

    /// The time of the record as the remote side holds it: its whole seconds
    /// in decimal digits. [`remote_record`] reads it back.
    pub fn remote_timestamp(&self) -> (res: String)
        ensures
            res@ == numeral(self.time.secs() as nat),
            is_seconds(res@),
            remote_record(res@, Some(self.units)).units == self.units,
            remote_record(res@, Some(self.units)).time == Duration::of_secs(self.time.secs()),
    {
        secs_as_str(self.time.as_secs())
    }

    /// Whether `self` comes strictly before `other`.
    pub fn is_before(&self, other: &LogRecord) -> (res: bool)
        ensures
            res == self.precedes(*other),
    {
        if self.time.is_lt(&other.time) {
            true
        } else if other.time.is_lt(&self.time) {
            false
        } else {
            proof {
                Duration::lemma_parts_determine(self.time, other.time);
            }
            self.units.0 < other.units.0
        }
    }
}

/// Every record of `s` precedes every later one. Such a sequence holds no
/// record twice and is ascending by time.
pub open spec fn strictly_sorted(s: Seq<LogRecord>) -> bool {
    forall|i: int, j: int| 0 <= i < j < s.len() ==> (#[trigger] s[i]).precedes(#[trigger] s[j])
}

/// The strictly sorted sequence that holds exactly the records of `s`.
pub open spec fn canonical(s: Set<LogRecord>) -> Seq<LogRecord> {
    choose|q: Seq<LogRecord>| strictly_sorted(q) && q.to_set() == s
}

/// The union of two logs: every record of either, once, in order.
pub open spec fn merged(a: Seq<LogRecord>, b: Seq<LogRecord>) -> Seq<LogRecord> {
    canonical(a.to_set().union(b.to_set()))
}

/// The records of `local` that `remote` lacks, in order.
pub open spec fn missing_from(local: Seq<LogRecord>, remote: Seq<LogRecord>) -> Seq<LogRecord> {
    canonical(local.to_set().difference(remote.to_set()))
}

/// `q` with `r` put in its place; `q` itself when it holds `r` already.
spec fn inserted(q: Seq<LogRecord>, r: LogRecord) -> Seq<LogRecord>
    decreases q.len(),
{
    if q.len() == 0 {
        seq![r]
    } else if q.last().precedes(r) {
        q.push(r)
    } else if q.last() == r {
        q
    } else {
        inserted(q.drop_last(), r).push(q.last())
    }
}

/// The records of `a` put in order one by one.
spec fn ordered(a: Seq<LogRecord>) -> Seq<LogRecord>
    decreases a.len(),
{
    if a.len() == 0 {
        Seq::empty()
    } else {
        inserted(ordered(a.drop_last()), a.last())
    }
}

/// Putting a record in its place keeps the order and adds just that record.
proof fn lemma_inserted(q: Seq<LogRecord>, r: LogRecord)
    requires
        strictly_sorted(q),
    ensures
        strictly_sorted(inserted(q, r)),
        inserted(q, r).to_set() == q.to_set().insert(r),
    decreases q.len(),
{
    let out = inserted(q, r);
    if q.len() == 0 {
        assert(out.to_set() =~= q.to_set().insert(r)) by {
            assert(out[0] == r);
            assert forall|x: LogRecord| out.to_set().contains(x) <==> q.to_set().insert(r).contains(
                x,
            ) by {
                if out.contains(x) {
                    let i = choose|i: int| 0 <= i < out.len() && out[i] == x;
                    assert(x == r);
                }
                if x == r {
                    assert(out[0] == x);
                }
            }
        }
    } else if q.last().precedes(r) {
        assert forall|i: int, j: int| 0 <= i < j < out.len() implies (#[trigger] out[i]).precedes(
            #[trigger] out[j],
        ) by {
            if j == q.len() {
                if i < q.len() - 1 {
                    assert(q[i].precedes(q[q.len() - 1]));
                    LogRecord::lemma_transitive(q[i], q.last(), r);
                }
            } else {
                assert(q[i].precedes(q[j]));
            }
        }
        lemma_push_holds(q, r);
    } else if q.last() == r {
        assert(q.to_set() =~= q.to_set().insert(r)) by {
            assert(q[q.len() - 1] == r);
            assert(q.contains(r));
        }
    } else {
        let front = q.drop_last();
        let last = q.last();
        assert(strictly_sorted(front)) by {
            assert forall|i: int, j: int| 0 <= i < j < front.len() implies (
            #[trigger] front[i]).precedes(#[trigger] front[j]) by {
                assert(q[i].precedes(q[j]));
            }
        }
        lemma_inserted(front, r);
        let mid = inserted(front, r);
        LogRecord::lemma_trichotomy(last, r);
        assert forall|i: int| 0 <= i < mid.len() implies (#[trigger] mid[i]).precedes(last) by {
            assert(mid.to_set().contains(mid[i]));
            if mid[i] != r {
                assert(front.to_set().contains(mid[i]));
                let k = choose|k: int| 0 <= k < front.len() && front[k] == mid[i];
                assert(q[k].precedes(q[q.len() - 1]));
            }
        }
        assert forall|i: int, j: int| 0 <= i < j < out.len() implies (#[trigger] out[i]).precedes(
            #[trigger] out[j],
        ) by {
            if j == mid.len() {
                assert(mid[i].precedes(last));
            } else {
                assert(mid[i].precedes(mid[j]));
            }
        }
        lemma_push_holds(mid, last);
        assert(q =~= front.push(last));
        lemma_push_holds(front, last);
        assert(out.to_set() =~= q.to_set().insert(r));
    }
}

/// Ordering a sequence keeps its records and sorts them strictly.
proof fn lemma_ordered(a: Seq<LogRecord>)
    ensures
        strictly_sorted(ordered(a)),
        ordered(a).to_set() == a.to_set(),
    decreases a.len(),
{
    if a.len() == 0 {
        assert(ordered(a).to_set() =~= a.to_set());
    } else {
        lemma_ordered(a.drop_last());
        lemma_inserted(ordered(a.drop_last()), a.last());
        assert(a =~= a.drop_last().push(a.last()));
        lemma_push_holds(a.drop_last(), a.last());
    }
}

/// Two strictly sorted sequences with the same records are the same sequence.
pub proof fn lemma_sorted_unique(p: Seq<LogRecord>, q: Seq<LogRecord>)
    requires
        strictly_sorted(p),
        strictly_sorted(q),
        p.to_set() == q.to_set(),
    ensures
        p == q,
    decreases p.len(),
{
    if p.len() == 0 {
        if q.len() > 0 {
            assert(q.to_set().contains(q[0]));
            assert(p.contains(q[0]));
        }
        assert(p =~= q);
    } else if q.len() == 0 {
        assert(p.to_set().contains(p[0]));
        assert(q.contains(p[0]));
    } else {
        let pl = p.last();
        let ql = q.last();
        assert(p.to_set().contains(pl)) by {
            assert(p[p.len() - 1] == pl);
        }
        assert(q.to_set().contains(ql)) by {
            assert(q[q.len() - 1] == ql);
        }
        assert(q.contains(pl));
        assert(p.contains(ql));
        let i = choose|i: int| 0 <= i < q.len() && q[i] == pl;
        let j = choose|j: int| 0 <= j < p.len() && p[j] == ql;
        LogRecord::lemma_trichotomy(pl, ql);
        if i < q.len() - 1 {
            assert(q[i].precedes(q[q.len() - 1]));
        }
        if j < p.len() - 1 {
            assert(p[j].precedes(p[p.len() - 1]));
        }
        assert(pl == ql);
        let pf = p.drop_last();
        let qf = q.drop_last();
        lemma_drop_last(p);
        lemma_drop_last(q);
        lemma_sorted_unique(pf, qf);
        assert(p =~= pf.push(pl));
        assert(q =~= qf.push(ql));
    }
}

/// Dropping the last record of a strictly sorted sequence keeps the order
/// and removes just that record.
pub proof fn lemma_drop_last(p: Seq<LogRecord>)
    requires
        strictly_sorted(p),
        p.len() > 0,
    ensures
        strictly_sorted(p.drop_last()),
        p.drop_last().to_set() == p.to_set().remove(p.last()),
{
    let f = p.drop_last();
    assert forall|i: int, j: int| 0 <= i < j < f.len() implies (#[trigger] f[i]).precedes(
        #[trigger] f[j],
    ) by {
        assert(p[i].precedes(p[j]));
    }
    assert forall|x: LogRecord| f.to_set().contains(x) <==> p.to_set().remove(p.last()).contains(
        x,
    ) by {
        if f.contains(x) {
            let i = choose|i: int| 0 <= i < f.len() && f[i] == x;
            assert(p[i] == x);
            assert(p[i].precedes(p[p.len() - 1]));
            LogRecord::lemma_trichotomy(x, p.last());
            assert(p.contains(x));
        }
        if p.contains(x) && x != p.last() {
            let i = choose|i: int| 0 <= i < p.len() && p[i] == x;
            assert(f[i] == x);
            assert(f.contains(x));
        }
    }
    assert(f.to_set() =~= p.to_set().remove(p.last()));
}

/// Every finite set of records has its strictly sorted sequence.
pub proof fn lemma_canonical(s: Set<LogRecord>)
    requires
        s.finite(),
    ensures
        strictly_sorted(canonical(s)),
        canonical(s).to_set() == s,
{
    let a = s.to_seq();
    s.lemma_to_seq_to_set_id();
    lemma_ordered(a);
    let w = ordered(a);
    assert(strictly_sorted(w) && w.to_set() == s);
}

/// A strictly sorted sequence is the canonical one of its records.
pub proof fn lemma_canonical_of_sorted(q: Seq<LogRecord>)
    requires
        strictly_sorted(q),
    ensures
        canonical(q.to_set()) == q,
{
    let s = q.to_set();
    assert(strictly_sorted(q) && q.to_set() == s);
    lemma_sorted_unique(canonical(s), q);
}

/// Merging a log with itself leaves it as it is.
pub proof fn lemma_merge_idempotent(l: Seq<LogRecord>)
    requires
        strictly_sorted(l),
    ensures
        merged(l, l) == l,
{
    assert(l.to_set().union(l.to_set()) =~= l.to_set());
    lemma_canonical_of_sorted(l);
}

/// The order of the two logs does not matter to their union.
pub proof fn lemma_merge_commutative(a: Seq<LogRecord>, b: Seq<LogRecord>)
    ensures
        merged(a, b) == merged(b, a),
{
    assert(a.to_set().union(b.to_set()) =~= b.to_set().union(a.to_set()));
}

/// The union of two logs is strictly sorted and holds the records of both.
pub proof fn lemma_merged(a: Seq<LogRecord>, b: Seq<LogRecord>)
    ensures
        strictly_sorted(merged(a, b)),
        merged(a, b).to_set() == a.to_set().union(b.to_set()),
{
    vstd::seq_lib::seq_to_set_is_finite(a);
    vstd::seq_lib::seq_to_set_is_finite(b);
    lemma_canonical(a.to_set().union(b.to_set()));
}

/// Three logs merge to the same log in whatever grouping they are merged.
pub proof fn lemma_merge_associative(a: Seq<LogRecord>, b: Seq<LogRecord>, c: Seq<LogRecord>)
    ensures
        merged(merged(a, b), c) == merged(a, merged(b, c)),
{
    lemma_merged(a, b);
    lemma_merged(b, c);
    assert(a.to_set().union(b.to_set()).union(c.to_set()) =~= a.to_set().union(
        b.to_set().union(c.to_set()),
    ));
}

/// Merging a log into a union that holds it already changes nothing.
pub proof fn lemma_merge_absorbs(a: Seq<LogRecord>, b: Seq<LogRecord>)
    ensures
        merged(a, merged(a, b)) == merged(a, b),
{
    lemma_merged(a, b);
    assert(a.to_set().union(a.to_set().union(b.to_set())) =~= a.to_set().union(b.to_set()));
}

/// The records missing remotely are strictly sorted and are exactly the local
/// ones that the remote log lacks.
pub proof fn lemma_missing_from(local: Seq<LogRecord>, remote: Seq<LogRecord>)
    ensures
        strictly_sorted(missing_from(local, remote)),
        missing_from(local, remote).to_set() == local.to_set().difference(remote.to_set()),
{
    vstd::seq_lib::seq_to_set_is_finite(local);
    lemma_canonical(local.to_set().difference(remote.to_set()));
}

/// Comparing two logs drops no record: what is sent up comes from the local
/// log, and the union holds every record of either log.
pub proof fn lemma_sync_keeps_every_record(local: Seq<LogRecord>, remote: Seq<LogRecord>)
    ensures
        missing_from(local, remote).to_set().subset_of(local.to_set()),
        local.to_set().subset_of(merged(local, remote).to_set()),
        remote.to_set().subset_of(merged(local, remote).to_set()),
        forall|r: LogRecord|
            local.contains(r) ==> remote.contains(r) || missing_from(local, remote).contains(r),
{
    lemma_missing_from(local, remote);
    lemma_merged(local, remote);
    assert forall|r: LogRecord| local.contains(r) implies remote.contains(r) || missing_from(
        local,
        remote,
    ).contains(r) by {
        if !remote.contains(r) {
            assert(local.to_set().difference(remote.to_set()).contains(r));
            assert(missing_from(local, remote).to_set().contains(r));
        }
    }
}


/// Carrying out a comparison brings both logs to the same state: the remote
/// log with the records sent up is the local log with the remote records
/// taken over.
pub proof fn lemma_sync_converges(local: Seq<LogRecord>, remote: Seq<LogRecord>)
    ensures
        merged(remote, missing_from(local, remote)) == merged(local, remote),
        missing_from(merged(local, remote), merged(local, remote)) == Seq::<LogRecord>::empty(),
{
    lemma_missing_from(local, remote);
    lemma_merged(local, remote);
    assert(remote.to_set().union(local.to_set().difference(remote.to_set())) =~= local.to_set().union(
        remote.to_set(),
    ));
    let both = merged(local, remote);
    assert(both.to_set().difference(both.to_set()) =~= Set::<LogRecord>::empty());
    assert(Seq::<LogRecord>::empty().to_set() =~= Set::<LogRecord>::empty());
    lemma_canonical_of_sorted(Seq::<LogRecord>::empty());
}

/// Putting a record at the place the order gives it: the records before
/// index `k` precede `r`, and `r` precedes those from `k` on.
pub proof fn lemma_insert_at(q: Seq<LogRecord>, k: int, r: LogRecord)
    requires
        strictly_sorted(q),
        0 <= k <= q.len(),
        forall|i: int| 0 <= i < k ==> (#[trigger] q[i]).precedes(r),
        forall|i: int| k <= i < q.len() ==> r.precedes(#[trigger] q[i]),
    ensures
        strictly_sorted(q.insert(k, r)),
        q.insert(k, r).to_set() == q.to_set().insert(r),
{
    let out = q.insert(k, r);
    assert forall|i: int, j: int| 0 <= i < j < out.len() implies (#[trigger] out[i]).precedes(
        #[trigger] out[j],
    ) by {
        if j < k {
            assert(q[i].precedes(q[j]));
        } else if j == k {
            assert(q[i].precedes(r));
        } else if i < k {
            assert(q[i].precedes(q[j - 1]));
        } else if i == k {
            assert(r.precedes(q[j - 1]));
        } else {
            assert(q[i - 1].precedes(q[j - 1]));
        }
    }
    assert forall|x: LogRecord| out.to_set().contains(x) <==> q.to_set().insert(r).contains(x) by {
        if out.contains(x) {
            let i = choose|i: int| 0 <= i < out.len() && out[i] == x;
            if i < k {
                assert(q[i] == x);
                assert(q.contains(x));
            } else if i > k {
                assert(q[i - 1] == x);
                assert(q.contains(x));
            }
        }
        if q.contains(x) {
            let i = choose|i: int| 0 <= i < q.len() && q[i] == x;
            if i < k {
                assert(out[i] == x);
            } else {
                assert(out[i + 1] == x);
            }
        }
        if x == r {
            assert(out[k] == x);
        }
    }
    assert(out.to_set() =~= q.to_set().insert(r));
}

/// The record that a remote completion document stands for: its time in
/// whole seconds, and its units, which are one where the document has none.
pub open spec fn remote_record(timestamp: Seq<char>, units: Option<Amount>) -> LogRecord {
    LogRecord {
        time: Duration::of_secs(number(timestamp) as u64),
        units: match units {
            Some(u) => u,
            None => Amount(ONE_BITS),
        },
    }
}

/// The records that remote completion documents stand for.
pub open spec fn remote_records(docs: Seq<(String, Option<Amount>)>) -> Seq<LogRecord> {
    docs.map_values(|d: (String, Option<Amount>)| remote_record(d.0@, d.1))
}

/// The log that the cache holds under `id`; empty where it holds none.
pub open spec fn cached_log(all_logs: Map<TaskID, TaskLog>, id: TaskID) -> Seq<LogRecord> {
    if all_logs.contains_key(id) {
        all_logs[id]@
    } else {
        Seq::empty()
    }
}

/// The completion history of one task: its records in strict order, by time
/// and then by units, none of them twice.
#[derive(Debug)]
pub struct TaskLog {
    records: Vec<LogRecord>,
}

impl View for TaskLog {
    type V = Seq<LogRecord>;

    closed spec fn view(&self) -> Seq<LogRecord> {
        self.records@
    }
}

impl Clone for TaskLog {
    fn clone(&self) -> (res: Self)
        ensures
            res@ == self@,
    {
        proof {
            use_type_invariant(self);
        }
        let records = self.records.clone();
        assert(records@ =~= self.records@);
        TaskLog { records }
    }
}

impl Default for TaskLog {
    fn default() -> (res: Self)
        ensures
            res@ == Seq::<LogRecord>::empty(),
    {
        TaskLog { records: Vec::new() }
    }
}

impl TaskLog {
    #[verifier::type_invariant]
    closed spec fn ordered_and_unique(self) -> bool {
        strictly_sorted(self.records@)
    }

    /// The records of the log, oldest first.
    pub fn records(&self) -> (res: &Vec<LogRecord>)
        ensures
            res@ == self@,
            strictly_sorted(self@),
    {
        proof {
            use_type_invariant(self);
        }
        &self.records
    }

    /// The first `n` records of the log, as a log of their own.
    pub fn prefix(&self, n: usize) -> (res: TaskLog)
        requires
            n <= self@.len(),
        ensures
            res@ == self@.take(n as int),
    {
        proof {
            use_type_invariant(self);
        }
        let mut records: Vec<LogRecord> = Vec::new();
        let mut i: usize = 0;
        while i < n
            invariant
                i <= n <= self.records@.len(),
                records@ == self.records@.take(i as int),
            decreases n - i,
        {
            proof {
                assert(self.records@.take(i + 1) =~= self.records@.take(i as int).push(
                    self.records@[i as int],
                ));
            }
            records.push(self.records[i]);
            i += 1;
        }
        proof {
            assert forall|a: int, b: int| 0 <= a < b < records@.len() implies (
            #[trigger] records@[a]).precedes(#[trigger] records@[b]) by {
                assert(self.records@[a].precedes(self.records@[b]));
            }
        }
        TaskLog { records }
    }

    /// The number of records.
    pub fn len(&self) -> (res: usize)
        ensures
            res == self@.len(),
    {
        self.records.len()
    }

    /// The number of records of the log that precede `record`; the index at
    /// which `record` stands or would stand.
    fn slot(&self, record: &LogRecord) -> (k: usize)
        ensures
            k <= self@.len(),
            forall|i: int| 0 <= i < k ==> (#[trigger] self@[i]).precedes(*record),
            forall|i: int| k <= i < self@.len() ==> !(#[trigger] self@[i]).precedes(*record),
    {
        proof {
            use_type_invariant(self);
        }
        let mut k: usize = 0;
        while k < self.records.len() && self.records[k].is_before(record)
            invariant
                k <= self.records@.len(),
                strictly_sorted(self.records@),
                forall|i: int| 0 <= i < k ==> (#[trigger] self.records@[i]).precedes(*record),
            decreases self.records@.len() - k,
        {
            k += 1;
        }
        proof {
            if k < self.records@.len() {
                assert forall|i: int| k <= i < self.records@.len() implies !(
                #[trigger] self.records@[i]).precedes(*record) by {
                    if i > k {
                        assert(self.records@[k as int].precedes(self.records@[i]));
                        if self.records@[i].precedes(*record) {
                            LogRecord::lemma_transitive(
                                self.records@[k as int],
                                self.records@[i],
                                *record,
                            );
                        }
                    }
                }
            }
        }
        k
    }

    /// Whether the log holds `record`.
    pub fn contains(&self, record: &LogRecord) -> (res: bool)
        ensures
            res == self@.contains(*record),
    {
        proof {
            use_type_invariant(self);
        }
        let k = self.slot(record);
        let found = k < self.records.len() && self.records[k] == *record;
        proof {
            if !found && self@.contains(*record) {
                let i = choose|i: int| 0 <= i < self@.len() && self@[i] == *record;
                LogRecord::lemma_trichotomy(self@[i], *record);
                if i > k {
                    assert(self@[k as int].precedes(self@[i]));
                    LogRecord::lemma_trichotomy(self@[k as int], *record);
                }
            }
        }
        found
    }

    /// Records a completion. A record that the log holds already is not
    /// added again; a new one goes to the place its time gives it.
    pub fn append(&mut self, record: LogRecord)
        ensures
            strictly_sorted(final(self)@),
            final(self)@.to_set() == old(self)@.to_set().insert(record),
            final(self)@ == canonical(old(self)@.to_set().insert(record)),
            old(self)@.contains(record) ==> final(self)@ == old(self)@,
    {
        proof {
            use_type_invariant(&*self);
        }
        let k = self.slot(&record);
        if k < self.records.len() && self.records[k] == record {
            proof {
                assert(self@.contains(record));
                assert(self@.to_set() =~= self@.to_set().insert(record));
                lemma_canonical_of_sorted(self@);
            }
        } else {
            proof {
                assert forall|i: int| k <= i < self@.len() implies record.precedes(
                    #[trigger] self@[i],
                ) by {
                    LogRecord::lemma_trichotomy(self@[i], record);
                    if i > k {
                        assert(self@[k as int].precedes(self@[i]));
                        LogRecord::lemma_trichotomy(self@[k as int], record);
                    }
                }
                lemma_insert_at(self@, k as int, record);
                lemma_canonical_of_sorted(self@.insert(k as int, record));
                if self@.contains(record) {
                    let i = choose|i: int| 0 <= i < self@.len() && self@[i] == record;
                    LogRecord::lemma_trichotomy(self@[i], record);
                }
            }
            let mut records: Vec<LogRecord> = Vec::new();
            core::mem::swap(&mut self.records, &mut records);
            records.insert(k, record);
            self.records = records;
        }
    }

    /// The time of the latest completion, if the task was ever completed.
    pub fn last_completed(&self) -> (res: Option<UnixTime>)
        ensures
            res == if self@.len() == 0 {
                None
            } else {
                Some(self@.last().time)
            },
            forall|i: int| 0 <= i < self@.len() ==> !self@.last().time.lt((#[trigger] self@[i]).time),
    {
        proof {
            use_type_invariant(self);
            assert forall|i: int| 0 <= i < self@.len() implies !self@.last().time.lt(
                (#[trigger] self@[i]).time,
            ) by {
                if i < self@.len() - 1 {
                    assert(self@[i].precedes(self@[self@.len() - 1]));
                }
            }
        }
        let n = self.records.len();
        if n == 0 {
            None
        } else {
            Some(self.records[n - 1].time)
        }
    }

    /// For each record, oldest first, the time that passed between it and
    /// `time`. No record may lie after `time`.
    pub fn time_since(&self, time: UnixTime) -> (res: Vec<Duration>)
        requires
            forall|i: int| 0 <= i < self@.len() ==> !time.lt((#[trigger] self@[i]).time),
        ensures
            res@.len() == self@.len(),
            forall|i: int|
                0 <= i < self@.len() ==> (#[trigger] res@[i]).wf() && res@[i].as_nanos()
                    == time.as_nanos() - self@[i].time.as_nanos(),
    {
        assert(self@ == self.records@);
        let mut out: Vec<Duration> = Vec::new();
        let mut i: usize = 0;
        while i < self.records.len()
            invariant
                self@ == self.records@,
                i <= self@.len(),
                out@.len() == i,
                forall|j: int|
                    0 <= j < self@.len() ==> !time.lt((#[trigger] self@[j]).time),
                forall|j: int|
                    0 <= j < i ==> (#[trigger] out@[j]).wf() && out@[j].as_nanos()
                        == time.as_nanos() - self@[j].time.as_nanos(),
            decreases self@.len() - i,
        {
            let at = self.records[i].time;
            assert(!time.lt(self@[i as int].time));
            match time.checked_sub(&at) {
                Some(elapsed) => {
                    out.push(elapsed);
                },
                None => {
                    assert(false);
                },
            }
            i += 1;
        }
        out
    }

    /// Adds every record of `records` that the log does not hold yet.
    fn absorb(&mut self, records: &Vec<LogRecord>)
        ensures
            strictly_sorted(final(self)@),
            final(self)@.to_set() == old(self)@.to_set().union(records@.to_set()),
    {
        let ghost before = self@;
        let mut i: usize = 0;
        proof {
            use_type_invariant(&*self);
            assert(records@.take(0).to_set() =~= Set::<LogRecord>::empty());
            assert(self@.to_set() =~= before.to_set().union(records@.take(0).to_set()));
        }
        while i < records.len()
            invariant
                i <= records@.len(),
                strictly_sorted(self@),
                self@.to_set() == before.to_set().union(records@.take(i as int).to_set()),
            decreases records@.len() - i,
        {
            proof {
                assert(records@.take(i + 1) =~= records@.take(i as int).push(records@[i as int]));
                lemma_push_holds(records@.take(i as int), records@[i as int]);
                assert(before.to_set().union(records@.take(i as int).to_set()).insert(
                    records@[i as int],
                ) =~= before.to_set().union(records@.take(i + 1).to_set()));
            }
            self.append(records[i]);
            i += 1;
        }
        proof {
            assert(records@.take(records@.len() as int) =~= records@);
        }
    }

    /// The log of the given records, whatever their order, each of them once.
    pub fn from_records(records: Vec<LogRecord>) -> (res: TaskLog)
        ensures
            res@ == canonical(records@.to_set()),
            strictly_sorted(res@),
            res@.to_set() == records@.to_set(),
    {
        let mut log = TaskLog::default();
        log.absorb(&records);
        proof {
            assert(Seq::<LogRecord>::empty().to_set().union(records@.to_set()) =~= records@.to_set());
            lemma_canonical_of_sorted(log@);
        }
        log
    }

    /// Takes over every record of `other` that the log does not hold yet.
    /// Nothing is dropped, and the order is kept.
    pub fn merge(&mut self, other: TaskLog)
        ensures
            final(self)@ == merged(old(self)@, other@),
            strictly_sorted(final(self)@),
            final(self)@.to_set() == old(self)@.to_set().union(other@.to_set()),
    {
        self.absorb(&other.records);
        proof {
            lemma_canonical_of_sorted(self@);
        }
    }

    /// Compares the local log of a task with the remote one: which records
    /// the remote side lacks, and what the local log holds once the remote
    /// records are taken over. The result names no task and no user yet.
    pub fn sync(from_online: TaskLog, from_offline: TaskLog) -> (res: LogSyncRes)
        ensures
            res.send_up@ == missing_from(from_offline@, from_online@),
            strictly_sorted(res.send_up@),
            res.send_up@.to_set() == from_offline@.to_set().difference(from_online@.to_set()),
            res.save@ == merged(from_offline@, from_online@),
            strictly_sorted(res.save@),
            res.save@.to_set() == from_offline@.to_set().union(from_online@.to_set()),
            res.id == 0,
            res.user_id@ == Seq::<char>::empty(),
    {
        proof {
            use_type_invariant(&from_offline);
        }
        let mut send_up: Vec<LogRecord> = Vec::new();
        let mut i: usize = 0;
        while i < from_offline.records.len()
            invariant
                i <= from_offline.records@.len(),
                strictly_sorted(from_offline.records@),
                strictly_sorted(send_up@),
                forall|k: int|
                    0 <= k < send_up@.len() ==> exists|j: int|
                        0 <= j < i && from_offline.records@[j] == #[trigger] send_up@[k],
                forall|k: int|
                    0 <= k < send_up@.len() ==> !from_online@.contains(#[trigger] send_up@[k]),
                forall|j: int|
                    0 <= j < i && !from_online@.contains(#[trigger] from_offline.records@[j])
                        ==> send_up@.contains(from_offline.records@[j]),
            decreases from_offline.records@.len() - i,
        {
            let record = from_offline.records[i];
            if !from_online.contains(&record) {
                let ghost prev = send_up@;
                proof {
                    assert forall|a: int, b: int| 0 <= a < b < prev.push(record).len() implies (
                    #[trigger] prev.push(record)[a]).precedes(#[trigger] prev.push(record)[b]) by {
                        if b == prev.len() {
                            let j = choose|j: int|
                                0 <= j < i && from_offline.records@[j] == prev[a];
                            assert(from_offline.records@[j].precedes(from_offline.records@[i as int]));
                        } else {
                            assert(prev[a].precedes(prev[b]));
                        }
                    }
                }
                send_up.push(record);
                proof {
                    assert(send_up@[prev.len() as int] == record);
                    assert forall|j: int|
                        0 <= j < i + 1 && !from_online@.contains(
                            #[trigger] from_offline.records@[j],
                        ) implies send_up@.contains(from_offline.records@[j]) by {
                        if j < i {
                            assert(prev.contains(from_offline.records@[j]));
                            let k = choose|k: int|
                                0 <= k < prev.len() && prev[k] == from_offline.records@[j];
                            assert(send_up@[k] == from_offline.records@[j]);
                        }
                    }
                    assert forall|k: int| 0 <= k < send_up@.len() implies exists|j: int|
                        0 <= j < i + 1 && from_offline.records@[j] == #[trigger] send_up@[k] by {
                        if k < prev.len() {
                            let j = choose|j: int|
                                0 <= j < i && from_offline.records@[j] == prev[k];
                            assert(from_offline.records@[j] == send_up@[k]);
                        } else {
                            assert(from_offline.records@[i as int] == send_up@[k]);
                        }
                    }
                }
            }
            i += 1;
        }
        proof {
            let want = from_offline@.to_set().difference(from_online@.to_set());
            assert forall|x: LogRecord| send_up@.to_set().contains(x) <==> want.contains(x) by {
                if send_up@.contains(x) {
                    let k = choose|k: int| 0 <= k < send_up@.len() && send_up@[k] == x;
                    let j = choose|j: int|
                        0 <= j < i && from_offline.records@[j] == send_up@[k];
                    assert(from_offline@.contains(x));
                }
                if want.contains(x) {
                    let j = choose|j: int| 0 <= j < from_offline@.len() && from_offline@[j] == x;
                    assert(!from_online@.contains(from_offline.records@[j]));
                }
            }
            assert(send_up@.to_set() =~= want);
            lemma_canonical_of_sorted(send_up@);
        }
        let mut save = from_offline;
        save.merge(from_online);
        LogSyncRes { send_up, save, id: 0, user_id: String::new() }
    }

    /// Compares the local log of the task `id` with the remote log that was
    /// read for the user `uid`, and names both in the result.
    pub fn sync_id(id: TaskID, uid: String, from_online: TaskLog, from_offline: TaskLog) -> (res:
        LogSyncRes)
        ensures
            res.send_up@ == missing_from(from_offline@, from_online@),
            res.save@ == merged(from_offline@, from_online@),
            res.id == id,
            res.user_id == uid,
    {
        let mut res = TaskLog::sync(from_online, from_offline);
        res.id = id;
        res.user_id = uid;
        res
    }

    /// The log that remote completion documents make up: each document gives
    /// the time of a completion as a number of whole seconds and, where it
    /// has them, the units. No log where a time is not such a number.
    pub fn from_remote(docs: &Vec<(String, Option<Amount>)>) -> (res: Option<TaskLog>)
        ensures
            (forall|i: int| 0 <= i < docs@.len() ==> is_seconds((#[trigger] docs@[i]).0@)) ==> (
            res matches Some(log) && log@ == canonical(remote_records(docs@).to_set())),
            (exists|i: int| 0 <= i < docs@.len() && !is_seconds((#[trigger] docs@[i]).0@))
                ==> res is None,
    {
        let mut records: Vec<LogRecord> = Vec::new();
        let mut i: usize = 0;
        while i < docs.len()
            invariant
                i <= docs@.len(),
                forall|j: int| 0 <= j < i ==> is_seconds((#[trigger] docs@[j]).0@),
                records@ == remote_records(docs@.take(i as int)),
            decreases docs@.len() - i,
        {
            let time = match str_as_secs(docs[i].0.as_str()) {
                Some(t) => t,
                None => {
                    return None;
                },
            };
            let units = match docs[i].1 {
                Some(u) => u,
                None => Amount(ONE_BITS),
            };
            proof {
                assert(docs@.take(i + 1) =~= docs@.take(i as int).push(docs@[i as int]));
                assert(remote_records(docs@.take(i + 1)) =~= remote_records(
                    docs@.take(i as int),
                ).push(remote_record(docs@[i as int].0@, docs@[i as int].1)));
            }
            records.push(LogRecord::new(time, units));
            i += 1;
        }
        proof {
            assert(docs@.take(docs@.len() as int) =~= docs@);
        }
        Some(TaskLog::from_records(records))
    }

    /// Adds the log to what the cache holds under `id`. What the cache held
    /// stays: the two logs are merged, and the other logs are left alone.
    pub fn save_into(&self, id: TaskID, all_logs: &mut HashMap<TaskID, TaskLog>)
        ensures
            final(all_logs)@.dom() == old(all_logs)@.dom().insert(id),
            final(all_logs)@[id]@ == merged(cached_log(old(all_logs)@, id), self@),
            forall|other: TaskID|
                other != id && old(all_logs)@.contains_key(other) ==> final(all_logs)@[other]
                    == old(all_logs)@[other],
    {
        let mut current = match all_logs.remove(&id) {
            Some(log) => log,
            None => TaskLog::default(),
        };
        current.merge(self.clone());
        all_logs.insert(id, current);
        proof {
            assert(all_logs@.dom() =~= old(all_logs)@.dom().insert(id));
        }
    }
}

/// What the comparison of a task's local and remote logs asks for.
#[derive(Debug)]
pub struct LogSyncRes {
    /// Records to append to the remote log, oldest first.
    pub send_up: Vec<LogRecord>,
    /// Records to take over into the local log.
    pub save: TaskLog,
    /// The task whose logs were compared.
    pub id: TaskID,
    /// The user whose remote log was read.
    pub user_id: String,
}

impl Default for LogSyncRes {
    fn default() -> (res: Self)
        ensures
            res.send_up@ == Seq::<LogRecord>::empty(),
            res.save@ == Seq::<LogRecord>::empty(),
            res.id == 0,
            res.user_id@ == Seq::<char>::empty(),
    {
        LogSyncRes { send_up: Vec::new(), save: TaskLog::default(), id: 0, user_id: String::new() }
    }
}

} // verus!
