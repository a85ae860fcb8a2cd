//! The repository of tasks, keyed by identifier.

use crate::amount::Amount;
use crate::error::TaskError;
use crate::ident::TaskID;
use crate::seqs::{
    lemma_all_taken, lemma_push_contains, lemma_push_holds, lemma_take_fresh, lemma_take_step,
};
use crate::log::{canonical, merged, missing_from, LogRecord, LogSyncRes, TaskLog};
use crate::task::{accrual_fails, accrues, MetaData, Task, TaskView};
use crate::time::{Duration, UnixTime};
use crate::value::Valuation;
use std::collections::HashMap;
use vstd::std_specs::iter::IteratorSpec;
use vstd::prelude::*;

verus! {

broadcast use vstd::std_specs::hash::group_hash_axioms;

/// The identifiers under which `map` holds something, each once, in no
/// particular order.
pub fn keys_of<V>(map: &HashMap<TaskID, V>) -> (res: Vec<TaskID>)
    ensures
        res@.no_duplicates(),
        res@.to_set() == map@.dom(),
{
    let mut out: Vec<TaskID> = Vec::new();
    let ghost all = vstd::std_specs::hash::spec_keys_iter(map).remaining();
    for key in it: map.keys()
        invariant
            it.seq() == all,
            out@.len() == it.index(),
            forall|i: int| 0 <= i < out@.len() ==> #[trigger] out@[i] == *all[i],
    {
        out.push(*key);
    }
    proof {
        assert(out@ =~= all.unref());
        assert forall|i: int, j: int|
            0 <= i < out@.len() && 0 <= j < out@.len() && i != j implies out@[i] != out@[j] by {
            assert(all[i] != all[j]);
        }
    }
    out
}

/// Whether `tasks` lists the tasks of `m`: each of them once, as `m` holds it,
/// and no other.
pub open spec fn lists(tasks: Seq<Task>, m: Map<TaskID, TaskView>) -> bool {
    &&& forall|i: int, j: int|
        0 <= i < j < tasks.len() ==> (#[trigger] tasks[i]).id != (#[trigger] tasks[j]).id
    &&& forall|i: int|
        0 <= i < tasks.len() ==> m.contains_key((#[trigger] tasks[i]).id) && m[tasks[i].id]
            == tasks[i]@
    &&& forall|id: TaskID|
        m.contains_key(id) ==> exists|i: int| 0 <= i < tasks.len() && (#[trigger] tasks[i]).id == id
}

/// The tasks of `m` that are not marked as deleted.
pub open spec fn pruned(m: Map<TaskID, TaskView>) -> Map<TaskID, TaskView> {
    Map::new(|id: TaskID| m.contains_key(id) && !m[id].metadata.deleted, |id: TaskID| m[id])
}

/// The repository that cached metadata and cached logs make up: one task for
/// each piece of metadata, with the log cached under its identifier, or with
/// an empty log where none is cached.
pub open spec fn joined(
    metadata: Map<TaskID, MetaData>,
    logs: Map<TaskID, TaskLog>,
) -> Map<TaskID, TaskView> {
    Map::new(
        |id: TaskID| metadata.contains_key(id),
        |id: TaskID|
            TaskView {
                id,
                metadata: metadata[id],
                log: if logs.contains_key(id) {
                    logs[id]@
                } else {
                    Seq::empty()
                },
            },
    )
}

/// The local side after remote metadata was taken over: a task that the
/// local side held keeps its log under the new metadata, and a task that it
/// lacked starts with an empty log.
pub open spec fn with_downloads(
    local: Map<TaskID, TaskView>,
    download: Map<TaskID, MetaData>,
) -> Map<TaskID, TaskView> {
    Map::new(
        |id: TaskID| local.contains_key(id) || download.contains_key(id),
        |id: TaskID|
            if download.contains_key(id) {
                TaskView {
                    id,
                    metadata: download[id],
                    log: if local.contains_key(id) {
                        local[id].log
                    } else {
                        Seq::empty()
                    },
                }
            } else {
                local[id]
            },
    )
}

/// The score that `scores` gives to a task; zero where it gives none.
pub open spec fn score_of(scores: Map<TaskID, u32>, id: TaskID) -> u32 {
    if scores.contains_key(id) {
        scores[id]
    } else {
        0
    }
}

/// Whether the task `a` is shown before the task `b`: the higher score comes
/// first, and of two tasks with the same score the one with the smaller
/// identifier.
pub open spec fn ranks_before(scores: Map<TaskID, u32>, a: TaskID, b: TaskID) -> bool {
    score_of(scores, a) > score_of(scores, b) || (score_of(scores, a) == score_of(scores, b) && a
        < b)
}

/// Whether `ids` is in the order in which tasks are shown.
pub open spec fn ranked(scores: Map<TaskID, u32>, ids: Seq<TaskID>) -> bool {
    forall|i: int, j: int|
        0 <= i < j < ids.len() ==> ranks_before(scores, #[trigger] ids[i], #[trigger] ids[j])
}

/// Putting an identifier where the order gives it its place keeps the order
/// and adds just that identifier.
proof fn lemma_rank_insert(scores: Map<TaskID, u32>, q: Seq<TaskID>, k: int, id: TaskID)
    requires
        ranked(scores, q),
        0 <= k <= q.len(),
        forall|i: int| 0 <= i < k ==> ranks_before(scores, #[trigger] q[i], id),
        forall|i: int| k <= i < q.len() ==> ranks_before(scores, id, #[trigger] q[i]),
    ensures
        ranked(scores, q.insert(k, id)),
        q.insert(k, id).to_set() == q.to_set().insert(id),
{
    let out = q.insert(k, id);
    assert forall|i: int, j: int| 0 <= i < j < out.len() implies ranks_before(
        scores,
        #[trigger] out[i],
        #[trigger] out[j],
    ) by {
        if j < k {
            assert(ranks_before(scores, q[i], q[j]));
        } else if j == k {
            assert(ranks_before(scores, q[i], id));
        } else if i < k {
            assert(ranks_before(scores, q[i], q[j - 1]));
        } else if i == k {
            assert(ranks_before(scores, id, q[j - 1]));
        } else {
            assert(ranks_before(scores, q[i - 1], q[j - 1]));
        }
    }
    assert forall|x: TaskID| out.to_set().contains(x) <==> q.to_set().insert(id).contains(x) by {
        if out.contains(x) {
            let i = choose|i: int| 0 <= i < out.len() && out[i] == x;
            if i < k {
                assert(q[i] == x);
                assert(q.contains(x));
            } else if i > k {
                assert(q[i - 1] == x);
                assert(q.contains(x));
            }
        }
        if q.contains(x) {
            let i = choose|i: int| 0 <= i < q.len() && q[i] == x;
            if i < k {
                assert(out[i] == x);
            } else {
                assert(out[i + 1] == x);
            }
        }
        if x == id {
            assert(out[k] == x);
        }
    }
    assert(out.to_set() =~= q.to_set().insert(id));
}

/// The score that `scores` gives to a task; zero where it gives none.
fn score(scores: &HashMap<TaskID, u32>, id: TaskID) -> (res: u32)
    ensures
        res == score_of(scores@, id),
{
    match scores.get(&id) {
        Some(s) => *s,
        None => 0,
    }
}

/// The identifiers `ids` in the order in which their tasks are shown, each
/// of them once.
pub fn rank_ids(ids: &Vec<TaskID>, scores: &HashMap<TaskID, u32>) -> (res: Vec<TaskID>)
    ensures
        ranked(scores@, res@),
        res@.no_duplicates(),
        res@.to_set() == ids@.to_set(),
{
    let mut out: Vec<TaskID> = Vec::new();
    let mut i: usize = 0;
    proof {
        assert(ids@.take(0).to_set() =~= out@.to_set());
    }
    while i < ids.len()
        invariant
            i <= ids@.len(),
            ranked(scores@, out@),
            out@.to_set() == ids@.take(i as int).to_set(),
        decreases ids@.len() - i,
    {
        let id = ids[i];
        let s = score(scores, id);
        let mut k: usize = 0;
        while k < out.len() && (score(scores, out[k]) > s || (score(scores, out[k]) == s && out[k]
            < id))
            invariant
                k <= out@.len(),
                s == score_of(scores@, id),
                forall|j: int| 0 <= j < k ==> ranks_before(scores@, #[trigger] out@[j], id),
            decreases out@.len() - k,
        {
            k += 1;
        }
        proof {
            assert(ids@.take(i + 1) =~= ids@.take(i as int).push(id));
            lemma_push_holds(ids@.take(i as int), id);
        }
        if k < out.len() && out[k] == id {
            proof {
                assert(out@.contains(id));
                assert(out@.to_set().insert(id) =~= out@.to_set());
            }
        } else {
            proof {
                assert forall|j: int| k <= j < out@.len() implies ranks_before(
                    scores@,
                    id,
                    #[trigger] out@[j],
                ) by {
                    if j > k {
                        assert(ranks_before(scores@, out@[k as int], out@[j]));
                    }
                }
                lemma_rank_insert(scores@, out@, k as int, id);
            }
            out.insert(k, id);
        }
        i += 1;
    }
    proof {
        assert(ids@.take(ids@.len() as int) =~= ids@);
        assert forall|a: int, b: int|
            0 <= a < out@.len() && 0 <= b < out@.len() && a != b implies out@[a] != out@[b] by {
            if a < b {
                assert(ranks_before(scores@, out@[a], out@[b]));
            } else {
                assert(ranks_before(scores@, out@[b], out@[a]));
            }
        }
    }
    out
}

/// Takes the tasks out of `map` in the given order.
fn take_in_order(map: HashMap<TaskID, Task>, order: &Vec<TaskID>) -> (out: Vec<Task>)
    requires
        order@.no_duplicates(),
        order@.to_set() == map@.dom(),
    ensures
        out@.len() == order@.len(),
        forall|j: int| 0 <= j < out@.len() ==> #[trigger] out@[j] == map@[order@[j]],
{
    let ghost orig = map@;
    let mut map = map;
    let mut out: Vec<Task> = Vec::new();
    let mut i: usize = 0;
    while i < order.len()
        invariant
            i <= order@.len(),
            order@.no_duplicates(),
            order@.to_set() == orig.dom(),
            forall|j: int| i <= j < order@.len() ==> map@.contains_key(#[trigger] order@[j]),
            forall|id: TaskID| map@.contains_key(id) ==> map@[id] == orig[id],
            out@.len() == i,
            forall|j: int| 0 <= j < i ==> #[trigger] out@[j] == orig[order@[j]],
        decreases order@.len() - i,
    {
        let id = order[i];
        proof {
            assert(order@.to_set().contains(order@[i as int]));
        }
        match map.remove(&id) {
            Some(task) => {
                out.push(task);
            },
            None => {
                assert(false);
            },
        }
        i += 1;
    }
    out
}

/// Tasks taken in the order of their identifiers out of a map that files
/// each under its own identifier list the tasks of that map.
proof fn lemma_listed(
    out: Seq<Task>,
    order: Seq<TaskID>,
    m: Map<TaskID, Task>,
    whole: Map<TaskID, TaskView>,
)
    requires
        order.no_duplicates(),
        order.to_set() == m.dom(),
        out.len() == order.len(),
        forall|j: int| 0 <= j < out.len() ==> #[trigger] out[j] == m[order[j]],
        forall|id: TaskID| m.contains_key(id) ==> (#[trigger] m[id]).id == id,
        whole.dom() == m.dom(),
        forall|id: TaskID| m.contains_key(id) ==> #[trigger] whole[id] == m[id]@,
    ensures
        lists(out, whole),
        forall|j: int| 0 <= j < out.len() ==> (#[trigger] out[j]).id == order[j],
{
    assert forall|j: int| 0 <= j < out.len() implies (#[trigger] out[j]).id == order[j]
        && m.contains_key(order[j]) by {
        assert(order.to_set().contains(order[j]));
    }
    assert forall|a: int, b: int| 0 <= a < b < out.len() implies (#[trigger] out[a]).id != (
    #[trigger] out[b]).id by {
        assert(out[a].id == order[a]);
        assert(out[b].id == order[b]);
    }
    assert forall|a: int| 0 <= a < out.len() implies whole.contains_key((#[trigger] out[a]).id)
        && whole[out[a].id] == out[a]@ by {
        assert(out[a].id == order[a]);
        assert(whole.dom().contains(order[a]));
    }
    assert forall|id: TaskID| whole.contains_key(id) implies exists|a: int|
        0 <= a < out.len() && (#[trigger] out[a]).id == id by {
        assert(m.dom().contains(id));
        assert(order.to_set().contains(id));
        let a = choose|a: int| 0 <= a < order.len() && order[a] == id;
        assert(out[a].id == id);
    }
}

/// The tasks that the user has, each filed under its identifier. Deleted
/// tasks stay in the repository, marked as such.
#[derive(Debug)]
pub struct Tasks {
    map: HashMap<TaskID, Task>,
}

impl View for Tasks {
    type V = Map<TaskID, TaskView>;

    closed spec fn view(&self) -> Map<TaskID, TaskView> {
        Map::new(|id: TaskID| self.map@.contains_key(id), |id: TaskID| self.map@[id]@)
    }
}

impl Default for Tasks {
    fn default() -> (res: Self)
        ensures
            res@ == Map::<TaskID, TaskView>::empty(),
    {
        let res = Tasks { map: HashMap::new() };
        assert(res@ =~= Map::<TaskID, TaskView>::empty());
        res
    }
}

impl Tasks {
    /// Every task is filed under its own identifier.
    #[verifier::type_invariant]
    pub closed spec fn wf(self) -> bool {
        forall|id: TaskID| self.map@.contains_key(id) ==> (#[trigger] self.map@[id]).id == id
    }

    /// In a well-formed repository the task under an identifier bears it.
    pub proof fn lemma_filed_under_id(self)
        requires
            self.wf(),
        ensures
            forall|id: TaskID| self@.contains_key(id) ==> (#[trigger] self@[id]).id == id,
            self@.dom().finite(),
    {
        assert(self@.dom() =~= self.map@.dom());
    }

    /// The identifiers of the tasks, each once, in no particular order.
    pub fn ids(&self) -> (res: Vec<TaskID>)
        ensures
            res@.no_duplicates(),
            res@.to_set() == self@.dom(),
    {
        let res = keys_of(&self.map);
        assert(self@.dom() =~= self.map@.dom());
        res
    }

    /// A copy of the task filed under `id`, if there is one.
    pub fn get_task(&self, id: TaskID) -> (res: Option<Task>)
        ensures
            match res {
                Some(task) => self@.contains_key(id) && task@ == self@[id] && task.id == id,
                None => !self@.contains_key(id),
            },
    {
        proof {
            use_type_invariant(self);
        }
        match self.map.get(&id) {
            Some(task) => Some(task.clone()),
            None => None,
        }
    }

    /// Files `task` under its identifier, in place of whatever was there.
    pub fn insert(&mut self, task: Task)
        ensures
            final(self)@ == old(self)@.insert(task.id, task@),
    {
        proof {
            use_type_invariant(&*self);
        }
        let ghost before = self@;
        let ghost id = task.id;
        let ghost tv = task@;
        let mut map: HashMap<TaskID, Task> = HashMap::new();
        core::mem::swap(&mut self.map, &mut map);
        map.insert(task.id, task);
        self.map = map;
        assert(self@ =~= before.insert(id, tv));
    }

    /// Marks the task under `id` as deleted, as of `now`. The task stays in
    /// the repository.
    pub fn delete_task(&mut self, id: TaskID, now: UnixTime) -> (res: Result<(), TaskError>)
        ensures
            !old(self)@.contains_key(id) ==> res == Err::<(), TaskError>(TaskError::NotFound)
                && final(self)@ == old(self)@,
            old(self)@.contains_key(id) ==> res is Ok && final(self)@ == old(self)@.insert(
                id,
                TaskView {
                    metadata: MetaData {
                        deleted: true,
                        updated: old(self)@[id].metadata.bumped(now),
                        ..old(self)@[id].metadata
                    },
                    ..old(self)@[id]
                },
            ),
    {
        match self.get_task(id) {
            None => Err(TaskError::NotFound),
            Some(mut task) => {
                task.metadata.deleted = true;
                task.metadata.touch(now);
                self.insert(task);
                Ok(())
            },
        }
    }

    /// Records that `units` of the task under `id` were completed at `now`.
    pub fn do_task(&mut self, id: TaskID, units: Amount, now: UnixTime) -> (res: Result<
        (),
        TaskError,
    >)
        ensures
            !old(self)@.contains_key(id) ==> res == Err::<(), TaskError>(TaskError::NotFound)
                && final(self)@ == old(self)@,
            old(self)@.contains_key(id) ==> res is Ok && final(self)@ == old(self)@.insert(
                id,
                TaskView {
                    log: canonical(
                        old(self)@[id].log.to_set().insert(LogRecord { time: now, units }),
                    ),
                    ..old(self)@[id]
                },
            ),
    {
        match self.get_task(id) {
            None => Err(TaskError::NotFound),
            Some(mut task) => {
                task.do_task(units, now);
                self.insert(task);
                Ok(())
            },
        }
    }

    /// Drops the tasks that are marked as deleted.
    pub fn prune_deleted(&mut self)
        ensures
            final(self)@ == pruned(old(self)@),
    {
        proof {
            use_type_invariant(&*self);
        }
        let ghost before = self@;
        let ks = keys_of(&self.map);
        let mut map: HashMap<TaskID, Task> = HashMap::new();
        core::mem::swap(&mut self.map, &mut map);
        let ghost orig = map@;
        let mut i: usize = 0;
        while i < ks.len()
            invariant
                i <= ks@.len(),
                ks@.no_duplicates(),
                ks@.to_set() == orig.dom(),
                forall|id: TaskID| orig.contains_key(id) ==> (#[trigger] orig[id]).id == id,
                forall|id: TaskID|
                    #[trigger] map@.contains_key(id) <==> orig.contains_key(id) && !(ks@.take(
                        i as int,
                    ).contains(id) && orig[id].metadata.deleted),
                forall|id: TaskID| map@.contains_key(id) ==> map@[id] == orig[id],
            decreases ks@.len() - i,
        {
            let id = ks[i];
            proof {
                assert(ks@.to_set().contains(ks@[i as int]));
                lemma_take_step(ks@, i as int);
            }
            let deleted = match map.get(&id) {
                Some(task) => task.metadata.deleted,
                None => false,
            };
            proof {
                lemma_take_fresh(ks@, i as int);
                assert(map@.contains_key(id));
                assert(deleted == orig[id].metadata.deleted);
            }
            if deleted {
                map.remove(&id);
            }
            i += 1;
        }
        proof {
            assert(ks@.take(ks@.len() as int) =~= ks@);
            assert forall|id: TaskID| orig.contains_key(id) implies ks@.contains(id) by {
                assert(ks@.to_set().contains(id));
            }
        }
        self.map = map;
        assert(self@ =~= pruned(before));
    }

    /// The tasks of the repository, each once, in no particular order.
    pub fn into_vec(self) -> (res: Vec<Task>)
        ensures
            lists(res@, self@),
    {
        proof {
            use_type_invariant(&self);
            assert(self@.dom() =~= self.map@.dom());
        }
        let ks = keys_of(&self.map);
        let out = take_in_order(self.map, &ks);
        proof {
            lemma_listed(out@, ks@, self.map@, self@);
        }
        out
    }

    /// Puts cached metadata and cached logs together: one task for each
    /// piece of metadata, with the log cached under the same identifier.
    pub fn from_parts(metadata: HashMap<TaskID, MetaData>, logs: &HashMap<TaskID, TaskLog>) -> (res:
        Tasks)
        ensures
            res@ == joined(metadata@, logs@),
    {
        let ks = keys_of(&metadata);
        let mut metadata = metadata;
        let ghost orig = metadata@;
        let mut map: HashMap<TaskID, Task> = HashMap::new();
        let mut i: usize = 0;
        while i < ks.len()
            invariant
                i <= ks@.len(),
                ks@.no_duplicates(),
                ks@.to_set() == orig.dom(),
                forall|j: int| i <= j < ks@.len() ==> metadata@.contains_key(#[trigger] ks@[j]),
                forall|id: TaskID| metadata@.contains_key(id) ==> metadata@[id] == orig[id],
                forall|id: TaskID| map@.contains_key(id) <==> ks@.take(i as int).contains(id),
                forall|id: TaskID|
                    map@.contains_key(id) ==> (#[trigger] map@[id])@ == joined(orig, logs@)[id],
            decreases ks@.len() - i,
        {
            let id = ks[i];
            proof {
                assert(ks@.to_set().contains(ks@[i as int]));
                lemma_take_step(ks@, i as int);
            }
            let log = match logs.get(&id) {
                Some(log) => log.clone(),
                None => TaskLog::default(),
            };
            match metadata.remove(&id) {
                Some(md) => {
                    map.insert(id, Task { id, log, metadata: md });
                },
                None => {
                    assert(false);
                },
            }
            i += 1;
        }
        proof {
            lemma_all_taken(ks@, orig.dom());
        }
        let res = Tasks { map };
        assert(res@ =~= joined(orig, logs@));
        res
    }

    /// The metadata of every task, for the cache.
    pub fn metadata(&self) -> (res: HashMap<TaskID, MetaData>)
        ensures
            res@.dom() == self@.dom(),
            forall|id: TaskID| self@.contains_key(id) ==> res@[id] == (#[trigger] self@[id]).metadata,
    {
        let ks = keys_of(&self.map);
        let mut out: HashMap<TaskID, MetaData> = HashMap::new();
        let mut i: usize = 0;
        while i < ks.len()
            invariant
                i <= ks@.len(),
                ks@.to_set() == self.map@.dom(),
                forall|id: TaskID| out@.contains_key(id) <==> ks@.take(i as int).contains(id),
                forall|id: TaskID|
                    out@.contains_key(id) ==> out@[id] == (#[trigger] self.map@[id]).metadata,
            decreases ks@.len() - i,
        {
            let id = ks[i];
            proof {
                assert(ks@.to_set().contains(ks@[i as int]));
                lemma_take_step(ks@, i as int);
            }
            match self.map.get(&id) {
                Some(task) => {
                    out.insert(id, task.metadata.clone());
                },
                None => {
                    assert(false);
                },
            }
            i += 1;
        }
        proof {
            lemma_all_taken(ks@, self.map@.dom());
            assert(out@.dom() =~= self@.dom());
        }
        out
    }

    /// Takes over remote metadata: each piece replaces the metadata of the
    /// task under its identifier, whose log stays, or starts a task with an
    /// empty log where there was none.
    pub fn apply_downloads(&mut self, download: HashMap<TaskID, MetaData>)
        ensures
            final(self)@ == with_downloads(old(self)@, download@),
    {
        proof {
            use_type_invariant(&*self);
        }
        let ghost before = self@;
        let ghost down = download@;
        let ks = keys_of(&download);
        let mut download = download;
        let mut map: HashMap<TaskID, Task> = HashMap::new();
        core::mem::swap(&mut self.map, &mut map);
        let ghost orig = map@;
        let mut i: usize = 0;
        while i < ks.len()
            invariant
                i <= ks@.len(),
                ks@.no_duplicates(),
                ks@.to_set() == down.dom(),
                forall|id: TaskID| orig.contains_key(id) ==> (#[trigger] orig[id]).id == id,
                forall|id: TaskID| map@.contains_key(id) ==> (#[trigger] map@[id]).id == id,
                forall|j: int| i <= j < ks@.len() ==> download@.contains_key(#[trigger] ks@[j]),
                forall|id: TaskID| download@.contains_key(id) ==> download@[id] == down[id],
                forall|id: TaskID|
                    #[trigger] map@.contains_key(id) <==> orig.contains_key(id) || ks@.take(
                        i as int,
                    ).contains(id),
                forall|id: TaskID|
                    map@.contains_key(id) ==> (#[trigger] map@[id])@ == if ks@.take(
                        i as int,
                    ).contains(id) {
                        TaskView {
                            id,
                            metadata: down[id],
                            log: if orig.contains_key(id) {
                                orig[id].log@
                            } else {
                                Seq::empty()
                            },
                        }
                    } else {
                        orig[id]@
                    },
            decreases ks@.len() - i,
        {
            let id = ks[i];
            proof {
                assert(ks@.to_set().contains(ks@[i as int]));
                lemma_take_step(ks@, i as int);
                lemma_take_fresh(ks@, i as int);
            }
            let log = match map.get(&id) {
                Some(task) => task.log.clone(),
                None => TaskLog::default(),
            };
            match download.remove(&id) {
                Some(metadata) => {
                    map.insert(id, Task { id, log, metadata });
                },
                None => {
                    assert(false);
                },
            }
            i += 1;
        }
        proof {
            lemma_all_taken(ks@, down.dom());
        }
        self.map = map;
        assert(self@ =~= with_downloads(before, down));
    }

    /// Compares the log of the task under `id` with its remote log `online`,
    /// read for the user `uid`: the local log takes over what the remote log
    /// holds, and the result says which records the remote side lacks.
    pub fn sync_log(&mut self, id: TaskID, uid: String, online: TaskLog) -> (res: Result<
        LogSyncRes,
        TaskError,
    >)
        ensures
            !old(self)@.contains_key(id) ==> res is Err && res->Err_0 == TaskError::NotFound
                && final(self)@ == old(self)@,
            old(self)@.contains_key(id) ==> {
                let local = old(self)@[id].log;
                &&& res matches Ok(out)
                &&& out.id == id
                &&& out.user_id == uid
                &&& out.send_up@ == missing_from(local, online@)
                &&& out.save@ == merged(local, online@)
                &&& final(self)@ == old(self)@.insert(
                    id,
                    TaskView { log: merged(local, online@), ..old(self)@[id] },
                )
            },
    {
        match self.get_task(id) {
            None => Err(TaskError::NotFound),
            Some(mut task) => {
                let ghost local = task.log@;
                let out = TaskLog::sync_id(id, uid, online, task.log.clone());
                task.log.merge(out.save.clone());
                proof {
                    crate::log::lemma_merge_absorbs(local, online@);
                }
                self.insert(task);
                Ok(out)
            },
        }
    }

    /// The tasks in the order in which they are shown: by score, highest
    /// first, and by identifier where the scores are the same. A task that
    /// `scores` does not name has the score zero.
    pub fn to_vec_sorted(self, scores: &HashMap<TaskID, u32>) -> (res: Vec<Task>)
        ensures
            lists(res@, self@),
            forall|i: int, j: int|
                0 <= i < j < res@.len() ==> ranks_before(
                    scores@,
                    (#[trigger] res@[i]).id,
                    (#[trigger] res@[j]).id,
                ),
    {
        proof {
            use_type_invariant(&self);
            assert(self@.dom() =~= self.map@.dom());
        }
        let ks = keys_of(&self.map);
        let order = rank_ids(&ks, scores);
        let out = take_in_order(self.map, &order);
        proof {
            lemma_listed(out@, order@, self.map@, self@);
            assert forall|a: int, b: int| 0 <= a < b < out@.len() implies ranks_before(
                scores@,
                (#[trigger] out@[a]).id,
                (#[trigger] out@[b]).id,
            ) by {
                assert(ranks_before(scores@, order@[a], order@[b]));
            }
        }
        out
    }
}

impl Clone for Tasks {
    fn clone(&self) -> (res: Self)
        ensures
            res@ == self@,
    {
        let ks = keys_of(&self.map);
        let mut map: HashMap<TaskID, Task> = HashMap::new();
        let mut i: usize = 0;
        proof {
            use_type_invariant(self);
        }
        while i < ks.len()
            invariant
                i <= ks@.len(),
                ks@.to_set() == self.map@.dom(),
                forall|id: TaskID| self.map@.contains_key(id) ==> (#[trigger] self.map@[id]).id == id,
                forall|id: TaskID| map@.contains_key(id) <==> ks@.take(i as int).contains(id),
                forall|id: TaskID|
                    map@.contains_key(id) ==> (#[trigger] map@[id])@ == self.map@[id]@,
            decreases ks@.len() - i,
        {
            let id = ks[i];
            proof {
                assert(ks@.to_set().contains(ks@[i as int]));
                lemma_take_step(ks@, i as int);
            }
            match self.map.get(&id) {
                Some(task) => {
                    map.insert(id, task.clone());
                },
                None => {
                    assert(false);
                },
            }
            i += 1;
        }
        proof {
            lemma_all_taken(ks@, self.map@.dom());
        }
        let res = Tasks { map };
        assert(res@ =~= self@);
        res
    }
}

/// Whether `cutoff` lies `since` before `now`.
pub open spec fn is_cutoff(since: Duration, now: UnixTime, cutoff: UnixTime) -> bool {
    cutoff.wf() && cutoff.as_nanos() == now.as_nanos() - since.as_nanos()
}

/// Whether `parts` lays out what the tasks accrued after `cutoff`: one entry
/// for each task that is not deleted, by ascending identifier, with the
/// valuations of the completions of that task after `cutoff`.
pub open spec fn accrued_by_all(
    tasks: Map<TaskID, TaskView>,
    cutoff: UnixTime,
    parts: Seq<(TaskID, Vec<Valuation>)>,
) -> bool {
    &&& forall|i: int, j: int|
        0 <= i < j < parts.len() ==> (#[trigger] parts[i]).0 < (#[trigger] parts[j]).0
    &&& forall|id: TaskID|
        pruned(tasks).contains_key(id) <==> exists|i: int|
            0 <= i < parts.len() && (#[trigger] parts[i]).0 == id
    &&& forall|i: int|
        0 <= i < parts.len() ==> pruned(tasks).contains_key((#[trigger] parts[i]).0) && accrues(
            tasks[parts[i].0],
            cutoff,
            Ok(parts[i].1),
        )
}

/// Lays out the value that the tasks accrued in the window of length `since`
/// that ends at `now`: for each task that is not deleted, by ascending
/// identifier, the valuations of its completions in the window. The worth of
/// the window is the sum over all of them.
pub fn tot_value_since(tasks: &Tasks, since: Duration, now: UnixTime) -> (res: Result<
    Vec<(TaskID, Vec<Valuation>)>,
    TaskError,
>)
    ensures
        match res {
            Ok(parts) => !now.lt(since) && exists|cutoff: UnixTime|
                is_cutoff(since, now, cutoff) && #[trigger] accrued_by_all(tasks@, cutoff, parts@),
            Err(e) => e == TaskError::TimeOrder && (now.lt(since) || exists|
                cutoff: UnixTime,
                id: TaskID,
            |
                is_cutoff(since, now, cutoff) && pruned(tasks@).contains_key(id)
                    && #[trigger] accrual_fails(tasks@[id], cutoff)),
        },
{
    let cutoff = match now.checked_sub(&since) {
        Some(c) => c,
        None => {
            return Err(TaskError::TimeOrder);
        },
    };
    let ids = rank_ids(&tasks.ids(), &HashMap::new());
    let mut out: Vec<(TaskID, Vec<Valuation>)> = Vec::new();
    let ghost mut idx: Seq<int> = Seq::empty();
    let mut i: usize = 0;
    while i < ids.len()
        invariant
            i <= ids@.len(),
            is_cutoff(since, now, cutoff),
            !now.lt(since),
            ranked(Map::<TaskID, u32>::empty(), ids@),
            ids@.to_set() == tasks@.dom(),
            idx.len() == out@.len(),
            forall|k: int|
                0 <= k < idx.len() ==> {
                    &&& 0 <= #[trigger] idx[k] < i
                    &&& out@[k].0 == ids@[idx[k]]
                    &&& !tasks@[ids@[idx[k]]].metadata.deleted
                    &&& accrues(tasks@[out@[k].0], cutoff, Ok(out@[k].1))
                },
            forall|a: int, b: int| 0 <= a < b < idx.len() ==> #[trigger] idx[a] < #[trigger] idx[b],
            forall|j: int|
                0 <= j < i && !tasks@[#[trigger] ids@[j]].metadata.deleted ==> idx.contains(j),
        decreases ids@.len() - i,
    {
        let id = ids[i];
        proof {
            assert(ids@.to_set().contains(ids@[i as int]));
        }
        match tasks.get_task(id) {
            Some(task) => {
                if !task.metadata.deleted {
                    match task.value_since(cutoff) {
                        Ok(vals) => {
                            out.push((id, vals));
                            proof {
                                lemma_push_contains(idx, i as int);
                                idx = idx.push(i as int);
                            }
                        },
                        Err(e) => {
                            proof {
                                assert(pruned(tasks@).contains_key(id));
                                assert(accrual_fails(tasks@[id], cutoff));
                            }
                            return Err(e);
                        },
                    }
                }
            },
            None => {
                assert(false);
            },
        }
        i += 1;
    }
    proof {
        assert forall|a: int, b: int| 0 <= a < b < out@.len() implies (#[trigger] out@[a]).0 < (
        #[trigger] out@[b]).0 by {
            assert(idx[a] < idx[b]);
            assert(ranks_before(Map::<TaskID, u32>::empty(), ids@[idx[a]], ids@[idx[b]]));
        }
        assert forall|id: TaskID|
            pruned(tasks@).contains_key(id) <==> exists|k: int|
                0 <= k < out@.len() && (#[trigger] out@[k]).0 == id by {
            if pruned(tasks@).contains_key(id) {
                assert(ids@.to_set().contains(id));
                let j = choose|j: int| 0 <= j < ids@.len() && ids@[j] == id;
                let k = choose|k: int| 0 <= k < idx.len() && idx[k] == j;
                assert(out@[k].0 == id);
            }
            if exists|k: int| 0 <= k < out@.len() && (#[trigger] out@[k]).0 == id {
                let k = choose|k: int| 0 <= k < out@.len() && (#[trigger] out@[k]).0 == id;
                assert(ids@.to_set().contains(ids@[idx[k]]));
            }
        }
        assert forall|k: int| 0 <= k < out@.len() implies pruned(tasks@).contains_key(
            (#[trigger] out@[k]).0,
        ) && accrues(tasks@[out@[k].0], cutoff, Ok(out@[k].1)) by {
            assert(0 <= idx[k] < i);
            assert(ids@.to_set().contains(ids@[idx[k]]));
        }
        assert(accrued_by_all(tasks@, cutoff, out@));
    }
    let res: Result<Vec<(TaskID, Vec<Valuation>)>, TaskError> = Ok(out);
    assert(res matches Ok(parts) && is_cutoff(since, now, cutoff) && accrued_by_all(
        tasks@,
        cutoff,
        parts@,
    ));
    res
}

} // verus!
