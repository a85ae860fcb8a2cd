//! Reconciliation of the local tasks with the remote metadata.
//!
//! Every identifier known to either side falls into exactly one of three
//! groups: the local task is uploaded, the remote metadata is downloaded, or
//! both sides agree and nothing is done. Where both sides hold a task, the
//! one that was written last wins.

use crate::ident::TaskID;
use crate::repository::{lists, with_downloads, Tasks};
use crate::seqs::lemma_push_contains;
use crate::task::{MetaData, Task, TaskView};
use crate::time::Duration;
use std::collections::HashMap;
use vstd::prelude::*;

verus! {

broadcast use vstd::std_specs::hash::group_hash_axioms;

/// The local task under `id` goes to the remote side: the remote side lacks
/// it, or holds an older version.
pub open spec fn to_upload(
    local: Map<TaskID, TaskView>,
    remote: Map<TaskID, MetaData>,
    id: TaskID,
) -> bool {
    local.contains_key(id) && (!remote.contains_key(id) || remote[id].updated.lt(
        local[id].metadata.updated,
    ))
}

/// The remote metadata under `id` goes to the local side: the local side
/// lacks the task, or holds an older version.
pub open spec fn to_download(
    local: Map<TaskID, TaskView>,
    remote: Map<TaskID, MetaData>,
    id: TaskID,
) -> bool {
    remote.contains_key(id) && (!local.contains_key(id) || local[id].metadata.updated.lt(
        remote[id].updated,
    ))
}

/// Both sides hold the task under `id` and were written at the same time.
pub open spec fn converged(
    local: Map<TaskID, TaskView>,
    remote: Map<TaskID, MetaData>,
    id: TaskID,
) -> bool {
    local.contains_key(id) && remote.contains_key(id) && local[id].metadata.updated
        == remote[id].updated
}

/// The local tasks to write to the remote side.
pub open spec fn uploads(local: Map<TaskID, TaskView>, remote: Map<TaskID, MetaData>) -> Map<
    TaskID,
    TaskView,
> {
    Map::new(|id: TaskID| to_upload(local, remote, id), |id: TaskID| local[id])
}

/// The remote metadata to write to the local side.
pub open spec fn downloads(local: Map<TaskID, TaskView>, remote: Map<TaskID, MetaData>) -> Map<
    TaskID,
    MetaData,
> {
    Map::new(|id: TaskID| to_download(local, remote, id), |id: TaskID| remote[id])
}

/// The identifiers on which both sides agree already.
pub open spec fn unchanged(local: Map<TaskID, TaskView>, remote: Map<TaskID, MetaData>) -> Set<
    TaskID,
> {
    Set::new(|id: TaskID| converged(local, remote, id))
}

/// The write plan is a partition: every identifier known to either side is
/// uploaded, downloaded or unchanged, and none falls into two of the groups.
pub proof fn lemma_plan_partitions(local: Map<TaskID, TaskView>, remote: Map<TaskID, MetaData>)
    ensures
        uploads(local, remote).dom().union(downloads(local, remote).dom()).union(
            unchanged(local, remote),
        ) == local.dom().union(remote.dom()),
        uploads(local, remote).dom().disjoint(downloads(local, remote).dom()),
        uploads(local, remote).dom().disjoint(unchanged(local, remote)),
        downloads(local, remote).dom().disjoint(unchanged(local, remote)),
{
    let all = uploads(local, remote).dom().union(downloads(local, remote).dom()).union(
        unchanged(local, remote),
    );
    assert forall|id: TaskID| all.contains(id) <==> local.dom().union(remote.dom()).contains(
        id,
    ) by {
        if local.contains_key(id) && remote.contains_key(id) {
            let a = local[id].metadata.updated;
            let b = remote[id].updated;
            if !a.lt(b) && !b.lt(a) {
                Duration::lemma_parts_determine(a, b);
            }
        }
    }
    assert(all =~= local.dom().union(remote.dom()));
}

/// Where both sides hold a task and were written at different times, the
/// side written last wins: its version is the one planned for the other
/// side, and the older version is planned for nowhere.
pub proof fn lemma_last_write_wins(
    local: Map<TaskID, TaskView>,
    remote: Map<TaskID, MetaData>,
    id: TaskID,
)
    requires
        local.contains_key(id),
        remote.contains_key(id),
        local[id].metadata.updated != remote[id].updated,
    ensures
        remote[id].updated.lt(local[id].metadata.updated) != local[id].metadata.updated.lt(
            remote[id].updated,
        ),
        remote[id].updated.lt(local[id].metadata.updated) ==> uploads(local, remote).contains_key(
            id,
        ) && uploads(local, remote)[id] == local[id] && !downloads(local, remote).contains_key(id),
        local[id].metadata.updated.lt(remote[id].updated) ==> downloads(
            local,
            remote,
        ).contains_key(id) && downloads(local, remote)[id] == remote[id] && !uploads(
            local,
            remote,
        ).contains_key(id),
{
    let a = local[id].metadata.updated;
    let b = remote[id].updated;
    if !a.lt(b) && !b.lt(a) {
        Duration::lemma_parts_determine(a, b);
    }
}

/// The remote side after local tasks were written to it: the metadata of
/// each such task stands under its identifier, in place of what was there.
pub open spec fn with_uploads(
    remote: Map<TaskID, MetaData>,
    upload: Map<TaskID, TaskView>,
) -> Map<TaskID, MetaData> {
    Map::new(
        |id: TaskID| remote.contains_key(id) || upload.contains_key(id),
        |id: TaskID|
            if upload.contains_key(id) {
                upload[id].metadata
            } else {
                remote[id]
            },
    )
}

/// Carrying out the write plan brings both sides to the same state: they
/// hold the same tasks, written at the same times, and with the same
/// metadata wherever a write was planned. A second comparison plans nothing.
pub proof fn lemma_plan_converges(local: Map<TaskID, TaskView>, remote: Map<TaskID, MetaData>)
    ensures
        ({
            let local_after = with_downloads(local, downloads(local, remote));
            let remote_after = with_uploads(remote, uploads(local, remote));
            &&& local_after.dom() == local.dom().union(remote.dom())
            &&& remote_after.dom() == local.dom().union(remote.dom())
            &&& forall|id: TaskID|
                #[trigger] local_after.contains_key(id) ==> local_after[id].metadata.updated
                    == remote_after[id].updated
            &&& forall|id: TaskID|
                #[trigger] local_after.contains_key(id) && !converged(local, remote, id)
                    ==> local_after[id].metadata == remote_after[id]
            &&& uploads(local_after, remote_after) == Map::<TaskID, TaskView>::empty()
            &&& downloads(local_after, remote_after) == Map::<TaskID, MetaData>::empty()
        }),
{
    let local_after = with_downloads(local, downloads(local, remote));
    let remote_after = with_uploads(remote, uploads(local, remote));
    assert(local_after.dom() =~= local.dom().union(remote.dom()));
    assert(remote_after.dom() =~= local.dom().union(remote.dom()));
    assert forall|id: TaskID| #[trigger] local_after.contains_key(id) implies {
        &&& local_after[id].metadata.updated == remote_after[id].updated
        &&& !converged(local, remote, id) ==> local_after[id].metadata == remote_after[id]
    } by {
        if local.contains_key(id) && remote.contains_key(id) {
            let a = local[id].metadata.updated;
            let b = remote[id].updated;
            if !a.lt(b) && !b.lt(a) {
                Duration::lemma_parts_determine(a, b);
            }
        }
    }
    assert(uploads(local_after, remote_after) =~= Map::<TaskID, TaskView>::empty());
    assert(downloads(local_after, remote_after) =~= Map::<TaskID, MetaData>::empty());
}

/// The writes that bring both sides to the same state.
#[derive(Debug)]
pub struct SyncResult {
    /// Tasks to write to the remote side.
    pub send_up: Vec<Task>,
    /// Metadata to write to the local side, by task.
    pub download: HashMap<TaskID, MetaData>,
}

impl SyncResult {
    /// Whether `self` is the write plan for the given two sides.
    pub open spec fn is_plan_for(
        self,
        local: Map<TaskID, TaskView>,
        remote: Map<TaskID, MetaData>,
    ) -> bool {
        &&& lists(self.send_up@, uploads(local, remote))
        &&& self.download@ == downloads(local, remote)
    }
}

impl Default for SyncResult {
    fn default() -> (res: Self)
        ensures
            res.send_up@ == Seq::<Task>::empty(),
            res.download@ == Map::<TaskID, MetaData>::empty(),
    {
        SyncResult { send_up: Vec::new(), download: HashMap::new() }
    }
}

/// Whether one of the first `n` pairs is the pair of the task `id` and was
/// written last on the remote side.
spec fn remote_won_among(ps: Seq<(Task, MetaData)>, n: int, id: TaskID) -> bool {
    exists|j: int|
        0 <= j < n && (#[trigger] ps[j]).0.id == id && ps[j].0.metadata.updated.lt(
            ps[j].1.updated,
        )
}

/// Among one pair more the remote side won where it had won before, and for
/// the task of that pair where it was written last there.
proof fn lemma_remote_won_step(ps: Seq<(Task, MetaData)>, n: int)
    requires
        0 <= n < ps.len(),
    ensures
        forall|id: TaskID| #[trigger]
            remote_won_among(ps, n + 1, id) <==> remote_won_among(ps, n, id) || (ps[n].0.id == id
                && ps[n].0.metadata.updated.lt(ps[n].1.updated)),
{
    assert forall|id: TaskID| #[trigger]
        remote_won_among(ps, n + 1, id) <==> remote_won_among(ps, n, id) || (ps[n].0.id == id
            && ps[n].0.metadata.updated.lt(ps[n].1.updated)) by {
        if remote_won_among(ps, n + 1, id) {
            let j = choose|j: int|
                0 <= j < n + 1 && (#[trigger] ps[j]).0.id == id && ps[j].0.metadata.updated.lt(
                    ps[j].1.updated,
                );
            if j < n {
                assert(remote_won_among(ps, n, id));
            }
        }
        if remote_won_among(ps, n, id) {
            let j = choose|j: int|
                0 <= j < n && (#[trigger] ps[j]).0.id == id && ps[j].0.metadata.updated.lt(
                    ps[j].1.updated,
                );
            assert(0 <= j < n + 1);
        }
    }
}

/// The two sides sorted into three groups: tasks that both sides hold,
/// tasks that only the remote side holds, and tasks that only the local side
/// holds. No task is in two of the groups or twice in one.
#[derive(Debug)]
pub struct Syncer {
    /// The local task and the remote metadata, where both sides hold it.
    pairs: Vec<(Task, MetaData)>,
    /// Metadata of tasks that the local side lacks.
    new_from_server: HashMap<TaskID, MetaData>,
    /// Tasks that the remote side lacks.
    new_offline: Vec<Task>,
}

impl Syncer {
    spec fn paired(self, id: TaskID) -> bool {
        exists|k: int| 0 <= k < self.pairs@.len() && (#[trigger] self.pairs@[k]).0.id == id
    }

    spec fn pair_of(self, id: TaskID) -> int {
        choose|k: int| 0 <= k < self.pairs@.len() && (#[trigger] self.pairs@[k]).0.id == id
    }

    spec fn local_only(self, id: TaskID) -> bool {
        exists|k: int| 0 <= k < self.new_offline@.len() && (#[trigger] self.new_offline@[k]).id == id
    }

    spec fn local_only_at(self, id: TaskID) -> int {
        choose|k: int| 0 <= k < self.new_offline@.len() && (#[trigger] self.new_offline@[k]).id == id
    }

    /// No task is in two of the groups or twice in one.
    #[verifier::type_invariant]
    pub closed spec fn wf(self) -> bool {
        &&& forall|a: int, b: int|
            0 <= a < b < self.pairs@.len() ==> (#[trigger] self.pairs@[a]).0.id != (
            #[trigger] self.pairs@[b]).0.id
        &&& forall|a: int, b: int|
            0 <= a < b < self.new_offline@.len() ==> (#[trigger] self.new_offline@[a]).id != (
            #[trigger] self.new_offline@[b]).id
        &&& forall|a: int, b: int|
            0 <= a < self.pairs@.len() && 0 <= b < self.new_offline@.len() ==> (
            #[trigger] self.pairs@[a]).0.id != (#[trigger] self.new_offline@[b]).id
        &&& forall|a: int|
            0 <= a < self.pairs@.len() ==> !self.new_from_server@.contains_key(
                (#[trigger] self.pairs@[a]).0.id,
            )
        &&& forall|b: int|
            0 <= b < self.new_offline@.len() ==> !self.new_from_server@.contains_key(
                (#[trigger] self.new_offline@[b]).id,
            )
    }

    /// The local side that was sorted: the tasks of the pairs and the tasks
    /// that only the local side holds.
    pub closed spec fn local(self) -> Map<TaskID, TaskView> {
        Map::new(
            |id: TaskID| self.paired(id) || self.local_only(id),
            |id: TaskID|
                if self.paired(id) {
                    self.pairs@[self.pair_of(id)].0@
                } else {
                    self.new_offline@[self.local_only_at(id)]@
                },
        )
    }

    /// The remote side that was sorted: the metadata of the pairs and the
    /// metadata that only the remote side holds.
    pub closed spec fn remote(self) -> Map<TaskID, MetaData> {
        Map::new(
            |id: TaskID| self.paired(id) || self.new_from_server@.contains_key(id),
            |id: TaskID|
                if self.paired(id) {
                    self.pairs@[self.pair_of(id)].1
                } else {
                    self.new_from_server@[id]
                },
        )
    }

    /// What each group says of the two sides.
    proof fn lemma_groups(self)
        requires
            self.wf(),
        ensures
            forall|k: int|
                0 <= k < self.pairs@.len() ==> {
                    let id = (#[trigger] self.pairs@[k]).0.id;
                    &&& self.local().contains_key(id)
                    &&& self.local()[id] == self.pairs@[k].0@
                    &&& self.remote().contains_key(id)
                    &&& self.remote()[id] == self.pairs@[k].1
                },
            forall|k: int|
                0 <= k < self.new_offline@.len() ==> {
                    let id = (#[trigger] self.new_offline@[k]).id;
                    &&& self.local().contains_key(id)
                    &&& self.local()[id] == self.new_offline@[k]@
                    &&& !self.remote().contains_key(id)
                },
            forall|id: TaskID|
                #[trigger] self.new_from_server@.contains_key(id) ==> {
                    &&& !self.local().contains_key(id)
                    &&& self.remote().contains_key(id)
                    &&& self.remote()[id] == self.new_from_server@[id]
                },
            forall|id: TaskID|
                #[trigger] self.local().contains_key(id) ==> self.paired(id) || self.local_only(id),
            forall|id: TaskID|
                #[trigger] self.remote().contains_key(id) ==> self.paired(id)
                    || self.new_from_server@.contains_key(id),
    {
        assert forall|k: int| 0 <= k < self.pairs@.len() implies {
            let id = (#[trigger] self.pairs@[k]).0.id;
            &&& self.local().contains_key(id)
            &&& self.local()[id] == self.pairs@[k].0@
            &&& self.remote().contains_key(id)
            &&& self.remote()[id] == self.pairs@[k].1
        } by {
            let id = self.pairs@[k].0.id;
            assert(self.paired(id));
            let c = self.pair_of(id);
            assert(self.pairs@[c].0.id == self.pairs@[k].0.id);
            assert(c == k);
        }
        assert forall|k: int| 0 <= k < self.new_offline@.len() implies {
            let id = (#[trigger] self.new_offline@[k]).id;
            &&& self.local().contains_key(id)
            &&& self.local()[id] == self.new_offline@[k]@
            &&& !self.remote().contains_key(id)
        } by {
            let id = self.new_offline@[k].id;
            assert(self.local_only(id));
            if self.paired(id) {
                let c = self.pair_of(id);
                assert(self.pairs@[c].0.id == self.new_offline@[k].id);
            }
            let c = self.local_only_at(id);
            assert(self.new_offline@[c].id == self.new_offline@[k].id);
            assert(c == k);
        }
        assert forall|id: TaskID| #[trigger] self.new_from_server@.contains_key(id) implies {
            &&& !self.local().contains_key(id)
            &&& self.remote().contains_key(id)
            &&& self.remote()[id] == self.new_from_server@[id]
        } by {
            if self.paired(id) {
                let c = self.pair_of(id);
                assert(!self.new_from_server@.contains_key(self.pairs@[c].0.id));
            }
            if self.local_only(id) {
                let c = self.local_only_at(id);
                assert(!self.new_from_server@.contains_key(self.new_offline@[c].id));
            }
        }
    }

    /// Sorts the two sides into the three groups.
    pub fn new(online: HashMap<TaskID, MetaData>, offline: Tasks) -> (res: Syncer)
        ensures
            res.wf(),
            res.local() == offline@,
            res.remote() == online@,
    {
        proof {
            use_type_invariant(&offline);
            offline.lemma_filed_under_id();
        }
        let ghost l = offline@;
        let ghost r = online@;
        let tasks = offline.into_vec();
        let ghost ts = tasks@;
        let mut online = online;
        let mut pairs: Vec<(Task, MetaData)> = Vec::new();
        let mut new_offline: Vec<Task> = Vec::new();
        let ghost mut pidx: Seq<int> = Seq::empty();
        let ghost mut oidx: Seq<int> = Seq::empty();
        for task in it: tasks
            invariant
                it.seq() == ts,
                lists(ts, l),
                forall|id: TaskID|
                    #[trigger] online@.contains_key(id) <==> r.contains_key(id) && !(exists|j: int|
                        0 <= j < it.index() && (#[trigger] ts[j]).id == id),
                forall|id: TaskID| online@.contains_key(id) ==> online@[id] == r[id],
                pidx.len() == pairs@.len(),
                oidx.len() == new_offline@.len(),
                forall|k: int|
                    0 <= k < pidx.len() ==> {
                        &&& 0 <= #[trigger] pidx[k] < it.index()
                        &&& pairs@[k].0 == ts[pidx[k]]
                        &&& r.contains_key(ts[pidx[k]].id)
                        &&& pairs@[k].1 == r[ts[pidx[k]].id]
                    },
                forall|a: int, b: int|
                    0 <= a < b < pidx.len() ==> #[trigger] pidx[a] < #[trigger] pidx[b],
                forall|k: int|
                    0 <= k < oidx.len() ==> {
                        &&& 0 <= #[trigger] oidx[k] < it.index()
                        &&& new_offline@[k] == ts[oidx[k]]
                        &&& !r.contains_key(ts[oidx[k]].id)
                    },
                forall|a: int, b: int|
                    0 <= a < b < oidx.len() ==> #[trigger] oidx[a] < #[trigger] oidx[b],
                forall|j: int|
                    0 <= j < it.index() ==> if r.contains_key((#[trigger] ts[j]).id) {
                        pidx.contains(j)
                    } else {
                        oidx.contains(j)
                    },
        {
            let ghost i = it.index();
            proof {
                assert(task == ts[i]);
                assert(!(exists|j: int| 0 <= j < i && (#[trigger] ts[j]).id == task.id)) by {
                    if exists|j: int| 0 <= j < i && (#[trigger] ts[j]).id == task.id {
                        let j = choose|j: int| 0 <= j < i && (#[trigger] ts[j]).id == task.id;
                        assert(ts[j].id != ts[i].id);
                    }
                }
            }
            match online.remove(&task.id) {
                Some(ontask) => {
                    pairs.push((task, ontask));
                    proof {
                        lemma_push_contains(pidx, i);
                        pidx = pidx.push(i);
                    }
                },
                None => {
                    new_offline.push(task);
                    proof {
                        lemma_push_contains(oidx, i);
                        oidx = oidx.push(i);
                    }
                },
            }
            proof {
                assert forall|id: TaskID| #[trigger]
                    online@.contains_key(id) <==> r.contains_key(id) && !(exists|j: int|
                        0 <= j < i + 1 && (#[trigger] ts[j]).id == id) by {
                    if id == ts[i].id {
                    } else {
                        if exists|j: int| 0 <= j < i + 1 && (#[trigger] ts[j]).id == id {
                            let j = choose|j: int| 0 <= j < i + 1 && (#[trigger] ts[j]).id == id;
                            assert(j < i);
                        }
                    }
                }
            }
        }
        proof {
            assert forall|a: int, b: int| 0 <= a < b < pairs@.len() implies (#[trigger] pairs@[a]).0.id
                != (#[trigger] pairs@[b]).0.id by {
                assert(pidx[a] < pidx[b]);
                assert(ts[pidx[a]].id != ts[pidx[b]].id);
            }
            assert forall|a: int, b: int| 0 <= a < b < new_offline@.len() implies (
            #[trigger] new_offline@[a]).id != (#[trigger] new_offline@[b]).id by {
                assert(oidx[a] < oidx[b]);
                assert(ts[oidx[a]].id != ts[oidx[b]].id);
            }
            assert forall|a: int, b: int|
                0 <= a < pairs@.len() && 0 <= b < new_offline@.len() implies (
            #[trigger] pairs@[a]).0.id != (#[trigger] new_offline@[b]).id by {
                assert(r.contains_key(ts[pidx[a]].id));
                assert(!r.contains_key(ts[oidx[b]].id));
            }
            assert forall|a: int| 0 <= a < pairs@.len() implies !online@.contains_key(
                (#[trigger] pairs@[a]).0.id,
            ) by {
                assert(ts[pidx[a]].id == pairs@[a].0.id);
            }
            assert forall|b: int| 0 <= b < new_offline@.len() implies !online@.contains_key(
                (#[trigger] new_offline@[b]).id,
            ) by {
                assert(ts[oidx[b]].id == new_offline@[b].id);
            }
        }
        let res = Syncer { pairs, new_from_server: online, new_offline };
        proof {
            assert(res.wf());
            res.lemma_groups();
            assert forall|id: TaskID| res.local().contains_key(id) <==> l.contains_key(id) by {
                if res.paired(id) {
                    let k = res.pair_of(id);
                    assert(res.pairs@[k].0 == ts[pidx[k]]);
                }
                if res.local_only(id) {
                    let k = res.local_only_at(id);
                    assert(res.new_offline@[k] == ts[oidx[k]]);
                }
                if l.contains_key(id) {
                    let j = choose|j: int| 0 <= j < ts.len() && (#[trigger] ts[j]).id == id;
                    if r.contains_key(ts[j].id) {
                        let k = choose|k: int| 0 <= k < pidx.len() && pidx[k] == j;
                        assert(res.pairs@[k].0.id == id);
                    } else {
                        let k = choose|k: int| 0 <= k < oidx.len() && oidx[k] == j;
                        assert(res.new_offline@[k].id == id);
                    }
                }
            }
            assert forall|id: TaskID| res.local().contains_key(id) implies res.local()[id]
                == l[id] by {
                if res.paired(id) {
                    let k = res.pair_of(id);
                    assert(res.pairs@[k].0 == ts[pidx[k]]);
                } else {
                    let k = res.local_only_at(id);
                    assert(res.new_offline@[k] == ts[oidx[k]]);
                }
            }
            assert(res.local() =~= l);
            assert forall|id: TaskID| res.remote().contains_key(id) <==> r.contains_key(id) by {
                if res.paired(id) {
                    let k = res.pair_of(id);
                    assert(res.pairs@[k].0 == ts[pidx[k]]);
                }
                if r.contains_key(id) && !res.new_from_server@.contains_key(id) {
                    let j = choose|j: int| 0 <= j < ts.len() && (#[trigger] ts[j]).id == id;
                    let k = choose|k: int| 0 <= k < pidx.len() && pidx[k] == j;
                    assert(res.pairs@[k].0.id == id);
                }
            }
            assert forall|id: TaskID| res.remote().contains_key(id) implies res.remote()[id]
                == r[id] by {
                if res.paired(id) {
                    let k = res.pair_of(id);
                    assert(res.pairs@[k].0 == ts[pidx[k]]);
                }
            }
            assert(res.remote() =~= r);
        }
        res
    }

    /// Decides what is written where. Of a pair, the side written last goes
    /// to the other side, and nothing is written where both were written at
    /// the same time; a task that one side lacks goes to that side.
    pub fn sync(self) -> (res: SyncResult)
        ensures
            res.is_plan_for(self.local(), self.remote()),
    {
        proof {
            use_type_invariant(&self);
            self.lemma_groups();
        }
        let ghost l = self.local();
        let ghost r = self.remote();
        let ghost whole = self;
        let Syncer { pairs, new_from_server, new_offline } = self;
        let ghost ps = pairs@;
        let ghost nfs = new_from_server@;
        let ghost no = new_offline@;
        let mut new_offline = new_offline;
        let mut send_up: Vec<Task> = Vec::new();
        let mut download = new_from_server;
        let ghost mut sidx: Seq<int> = Seq::empty();
        for pair in it: pairs
            invariant
                it.seq() == ps,
                ps == whole.pairs@,
                nfs == whole.new_from_server@,
                l == whole.local(),
                r == whole.remote(),
                whole.wf(),
                forall|k: int|
                    0 <= k < ps.len() ==> {
                        let id = (#[trigger] ps[k]).0.id;
                        &&& l.contains_key(id)
                        &&& l[id] == ps[k].0@
                        &&& r.contains_key(id)
                        &&& r[id] == ps[k].1
                    },
                forall|id: TaskID|
                    #[trigger] download@.contains_key(id) <==> nfs.contains_key(id)
                        || remote_won_among(ps, it.index(), id),
                forall|id: TaskID| download@.contains_key(id) ==> r.contains_key(id),
                forall|id: TaskID|
                    #[trigger] download@.contains_key(id) ==> download@[id] == r[id],
                sidx.len() == send_up@.len(),
                forall|k: int|
                    0 <= k < sidx.len() ==> {
                        &&& 0 <= #[trigger] sidx[k] < it.index()
                        &&& send_up@[k] == ps[sidx[k]].0
                        &&& ps[sidx[k]].1.updated.lt(ps[sidx[k]].0.metadata.updated)
                    },
                forall|a: int, b: int|
                    0 <= a < b < sidx.len() ==> #[trigger] sidx[a] < #[trigger] sidx[b],
                forall|j: int|
                    0 <= j < it.index() && (#[trigger] ps[j]).1.updated.lt(
                        ps[j].0.metadata.updated,
                    ) ==> sidx.contains(j),
        {
            let ghost i = it.index();
            let (off, on) = pair;
            proof {
                assert(pair == ps[i]);
                whole.lemma_groups();
                assert(r.contains_key(ps[i].0.id));
                lemma_remote_won_step(ps, i);
            }
            if off.metadata.updated.is_gt(&on.updated) {
                send_up.push(off);
                proof {
                    lemma_push_contains(sidx, i);
                    sidx = sidx.push(i);
                }
            } else if off.metadata.updated.is_lt(&on.updated) {
                download.insert(off.id, on);
            }
        }
        let ghost first = send_up@;
        send_up.append(&mut new_offline);
        proof {
            whole.lemma_groups();
            let up = uploads(l, r);
            let out = send_up@;
            assert(out == first + no);
            assert forall|a: int| 0 <= a < out.len() implies up.contains_key((#[trigger] out[a]).id)
                && up[out[a].id] == out[a]@ by {
                if a < first.len() {
                    assert(out[a] == ps[sidx[a]].0);
                } else {
                    assert(out[a] == no[a - first.len()]);
                    assert(no[a - first.len()] == whole.new_offline@[a - first.len()]);
                }
            }
            assert forall|a: int, b: int| 0 <= a < b < out.len() implies (#[trigger] out[a]).id != (
            #[trigger] out[b]).id by {
                if b < first.len() {
                    assert(sidx[a] < sidx[b]);
                    assert(ps[sidx[a]].0.id != ps[sidx[b]].0.id);
                } else if a < first.len() {
                    assert(out[a] == ps[sidx[a]].0);
                    assert(out[b] == whole.new_offline@[b - first.len()]);
                } else {
                    assert(out[a] == whole.new_offline@[a - first.len()]);
                    assert(out[b] == whole.new_offline@[b - first.len()]);
                }
            }
            assert forall|id: TaskID| up.contains_key(id) implies exists|a: int|
                0 <= a < out.len() && (#[trigger] out[a]).id == id by {
                if whole.paired(id) {
                    let j = whole.pair_of(id);
                    assert(ps[j].0.id == id);
                    assert(ps[j].1.updated.lt(ps[j].0.metadata.updated));
                    let k = choose|k: int| 0 <= k < sidx.len() && sidx[k] == j;
                    assert(out[k].id == id);
                } else {
                    let j = whole.local_only_at(id);
                    assert(out[first.len() + j] == no[j]);
                    assert(out[first.len() + j].id == id);
                }
            }
            let down = downloads(l, r);
            assert forall|id: TaskID| download@.contains_key(id) <==> down.contains_key(id) by {
                if download@.contains_key(id) && !nfs.contains_key(id) {
                    assert(remote_won_among(ps, ps.len() as int, id));
                    let j = choose|j: int|
                        0 <= j < ps.len() && (#[trigger] ps[j]).0.id == id
                            && ps[j].0.metadata.updated.lt(ps[j].1.updated);
                    assert(l[id] == ps[j].0@);
                }
                if down.contains_key(id) && !nfs.contains_key(id) {
                    assert(whole.paired(id));
                    let j = whole.pair_of(id);
                    assert(ps[j].0.id == id);
                    assert(l[id] == ps[j].0@);
                }
            }
            assert(download@ =~= down);
        }
        SyncResult { send_up, download }
    }
}

/// The write plan that brings the local tasks and the remote metadata to the
/// same state.
pub fn reconcile(online: HashMap<TaskID, MetaData>, offline: Tasks) -> (res: SyncResult)
    ensures
        res.is_plan_for(offline@, online@),
{
    Syncer::new(online, offline).sync()
}

} // verus!
