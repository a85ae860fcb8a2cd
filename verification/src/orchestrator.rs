//! The course of one synchronisation run.
//!
//! A run is started by the user and goes through its phases in a fixed
//! order: the remote tasks are fetched and compared with the local ones, the
//! local tasks that won are uploaded, only then the remote metadata that won
//! is taken over, and only then the logs of all tasks now known are compared.
//! The remote calls themselves are made elsewhere: [`SyncRun::step`] is told
//! what happened and answers with what is to be done next.

use crate::ident::TaskID;
use crate::log::{merged, missing_from, LogSyncRes, TaskLog};
use crate::repository::{lists, with_downloads, Tasks};
use crate::sync::{downloads, reconcile, uploads};
use crate::task::{MetaData, Task, TaskView};
use std::collections::HashMap;
use vstd::prelude::*;

verus! {

/// Where a synchronisation run stands.
#[derive(Debug)]
pub enum SyncRun {
    /// No run is under way.
    Idle,
    /// The remote tasks of `user` were asked for.
    FetchingTasks { user: String },
    /// The uploads were handed out; `download` waits for them to complete.
    Uploading { user: String, download: HashMap<TaskID, MetaData> },
    /// The remote logs were asked for and are compared as they arrive.
    SyncingLogs { user: String },
}

/// What happened outside.
#[derive(Debug)]
pub enum SyncEvent {
    /// The user asks for a run; `user` is who is signed in, if anyone is.
    Trigger { user: Option<String> },
    /// The remote tasks arrived.
    RemoteTasks { online: HashMap<TaskID, MetaData> },
    /// Every upload that was handed out has completed.
    Uploaded,
    /// The remote log of the task `id` arrived.
    RemoteLog { id: TaskID, log: TaskLog },
    /// Every remote log was handed in and every record sent up.
    LogsDone,
    /// A remote call failed.
    Failed,
}

/// What is to be done outside.
#[derive(Debug)]
pub enum SyncAction {
    /// Nothing: the event does not belong to the phase the run is in.
    Nothing,
    /// Show the local tasks anew.
    Refresh,
    /// Fetch the remote tasks of `user`.
    FetchTasks { user: String },
    /// Write `tasks` to the remote side, all of them, then report
    /// [`SyncEvent::Uploaded`].
    Upload { user: String, tasks: Vec<Task> },
    /// Fetch the remote log of each of `ids` and hand it in, then report
    /// [`SyncEvent::LogsDone`].
    FetchLogs { user: String, ids: Vec<TaskID> },
    /// Append the records of `send_up` to the remote log of the task.
    AppendLogs { result: LogSyncRes },
    /// Tell the user that the run failed and can be tried again.
    ReportFailure,
}

impl SyncRun {
    /// Whether a run is under way. A new run starts only when none is.
    pub fn is_syncing(&self) -> (res: bool)
        ensures
            res == !(self is Idle),
    {
        match self {
            SyncRun::Idle => false,
            _ => true,
        }
    }

    /// A run that has not started.
    pub fn new() -> (res: SyncRun)
        ensures
            res is Idle,
    {
        SyncRun::Idle
    }

    /// Whether `after`, `tasks_after` and `action` are what follows from
    /// `event` in the phase `before` with the local tasks `tasks_before`.
    pub open spec fn follows(
        before: SyncRun,
        tasks_before: Map<TaskID, TaskView>,
        event: SyncEvent,
        after: SyncRun,
        tasks_after: Map<TaskID, TaskView>,
        action: SyncAction,
    ) -> bool {
        match (before, event) {
            (SyncRun::Idle, SyncEvent::Trigger { user: None }) => {
                &&& after is Idle
                &&& tasks_after == tasks_before
                &&& action is Refresh
            },
            (SyncRun::Idle, SyncEvent::Trigger { user: Some(u) }) => {
                &&& after matches SyncRun::FetchingTasks { user }
                &&& user@ == u@
                &&& tasks_after == tasks_before
                &&& action matches SyncAction::FetchTasks { user: asked }
                &&& asked@ == u@
            },
            (SyncRun::FetchingTasks { user: u }, SyncEvent::RemoteTasks { online }) => {
                &&& after matches SyncRun::Uploading { user, download }
                &&& user@ == u@
                &&& download@ == downloads(tasks_before, online@)
                &&& tasks_after == tasks_before
                &&& action matches SyncAction::Upload { user: asked, tasks }
                &&& asked@ == u@
                &&& lists(tasks@, uploads(tasks_before, online@))
            },
            (SyncRun::Uploading { user: u, download: d }, SyncEvent::Uploaded) => {
                &&& after matches SyncRun::SyncingLogs { user }
                &&& user@ == u@
                &&& tasks_after == with_downloads(tasks_before, d@)
                &&& action matches SyncAction::FetchLogs { user: asked, ids }
                &&& asked@ == u@
                &&& ids@.no_duplicates()
                &&& ids@.to_set() == tasks_after.dom()
            },
            (SyncRun::SyncingLogs { user: u }, SyncEvent::RemoteLog { id, log: online }) => {
                &&& after matches SyncRun::SyncingLogs { user }
                &&& user@ == u@
                &&& if tasks_before.contains_key(id) {
                    &&& tasks_after == tasks_before.insert(
                        id,
                        TaskView {
                            log: merged(tasks_before[id].log, online@),
                            ..tasks_before[id]
                        },
                    )
                    &&& action matches SyncAction::AppendLogs { result }
                    &&& result.id == id
                    &&& result.user_id@ == u@
                    &&& result.send_up@ == missing_from(tasks_before[id].log, online@)
                    &&& result.save@ == merged(tasks_before[id].log, online@)
                } else {
                    &&& tasks_after == tasks_before
                    &&& action is Nothing
                }
            },
            (SyncRun::SyncingLogs { user: _ }, SyncEvent::LogsDone) => {
                &&& after is Idle
                &&& tasks_after == tasks_before
                &&& action is Refresh
            },
            (SyncRun::FetchingTasks { user: _ }, SyncEvent::Failed)
            | (SyncRun::Uploading { user: _, download: _ }, SyncEvent::Failed)
            | (SyncRun::SyncingLogs { user: _ }, SyncEvent::Failed) => {
                &&& after is Idle
                &&& tasks_after == tasks_before
                &&& action is ReportFailure
            },
            _ => {
                &&& Self::same_phase(before, after)
                &&& tasks_after == tasks_before
                &&& action is Nothing
            },
        }
    }

    /// Whether two runs stand at the same point, for the same user and with
    /// the same metadata held back.
    pub open spec fn same_phase(a: SyncRun, b: SyncRun) -> bool {
        match (a, b) {
            (SyncRun::Idle, SyncRun::Idle) => true,
            (SyncRun::FetchingTasks { user: u }, SyncRun::FetchingTasks { user: v }) => u@ == v@,
            (
                SyncRun::Uploading { user: u, download: d },
                SyncRun::Uploading { user: v, download: e },
            ) => u@ == v@ && d@ == e@,
            (SyncRun::SyncingLogs { user: u }, SyncRun::SyncingLogs { user: v }) => u@ == v@,
            _ => false,
        }
    }

    /// While a run is under way no second one starts: a request for one
    /// leaves the run where it stands and the local tasks as they are, and
    /// asks for nothing.
    pub proof fn lemma_no_second_run(
        before: SyncRun,
        tasks_before: Map<TaskID, TaskView>,
        user: Option<String>,
        after: SyncRun,
        tasks_after: Map<TaskID, TaskView>,
        action: SyncAction,
    )
        requires
            !(before is Idle),
            Self::follows(
                before,
                tasks_before,
                SyncEvent::Trigger { user },
                after,
                tasks_after,
                action,
            ),
        ensures
            Self::same_phase(before, after),
            !(after is Idle),
            tasks_after == tasks_before,
            action is Nothing,
    {
    }

    /// Takes the run one step on: `event` is what happened, the result what
    /// is to be done next. The local tasks change only where the run is in
    /// the phase for it.
    pub fn step(&mut self, tasks: &mut Tasks, event: SyncEvent) -> (action: SyncAction)
        ensures
            Self::follows(*old(self), old(tasks)@, event, *final(self), final(tasks)@, action),
    {
        let mut run = SyncRun::Idle;
        core::mem::swap(self, &mut run);
        match (run, event) {
            (SyncRun::Idle, SyncEvent::Trigger { user: None }) => SyncAction::Refresh,
            (SyncRun::Idle, SyncEvent::Trigger { user: Some(u) }) => {
                *self = SyncRun::FetchingTasks { user: u.clone() };
                SyncAction::FetchTasks { user: u }
            },
            (SyncRun::FetchingTasks { user }, SyncEvent::RemoteTasks { online }) => {
                let plan = reconcile(online, tasks.clone());
                *self = SyncRun::Uploading { user: user.clone(), download: plan.download };
                SyncAction::Upload { user, tasks: plan.send_up }
            },
            (SyncRun::Uploading { user, download }, SyncEvent::Uploaded) => {
                tasks.apply_downloads(download);
                *self = SyncRun::SyncingLogs { user: user.clone() };
                SyncAction::FetchLogs { user, ids: tasks.ids() }
            },
            (SyncRun::SyncingLogs { user }, SyncEvent::RemoteLog { id, log: online }) => {
                *self = SyncRun::SyncingLogs { user: user.clone() };
                match tasks.sync_log(id, user, online) {
                    Ok(result) => SyncAction::AppendLogs { result },
                    Err(_) => SyncAction::Nothing,
                }
            },
            (SyncRun::SyncingLogs { user: _ }, SyncEvent::LogsDone) => SyncAction::Refresh,
            (SyncRun::FetchingTasks { user: _ }, SyncEvent::Failed) => SyncAction::ReportFailure,
            (SyncRun::Uploading { user: _, download: _ }, SyncEvent::Failed) => {
                SyncAction::ReportFailure
            },
            (SyncRun::SyncingLogs { user: _ }, SyncEvent::Failed) => SyncAction::ReportFailure,
            (other, _) => {
                *self = other;
                SyncAction::Nothing
            },
        }
    }
}

} // verus!
