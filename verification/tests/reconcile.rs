use firelog::amount::Amount;
use firelog::log::{LogRecord, TaskLog};
use firelog::orchestrator::{SyncAction, SyncEvent, SyncRun};
use firelog::repository::Tasks;
use firelog::sync::{reconcile, SyncResult, Syncer};
use firelog::task::{MetaData, Task};
use firelog::time::Duration;
use firelog::value::ValueEq;
use std::collections::{BTreeSet, HashMap};

fn meta(name: &str, updated: u64) -> MetaData {
    MetaData {
        name: String::from(name),
        value: ValueEq::Const(Amount::one()),
        length: Duration::from_secs(60),
        created: Duration::from_secs(1),
        updated: Duration::from_secs(updated),
        deleted: false,
    }
}

fn task(id: u128, name: &str, updated: u64) -> Task {
    Task { id, log: TaskLog::default(), metadata: meta(name, updated) }
}

fn local(tasks: Vec<Task>) -> Tasks {
    let mut out = Tasks::default();
    for t in tasks {
        out.insert(t);
    }
    out
}

fn remote(entries: Vec<(u128, MetaData)>) -> HashMap<u128, MetaData> {
    entries.into_iter().collect()
}

fn upload_ids(plan: &SyncResult) -> Vec<u128> {
    let mut ids: Vec<u128> = plan.send_up.iter().map(|t| t.id).collect();
    ids.sort();
    ids
}

fn download_ids(plan: &SyncResult) -> Vec<u128> {
    let mut ids: Vec<u128> = plan.download.keys().copied().collect();
    ids.sort();
    ids
}

#[test]
fn newer_local_task_is_uploaded() {
    let plan = reconcile(remote(vec![(1, meta("remote", 50))]), local(vec![task(1, "local", 100)]));
    assert_eq!(upload_ids(&plan), vec![1]);
    assert_eq!(plan.send_up[0].metadata.name, "local");
    assert_eq!(plan.send_up[0].metadata.updated, Duration::from_secs(100));
    assert!(plan.download.is_empty());
}

#[test]
fn newer_remote_metadata_is_downloaded() {
    let plan = reconcile(remote(vec![(1, meta("remote", 100))]), local(vec![task(1, "local", 50)]));
    assert!(plan.send_up.is_empty());
    assert_eq!(download_ids(&plan), vec![1]);
    assert_eq!(plan.download[&1].name, "remote");
    assert_eq!(plan.download[&1].updated, Duration::from_secs(100));
}

#[test]
fn equal_times_need_no_write() {
    let plan = reconcile(remote(vec![(1, meta("remote", 70))]), local(vec![task(1, "local", 70)]));
    assert!(plan.send_up.is_empty());
    assert!(plan.download.is_empty());
}

#[test]
fn nanoseconds_decide_between_versions() {
    let mut newer = task(1, "local", 70);
    newer.metadata.updated = Duration::new(70, 1).unwrap();
    let plan = reconcile(remote(vec![(1, meta("remote", 70))]), local(vec![newer]));
    assert_eq!(upload_ids(&plan), vec![1]);
    assert!(plan.download.is_empty());
}

#[test]
fn tasks_of_one_side_go_to_the_other() {
    let plan = reconcile(remote(vec![(2, meta("server", 5))]), local(vec![task(1, "offline", 9)]));
    assert_eq!(upload_ids(&plan), vec![1]);
    assert_eq!(download_ids(&plan), vec![2]);
    assert_eq!(plan.download[&2].name, "server");
    let plan = reconcile(HashMap::new(), Tasks::default());
    assert!(plan.send_up.is_empty());
    assert!(plan.download.is_empty());
}

#[test]
fn the_plan_is_a_partition_of_all_ids() {
    let l = vec![
        task(1, "a", 10),
        task(2, "b", 20),
        task(3, "c", 30),
        task(4, "d", 40),
        task(5, "e", 50),
    ];
    let r = vec![
        (2, meta("b2", 25)),
        (3, meta("c2", 30)),
        (4, meta("d2", 35)),
        (6, meta("f", 60)),
        (7, meta("g", 1)),
    ];
    let plan = reconcile(remote(r.clone()), local(l.clone()));
    let up: BTreeSet<u128> = plan.send_up.iter().map(|t| t.id).collect();
    let down: BTreeSet<u128> = plan.download.keys().copied().collect();
    assert_eq!(up.len(), plan.send_up.len());
    assert_eq!(up, BTreeSet::from([1, 4, 5]));
    assert_eq!(down, BTreeSet::from([2, 6, 7]));
    let unchanged: BTreeSet<u128> = BTreeSet::from([3]);
    let mut all: BTreeSet<u128> = l.iter().map(|t| t.id).collect();
    all.extend(r.iter().map(|e| e.0));
    let mut covered = up.clone();
    covered.extend(down.iter());
    covered.extend(unchanged.iter());
    assert_eq!(covered, all);
    assert!(up.is_disjoint(&down));
    assert!(up.is_disjoint(&unchanged));
    assert!(down.is_disjoint(&unchanged));
    for t in &plan.send_up {
        let mine = l.iter().find(|x| x.id == t.id).unwrap();
        assert_eq!(t.metadata.name, mine.metadata.name);
    }
    for (id, m) in &plan.download {
        let theirs = r.iter().find(|x| x.0 == *id).unwrap();
        assert_eq!(m.name, theirs.1.name);
    }
}

#[test]
fn sorting_and_deciding_can_be_done_apart() {
    let syncer = Syncer::new(
        remote(vec![(1, meta("remote", 50)), (3, meta("new", 1))]),
        local(vec![task(1, "local", 100), task(2, "mine", 1)]),
    );
    let plan = syncer.sync();
    assert_eq!(upload_ids(&plan), vec![1, 2]);
    assert_eq!(download_ids(&plan), vec![3]);
    let empty = SyncResult::default();
    assert!(empty.send_up.is_empty() && empty.download.is_empty());
}

#[test]
fn uploaded_tasks_carry_their_logs() {
    let mut t = task(1, "local", 100);
    t.log.append(LogRecord::new(Duration::from_secs(9), Amount::one()));
    let plan = reconcile(HashMap::new(), local(vec![t]));
    assert_eq!(plan.send_up[0].log.len(), 1);
}

fn expect_nothing(action: SyncAction) {
    assert!(matches!(action, SyncAction::Nothing));
}

#[test]
fn a_run_without_a_user_only_refreshes() {
    let mut run = SyncRun::new();
    let mut tasks = local(vec![task(1, "a", 10)]);
    let action = run.step(&mut tasks, SyncEvent::Trigger { user: None });
    assert!(matches!(action, SyncAction::Refresh));
    assert!(!run.is_syncing());
}

#[test]
fn a_run_goes_through_its_phases_in_order() {
    let mut run = SyncRun::new();
    let mut tasks = local(vec![task(1, "local", 100), task(2, "stale", 5), task(3, "offline", 7)]);
    tasks.do_task(2, Amount::one(), Duration::from_secs(11)).unwrap();

    let action = run.step(&mut tasks, SyncEvent::Trigger { user: Some(String::from("uid")) });
    assert!(matches!(action, SyncAction::FetchTasks { ref user } if user == "uid"));
    assert!(run.is_syncing());

    let online = remote(vec![(1, meta("old", 50)), (2, meta("fresh", 9)), (4, meta("server", 3))]);
    let action = run.step(&mut tasks, SyncEvent::RemoteTasks { online });
    match action {
        SyncAction::Upload { user, tasks: up } => {
            assert_eq!(user, "uid");
            let mut ids: Vec<u128> = up.iter().map(|t| t.id).collect();
            ids.sort();
            assert_eq!(ids, vec![1, 3]);
        }
        _ => panic!("the tasks that won are uploaded first"),
    }
    assert_eq!(tasks.get_task(2).unwrap().metadata.name, "stale");
    assert!(tasks.get_task(4).is_none());

    let action = run.step(&mut tasks, SyncEvent::Uploaded);
    match action {
        SyncAction::FetchLogs { user, mut ids } => {
            assert_eq!(user, "uid");
            ids.sort();
            assert_eq!(ids, vec![1, 2, 3, 4]);
        }
        _ => panic!("the logs are compared after the metadata is settled"),
    }
    assert_eq!(tasks.get_task(2).unwrap().metadata.name, "fresh");
    assert_eq!(tasks.get_task(2).unwrap().log.len(), 1);
    assert_eq!(tasks.get_task(4).unwrap().metadata.name, "server");
    assert_eq!(tasks.get_task(4).unwrap().log.len(), 0);
    assert_eq!(tasks.get_task(1).unwrap().metadata.name, "local");

    let theirs = TaskLog::from_records(vec![
        LogRecord::new(Duration::from_secs(20), Amount::one()),
    ]);
    let action = run.step(&mut tasks, SyncEvent::RemoteLog { id: 2, log: theirs });
    match action {
        SyncAction::AppendLogs { result } => {
            assert_eq!(result.id, 2);
            assert_eq!(result.user_id, "uid");
            assert_eq!(
                result.send_up,
                vec![LogRecord::new(Duration::from_secs(11), Amount::one())]
            );
            assert_eq!(result.save.len(), 2);
        }
        _ => panic!("the records that the remote side lacks are sent up"),
    }
    assert_eq!(tasks.get_task(2).unwrap().log.len(), 2);

    expect_nothing(run.step(&mut tasks, SyncEvent::RemoteLog { id: 99, log: TaskLog::default() }));
    assert!(run.is_syncing());

    let action = run.step(&mut tasks, SyncEvent::LogsDone);
    assert!(matches!(action, SyncAction::Refresh));
    assert!(!run.is_syncing());
}

#[test]
fn a_run_under_way_is_not_started_again() {
    let mut run = SyncRun::new();
    let mut tasks = Tasks::default();
    run.step(&mut tasks, SyncEvent::Trigger { user: Some(String::from("uid")) });
    expect_nothing(run.step(&mut tasks, SyncEvent::Trigger { user: Some(String::from("other")) }));
    expect_nothing(run.step(&mut tasks, SyncEvent::Trigger { user: None }));
    assert!(matches!(run, SyncRun::FetchingTasks { ref user } if user == "uid"));
    expect_nothing(run.step(&mut tasks, SyncEvent::Uploaded));
    expect_nothing(run.step(&mut tasks, SyncEvent::LogsDone));
    assert!(run.is_syncing());
}

#[test]
fn events_out_of_phase_change_nothing() {
    let mut run = SyncRun::new();
    let mut tasks = local(vec![task(1, "a", 10)]);
    expect_nothing(run.step(&mut tasks, SyncEvent::Uploaded));
    expect_nothing(run.step(&mut tasks, SyncEvent::LogsDone));
    expect_nothing(run.step(&mut tasks, SyncEvent::Failed));
    expect_nothing(run.step(&mut tasks, SyncEvent::RemoteTasks { online: remote(vec![(9, meta("x", 1))]) }));
    expect_nothing(run.step(&mut tasks, SyncEvent::RemoteLog { id: 1, log: TaskLog::default() }));
    assert!(!run.is_syncing());
    assert!(tasks.get_task(9).is_none());
}

#[test]
fn a_failure_ends_the_run() {
    let mut run = SyncRun::new();
    let mut tasks = local(vec![task(1, "a", 10)]);
    run.step(&mut tasks, SyncEvent::Trigger { user: Some(String::from("uid")) });
    assert!(matches!(run.step(&mut tasks, SyncEvent::Failed), SyncAction::ReportFailure));
    assert!(!run.is_syncing());

    run.step(&mut tasks, SyncEvent::Trigger { user: Some(String::from("uid")) });
    run.step(&mut tasks, SyncEvent::RemoteTasks { online: remote(vec![(2, meta("server", 3))]) });
    assert!(matches!(run.step(&mut tasks, SyncEvent::Failed), SyncAction::ReportFailure));
    assert!(!run.is_syncing());
    assert!(tasks.get_task(2).is_none());

    run.step(&mut tasks, SyncEvent::Trigger { user: Some(String::from("uid")) });
    run.step(&mut tasks, SyncEvent::RemoteTasks { online: HashMap::new() });
    run.step(&mut tasks, SyncEvent::Uploaded);
    assert!(matches!(run.step(&mut tasks, SyncEvent::Failed), SyncAction::ReportFailure));
    assert!(!run.is_syncing());
}

#[test]
fn carrying_out_the_plan_brings_both_sides_together() {
    let mut mine = local(vec![task(1, "a", 10), task(2, "b", 20), task(3, "c", 30)]);
    let mut theirs = remote(vec![(2, meta("b2", 25)), (3, meta("c2", 30)), (4, meta("d", 5))]);
    let plan = reconcile(theirs.clone(), mine.clone());
    for t in &plan.send_up {
        theirs.insert(t.id, t.metadata.clone());
    }
    mine.apply_downloads(plan.download);
    let mut ids = mine.ids();
    ids.sort();
    assert_eq!(ids, vec![1, 2, 3, 4]);
    for id in ids {
        let here = mine.get_task(id).unwrap().metadata;
        let there = &theirs[&id];
        assert_eq!(here.updated, there.updated);
        if id != 3 {
            assert_eq!(here.name, there.name);
        }
    }
    let again = reconcile(theirs, mine);
    assert!(again.send_up.is_empty());
    assert!(again.download.is_empty());
}
