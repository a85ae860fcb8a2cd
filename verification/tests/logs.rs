use firelog::amount::Amount;
use firelog::log::{LogRecord, LogSyncRes, TaskLog};
use firelog::time::Duration;
use firelog::utils::{logstr, secs_as_str, str_as_secs};
use std::collections::HashMap;

fn rec(t: u64, u: f32) -> LogRecord {
    LogRecord::new(Duration::from_secs(t), Amount(u.to_bits()))
}

fn log_of(records: &[LogRecord]) -> TaskLog {
    TaskLog::from_records(records.to_vec())
}

fn merge(a: &TaskLog, b: &TaskLog) -> Vec<LogRecord> {
    let mut out = a.clone();
    out.merge(b.clone());
    out.records().clone()
}

#[test]
fn log_sync_of_overlapping_logs() {
    let local = log_of(&[rec(1, 1.0), rec(2, 1.0)]);
    let remote = log_of(&[rec(2, 1.0), rec(3, 1.0)]);
    let res = TaskLog::sync(remote, local);
    assert_eq!(res.send_up, vec![rec(1, 1.0)]);
    assert_eq!(res.save.records(), &vec![rec(1, 1.0), rec(2, 1.0), rec(3, 1.0)]);
    assert_eq!(res.id, 0);
    assert_eq!(res.user_id, "");
}

#[test]
fn log_sync_drops_no_record() {
    let local = log_of(&[rec(5, 1.0), rec(9, 2.0), rec(1, 1.0), rec(7, 1.0)]);
    let remote = log_of(&[rec(9, 2.0), rec(4, 1.0), rec(7, 3.0)]);
    let res = TaskLog::sync(remote.clone(), local.clone());
    for r in &res.send_up {
        assert!(local.contains(r));
        assert!(!remote.contains(r));
    }
    for r in local.records() {
        assert!(res.save.contains(r));
        assert!(remote.contains(r) || res.send_up.contains(r));
    }
    for r in remote.records() {
        assert!(res.save.contains(r));
    }
    assert_eq!(res.send_up, vec![rec(1, 1.0), rec(5, 1.0), rec(7, 1.0)]);
    assert_eq!(res.save.len(), 6);
}

#[test]
fn log_sync_with_an_empty_side() {
    let local = log_of(&[rec(1, 1.0)]);
    let res = TaskLog::sync(TaskLog::default(), local.clone());
    assert_eq!(res.send_up, vec![rec(1, 1.0)]);
    assert_eq!(res.save.records(), local.records());
    let res = TaskLog::sync(local.clone(), TaskLog::default());
    assert!(res.send_up.is_empty());
    assert_eq!(res.save.records(), local.records());
    let res = TaskLog::sync(TaskLog::default(), TaskLog::default());
    assert!(res.send_up.is_empty());
    assert_eq!(res.save.len(), 0);
}

#[test]
fn merge_is_idempotent() {
    let l = log_of(&[rec(3, 1.0), rec(1, 1.0), rec(2, 0.5)]);
    assert_eq!(&merge(&l, &l), l.records());
    let empty = TaskLog::default();
    assert_eq!(merge(&empty, &empty), vec![]);
}

#[test]
fn merge_is_commutative() {
    let a = log_of(&[rec(1, 1.0), rec(2, 1.0), rec(2, 2.0)]);
    let b = log_of(&[rec(2, 1.5), rec(0, 1.0), rec(2, 1.0)]);
    assert_eq!(merge(&a, &b), merge(&b, &a));
    assert_eq!(
        merge(&a, &b),
        vec![rec(0, 1.0), rec(1, 1.0), rec(2, 1.0), rec(2, 1.5), rec(2, 2.0)]
    );
}

#[test]
fn merge_is_associative_and_absorbing() {
    let a = log_of(&[rec(1, 1.0), rec(4, 1.0)]);
    let b = log_of(&[rec(2, 1.0), rec(4, 1.0)]);
    let c = log_of(&[rec(3, 1.0), rec(1, 1.0)]);
    let ab = log_of(&merge(&a, &b));
    let bc = log_of(&merge(&b, &c));
    assert_eq!(merge(&ab, &c), merge(&a, &bc));
    assert_eq!(merge(&a, &ab), merge(&a, &b));
}

#[test]
fn append_keeps_order_and_drops_duplicates() {
    let mut log = TaskLog::default();
    assert_eq!(log.last_completed(), None);
    log.append(rec(10, 1.0));
    log.append(rec(5, 1.0));
    log.append(rec(10, 1.0));
    log.append(rec(7, 2.0));
    log.append(rec(7, 1.0));
    assert_eq!(log.records(), &vec![rec(5, 1.0), rec(7, 1.0), rec(7, 2.0), rec(10, 1.0)]);
    assert_eq!(log.len(), 4);
    assert_eq!(log.last_completed(), Some(Duration::from_secs(10)));
    assert!(log.contains(&rec(7, 2.0)));
    assert!(!log.contains(&rec(7, 3.0)));
    assert!(!log.contains(&rec(6, 1.0)));
}

#[test]
fn records_are_told_apart_by_their_bits() {
    let mut log = TaskLog::default();
    log.append(rec(1, 0.0));
    log.append(rec(1, -0.0));
    log.append(rec(1, f32::NAN));
    log.append(rec(1, f32::NAN));
    assert_eq!(log.len(), 3);
}

#[test]
fn from_records_sorts_and_dedups() {
    let log = log_of(&[rec(3, 1.0), rec(1, 1.0), rec(3, 1.0), rec(2, 1.0)]);
    assert_eq!(log.records(), &vec![rec(1, 1.0), rec(2, 1.0), rec(3, 1.0)]);
    assert_eq!(log_of(&[]).len(), 0);
}

#[test]
fn nanoseconds_order_records_within_a_second() {
    let a = LogRecord::new(Duration::new(1, 500).unwrap(), Amount::one());
    let b = LogRecord::new(Duration::new(1, 20).unwrap(), Amount::one());
    assert!(b.is_before(&a));
    assert!(!a.is_before(&b));
    assert!(!a.is_before(&a));
    let log = log_of(&[a, b]);
    assert_eq!(log.records(), &vec![b, a]);
}

#[test]
fn time_since_gives_the_age_of_each_record() {
    let log = log_of(&[rec(100, 1.0), rec(40, 1.0)]);
    let ages = log.time_since(Duration::new(100, 5).unwrap());
    assert_eq!(ages, vec![Duration::new(60, 5).unwrap(), Duration::new(0, 5).unwrap()]);
    assert!(TaskLog::default().time_since(Duration::zero()).is_empty());
}

#[test]
fn prefix_is_a_log_of_the_first_records() {
    let log = log_of(&[rec(1, 1.0), rec(2, 1.0), rec(3, 1.0)]);
    assert_eq!(log.prefix(2).records(), &vec![rec(1, 1.0), rec(2, 1.0)]);
    assert_eq!(log.prefix(0).len(), 0);
    assert_eq!(log.prefix(3).records(), log.records());
}

#[test]
fn a_fresh_result_is_empty() {
    let res = LogSyncRes::default();
    assert!(res.send_up.is_empty());
    assert_eq!(res.save.len(), 0);
    assert_eq!(res.id, 0);
    assert_eq!(res.user_id, "");
}

#[test]
fn remote_documents_make_up_a_log() {
    let docs = vec![
        (String::from("30"), None),
        (String::from("10"), Some(Amount(2.5f32.to_bits()))),
        (String::from("30"), Some(Amount::one())),
        (String::from("0020"), None),
    ];
    let log = TaskLog::from_remote(&docs).unwrap();
    assert_eq!(log.records(), &vec![rec(10, 2.5), rec(20, 1.0), rec(30, 1.0)]);
    assert_eq!(TaskLog::from_remote(&vec![]).unwrap().len(), 0);
}

#[test]
fn a_malformed_remote_time_gives_no_log() {
    for bad in ["", "12a", "-3", "1.5", "18446744073709551616", " 7"] {
        let docs = vec![(String::from("30"), None), (String::from(bad), None)];
        assert!(TaskLog::from_remote(&docs).is_none());
    }
}

#[test]
fn whole_seconds_are_read() {
    assert_eq!(str_as_secs("0"), Some(Duration::zero()));
    assert_eq!(str_as_secs("1700000000"), Some(Duration::from_secs(1_700_000_000)));
    assert_eq!(str_as_secs("18446744073709551615"), Some(Duration::from_secs(u64::MAX)));
    assert_eq!(str_as_secs("18446744073709551616"), None);
    assert_eq!(str_as_secs("000000000000000000000000000000000000000012"), Some(Duration::from_secs(12)));
    assert_eq!(str_as_secs("99999999999999999999999999999999999999"), None);
    assert_eq!(str_as_secs(""), None);
    assert_eq!(str_as_secs("+1"), None);
}

#[test]
fn a_log_is_merged_into_the_cache() {
    let mut cache: HashMap<u128, TaskLog> = HashMap::new();
    cache.insert(1, log_of(&[rec(1, 1.0), rec(3, 1.0)]));
    cache.insert(2, log_of(&[rec(9, 1.0)]));
    log_of(&[rec(2, 1.0), rec(3, 1.0)]).save_into(1, &mut cache);
    log_of(&[rec(5, 1.0)]).save_into(7, &mut cache);
    assert_eq!(cache[&1].records(), &vec![rec(1, 1.0), rec(2, 1.0), rec(3, 1.0)]);
    assert_eq!(cache[&2].records(), &vec![rec(9, 1.0)]);
    assert_eq!(cache[&7].records(), &vec![rec(5, 1.0)]);
    assert_eq!(cache.len(), 3);
}

#[test]
fn the_ages_of_a_log_are_shown_in_a_row() {
    let log = log_of(&[rec(100, 1.0), rec(190, 1.0), rec(10, 1.0)]);
    assert_eq!(logstr(&log, Duration::from_secs(190)), "3.0m, 1.5m, 0.0m");
    assert_eq!(logstr(&log_of(&[rec(0, 1.0)]), Duration::from_secs(90_000)), "1.0d");
    assert_eq!(logstr(&TaskLog::default(), Duration::zero()), "");
}

#[test]
fn carrying_out_a_comparison_brings_both_logs_together() {
    let local = log_of(&[rec(1, 1.0), rec(2, 1.0), rec(8, 2.0)]);
    let remote = log_of(&[rec(2, 1.0), rec(3, 1.0)]);
    let res = TaskLog::sync(remote.clone(), local);
    let mut there = remote;
    there.merge(TaskLog::from_records(res.send_up.clone()));
    assert_eq!(there.records(), res.save.records());
    let again = TaskLog::sync(there, res.save);
    assert!(again.send_up.is_empty());
}

#[test]
fn a_comparison_names_its_task_and_user() {
    let res = TaskLog::sync_id(
        9,
        String::from("uid"),
        log_of(&[rec(2, 1.0)]),
        log_of(&[rec(1, 1.0), rec(2, 1.0)]),
    );
    assert_eq!(res.id, 9);
    assert_eq!(res.user_id, "uid");
    assert_eq!(res.send_up, vec![rec(1, 1.0)]);
    assert_eq!(res.save.len(), 2);
}

#[test]
fn remote_times_are_written_and_read_back() {
    for secs in [0u64, 7, 10, 1_700_000_000, u64::MAX] {
        let text = secs_as_str(secs);
        assert_eq!(text, secs.to_string());
        assert_eq!(str_as_secs(&text), Some(Duration::from_secs(secs)));
    }
    let record = LogRecord::new(Duration::new(42, 999).unwrap(), Amount::one());
    assert_eq!(record.remote_timestamp(), "42");
    let log = TaskLog::from_remote(&vec![(record.remote_timestamp(), Some(record.units))]).unwrap();
    assert_eq!(log.records(), &vec![rec(42, 1.0)]);
}
