use firelog::amount::{Amount, DEFAULT_SLOPE_BITS};
use firelog::error::TaskError;
use firelog::log::{LogRecord, TaskLog};
use firelog::task::{MetaData, Task};
use firelog::time::Duration;
use firelog::value::{Contask, LogPriority, Valuation, ValueEq};

fn amount(x: f32) -> Amount {
    Amount(x.to_bits())
}

fn number(a: Amount) -> f32 {
    f32::from_bits(a.0)
}

fn curve(ratio: f32, slope: f32) -> f32 {
    ((slope - 2.) * ratio + 1.).log(slope - 1.)
}

fn seconds(d: Duration) -> f32 {
    d.as_secs() as f32 + d.subsec_nanos() as f32 / 1e9
}

fn evaluate(v: &Valuation) -> f32 {
    match v {
        Valuation::Constant { value } => number(*value),
        Valuation::Recurring { factor, slope, elapsed, interval } => {
            number(*factor) * curve(seconds(*elapsed) / seconds(*interval), number(*slope))
        }
        Valuation::Quota { factor, daily_units, logged, age } => {
            let total: f32 = logged.iter().map(|a| number(*a)).sum();
            let average = (total + number(*daily_units)) / (seconds(*age) / 86400. + 1.0);
            number(*factor)
                * curve(number(*daily_units) / average, f32::from_bits(DEFAULT_SLOPE_BITS))
        }
    }
}

fn task_with(value: ValueEq, created: u64, log: TaskLog) -> Task {
    Task {
        id: 7,
        log,
        metadata: MetaData {
            name: String::from("room"),
            value,
            length: Duration::from_secs(600),
            created: Duration::from_secs(created),
            updated: Duration::from_secs(created),
            deleted: false,
        },
    }
}

#[test]
fn test_log() {
    let day = Duration::from_secs(86400);
    let x = LogPriority::new(amount(1.0), day);
    let done = Duration::from_secs(1_700_000_000);
    let log = TaskLog::from_records(vec![LogRecord::new(done, Amount::one())]);
    let now = done.checked_add(&day).unwrap();
    let v = ValueEq::Log(x).value(&log, Duration::from_secs(1_600_000_000), now).unwrap();
    match &v {
        Valuation::Recurring { elapsed, interval, .. } => {
            assert_eq!(*elapsed, day);
            assert_eq!(*interval, day);
        }
        _ => panic!("a recurring task is valued as one"),
    }
    let y = evaluate(&v);
    assert_eq!(y, 1.0);
}

#[test]
fn default_slope_is_e_plus_one() {
    assert_eq!(f32::from_bits(DEFAULT_SLOPE_BITS), std::f32::consts::E + 1.);
    assert_eq!(Amount::default_slope(), Amount(DEFAULT_SLOPE_BITS));
    assert_eq!(number(Amount::one()), 1.0);
    let p = LogPriority::new(amount(3.0), Duration::from_secs(5));
    assert_eq!(p.slope, Amount::default_slope());
    assert_eq!(p.factor, amount(3.0));
    assert_eq!(p.interval, Duration::from_secs(5));
}

#[test]
fn recurring_never_completed_counts_from_one_interval_before_creation() {
    let created = Duration::from_secs(1_700_000_000);
    let model = ValueEq::Log(LogPriority::new(amount(2.0), Duration::from_secs(86400)));
    let v = model.value(&TaskLog::default(), created, created).unwrap();
    match &v {
        Valuation::Recurring { factor, elapsed, interval, slope } => {
            assert_eq!(*elapsed, Duration::from_secs(86400));
            assert_eq!(*interval, Duration::from_secs(86400));
            assert_eq!(*factor, amount(2.0));
            assert_eq!(*slope, Amount::default_slope());
        }
        _ => panic!("a recurring task is valued as one"),
    }
    let y = evaluate(&v);
    assert!(y.is_finite());
    assert_eq!(y, 2.0);
}

#[test]
fn recurring_counts_from_the_last_completion() {
    let created = Duration::from_secs(1_000);
    let model = ValueEq::Log(LogPriority::new(amount(2.0), Duration::from_secs(100)));
    let log = TaskLog::from_records(vec![
        LogRecord::new(Duration::from_secs(1_500), Amount::one()),
        LogRecord::new(Duration::from_secs(1_200), Amount::one()),
    ]);
    let v = model.value(&log, created, Duration::new(1_530, 250).unwrap()).unwrap();
    match v {
        Valuation::Recurring { elapsed, .. } => {
            assert_eq!(elapsed, Duration::new(30, 250).unwrap())
        }
        _ => panic!("a recurring task is valued as one"),
    }
}

#[test]
fn recurring_refuses_times_out_of_order() {
    let model = ValueEq::Log(LogPriority::new(amount(2.0), Duration::from_secs(100)));
    let log = TaskLog::from_records(vec![LogRecord::new(Duration::from_secs(500), Amount::one())]);
    let r = model.value(&log, Duration::from_secs(10), Duration::from_secs(499));
    assert!(matches!(r, Err(TaskError::TimeOrder)));
    let r = model.value(&TaskLog::default(), Duration::from_secs(99), Duration::from_secs(499));
    assert!(matches!(r, Err(TaskError::TimeOrder)));
    let r = model.value(&TaskLog::default(), Duration::from_secs(100), Duration::from_secs(0));
    assert!(matches!(r, Ok(Valuation::Recurring { .. })));
}

#[test]
fn quota_after_one_day_without_completions() {
    let t0 = Duration::from_secs(1_700_000_000);
    let model = ValueEq::Cont(Contask::new(amount(10.0), amount(5.0), String::from("pages"), t0));
    let now = t0.checked_add(&Duration::from_secs(86400)).unwrap();
    let v = model.value(&TaskLog::default(), t0, now).unwrap();
    match &v {
        Valuation::Quota { factor, daily_units, logged, age } => {
            assert_eq!(*factor, amount(5.0));
            assert_eq!(*daily_units, amount(10.0));
            assert!(logged.is_empty());
            assert_eq!(*age, Duration::from_secs(86400));
        }
        _ => panic!("a task with a quota is valued as one"),
    }
    let expected = 5.0 * curve(2.0, std::f32::consts::E + 1.);
    assert_eq!(evaluate(&v), expected);
}

#[test]
fn quota_reads_the_units_of_every_record() {
    let t0 = Duration::from_secs(1_000);
    let model = ValueEq::Cont(Contask::new(amount(10.0), amount(5.0), String::from("pages"), t0));
    let log = TaskLog::from_records(vec![
        LogRecord::new(Duration::from_secs(3_000), amount(4.0)),
        LogRecord::new(Duration::from_secs(2_000), amount(2.5)),
    ]);
    let v = model.value(&log, t0, Duration::from_secs(4_000)).unwrap();
    match v {
        Valuation::Quota { logged, age, .. } => {
            assert_eq!(logged, vec![amount(2.5), amount(4.0)]);
            assert_eq!(age, Duration::from_secs(3_000));
        }
        _ => panic!("a task with a quota is valued as one"),
    }
    let r = model.value(&log, t0, Duration::from_secs(999));
    assert!(matches!(r, Err(TaskError::TimeOrder)));
}

#[test]
fn constant_ignores_log_and_time() {
    let model = ValueEq::Const(amount(12.5));
    let log = TaskLog::from_records(vec![LogRecord::new(Duration::from_secs(9), Amount::one())]);
    let v = model.value(&log, Duration::from_secs(100), Duration::from_secs(1)).unwrap();
    assert!(matches!(v, Valuation::Constant { value } if value == amount(12.5)));
    assert_eq!(log.len(), 1);
}

#[test]
fn the_curve_rises_with_the_ratio() {
    let slope = std::f32::consts::E + 1.;
    let mut last = curve(0.0, slope);
    assert_eq!(last, 0.0);
    for step in 1..40 {
        let next = curve(step as f32 * 0.25, slope);
        assert!(next > last);
        last = next;
    }
    assert_eq!(curve(1.0, slope), 1.0);
    assert_eq!(curve(1.0, 5.0), 1.0);
}

#[test]
fn priority_needs_a_length() {
    let mut task = task_with(ValueEq::Const(amount(3.0)), 100, TaskLog::default());
    let p = task.priority(Duration::from_secs(200)).unwrap();
    assert_eq!(p.length, Duration::from_secs(600));
    assert!(matches!(p.value, Valuation::Constant { value } if value == amount(3.0)));
    task.metadata.length = Duration::zero();
    assert!(matches!(task.priority(Duration::from_secs(200)), Err(TaskError::ZeroLength)));
    let early = task_with(
        ValueEq::Cont(Contask::new(amount(1.0), amount(1.0), String::from("km"), Duration::zero())),
        100,
        TaskLog::default(),
    );
    assert!(matches!(early.priority(Duration::from_secs(50)), Err(TaskError::TimeOrder)));
}

#[test]
fn value_since_takes_each_completion_after_the_cutoff() {
    let model = ValueEq::Cont(Contask::new(
        amount(10.0),
        amount(5.0),
        String::from("pages"),
        Duration::from_secs(1_000),
    ));
    let log = TaskLog::from_records(vec![
        LogRecord::new(Duration::from_secs(2_000), amount(1.0)),
        LogRecord::new(Duration::from_secs(3_000), amount(2.0)),
        LogRecord::new(Duration::from_secs(4_000), amount(3.0)),
    ]);
    let task = task_with(model, 1_000, log);
    let vals = task.value_since(Duration::from_secs(2_000)).unwrap();
    assert_eq!(vals.len(), 2);
    match &vals[0] {
        Valuation::Quota { logged, age, .. } => {
            assert_eq!(*logged, vec![amount(1.0), amount(2.0)]);
            assert_eq!(*age, Duration::from_secs(2_000));
        }
        _ => panic!("a task with a quota is valued as one"),
    }
    match &vals[1] {
        Valuation::Quota { logged, age, .. } => {
            assert_eq!(*logged, vec![amount(1.0), amount(2.0), amount(3.0)]);
            assert_eq!(*age, Duration::from_secs(3_000));
        }
        _ => panic!("a task with a quota is valued as one"),
    }
    assert_eq!(task.value_since(Duration::from_secs(4_000)).unwrap().len(), 0);
    assert_eq!(task.value_since(Duration::zero()).unwrap().len(), 3);
}

#[test]
fn value_since_of_a_recurring_task_values_each_completion_as_the_latest() {
    let model = ValueEq::Log(LogPriority::new(amount(2.0), Duration::from_secs(100)));
    let log = TaskLog::from_records(vec![
        LogRecord::new(Duration::from_secs(2_000), Amount::one()),
        LogRecord::new(Duration::from_secs(3_000), Amount::one()),
    ]);
    let task = task_with(model, 1_000, log);
    let vals = task.value_since(Duration::from_secs(2_500)).unwrap();
    assert_eq!(vals.len(), 1);
    assert!(matches!(vals[0], Valuation::Recurring { elapsed, .. } if elapsed == Duration::zero()));
}

#[test]
fn value_since_refuses_a_completion_before_creation() {
    let model = ValueEq::Cont(Contask::new(
        amount(10.0),
        amount(5.0),
        String::from("pages"),
        Duration::from_secs(1_000),
    ));
    let log = TaskLog::from_records(vec![LogRecord::new(Duration::from_secs(500), amount(1.0))]);
    let task = task_with(model, 1_000, log);
    assert!(matches!(task.value_since(Duration::zero()), Err(TaskError::TimeOrder)));
    assert_eq!(task.value_since(Duration::from_secs(500)).unwrap().len(), 0);
}
