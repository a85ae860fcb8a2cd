//! Value models: how a task's worth follows from its configuration and its
//! completion history.
//!
//! The worth itself is a single-precision number and is computed outside this
//! library. What is decided here is everything that leads up to the curve:
//! which variant applies, which completion counts as the last one, how much
//! time has passed since, which units enter the daily average. The outcome is
//! a [`Valuation`], which names the variant and holds those durations and
//! amounts.

use crate::amount::{Amount, DEFAULT_SLOPE_BITS};
use crate::error::TaskError;
use crate::log::{LogRecord, TaskLog};
use crate::time::{Duration, UnixTime};
use vstd::prelude::*;

verus! {

/// A recurring task, such as cleaning a room: worth `factor` when a whole
/// `interval` has passed since it was last done, less before and more after.
#[derive(Clone, Copy, Debug, PartialEq, Eq, Structural)]
pub struct LogPriority {
    pub interval: Duration,
    pub factor: Amount,
    pub slope: Amount,
}

impl LogPriority {
    /// A recurring task with the default slope.
    pub fn new(factor: Amount, interval: Duration) -> (res: LogPriority)
        ensures
            res.interval == interval,
            res.factor == factor,
            res.slope == Amount(DEFAULT_SLOPE_BITS),
    {
        LogPriority { interval, factor, slope: Amount(DEFAULT_SLOPE_BITS) }
    }
}

/// A task measured in units of the user's choosing, such as pages read: its
/// worth follows from the daily target and the daily average reached so far.
#[derive(Debug)]
pub struct Contask {
    /// Units to complete per day, on average.
    pub daily_units: Amount,
    /// Worth of one unit done at the target rate.
    pub factor: Amount,
    /// When the quota was set up.
    pub created: UnixTime,
    /// What a unit is called.
    pub unit_name: Option<String>,
}

impl Contask {
    /// A quota of `daily_units` per day, set up at `now`.
    pub fn new(daily_units: Amount, factor: Amount, unit_name: String, now: UnixTime) -> (res:
        Contask)
        ensures
            res.daily_units == daily_units,
            res.factor == factor,
            res.created == now,
            res.unit_name == Some(unit_name),
    {
        Contask { daily_units, factor, created: now, unit_name: Some(unit_name) }
    }
}

impl Clone for Contask {
    fn clone(&self) -> (res: Self)
        ensures
            res == *self,
    {
        let unit_name = match &self.unit_name {
            Some(name) => Some(name.clone()),
            None => None,
        };
        Contask {
            daily_units: self.daily_units,
            factor: self.factor,
            created: self.created,
            unit_name,
        }
    }
}

/// The value model of a task.
#[derive(Debug)]
pub enum ValueEq {
    /// A recurring task.
    Log(LogPriority),
    /// A task of fixed worth.
    Const(Amount),
    /// A task with a daily quota.
    Cont(Contask),
}

impl Clone for ValueEq {
    fn clone(&self) -> (res: Self)
        ensures
            res == *self,
    {
        match self {
            ValueEq::Log(p) => ValueEq::Log(*p),
            ValueEq::Const(v) => ValueEq::Const(*v),
            ValueEq::Cont(c) => ValueEq::Cont(c.clone()),
        }
    }
}

/// A valuation laid out for the curve: the variant of the value model with
/// the durations and amounts that its formula reads.
#[derive(Debug)]
pub enum Valuation {
    /// The worth is `value`, whatever the time.
    Constant { value: Amount },
    /// The worth is `factor` times the curve at `elapsed / interval`.
    Recurring { factor: Amount, slope: Amount, elapsed: Duration, interval: Duration },
    /// The daily average is the sum of `logged` and `daily_units`, divided by
    /// the days in `age` plus one; the worth is `factor` times the curve at
    /// `daily_units` over that average.
    Quota { factor: Amount, daily_units: Amount, logged: Vec<Amount>, age: Duration },
}

/// The units of the records of a log, in the order of the log.
pub open spec fn units_of(log: Seq<LogRecord>) -> Seq<Amount> {
    log.map_values(|r: LogRecord| r.units)
}

/// Nanoseconds between the completion that counts as the last one and `now`.
/// A task that was never completed counts as completed one `interval` before
/// it was created.
pub open spec fn elapsed_nanos(
    log: Seq<LogRecord>,
    interval: Duration,
    created: UnixTime,
    now: UnixTime,
) -> int {
    if log.len() == 0 {
        now.as_nanos() - (created.as_nanos() - interval.as_nanos())
    } else {
        now.as_nanos() - log.last().time.as_nanos()
    }
}

/// Whether the times of a recurring task are in order: the fallback for a
/// task never completed does not reach back before the epoch, and the last
/// completion does not lie after `now`.
pub open spec fn recurring_in_order(
    log: Seq<LogRecord>,
    interval: Duration,
    created: UnixTime,
    now: UnixTime,
) -> bool {
    if log.len() == 0 {
        interval.as_nanos() <= created.as_nanos() && created.as_nanos() - interval.as_nanos()
            <= now.as_nanos()
    } else {
        log.last().time.as_nanos() <= now.as_nanos()
    }
}

/// Whether a valuation by `model` is refused because its times are out of
/// order: a recurring task as [`recurring_in_order`] says, a task with a
/// daily quota where it would be valued before it was created.
pub open spec fn out_of_order(
    model: ValueEq,
    log: Seq<LogRecord>,
    created: UnixTime,
    now: UnixTime,
) -> bool {
    match model {
        ValueEq::Const(_) => false,
        ValueEq::Log(p) => !recurring_in_order(log, p.interval, created, now),
        ValueEq::Cont(_) => now.as_nanos() < created.as_nanos(),
    }
}

/// Whether `res` is what `model` says of a task with the given history,
/// created at `created` and valued at `now`.
pub open spec fn valued(
    model: ValueEq,
    log: Seq<LogRecord>,
    created: UnixTime,
    now: UnixTime,
    res: Result<Valuation, TaskError>,
) -> bool {
    if out_of_order(model, log, created, now) {
        res == Err::<Valuation, TaskError>(TaskError::TimeOrder)
    } else {
        match model {
            ValueEq::Const(v) => res matches Ok(Valuation::Constant { value }) && value == v,
            ValueEq::Log(p) => res matches Ok(
                Valuation::Recurring { factor, slope, elapsed, interval },
            ) && factor == p.factor && slope == p.slope && interval == p.interval && elapsed.wf()
                && elapsed.as_nanos() == elapsed_nanos(log, p.interval, created, now),
            ValueEq::Cont(c) => res matches Ok(Valuation::Quota { factor, daily_units, logged, age })
                && factor == c.factor && daily_units == c.daily_units && logged@ == units_of(log)
                && age.wf() && age.as_nanos() == now.as_nanos() - created.as_nanos(),
        }
    }
}

/// At the calibration point, a whole interval after the completion that
/// counts as the last one, the valuation of a recurring task holds the
/// interval itself as the time that has passed: the curve is read at the ratio
/// one, where the worth is the factor.
pub proof fn lemma_calibration_point(
    p: LogPriority,
    log: Seq<LogRecord>,
    created: UnixTime,
    now: UnixTime,
    v: Valuation,
)
    requires
        p.interval.wf(),
        valued(ValueEq::Log(p), log, created, now, Ok(v)),
        elapsed_nanos(log, p.interval, created, now) == p.interval.as_nanos(),
    ensures
        v matches Valuation::Recurring { factor, slope, elapsed, interval } && elapsed == interval
            && interval == p.interval && factor == p.factor && slope == p.slope,
{
    match v {
        Valuation::Recurring { factor, slope, elapsed, interval } => {
            Duration::lemma_order_is_numeric(elapsed, interval);
        },
        _ => {},
    }
}

/// A recurring task that was never completed stands at the calibration point
/// at the moment it is created.
pub proof fn lemma_new_task_is_due(p: LogPriority, created: UnixTime)
    ensures
        elapsed_nanos(Seq::empty(), p.interval, created, created) == p.interval.as_nanos(),
{
}

impl ValueEq {
    /// Lays out the valuation of a task with history `logs`, created at
    /// `created`, as of `current_time`. The log is only read.
    pub fn value(&self, logs: &TaskLog, created: UnixTime, current_time: UnixTime) -> (res: Result<
        Valuation,
        TaskError,
    >)
        ensures
            valued(*self, logs@, created, current_time, res),
    {
        proof {
            use_type_invariant(&created);
            use_type_invariant(&current_time);
            Duration::lemma_order_is_numeric(created, current_time);
        }
        match self {
            ValueEq::Const(v) => Ok(Valuation::Constant { value: *v }),
            ValueEq::Cont(c) => {
                match current_time.checked_sub(&created) {
                    Some(age) => Ok(
                        Valuation::Quota {
                            factor: c.factor,
                            daily_units: c.daily_units,
                            logged: units(logs),
                            age,
                        },
                    ),
                    None => Err(TaskError::TimeOrder),
                }
            },
            ValueEq::Log(p) => {
                let last_completed = match logs.last_completed() {
                    Some(t) => Some(t),
                    None => created.checked_sub(&p.interval),
                };
                match last_completed {
                    None => {
                        proof {
                            use_type_invariant(&p.interval);
                            Duration::lemma_order_is_numeric(created, p.interval);
                        }
                        Err(TaskError::TimeOrder)
                    },
                    Some(last) => {
                        proof {
                            use_type_invariant(&p.interval);
                            use_type_invariant(&last);
                            Duration::lemma_order_is_numeric(current_time, last);
                            Duration::lemma_order_is_numeric(created, p.interval);
                        }
                        match current_time.checked_sub(&last) {
                            Some(elapsed) => Ok(
                                Valuation::Recurring {
                                    factor: p.factor,
                                    slope: p.slope,
                                    elapsed,
                                    interval: p.interval,
                                },
                            ),
                            None => Err(TaskError::TimeOrder),
                        }
                    },
                }
            },
        }
    }
}

/// The units of the records of `logs`, oldest first.
pub fn units(logs: &TaskLog) -> (res: Vec<Amount>)
    ensures
        res@ == units_of(logs@),
{
    let records = logs.records();
    let mut out: Vec<Amount> = Vec::new();
    let mut i: usize = 0;
    while i < records.len()
        invariant
            i <= records@.len(),
            records@ == logs@,
            out@ == units_of(logs@.take(i as int)),
        decreases records@.len() - i,
    {
        proof {
            assert(logs@.take(i + 1) =~= logs@.take(i as int).push(logs@[i as int]));
            assert(units_of(logs@.take(i + 1)) =~= units_of(logs@.take(i as int)).push(
                logs@[i as int].units,
            ));
        }
        out.push(records[i].units);
        i += 1;
    }
    proof {
        assert(logs@.take(logs@.len() as int) =~= logs@);
    }
    out
}

} // verus!
