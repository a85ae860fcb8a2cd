//! Tasks: an identifier, the metadata that the user edits, and the log of
//! completions.

use crate::amount::Amount;
use crate::error::TaskError;
use crate::ident::{fresh_id, is_random_id, TaskID};
use crate::log::{LogRecord, TaskLog};
use crate::time::{Duration, UnixTime};
use crate::value::{out_of_order, valued, Contask, LogPriority, Valuation, ValueEq};
use vstd::prelude::*;

verus! {

/// What the user says of a task, apart from its completions.
#[derive(Debug)]
pub struct MetaData {
    pub name: String,
    /// The value model of the task.
    pub value: ValueEq,
    /// How long the task is expected to take.
    pub length: Duration,
    pub created: UnixTime,
    /// When the metadata was last written.
    pub updated: UnixTime,
    /// Deleted tasks stay in the repository and are no longer shown.
    pub deleted: bool,
}

impl Clone for MetaData {
    fn clone(&self) -> (res: Self)
        ensures
            res == *self,
    {
        MetaData {
            name: self.name.clone(),
            value: self.value.clone(),
            length: self.length,
            created: self.created,
            updated: self.updated,
            deleted: self.deleted,
        }
    }
}

impl MetaData {
    /// The metadata was not written before the task was created.
    pub open spec fn wf(self) -> bool {
        !self.updated.lt(self.created)
    }

    /// The time that a write at `now` leaves in `updated`: `now`, or the time
    /// of creation where the clock reads earlier than that.
    pub open spec fn bumped(self, now: UnixTime) -> UnixTime {
        if now.lt(self.created) {
            self.created
        } else {
            now
        }
    }

    /// The metadata of a task created at `now`. A task that takes no time at
    /// all is refused.
    pub fn new(name: String, equation: ValueEq, length: Duration, now: UnixTime) -> (res: Result<
        MetaData,
        TaskError,
    >)
        ensures
            length.secs() == 0 && length.nanos() == 0 ==> res == Err::<MetaData, TaskError>(
                TaskError::ZeroLength,
            ),
            !(length.secs() == 0 && length.nanos() == 0) ==> res == Ok::<MetaData, TaskError>(
                MetaData {
                    name,
                    value: equation,
                    length,
                    created: now,
                    updated: now,
                    deleted: false,
                },
            ),
            res matches Ok(m) ==> m.wf(),
    {
        if length.is_zero() {
            Err(TaskError::ZeroLength)
        } else {
            Ok(
                MetaData {
                    name,
                    value: equation,
                    length,
                    created: now,
                    updated: now,
                    deleted: false,
                },
            )
        }
    }

    /// Marks the metadata as written at `now`.
    pub fn touch(&mut self, now: UnixTime)
        ensures
            *final(self) == (MetaData { updated: old(self).bumped(now), ..*old(self) }),
            final(self).wf(),
    {
        if now.is_lt(&self.created) {
            self.updated = self.created;
        } else {
            self.updated = now;
        }
    }
}

/// A task: what identifies it, what the user says of it, and when it was
/// completed.
#[derive(Debug)]
pub struct Task {
    pub id: TaskID,
    pub log: TaskLog,
    pub metadata: MetaData,
}

/// The priority of a task laid out for evaluation: its value, to be divided
/// by the hours in `length`, which is never zero.
#[derive(Debug)]
pub struct Priority {
    pub value: Valuation,
    pub length: Duration,
}

/// The index of the first record of `log` after `cutoff`: the records before
/// it are not after `cutoff`, and those from it on are.
pub open spec fn is_first_after(log: Seq<LogRecord>, cutoff: UnixTime, start: int) -> bool {
    &&& 0 <= start <= log.len()
    &&& forall|i: int| 0 <= i < start ==> !cutoff.lt((#[trigger] log[i]).time)
    &&& forall|i: int| start <= i < log.len() ==> cutoff.lt((#[trigger] log[i]).time)
}

/// Whether `res` lays out the value that `task` accrued after `cutoff`: one
/// valuation for each completion after `cutoff`, oldest first, each as of the
/// time of that completion and from the log up to and including it; or the
/// refusal that one of these valuations meets.
pub open spec fn accrues(
    task: TaskView,
    cutoff: UnixTime,
    res: Result<Vec<Valuation>, TaskError>,
) -> bool {
    match res {
        Ok(vals) => exists|start: int|
            {
                &&& is_first_after(task.log, cutoff, start)
                &&& vals@.len() == task.log.len() - start
                &&& forall|k: int|
                    0 <= k < vals@.len() ==> valued(
                        task.metadata.value,
                        task.log.take(start + k + 1),
                        task.metadata.created,
                        task.log[start + k].time,
                        Ok(#[trigger] vals@[k]),
                    )
            },
        Err(e) => e == TaskError::TimeOrder && accrual_fails(task, cutoff),
    }
}

/// Whether a completion of `task` after `cutoff` cannot be valued, its times
/// being out of order.
pub open spec fn accrual_fails(task: TaskView, cutoff: UnixTime) -> bool {
    exists|i: int|
        0 <= i < task.log.len() && cutoff.lt(task.log[i].time) && out_of_order(
            task.metadata.value,
            task.log.take(i + 1),
            task.metadata.created,
            #[trigger] task.log[i].time,
        )
}

/// A task as a value: its log is the sequence of its records.
pub struct TaskView {
    pub id: TaskID,
    pub log: Seq<LogRecord>,
    pub metadata: MetaData,
}

impl View for Task {
    type V = TaskView;

    open spec fn view(&self) -> TaskView {
        TaskView { id: self.id, log: self.log@, metadata: self.metadata }
    }
}

impl Clone for Task {
    fn clone(&self) -> (res: Self)
        ensures
            res@ == self@,
    {
        Task { id: self.id, log: self.log.clone(), metadata: self.metadata.clone() }
    }
}

impl Task {
    /// A new task under the identifier `id`, with an empty log, created at
    /// `now`. A task that takes no time at all is refused.
    pub fn with_id(id: TaskID, name: String, equation: ValueEq, length: Duration, now: UnixTime) -> (res:
        Result<Task, TaskError>)
        ensures
            length.secs() == 0 && length.nanos() == 0 ==> res == Err::<Task, TaskError>(
                TaskError::ZeroLength,
            ),
            !(length.secs() == 0 && length.nanos() == 0) ==> res is Ok,
            res matches Ok(task) ==> task.id == id && task.log@ == Seq::<LogRecord>::empty()
                && task.metadata == (MetaData {
                name,
                value: equation,
                length,
                created: now,
                updated: now,
                deleted: false,
            }),
    {
        match MetaData::new(name, equation, length, now) {
            Ok(metadata) => Ok(Task { id, metadata, log: TaskLog::default() }),
            Err(e) => Err(e),
        }
    }

    /// A new task with a fresh random identifier and an empty log, created at
    /// `now`. A task that takes no time at all is refused.
    pub fn new(name: String, equation: ValueEq, length: Duration, now: UnixTime) -> (res: Result<
        Task,
        TaskError,
    >)
        ensures
            length.secs() == 0 && length.nanos() == 0 ==> res == Err::<Task, TaskError>(
                TaskError::ZeroLength,
            ),
            !(length.secs() == 0 && length.nanos() == 0) ==> res is Ok,
            res matches Ok(task) ==> is_random_id(task.id) && task.log@ == Seq::<LogRecord>::empty()
                && task.metadata == (MetaData {
                name,
                value: equation,
                length,
                created: now,
                updated: now,
                deleted: false,
            }),
    {
        Task::with_id(fresh_id(), name, equation, length, now)
    }

    /// Lays out the valuation of the task as of `now`.
    pub fn value(&self, now: UnixTime) -> (res: Result<Valuation, TaskError>)
        ensures
            valued(self.metadata.value, self.log@, self.metadata.created, now, res),
    {
        self.metadata.value.value(&self.log, self.metadata.created, now)
    }

    /// Whether the task is a recurring one, done as a whole each time.
    pub fn is_disc(&self) -> (res: bool)
        ensures
            res == (self.metadata.value is Log),
    {
        match self.metadata.value {
            ValueEq::Log(_) => true,
            ValueEq::Cont(_) => false,
            ValueEq::Const(_) => false,
        }
    }

    /// Names the unit of a task with a daily quota, as of `now`. Other tasks
    /// have no unit and stay as they are.
    pub fn set_unit_name(&mut self, s: String, now: UnixTime) -> (res: Result<(), TaskError>)
        ensures
            match old(self).metadata.value {
                ValueEq::Cont(c) => res is Ok && *final(self) == (Task {
                    metadata: MetaData {
                        value: ValueEq::Cont(Contask { unit_name: Some(s), ..c }),
                        updated: old(self).metadata.bumped(now),
                        ..old(self).metadata
                    },
                    ..*old(self)
                }),
                _ => res == Err::<(), TaskError>(TaskError::WrongModel) && *final(self) == *old(
                    self,
                ),
            },
    {
        match &mut self.metadata.value {
            ValueEq::Cont(l) => {
                l.unit_name = Some(s);
            },
            _ => {
                return Err(TaskError::WrongModel);
            },
        }
        self.metadata.touch(now);
        Ok(())
    }

    /// Sets the daily target of a task with a daily quota, as of `now`.
    /// Other tasks have no target and stay as they are.
    pub fn set_units(&mut self, units: Amount, now: UnixTime) -> (res: Result<(), TaskError>)
        ensures
            match old(self).metadata.value {
                ValueEq::Cont(c) => res is Ok && *final(self) == (Task {
                    metadata: MetaData {
                        value: ValueEq::Cont(Contask { daily_units: units, ..c }),
                        updated: old(self).metadata.bumped(now),
                        ..old(self).metadata
                    },
                    ..*old(self)
                }),
                _ => res == Err::<(), TaskError>(TaskError::WrongModel) && *final(self) == *old(
                    self,
                ),
            },
    {
        match &mut self.metadata.value {
            ValueEq::Cont(l) => {
                l.daily_units = units;
            },
            _ => {
                return Err(TaskError::WrongModel);
            },
        }
        self.metadata.touch(now);
        Ok(())
    }

    /// Sets the interval of a recurring task, as of `now`. Other tasks have
    /// no interval and stay as they are.
    pub fn set_interval(&mut self, interval: Duration, now: UnixTime) -> (res: Result<
        (),
        TaskError,
    >)
        ensures
            match old(self).metadata.value {
                ValueEq::Log(p) => res is Ok && *final(self) == (Task {
                    metadata: MetaData {
                        value: ValueEq::Log(LogPriority { interval, ..p }),
                        updated: old(self).metadata.bumped(now),
                        ..old(self).metadata
                    },
                    ..*old(self)
                }),
                _ => res == Err::<(), TaskError>(TaskError::WrongModel) && *final(self) == *old(
                    self,
                ),
            },
    {
        match &mut self.metadata.value {
            ValueEq::Log(l) => {
                l.interval = interval;
            },
            _ => {
                return Err(TaskError::WrongModel);
            },
        }
        self.metadata.touch(now);
        Ok(())
    }

    /// Gives the task another name, as of `now`.
    pub fn set_name(&mut self, name: String, now: UnixTime)
        ensures
            *final(self) == (Task {
                metadata: MetaData {
                    name,
                    updated: old(self).metadata.bumped(now),
                    ..old(self).metadata
                },
                ..*old(self)
            }),
    {
        self.metadata.name = name;
        self.metadata.touch(now);
    }

    /// Sets how long the task is expected to take, as of `now`. A length of
    /// zero is refused, and the task stays as it is.
    pub fn set_length(&mut self, length: Duration, now: UnixTime) -> (res: Result<(), TaskError>)
        ensures
            length.secs() == 0 && length.nanos() == 0 ==> res == Err::<(), TaskError>(
                TaskError::ZeroLength,
            ) && *final(self) == *old(self),
            !(length.secs() == 0 && length.nanos() == 0) ==> res is Ok && *final(self) == (Task {
                metadata: MetaData {
                    length,
                    updated: old(self).metadata.bumped(now),
                    ..old(self).metadata
                },
                ..*old(self)
            }),
    {
        if length.is_zero() {
            return Err(TaskError::ZeroLength);
        }
        self.metadata.length = length;
        self.metadata.touch(now);
        Ok(())
    }

    /// Sets the factor of the task, whatever its value model, as of `now`.
    pub fn set_factor(&mut self, factor: Amount, now: UnixTime)
        ensures
            *final(self) == (Task {
                metadata: MetaData {
                    value: match old(self).metadata.value {
                        ValueEq::Log(p) => ValueEq::Log(LogPriority { factor, ..p }),
                        ValueEq::Cont(c) => ValueEq::Cont(Contask { factor, ..c }),
                        ValueEq::Const(_) => ValueEq::Const(factor),
                    },
                    updated: old(self).metadata.bumped(now),
                    ..old(self).metadata
                },
                ..*old(self)
            }),
    {
        match &mut self.metadata.value {
            ValueEq::Log(x) => {
                x.factor = factor;
            },
            ValueEq::Cont(x) => {
                x.factor = factor;
            },
            ValueEq::Const(x) => {
                *x = factor;
            },
        }
        self.metadata.touch(now);
    }

    /// The factor of the task: the worth at the calibration point of its
    /// value model, or the fixed worth.
    pub fn factor(&self) -> (res: Amount)
        ensures
            res == match self.metadata.value {
                ValueEq::Log(p) => p.factor,
                ValueEq::Cont(c) => c.factor,
                ValueEq::Const(v) => v,
            },
    {
        match &self.metadata.value {
            ValueEq::Log(x) => x.factor,
            ValueEq::Cont(x) => x.factor,
            ValueEq::Const(x) => *x,
        }
    }

    /// What a unit of a task with a daily quota is called; `units` where it
    /// has no name.
    pub fn unit_name(&self) -> (res: Result<String, TaskError>)
        ensures
            match self.metadata.value {
                ValueEq::Cont(c) => res matches Ok(name) && name@ == match c.unit_name {
                    Some(given) => given@,
                    None => "units"@,
                },
                _ => res == Err::<String, TaskError>(TaskError::WrongModel),
            },
    {
        match &self.metadata.value {
            ValueEq::Cont(l) => match &l.unit_name {
                Some(name) => Ok(name.clone()),
                None => Ok("units".to_string()),
            },
            _ => Err(TaskError::WrongModel),
        }
    }

    /// The daily target of a task with a daily quota.
    pub fn units(&self) -> (res: Result<Amount, TaskError>)
        ensures
            res == match self.metadata.value {
                ValueEq::Cont(c) => Ok::<Amount, TaskError>(c.daily_units),
                _ => Err::<Amount, TaskError>(TaskError::WrongModel),
            },
    {
        match &self.metadata.value {
            ValueEq::Cont(l) => Ok(l.daily_units),
            _ => Err(TaskError::WrongModel),
        }
    }

    /// The interval of a recurring task.
    pub fn interval(&self) -> (res: Result<Duration, TaskError>)
        ensures
            res == match self.metadata.value {
                ValueEq::Log(p) => Ok::<Duration, TaskError>(p.interval),
                _ => Err::<Duration, TaskError>(TaskError::WrongModel),
            },
    {
        match &self.metadata.value {
            ValueEq::Log(l) => Ok(l.interval),
            _ => Err(TaskError::WrongModel),
        }
    }

    /// Records that `units` of the task were completed at `now`.
    pub fn do_task(&mut self, units: Amount, now: UnixTime)
        ensures
            final(self)@ == (TaskView {
                log: crate::log::canonical(
                    old(self).log@.to_set().insert(LogRecord { time: now, units }),
                ),
                ..old(self)@
            }),
    {
        self.log.append(LogRecord::new(now, units));
    }

    /// Lays out the priority of the task as of `now`: its value per hour of
    /// its length. A task without length has no priority.
    pub fn priority(&self, now: UnixTime) -> (res: Result<Priority, TaskError>)
        ensures
            self.metadata.length.secs() == 0 && self.metadata.length.nanos() == 0 ==> res is Err
                && res->Err_0 == TaskError::ZeroLength,
            !(self.metadata.length.secs() == 0 && self.metadata.length.nanos() == 0) ==> match res {
                Ok(p) => p.length == self.metadata.length && valued(
                    self.metadata.value,
                    self.log@,
                    self.metadata.created,
                    now,
                    Ok(p.value),
                ),
                Err(e) => e == TaskError::TimeOrder && out_of_order(
                    self.metadata.value,
                    self.log@,
                    self.metadata.created,
                    now,
                ),
            },
    {
        if self.metadata.length.is_zero() {
            return Err(TaskError::ZeroLength);
        }
        match self.value(now) {
            Ok(value) => Ok(Priority { value, length: self.metadata.length }),
            Err(e) => Err(e),
        }
    }

    /// Lays out the value that the task accrued after `cutoff`: one valuation
    /// for each completion after `cutoff`, oldest first, each as of the time
    /// of that completion and from the log up to and including it.
    pub fn value_since(&self, cutoff: UnixTime) -> (res: Result<Vec<Valuation>, TaskError>)
        ensures
            accrues(self@, cutoff, res),
    {
        let records = self.log.records();
        let n = records.len();
        let mut start: usize = 0;
        while start < n && !cutoff.is_lt(&records[start].time)
            invariant
                n == records@.len(),
                records@ == self.log@,
                start <= n,
                forall|i: int| 0 <= i < start ==> !cutoff.lt((#[trigger] self.log@[i]).time),
            decreases n - start,
        {
            start += 1;
        }
        proof {
            assert forall|i: int| start <= i < self.log@.len() implies cutoff.lt(
                (#[trigger] self.log@[i]).time,
            ) by {
                if i > start {
                    assert(self.log@[start as int].precedes(self.log@[i]));
                }
            }
            assert(is_first_after(self.log@, cutoff, start as int));
        }
        let mut vals: Vec<Valuation> = Vec::new();
        let mut i: usize = start;
        while i < n
            invariant
                n == records@.len(),
                records@ == self.log@,
                start <= i <= n,
                is_first_after(self.log@, cutoff, start as int),
                vals@.len() == i - start,
                forall|k: int|
                    0 <= k < vals@.len() ==> valued(
                        self.metadata.value,
                        self.log@.take(start + k + 1),
                        self.metadata.created,
                        self.log@[start + k].time,
                        Ok(#[trigger] vals@[k]),
                    ),
            decreases n - i,
        {
            let upto = self.log.prefix(i + 1);
            let at = records[i].time;
            match self.metadata.value.value(&upto, self.metadata.created, at) {
                Ok(v) => {
                    let ghost before = vals@;
                    vals.push(v);
                    proof {
                        assert forall|k: int| 0 <= k < vals@.len() implies valued(
                            self.metadata.value,
                            self.log@.take(start + k + 1),
                            self.metadata.created,
                            self.log@[start + k].time,
                            Ok(#[trigger] vals@[k]),
                        ) by {
                            if k < before.len() {
                                assert(vals@[k] == before[k]);
                            }
                        }
                    }
                },
                Err(e) => {
                    proof {
                        assert(cutoff.lt(self@.log[i as int].time));
                        assert(out_of_order(
                            self@.metadata.value,
                            self@.log.take(i + 1),
                            self@.metadata.created,
                            self@.log[i as int].time,
                        ));
                        assert(accrual_fails(self@, cutoff));
                    }
                    return Err(e);
                },
            }
            i += 1;
        }
        proof {
            assert(is_first_after(self@.log, cutoff, start as int));
            assert(vals@.len() == self@.log.len() - start);
        }
        Ok(vals)
    }
}

} // verus!
