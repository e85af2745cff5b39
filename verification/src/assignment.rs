//! A schedulable activity: a fixed amount of work (`hours`) spread over an
//! integer `start` and a `duration`, with the derived daily rate
//! `hours_per_day = ceil(hours / duration)`.

use vstd::prelude::*;

verus! {

/// Ceiling of the exact quotient `hours / duration`, for `duration >= 1`.
pub open spec fn ceil_div(hours: int, duration: int) -> int
    recommends
        duration >= 1,
{
    if hours >= 0 {
        (hours + duration - 1) / duration
    } else {
        -((-hours) / duration)
    }
}

/// A duration as stored: clamped to at least one day.
pub open spec fn clamp_duration(value: int) -> int {
    if value < 1 {
        1
    } else {
        value
    }
}

pub proof fn lemma_ceil_div_bounds(hours: int, duration: int)
    requires
        duration >= 1,
    ensures
        hours >= 0 ==> 0 <= ceil_div(hours, duration) <= hours,
        hours < 0 ==> hours <= ceil_div(hours, duration) <= 0,
{
    if hours >= 0 {
        assert(0 <= (hours + duration - 1) / duration <= hours) by (nonlinear_arith)
            requires
                duration >= 1,
                hours >= 0,
        ;
    } else {
        assert(0 <= (-hours) / duration <= -hours) by (nonlinear_arith)
            requires
                duration >= 1,
                hours < 0,
        ;
    }
}

/// Compute `ceil_div` on machine integers.
pub(crate) fn ceil_div_exec(hours: i32, duration: i32) -> (r: i32)
    requires
        duration >= 1,
    ensures
        r as int == ceil_div(hours as int, duration as int),
{
    let d = duration as u64;
    let rate: i64 = if hours >= 0 {
        let h = hours as u64;
        ((h + d - 1) / d) as i64
    } else {
        let m = (-(hours as i64)) as u64;
        -((m / d) as i64)
    };
    proof {
        lemma_ceil_div_bounds(hours as int, duration as int);
    }
    rate as i32
}

#[derive(Clone, Copy, PartialEq, Eq, Structural, Debug)]
pub struct Assignment {
    pub id: usize,
    pub hours: i32,
    pub start: i32,
    pub duration: i32,
    pub hours_per_day: i32,
}

impl Assignment {
    /// The stored daily rate agrees with `hours` and `duration`; a freshly
    /// constructed assignment (duration zero) carries a zero rate.
    pub open spec fn wf(self) -> bool {
        &&& self.duration >= 0
        &&& self.duration >= 1 ==> self.hours_per_day == ceil_div(
            self.hours as int,
            self.duration as int,
        )
        &&& self.duration == 0 ==> self.hours_per_day == 0
    }

    /// The end of the activity, one past its last active day.
    pub open spec fn end_spec(self) -> int {
        self.start + self.duration
    }

    /// A fresh assignment. With no id supplied the stored id is 0: the
    /// library keeps no process-wide counter to draw fresh, pairwise-distinct
    /// ids from (that would be a `static`), so callers that need distinct or
    /// meaningful ids supply them, as instance loading does.
    pub fn new(id: Option<usize>, hours: i32) -> (r: Assignment)
        ensures
            id matches Some(i) ==> r.id == i,
            id is None ==> r.id == 0,
            r.hours == hours,
            r.start == 0,
            r.duration == 0,
            r.hours_per_day == 0,
            r.wf(),
    {
        let id: usize = match id {
            Some(i) => i,
            None => 0,
        };
        Assignment { id, hours, start: 0, duration: 0, hours_per_day: 0 }
    }

    pub fn id(&self) -> (r: usize)
        ensures
            r == self.id,
    {
        self.id
    }

    pub fn hours(&self) -> (r: i32)
        ensures
            r == self.hours,
    {
        self.hours
    }

    pub fn start(&self) -> (r: i32)
        ensures
            r == self.start,
    {
        self.start
    }

    pub fn duration(&self) -> (r: i32)
        ensures
            r == self.duration,
    {
        self.duration
    }

    pub fn hours_per_day(&self) -> (r: i32)
        ensures
            r == self.hours_per_day,
    {
        self.hours_per_day
    }

    /// The end as stored values allow; callers keep `start + duration` within
    /// the machine range.
    pub fn end(&self) -> (r: i32)
        requires
            i32::MIN <= self.start + self.duration <= i32::MAX,
        ensures
            r as int == self.end_spec(),
    {
        self.start + self.duration
    }

    /// Recompute the daily rate from the current `hours` and `duration`.
    fn set_hours_per_day(&mut self)
        requires
            old(self).duration >= 1,
        ensures
            final(self).hours_per_day == ceil_div(
                old(self).hours as int,
                old(self).duration as int,
            ),
            final(self).id == old(self).id,
            final(self).hours == old(self).hours,
            final(self).start == old(self).start,
            final(self).duration == old(self).duration,
            final(self).wf(),
    {
        self.hours_per_day = ceil_div_exec(self.hours, self.duration);
    }

    pub fn set_hours(&mut self, value: i32)
        requires
            old(self).duration >= 1,
        ensures
            final(self).hours == value,
            final(self).hours_per_day == ceil_div(value as int, old(self).duration as int),
            final(self).id == old(self).id,
            final(self).start == old(self).start,
            final(self).duration == old(self).duration,
            final(self).wf(),
    {
        self.hours = value;
        self.set_hours_per_day();
    }

    /// Move the activity so that it ends at `value`; the duration is kept.
    pub fn set_end(&mut self, value: i32)
        requires
            old(self).duration >= 1,
            i32::MIN <= value - old(self).duration <= i32::MAX,
        ensures
            final(self).start == value - old(self).duration,
            final(self).end_spec() == value,
            final(self).hours_per_day == ceil_div(old(self).hours as int, old(self).duration as int),
            final(self).id == old(self).id,
            final(self).hours == old(self).hours,
            final(self).duration == old(self).duration,
            final(self).wf(),
    {
        self.start = value - self.duration;
        self.set_hours_per_day();
    }

    /// Store `value` clamped to at least one day, and refresh the daily rate.
    pub fn set_duration(&mut self, value: i32)
        ensures
            final(self).duration == clamp_duration(value as int),
            final(self).hours_per_day == ceil_div(old(self).hours as int, clamp_duration(value as int)),
            final(self).id == old(self).id,
            final(self).hours == old(self).hours,
            final(self).start == old(self).start,
            final(self).wf(),
    {
        let mut value = value;
        if value < 1 {
            value = 1;
        }
        self.duration = value;
        self.set_hours_per_day();
    }

    /// An assignment's end is always its start plus its duration, whatever
    /// the stored values are.
    pub proof fn lemma_end_is_start_plus_duration(self)
        ensures
            self.end_spec() == self.start + self.duration,
    {
    }

    pub fn set_start(&mut self, value: i32)
        ensures
            final(self).start == value,
            final(self).id == old(self).id,
            final(self).hours == old(self).hours,
            final(self).duration == old(self).duration,
            final(self).hours_per_day == old(self).hours_per_day,
            old(self).wf() ==> final(self).wf(),
    {
        self.start = value;
    }
}

} // verus!
