//! The task model and the four review operations.
//!
//! Each operation rewrites one task's interval and pushes its due date
//! forward by the new interval. With a nonempty ladder the next
//! interval is looked up on the ladder; otherwise it moves
//! geometrically by the configured growth factor and is clamped into
//! `1..=max_interval`.
//!
//! Two points the store's format leaves open are settled here: a task
//! with no due date has not been reviewed yet, so `repeat_interval`,
//! `reduce_interval` and `reset` leave it untouched (only a successful
//! review schedules it, keeping `interval == 1` until then), and
//! stepping a due date past the last representable day saturates
//! there.

use crate::date::{add_days, plus_days, today, Date};
use crate::util::{
    ladder_ok, lemma_ladder_sorted, next_larger_interval, next_smaller_interval, spec_next_larger,
    spec_next_smaller,
};
use vstd::prelude::*;

verus! {

/// Scheduler tuning, read once at startup and passed in explicitly.
/// The growth factor is a rational `growth_num / growth_den`; the
/// default of five halves is a factor of two and a half.
#[derive(Debug, Clone, Copy, PartialEq, Eq, Structural)]
pub struct Config {
    pub growth_num: usize,
    pub growth_den: usize,
    pub max_interval: usize,
}

impl Config {
    pub open spec fn wf(self) -> bool {
        self.growth_num >= 1 && self.growth_den >= 1 && self.max_interval >= 1
    }
}

impl Default for Config {
    /// Growth factor of five halves, intervals capped at 730 days.
    fn default() -> (r: Config)
        ensures
            r == (Config { growth_num: 5, growth_den: 2, max_interval: 730 }),
            r.wf(),
    {
        Config { growth_num: 5, growth_den: 2, max_interval: 730 }
    }
}

pub open spec fn ceil_div(a: int, b: int) -> int {
    (a + b - 1) / b
}

pub open spec fn clamp_interval(x: int, cfg: Config) -> int {
    if x < 1 {
        1
    } else if x > cfg.max_interval {
        cfg.max_interval as int
    } else {
        x
    }
}

/// The geometric step upward: `interval * num / den`, rounded up,
/// clamped into `1..=max_interval`.
pub open spec fn spec_grow(i: int, cfg: Config) -> int {
    clamp_interval(ceil_div(i * cfg.growth_num, cfg.growth_den as int), cfg)
}

/// The geometric step downward: `interval * den / num`, rounded up,
/// clamped into `1..=max_interval`.
pub open spec fn spec_shrink(i: int, cfg: Config) -> int {
    clamp_interval(ceil_div(i * cfg.growth_den, cfg.growth_num as int), cfg)
}

fn scale_ceil_clamped(i: usize, num: usize, den: usize, max_interval: usize) -> (r: usize)
    requires
        num >= 1,
        den >= 1,
        max_interval >= 1,
    ensures
        r == clamp_interval(
            ceil_div((i as int) * (num as int), den as int),
            (Config { growth_num: num, growth_den: den, max_interval }),
        ),
{
    proof {
        let m: u128 = 0xffff_ffff_ffff_ffffu128;
        assert((i as u128) * (num as u128) <= m * m) by (nonlinear_arith)
            requires
                i as u128 <= m,
                num as u128 <= m,
        ;
        assert(m * m + m <= u128::MAX) by (nonlinear_arith)
            requires
                m == 0xffff_ffff_ffff_ffffu128,
        ;
    }
    let p: u128 = (i as u128) * (num as u128);
    let q: u128 = (p + (den as u128) - 1) / (den as u128);
    if q < 1 {
        1
    } else if q > max_interval as u128 {
        max_interval
    } else {
        q as usize
    }
}

/// A schedulable item: a name, an optional due date, and the day
/// spacing last used to schedule it.
#[derive(Debug, PartialEq, Eq, Clone)]
pub struct SpacedTask {
    pub name: String,
    pub date: Option<Date>,
    pub interval: usize,
}

/// The mathematical shape of a task, what contracts speak about.
#[verifier::ext_equal]
pub struct TaskV {
    pub name: Seq<char>,
    pub date: Option<Date>,
    pub interval: int,
}

impl View for SpacedTask {
    type V = TaskV;

    open spec fn view(&self) -> TaskV {
        TaskV { name: self.name@, date: self.date, interval: self.interval as int }
    }
}

impl DeepView for SpacedTask {
    type V = TaskV;

    open spec fn deep_view(&self) -> TaskV {
        self@
    }
}

impl SpacedTask {
    /// A task's due date, when it has one, is a real calendar date.
    pub open spec fn wf(self) -> bool {
        self.date matches Some(d) ==> d.wf()
    }

    /// A new task, scheduled for the given date, or for today when no
    /// date is given. The first interval is always one day.
    pub fn new(title: String, date: Option<Date>) -> (r: SpacedTask)
        requires
            date matches Some(d) ==> d.wf(),
        ensures
            r.name@ == title@,
            r.interval == 1,
            r.date is Some,
            date matches Some(d) ==> r.date == Some(d),
            r.wf(),
    {
        let d = match date {
            Some(d) => d,
            None => today(),
        };
        SpacedTask { name: title, date: Some(d), interval: 1 }
    }

    /// A new task with no due date yet; it is scheduled by its first
    /// successful review.
    pub fn new_unscheduled(title: String) -> (r: SpacedTask)
        ensures
            r.name@ == title@,
            r.interval == 1,
            r.date is None,
            r.wf(),
    {
        SpacedTask { name: title, date: None, interval: 1 }
    }

    /// A successful review. An unscheduled task becomes due today with
    /// interval one; a scheduled one steps its interval up the ladder
    /// (or geometrically when the ladder is empty) and moves its due
    /// date forward by the new interval.
    pub fn increase_interval(&mut self, custom_intervals: &[usize], cfg: &Config, today: Date)
        requires
            old(self).wf(),
            cfg.wf(),
            custom_intervals@.len() > 0 ==> ladder_ok(custom_intervals@),
            today.wf(),
        ensures
            final(self).name@ == old(self).name@,
            final(self).wf(),
            old(self).date is None ==> final(self).date == Some(today) && final(self).interval
                == 1,
            old(self).date matches Some(d) ==> final(self).interval == (
            if custom_intervals@.len() > 0 {
                spec_next_larger(old(self).interval as int, custom_intervals@)
            } else {
                spec_grow(old(self).interval as int, *cfg)
            }) && final(self).date == Some(plus_days(d, final(self).interval as nat)),
            old(self).date is Some && custom_intervals@.len() > 0 && custom_intervals@.last()
                <= old(self).interval ==> final(self).interval == custom_intervals@.last(),
    {
        match self.date {
            Some(d) => {
                proof {
                    if custom_intervals@.len() > 0 {
                        lemma_ladder_sorted(custom_intervals@);
                    }
                }
                let ni = if custom_intervals.len() > 0 {
                    next_larger_interval(self.interval, custom_intervals)
                } else {
                    scale_ceil_clamped(
                        self.interval,
                        cfg.growth_num,
                        cfg.growth_den,
                        cfg.max_interval,
                    )
                };
                self.interval = ni;
                self.date = Some(add_days(&d, ni));
            },
            None => {
                self.date = Some(today);
                self.interval = 1;
            },
        }
    }

    /// A neutral review: the interval stays, the due date moves
    /// forward by it. An unscheduled task is left untouched.
    pub fn repeat_interval(&mut self)
        requires
            old(self).wf(),
        ensures
            final(self).name@ == old(self).name@,
            final(self).interval == old(self).interval,
            final(self).wf(),
            old(self).date is None ==> final(self).date is None,
            old(self).date matches Some(d) ==> final(self).date == Some(
                plus_days(d, old(self).interval as nat),
            ),
    {
        match self.date {
            Some(d) => {
                self.date = Some(add_days(&d, self.interval));
            },
            None => {},
        }
    }

    /// A failed review: the interval steps down the ladder (or
    /// geometrically when the ladder is empty) and the due date moves
    /// forward by the new interval. An unscheduled task is left
    /// untouched.
    pub fn reduce_interval(&mut self, custom_intervals: &[usize], cfg: &Config)
        requires
            old(self).wf(),
            cfg.wf(),
            custom_intervals@.len() > 0 ==> ladder_ok(custom_intervals@),
        ensures
            final(self).name@ == old(self).name@,
            final(self).wf(),
            old(self).date is None ==> *final(self) == *old(self),
            old(self).date matches Some(d) ==> final(self).interval == (
            if custom_intervals@.len() > 0 {
                spec_next_smaller(old(self).interval as int, custom_intervals@)
            } else {
                spec_shrink(old(self).interval as int, *cfg)
            }) && final(self).date == Some(plus_days(d, final(self).interval as nat)),
            old(self).date is Some && custom_intervals@.len() > 0 && old(self).interval
                < custom_intervals@[0] ==> final(self).interval == custom_intervals@[0],
    {
        match self.date {
            Some(d) => {
                proof {
                    if custom_intervals@.len() > 0 {
                        lemma_ladder_sorted(custom_intervals@);
                    }
                }
                let ni = if custom_intervals.len() > 0 {
                    next_smaller_interval(self.interval, custom_intervals)
                } else {
                    scale_ceil_clamped(
                        self.interval,
                        cfg.growth_den,
                        cfg.growth_num,
                        cfg.max_interval,
                    )
                };
                self.interval = ni;
                self.date = Some(add_days(&d, ni));
            },
            None => {},
        }
    }

    /// Start over: the interval returns to the bottom of the ladder
    /// (or to one day) and the due date moves forward by it. An
    /// unscheduled task is left untouched.
    pub fn reset(&mut self, custom_intervals: &[usize])
        requires
            old(self).wf(),
        ensures
            final(self).name@ == old(self).name@,
            final(self).wf(),
            old(self).date is None ==> *final(self) == *old(self),
            old(self).date matches Some(d) ==> final(self).interval == (
            if custom_intervals@.len() > 0 {
                custom_intervals@[0] as int
            } else {
                1
            }) && final(self).date == Some(plus_days(d, final(self).interval as nat)),
    {
        match self.date {
            Some(d) => {
                let ni = if custom_intervals.len() > 0 {
                    custom_intervals[0]
                } else {
                    1
                };
                self.interval = ni;
                self.date = Some(add_days(&d, ni));
            },
            None => {},
        }
    }
}

} // verus!
