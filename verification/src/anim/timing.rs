//! The clock side of an animation: how far into a run it is, which way the
//! run is going, and how much time a tick hands it.
//!
//! The value an animation holds at a given point of its run is a curve of
//! real numbers and is computed by the caller; what is kept here is the
//! bookkeeping that decides that point.
use vstd::prelude::*;

use super::Repeat;
use vstd::arithmetic::div_mod::{
    lemma_fundamental_div_mod, lemma_fundamental_div_mod_converse, lemma_mod_pos_bound,
};

verus! {

/// Longest step a single tick may apply, in microseconds.
///
/// A stall (a slow frame, a debugger breakpoint, a card that took its time)
/// must not teleport every gauge to wherever it would have been. Capping the
/// delta means motion resumes from where it stopped, one frame late.
pub const MAX_STEP_US: u64 = 100_000;

/// How far through its runs an animation is.
#[derive(Clone, Copy, Debug)]
pub struct Progress {
    duration_us: u64,
    repeat: Repeat,
    elapsed_us: u64,
    reversed: bool,
    done: bool,
}

/// A [`Progress`] as a value.
pub struct ProgressSpec {
    /// Length of one run in microseconds.
    pub duration_us: int,
    /// What happens at the end of a run.
    pub repeat: Repeat,
    /// Microseconds into the current run.
    pub elapsed_us: int,
    /// Whether a ping-pong run is going backwards.
    pub reversed: bool,
    /// Whether a `Once` animation has finished.
    pub done: bool,
}

impl View for Progress {
    type V = ProgressSpec;

    closed spec fn view(&self) -> ProgressSpec {
        ProgressSpec {
            duration_us: self.duration_us as int,
            repeat: self.repeat,
            elapsed_us: self.elapsed_us as int,
            reversed: self.reversed,
            done: self.done,
        }
    }
}

/// What `advance` makes of a progress `p` after `delta` more microseconds.
///
/// The time is added (stopping at `u64::MAX`); a finished animation stays as
/// it is; a `Once` run that reaches its end stops there; a `Loop` starts
/// again as many times as the time covers; a `PingPong` does the same and
/// turns round at each end.
pub open spec fn advanced(p: ProgressSpec, delta: u64) -> ProgressSpec {
    let s = if p.elapsed_us + delta > u64::MAX { u64::MAX as int } else { p.elapsed_us + delta };
    let d = p.duration_us;
    if p.done {
        p
    } else {
        match p.repeat {
            Repeat::Once => {
                if s >= d {
                    ProgressSpec { elapsed_us: d, done: true, ..p }
                } else {
                    ProgressSpec { elapsed_us: s, ..p }
                }
            },
            Repeat::Loop => ProgressSpec { elapsed_us: s % d, ..p },
            Repeat::PingPong => ProgressSpec {
                elapsed_us: s % d,
                reversed: if (s / d) % 2 == 1 { !p.reversed } else { p.reversed },
                ..p
            },
        }
    }
}

/// Time handed over in two ticks moves an animation exactly as far as the
/// same time handed over in one, so splitting time across frames never
/// makes a loop drift or a ping-pong turn at the wrong end.
pub proof fn lemma_advance_composes(p: ProgressSpec, a: u64, b: u64)
    requires
        Progress::wf(p),
        p.elapsed_us + a + b <= u64::MAX,
    ensures
        advanced(advanced(p, a), b) == advanced(p, (a + b) as u64),
{
    let d = p.duration_us;
    let x = p.elapsed_us + a;
    let q1 = x / d;
    let r1 = x % d;
    let y = r1 + b;
    let q2 = y / d;
    let r2 = y % d;
    lemma_fundamental_div_mod(x, d);
    lemma_mod_pos_bound(x, d);
    lemma_fundamental_div_mod(y, d);
    lemma_mod_pos_bound(y, d);
    assert(x + b == (q1 + q2) * d + r2) by (nonlinear_arith)
        requires
            x == d * q1 + r1,
            y == d * q2 + r2,
            y == r1 + b,
    ;
    lemma_fundamental_div_mod_converse(x + b, d, q1 + q2, r2);
    assert(((q1 + q2) % 2 == 1) == ((q1 % 2 == 1) != (q2 % 2 == 1)));
}

/// A finished animation never moves again, however much time it is given.
pub proof fn lemma_finished_stays(p: ProgressSpec, delta: u64)
    requires
        p.done,
    ensures
        advanced(p, delta) == p,
{
}

impl Progress {
    /// What every progress keeps: a run lasts at least a microsecond, the
    /// position never passes its end, and only a finished run sits on it.
    #[verifier::type_invariant]
    closed spec fn inv(self) -> bool {
        &&& 1 <= self.duration_us
        &&& self.elapsed_us <= self.duration_us
        &&& !self.done ==> self.elapsed_us < self.duration_us
        &&& self.done ==> self.repeat == Repeat::Once
    }

    /// What every progress keeps, as callers see it.
    pub open spec fn wf(p: ProgressSpec) -> bool {
        &&& 1 <= p.duration_us <= u64::MAX
        &&& 0 <= p.elapsed_us <= p.duration_us
        &&& !p.done ==> p.elapsed_us < p.duration_us
        &&& p.done ==> p.repeat == Repeat::Once
    }

    /// The start of the first run of an animation lasting `duration_ms`.
    ///
    /// A duration of zero is raised to one millisecond: a zero-length
    /// animation would divide by zero, and refusing it would fail a scene
    /// over something its author plainly meant as "instant".
    pub fn new(duration_ms: u32, repeat: Repeat) -> (p: Self)
        ensures
            p@.duration_us == (if duration_ms == 0 { 1 } else { duration_ms as int }) * 1000,
            p@.repeat == repeat,
            p@.elapsed_us == 0,
            !p@.reversed,
            !p@.done,
            Self::wf(p@),
    {
        let ms: u64 = if duration_ms == 0 { 1 } else { duration_ms as u64 };
        Progress { duration_us: ms * 1000, repeat, elapsed_us: 0, reversed: false, done: false }
    }

    /// Whether this animation will never change again.
    pub fn is_finished(&self) -> (res: bool)
        ensures
            res == self@.done,
    {
        self.done
    }

    /// Microseconds into the current run.
    pub fn elapsed_us(&self) -> (res: u64)
        ensures
            res == self@.elapsed_us,
    {
        self.elapsed_us
    }

    /// Length of one run in microseconds.
    pub fn duration_us(&self) -> (res: u64)
        ensures
            res == self@.duration_us,
    {
        self.duration_us
    }

    /// Whether the run is going from the end value back to the start.
    pub fn is_reversed(&self) -> (res: bool)
        ensures
            res == self@.reversed,
    {
        self.reversed
    }

    /// Move `delta_us` microseconds further on.
    pub fn advance(&mut self, delta_us: u64)
        ensures
            final(self)@ == advanced(old(self)@, delta_us),
            Self::wf(old(self)@),
            Self::wf(final(self)@),
    {
        proof {
            use_type_invariant(&*self);
        }
        if self.done {
            return;
        }
        let s = self.elapsed_us.saturating_add(delta_us);
        let d = self.duration_us;
        match self.repeat {
            Repeat::Once => {
                if s >= d {
                    self.done = true;
                    self.elapsed_us = d;
                } else {
                    self.elapsed_us = s;
                }
            },
            Repeat::Loop => {
                self.elapsed_us = s % d;
            },
            Repeat::PingPong => {
                let turns = s / d;
                let flip = turns % 2 == 1;
                self.elapsed_us = s % d;
                if flip {
                    self.reversed = !self.reversed;
                }
            },
        }
    }
}

/// The time a tick hands every animation: nothing on the first tick, which
/// only sets the baseline; otherwise the time since the last tick, nothing
/// for a clock that went backwards, and never more than [`MAX_STEP_US`].
pub open spec fn step_for(last_us: Option<u64>, now_us: u64) -> int {
    match last_us {
        None => 0,
        Some(last) => if now_us <= last {
            0
        } else if now_us - last > MAX_STEP_US {
            MAX_STEP_US as int
        } else {
            now_us - last
        },
    }
}

/// The caller's clock as the animations see it.
#[derive(Clone, Copy, Debug, Default)]
pub struct Clock {
    /// The time of the last tick, once there has been one.
    pub last_us: Option<u64>,
}

impl Clock {
    /// A clock that has not ticked yet.
    pub fn new() -> (c: Self)
        ensures
            c.last_us is None,
    {
        Clock { last_us: None }
    }

    /// Record a tick at `now_us` and return how far the animations move.
    ///
    /// `now_us` is a monotonic microsecond count from any source the caller
    /// likes. The first tick establishes the baseline and moves nothing, so a
    /// scene loaded at an arbitrary clock value does not jump on its first
    /// frame.
    pub fn tick(&mut self, now_us: u64) -> (delta: u64)
        ensures
            delta == step_for(old(self).last_us, now_us),
            final(self).last_us == Some(now_us),
            delta <= MAX_STEP_US,
    {
        let delta = match self.last_us {
            None => 0,
            Some(last) => {
                let d = now_us.saturating_sub(last);
                if d > MAX_STEP_US {
                    MAX_STEP_US
                } else {
                    d
                }
            },
        };
        self.last_us = Some(now_us);
        delta
    }
}

} // verus!
