use std::time::Duration;
use std::time::Instant;
use vstd::prelude::*;

verus! {

#[verifier::external_type_specification]
#[verifier::external_body]
pub struct ExInstant(std::time::Instant);

/// Reads the monotonic clock through `Instant::now`. Nothing is promised of the
/// instant that comes back: it depends on when the call is made.
#[verifier::external_body]
fn instant_now() -> (t: Instant) {
    Instant::now()
}

/// Time passed since `start`, through `Instant::elapsed`. Nothing is promised of the
/// duration: it depends on the clock at the moment of the call.
#[verifier::external_body]
fn instant_elapsed(start: &Instant) -> (d: Duration) {
    start.elapsed()
}

/// Whole milliseconds in a duration, through `Duration::as_millis`. The value is not
/// stated here: callers only use it as a clock reading.
#[verifier::external_body]
fn duration_as_millis(d: &Duration) -> (ms: u128) {
    d.as_millis()
}

/// Hard limits so on-device training can stay responsive.
#[derive(Clone, Debug)]
pub struct TrainBudget {
    pub max_steps: Option<u64>,
    pub max_millis: Option<u64>,
    /// Soft/hard cap on resident parameter+optimizer bytes the caller cares about.
    pub max_bytes: Option<u64>,
}

impl TrainBudget {
    pub fn unlimited() -> (b: Self)
        ensures
            b.max_steps.is_none(),
            b.max_millis.is_none(),
            b.max_bytes.is_none(),
    {
        TrainBudget { max_steps: None, max_millis: None, max_bytes: None }
    }

    pub fn steps(n: u64) -> (b: Self)
        ensures
            b.max_steps == Some(n),
            b.max_millis.is_none(),
            b.max_bytes.is_none(),
    {
        TrainBudget { max_steps: Some(n), max_millis: None, max_bytes: None }
    }

    pub fn millis(ms: u64) -> (b: Self)
        ensures
            b.max_steps.is_none(),
            b.max_millis == Some(ms),
            b.max_bytes.is_none(),
    {
        TrainBudget { max_steps: None, max_millis: Some(ms), max_bytes: None }
    }

    pub fn with_max_bytes(self, bytes: u64) -> (b: Self)
        ensures
            b.max_steps == self.max_steps,
            b.max_millis == self.max_millis,
            b.max_bytes == Some(bytes),
    {
        let mut b = self;
        b.max_bytes = Some(bytes);
        b
    }

    pub fn with_max_steps(self, steps: u64) -> (b: Self)
        ensures
            b.max_steps == Some(steps),
            b.max_millis == self.max_millis,
            b.max_bytes == self.max_bytes,
    {
        let mut b = self;
        b.max_steps = Some(steps);
        b
    }

    pub fn with_max_millis(self, ms: u64) -> (b: Self)
        ensures
            b.max_steps == self.max_steps,
            b.max_millis == Some(ms),
            b.max_bytes == self.max_bytes,
    {
        let mut b = self;
        b.max_millis = Some(ms);
        b
    }
}

/// Why a budgeted training loop stopped.
#[derive(Clone, Copy, Debug, PartialEq, Eq, Structural, Default)]
pub enum StopReason {
    #[default]
    Completed,
    MaxSteps,
    MaxMillis,
    MaxBytes,
}

/// The step limit of `budget` is reached after `steps` steps.
pub open spec fn steps_reached(budget: TrainBudget, steps: u64) -> bool {
    budget.max_steps matches Some(max) && steps >= max
}

/// The time limit of `budget` is reached after `elapsed_ms` milliseconds.
pub open spec fn millis_reached(budget: TrainBudget, elapsed_ms: u64) -> bool {
    budget.max_millis matches Some(ms) && elapsed_ms >= ms
}

/// The memory limit of `budget` is exceeded by `bytes_used` bytes.
pub open spec fn bytes_exceeded(budget: TrainBudget, bytes_used: u64) -> bool {
    budget.max_bytes matches Some(max_b) && bytes_used > max_b
}

/// A budget is exhausted as soon as any one of its limits is hit.
pub open spec fn spec_exhausted(budget: TrainBudget, steps: u64, elapsed_ms: u64, bytes_used: u64) -> bool {
    steps_reached(budget, steps) || millis_reached(budget, elapsed_ms) || bytes_exceeded(budget, bytes_used)
}

/// The limit that stops a run; steps are checked first, then time, then memory.
pub open spec fn spec_stop_reason(budget: TrainBudget, steps: u64, elapsed_ms: u64, bytes_used: u64) -> Option<StopReason> {
    if steps_reached(budget, steps) {
        Some(StopReason::MaxSteps)
    } else if millis_reached(budget, elapsed_ms) {
        Some(StopReason::MaxMillis)
    } else if bytes_exceeded(budget, bytes_used) {
        Some(StopReason::MaxBytes)
    } else {
        None
    }
}

/// Tracks consumption of a [`TrainBudget`] during a training session.
#[derive(Debug)]
pub struct BudgetMeter {
    budget: TrainBudget,
    start: Instant,
    pub steps_done: u64,
}

impl BudgetMeter {
    /// The budget this meter was started with.
    pub closed spec fn spec_budget(&self) -> TrainBudget {
        self.budget
    }

    /// The number of steps counted so far: the value of the public field `steps_done`.
    pub closed spec fn spec_steps(&self) -> u64 {
        self.steps_done
    }

    pub fn start(budget: TrainBudget) -> (m: Self)
        ensures
            m.spec_budget() == budget,
            m.spec_steps() == 0,
    {
        BudgetMeter { budget, start: instant_now(), steps_done: 0 }
    }

    pub fn elapsed(&self) -> Duration {
        instant_elapsed(&self.start)
    }

    /// Milliseconds since the meter was started, truncated to `u64`.
    pub fn elapsed_millis(&self) -> u64 {
        let d = instant_elapsed(&self.start);
        let ms = duration_as_millis(&d);
        ms as u64
    }

    pub fn tick_step(&mut self)
        requires
            old(self).spec_steps() < u64::MAX,
        ensures
            final(self).spec_steps() == old(self).spec_steps() + 1,
            final(self).spec_budget() == old(self).spec_budget(),
    {
        self.steps_done = self.steps_done + 1;
    }

    /// Exhaustion test at a given clock reading.
    pub fn exhausted_at(&self, bytes_used: u64, elapsed_ms: u64) -> (r: bool)
        ensures
            r == spec_exhausted(self.spec_budget(), self.spec_steps(), elapsed_ms, bytes_used),
    {
        if let Some(max) = self.budget.max_steps {
            if self.steps_done >= max {
                return true;
            }
        }
        if let Some(ms) = self.budget.max_millis {
            if elapsed_ms >= ms {
                return true;
            }
        }
        if let Some(max_b) = self.budget.max_bytes {
            if bytes_used > max_b {
                return true;
            }
        }
        false
    }

    /// Exhaustion test against the clock: the answer is the exact test at the
    /// clock reading taken during the call.
    pub fn exhausted(&self, bytes_used: u64) -> (r: bool)
        ensures
            exists|ms: u64| r == #[trigger] spec_exhausted(self.spec_budget(), self.spec_steps(), ms, bytes_used),
            steps_reached(self.spec_budget(), self.spec_steps()) ==> r,
            bytes_exceeded(self.spec_budget(), bytes_used) ==> r,
            self.spec_budget().max_millis.is_none() ==> (r == (steps_reached(self.spec_budget(), self.spec_steps())
                || bytes_exceeded(self.spec_budget(), bytes_used))),
    {
        let ms = self.elapsed_millis();
        let r = self.exhausted_at(bytes_used, ms);
        assert(r == spec_exhausted(self.spec_budget(), self.spec_steps(), ms, bytes_used));
        r
    }

    pub fn budget(&self) -> (b: &TrainBudget)
        ensures
            *b == self.spec_budget(),
    {
        &self.budget
    }

    /// Stop reason at a given clock reading.
    pub fn stop_reason_at(&self, bytes_used: u64, elapsed_ms: u64) -> (r: Option<StopReason>)
        ensures
            r == spec_stop_reason(self.spec_budget(), self.spec_steps(), elapsed_ms, bytes_used),
    {
        if let Some(max) = self.budget.max_steps {
            if self.steps_done >= max {
                return Some(StopReason::MaxSteps);
            }
        }
        if let Some(ms) = self.budget.max_millis {
            if elapsed_ms >= ms {
                return Some(StopReason::MaxMillis);
            }
        }
        if let Some(max_b) = self.budget.max_bytes {
            if bytes_used > max_b {
                return Some(StopReason::MaxBytes);
            }
        }
        None
    }

    /// Stop reason against the clock: the exact answer at the clock reading taken
    /// during the call.
    pub fn stop_reason(&self, bytes_used: u64) -> (r: Option<StopReason>)
        ensures
            exists|ms: u64| r == #[trigger] spec_stop_reason(self.spec_budget(), self.spec_steps(), ms, bytes_used),
            steps_reached(self.spec_budget(), self.spec_steps()) ==> r == Some(StopReason::MaxSteps),
            !steps_reached(self.spec_budget(), self.spec_steps()) && self.spec_budget().max_millis.is_none() ==>
                r == (if bytes_exceeded(self.spec_budget(), bytes_used) { Some(StopReason::MaxBytes) } else { None }),
    {
        let ms = self.elapsed_millis();
        let r = self.stop_reason_at(bytes_used, ms);
        assert(r == spec_stop_reason(self.spec_budget(), self.spec_steps(), ms, bytes_used));
        r
    }
}

/// A budget is exhausted exactly when there is a reason to stop, and that reason
/// is never `Completed`.
pub proof fn lemma_exhausted_iff_stop_reason(budget: TrainBudget, steps: u64, elapsed_ms: u64, bytes_used: u64)
    ensures
        spec_exhausted(budget, steps, elapsed_ms, bytes_used) <==> spec_stop_reason(budget, steps, elapsed_ms, bytes_used).is_some(),
        spec_stop_reason(budget, steps, elapsed_ms, bytes_used) != Some(StopReason::Completed),
{
}

/// An unlimited budget is never exhausted, whatever the step count, time or memory.
pub proof fn lemma_unlimited_never_exhausted(steps: u64, elapsed_ms: u64, bytes_used: u64)
    ensures
        !spec_exhausted(TrainBudget { max_steps: None, max_millis: None, max_bytes: None }, steps, elapsed_ms, bytes_used),
{
}

/// Once the step limit is reached it stays reached as more steps are taken.
pub proof fn lemma_steps_monotone(budget: TrainBudget, s1: u64, s2: u64, elapsed_ms: u64, bytes_used: u64)
    requires
        s1 <= s2,
        spec_exhausted(budget, s1, elapsed_ms, bytes_used),
        !millis_reached(budget, elapsed_ms),
        !bytes_exceeded(budget, bytes_used),
    ensures
        spec_exhausted(budget, s2, elapsed_ms, bytes_used),
        spec_stop_reason(budget, s2, elapsed_ms, bytes_used) == Some(StopReason::MaxSteps),
{
}

} // verus!
