//! Deterministic timestamping and randomness: synchronized, reproducible
//! sources for requests and sessions, with the execution-state records
//! that let a run be replayed.

use vstd::prelude::*;
use crate::clock::now_millis;

verus! {

/// `a + b`, stopping at the top of the range.
pub open spec fn spec_sat_add(a: u64, b: u64) -> u64 {
    if a + b > u64::MAX {
        u64::MAX
    } else {
        (a + b) as u64
    }
}

/// `a + b`, stopping at the top of the range.
fn sat_add(a: u64, b: u64) -> (r: u64)
    ensures
        r == spec_sat_add(a, b),
{
    if a > u64::MAX - b {
        u64::MAX
    } else {
        a + b
    }
}

/// The timestamp generator's state.
pub struct SpecTimestamp {
    pub base_ms: u64,
    pub counter: u64,
    pub use_synthetic_time: bool,
}

/// A timestamp generator: a base in milliseconds since the epoch and a
/// counter for deterministic increments. Synthetic time never consults
/// the clock; real time keeps the base monotone under it.
pub struct DeterministicTimestamp {
    base_ms: u64,
    counter: u64,
    use_synthetic_time: bool,
}

impl View for DeterministicTimestamp {
    type V = SpecTimestamp;

    closed spec fn view(&self) -> SpecTimestamp {
        SpecTimestamp {
            base_ms: self.base_ms,
            counter: self.counter,
            use_synthetic_time: self.use_synthetic_time,
        }
    }
}

impl DeterministicTimestamp {
    /// A generator based at the clock's current reading.
    pub fn new(use_synthetic_time: bool) -> (r: DeterministicTimestamp)
        ensures
            r@.counter == 0,
            r@.use_synthetic_time == use_synthetic_time,
    {
        let base_ms = now_millis();
        DeterministicTimestamp { base_ms, counter: 0, use_synthetic_time }
    }

    /// A synthetic generator based at a chosen time, for replay.
    pub fn with_base_time(base_ms: u64) -> (r: DeterministicTimestamp)
        ensures
            r@ == (SpecTimestamp { base_ms, counter: 0, use_synthetic_time: true }),
    {
        DeterministicTimestamp { base_ms, counter: 0, use_synthetic_time: true }
    }

    /// The next timestamp: the base plus the counter, and the counter
    /// moves up — wrapping at the top, as a machine word does. Synthetic
    /// time leaves the base alone; real time first raises the base to the
    /// clock if the clock is ahead, so readings never go backward.
    pub fn next(&mut self) -> (r: u64)
        ensures
            final(self)@.use_synthetic_time == old(self)@.use_synthetic_time,
            final(self)@.counter == (if old(self)@.counter == u64::MAX {
                0u64
            } else {
                (old(self)@.counter + 1) as u64
            }),
            old(self)@.use_synthetic_time ==> final(self)@.base_ms == old(self)@.base_ms,
            final(self)@.base_ms >= old(self)@.base_ms,
            r == spec_sat_add(final(self)@.base_ms, old(self)@.counter),
    {
        if !self.use_synthetic_time {
            let clock_now = now_millis();
            if clock_now > self.base_ms {
                self.base_ms = clock_now;
            }
        }
        let r = sat_add(self.base_ms, self.counter);
        self.counter = if self.counter == u64::MAX {
            0
        } else {
            self.counter + 1
        };
        r
    }

    /// Adopt a remote time source: rebase and restart the counter.
    pub fn sync_with_remote(&mut self, remote_ms: u64)
        ensures
            final(self)@ == (SpecTimestamp {
                base_ms: remote_ms,
                counter: 0,
                use_synthetic_time: old(self)@.use_synthetic_time,
            }),
    {
        self.base_ms = remote_ms;
        self.counter = 0;
    }
}

/// The generator's state.
pub struct SpecRng {
    pub seed: u64,
    pub state: u64,
    pub counter: u64,
}

/// One xorshift step.
pub open spec fn spec_xorshift(s: u64) -> u64 {
    let a = s ^ (s << 13);
    let b = a ^ (a >> 7);
    b ^ (b << 17)
}

/// The state a seed starts from.
pub open spec fn spec_rng_init(seed: u64) -> u64 {
    seed ^ 0xDEADBEEFDEADBEEF
}

/// A reproducible random source: xorshift over a seeded state, with a
/// counter of draws.
pub struct DeterministicRng {
    seed: u64,
    state: u64,
    counter: u64,
}

impl View for DeterministicRng {
    type V = SpecRng;

    closed spec fn view(&self) -> SpecRng {
        SpecRng { seed: self.seed, state: self.state, counter: self.counter }
    }
}

impl DeterministicRng {
    /// A generator over a seed.
    pub fn new(seed: u64) -> (r: DeterministicRng)
        ensures
            r@ == (SpecRng { seed, state: spec_rng_init(seed), counter: 0 }),
    {
        DeterministicRng { seed, state: seed ^ 0xDEADBEEFDEADBEEF, counter: 0 }
    }

    /// Back to the seeded state: the same draws follow again.
    pub fn reset(&mut self)
        ensures
            final(self)@ == (SpecRng {
                seed: old(self)@.seed,
                state: spec_rng_init(old(self)@.seed),
                counter: 0,
            }),
    {
        self.state = self.seed ^ 0xDEADBEEFDEADBEEF;
        self.counter = 0;
    }

    /// The next draw: one xorshift step, returned and kept as the state.
    pub fn next_u64(&mut self) -> (r: u64)
        requires
            old(self)@.counter < u64::MAX,
        ensures
            final(self)@.seed == old(self)@.seed,
            final(self)@.state == spec_xorshift(old(self)@.state),
            final(self)@.counter == old(self)@.counter + 1,
            r == final(self)@.state,
    {
        self.state = self.state ^ (self.state << 13);
        self.state = self.state ^ (self.state >> 7);
        self.state = self.state ^ (self.state << 17);
        self.counter = self.counter + 1;
        self.state
    }

    /// The seed this generator started from.
    pub fn seed(&self) -> (r: u64)
        ensures
            r == self@.seed,
    {
        self.seed
    }

    /// How many draws have been made.
    pub fn counter(&self) -> (r: u64)
        ensures
            r == self@.counter,
    {
        self.counter
    }
}

/// The state of a scripted execution, for debugging and replay.
#[derive(Debug, Clone, Copy, PartialEq, Eq, Structural)]
pub struct JsExecutionState {
    pub timestamp: u64,
    pub rng_seed: u64,
    pub rng_counter: u64,
    pub execution_count: u64,
    pub heap_size: usize,
}

/// What went wrong in a scripted execution.
#[derive(Debug)]
pub enum JsEnvError {
    SyntaxError(String),
    RuntimeError(String),
    SecurityViolation(String),
    Timeout,
    InternalError(String),
}

/// The short name of each error kind.
pub open spec fn spec_js_error_description(e: JsEnvError) -> Seq<char> {
    match e {
        JsEnvError::SyntaxError(_) => "Syntax error"@,
        JsEnvError::RuntimeError(_) => "Runtime error"@,
        JsEnvError::SecurityViolation(_) => "Security violation"@,
        JsEnvError::Timeout => "Timeout exceeded"@,
        JsEnvError::InternalError(_) => "Internal error"@,
    }
}

impl JsEnvError {
    /// The short name of this error's kind.
    pub fn description(&self) -> (r: &'static str)
        ensures
            r@ == spec_js_error_description(*self),
    {
        match self {
            JsEnvError::SyntaxError(_) => "Syntax error",
            JsEnvError::RuntimeError(_) => "Runtime error",
            JsEnvError::SecurityViolation(_) => "Security violation",
            JsEnvError::Timeout => "Timeout exceeded",
            JsEnvError::InternalError(_) => "Internal error",
        }
    }
}

/// Parameters pinning a deterministic run: its time, its randomness, an
/// optional execution state to resume, and what it may touch.
#[derive(Debug, Clone)]
pub struct DeterministicControlParams {
    pub timestamp: u64,
    pub rng_seed: u64,
    pub rng_counter: u64,
    pub js_execution_state: Option<JsExecutionState>,
    pub allow_network: bool,
    pub allow_dom_access: bool,
}

impl Default for DeterministicControlParams {
    /// Parameters for a fresh run: based at the clock's current reading,
    /// which also seeds the randomness; everything allowed.
    fn default() -> (r: DeterministicControlParams)
        ensures
            r.rng_seed == r.timestamp,
            r.rng_counter == 0,
            r.js_execution_state is None,
            r.allow_network,
            r.allow_dom_access,
    {
        let now = now_millis();
        DeterministicControlParams {
            timestamp: now,
            rng_seed: now,
            rng_counter: 0,
            js_execution_state: None,
            allow_network: true,
            allow_dom_access: true,
        }
    }
}

} // verus!
