//! Settings the engine takes from its surroundings.
use vstd::prelude::*;

verus! {

/// Number of logical processors the machine offers.
///
/// Calls `num_cpus::get`, which is documented to return at least 1. Nothing
/// else is claimed: the count depends on the machine and on the limits the
/// process runs under.
#[verifier::external_body]
pub(crate) fn available_cpus() -> (n: usize)
    ensures
        n >= 1,
{
    num_cpus::get()
}

/// The smaller of a requested worker count and the number of processors.
pub open spec fn capped(requested: usize, cpus: usize) -> usize {
    if requested <= cpus {
        requested
    } else {
        cpus
    }
}

/// The worker count that a request for `requested` workers gives on a
/// machine with `cpus` processors: as many as requested, at most one per
/// processor, and at least 1, which is sequential execution.
pub open spec fn level_for(requested: usize, cpus: usize) -> usize {
    if capped(requested, cpus) == 0 {
        1
    } else {
        capped(requested, cpus)
    }
}

/// Worker count for block execution: set once, 1 until then; never below 1.
#[derive(Clone, Copy, Debug)]
pub struct ConcurrencyLevel {
    level: Option<usize>,
}

impl ConcurrencyLevel {
    /// The level in effect: at least 1.
    pub closed spec fn get(self) -> usize {
        match self.level {
            Some(l) => if l == 0 {
                1
            } else {
                l
            },
            None => 1,
        }
    }

    /// Whether a level has been set.
    pub closed spec fn is_set(self) -> bool {
        self.level is Some
    }

    /// A setting nobody has touched yet: sequential execution.
    pub fn unset() -> (c: Self)
        ensures
            !c.is_set(),
            c.get() == 1,
    {
        ConcurrencyLevel { level: None }
    }

    /// Sets the level to `concurrency_level`, capped at `cpus` and raised to
    /// 1 where that is 0, unless a level was set before. Returns whether this
    /// call set it.
    pub fn set_once_with(&mut self, concurrency_level: usize, cpus: usize) -> (was_set: bool)
        ensures
            was_set == !old(self).is_set(),
            final(self).is_set(),
            final(self).get() >= 1,
            was_set ==> final(self).get() == level_for(concurrency_level, cpus),
            !was_set ==> *final(self) == *old(self),
    {
        match self.level {
            Some(_) => false,
            None => {
                let capped: usize = if concurrency_level <= cpus {
                    concurrency_level
                } else {
                    cpus
                };
                let level: usize = if capped == 0 {
                    1
                } else {
                    capped
                };
                self.level = Some(level);
                true
            },
        }
    }

    /// Sets the level, capped at the number of processors of this machine
    /// and raised to 1 where 0 is asked for, unless a level was set before.
    /// Returns whether this call set it.
    pub fn set_concurrency_level_once(&mut self, concurrency_level: usize) -> (was_set: bool)
        ensures
            was_set == !old(self).is_set(),
            final(self).is_set(),
            final(self).get() >= 1,
            was_set && concurrency_level >= 1 ==> final(self).get() <= concurrency_level,
            was_set && concurrency_level <= 1 ==> final(self).get() == 1,
            !was_set ==> *final(self) == *old(self),
    {
        let cpus: usize = available_cpus();
        self.set_once_with(concurrency_level, cpus)
    }

    /// The level in effect: what was set, or 1.
    pub fn get_concurrency_level(&self) -> (l: usize)
        ensures
            l == self.get(),
            l >= 1,
    {
        match self.level {
            Some(l) => if l == 0 {
                1
            } else {
                l
            },
            None => 1,
        }
    }
}

/// The largest number of threads that read proofs.
pub const MAX_PROOF_READING_THREADS: usize = 256;

/// The number of threads that read proofs when none was set.
pub const DEFAULT_PROOF_READING_THREADS: usize = 32;

/// Number of threads that read proofs: set once, 32 until then.
#[derive(Clone, Copy, Debug)]
pub struct ProofReadingThreads {
    threads: Option<usize>,
}

impl ProofReadingThreads {
    /// The number in effect.
    pub closed spec fn get(self) -> usize {
        match self.threads {
            Some(n) => n,
            None => DEFAULT_PROOF_READING_THREADS,
        }
    }

    /// Whether a number has been set.
    pub closed spec fn is_set(self) -> bool {
        self.threads is Some
    }

    /// A setting nobody has touched yet.
    pub fn unset() -> (t: Self)
        ensures
            !t.is_set(),
            t.get() == DEFAULT_PROOF_READING_THREADS,
    {
        ProofReadingThreads { threads: None }
    }

    /// Sets the number to `num_threads`, capped at 256, unless a number was
    /// set before. Returns whether this call set it.
    pub fn set_num_proof_reading_threads_once(&mut self, num_threads: usize) -> (was_set: bool)
        ensures
            was_set == !old(self).is_set(),
            final(self).is_set(),
            was_set ==> final(self).get() == capped(num_threads, MAX_PROOF_READING_THREADS),
            !was_set ==> *final(self) == *old(self),
    {
        match self.threads {
            Some(_) => false,
            None => {
                let threads: usize = if num_threads <= MAX_PROOF_READING_THREADS {
                    num_threads
                } else {
                    MAX_PROOF_READING_THREADS
                };
                self.threads = Some(threads);
                true
            },
        }
    }

    /// The number in effect: what was set, or 32.
    pub fn get_num_proof_reading_threads(&self) -> (n: usize)
        ensures
            n == self.get(),
    {
        match self.threads {
            Some(n) => n,
            None => DEFAULT_PROOF_READING_THREADS,
        }
    }
}

/// A switch that is set once and has a position until then.
#[derive(Clone, Copy, Debug)]
pub struct Switch {
    default: bool,
    value: Option<bool>,
}

impl Switch {
    /// The position in effect.
    pub closed spec fn get(self) -> bool {
        match self.value {
            Some(v) => v,
            None => self.default,
        }
    }

    /// Whether the switch has been set.
    pub closed spec fn is_set(self) -> bool {
        self.value is Some
    }

    /// A switch nobody has touched yet, which stands at `default`.
    pub fn unset(default: bool) -> (s: Self)
        ensures
            !s.is_set(),
            s.get() == default,
    {
        Switch { default, value: None }
    }

    /// Sets the switch unless it was set before. Returns whether this call
    /// set it.
    pub fn set_once(&mut self, enable: bool) -> (was_set: bool)
        ensures
            was_set == !old(self).is_set(),
            final(self).is_set(),
            was_set ==> final(self).get() == enable,
            !was_set ==> *final(self) == *old(self),
    {
        match self.value {
            Some(_) => false,
            None => {
                self.value = Some(enable);
                true
            },
        }
    }

    /// The position in effect.
    pub fn is_on(&self) -> (on: bool)
        ensures
            on == self.get(),
    {
        match self.value {
            Some(v) => v,
            None => self.default,
        }
    }
}

} // verus!
