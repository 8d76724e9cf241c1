use vstd::prelude::*;

verus! {

/// How the dispatching thread waits for the other participants.
#[derive(Clone, Copy, Debug, PartialEq, Eq, Structural)]
pub enum WaitStrategy {
    /// Re-check the completion count, yielding the processor in between.
    Spin,
    /// Sleep on a condition signalled by each participant that runs out of work.
    Blocking,
}

/// What the waiting thread does after one look at the completion count.
#[derive(Clone, Copy, Debug, PartialEq, Eq, Structural)]
pub enum WaitAction {
    /// Every participant is done: the buffer is the caller's again.
    Return,
    /// Yield the processor, then look again.
    Yield,
    /// Block until a participant signals, then look again.
    Block,
}

/// Settings of a pool.
#[derive(Clone, Copy, Debug, PartialEq, Eq, Structural)]
pub struct PoolConfig {
    /// Number of background workers; `None` derives it from the CPU count.
    pub worker_count: Option<usize>,
    /// How the dispatching thread waits.
    pub wait_strategy: WaitStrategy,
    /// CPU count assumed when the hardware query fails or reports zero.
    pub fallback_cpu_count: usize,
}

/// CPU count assumed by `PoolConfig::default` when the hardware query fails.
pub const DEFAULT_FALLBACK_CPU_COUNT: usize = 16;

/// Workers for a machine with `cpus` logical CPUs: one CPU is left to the
/// dispatching thread, which takes part in every job.
pub open spec fn workers_for_cpus(cpus: int) -> int {
    if cpus > 0 { cpus - 1 } else { 0 }
}

/// The worker count that `config` asks for, given the result of the CPU query.
pub open spec fn spec_worker_count(cpu_query: Option<u32>, config: PoolConfig) -> int {
    match config.worker_count {
        Some(w) => w as int,
        None => match cpu_query {
            Some(c) if c > 0 => workers_for_cpus(c as int),
            _ => workers_for_cpus(config.fallback_cpu_count as int),
        },
    }
}

/// The action for one look at the completion count.
pub open spec fn spec_wait_action(strategy: WaitStrategy, done: bool) -> WaitAction {
    if done {
        WaitAction::Return
    } else {
        match strategy {
            WaitStrategy::Spin => WaitAction::Yield,
            WaitStrategy::Blocking => WaitAction::Block,
        }
    }
}

/// Relies on sys_info::cpu_num: the machine's logical CPU count, or an error
/// when it cannot be read. Nothing is promised of the number, which may be 0.
#[verifier::external_body]
fn query_cpu_count() -> (r: Option<u32>) {
    sys_info::cpu_num().ok()
}

impl PoolConfig {
    /// Workers derived from the CPU count, blocking wait, fallback of 16 CPUs.
    pub fn new() -> (r: PoolConfig)
        ensures
            r.worker_count == None::<usize>,
            r.wait_strategy == WaitStrategy::Blocking,
            r.fallback_cpu_count == DEFAULT_FALLBACK_CPU_COUNT,
    {
        PoolConfig {
            worker_count: None,
            wait_strategy: WaitStrategy::Blocking,
            fallback_cpu_count: DEFAULT_FALLBACK_CPU_COUNT,
        }
    }

    /// The number of background workers for this configuration, given what the
    /// CPU query returned (`None` when it failed).
    pub fn worker_count_for(&self, cpu_query: Option<u32>) -> (r: usize)
        ensures
            r as int == spec_worker_count(cpu_query, *self),
    {
        match self.worker_count {
            Some(w) => w,
            None => {
                let cpus: usize = match cpu_query {
                    Some(c) if c > 0 => c as usize,
                    _ => self.fallback_cpu_count,
                };
                if cpus > 0 {
                    cpus - 1
                } else {
                    0
                }
            },
        }
    }

    /// The number of background workers for this configuration on this machine.
    pub fn worker_count(&self) -> (r: usize)
        ensures
            self.worker_count matches Some(w) ==> r == w,
            exists|q: Option<u32>| r as int == spec_worker_count(q, *self),
    {
        let q = query_cpu_count();
        self.worker_count_for(q)
    }

    /// What the dispatching thread does after seeing whether the job is done.
    pub fn wait_action(&self, done: bool) -> (r: WaitAction)
        ensures
            r == spec_wait_action(self.wait_strategy, done),
    {
        if done {
            WaitAction::Return
        } else {
            match self.wait_strategy {
                WaitStrategy::Spin => WaitAction::Yield,
                WaitStrategy::Blocking => WaitAction::Block,
            }
        }
    }
}

impl Default for PoolConfig {
    fn default() -> (r: PoolConfig)
        ensures
            r.worker_count == None::<usize>,
            r.wait_strategy == WaitStrategy::Blocking,
            r.fallback_cpu_count == DEFAULT_FALLBACK_CPU_COUNT,
    {
        PoolConfig::new()
    }
}

} // verus!
