use rayoff::{PoolConfig, WaitAction, WaitStrategy};

#[test]
fn default_config_derives_workers_and_blocks() {
    let c = PoolConfig::default();
    assert_eq!(c.worker_count, None);
    assert_eq!(c.wait_strategy, WaitStrategy::Blocking);
    assert_eq!(c.fallback_cpu_count, 16);
    assert_eq!(c, PoolConfig::new());
}

#[test]
fn one_cpu_is_left_to_the_dispatcher() {
    let c = PoolConfig::new();
    assert_eq!(c.worker_count_for(Some(8)), 7);
    assert_eq!(c.worker_count_for(Some(1)), 0);
}

#[test]
fn failed_or_zero_cpu_query_uses_fallback() {
    let c = PoolConfig::new();
    assert_eq!(c.worker_count_for(None), 15);
    assert_eq!(c.worker_count_for(Some(0)), 15);
    let c = PoolConfig { fallback_cpu_count: 10, ..PoolConfig::new() };
    assert_eq!(c.worker_count_for(None), 9);
    let c = PoolConfig { fallback_cpu_count: 0, ..PoolConfig::new() };
    assert_eq!(c.worker_count_for(Some(0)), 0);
}

#[test]
fn explicit_worker_count_wins() {
    let c = PoolConfig { worker_count: Some(3), ..PoolConfig::new() };
    assert_eq!(c.worker_count_for(Some(64)), 3);
    assert_eq!(c.worker_count_for(None), 3);
    assert_eq!(c.worker_count(), 3);
    let c = PoolConfig { worker_count: Some(0), ..PoolConfig::new() };
    assert_eq!(c.worker_count(), 0);
}

#[test]
fn wait_actions_follow_strategy() {
    let spin = PoolConfig { wait_strategy: WaitStrategy::Spin, ..PoolConfig::new() };
    let block = PoolConfig::new();
    assert_eq!(spin.wait_action(true), WaitAction::Return);
    assert_eq!(block.wait_action(true), WaitAction::Return);
    assert_eq!(spin.wait_action(false), WaitAction::Yield);
    assert_eq!(block.wait_action(false), WaitAction::Block);
}
