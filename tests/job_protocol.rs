use rayoff::{Claim, Job};

/// Steps `participants` participants in turn over a job until it completes.
/// Each holds at most one claimed element; `f` is applied to it, and the work
/// on the indices in `failing` is reported as failed.
/// Returns the buffer, the recorded failure, and the claimed indices in order.
fn run_in_turn(
    elems: Vec<u64>,
    participants: usize,
    f: fn(u64) -> u64,
    failing: &[usize],
) -> (Vec<u64>, Option<usize>, Vec<usize>) {
    let mut job = Job::new(elems, participants);
    let mut held: Vec<Option<(usize, u64)>> = (0..participants).map(|_| None).collect();
    let mut exhausted = vec![false; participants];
    let mut claimed = Vec::new();
    while !job.is_complete() {
        for p in 0..participants {
            if let Some((i, v)) = held[p].take() {
                assert!(job.is_pending(i));
                job.finish(i, f(v), !failing.contains(&i));
            } else if !exhausted[p] {
                assert!(job.can_claim());
                match job.claim() {
                    Claim::Index(i, v) => {
                        claimed.push(i);
                        held[p] = Some((i, v));
                    }
                    Claim::Exhausted => exhausted[p] = true,
                }
            }
        }
    }
    let (out, failure) = job.into_elements();
    (out, failure, claimed)
}

fn plus_one(v: u64) -> u64 {
    v + 1
}

fn square(v: u64) -> u64 {
    v * v
}

#[test]
fn hundred_zeros_become_ones_then_twos() {
    let (once, failure, _) = run_in_turn(vec![0u64; 100], 3 + 1, plus_one, &[]);
    assert_eq!(failure, None);
    assert_eq!(once, vec![1u64; 100]);
    let (twice, failure, _) = run_in_turn(once, 3 + 1, plus_one, &[]);
    assert_eq!(failure, None);
    assert_eq!(twice, vec![2u64; 100]);
}

#[test]
fn squares_in_order() {
    let (out, failure, _) = run_in_turn(vec![1, 2, 3, 4], 3, square, &[]);
    assert_eq!(failure, None);
    assert_eq!(out, vec![1, 4, 9, 16]);
}

#[test]
fn same_result_for_any_worker_count() {
    let input: Vec<u64> = (0..37).map(|i| i * 3 + 1).collect();
    let expected: Vec<u64> = input.iter().map(|&v| v * v).collect();
    for workers in [0usize, 1, 4, 16] {
        let (out, failure, _) = run_in_turn(input.clone(), workers + 1, square, &[]);
        assert_eq!(failure, None);
        assert_eq!(out, expected);
    }
}

#[test]
fn every_index_claimed_exactly_once() {
    for n in [0usize, 1, 2, 7, 50] {
        for workers in [0usize, 1, 3, 9] {
            let (_, _, mut claimed) = run_in_turn(vec![0; n], workers + 1, plus_one, &[]);
            claimed.sort();
            assert_eq!(claimed, (0..n).collect::<Vec<usize>>());
        }
    }
}

#[test]
fn empty_buffer_completes_after_one_claim_each() {
    let mut job: Job<u64> = Job::new(Vec::new(), 4);
    assert_eq!(job.len(), 0);
    for _ in 0..4 {
        assert!(!job.is_complete());
        assert!(matches!(job.claim(), Claim::Exhausted));
    }
    assert!(job.is_complete());
    let (out, failure) = job.into_elements();
    assert!(out.is_empty());
    assert_eq!(failure, None);
}

#[test]
fn one_failure_still_processes_the_rest() {
    let (out, failure, _) = run_in_turn(vec![10u64; 20], 5, plus_one, &[7]);
    assert_eq!(failure, Some(7));
    assert_eq!(out, vec![11u64; 20]);
}

#[test]
fn first_failure_is_kept() {
    let (_, failure, _) = run_in_turn(vec![0u64; 10], 1, plus_one, &[3, 8]);
    assert_eq!(failure, Some(3));
}

#[test]
fn claims_hand_out_indices_in_turn() {
    let mut job = Job::new(vec![5u64, 6], 2);
    assert_eq!(job.participants(), 2);
    assert!(!job.is_pending(0));
    match job.claim() {
        Claim::Index(i, v) => {
            assert_eq!((i, v), (0, 5));
            assert!(job.is_pending(0));
            job.finish(i, 50, true);
            assert!(!job.is_pending(0));
        }
        Claim::Exhausted => panic!("an index was left"),
    }
    match job.claim() {
        Claim::Index(i, v) => {
            assert_eq!((i, v), (1, 6));
            job.finish(i, 60, false);
        }
        Claim::Exhausted => panic!("an index was left"),
    }
    assert_eq!(job.failure(), Some(1));
    assert!(matches!(job.claim(), Claim::Exhausted));
    assert!(!job.is_complete());
    assert!(job.can_claim());
    assert!(matches!(job.claim(), Claim::Exhausted));
    assert!(job.is_complete());
    assert!(!job.can_claim());
    assert_eq!(job.into_elements(), (vec![50, 60], Some(1)));
}

#[test]
fn holding_participants_block_further_claims() {
    let mut job = Job::new(vec![1u64, 2, 3], 2);
    assert!(matches!(job.claim(), Claim::Index(0, 1)));
    assert!(job.can_claim());
    assert!(matches!(job.claim(), Claim::Index(1, 2)));
    assert!(!job.can_claim());
}
