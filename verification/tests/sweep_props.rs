use internet_map::ledger::StoreModel;
use internet_map::partition::{address_of, block_of, offset_of};
use internet_map::scanner::BlockScan;
use internet_map::scheduler::{ScanError, Scheduler};

/// Drive a whole block scan against a reachability stub, recording outcomes
/// in batches and in reverse order of issue, and return the result set
/// together with the highest number of probes that were ever in flight.
fn drive_scan(
    offset_bits: u32,
    block_id: u64,
    cap: usize,
    stub: impl Fn(u64) -> bool,
) -> (Vec<(u64, bool)>, usize) {
    let mut scan = BlockScan::new(offset_bits, block_id, cap);
    let mut max_inflight: usize = 0;
    while !scan.is_done() {
        let mut pending: Vec<u64> = Vec::new();
        while scan.can_issue() {
            let o = scan.issue();
            pending.push(o);
            if scan.inflight.len() > max_inflight {
                max_inflight = scan.inflight.len();
            }
        }
        while let Some(o) = pending.pop() {
            scan.record(o, stub(o));
        }
    }
    (scan.into_results(), max_inflight)
}

#[test]
fn bounded_fan_out_on_full_block() {
    // Scanning a block of 65536 addresses never exceeds the configured
    // per-block cap, measured by an instrumented transport stub.
    let cap: usize = 128;
    let (results, max_inflight) = drive_scan(16, 0, cap, |o| o % 3 == 0);
    assert_eq!(max_inflight, cap);
    assert_eq!(results.len(), 65536);

    // One row per offset, no duplicate, no omission, each outcome verbatim.
    let mut seen = vec![false; 65536];
    for (o, reachable) in &results {
        assert!(!seen[*o as usize]);
        seen[*o as usize] = true;
        assert_eq!(*reachable, *o % 3 == 0);
    }
    assert!(seen.iter().all(|s| *s));
}

#[test]
fn end_to_end_one_block() {
    // Block size 256 (8 offset bits), the block of 203.0.113.0–203.0.113.255,
    // a stub reporting reachable only for offsets {1, 254}: the committed
    // result set has 256 rows, exactly two true, and the progress marker is
    // present afterward.
    let base: u64 = u32::from_be_bytes([203, 0, 113, 0]) as u64;
    let block_id = block_of(8, base);
    let reachable_1 = address_of(8, block_id, 1);
    let reachable_254 = address_of(8, block_id, 254);
    assert_eq!(reachable_1, u32::from_be_bytes([203, 0, 113, 1]) as u64);
    assert_eq!(reachable_254, u32::from_be_bytes([203, 0, 113, 254]) as u64);

    let (results, _) = drive_scan(8, block_id, 16, |o| {
        let addr = base + o;
        addr == reachable_1 || addr == reachable_254
    });
    assert_eq!(results.len(), 256);
    let trues: Vec<u64> = results.iter().filter(|r| r.1).map(|r| r.0).collect();
    assert_eq!(trues.len(), 2);
    assert!(trues.contains(&1));
    assert!(trues.contains(&254));

    let mut store = StoreModel::new();
    store.commit(block_id, &results);
    assert!(store.is_complete(block_id));
    assert_eq!(store.sets.len(), 1);
    assert_eq!(store.sets[0].1.len(), 256);
}

#[test]
fn ping_success_and_failure() {
    // A reachable address is recorded as true and an unreachable one as
    // false, exactly as the transport reported them.
    let cloudflare_ip = u32::from_be_bytes([1, 1, 1, 1]);
    let intel_ip = u32::from_be_bytes([192, 198, 149, 0]);

    let stub = |addr: u64| addr == cloudflare_ip as u64;

    let block_a = block_of(16, cloudflare_ip as u64);
    let (results_a, _) = drive_scan(16, block_a, 256, |o| stub(address_of(16, block_a, o)));
    let off_a = offset_of(16, cloudflare_ip as u64);
    assert!(results_a.iter().any(|r| r.0 == off_a && r.1));

    let block_b = block_of(16, intel_ip as u64);
    let (results_b, _) = drive_scan(16, block_b, 256, |o| stub(address_of(16, block_b, o)));
    let off_b = offset_of(16, intel_ip as u64);
    assert!(results_b.iter().any(|r| r.0 == off_b && !r.1));
}

#[test]
fn scheduler_dispatches_gaps_before_fresh_ground() {
    // Resuming after high-water mark 4 with gap {2}: the gap is re-scanned
    // before any new block.
    let mut sched = Scheduler::startup(0, 2, Some(4), &vec![2], None, 3).unwrap();
    let (slot_a, b_a) = sched.next_assignment().unwrap();
    assert_eq!(b_a, 2);
    let (slot_b, b_b) = sched.next_assignment().unwrap();
    assert_eq!(b_b, 5);
    // Both slots busy: nothing more to hand out.
    assert!(sched.next_assignment().is_none());
    sched.commit_ok(slot_a);
    sched.commit_ok(slot_b);
    let (_, b_c) = sched.next_assignment().unwrap();
    assert_eq!(b_c, 6);
}

#[test]
fn crash_recovery_rescans_pending_block() {
    // Blocks 0 and 1 completed; the commit of 2 was interrupted after its
    // rows were written. The next run resumes at the high-water mark and
    // scans block 2 again.
    let mut store = StoreModel::new();
    store.commit(0, &vec![(0, true)]);
    store.commit(1, &vec![(0, false)]);
    let plan = internet_map::ledger::commit_plan(2, &vec![(0u64, true)]);
    store.apply_prefix(&plan, plan.len() - 1);

    let highest = store.highest_completed();
    assert_eq!(highest, Some(1));
    let gaps = store.find_gaps_near_head(4);
    assert_eq!(gaps, Vec::<u64>::new());
    let mut sched = Scheduler::startup(0, 1, highest, &gaps, None, 3).unwrap();
    let (_, b) = sched.next_assignment().unwrap();
    assert_eq!(b, 2);
}

#[test]
fn bounded_count_termination() {
    let mut sched = Scheduler::startup(0, 1, None, &vec![], Some(2), 3).unwrap();
    let (slot, b0) = sched.next_assignment().unwrap();
    assert_eq!(b0, 0);
    sched.commit_ok(slot);
    assert!(!sched.is_finished());
    let (slot, b1) = sched.next_assignment().unwrap();
    assert_eq!(b1, 1);
    sched.commit_ok(slot);
    // Two successful commits: the limit is met, nothing more is dispatched.
    assert!(sched.next_assignment().is_none());
    assert!(sched.is_finished());
}

#[test]
fn commit_failures_retry_then_abort() {
    let mut sched = Scheduler::startup(0, 1, None, &vec![], None, 2).unwrap();
    // First two failures re-enqueue the block; the third is fatal.
    let (slot, b) = sched.next_assignment().unwrap();
    assert_eq!(b, 0);
    assert!(sched.commit_failed(slot).is_none());
    let (slot, b) = sched.next_assignment().unwrap();
    assert_eq!(b, 0);
    assert!(sched.commit_failed(slot).is_none());
    let (slot, b) = sched.next_assignment().unwrap();
    assert_eq!(b, 0);
    assert_eq!(sched.commit_failed(slot), Some(ScanError::OperationFailed));
}

#[test]
fn shutdown_drains_and_abandons() {
    let mut sched = Scheduler::startup(0, 2, None, &vec![], None, 3).unwrap();
    let (slot_a, _) = sched.next_assignment().unwrap();
    let (slot_b, _) = sched.next_assignment().unwrap();
    sched.begin_shutdown();
    assert!(sched.next_assignment().is_none());
    assert!(!sched.is_finished());
    // One scan finishes and commits within the drain timeout; the other
    // exceeds it and is abandoned, its block left pending.
    sched.commit_ok(slot_a);
    sched.drain_timeout(slot_b);
    assert!(sched.is_finished());
}

#[test]
fn invalid_configuration_is_fatal() {
    assert_eq!(
        Scheduler::startup(33, 2, None, &vec![], None, 3).unwrap_err(),
        ScanError::Configuration
    );
    assert_eq!(
        Scheduler::startup(8, 0, None, &vec![], None, 3).unwrap_err(),
        ScanError::Configuration
    );
    // A high-water mark or gap id outside the block space is refused.
    assert_eq!(
        Scheduler::startup(32, 1, Some(1), &vec![], None, 3).unwrap_err(),
        ScanError::Configuration
    );
    assert_eq!(
        Scheduler::startup(32, 1, None, &vec![1], None, 3).unwrap_err(),
        ScanError::Configuration
    );
}

#[test]
fn smallest_block_and_wide_cap() {
    // Block size 1 (no offset bits): one probe completes the block, and a
    // cap far wider than the block is harmless.
    let (results, max_inflight) = drive_scan(0, 42, 1024, |_| true);
    assert_eq!(results, vec![(0, true)]);
    assert_eq!(max_inflight, 1);
}
