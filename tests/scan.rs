use netscan::error::ScanError;
use netscan::range::AddressRange;
use netscan::resolver::{find_assigned_prefix, mask_to_prefix, resolve, InterfaceAddress, TargetAddress};
use netscan::scheduler::{
    collect_reachable, interpret, plan_scan, Action, ProbeOutcome, ProbeStatus, ScanTarget, Scheduler,
};

fn ip(a: u32, b: u32, c: u32, d: u32) -> u32 {
    (a << 24) | (b << 16) | (c << 8) | d
}

/// Drives a scan to the end. Probes complete last-in first-out, so outcomes
/// arrive in an order unlike the submission order. Returns the result and
/// every address submitted.
fn run(target: ScanTarget, answers: &dyn Fn(u32) -> bool) -> (Vec<u32>, Vec<u32>) {
    let mut s = Scheduler::new(target);
    let mut pending: Vec<u32> = Vec::new();
    let mut submitted: Vec<u32> = Vec::new();
    loop {
        match s.step() {
            Action::Submit(h) => {
                pending.push(h);
                submitted.push(h);
                assert!(pending.len() <= target.pool_size);
            }
            Action::Await => {
                let h = pending.pop().unwrap();
                let status = if answers(h) { ProbeStatus::Exited(0) } else { ProbeStatus::Exited(1) };
                s.record(interpret(h, status));
            }
            Action::Finished => break,
        }
    }
    assert!(pending.is_empty());
    (s.reachable().clone(), submitted)
}

fn sorted(mut v: Vec<u32>) -> Vec<u32> {
    v.sort();
    v
}

#[test]
fn range_clears_host_bits() {
    let r = AddressRange::new(ip(192, 168, 1, 77), 24).unwrap();
    assert_eq!(r.network(), ip(192, 168, 1, 0));
    assert_eq!(r.prefix(), 24);
    assert_eq!(r.len(), 256);
    assert_eq!(r.host_at(0), ip(192, 168, 1, 0));
    assert_eq!(r.host_at(255), ip(192, 168, 1, 255));
}

#[test]
fn range_sizes_follow_prefix() {
    for p in 0u8..=32 {
        let r = AddressRange::new(ip(10, 20, 30, 40), p).unwrap();
        assert_eq!(r.len(), 1u64 << (32 - p as u64));
    }
}

#[test]
fn range_single_address_at_32() {
    let r = AddressRange::new(ip(10, 0, 0, 9), 32).unwrap();
    assert_eq!(r.len(), 1);
    let mut c = r.iter();
    assert_eq!(c.next(), Some(ip(10, 0, 0, 9)));
    assert_eq!(c.next(), None);
}

#[test]
fn range_whole_space_at_0() {
    let r = AddressRange::new(ip(10, 0, 0, 9), 0).unwrap();
    assert_eq!(r.network(), 0);
    assert_eq!(r.len(), 1u64 << 32);
    assert_eq!(r.host_at((1u64 << 32) - 1), u32::MAX);
}

#[test]
fn range_prefix_over_32_refused() {
    assert_eq!(AddressRange::new(ip(10, 0, 0, 1), 33), Err(ScanError::InvalidPrefix));
}

#[test]
fn traversal_covers_block_in_order() {
    let r = AddressRange::new(ip(172, 16, 5, 130), 28).unwrap();
    let mut c = r.iter();
    let mut seen: Vec<u32> = Vec::new();
    while let Some(h) = c.next() {
        seen.push(h);
    }
    assert_eq!(seen.len(), 16);
    for (i, h) in seen.iter().enumerate() {
        assert_eq!(*h, ip(172, 16, 5, 128) + i as u32);
        assert_eq!(*h & 0xffff_fff0, ip(172, 16, 5, 130) & 0xffff_fff0);
    }
}

#[test]
fn traversal_restarts() {
    let r = AddressRange::new(ip(10, 1, 2, 3), 29).unwrap();
    let mut a = r.iter();
    let mut first: Vec<u32> = Vec::new();
    while let Some(h) = a.next() {
        first.push(h);
    }
    let mut b = r.iter();
    let mut second: Vec<u32> = Vec::new();
    while let Some(h) = b.next() {
        second.push(h);
    }
    assert_eq!(first, second);
    assert_eq!(first.len(), 8);
}

#[test]
fn mask_converts_to_prefix() {
    assert_eq!(mask_to_prefix(ip(255, 255, 255, 128)), Ok(25));
    assert_eq!(mask_to_prefix(ip(255, 255, 255, 0)), Ok(24));
    assert_eq!(mask_to_prefix(0), Ok(0));
    assert_eq!(mask_to_prefix(u32::MAX), Ok(32));
}

#[test]
fn mask_not_contiguous_refused() {
    assert_eq!(mask_to_prefix(ip(255, 0, 255, 0)), Err(ScanError::InvalidMask));
    assert_eq!(mask_to_prefix(ip(0, 0, 0, 255)), Err(ScanError::InvalidMask));
}

#[test]
fn assigned_prefix_last_entry_counts() {
    let table = vec![
        InterfaceAddress { addr: ip(10, 0, 0, 1), prefix: 8 },
        InterfaceAddress { addr: ip(192, 168, 1, 10), prefix: 24 },
        InterfaceAddress { addr: ip(10, 0, 0, 1), prefix: 16 },
    ];
    assert_eq!(find_assigned_prefix(&table, ip(10, 0, 0, 1)), Some(16));
    assert_eq!(find_assigned_prefix(&table, ip(192, 168, 1, 10)), Some(24));
    assert_eq!(find_assigned_prefix(&table, ip(192, 168, 1, 11)), None);
}

#[test]
fn resolve_assigned_ignores_override() {
    let table = vec![InterfaceAddress { addr: ip(192, 168, 1, 10), prefix: 24 }];
    let t = TargetAddress::V4(ip(192, 168, 1, 10));
    let expected = AddressRange::new(ip(192, 168, 1, 10), 24);
    assert_eq!(resolve(t, Some(30), None, &table), expected);
    assert_eq!(resolve(t, None, Some(ip(255, 255, 255, 252)), &table), expected);
    assert_eq!(resolve(t, Some(30), Some(ip(255, 0, 255, 0)), &table), expected);
    assert_eq!(resolve(t, None, None, &table).unwrap().prefix(), 24);
}

#[test]
fn resolve_unassigned_without_prefix_fails() {
    let table = vec![InterfaceAddress { addr: ip(192, 168, 1, 10), prefix: 24 }];
    let t = TargetAddress::V4(ip(192, 168, 1, 11));
    assert_eq!(resolve(t, None, None, &table), Err(ScanError::UnresolvableTarget));
    assert_eq!(resolve(t, None, None, &Vec::new()), Err(ScanError::UnresolvableTarget));
}

#[test]
fn resolve_prefix_before_mask() {
    let t = TargetAddress::V4(ip(10, 0, 0, 5));
    let r = resolve(t, Some(30), Some(ip(255, 255, 0, 0)), &Vec::new()).unwrap();
    assert_eq!(r.network(), ip(10, 0, 0, 4));
    assert_eq!(r.prefix(), 30);
}

#[test]
fn resolve_errors() {
    let t = TargetAddress::V4(ip(10, 0, 0, 5));
    assert_eq!(resolve(t, Some(33), None, &Vec::new()), Err(ScanError::InvalidPrefix));
    assert_eq!(resolve(t, None, Some(ip(255, 0, 255, 0)), &Vec::new()), Err(ScanError::InvalidMask));
    assert_eq!(resolve(TargetAddress::V6(1), Some(24), None, &Vec::new()), Err(ScanError::NotSupported));
    let bad = vec![InterfaceAddress { addr: ip(10, 0, 0, 5), prefix: 40 }];
    assert_eq!(resolve(t, Some(24), None, &bad), Err(ScanError::InvalidPrefix));
}

#[test]
fn pool_size_zero_refused() {
    let t = TargetAddress::V4(ip(10, 0, 0, 5));
    let e = plan_scan(t, Some(30), None, &Vec::new(), 0, 1000);
    assert_eq!(e, Err(ScanError::InvalidPoolSize));
    assert!(e.unwrap_err().is_configuration());
    let e = plan_scan(t, None, None, &Vec::new(), 0, 1000);
    assert_eq!(e, Err(ScanError::InvalidPoolSize));
    assert!(!ScanError::UnresolvableTarget.is_configuration());
    let range = AddressRange::new(ip(10, 0, 0, 5), 30).unwrap();
    assert_eq!(ScanTarget::new(ip(10, 0, 0, 5), range, 0, 1000), Err(ScanError::InvalidPoolSize));
}

#[test]
fn plan_scan_builds_target() {
    let t = TargetAddress::V4(ip(10, 0, 0, 5));
    let target = plan_scan(t, Some(30), None, &Vec::new(), 2, 500).unwrap();
    assert_eq!(target.ip, ip(10, 0, 0, 5));
    assert_eq!(target.range, AddressRange::new(ip(10, 0, 0, 4), 30).unwrap());
    assert_eq!(target.pool_size, 2);
    assert_eq!(target.timeout_millis, 500);
    assert_eq!(plan_scan(TargetAddress::V6(7), Some(30), None, &Vec::new(), 2, 500), Err(ScanError::NotSupported));
}

#[test]
fn interpret_exit_codes() {
    assert_eq!(interpret(7, ProbeStatus::Exited(0)), ProbeOutcome::Reachable(7));
    assert_eq!(interpret(7, ProbeStatus::Exited(1)), ProbeOutcome::Unreachable(7));
    assert_eq!(interpret(7, ProbeStatus::Exited(-1)), ProbeOutcome::Unreachable(7));
    assert_eq!(interpret(7, ProbeStatus::Terminated), ProbeOutcome::Unreachable(7));
    assert_eq!(interpret(7, ProbeStatus::LaunchFailed), ProbeOutcome::Error(7));
    assert_eq!(ProbeOutcome::Error(9).address(), 9);
}

#[test]
fn collect_keeps_reachable_in_arrival_order() {
    let outcomes = vec![
        ProbeOutcome::Unreachable(1),
        ProbeOutcome::Reachable(6),
        ProbeOutcome::Error(2),
        ProbeOutcome::Reachable(3),
    ];
    assert_eq!(collect_reachable(&outcomes), vec![6, 3]);
    assert_eq!(collect_reachable(&Vec::new()), Vec::<u32>::new());
}

#[test]
fn scheduler_respects_pool() {
    let range = AddressRange::new(ip(10, 0, 0, 0), 30).unwrap();
    let target = ScanTarget::new(0, range, 2, 100).unwrap();
    let mut s = Scheduler::new(target);
    assert_eq!(s.step(), Action::Submit(ip(10, 0, 0, 0)));
    assert_eq!(s.step(), Action::Submit(ip(10, 0, 0, 1)));
    assert_eq!(s.step(), Action::Await);
    s.record(ProbeOutcome::Reachable(ip(10, 0, 0, 1)));
    assert_eq!(s.step(), Action::Submit(ip(10, 0, 0, 2)));
    s.record(ProbeOutcome::Unreachable(ip(10, 0, 0, 0)));
    s.record(ProbeOutcome::Error(ip(10, 0, 0, 2)));
    assert_eq!(s.step(), Action::Submit(ip(10, 0, 0, 3)));
    assert_eq!(s.step(), Action::Await);
    s.record(ProbeOutcome::Reachable(ip(10, 0, 0, 3)));
    assert_eq!(s.step(), Action::Finished);
    assert_eq!(s.reachable(), &vec![ip(10, 0, 0, 1), ip(10, 0, 0, 3)]);
}

#[test]
fn scan_result_exact_with_small_pool() {
    let range = AddressRange::new(ip(10, 9, 8, 0), 26).unwrap();
    for pool in [1usize, 3, 7, 64, 1000] {
        let target = ScanTarget::new(ip(10, 9, 8, 0), range, pool, 100).unwrap();
        let (found, submitted) = run(target, &|h| h % 3 == 0);
        assert_eq!(sorted(submitted), (0..64).map(|i| ip(10, 9, 8, 0) + i).collect::<Vec<u32>>());
        let expected: Vec<u32> = (0..64).map(|i| ip(10, 9, 8, 0) + i).filter(|h| h % 3 == 0).collect();
        assert_eq!(sorted(found), expected);
    }
}

#[test]
fn scan_thirty_block_end_to_end() {
    let t = TargetAddress::V4(ip(10, 0, 0, 5));
    let target = plan_scan(t, Some(30), None, &Vec::new(), 1, 1000).unwrap();
    let (found, submitted) = run(target, &|h| h == ip(10, 0, 0, 5) || h == ip(10, 0, 0, 6));
    assert_eq!(submitted, vec![ip(10, 0, 0, 4), ip(10, 0, 0, 5), ip(10, 0, 0, 6), ip(10, 0, 0, 7)]);
    assert_eq!(sorted(found), vec![ip(10, 0, 0, 5), ip(10, 0, 0, 6)]);
    let target = plan_scan(t, Some(30), None, &Vec::new(), 4, 1000).unwrap();
    let (found, _) = run(target, &|h| h == ip(10, 0, 0, 5) || h == ip(10, 0, 0, 6));
    assert_eq!(found, vec![ip(10, 0, 0, 6), ip(10, 0, 0, 5)]);
}

#[test]
fn scan_assigned_address_covers_interface_block() {
    let table = vec![InterfaceAddress { addr: ip(192, 168, 7, 20), prefix: 24 }];
    let t = TargetAddress::V4(ip(192, 168, 7, 20));
    let target = plan_scan(t, Some(30), None, &table, 16, 1000).unwrap();
    assert_eq!(target.range.prefix(), 24);
    let (found, submitted) = run(target, &|h| h == ip(192, 168, 7, 1));
    assert_eq!(submitted.len(), 256);
    assert_eq!(submitted[0], ip(192, 168, 7, 0));
    assert_eq!(submitted[255], ip(192, 168, 7, 255));
    assert_eq!(found, vec![ip(192, 168, 7, 1)]);
}

#[test]
fn scan_mask_covers_slash_24() {
    let t = TargetAddress::V4(ip(192, 168, 1, 1));
    let target = plan_scan(t, None, Some(ip(255, 255, 255, 0)), &Vec::new(), 8, 1000).unwrap();
    assert_eq!(target.range.network(), ip(192, 168, 1, 0));
    assert_eq!(target.range.prefix(), 24);
    let (found, submitted) = run(target, &|_| false);
    assert_eq!(sorted(submitted), (0..256).map(|i| ip(192, 168, 1, 0) + i).collect::<Vec<u32>>());
    assert!(found.is_empty());
}
