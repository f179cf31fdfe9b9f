use ringscan::engine::ScanEngine;
use ringscan::ip_source::{build_host_ranges, host_count, Cidr};
use ringscan::ring::RingAllocator;
use ringscan::scan::tcp_connect::ScanTcpConnect;
use ringscan::scan::{Scan, Timeouts};

fn ip(a: u8, b: u8, c: u8, d: u8) -> u32 {
    u32::from_be_bytes([a, b, c, d])
}

fn timeouts() -> Timeouts {
    Timeouts { connect: 1, read: 1, write: 1 }
}

/// Drives a full scan against simulated completions: every connect times
/// out (no listeners), every chain drains through its close.
#[test]
fn drain_without_listeners_makes_progress() {
    let mut scan = ScanTcpConnect::new();
    let ring_size = 1usize;
    let ops_per_ip = scan.ops_per_ip();
    let pool = RingAllocator::new(ring_size * ops_per_ip, 16, scan.max_tx_size());
    let ranges = build_host_ranges(&vec![Cidr { addr: ip(10, 0, 0, 0), prefix: 30 }]);
    let total = host_count(&ranges);
    assert_eq!(total, 2);

    let mut engine = ScanEngine::new(scan, pool, ranges, 1, timeouts());
    let sq_free = 64usize;
    let mut progress = 0u64;
    let mut rounds = 0;
    while !engine.finished() {
        rounds += 1;
        assert!(rounds < 100);
        let mut pending = Vec::new();
        while engine.can_start(sq_free) {
            let ops = engine.start_chain(-1, sq_free, 0);
            assert_eq!(ops.len(), ops_per_ip);
            pending.extend(ops);
            // the pool of one chain is exhausted now
            assert!(!engine.can_start(sq_free));
        }
        // drain phase: the kernel would deliver one completion per op; a
        // timed-out connect comes back as a cancelled chain
        for op in pending {
            assert!(engine.get_entry(op.user_data).is_some());
            let out = engine.handle_completion(op.user_data, -110, &[], 1);
            if out.done {
                progress += 1;
            }
            assert!(out.hit.is_none());
        }
    }
    assert_eq!(progress, total);
    assert_eq!(engine.allocated_entry_count(), 0);
}

#[test]
fn successful_connect_is_reported_with_delay() {
    let mut scan = ScanTcpConnect::new();
    let ops_per_ip = scan.ops_per_ip();
    let pool = RingAllocator::new(ops_per_ip, 16, scan.max_tx_size());
    let ranges = build_host_ranges(&vec![Cidr { addr: ip(127, 0, 0, 1), prefix: 31 }]);
    let mut engine = ScanEngine::new(scan, pool, ranges, 22, timeouts());

    assert!(engine.can_start(64));
    let ops = engine.start_chain(5, 64, 1000);
    let mut hits = 0;
    let mut progress = 0;
    for op in &ops {
        let result = if op.user_data == ops[0].user_data { 0 } else { -125 };
        let out = engine.handle_completion(op.user_data, result, &[], 1040);
        if let Some(hit) = out.hit {
            hits += 1;
            assert_eq!(hit.addr.port, 22);
            match hit.detail {
                ringscan::scan::HitDetail::ConnectOk { elapsed_ms } => {
                    assert_eq!(elapsed_ms, 40)
                }
                _ => panic!("wrong detail"),
            }
        }
        if out.done {
            progress += 1;
        }
    }
    assert_eq!(hits, 1);
    assert_eq!(progress, 1);
}

#[test]
fn single_excluded_host_finishes_immediately() {
    // a /32 block enumerates no hosts: the scan is over before it starts
    let scan = ScanTcpConnect::new();
    let pool = RingAllocator::new(3, 16, None);
    let ranges = build_host_ranges(&vec![Cidr { addr: ip(127, 0, 0, 1), prefix: 32 }]);
    assert_eq!(host_count(&ranges), 0);
    let engine = ScanEngine::new(scan, pool, ranges, 22, timeouts());
    assert!(engine.finished());
    assert!(!engine.can_start(64));
}

#[test]
fn wait_target_caps_at_outstanding() {
    let mut scan = ScanTcpConnect::new();
    let ops_per_ip = scan.ops_per_ip();
    let pool = RingAllocator::new(2 * ops_per_ip, 16, scan.max_tx_size());
    let ranges = build_host_ranges(&vec![Cidr { addr: ip(10, 0, 0, 0), prefix: 29 }]);
    let mut engine = ScanEngine::new(scan, pool, ranges, 1, timeouts());

    let ops = engine.start_chain(-1, 64, 0);
    assert_eq!(engine.wait_target(16, 0), ops_per_ip);
    assert_eq!(engine.wait_target(2, 0), 2);
    assert_eq!(engine.wait_target(16, 1), ops_per_ip - 1);

    for op in &ops {
        engine.handle_completion(op.user_data, -110, &[], 0);
    }
    assert_eq!(engine.wait_target(16, 0), 0);
}

#[test]
fn identical_blocks_issue_chains_once() {
    let mut scan = ScanTcpConnect::new();
    let ops_per_ip = scan.ops_per_ip();
    let pool = RingAllocator::new(4 * ops_per_ip, 16, scan.max_tx_size());
    let block = Cidr { addr: ip(10, 0, 0, 0), prefix: 30 };
    let ranges = build_host_ranges(&vec![block, block]);
    let mut engine = ScanEngine::new(scan, pool, ranges, 1, timeouts());

    let mut chains = 0;
    while engine.can_start(64) {
        let ops = engine.start_chain(-1, 64, 0);
        chains += 1;
        for op in ops {
            engine.handle_completion(op.user_data, -110, &[], 0);
        }
    }
    assert_eq!(chains, 2);
    assert!(engine.finished());
}
