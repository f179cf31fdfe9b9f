use ringscan::lines::leading_line_trimmed;
use ringscan::ring::{RingAllocator, TargetAddr};
use ringscan::scan::http_header_match::{http_request, ScanHttpHeaderMatch};
use ringscan::scan::ssh_version::ScanSshVersion;
use ringscan::scan::tcp_connect::ScanTcpConnect;
use ringscan::scan::{can_push, HitDetail, OpKind, Scan, Timeouts, OP_CONNECT};

fn timeouts() -> Timeouts {
    Timeouts { connect: 3, read: 3, write: 3 }
}

fn addr() -> TargetAddr {
    TargetAddr { ip: u32::from_be_bytes([127, 0, 0, 1]), port: 22 }
}

#[test]
fn tcp_chain_shape() {
    let mut scan = ScanTcpConnect::new();
    assert_eq!(scan.ops_per_ip(), 3);
    assert!(scan.max_tx_size().is_none());
    let mut pool = RingAllocator::new(3, 16, None);
    let ops = scan.push_scan_ops(7, &addr(), &mut pool, &timeouts(), 0);
    assert_eq!(ops.len(), 3);
    assert!(ops[0].linked);
    assert!(ops[1].linked);
    assert!(!ops[2].linked);
    assert!(matches!(ops[0].kind, OpKind::Connect { .. }));
    assert!(matches!(ops[1].kind, OpKind::LinkTimeout { .. }));
    assert!(matches!(ops[2].kind, OpKind::Close));
    assert!(ops.iter().all(|op| op.fd == 7));
    assert_ne!(ops[0].user_data, ops[1].user_data);
    assert_ne!(ops[1].user_data, ops[2].user_data);
    assert_eq!(pool.allocated_entry_count(), 3);
    for (i, op) in ops.iter().enumerate() {
        let e = pool.get_entry(op.user_data).unwrap();
        assert_eq!(e.ip, addr());
        assert!(e.buf.is_none());
        // the slot stores the operation's position in the chain
        assert_eq!(e.step as usize, i);
    }
}

#[test]
fn tcp_connect_hit_reported_once() {
    let mut scan = ScanTcpConnect::new();
    let mut pool = RingAllocator::new(6, 16, None);
    let ops = scan.push_scan_ops(7, &addr(), &mut pool, &timeouts(), 100);
    let connect = *pool.get_entry(ops[0].user_data).unwrap();

    let out = scan.process_completed_entry(0, &connect, &[], 125);
    assert!(!out.done);
    match out.hit {
        Some(hit) => {
            assert_eq!(hit.addr, addr());
            assert!(matches!(hit.detail, HitDetail::ConnectOk { elapsed_ms: 25 }));
        }
        None => panic!("expected a hit"),
    }

    // a second successful connect to the same target is suppressed
    let again = scan.process_completed_entry(0, &connect, &[], 150);
    assert!(again.hit.is_none());
}

#[test]
fn tcp_refused_connect_is_no_hit() {
    let mut scan = ScanTcpConnect::new();
    let mut pool = RingAllocator::new(3, 16, None);
    let ops = scan.push_scan_ops(7, &addr(), &mut pool, &timeouts(), 0);
    let connect = *pool.get_entry(ops[0].user_data).unwrap();
    // ECONNREFUSED arrives as a negative errno
    let out = scan.process_completed_entry(-111, &connect, &[], 5);
    assert!(!out.done);
    assert!(out.hit.is_none());

    let close = *pool.get_entry(ops[2].user_data).unwrap();
    let out = scan.process_completed_entry(0, &close, &[], 6);
    assert!(out.done);
    assert!(out.hit.is_none());
}

#[test]
fn ssh_banner_extracted() {
    let mut scan = ScanSshVersion::new();
    assert_eq!(scan.ops_per_ip(), 5);
    assert!(scan.max_tx_size().is_none());
    let mut pool = RingAllocator::new(5, 64, None);
    let ops = scan.push_scan_ops(9, &addr(), &mut pool, &timeouts(), 0);
    assert_eq!(ops.len(), 5);
    assert!(matches!(ops[2].kind, OpKind::Recv { .. }));
    assert!(!ops[4].linked);

    let recv = *pool.get_entry(ops[2].user_data).unwrap();
    assert!(recv.buf.is_some());
    let data = b"SSH-2.0-TestServer\r\nmore";
    let out = scan.process_completed_entry(data.len() as i32, &recv, data, 10);
    assert!(!out.done);
    match out.hit {
        Some(hit) => match hit.detail {
            HitDetail::SshBanner { line } => assert_eq!(line, b"SSH-2.0-TestServer".to_vec()),
            _ => panic!("wrong detail"),
        },
        None => panic!("expected a banner hit"),
    }

    let close = *pool.get_entry(ops[4].user_data).unwrap();
    let out = scan.process_completed_entry(0, &close, &[], 11);
    assert!(out.done);
}

#[test]
fn non_ssh_greeting_is_discarded() {
    let mut scan = ScanSshVersion::new();
    let mut pool = RingAllocator::new(5, 64, None);
    let ops = scan.push_scan_ops(9, &addr(), &mut pool, &timeouts(), 0);
    let recv = *pool.get_entry(ops[2].user_data).unwrap();
    let data = b"220 smtp ready\r\n";
    let out = scan.process_completed_entry(data.len() as i32, &recv, data, 10);
    assert!(out.hit.is_none());
}

#[test]
fn http_header_match_finds_line() {
    let mut scan = ScanHttpHeaderMatch::new("^Server: .*").unwrap();
    assert_eq!(scan.ops_per_ip(), 7);
    assert_eq!(scan.max_tx_size(), Some(http_request().len()));
    let mut pool = RingAllocator::new(7, 256, scan.max_tx_size());
    let ops = scan.push_scan_ops(4, &addr(), &mut pool, &timeouts(), 0);
    assert_eq!(ops.len(), 7);
    assert!(matches!(ops[2].kind, OpKind::Send { .. }));
    assert!(matches!(ops[4].kind, OpKind::Recv { .. }));
    assert!(!ops[6].linked);

    // the send buffer was primed with the request
    if let OpKind::Send { buf_idx, len } = ops[2].kind {
        assert_eq!(&pool.get_buf(buf_idx)[..len], b"GET / HTTP/1.0\r\n\r\n");
    } else {
        panic!("expected a send operation");
    }

    let recv = *pool.get_entry(ops[4].user_data).unwrap();
    let data = b"HTTP/1.0 200 OK\r\nServer: Mock/1\r\nDate: x\r\n\r\nbody";
    let out = scan.process_completed_entry(data.len() as i32, &recv, data, 10);
    assert!(!out.done);
    match out.hit {
        Some(hit) => match hit.detail {
            HitDetail::HeaderMatch { line } => assert_eq!(line, b"Server: Mock/1".to_vec()),
            _ => panic!("wrong detail"),
        },
        None => panic!("expected a header hit"),
    }
}

#[test]
fn http_body_lines_are_not_scanned() {
    let mut scan = ScanHttpHeaderMatch::new("^Server: .*").unwrap();
    let mut pool = RingAllocator::new(7, 256, scan.max_tx_size());
    let ops = scan.push_scan_ops(4, &addr(), &mut pool, &timeouts(), 0);
    let recv = *pool.get_entry(ops[4].user_data).unwrap();
    // the matching line sits after the blank line, inside the body
    let data = b"HTTP/1.0 200 OK\r\n\r\nServer: Mock/1\r\n";
    let out = scan.process_completed_entry(data.len() as i32, &recv, data, 10);
    assert!(out.hit.is_none());
}

#[test]
fn invalid_pattern_is_rejected() {
    assert!(ScanHttpHeaderMatch::new("(").is_none());
}

#[test]
fn fresh_probe_reports_missing_opcodes() {
    // an unregistered probe supports nothing: startup must refuse to scan
    let probe = io_uring::Probe::new();
    let scan = ScanTcpConnect::new();
    assert!(!scan.check_supported(&probe));
    assert_eq!(scan.missing_op(&probe), Some(OP_CONNECT));

    let scan = ScanSshVersion::new();
    assert!(!scan.check_supported(&probe));
    assert!(scan.missing_op(&probe).is_some());
}

#[test]
fn admission_gate_needs_slots_and_queue_room() {
    let scan = ScanTcpConnect::new();
    let pool = RingAllocator::new(3, 16, None);
    assert!(can_push(64, &scan, &pool));
    assert!(can_push(3, &scan, &pool));
    assert!(!can_push(2, &scan, &pool));

    let small = RingAllocator::new(2, 16, None);
    assert!(!can_push(64, &scan, &small));
}

#[test]
fn leading_line_is_trimmed() {
    assert_eq!(leading_line_trimmed(b"hello world\r\nrest"), b"hello world".to_vec());
    assert_eq!(leading_line_trimmed(b"  padded  \nrest"), b"padded".to_vec());
    assert_eq!(leading_line_trimmed(b"bare"), b"bare".to_vec());
    assert_eq!(leading_line_trimmed(b"\r\n"), Vec::<u8>::new());
    assert_eq!(leading_line_trimmed(b""), Vec::<u8>::new());
}
