use ringscan::ring::{BufferDirection, BufferInfo, EntryInfo, RingAllocator, TargetAddr};

fn test_default(
    ring_size: Option<usize>,
    rx_buf_size: Option<usize>,
    tx_buf_size: Option<usize>,
) -> RingAllocator {
    RingAllocator::new(
        ring_size.unwrap_or(10),
        rx_buf_size.unwrap_or(1024),
        Some(tx_buf_size.unwrap_or(1024)),
    )
}

fn sample_entry() -> EntryInfo {
    EntryInfo {
        ip: TargetAddr { ip: u32::from_be_bytes([127, 0, 0, 1]), port: 0 },
        step: 0,
        buf: None,
        fd: -1,
        start: 0,
    }
}

#[test]
fn test_ring_allocator_new() {
    let ring_size = 8;
    let rx_buf_size = 512;
    let tx_buf_size = 512;
    let allocator = test_default(Some(ring_size), Some(rx_buf_size), Some(tx_buf_size));

    assert_eq!(allocator.buffer_count(), ring_size * 2);
    assert_eq!(allocator.get_buf(0).len(), rx_buf_size);
    assert_eq!(allocator.get_buf(ring_size * 2 - 1).len(), tx_buf_size);
    assert_eq!(allocator.capacity(), ring_size);
    assert!(allocator.has_free_entry_count(ring_size));
    assert!(!allocator.has_free_entry_count(ring_size + 1));
    assert_eq!(allocator.allocated_entry_count(), 0);
}

#[test]
fn test_ring_allocator_get_entry() {
    let mut allocator = test_default(None, None, None);

    let entry_info = sample_entry();
    let entry_idx = allocator.alloc_entry(entry_info).unwrap();

    let retrieved_entry_info = allocator.get_entry(entry_idx).unwrap();
    assert_eq!(retrieved_entry_info.ip, entry_info.ip);
    assert_eq!(retrieved_entry_info.step, entry_info.step);
    assert_eq!(retrieved_entry_info.buf.is_none(), entry_info.buf.is_none());
    assert_eq!(retrieved_entry_info.fd, entry_info.fd);
}

#[test]
fn test_ring_allocator_has_free_entry_count() {
    let ring_size = 8;
    let allocator = test_default(Some(ring_size), None, None);

    assert!(allocator.has_free_entry_count(ring_size));
    assert!(!allocator.has_free_entry_count(ring_size + 1));
}

#[test]
fn test_ring_allocator_allocated_entry_count() {
    let mut allocator = test_default(None, None, None);

    let entry_info = sample_entry();

    allocator.alloc_entry(entry_info).unwrap();
    assert_eq!(allocator.allocated_entry_count(), 1);

    allocator.alloc_entry(entry_info).unwrap();
    assert_eq!(allocator.allocated_entry_count(), 2);
}

#[test]
fn test_ring_allocator_free_entry() {
    let ring_size = 8;
    let mut allocator = test_default(Some(ring_size), None, None);

    let entry_info = sample_entry();
    let entry_idx = allocator.alloc_entry(entry_info).unwrap();

    allocator.free_entry(entry_idx);
    assert_eq!(allocator.get_entry(entry_idx).is_none(), true);
    assert!(allocator.has_free_entry_count(ring_size));
}

#[test]
fn test_ring_allocator_alloc_entry() {
    let ring_size = 8;
    let mut allocator = test_default(Some(ring_size), None, None);

    let entry_info = sample_entry();

    for i in 0..ring_size {
        // the free list is popped from its tail, so indices come out in
        // descending order
        let entry_idx = allocator.alloc_entry(entry_info).unwrap();
        assert_eq!(entry_idx as usize, ring_size - i - 1);
    }

    assert_eq!(allocator.has_free_entry_count(ring_size), false);

    let result = allocator.alloc_entry(entry_info);
    assert_eq!(result.is_none(), true);
}

#[test]
fn alloc_then_free_restores_free_list() {
    let ring_size = 4;
    let mut allocator = test_default(Some(ring_size), None, None);
    assert!(allocator.has_free_entry_count(ring_size));

    let idx = allocator.alloc_entry(sample_entry()).unwrap();
    assert!(!allocator.has_free_entry_count(ring_size));
    assert!(allocator.has_free_entry_count(ring_size - 1));

    allocator.free_entry(idx);
    assert!(allocator.has_free_entry_count(ring_size));
    assert_eq!(allocator.allocated_entry_count(), 0);
}

#[test]
fn no_send_size_means_no_send_buffers() {
    let allocator = RingAllocator::new(8, 1024, None);
    assert_eq!(allocator.buffer_count(), 8);

    let with_tx = RingAllocator::new(8, 1024, Some(64));
    assert_eq!(with_tx.buffer_count(), 16);
}

#[test]
fn allocated_count_plus_free_equals_capacity() {
    let ring_size = 6;
    let mut allocator = test_default(Some(ring_size), None, None);
    let mut held = Vec::new();
    for step in 0..3u8 {
        let mut e = sample_entry();
        e.step = step;
        held.push(allocator.alloc_entry(e).unwrap());
        // free slots + allocated slots always cover the capacity
        let allocated = allocator.allocated_entry_count();
        assert!(allocator.has_free_entry_count(ring_size - allocated));
        assert!(!allocator.has_free_entry_count(ring_size - allocated + 1));
    }
    for idx in held {
        allocator.free_entry(idx);
        let allocated = allocator.allocated_entry_count();
        assert!(allocator.has_free_entry_count(ring_size - allocated));
        assert!(!allocator.has_free_entry_count(ring_size - allocated + 1));
    }
}

#[test]
fn buffer_released_with_its_slot() {
    let ring_size = 4;
    let mut allocator = RingAllocator::new(ring_size, 32, Some(16));

    let buf = allocator.alloc_buf(BufferDirection::RX, None);
    let mut e = sample_entry();
    e.buf = Some(BufferInfo { idx: buf.idx, direction: BufferDirection::RX });
    let idx = allocator.alloc_entry(e).unwrap();

    // freeing the slot returns the buffer: it can be drawn again
    allocator.free_entry(idx);
    let again = allocator.alloc_buf(BufferDirection::RX, None);
    assert_eq!(again.idx, buf.idx);
    assert_eq!(again.len, 32);
    allocator.free_buf(&BufferDirection::RX, again.idx);
}

#[test]
fn send_buffer_primed_with_payload() {
    let mut allocator = RingAllocator::new(2, 8, Some(8));
    let payload = [1u8, 2, 3];
    let buf = allocator.alloc_buf(BufferDirection::TX, Some(&payload));
    assert_eq!(buf.len, 8);
    let bytes = allocator.get_buf(buf.idx);
    assert_eq!(&bytes[..3], &payload);
    assert_eq!(&bytes[3..], &[0u8; 5]);
}
