use vringbuf::mirror::MirrorBuf;
use vringbuf::platform::{granularity, invalid_capacity, round_capacity, round_capacity_checked, GRANULARITY};
use vringbuf::RingBuffer;

#[test]
fn granularity_is_the_model_granule() {
    assert_eq!(granularity(), 4096);
    assert_eq!(GRANULARITY, 4096);
}

#[test]
fn round_capacity_is_a_true_ceiling() {
    // A request of exactly one granule yields exactly one granule.
    assert_eq!(round_capacity(4096, 1), 4096);
    assert_eq!(round_capacity(1, 1), 4096);
    assert_eq!(round_capacity(4097, 1), 8192);
    assert_eq!(round_capacity(100, 3), 4096);
    assert_eq!(round_capacity(1365, 3), 4096);
    assert_eq!(round_capacity(1366, 3), 8192);
    assert_eq!(round_capacity(2, 4096), 8192);
}

#[test]
fn round_capacity_checked_rejects_invalid_requests() {
    assert_eq!(round_capacity_checked(0, 1), None);
    assert_eq!(round_capacity_checked(1, 0), None);
    assert_eq!(round_capacity_checked(usize::MAX, 2), None);
    assert_eq!(round_capacity_checked(isize::MAX as usize / 2, 1), None);
    assert_eq!(round_capacity_checked(1, 1), Some(4096));
    assert_eq!(round_capacity_checked(4096, 1), Some(4096));
    assert_eq!(round_capacity_checked(4097, 1), Some(8192));
}

#[test]
fn invalid_capacity_bounds() {
    assert!(invalid_capacity(0));
    assert!(!invalid_capacity(4096));
    assert!(!invalid_capacity(1));
    assert!(invalid_capacity(isize::MAX as usize / 2));
    assert!(invalid_capacity(usize::MAX));
}

#[test]
fn mirrored_halves_alias() {
    let mut m: MirrorBuf<u8> = MirrorBuf::allocate(1);
    let slots = m.slots();
    assert_eq!(m.cap_bytes(), 4096);
    assert_eq!(slots, 4096);
    // A write in the lower half is observed in the upper half.
    m.write(0, 0xab);
    assert_eq!(m.read(0), 0xab);
    assert_eq!(m.read(slots), 0xab);
    // A write in the upper half is observed in the lower half.
    m.write(slots + 17, 0xcd);
    assert_eq!(m.read(17), 0xcd);
    assert_eq!(m.read(slots + 17), 0xcd);
}

#[test]
fn fifo_order() {
    let mut rb = RingBuffer::<u8>::new();
    for i in 0..200u16 {
        rb.push((i % 256) as u8);
    }
    for i in 0..200u16 {
        assert_eq!(rb.pop(), Some((i % 256) as u8));
    }
    assert_eq!(rb.pop(), None);
    assert!(rb.is_empty());
}

#[test]
fn growth_preserves_content() {
    // Push far past the initial granule so the mapping is replaced at
    // least once, and check the whole logical sequence afterwards.
    let mut rb = RingBuffer::<u8>::new();
    rb.reserve(1);
    let initial = rb.capacity();
    let total = initial * 3 + 7;
    let mut caps = Vec::new();
    for i in 0..total {
        rb.push((i % 251) as u8);
        caps.push(rb.capacity());
    }
    assert!(rb.capacity() > initial);
    assert_eq!(rb.len(), total);
    for i in 0..total {
        assert_eq!(rb.get(i), (i % 251) as u8);
    }
    // Capacity never decreases across the run.
    for w in caps.windows(2) {
        assert!(w[0] <= w[1]);
    }
}

#[test]
fn window_wraps_through_the_mirror() {
    let mut rb = RingBuffer::<u8>::with_capacity(1);
    let cap = rb.capacity();
    // March the window round the ring several times in odd-sized steps,
    // so it repeatedly straddles the half-capacity boundary.
    let step = cap / 3 + 1;
    let mut next_in: u64 = 0;
    let mut next_out: u64 = 0;
    for _ in 0..10 {
        while rb.len() < step {
            rb.push((next_in % 241) as u8);
            next_in += 1;
        }
        while let Some(v) = rb.pop() {
            assert_eq!(v, (next_out % 241) as u8);
            next_out += 1;
        }
    }
    assert_eq!(next_in, next_out);
}

#[test]
fn enqueue_then_clear_repeatedly() {
    // Interleave enqueues of a long counter sequence with periodic
    // clears: after every clear the buffer reads empty, and the capacity
    // never decreases.
    let mut rb = RingBuffer::<u8>::with_capacity(1);
    let mut cap = rb.capacity();
    let mut counter: u32 = 0;
    for round in 0..8 {
        for _ in 0..(4096 * (round + 1) + 13) {
            rb.push((counter % 256) as u8);
            counter += 1;
        }
        rb.clear();
        assert_eq!(rb.len(), 0);
        assert!(rb.is_empty());
        assert!(rb.capacity() >= cap);
        cap = rb.capacity();
    }
}

#[test]
fn two_thirds_fill_keeps_capacity() {
    let mut rb = RingBuffer::<u8>::new();
    rb.reserve(1);
    let cap = rb.capacity();
    for _ in 0..100 {
        let fill = cap * 2 / 3;
        for _ in 0..fill {
            rb.push(0x5a);
        }
        assert_eq!(rb.len(), fill);
        for i in 0..fill {
            assert_eq!(rb.get(i), 0x5a);
        }
        rb.clear();
        assert_eq!(rb.capacity(), cap);
    }
}

#[test]
fn bulk_append_round_trip() {
    // Appending a slice and bulk-removing as many elements restores the
    // length; from an empty buffer it restores the content too.
    let mut rb = RingBuffer::<u8>::new();
    rb.extend_from_slice(&[9, 9, 9]);
    rb.remove_tail(3);
    assert_eq!(rb.len(), 0);

    rb.extend_from_slice(&[1, 2]);
    rb.extend_from_slice(&[3, 4, 5]);
    rb.remove_tail(3);
    assert_eq!(rb.len(), 2);
    assert_eq!(rb.get(0), 4);
    assert_eq!(rb.get(1), 5);
}

#[test]
fn remove_tail_clamps() {
    let mut rb = RingBuffer::<u8>::new();
    rb.extend_from_slice(&[1, 2, 3]);
    rb.remove_tail(100);
    assert_eq!(rb.len(), 0);
    assert_eq!(rb.pop(), None);
}

#[test]
fn truncate_keeps_prefix() {
    let mut rb = RingBuffer::<u8>::new();
    rb.extend_from_slice(&[10, 11, 12, 13]);
    rb.truncate(9);
    assert_eq!(rb.len(), 4);
    rb.truncate(2);
    assert_eq!(rb.len(), 2);
    assert_eq!(rb.get(0), 10);
    assert_eq!(rb.get(1), 11);
    rb.truncate(0);
    assert!(rb.is_empty());
}

#[test]
fn resize_fills_and_shrinks() {
    let mut rb = RingBuffer::<u8>::new();
    rb.resize(3, 7);
    assert_eq!(rb.len(), 3);
    for i in 0..3 {
        assert_eq!(rb.get(i), 7);
    }
    rb.resize(5, 8);
    assert_eq!(rb.len(), 5);
    assert_eq!(rb.get(2), 7);
    assert_eq!(rb.get(3), 8);
    assert_eq!(rb.get(4), 8);
    rb.resize(1, 9);
    assert_eq!(rb.len(), 1);
    assert_eq!(rb.get(0), 7);
}

#[test]
fn resize_with_invokes_generator() {
    let mut rb = RingBuffer::<u8>::new();
    rb.resize_with(4, || 42);
    assert_eq!(rb.len(), 4);
    for i in 0..4 {
        assert_eq!(rb.get(i), 42);
    }
    rb.resize_with(2, || 0);
    assert_eq!(rb.len(), 2);
    assert_eq!(rb.get(1), 42);
}

#[test]
fn reserved_region_fill() {
    let mut rb = RingBuffer::<u8>::new();
    rb.push(1);
    rb.reserve(3);
    assert!(rb.reserved_len() >= 3);
    // Fill part of the spare region by hand, then mark it live.
    rb.write_reserved(0, 2);
    rb.write_reserved(1, 3);
    rb.add_len(2);
    assert_eq!(rb.len(), 3);
    assert_eq!(rb.get(0), 1);
    assert_eq!(rb.get(1), 2);
    assert_eq!(rb.get(2), 3);
    rb.set_len(2);
    assert_eq!(rb.len(), 2);
    assert_eq!(rb.get(1), 2);
}

#[test]
fn to_vec_reads_the_window() {
    let mut rb = RingBuffer::<u8>::new();
    assert_eq!(rb.to_vec(), Vec::<u8>::new());
    rb.extend_from_slice(&[4, 5, 6]);
    rb.pop();
    assert_eq!(rb.to_vec(), vec![5, 6]);
}

#[test]
fn from_vec_takes_all_elements() {
    let rb = RingBuffer::<u8>::from_vec(&vec![3, 1, 4, 1, 5]);
    assert_eq!(rb.len(), 5);
    assert_eq!(rb.to_vec(), vec![3, 1, 4, 1, 5]);
    let empty = RingBuffer::<u8>::from_vec(&Vec::new());
    assert!(empty.is_empty());
}

#[test]
fn clone_is_independent() {
    let mut rb = RingBuffer::<u8>::new();
    rb.extend_from_slice(&[5, 6, 7]);
    let mut other = rb.clone();
    assert_eq!(other.len(), 3);
    for i in 0..3 {
        assert_eq!(other.get(i), rb.get(i));
    }
    other.push(8);
    other.pop();
    assert_eq!(rb.len(), 3);
    assert_eq!(rb.get(0), 5);
}

#[test]
fn with_capacity_rounds_up() {
    let rb = RingBuffer::<u8>::with_capacity(1);
    assert_eq!(rb.capacity(), 4096);
    assert_eq!(rb.len(), 0);
    let rb2 = RingBuffer::<u8>::with_capacity(0);
    assert_eq!(rb2.capacity(), 0);
    let rb3 = RingBuffer::<u64>::with_capacity(1);
    assert_eq!(rb3.capacity(), 512);
}
