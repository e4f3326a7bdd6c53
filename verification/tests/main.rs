use vringbuf::RingBuffer;

#[test]
fn test_looptheloop() {
    // Empty ring buffer
    let mut rbuf = RingBuffer::<u8>::new();

    // Reallocate the buffer
    rbuf.reserve(1);

    // Go through the ring buffer a couple of times
    let cap = rbuf.capacity();
    for _ in 0..100 {
        let len = cap * 2 / 3;
        for _ in 0..len {
            rbuf.push(0xfe);
        }
        assert_eq!(rbuf.len(), len);
        for i in 0..rbuf.len() {
            assert_eq!(rbuf.get(i), 0xfe);
        }
        rbuf.clear();
    }
}
