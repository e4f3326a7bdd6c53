use vringbuf::RingBuffer;

#[test]
fn main() {
    let data = [0xefu8; 400];

    let mut rbuf = RingBuffer::<u8>::with_capacity(1);

    for _ in 0..1000 {
        rbuf.extend_from_slice(&data);
        rbuf.remove_tail(data.len());
    }
}
