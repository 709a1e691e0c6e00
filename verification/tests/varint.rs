use grix::varint::{read_u64, write_u64};

#[test]
fn roundtrip() {
    let vals = [
        0u64,
        1,
        127,
        128,
        300,
        16383,
        16384,
        u32::MAX as u64,
        u64::MAX,
    ];
    let mut buf = Vec::new();
    for &v in &vals {
        write_u64(&mut buf, v);
    }
    let mut pos = 0;
    for &v in &vals {
        let (got, np) = read_u64(&buf, pos).unwrap();
        assert_eq!(got, v);
        pos = np;
    }
    assert_eq!(pos, buf.len());
}

#[test]
fn truncated() {
    let mut buf = Vec::new();
    write_u64(&mut buf, 300);
    assert!(read_u64(&buf[..1], 0).is_none());
    assert!(read_u64(&[], 0).is_none());
}

#[test]
fn exact_bytes() {
    let mut buf = vec![7u8];
    write_u64(&mut buf, 300);
    assert_eq!(buf, vec![7, 0xac, 0x02]);
    let mut zero = Vec::new();
    write_u64(&mut zero, 0);
    assert_eq!(zero, vec![0]);
}

#[test]
fn overlong_is_refused() {
    // Eleven continuation bytes hold more than 64 bits.
    assert!(read_u64(&[0x80; 11], 0).is_none());
    // A tenth byte may only hold one bit.
    let mut max = Vec::new();
    write_u64(&mut max, u64::MAX);
    assert_eq!(max.len(), 10);
    assert_eq!(read_u64(&max, 0), Some((u64::MAX, 10)));
    // Behind the end there is nothing.
    assert!(read_u64(&max, 10).is_none());
    assert!(read_u64(&max, usize::MAX).is_none());
}
