use grix::trigram::{extract_sorted, looks_binary, of_str, pack, pack_str, unpack_display};

#[test]
fn extract_basic() {
    let tris = extract_sorted(b"abcab");
    // windows: abc, bca, cab -> sorted: abc, bca, cab
    assert_eq!(
        tris,
        vec![pack_str(b"abc"), pack_str(b"bca"), pack_str(b"cab")]
    );
}

#[test]
fn extract_dedups() {
    let tris = extract_sorted(b"aaaaaa");
    assert_eq!(tris, vec![pack_str(b"aaa")]);
}

#[test]
fn short_input() {
    assert!(extract_sorted(b"").is_empty());
    assert!(extract_sorted(b"ab").is_empty());
}

#[test]
fn binary_detect() {
    assert!(looks_binary(b"ab\0cd"));
    assert!(!looks_binary(b"plain text"));
}

#[test]
fn display() {
    assert_eq!(unpack_display(pack_str(b"abc")), "abc");
    assert_eq!(unpack_display(pack(0, b'a', 0xff)), "\\x00a\\xff");
}

#[test]
fn packing_is_big_endian() {
    assert_eq!(pack(1, 2, 3), 0x010203);
    assert_eq!(pack_str(b"abc"), 0x616263);
    assert!(pack_str(b"abd") > pack_str(b"abc"));
}

#[test]
fn binary_looks_at_the_start_only() {
    let mut late = vec![b'x'; 8192];
    late.push(0);
    assert!(!looks_binary(&late));
    let mut early = vec![b'x'; 8191];
    early.push(0);
    assert!(looks_binary(&early));
}

#[test]
fn trigrams_of_a_string() {
    assert_eq!(of_str(b"abcd"), vec![pack_str(b"abc"), pack_str(b"bcd")]);
    assert!(of_str(b"ab").is_empty());
}
