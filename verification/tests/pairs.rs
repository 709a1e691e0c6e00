use grix::index::extract::{extract_pairs, PairAcc, WorkMsg, FLUSH_PAIRS};
use grix::index::pairs::{pack_pair, pair_id, pair_key, run_bytes, Run};
use grix::trigram::{extract_sorted, pack_str};
use grix::triset::TriSet;

#[test]
fn pairs_hold_both() {
    let p = pack_pair(0x616263, 7);
    assert_eq!(p, 0x0061_6263_0000_0007);
    assert_eq!((pair_key(p), pair_id(p)), (0x616263, 7));
    let p = pack_pair(u32::MAX, u32::MAX);
    assert_eq!((pair_key(p), pair_id(p)), (u32::MAX, u32::MAX));
}

#[test]
fn runs_read_back() {
    let pairs = vec![pack_pair(1, 2), pack_pair(1, 5), pack_pair(3, 0)];
    let bytes = run_bytes(&pairs);
    assert_eq!(bytes.len(), 24);
    for mut run in [Run::raw(&bytes).unwrap(), Run::memory(pairs.clone()).unwrap()] {
        assert_eq!(run.peek(), Some(pairs[0]));
        assert_eq!(run.take_key(1), vec![2, 5]);
        assert_eq!(run.peek(), Some(pairs[2]));
        assert_eq!(run.take_key(3), vec![0]);
        assert_eq!(run.peek(), None);
    }
}

#[test]
fn runs_out_of_order_are_refused() {
    assert!(Run::memory(vec![5, 4]).is_none());
    assert!(Run::raw(&run_bytes(&vec![5, 4])).is_none());
}

#[test]
fn pairs_of_a_file_are_its_trigrams() {
    let mut tri = TriSet::new();
    for data in [&b"abcabcab"[..], b"ab", b"", b"xyzzy"] {
        let mut out = Vec::new();
        extract_pairs(data, 9, &mut tri, &mut out);
        assert!(out.iter().all(|p| pair_id(*p) == 9));
        let mut keys: Vec<u32> = out.iter().map(|p| pair_key(*p)).collect();
        // In the order of their first appearance.
        if data == b"abcabcab" {
            assert_eq!(keys, vec![pack_str(b"abc"), pack_str(b"bca"), pack_str(b"cab")]);
        }
        keys.sort();
        assert_eq!(keys, extract_sorted(data));
    }
}

#[test]
fn binary_and_unreadable_files_are_noted() {
    let mut tri = TriSet::new();
    let mut msg = WorkMsg::new();
    assert!(msg.is_empty() && !msg.is_full());
    msg.add_file(1, Some(b"abcd"), &mut tri);
    msg.add_file(2, Some(b"a\0b"), &mut tri);
    msg.add_file(3, None, &mut tri);
    assert_eq!(msg.binaries, vec![2, 3]);
    assert_eq!(msg.bytes, 4);
    assert_eq!(msg.pairs.len(), 2);
    assert!(!msg.is_empty());
    msg.pairs = vec![0; FLUSH_PAIRS];
    assert!(msg.is_full());
}

#[test]
fn runs_are_spilled_over_budget() {
    let mut acc = PairAcc::new(16);
    assert_eq!(acc.extend(vec![9]), None);
    assert_eq!(acc.extend(vec![3, 5]), Some(vec![3, 5, 9]));
    assert_eq!(acc.extend(vec![8]), None);
    assert_eq!(acc.finish(), vec![8]);
    // Even without a budget something is held.
    assert_eq!(PairAcc::new(0).extend(vec![1]), Some(vec![1]));
}

#[test]
fn sets_of_trigrams() {
    let mut s = TriSet::new();
    assert!(s.insert(5));
    assert!(!s.insert(5));
    assert!(s.insert(0xff_ffff));
    s.clear();
    assert!(s.insert(5));
}
