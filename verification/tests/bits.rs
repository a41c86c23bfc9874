use sealable_trie::bits::Bits;

fn bools(bits: &Bits) -> Vec<bool> {
    (0..bits.len()).map(|i| bits.get(i)).collect()
}

#[test]
fn bits_come_most_significant_first() {
    let bits = Bits::from_bytes(&[0b1010_0001, 0xff]).unwrap();
    assert_eq!(bits.len(), 16);
    assert_eq!(
        bools(&bits),
        vec![
            true, false, true, false, false, false, false, true, true, true, true, true, true,
            true, true, true
        ]
    );
    assert!(Bits::from_bytes(&[]).unwrap().is_empty());
    assert!(Bits::empty().is_empty());
}

#[test]
fn common_prefix_is_found_at_any_bit() {
    let a = Bits::from_bytes(b"a").unwrap();
    let b = Bits::from_bytes(b"b").unwrap();
    assert_eq!(a.common_prefix_len(0, &b, 0), 6);
    assert_eq!(a.common_prefix_len(0, &a, 0), 8);
    assert_eq!(a.common_prefix_len(3, &b, 3), 3);
    assert_eq!(a.common_prefix_len(8, &b, 0), 0);
    let ab = Bits::from_bytes(b"ab").unwrap();
    assert_eq!(a.common_prefix_len(0, &ab, 0), 8);
    assert_eq!(ab.common_prefix_len(8, &b, 0), 8);
    assert!(ab.starts_with_at(0, &a));
    assert!(ab.starts_with_at(8, &b));
    assert!(!ab.starts_with_at(0, &b));
    assert!(!a.starts_with_at(0, &ab));
}

#[test]
fn split_and_concat_are_inverse() {
    let key = Bits::from_bytes(&[0x5a, 0xc3]).unwrap();
    for at in 0..=16 {
        let (head, tail) = key.split_at(at);
        assert_eq!(head.len(), at);
        assert_eq!(tail.len(), 16 - at);
        assert_eq!(bools(&head.concat(&tail)), bools(&key));
        assert_eq!(bools(&head), bools(&key)[..at].to_vec());
        assert_eq!(bools(&tail), bools(&key)[at..].to_vec());
    }
    assert_eq!(bools(&key.slice(3, 5)), vec![true, true]);
    assert_eq!(bools(&Bits::single(true)), vec![true]);
    assert_eq!(bools(&key.clone()), bools(&key));
}

#[test]
fn path_bytes_hold_the_bits_packed_behind_their_count() {
    let key = Bits::from_bytes(&[0b1100_0101, 0b1111_0000]).unwrap();
    assert_eq!(key.slice(0, 3).to_path_bytes(), vec![3, 0b1100_0000]);
    assert_eq!(key.slice(0, 8).to_path_bytes(), vec![0, 0b1100_0101]);
    assert_eq!(key.slice(5, 12).to_path_bytes(), vec![7, 0b1011_1110]);
    assert_eq!(key.to_path_bytes(), vec![0, 0b1100_0101, 0b1111_0000]);
    assert_eq!(key.slice(0, 9).to_path_bytes(), vec![1, 0b1100_0101, 0b1000_0000]);
    assert_eq!(Bits::empty().to_path_bytes(), vec![0]);
}

#[test]
fn paths_of_different_length_have_different_bytes() {
    let zeros = Bits::from_bytes(&[0, 0]).unwrap();
    let mut seen: Vec<Vec<u8>> = Vec::new();
    for len in 0..=16 {
        let bytes = zeros.slice(0, len).to_path_bytes();
        assert!(!seen.contains(&bytes));
        seen.push(bytes);
    }
}
