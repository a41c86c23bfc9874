use sealable_trie::bits::Bits;
use sealable_trie::hash::{
    branch_digest, data_digest, empty_digest, leaf_digest, sealed_digest, value_digest, Digest,
    Hasher, Sha256,
};

fn hex(d: &Digest) -> String {
    d.bytes.iter().map(|b| format!("{:02x}", b)).collect()
}

#[test]
fn sha256_matches_known_vectors() {
    assert_eq!(
        hex(&Sha256::hash(b"")),
        "e3b0c44298fc1c149afbf4c8996fb92427ae41e4649b934ca495991b7852b855"
    );
    assert_eq!(
        hex(&Sha256::hash(b"abc")),
        "ba7816bf8f01cfea414140de5dae2223b00361a396177a9cb410ff61f20015ad"
    );
}

#[test]
fn digests_hash_the_tagged_parts() {
    let l = Sha256::hash(b"left");
    let r = Sha256::hash(b"right");
    let mut pre = vec![1u8];
    pre.extend_from_slice(&l.bytes);
    pre.extend_from_slice(&r.bytes);
    assert_eq!(branch_digest::<Sha256>(&l, &r), Sha256::hash(&pre));

    let mut pre = vec![0u8];
    pre.extend_from_slice(b"value");
    assert_eq!(data_digest::<Sha256>(b"value"), Sha256::hash(&pre));

    let suffix = Bits::from_bytes(&[0b1010_0000]).unwrap().slice(0, 3);
    let mut pre = vec![2u8];
    pre.extend_from_slice(&l.bytes);
    pre.extend_from_slice(&[3, 0b1010_0000]);
    assert_eq!(leaf_digest::<Sha256>(&suffix, &l), Sha256::hash(&pre));

    let mut pre = vec![3u8];
    pre.extend_from_slice(&l.bytes);
    assert_eq!(value_digest::<Sha256>(&l, None), Sha256::hash(&pre));
    pre.extend_from_slice(&r.bytes);
    assert_eq!(value_digest::<Sha256>(&l, Some(&r)), Sha256::hash(&pre));

    assert_eq!(empty_digest::<Sha256>(), Sha256::hash(&[4u8]));
}

#[test]
fn swapping_children_changes_the_branch_digest() {
    let l = Sha256::hash(b"left");
    let r = Sha256::hash(b"right");
    assert_ne!(branch_digest::<Sha256>(&l, &r), branch_digest::<Sha256>(&r, &l));
}

#[test]
fn sealed_digest_is_the_digest_it_is_given() {
    let d = Sha256::hash(b"subtree");
    assert_eq!(sealed_digest(&d), d);
    assert!(d.same(&sealed_digest(&d)));
    assert!(!d.same(&Sha256::hash(b"other")));
    assert_eq!(Digest::new(d.bytes).as_bytes(), &d.bytes[..]);
}
