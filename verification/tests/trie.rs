use sealable_trie::bits::Bits;
use sealable_trie::hash::{empty_digest, Sha256};
use sealable_trie::nodes::Node;
use sealable_trie::trie::{Error, Trie};

fn key(bytes: &[u8]) -> Bits {
    Bits::from_bytes(bytes).unwrap()
}

#[test]
fn empty_trie_has_the_digest_of_nothing() {
    let trie: Trie<Sha256> = Trie::new();
    assert!(trie.is_empty());
    assert_eq!(trie.root_digest(), empty_digest::<Sha256>());
    assert_eq!(trie.get(&key(b"a")), Ok(None));
}

#[test]
fn set_then_get_returns_the_value() {
    let mut trie: Trie<Sha256> = Trie::new();
    assert_eq!(trie.set(&key(b"a"), &[1]), Ok(None));
    assert_eq!(trie.get(&key(b"a")), Ok(Some(vec![1])));
    assert_eq!(trie.set(&key(b"a"), &[7, 8]), Ok(Some(vec![1])));
    assert_eq!(trie.get(&key(b"a")), Ok(Some(vec![7, 8])));
    assert_eq!(trie.get(&key(b"b")), Ok(None));
    assert_eq!(trie.get(&key(b"")), Ok(None));
}

#[test]
fn delete_then_get_returns_absent() {
    let mut trie: Trie<Sha256> = Trie::new();
    trie.set(&key(b"a"), &[1]).unwrap();
    trie.set(&key(b"b"), &[2]).unwrap();
    assert_eq!(trie.delete(&key(b"a")), Ok(Some(vec![1])));
    assert_eq!(trie.get(&key(b"a")), Ok(None));
    assert_eq!(trie.get(&key(b"b")), Ok(Some(vec![2])));
    assert_eq!(trie.delete(&key(b"a")), Ok(None));
    assert_eq!(trie.delete(&key(b"b")), Ok(Some(vec![2])));
    assert!(trie.is_empty());
}

#[test]
fn reinserting_a_deleted_key_restores_the_digest() {
    let mut trie: Trie<Sha256> = Trie::new();
    trie.set(&key(b"alpha"), b"1").unwrap();
    trie.set(&key(b"al"), b"2").unwrap();
    trie.set(&key(b"beta"), b"3").unwrap();
    let before = trie.root_digest();
    trie.delete(&key(b"al")).unwrap();
    assert_ne!(trie.root_digest(), before);
    trie.set(&key(b"al"), b"2").unwrap();
    assert_eq!(trie.root_digest(), before);
}

#[test]
fn digest_does_not_depend_on_the_order_of_updates() {
    let pairs: [(&[u8], &[u8]); 6] = [
        (b"", b"root"),
        (b"a", b"1"),
        (b"ab", b"2"),
        (b"abc", b"3"),
        (b"b", b"4"),
        (b"\xff\x00", b"5"),
    ];
    let mut forward: Trie<Sha256> = Trie::new();
    for (k, v) in pairs.iter() {
        forward.set(&key(k), v).unwrap();
    }
    let mut backward: Trie<Sha256> = Trie::new();
    backward.set(&key(b"zzz"), b"gone").unwrap();
    for (k, v) in pairs.iter().rev() {
        backward.set(&key(k), b"old").unwrap();
        backward.set(&key(k), v).unwrap();
    }
    backward.delete(&key(b"zzz")).unwrap();
    assert_eq!(forward.root_digest(), backward.root_digest());
    for (k, v) in pairs.iter() {
        assert_eq!(forward.get(&key(k)), Ok(Some(v.to_vec())));
        assert_eq!(backward.get(&key(k)), Ok(Some(v.to_vec())));
    }
}

#[test]
fn sealing_keeps_the_digest_and_hides_the_key() {
    let mut trie: Trie<Sha256> = Trie::new();
    trie.set(&key(b"a"), &[1]).unwrap();
    trie.set(&key(b"b"), &[2]).unwrap();
    let r1 = trie.root_digest();
    assert_eq!(trie.seal(&key(b"a")), Ok(()));
    assert_eq!(trie.root_digest(), r1);
    assert_eq!(trie.get(&key(b"a")), Err(Error::SealedUnreadable));
    assert_eq!(trie.get(&key(b"b")), Ok(Some(vec![2])));
}

#[test]
fn sealing_twice_or_nowhere_fails() {
    let mut trie: Trie<Sha256> = Trie::new();
    assert_eq!(trie.seal(&key(b"a")), Err(Error::NotFound));
    trie.set(&key(b"a"), &[1]).unwrap();
    trie.set(&key(b"b"), &[2]).unwrap();
    assert_eq!(trie.seal(&key(b"c")), Err(Error::NotFound));
    assert_eq!(trie.seal(&key(b"a")), Ok(()));
    assert_eq!(trie.seal(&key(b"a")), Err(Error::AlreadySealed));
    assert_eq!(trie.seal(&key(b"ab")), Err(Error::AlreadySealed));
}

#[test]
fn updates_below_a_seal_fail_and_change_nothing() {
    let mut trie: Trie<Sha256> = Trie::new();
    trie.set(&key(b"a"), &[1]).unwrap();
    trie.set(&key(b"b"), &[2]).unwrap();
    trie.seal(&key(b"a")).unwrap();
    let digest = trie.root_digest();
    assert_eq!(trie.set(&key(b"a"), &[3]), Err(Error::SealedUnreadable));
    assert_eq!(trie.set(&key(b"ax"), &[3]), Err(Error::SealedUnreadable));
    assert_eq!(trie.delete(&key(b"a")), Err(Error::SealedUnreadable));
    assert_eq!(trie.root_digest(), digest);
    assert_eq!(trie.get(&key(b"b")), Ok(Some(vec![2])));
    assert_eq!(trie.set(&key(b"c"), &[3]), Ok(None));
    assert_eq!(trie.delete(&key(b"c")), Ok(Some(vec![3])));
    assert_eq!(trie.root_digest(), digest);
}

#[test]
fn delete_fails_where_a_branch_would_be_left_with_a_sealed_subtree() {
    let mut trie: Trie<Sha256> = Trie::new();
    trie.set(&key(b"a"), &[1]).unwrap();
    trie.set(&key(b"b"), &[2]).unwrap();
    let side = key(b"a").slice(0, 7);
    assert_eq!(trie.seal(&side), Ok(()));
    let digest = trie.root_digest();
    assert_eq!(trie.delete(&key(b"b")), Err(Error::SealedUnreadable));
    assert_eq!(trie.root_digest(), digest);
    assert_eq!(trie.get(&key(b"b")), Ok(Some(vec![2])));
    assert_eq!(trie.get(&key(b"a")), Err(Error::SealedUnreadable));
}

#[test]
fn delete_closes_the_trie_up_over_a_sealed_value() {
    let mut trie: Trie<Sha256> = Trie::new();
    trie.set(&key(b"a"), &[1]).unwrap();
    let alone = trie.root_digest();
    trie.set(&key(b"b"), &[2]).unwrap();
    trie.seal(&key(b"a")).unwrap();
    assert_eq!(trie.delete(&key(b"b")), Ok(Some(vec![2])));
    assert_eq!(trie.root_digest(), alone);
    assert_eq!(trie.get(&key(b"a")), Err(Error::SealedUnreadable));
}

#[test]
fn too_long_keys_and_values_are_refused() {
    assert_eq!(Bits::from_bytes(&[0u8; 8192]).err(), Some(Error::KeyTooLong));
    assert!(Bits::from_bytes(&[0u8; 8191]).is_ok());
    let mut trie: Trie<Sha256> = Trie::with_limits(8, 2);
    assert_eq!(trie.set(&key(b"ab"), &[1]), Err(Error::KeyTooLong));
    assert_eq!(trie.set(&key(b"a"), &[1, 2, 3]), Err(Error::ValueTooLong));
    assert_eq!(trie.set(&key(b"ab"), &[1, 2, 3]), Err(Error::KeyTooLong));
    assert!(trie.is_empty());
    assert_eq!(trie.set(&key(b"a"), &[1, 2]), Ok(None));
}

#[test]
fn snapshot_keeps_what_the_trie_held() {
    let mut trie: Trie<Sha256> = Trie::new();
    trie.set(&key(b"a"), &[1]).unwrap();
    trie.set(&key(b"b"), &[2]).unwrap();
    let before = trie.snapshot();
    let digest = trie.root_digest();
    trie.set(&key(b"a"), &[9]).unwrap();
    trie.delete(&key(b"b")).unwrap();
    trie.set(&key(b"c"), &[3]).unwrap();
    assert_eq!(before.root_digest(), digest);
    assert_ne!(trie.root_digest(), digest);
    assert_eq!(before.get(&key(b"a")), Ok(Some(vec![1])));
    assert_eq!(before.get(&key(b"b")), Ok(Some(vec![2])));
    assert_eq!(before.get(&key(b"c")), Ok(None));
    assert_eq!(trie.get(&key(b"a")), Ok(Some(vec![9])));
    assert_eq!(trie.get(&key(b"b")), Ok(None));
}

#[test]
fn root_shows_the_shape_of_the_trie() {
    let mut trie: Trie<Sha256> = Trie::new();
    assert!(trie.root().is_none());
    trie.set(&key(b"a"), &[1]).unwrap();
    match trie.root() {
        Some(Node::Extension { path, child, digest }) => {
            assert_eq!(path.len(), 8);
            assert_eq!(*digest, trie.root_digest());
            assert!(matches!(&**child, Node::Value { next: None, .. }));
        }
        _ => panic!("a single key hangs from one extension"),
    }
    trie.set(&key(b"b"), &[2]).unwrap();
    match trie.root() {
        Some(Node::Extension { path, child, .. }) => {
            assert_eq!(path.len(), 6);
            assert!(matches!(&**child, Node::Branch { .. }));
        }
        _ => panic!("the keys share six bits"),
    }
    trie.set(&key(b""), &[0]).unwrap();
    match trie.root() {
        Some(Node::Value { value, next: Some(below), .. }) => {
            assert_eq!(value, &vec![0]);
            assert!(matches!(&**below, Node::Extension { .. }));
        }
        _ => panic!("the empty key sits at the top"),
    }
    trie.seal(&key(b"")).unwrap();
    assert!(matches!(trie.root(), Some(Node::Sealed { .. })));
    assert_eq!(trie.get(&key(b"b")), Err(Error::SealedUnreadable));
}
