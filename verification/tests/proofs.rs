use sealable_trie::bits::Bits;
use sealable_trie::hash::{empty_digest, Digest, Sha256};
use sealable_trie::proofs::{check, verify, verify_sealed, Fork, Proof, Step, Terminal};
use sealable_trie::trie::{Error, Trie};

fn bits(bytes: &[u8]) -> Bits {
    Bits::from_bytes(bytes).unwrap()
}

fn sample() -> Trie<Sha256> {
    let mut trie: Trie<Sha256> = Trie::new();
    trie.set(&bits(b"a"), b"one").unwrap();
    trie.set(&bits(b"ab"), b"two").unwrap();
    trie.set(&bits(b"b"), b"three").unwrap();
    trie.set(&bits(b"bcd"), b"four").unwrap();
    trie
}

#[test]
fn proof_of_a_present_key_verifies_for_its_value_only() {
    let trie = sample();
    let root = trie.root_digest();
    for (k, v) in [(&b"a"[..], &b"one"[..]), (b"ab", b"two"), (b"b", b"three"), (b"bcd", b"four")] {
        let proof = trie.prove(&bits(k));
        assert!(matches!(proof.terminal, Terminal::Leaf { .. }));
        assert!(verify::<Sha256>(&root, &bits(k), &proof, Some(v)));
        assert!(!verify::<Sha256>(&root, &bits(k), &proof, Some(b"other")));
        assert!(!verify::<Sha256>(&root, &bits(k), &proof, None));
        assert!(!verify_sealed::<Sha256>(&root, &bits(k), &proof));
    }
}

#[test]
fn proof_of_an_absent_key_verifies_for_absence_only() {
    let trie = sample();
    let root = trie.root_digest();
    for k in [&b""[..], b"c", b"abc", b"bc", b"bcde", b"\x00", b"`"] {
        let proof = trie.prove(&bits(k));
        assert!(matches!(proof.terminal, Terminal::Divergence { .. }));
        assert!(verify::<Sha256>(&root, &bits(k), &proof, None));
        assert!(!verify::<Sha256>(&root, &bits(k), &proof, Some(b"one")));
        assert!(!verify::<Sha256>(&root, &bits(k), &proof, Some(b"")));
    }
}

#[test]
fn proof_from_the_empty_trie_shows_absence() {
    let trie: Trie<Sha256> = Trie::new();
    let proof = trie.prove(&bits(b"a"));
    assert!(proof.steps.is_empty());
    assert!(matches!(proof.terminal, Terminal::Divergence { fork: Fork::Empty }));
    assert!(verify::<Sha256>(&empty_digest::<Sha256>(), &bits(b"a"), &proof, None));
    assert!(!verify::<Sha256>(&empty_digest::<Sha256>(), &bits(b"a"), &proof, Some(b"x")));
    assert!(!verify::<Sha256>(&sample().root_digest(), &bits(b"a"), &proof, None));
}

#[test]
fn proof_does_not_verify_for_another_key_or_root() {
    let trie = sample();
    let root = trie.root_digest();
    let proof = trie.prove(&bits(b"a"));
    assert!(!verify::<Sha256>(&root, &bits(b"b"), &proof, Some(b"one")));
    assert!(!verify::<Sha256>(&root, &bits(b"ab"), &proof, Some(b"one")));
    let mut other = sample();
    other.set(&bits(b"zz"), b"five").unwrap();
    assert!(!verify::<Sha256>(&other.root_digest(), &bits(b"a"), &proof, Some(b"one")));
}

#[test]
fn flipping_a_bit_of_a_sibling_digest_fails_verification() {
    let trie = sample();
    let root = trie.root_digest();
    let key = bits(b"bcd");
    let proof = trie.prove(&key);
    assert!(verify::<Sha256>(&root, &key, &proof, Some(b"four")));
    let mut seen = 0;
    for at in 0..proof.steps.len() {
        if let Step::Branch { direction, sibling } = &proof.steps[at] {
            for bit in [0usize, 7, 100, 255] {
                let mut bytes = sibling.bytes;
                bytes[bit / 8] ^= 1 << (bit % 8);
                let mut steps: Vec<Step> = Vec::new();
                for (i, s) in proof.steps.iter().enumerate() {
                    steps.push(match s {
                        Step::Branch { direction: d, sibling: x } => {
                            if i == at {
                                Step::Branch { direction: *direction, sibling: Digest { bytes } }
                            } else {
                                Step::Branch { direction: *d, sibling: *x }
                            }
                        }
                        Step::Extension { len } => Step::Extension { len: *len },
                        Step::Value { data } => Step::Value { data: *data },
                    });
                }
                let next = match &proof.terminal {
                    Terminal::Leaf { next } => *next,
                    _ => unreachable!(),
                };
                let tampered = Proof { steps, terminal: Terminal::Leaf { next } };
                assert!(!verify::<Sha256>(&root, &key, &tampered, Some(b"four")));
                seen += 1;
            }
        }
    }
    assert!(seen > 0);
}

#[test]
fn reversing_a_direction_fails_verification() {
    let trie = sample();
    let root = trie.root_digest();
    let key = bits(b"b");
    let proof = trie.prove(&key);
    let mut steps: Vec<Step> = Vec::new();
    let mut flipped = false;
    for s in proof.steps.iter() {
        steps.push(match s {
            Step::Branch { direction, sibling } => {
                flipped = true;
                Step::Branch { direction: !*direction, sibling: *sibling }
            }
            Step::Extension { len } => Step::Extension { len: *len },
            Step::Value { data } => Step::Value { data: *data },
        });
    }
    assert!(flipped);
    let next = match &proof.terminal {
        Terminal::Leaf { next } => *next,
        _ => unreachable!(),
    };
    let reversed = Proof { steps, terminal: Terminal::Leaf { next } };
    assert!(!verify::<Sha256>(&root, &key, &reversed, Some(b"three")));
}

#[test]
fn proof_through_a_seal_is_a_sealed_commitment() {
    let mut trie = sample();
    trie.seal(&bits(b"a")).unwrap();
    let root = trie.root_digest();
    for k in [&b"a"[..], b"ab", b"ax"] {
        let proof = trie.prove(&bits(k));
        assert!(matches!(proof.terminal, Terminal::SealedCommitment { .. }));
        assert!(verify_sealed::<Sha256>(&root, &bits(k), &proof));
        assert!(!verify::<Sha256>(&root, &bits(k), &proof, None));
        assert!(!verify::<Sha256>(&root, &bits(k), &proof, Some(b"one")));
    }
    let proof = trie.prove(&bits(b"b"));
    assert!(verify::<Sha256>(&root, &bits(b"b"), &proof, Some(b"three")));
    let proof = trie.prove(&bits(b"c"));
    assert!(verify::<Sha256>(&root, &bits(b"c"), &proof, None));
}

#[test]
fn proof_taken_before_a_seal_still_verifies_after_it() {
    let mut trie = sample();
    let proof = trie.prove(&bits(b"ab"));
    trie.seal(&bits(b"a")).unwrap();
    assert!(verify::<Sha256>(&trie.root_digest(), &bits(b"ab"), &proof, Some(b"two")));
}

#[test]
fn check_tells_a_failed_verification_as_an_error() {
    let trie = sample();
    let root = trie.root_digest();
    let proof = trie.prove(&bits(b"a"));
    assert_eq!(check::<Sha256>(&root, &bits(b"a"), &proof, Some(b"one")), Ok(()));
    assert_eq!(
        check::<Sha256>(&root, &bits(b"a"), &proof, Some(b"two")),
        Err(Error::ProofVerificationFailed)
    );
    assert_eq!(
        check::<Sha256>(&root, &bits(b"a"), &proof, None),
        Err(Error::ProofVerificationFailed)
    );
}

#[test]
fn proofs_hold_one_step_for_each_node_passed() {
    let mut trie: Trie<Sha256> = Trie::new();
    trie.set(&bits(b"a"), b"one").unwrap();
    trie.set(&bits(b"b"), b"two").unwrap();
    let proof = trie.prove(&bits(b"b"));
    assert_eq!(proof.steps.len(), 3);
    assert_eq!(proof.steps[0], Step::Extension { len: 1 });
    assert!(matches!(proof.steps[1], Step::Branch { direction: true, .. }));
    assert_eq!(proof.steps[2], Step::Extension { len: 6 });
    assert_eq!(proof.terminal, Terminal::Leaf { next: None });
    let absent = trie.prove(&bits(b"c"));
    assert!(matches!(
        absent.terminal,
        Terminal::Divergence { fork: Fork::Extension { .. } }
    ));
    assert_eq!(absent.clone(), absent);
}
