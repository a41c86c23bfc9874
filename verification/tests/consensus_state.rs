use ibc::clients::tendermint::consensus_state::ConsensusState as TmConsensusState;
use ibc::clients::tendermint::types::proto::v1::ConsensusState as RawTmConsensusState;
use ibc::primitives::proto::Timestamp;
use sealable_trie::consensus_state::{
    AnyConsensusState, AnyConsensusStateTag, AnyMessage, ConsensusStateError, TaggedError,
    TENDERMINT_TYPE,
};

fn tendermint(seconds: i64, nanos: i32, root: &[u8]) -> TmConsensusState {
    let raw = RawTmConsensusState {
        timestamp: Some(Timestamp { seconds, nanos }),
        root: Some(ibc::core::commitment_types::proto::v1::MerkleRoot { hash: root.to_vec() }),
        next_validators_hash: vec![7u8; 32],
    };
    TmConsensusState::try_from(raw).unwrap()
}

fn encoded(seconds: u8, root: &[u8]) -> Vec<u8> {
    let mut bytes = vec![0x0a, 0x02, 0x08, seconds];
    bytes.extend_from_slice(&[0x12, root.len() as u8 + 2, 0x0a, root.len() as u8]);
    bytes.extend_from_slice(root);
    bytes.extend_from_slice(&[0x1a, 0x20]);
    bytes.extend_from_slice(&[7u8; 32]);
    bytes
}

#[test]
fn known_type_url_gives_tendermint_tag() {
    let tag = AnyConsensusStateTag::from_type_url("/ibc.lightclients.tendermint.v1.ConsensusState");
    assert_eq!(tag, Some(AnyConsensusStateTag::Tendermint));
    assert_eq!(AnyConsensusStateTag::from_type_url(TENDERMINT_TYPE), tag);
}

#[test]
fn unknown_type_url_gives_no_tag() {
    assert_eq!(AnyConsensusStateTag::from_type_url(""), None);
    assert_eq!(AnyConsensusStateTag::from_type_url("/ibc.mock.ConsensusState"), None);
    assert_eq!(
        AnyConsensusStateTag::from_type_url("/ibc.lightclients.tendermint.v1.ConsensusStat"),
        None
    );
}

#[test]
fn tag_bytes_round_trip() {
    assert_eq!(AnyConsensusStateTag::Tendermint.repr(), 0);
    assert_eq!(AnyConsensusStateTag::from_repr(0), Some(AnyConsensusStateTag::Tendermint));
    assert_eq!(AnyConsensusStateTag::from_repr(1), None);
    assert_eq!(AnyConsensusStateTag::from_repr(255), None);
}

#[test]
fn to_any_gives_tag_url_and_protobuf_bytes() {
    let state = AnyConsensusState::Tendermint(tendermint(5, 0, &[1, 2, 3]));
    let (tag, url, value) = state.to_any();
    assert_eq!(tag, AnyConsensusStateTag::Tendermint);
    assert_eq!(url, "/ibc.lightclients.tendermint.v1.ConsensusState");
    assert_eq!(value, encoded(5, &[1, 2, 3]));
}

#[test]
fn from_tagged_decodes_what_to_any_encoded() {
    let state = AnyConsensusState::Tendermint(tendermint(9, 0, &[4, 5]));
    let (tag, _, value) = state.to_any();
    assert_eq!(AnyConsensusState::from_tagged(tag, value), Ok(state));
    let other = AnyConsensusState::from_tagged(tag, encoded(3, &[9])).unwrap();
    assert_eq!(other, AnyConsensusState::Tendermint(tendermint(3, 0, &[9])));
    assert!(AnyConsensusState::from_tagged(tag, vec![0xff, 0xff]).is_err());
}

#[test]
fn from_decoded_wraps_either_outcome() {
    let tm = tendermint(1, 0, &[1]);
    assert_eq!(
        AnyConsensusState::from_decoded(AnyConsensusStateTag::Tendermint, Ok(tm.clone())),
        Ok(AnyConsensusState::Tendermint(tm))
    );
    assert_eq!(
        AnyConsensusState::from_decoded(AnyConsensusStateTag::Tendermint, Err("bad".to_string())),
        Err("bad".to_string())
    );
}

#[test]
fn any_message_round_trips() {
    let state = AnyConsensusState::Tendermint(tendermint(2, 0, &[8, 8]));
    let any = state.clone().into_any();
    assert_eq!(any.type_url, TENDERMINT_TYPE);
    assert_eq!(any.value, encoded(2, &[8, 8]));
    match AnyConsensusState::try_from(any) {
        Ok(back) => assert_eq!(back, state),
        Err(_) => panic!("the message holds a state"),
    }
}

#[test]
fn any_message_of_unknown_type_is_refused() {
    let any = AnyMessage { type_url: "/ibc.mock.ConsensusState".to_string(), value: encoded(2, &[8]) };
    match AnyConsensusState::try_from(any) {
        Err(ConsensusStateError::UnknownConsensusStateType { consensus_state_type }) => {
            assert_eq!(consensus_state_type, "/ibc.mock.ConsensusState");
        }
        _ => panic!("the type is not known"),
    }
}

#[test]
fn any_message_with_bad_value_is_refused() {
    let any = AnyMessage { type_url: TENDERMINT_TYPE.to_string(), value: vec![0xff, 0xff, 0xff] };
    match AnyConsensusState::try_from(any) {
        Err(ConsensusStateError::ClientSpecific { description }) => {
            assert!(!description.is_empty());
        }
        _ => panic!("the value does not decode"),
    }
    let missing_root = AnyMessage { type_url: TENDERMINT_TYPE.to_string(), value: vec![] };
    assert!(matches!(
        AnyConsensusState::try_from(missing_root),
        Err(ConsensusStateError::ClientSpecific { .. })
    ));
}

#[test]
fn tagged_encoding_round_trips() {
    let state = AnyConsensusState::Tendermint(tendermint(6, 0, &[1, 1, 1]));
    let (tag, value) = state.encode_tagged();
    assert_eq!(tag, 0);
    assert_eq!(value, encoded(6, &[1, 1, 1]));
    match AnyConsensusState::decode_tagged(tag, value) {
        Ok(back) => assert_eq!(back, state),
        Err(_) => panic!("the encoding holds a state"),
    }
}

#[test]
fn tagged_encoding_with_bad_tag_or_bytes_is_refused() {
    assert!(matches!(
        AnyConsensusState::decode_tagged(255, encoded(6, &[1])),
        Err(TaggedError::InvalidTag { tag: 255 })
    ));
    assert!(matches!(
        AnyConsensusState::decode_tagged(1, encoded(6, &[1])),
        Err(TaggedError::InvalidTag { tag: 1 })
    ));
    assert!(matches!(
        AnyConsensusState::decode_tagged(0, vec![0xff]),
        Err(TaggedError::Undecodable { .. })
    ));
}

#[test]
fn tagged_outcome_follows_what_decoding_gave() {
    let state = AnyConsensusState::Tendermint(tendermint(6, 0, &[1]));
    assert!(matches!(
        AnyConsensusState::from_tagged_outcome(9, None),
        Err(TaggedError::InvalidTag { tag: 9 })
    ));
    match AnyConsensusState::from_tagged_outcome(0, Some(Err("why".to_string()))) {
        Err(TaggedError::Undecodable { reason }) => assert_eq!(reason, "why"),
        _ => panic!("decoding failed"),
    }
    match AnyConsensusState::from_tagged_outcome(0, Some(Ok(state.clone()))) {
        Ok(back) => assert_eq!(back, state),
        Err(_) => panic!("decoding gave a state"),
    }
    match AnyConsensusState::from_any_decoded(TENDERMINT_TYPE.to_string(), Err("no".to_string())) {
        Err(ConsensusStateError::ClientSpecific { description }) => assert_eq!(description, "no"),
        _ => panic!("decoding failed"),
    }
}

#[test]
fn every_encoding_of_a_state_holds_the_same_bytes() {
    let state = AnyConsensusState::Tendermint(tendermint(11, 0, &[6, 6]));
    let (_, _, from_any) = state.to_any();
    let (_, tagged) = state.encode_tagged();
    let message = state.clone().into_any();
    assert_eq!(from_any, encoded(11, &[6, 6]));
    assert_eq!(tagged, from_any);
    assert_eq!(message.value, from_any);
    let first = AnyConsensusState::from_tagged(AnyConsensusStateTag::Tendermint, tagged.clone());
    let second = AnyConsensusState::from_tagged(AnyConsensusStateTag::Tendermint, tagged);
    assert_eq!(first, second);
    assert_eq!(first, Ok(state));
}
