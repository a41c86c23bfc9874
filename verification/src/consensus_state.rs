//! The consensus states whose digests are committed to the trie: how one is
//! told from another by a tag or a type URL, and how it is encoded with them.

use vstd::prelude::*;
use ibc::clients::tendermint::consensus_state::ConsensusState as TmConsensusState;
use ibc::clients::tendermint::types::proto::v1::ConsensusState as RawTmConsensusState;
use ibc::primitives::proto::Protobuf;

verus! {

/// Protobuf type URL of a Tendermint consensus state inside an `Any` message.
pub const TENDERMINT_TYPE: &'static str = "/ibc.lightclients.tendermint.v1.ConsensusState";

/// The consensus state of a Tendermint light client, as `ibc` holds it.
#[verifier::external_type_specification]
#[verifier::external_body]
pub struct ExTmConsensusState(TmConsensusState);

/// `Clone::clone` on a Tendermint consensus state, as `ibc` derives it.
/// Nothing is claimed of the copy.
pub assume_specification[ <TmConsensusState as Clone>::clone ](
    state: &TmConsensusState,
) -> TmConsensusState;

/// Discriminant written in front of an encoded consensus state.
#[derive(Clone, Copy, PartialEq, Eq, Structural, Debug)]
pub enum AnyConsensusStateTag {
    Tendermint,
}

impl AnyConsensusStateTag {
    /// The tag that belongs to a protobuf type URL, if the URL is a known one.
    pub fn from_type_url(url: &str) -> (tag: Option<Self>)
        ensures
            tag == (if url@ == TENDERMINT_TYPE@ {
                Some(AnyConsensusStateTag::Tendermint)
            } else {
                None
            }),
    {
        if url.to_owned() == TENDERMINT_TYPE.to_owned() {
            Some(AnyConsensusStateTag::Tendermint)
        } else {
            None
        }
    }

    /// The byte that stands for the tag.
    pub open spec fn spec_repr(self) -> u8 {
        match self {
            AnyConsensusStateTag::Tendermint => 0u8,
        }
    }

    /// The byte that stands for the tag.
    pub fn repr(self) -> (byte: u8)
        ensures
            byte == self.spec_repr(),
    {
        match self {
            AnyConsensusStateTag::Tendermint => 0,
        }
    }

    /// The tag that `byte` stands for, if it stands for one.
    pub fn from_repr(byte: u8) -> (tag: Option<Self>)
        ensures
            byte == 0 ==> tag == Some(AnyConsensusStateTag::Tendermint),
            byte != 0 ==> tag.is_none(),
            tag matches Some(t) ==> t.spec_repr() == byte,
    {
        if byte == 0 {
            Some(AnyConsensusStateTag::Tendermint)
        } else {
            None
        }
    }
}

/// A protobuf `Any` message: a type URL and the encoded message of that type.
#[derive(Clone, Debug, PartialEq, Eq)]
pub struct AnyMessage {
    pub type_url: String,
    pub value: Vec<u8>,
}

/// Why an `Any` message is no consensus state.
#[derive(Debug)]
pub enum ConsensusStateError {
    /// The value is no encoded state of the kind that the type URL names.
    ClientSpecific { description: String },
    /// The type URL names no kind of consensus state that is known here.
    UnknownConsensusStateType { consensus_state_type: String },
}

/// Why a tagged encoding is no consensus state.
#[derive(Debug)]
pub enum TaggedError {
    /// The tag stands for no kind of consensus state.
    InvalidTag { tag: u8 },
    /// The bytes are no encoded state of the kind that the tag names; the
    /// decoder's words say why.
    Undecodable { reason: String },
}

/// The consensus state of a light client of any kind that is known here.
#[derive(Debug, PartialEq)]
pub enum AnyConsensusState {
    Tendermint(TmConsensusState),
}

impl Clone for AnyConsensusState {
    /// A copy of the state, of the same kind.
    fn clone(&self) -> (out: Self)
        ensures
            out.spec_tag() == self.spec_tag(),
    {
        match self {
            AnyConsensusState::Tendermint(state) => AnyConsensusState::Tendermint(state.clone()),
        }
    }
}

/// The bytes of a Tendermint consensus state encoded as the protobuf
/// message of its kind.
pub uninterp spec fn tendermint_encoding(state: TmConsensusState) -> Seq<u8>;

/// The Tendermint consensus state that bytes encode as the protobuf message
/// of its kind, if they encode one.
pub uninterp spec fn tendermint_decoding(value: Seq<u8>) -> Option<TmConsensusState>;

/// Calls `Protobuf::<RawTmConsensusState>::encode_vec` of `ibc`, on a copy
/// of the state: the state turned into the protobuf message of its kind and
/// that message encoded. The bytes are a function of the state alone;
/// nothing more is claimed of them.
#[verifier::external_body]
fn encode_tendermint(state: &TmConsensusState) -> (out: Vec<u8>)
    ensures
        out@ == tendermint_encoding(*state),
{
    Protobuf::<RawTmConsensusState>::encode_vec(state.clone())
}

/// Calls `Protobuf::<RawTmConsensusState>::decode_vec` of `ibc`, which
/// decodes the bytes as the protobuf message and makes a state of it, or
/// fails; `to_string` gives the words of the failure. Whether it fails, and
/// the state that it gives, are a function of the bytes alone; nothing is
/// claimed of the words.
#[verifier::external_body]
fn decode_tendermint(value: &[u8]) -> (out: Result<TmConsensusState, String>)
    ensures
        match out {
            Ok(state) => tendermint_decoding(value@) == Some(state),
            Err(_) => tendermint_decoding(value@) is None,
        },
{
    match Protobuf::<RawTmConsensusState>::decode_vec(value) {
        Ok(state) => Ok(state),
        Err(err) => Err(err.to_string()),
    }
}

impl AnyConsensusState {
    /// The tag of the kind of the state.
    pub open spec fn spec_tag(&self) -> AnyConsensusStateTag {
        match self {
            AnyConsensusState::Tendermint(_) => AnyConsensusStateTag::Tendermint,
        }
    }

    /// The type URL of the kind of a state with the given tag.
    pub open spec fn spec_type_url(tag: AnyConsensusStateTag) -> Seq<char> {
        match tag {
            AnyConsensusStateTag::Tendermint => TENDERMINT_TYPE@,
        }
    }

    /// The state encoded as the protobuf message of its kind.
    pub open spec fn spec_encoding(&self) -> Seq<u8> {
        match self {
            AnyConsensusState::Tendermint(state) => tendermint_encoding(*state),
        }
    }

    /// The state of the kind that `tag` names which `value` encodes as the
    /// protobuf message of that kind, if it encodes one.
    pub open spec fn spec_decoding(tag: AnyConsensusStateTag, value: Seq<u8>) -> Option<Self> {
        match tag {
            AnyConsensusStateTag::Tendermint => match tendermint_decoding(value) {
                Some(state) => Some(AnyConsensusState::Tendermint(state)),
                None => None,
            },
        }
    }

    /// The tag of the state, the type URL of its kind, and the state encoded
    /// as a protobuf message of that kind. The tag goes with the bytes into
    /// a tagged encoding, the type URL into an `Any` message.
    pub fn to_any(&self) -> (out: (AnyConsensusStateTag, &'static str, Vec<u8>))
        ensures
            out.0 == self.spec_tag(),
            out.1@ == Self::spec_type_url(self.spec_tag()),
            out.2@ == self.spec_encoding(),
    {
        match self {
            AnyConsensusState::Tendermint(state) => (
                AnyConsensusStateTag::Tendermint,
                TENDERMINT_TYPE,
                encode_tendermint(state),
            ),
        }
    }

    /// The state of the kind that `tag` names, from what decoding gave.
    pub fn from_decoded(
        tag: AnyConsensusStateTag,
        decoded: Result<TmConsensusState, String>,
    ) -> (out: Result<Self, String>)
        ensures
            out == match decoded {
                Ok(state) => Ok::<Self, String>(
                    AnyConsensusState::Tendermint(state),
                ),
                Err(err) => Err::<Self, String>(err),
            },
    {
        match tag {
            AnyConsensusStateTag::Tendermint => match decoded {
                Ok(state) => Ok(AnyConsensusState::Tendermint(state)),
                Err(err) => Err(err),
            },
        }
    }

    /// Decodes the protobuf message of the kind that `tag` names: the state
    /// that the bytes encode, or the decoder's words if they encode none.
    pub fn from_tagged(tag: AnyConsensusStateTag, value: Vec<u8>) -> (out: Result<
        Self,
        String,
    >)
        ensures
            match Self::spec_decoding(tag, value@) {
                Some(state) => out == Ok::<Self, String>(state),
                None => out is Err,
            },
            out matches Ok(state) ==> state.spec_tag() == tag,
    {
        match tag {
            AnyConsensusStateTag::Tendermint => Self::from_decoded(
                tag,
                decode_tendermint(value.as_slice()),
            ),
        }
    }

    /// The state that an `Any` message with the type URL `type_url` holds,
    /// from what decoding its value as a Tendermint state gave.
    pub fn from_any_decoded(
        type_url: String,
        decoded: Result<TmConsensusState, String>,
    ) -> (out: Result<Self, ConsensusStateError>)
        ensures
            out == if type_url@ == TENDERMINT_TYPE@ {
                match decoded {
                    Ok(state) => Ok::<Self, ConsensusStateError>(
                        AnyConsensusState::Tendermint(state),
                    ),
                    Err(description) => Err::<Self, ConsensusStateError>(
                        ConsensusStateError::ClientSpecific { description },
                    ),
                }
            } else {
                Err::<Self, ConsensusStateError>(
                    ConsensusStateError::UnknownConsensusStateType {
                        consensus_state_type: type_url,
                    },
                )
            },
    {
        if type_url == TENDERMINT_TYPE.to_owned() {
            match decoded {
                Ok(state) => Ok(AnyConsensusState::Tendermint(state)),
                Err(description) => Err(ConsensusStateError::ClientSpecific { description }),
            }
        } else {
            Err(ConsensusStateError::UnknownConsensusStateType { consensus_state_type: type_url })
        }
    }

    /// The consensus state that an `Any` message holds. A type URL that is
    /// not known is refused with `UnknownConsensusStateType`; a value that
    /// does not decode, with `ClientSpecific` and the decoder's words.
    pub fn try_from(value: AnyMessage) -> (out: Result<Self, ConsensusStateError>)
        ensures
            value.type_url@ != TENDERMINT_TYPE@ ==> out == Err::<Self, ConsensusStateError>(
                ConsensusStateError::UnknownConsensusStateType {
                    consensus_state_type: value.type_url,
                },
            ),
            value.type_url@ == TENDERMINT_TYPE@ ==> match Self::spec_decoding(
                AnyConsensusStateTag::Tendermint,
                value.value@,
            ) {
                Some(state) => out == Ok::<Self, ConsensusStateError>(state),
                None => out is Err && out->Err_0 is ClientSpecific,
            },
    {
        let decoded = decode_tendermint(value.value.as_slice());
        Self::from_any_decoded(value.type_url, decoded)
    }

    /// The `Any` message that holds the state.
    pub fn into_any(self) -> (out: AnyMessage)
        ensures
            out.type_url@ == Self::spec_type_url(self.spec_tag()),
            out.value@ == self.spec_encoding(),
    {
        let (_, type_url, value) = self.to_any();
        AnyMessage { type_url: type_url.to_owned(), value }
    }

    /// The tagged encoding of the state: the byte of its tag, and the state
    /// encoded as a protobuf message of its kind.
    pub fn encode_tagged(&self) -> (out: (u8, Vec<u8>))
        ensures
            out.0 == self.spec_tag().spec_repr(),
            out.1@ == self.spec_encoding(),
    {
        let (tag, _, value) = self.to_any();
        (tag.repr(), value)
    }

    /// The state that a tagged encoding holds, from what decoding the bytes
    /// as the kind that the tag names gave; `decoded` is asked for only
    /// where the tag names a kind.
    pub fn from_tagged_outcome(
        tag: u8,
        decoded: Option<Result<Self, String>>,
    ) -> (out: Result<Self, TaggedError>)
        ensures
            out == match decoded {
                None => Err::<Self, TaggedError>(TaggedError::InvalidTag { tag }),
                Some(Err(reason)) => Err::<Self, TaggedError>(TaggedError::Undecodable { reason }),
                Some(Ok(state)) => Ok::<Self, TaggedError>(state),
            },
    {
        match decoded {
            None => Err(TaggedError::InvalidTag { tag }),
            Some(Err(reason)) => Err(TaggedError::Undecodable { reason }),
            Some(Ok(state)) => Ok(state),
        }
    }

    /// The state that a tagged encoding holds. A byte that is no tag is
    /// refused with `InvalidTag`; bytes that do not decode, with `Undecodable`.
    pub fn decode_tagged(tag: u8, value: Vec<u8>) -> (out: Result<Self, TaggedError>)
        ensures
            tag != 0 ==> out == Err::<Self, TaggedError>(TaggedError::InvalidTag { tag }),
            tag == 0 ==> match Self::spec_decoding(AnyConsensusStateTag::Tendermint, value@) {
                Some(state) => out == Ok::<Self, TaggedError>(state),
                None => out is Err && out->Err_0 is Undecodable,
            },
            out matches Ok(state) ==> state.spec_tag().spec_repr() == tag,
    {
        let decoded = match AnyConsensusStateTag::from_repr(tag) {
            Some(known) => Some(Self::from_tagged(known, value)),
            None => None,
        };
        Self::from_tagged_outcome(tag, decoded)
    }
}

} // verus!
