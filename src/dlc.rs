//! Encodable types of the discreet-log-contract module: its error enums and
//! its consensus items, whose unknown variants are carried through as raw
//! bytes.
use vstd::prelude::*;

use crate::codec::{
    consensus_decode_whole, consensus_encode_to_vec, lemma_codec_round_trip, lemma_whole_canonical,
    whole_decoding,
};
use crate::encoding::{lemma_bigsize_len, Codec, DecodeError};

verus! {

/// The encoding of a variant: its index, then its fields as a byte buffer.
pub open spec fn variant_encoding(index: u64, payload: Seq<u8>) -> Seq<u8> {
    <(u64, Vec<u8>)>::encoding((index, payload))
}

/// A variant without fields.
pub open spec fn unit_variant(index: u64) -> Seq<u8> {
    variant_encoding(index, Seq::empty())
}

/// Appends a variant: its index, then its encoded fields.
fn write_variant(out: &mut Vec<u8>, index: u64, payload: Vec<u8>)
    requires
        payload@.len() <= u64::MAX,
    ensures
        final(out)@ == old(out)@ + variant_encoding(index, payload@),
{
    assert(payload.deep_view() =~= payload@);
    let record = (index, payload);
    record.consensus_encode(out);
}

/// Reads a variant's index and its field bytes.
fn read_variant(b: &[u8], pos: usize) -> (r: Result<((u64, Vec<u8>), usize), DecodeError>)
    requires
        pos <= b@.len(),
    ensures
        match r {
            Ok(((i, p), end)) => pos <= end <= b@.len() && <(u64, Vec<u8>)>::decoding(
                b@.subrange(pos as int, b@.len() as int),
            ) == Ok::<((u64, Seq<u8>), nat), DecodeError>(((i, p@), (end - pos) as nat)),
            Err(e) => <(u64, Vec<u8>)>::decoding(b@.subrange(pos as int, b@.len() as int)) == Err::<
                ((u64, Seq<u8>), nat),
                DecodeError,
            >(e),
        },
{
    let r = <(u64, Vec<u8>)>::consensus_decode(b, pos);
    match r {
        Ok(((i, p), end)) => {
            assert(p.deep_view() =~= p@);
            Ok(((i, p), end))
        },
        Err(e) => Err(e),
    }
}

proof fn lemma_variant_round_trip(index: u64, payload: Seq<u8>, rest: Seq<u8>)
    requires
        payload.len() <= u64::MAX,
    ensures
        <(u64, Vec<u8>)>::decoding(variant_encoding(index, payload) + rest) == Ok::<
            ((u64, Seq<u8>), nat),
            DecodeError,
        >(((index, payload), variant_encoding(index, payload).len())),
{
    <(u64, Vec<u8>)>::lemma_round_trip((index, payload), rest);
}

/// An input of a kind this version does not know.
#[derive(Debug, Clone, Copy, PartialEq, Eq, Structural)]
pub struct UnknownDlcInputVariantError {
    pub variant: u64,
}

/// An output of a kind this version does not know.
#[derive(Debug, Clone, Copy, PartialEq, Eq, Structural)]
pub struct UnknownDlcOutputVariantError {
    pub variant: u64,
}

/// Why an input was refused.
#[derive(Debug, Clone, Copy, PartialEq, Eq, Structural)]
pub enum DlcInputError {
    UnknownInputVariant(UnknownDlcInputVariantError),
    UnknownContract,
    InvalidPreimage,
    Expired,
    NotExpired,
    InvalidDecryptionKey,
    InvalidForfeitSignature,
}

/// Why an output was refused.
#[derive(Debug, Clone, Copy, PartialEq, Eq, Structural)]
pub enum DlcOutputError {
    UnknownOutputVariant(UnknownDlcOutputVariantError),
    InvalidContract,
    ContractExpired,
    ContractAlreadyExists,
}

impl DeepView for DlcInputError {
    type V = DlcInputError;

    open spec fn deep_view(&self) -> DlcInputError {
        *self
    }
}

impl DeepView for DlcOutputError {
    type V = DlcOutputError;

    open spec fn deep_view(&self) -> DlcOutputError {
        *self
    }
}

impl DlcInputError {
    pub open spec fn index(self) -> u64 {
        match self {
            DlcInputError::UnknownInputVariant(_) => 0,
            DlcInputError::UnknownContract => 1,
            DlcInputError::InvalidPreimage => 2,
            DlcInputError::Expired => 3,
            DlcInputError::NotExpired => 4,
            DlcInputError::InvalidDecryptionKey => 5,
            DlcInputError::InvalidForfeitSignature => 6,
        }
    }

    /// A human-readable description.
    pub fn message(&self) -> &'static str {
        match self {
            DlcInputError::UnknownInputVariant(_) => "The dlc input version is not supported by this federation",
            DlcInputError::UnknownContract => "No contract found for given ContractId",
            DlcInputError::InvalidPreimage => "The preimage is invalid",
            DlcInputError::Expired => "The contracts locktime has passed",
            DlcInputError::NotExpired => "The contracts locktime has not yet passed",
            DlcInputError::InvalidDecryptionKey => "The aggregate decryption key is invalid",
            DlcInputError::InvalidForfeitSignature => "The forfeit signature is invalid",
        }
    }
}

/// The error for a variant index and its fields.
pub open spec fn input_error_of(index: u64, p: Seq<u8>) -> Result<DlcInputError, DecodeError> {
    if index == 0 {
        match whole_decoding::<u64>(p) {
            Ok(v) => Ok(DlcInputError::UnknownInputVariant(UnknownDlcInputVariantError { variant: v })),
            Err(e) => Err(e),
        }
    } else if index > 6 {
        Err(DecodeError::InvalidFlag)
    } else if p.len() != 0 {
        Err(DecodeError::TrailingBytes)
    } else if index == 1 {
        Ok(DlcInputError::UnknownContract)
    } else if index == 2 {
        Ok(DlcInputError::InvalidPreimage)
    } else if index == 3 {
        Ok(DlcInputError::Expired)
    } else if index == 4 {
        Ok(DlcInputError::NotExpired)
    } else if index == 5 {
        Ok(DlcInputError::InvalidDecryptionKey)
    } else {
        Ok(DlcInputError::InvalidForfeitSignature)
    }
}

/// The variant index, then the fields as a byte buffer.
impl Codec for DlcInputError {
    open spec fn encodable(v: DlcInputError) -> bool {
        true
    }

    open spec fn encoding(v: DlcInputError) -> Seq<u8> {
        match v {
            DlcInputError::UnknownInputVariant(u) => variant_encoding(0, u64::encoding(u.variant)),
            _ => unit_variant(v.index()),
        }
    }

    open spec fn decoding(b: Seq<u8>) -> Result<(DlcInputError, nat), DecodeError> {
        match <(u64, Vec<u8>)>::decoding(b) {
            Err(e) => Err(e),
            Ok(((i, p), n)) => match input_error_of(i, p) {
                Ok(v) => Ok((v, n)),
                Err(e) => Err(e),
            },
        }
    }

    proof fn lemma_round_trip(v: DlcInputError, rest: Seq<u8>) {
        match v {
            DlcInputError::UnknownInputVariant(u) => {
                lemma_bigsize_len(u.variant);
                lemma_variant_round_trip(0, u64::encoding(u.variant), rest);
                lemma_codec_round_trip::<u64>(u.variant);
            },
            _ => {
                lemma_variant_round_trip(v.index(), Seq::empty(), rest);
            },
        }
    }

    proof fn lemma_canonical(b: Seq<u8>) {
        <(u64, Vec<u8>)>::lemma_canonical(b);
        match <(u64, Vec<u8>)>::decoding(b) {
            Ok(((i, p), n)) => {
                lemma_whole_canonical::<u64>(p);
                if p.len() == 0 {
                    assert(p =~= Seq::<u8>::empty());
                }
            },
            Err(_) => {},
        }
    }

    fn consensus_encode(&self, out: &mut Vec<u8>) {
        match self {
            DlcInputError::UnknownInputVariant(u) => {
                let payload = consensus_encode_to_vec(&u.variant);
                proof {
                    lemma_bigsize_len(u.variant);
                }
                write_variant(out, 0, payload);
            },
            _ => {
                let index: u64 = match self {
                    DlcInputError::UnknownContract => 1,
                    DlcInputError::InvalidPreimage => 2,
                    DlcInputError::Expired => 3,
                    DlcInputError::NotExpired => 4,
                    DlcInputError::InvalidDecryptionKey => 5,
                    _ => 6,
                };
                let empty: Vec<u8> = Vec::new();
                assert(empty@ =~= Seq::<u8>::empty());
                write_variant(out, index, empty);
            },
        }
    }

    fn consensus_decode(b: &[u8], pos: usize) -> (r: Result<(DlcInputError, usize), DecodeError>) {
        let ((index, payload), end) = match read_variant(b, pos) {
            Ok(x) => x,
            Err(e) => return Err(e),
        };
        if index == 0 {
            return match consensus_decode_whole::<u64>(payload.as_slice()) {
                Ok(v) => Ok((DlcInputError::UnknownInputVariant(UnknownDlcInputVariantError { variant: v }), end)),
                Err(e) => Err(e),
            };
        }
        if index > 6 {
            return Err(DecodeError::InvalidFlag);
        }
        if payload.len() != 0 {
            return Err(DecodeError::TrailingBytes);
        }
        let v = if index == 1 {
            DlcInputError::UnknownContract
        } else if index == 2 {
            DlcInputError::InvalidPreimage
        } else if index == 3 {
            DlcInputError::Expired
        } else if index == 4 {
            DlcInputError::NotExpired
        } else if index == 5 {
            DlcInputError::InvalidDecryptionKey
        } else {
            DlcInputError::InvalidForfeitSignature
        };
        Ok((v, end))
    }
}

impl DlcOutputError {
    pub open spec fn index(self) -> u64 {
        match self {
            DlcOutputError::UnknownOutputVariant(_) => 0,
            DlcOutputError::InvalidContract => 1,
            DlcOutputError::ContractExpired => 2,
            DlcOutputError::ContractAlreadyExists => 3,
        }
    }

    /// A human-readable description.
    pub fn message(&self) -> &'static str {
        match self {
            DlcOutputError::UnknownOutputVariant(_) => "The dlc output version is not supported by this federation",
            DlcOutputError::InvalidContract => "The contract is invalid",
            DlcOutputError::ContractExpired => "The contract is expired",
            DlcOutputError::ContractAlreadyExists => "A contract with this ContractId already exists",
        }
    }
}

/// The error for a variant index and its fields.
pub open spec fn output_error_of(index: u64, p: Seq<u8>) -> Result<DlcOutputError, DecodeError> {
    if index == 0 {
        match whole_decoding::<u64>(p) {
            Ok(v) => Ok(DlcOutputError::UnknownOutputVariant(UnknownDlcOutputVariantError { variant: v })),
            Err(e) => Err(e),
        }
    } else if index > 3 {
        Err(DecodeError::InvalidFlag)
    } else if p.len() != 0 {
        Err(DecodeError::TrailingBytes)
    } else if index == 1 {
        Ok(DlcOutputError::InvalidContract)
    } else if index == 2 {
        Ok(DlcOutputError::ContractExpired)
    } else {
        Ok(DlcOutputError::ContractAlreadyExists)
    }
}

/// The variant index, then the fields as a byte buffer.
impl Codec for DlcOutputError {
    open spec fn encodable(v: DlcOutputError) -> bool {
        true
    }

    open spec fn encoding(v: DlcOutputError) -> Seq<u8> {
        match v {
            DlcOutputError::UnknownOutputVariant(u) => variant_encoding(0, u64::encoding(u.variant)),
            _ => unit_variant(v.index()),
        }
    }

    open spec fn decoding(b: Seq<u8>) -> Result<(DlcOutputError, nat), DecodeError> {
        match <(u64, Vec<u8>)>::decoding(b) {
            Err(e) => Err(e),
            Ok(((i, p), n)) => match output_error_of(i, p) {
                Ok(v) => Ok((v, n)),
                Err(e) => Err(e),
            },
        }
    }

    proof fn lemma_round_trip(v: DlcOutputError, rest: Seq<u8>) {
        match v {
            DlcOutputError::UnknownOutputVariant(u) => {
                lemma_bigsize_len(u.variant);
                lemma_variant_round_trip(0, u64::encoding(u.variant), rest);
                lemma_codec_round_trip::<u64>(u.variant);
            },
            _ => {
                lemma_variant_round_trip(v.index(), Seq::empty(), rest);
            },
        }
    }

    proof fn lemma_canonical(b: Seq<u8>) {
        <(u64, Vec<u8>)>::lemma_canonical(b);
        match <(u64, Vec<u8>)>::decoding(b) {
            Ok(((i, p), n)) => {
                lemma_whole_canonical::<u64>(p);
                if p.len() == 0 {
                    assert(p =~= Seq::<u8>::empty());
                }
            },
            Err(_) => {},
        }
    }

    fn consensus_encode(&self, out: &mut Vec<u8>) {
        match self {
            DlcOutputError::UnknownOutputVariant(u) => {
                let payload = consensus_encode_to_vec(&u.variant);
                proof {
                    lemma_bigsize_len(u.variant);
                }
                write_variant(out, 0, payload);
            },
            _ => {
                let index: u64 = match self {
                    DlcOutputError::InvalidContract => 1,
                    DlcOutputError::ContractExpired => 2,
                    _ => 3,
                };
                let empty: Vec<u8> = Vec::new();
                assert(empty@ =~= Seq::<u8>::empty());
                write_variant(out, index, empty);
            },
        }
    }

    fn consensus_decode(b: &[u8], pos: usize) -> (r: Result<(DlcOutputError, usize), DecodeError>) {
        let ((index, payload), end) = match read_variant(b, pos) {
            Ok(x) => x,
            Err(e) => return Err(e),
        };
        if index == 0 {
            return match consensus_decode_whole::<u64>(payload.as_slice()) {
                Ok(v) => Ok((DlcOutputError::UnknownOutputVariant(UnknownDlcOutputVariantError { variant: v }), end)),
                Err(e) => Err(e),
            };
        }
        if index > 3 {
            return Err(DecodeError::InvalidFlag);
        }
        if payload.len() != 0 {
            return Err(DecodeError::TrailingBytes);
        }
        let v = if index == 1 {
            DlcOutputError::InvalidContract
        } else if index == 2 {
            DlcOutputError::ContractExpired
        } else {
            DlcOutputError::ContractAlreadyExists
        };
        Ok((v, end))
    }
}

/// A vote of a guardian. Items of a kind this version does not know keep
/// their index and raw field bytes, so they are written back unchanged.
#[derive(Debug, Clone, PartialEq, Eq, Hash)]
pub enum DlcConsensusItem {
    BlockCountVote(u64),
    UnixTimeVote(u64),
    Default { variant: u64, bytes: Vec<u8> },
}

/// What a consensus item is: its variant index and its encoded fields.
impl DeepView for DlcConsensusItem {
    type V = (u64, Seq<u8>);

    open spec fn deep_view(&self) -> (u64, Seq<u8>) {
        match self {
            DlcConsensusItem::BlockCountVote(v) => (0, u64::encoding(*v)),
            DlcConsensusItem::UnixTimeVote(v) => (1, u64::encoding(*v)),
            DlcConsensusItem::Default { variant, bytes } => (*variant, bytes@),
        }
    }
}

/// Whether a variant index and field bytes form an item: a known index needs
/// fields that decode.
pub open spec fn consensus_item_valid(v: (u64, Seq<u8>)) -> bool {
    (v.0 == 0 || v.0 == 1) ==> (whole_decoding::<u64>(v.1) matches Ok(x) && u64::encoding(x) == v.1)
}

/// The variant index, then the fields as a byte buffer; unknown indices are
/// kept as they are.
impl Codec for DlcConsensusItem {
    open spec fn encodable(v: (u64, Seq<u8>)) -> bool {
        v.1.len() <= u64::MAX && consensus_item_valid(v)
    }

    open spec fn encoding(v: (u64, Seq<u8>)) -> Seq<u8> {
        variant_encoding(v.0, v.1)
    }

    open spec fn decoding(b: Seq<u8>) -> Result<((u64, Seq<u8>), nat), DecodeError> {
        match <(u64, Vec<u8>)>::decoding(b) {
            Err(e) => Err(e),
            Ok(((i, p), n)) => if i == 0 || i == 1 {
                match whole_decoding::<u64>(p) {
                    Ok(x) => Ok(((i, u64::encoding(x)), n)),
                    Err(e) => Err(e),
                }
            } else {
                Ok(((i, p), n))
            },
        }
    }

    proof fn lemma_round_trip(v: (u64, Seq<u8>), rest: Seq<u8>) {
        lemma_variant_round_trip(v.0, v.1, rest);
    }

    proof fn lemma_canonical(b: Seq<u8>) {
        <(u64, Vec<u8>)>::lemma_canonical(b);
        match <(u64, Vec<u8>)>::decoding(b) {
            Ok(((i, p), n)) => {
                lemma_whole_canonical::<u64>(p);
                if p.len() == 0 {
                    assert(p =~= Seq::<u8>::empty());
                }
            },
            Err(_) => {},
        }
    }

    fn consensus_encode(&self, out: &mut Vec<u8>) {
        match self {
            DlcConsensusItem::BlockCountVote(v) => {
                proof {
                    lemma_bigsize_len(*v);
                }
                write_variant(out, 0, consensus_encode_to_vec(v));
            },
            DlcConsensusItem::UnixTimeVote(v) => {
                proof {
                    lemma_bigsize_len(*v);
                }
                write_variant(out, 1, consensus_encode_to_vec(v));
            },
            DlcConsensusItem::Default { variant, bytes } => {
                let mut copy: Vec<u8> = Vec::new();
                let mut i: usize = 0;
                while i < bytes.len()
                    invariant
                        i <= bytes@.len(),
                        copy@ == bytes@.take(i as int),
                    decreases bytes@.len() - i,
                {
                    copy.push(bytes[i]);
                    i = i + 1;
                    assert(copy@ =~= bytes@.take(i as int));
                }
                assert(bytes@.take(i as int) =~= bytes@);
                write_variant(out, *variant, copy);
            },
        }
    }

    fn consensus_decode(b: &[u8], pos: usize) -> (r: Result<(DlcConsensusItem, usize), DecodeError>) {
        let ((index, payload), end) = match read_variant(b, pos) {
            Ok(x) => x,
            Err(e) => return Err(e),
        };
        if index == 0 || index == 1 {
            match consensus_decode_whole::<u64>(payload.as_slice()) {
                Ok(x) => if index == 0 {
                    Ok((DlcConsensusItem::BlockCountVote(x), end))
                } else {
                    Ok((DlcConsensusItem::UnixTimeVote(x), end))
                },
                Err(e) => Err(e),
            }
        } else {
            Ok((DlcConsensusItem::Default { variant: index, bytes: payload }, end))
        }
    }
}

} // verus!
