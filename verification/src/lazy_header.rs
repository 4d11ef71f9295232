//! Inspectors that read the fixed fields of an encoded header where they lie.
//!
//! A type that holds an encoded header says where the list payload starts and
//! hands out the bytes. Each inspector adds the check of one more field and
//! the accessor for it; a type gets the later inspectors by being a
//! `ParentHashInspector`.

use vstd::prelude::*;
use crate::bytes::array_ref;
use crate::header_lens::{EncodedHeaderLens, HeaderError};
use crate::rlp::{RLP_MAX_PACKED_LEN, RLP_STR_OFFSET};

verus! {

/// What is left of `payload` after a string of `width` bytes, or why the
/// payload does not start with one. A payload that is too short for the
/// field is `Truncated`, whatever it starts with.
pub open spec fn small_fixed_field(payload: Seq<u8>, width: u8) -> Result<Seq<u8>, HeaderError> {
    if payload.len() < width + 1 {
        Err(HeaderError::Truncated)
    } else if payload[0] != RLP_STR_OFFSET + width {
        Err(
            HeaderError::UnexpectedFieldHeader {
                expected: (RLP_STR_OFFSET + width) as u8,
                found: payload[0],
            },
        )
    } else {
        Ok(payload.skip(width + 1))
    }
}

/// Width of the fixed field `k` of a header: the beneficiary has 20 bytes, the
/// hashes and roots have 32.
pub open spec fn field_width(k: int) -> u8 {
    if k == 2 {
        20
    } else {
        32
    }
}

/// Where the fixed field `k` starts in the payload, string header included.
pub open spec fn field_offset(k: int) -> int
    decreases k,
{
    if k <= 0 {
        0
    } else {
        field_offset(k - 1) + field_width(k - 1) + 1
    }
}

/// What is left of `payload` after its first `k` fixed fields, or the error
/// of the first of them that fails.
pub open spec fn small_fixed_fields(payload: Seq<u8>, k: int) -> Result<Seq<u8>, HeaderError>
    decreases k,
{
    if k <= 0 {
        Ok(payload)
    } else {
        match small_fixed_fields(payload, k - 1) {
            Err(e) => Err(e),
            Ok(rest) => small_fixed_field(rest, field_width(k - 1)),
        }
    }
}

/// The bytes of the fixed field `k` in an encoding whose payload starts at
/// `payload_offset`.
pub open spec fn field_of(encoded: Seq<u8>, payload_offset: int, k: int) -> Seq<u8> {
    encoded.subrange(
        payload_offset + field_offset(k) + 1,
        payload_offset + field_offset(k) + 1 + field_width(k),
    )
}

/// Whether the fixed field `k` lies inside the encoding.
pub open spec fn field_in_range(encoded: Seq<u8>, payload_offset: int, k: int) -> bool {
    0 <= payload_offset && payload_offset + field_offset(k) + 1 + field_width(k) <= encoded.len()
}

/// Checks that `payload` starts with a string of `n` bytes and gives what
/// follows the string.
pub fn validate_small_fixed_field<'a>(payload: &'a [u8], n: u8) -> (rest: Result<
    &'a [u8],
    HeaderError,
>)
    requires
        n <= RLP_MAX_PACKED_LEN,
    ensures
        match rest {
            Ok(r) => small_fixed_field(payload@, n) == Ok::<Seq<u8>, HeaderError>(r@),
            Err(e) => small_fixed_field(payload@, n) == Err::<Seq<u8>, HeaderError>(e),
        },
{
    if payload.len() < n as usize + 1 {
        return Err(HeaderError::Truncated);
    }
    let byte = payload[0];
    let expected_byte = RLP_STR_OFFSET + n;
    if byte != expected_byte {
        return Err(HeaderError::UnexpectedFieldHeader { expected: expected_byte, found: byte });
    }
    Ok(&payload[n as usize + 1..payload.len()])
}

/// Something that holds an RLP-encoded list.
pub trait RLPListInspector: Sized {
    /// The encoded bytes.
    spec fn encoded_bytes(&self) -> Seq<u8>;

    /// Where the payload of the list starts.
    spec fn payload_start(&self) -> int;

    /// Where the payload of the list starts.
    fn payload_offset(&self) -> (offset: usize)
        ensures
            offset == self.payload_start(),
    ;

    /// The encoded bytes.
    fn encoded(&self) -> (bytes: &[u8])
        ensures
            bytes@ == self.encoded_bytes(),
    ;
}

/// Reads the fixed field `k`, which has `N` bytes.
fn fixed_field_ref<I: RLPListInspector, const N: usize>(inspector: &I, k: usize) -> (field: &[u8;
    N])
    requires
        k < 6,
        N == field_width(k as int),
        field_in_range(inspector.encoded_bytes(), inspector.payload_start(), k as int),
    ensures
        field@ == field_of(inspector.encoded_bytes(), inspector.payload_start(), k as int),
{
    proof {
        reveal_with_fuel(field_offset, 7);
    }
    let at: usize = if k < 3 {
        33 * k
    } else {
        33 * k - 12
    };
    assert(at == field_offset(k as int));
    let bytes = inspector.encoded();
    let total = bytes.len();
    let start = inspector.payload_offset() + at + 1;
    array_ref::<N>(&bytes[start..start + N])
}

/// An encoded header whose parent hash is in place.
pub trait ParentHashInspector: RLPListInspector {
    /// Checks the fields up to the parent hash.
    fn validate_field<'a>(payload: &'a [u8]) -> (rest: Result<&'a [u8], HeaderError>)
        ensures
            match rest {
                Ok(r) => small_fixed_fields(payload@, 1) == Ok::<Seq<u8>, HeaderError>(r@),
                Err(e) => small_fixed_fields(payload@, 1) == Err::<Seq<u8>, HeaderError>(e),
            },
    {
        proof {
            reveal_with_fuel(small_fixed_fields, 2);
        }
        validate_small_fixed_field(payload, 32)
    }

    /// The parent hash.
    fn parent_hash(&self) -> (hash: &[u8; 32])
        requires
            field_in_range(self.encoded_bytes(), self.payload_start(), 0),
        ensures
            hash@ == field_of(self.encoded_bytes(), self.payload_start(), 0),
    {
        fixed_field_ref::<Self, 32>(self, 0)
    }
}

/// An encoded header whose fields up to the ommers hash are in place.
pub trait OmmersHashInspector: ParentHashInspector {
    /// Checks the fields up to the ommers hash.
    fn validate_ommers_hash<'a>(payload: &'a [u8]) -> (rest: Result<&'a [u8], HeaderError>)
        ensures
            match rest {
                Ok(r) => small_fixed_fields(payload@, 2) == Ok::<Seq<u8>, HeaderError>(r@),
                Err(e) => small_fixed_fields(payload@, 2) == Err::<Seq<u8>, HeaderError>(e),
            },
    {
        match Self::validate_field(payload) {
            Ok(rest) => validate_small_fixed_field(rest, 32),
            Err(e) => Err(e),
        }
    }

    /// The ommers hash.
    fn ommers_hash(&self) -> (hash: &[u8; 32])
        requires
            field_in_range(self.encoded_bytes(), self.payload_start(), 1),
        ensures
            hash@ == field_of(self.encoded_bytes(), self.payload_start(), 1),
    {
        fixed_field_ref::<Self, 32>(self, 1)
    }
}

impl<I: ParentHashInspector> OmmersHashInspector for I {

}

/// An encoded header whose fields up to the beneficiary are in place.
pub trait BeneficiaryInspector: OmmersHashInspector {
    /// Checks the fields up to the beneficiary.
    fn validate_beneficiary<'a>(payload: &'a [u8]) -> (rest: Result<&'a [u8], HeaderError>)
        ensures
            match rest {
                Ok(r) => small_fixed_fields(payload@, 3) == Ok::<Seq<u8>, HeaderError>(r@),
                Err(e) => small_fixed_fields(payload@, 3) == Err::<Seq<u8>, HeaderError>(e),
            },
    {
        match Self::validate_ommers_hash(payload) {
            Ok(rest) => validate_small_fixed_field(rest, 20),
            Err(e) => Err(e),
        }
    }

    /// The beneficiary.
    fn beneficiary(&self) -> (address: &[u8; 20])
        requires
            field_in_range(self.encoded_bytes(), self.payload_start(), 2),
        ensures
            address@ == field_of(self.encoded_bytes(), self.payload_start(), 2),
    {
        fixed_field_ref::<Self, 20>(self, 2)
    }
}

impl<I: OmmersHashInspector> BeneficiaryInspector for I {

}

/// An encoded header whose fields up to the state root are in place.
pub trait StateRootInspector: BeneficiaryInspector {
    /// Checks the fields up to the state root.
    fn validate_state_root<'a>(payload: &'a [u8]) -> (rest: Result<&'a [u8], HeaderError>)
        ensures
            match rest {
                Ok(r) => small_fixed_fields(payload@, 4) == Ok::<Seq<u8>, HeaderError>(r@),
                Err(e) => small_fixed_fields(payload@, 4) == Err::<Seq<u8>, HeaderError>(e),
            },
    {
        match Self::validate_beneficiary(payload) {
            Ok(rest) => validate_small_fixed_field(rest, 32),
            Err(e) => Err(e),
        }
    }

    /// The state root.
    fn state_root(&self) -> (root: &[u8; 32])
        requires
            field_in_range(self.encoded_bytes(), self.payload_start(), 3),
        ensures
            root@ == field_of(self.encoded_bytes(), self.payload_start(), 3),
    {
        fixed_field_ref::<Self, 32>(self, 3)
    }
}

impl<I: BeneficiaryInspector> StateRootInspector for I {

}

/// An encoded header whose fields up to the transactions root are in place.
pub trait TransactionRootInspector: StateRootInspector {
    /// Checks the fields up to the transactions root.
    fn validate_transaction_root<'a>(payload: &'a [u8]) -> (rest: Result<&'a [u8], HeaderError>)
        ensures
            match rest {
                Ok(r) => small_fixed_fields(payload@, 5) == Ok::<Seq<u8>, HeaderError>(r@),
                Err(e) => small_fixed_fields(payload@, 5) == Err::<Seq<u8>, HeaderError>(e),
            },
    {
        match Self::validate_state_root(payload) {
            Ok(rest) => validate_small_fixed_field(rest, 32),
            Err(e) => Err(e),
        }
    }

    /// The transactions root.
    fn transaction_root(&self) -> (root: &[u8; 32])
        requires
            field_in_range(self.encoded_bytes(), self.payload_start(), 4),
        ensures
            root@ == field_of(self.encoded_bytes(), self.payload_start(), 4),
    {
        fixed_field_ref::<Self, 32>(self, 4)
    }
}

impl<I: StateRootInspector> TransactionRootInspector for I {

}

/// An encoded header whose fields up to the receipts root are in place.
pub trait ReceiptsRootInspector: TransactionRootInspector {
    /// Checks the fields up to the receipts root.
    fn validate_receipts_root<'a>(payload: &'a [u8]) -> (rest: Result<&'a [u8], HeaderError>)
        ensures
            match rest {
                Ok(r) => small_fixed_fields(payload@, 6) == Ok::<Seq<u8>, HeaderError>(r@),
                Err(e) => small_fixed_fields(payload@, 6) == Err::<Seq<u8>, HeaderError>(e),
            },
    {
        match Self::validate_transaction_root(payload) {
            Ok(rest) => validate_small_fixed_field(rest, 32),
            Err(e) => Err(e),
        }
    }

    /// The receipts root.
    fn receipts_root(&self) -> (root: &[u8; 32])
        requires
            field_in_range(self.encoded_bytes(), self.payload_start(), 5),
        ensures
            root@ == field_of(self.encoded_bytes(), self.payload_start(), 5),
    {
        fixed_field_ref::<Self, 32>(self, 5)
    }
}

impl<I: TransactionRootInspector> ReceiptsRootInspector for I {

}

impl<'a> RLPListInspector for EncodedHeaderLens<'a> {
    open spec fn encoded_bytes(&self) -> Seq<u8> {
        self@
    }

    open spec fn payload_start(&self) -> int {
        EncodedHeaderLens::payload_start(self)
    }

    fn payload_offset(&self) -> (offset: usize) {
        self.payload_start_offset()
    }

    fn encoded(&self) -> (bytes: &[u8]) {
        self.as_slice()
    }
}

impl<'a> ParentHashInspector for EncodedHeaderLens<'a> {

}

} // verus!
