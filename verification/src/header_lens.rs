//! A lens on an RLP-encoded block header.
//!
//! The lens checks the encoding only as far as it reads it: the list header
//! and the six fixed-size fields from the parent hash to the receipts root.
//! What follows is kept as it is, so a header with fields that were added
//! later still passes.

use vstd::prelude::*;
use crate::bytes::{array_ref, be_value, lemma_pow256_monotonic, pow256};
use crate::reader::Reader;
use crate::rlp::{
    be_bytes, be_len, lemma_be_bytes_value, lemma_be_len_bound, rlp_header, RLP_LIST_OFFSET,
    RLP_MAX_PACKED_LEN, RLP_STR_OFFSET,
};

verus! {

/// Why bytes are not the start of an encoded header.
#[derive(Debug, Clone, Copy, PartialEq, Eq, Structural)]
pub enum HeaderError {
    /// The first byte does not open a list with a length of its own.
    InvalidHead { head: u8 },
    /// A field does not start with the string header of its size.
    UnexpectedFieldHeader { expected: u8, found: u8 },
    /// The bytes end before the header or one of its fields does.
    Truncated,
}

/// Bytes of the six fields that the lens checks, string headers included.
pub const FIXED_FIELDS_LEN: usize = 186;

/// Where the receipts root starts in the payload, after its string header.
pub const RECEIPTS_ROOT_OFFSET: usize = 154;

/// What is left of `payload` after a field of `width` bytes, or why the
/// payload does not start with one.
pub open spec fn fixed_field(payload: Seq<u8>, width: u8) -> Result<Seq<u8>, HeaderError> {
    if payload.len() == 0 {
        Err(HeaderError::Truncated)
    } else if payload[0] != RLP_STR_OFFSET + width {
        Err(
            HeaderError::UnexpectedFieldHeader {
                expected: (RLP_STR_OFFSET + width) as u8,
                found: payload[0],
            },
        )
    } else if payload.len() < width + 1 {
        Err(HeaderError::Truncated)
    } else {
        Ok(payload.skip(width + 1))
    }
}

/// What is left of `payload` after two fields, of `first` and then `second`
/// bytes, or the first error on the way.
pub open spec fn two_fields(payload: Seq<u8>, first: u8, second: u8) -> Result<
    Seq<u8>,
    HeaderError,
> {
    match fixed_field(payload, first) {
        Err(e) => Err(e),
        Ok(rest) => fixed_field(rest, second),
    }
}

/// Whether a header payload starts with the six fields: parent hash (32),
/// ommers hash (32), beneficiary (20), state root (32), transactions root (32)
/// and receipts root (32). The error is that of the first field that fails.
pub open spec fn fixed_fields(payload: Seq<u8>) -> Result<Seq<u8>, HeaderError> {
    match two_fields(payload, 32, 32) {
        Err(e) => Err(e),
        Ok(rest) => match two_fields(rest, 20, 32) {
            Err(e) => Err(e),
            Ok(rest) => two_fields(rest, 32, 32),
        },
    }
}

/// Where the list payload of the header at the front of `bytes` starts.
pub open spec fn payload_offset_of(bytes: Seq<u8>) -> int {
    1 + (bytes[0] - RLP_LIST_OFFSET - RLP_MAX_PACKED_LEN)
}

/// The length that the header at the front of `bytes` declares for itself,
/// list header included.
pub open spec fn declared_len(bytes: Seq<u8>) -> int {
    payload_offset_of(bytes) + be_value(bytes.subrange(1, payload_offset_of(bytes)))
}

/// The length of the encoded header at the front of `bytes`, or why there is
/// none: the head byte must open a long list, the declared length must be
/// there, and the six fixed fields must check.
pub open spec fn parse_header(bytes: Seq<u8>) -> Result<int, HeaderError> {
    if bytes.len() == 0 {
        Err(HeaderError::Truncated)
    } else if bytes[0] <= RLP_LIST_OFFSET + RLP_MAX_PACKED_LEN {
        Err(HeaderError::InvalidHead { head: bytes[0] })
    } else if bytes.len() < payload_offset_of(bytes) || bytes.len() < declared_len(bytes) {
        Err(HeaderError::Truncated)
    } else {
        match fixed_fields(bytes.subrange(payload_offset_of(bytes), declared_len(bytes))) {
            Err(e) => Err(e),
            Ok(_) => Ok(declared_len(bytes)),
        }
    }
}

/// The parent hash in an encoded header.
pub open spec fn parent_hash_of(encoded: Seq<u8>) -> Seq<u8> {
    encoded.subrange(payload_offset_of(encoded) + 1, payload_offset_of(encoded) + 33)
}

/// The receipts root in an encoded header.
pub open spec fn receipts_root_of(encoded: Seq<u8>) -> Seq<u8> {
    encoded.subrange(
        payload_offset_of(encoded) + RECEIPTS_ROOT_OFFSET,
        payload_offset_of(encoded) + FIXED_FIELDS_LEN,
    )
}

/// A payload whose six fields check holds all of them.
pub proof fn lemma_fixed_fields_len(payload: Seq<u8>)
    requires
        fixed_fields(payload) is Ok,
    ensures
        payload.len() >= FIXED_FIELDS_LEN,
{
}

/// Parsing a header looks at the header only: what follows it changes
/// neither the outcome nor what the lens reads.
pub proof fn lemma_parse_header_prefix(header: Seq<u8>, rest: Seq<u8>)
    requires
        parse_header(header) == Ok::<int, HeaderError>(header.len() as int),
    ensures
        parse_header(header + rest) == Ok::<int, HeaderError>(header.len() as int),
        header.len() >= 2,
        (header + rest).take(header.len() as int) == header,
        (header + rest).skip(header.len() as int) == rest,
{
    let all = header + rest;
    let offset = payload_offset_of(header);
    assert(all[0] == header[0]);
    assert(all.subrange(1, offset) =~= header.subrange(1, offset));
    assert(all.subrange(offset, declared_len(header)) =~= header.subrange(
        offset,
        declared_len(header),
    ));
    assert(all.take(header.len() as int) =~= header);
    assert(all.skip(header.len() as int) =~= rest);
}

/// A string of up to 55 bytes as RLP writes it: the length in the head byte,
/// then the bytes.
pub open spec fn short_string(bytes: Seq<u8>) -> Seq<u8> {
    seq![(RLP_STR_OFFSET + bytes.len()) as u8] + bytes
}

/// The start of a header's payload: the six fixed fields as RLP strings.
pub open spec fn fixed_fields_encoding(
    parent_hash: Seq<u8>,
    ommers_hash: Seq<u8>,
    beneficiary: Seq<u8>,
    state_root: Seq<u8>,
    transactions_root: Seq<u8>,
    receipts_root: Seq<u8>,
) -> Seq<u8> {
    short_string(parent_hash) + short_string(ommers_hash) + short_string(beneficiary)
        + short_string(state_root) + short_string(transactions_root) + short_string(receipts_root)
}

/// Round trip: the lens accepts the encoding of a header, whatever follows
/// the six fixed fields, and reads the parent hash and the receipts root that
/// were encoded.
pub proof fn lemma_lens_round_trip(
    parent_hash: Seq<u8>,
    ommers_hash: Seq<u8>,
    beneficiary: Seq<u8>,
    state_root: Seq<u8>,
    transactions_root: Seq<u8>,
    receipts_root: Seq<u8>,
    tail: Seq<u8>,
)
    requires
        parent_hash.len() == 32,
        ommers_hash.len() == 32,
        beneficiary.len() == 20,
        state_root.len() == 32,
        transactions_root.len() == 32,
        receipts_root.len() == 32,
        tail.len() + FIXED_FIELDS_LEN <= u64::MAX,
    ensures
        ({
            let payload = fixed_fields_encoding(
                parent_hash,
                ommers_hash,
                beneficiary,
                state_root,
                transactions_root,
                receipts_root,
            ) + tail;
            let encoded = rlp_header(RLP_LIST_OFFSET, payload.len()) + payload;
            &&& parse_header(encoded) == Ok::<int, HeaderError>(encoded.len() as int)
            &&& parent_hash_of(encoded) == parent_hash
            &&& receipts_root_of(encoded) == receipts_root
        }),
{
    let fields = fixed_fields_encoding(
        parent_hash,
        ommers_hash,
        beneficiary,
        state_root,
        transactions_root,
        receipts_root,
    );
    let payload = fields + tail;
    let n = payload.len();
    let head = rlp_header(RLP_LIST_OFFSET, n);
    let encoded = head + payload;
    lemma_be_len_bound(n);
    lemma_be_bytes_value(n);
    let offset = payload_offset_of(encoded);
    assert(offset == 1 + be_len(n));
    assert(encoded.subrange(1, offset) =~= be_bytes(n));
    assert(declared_len(encoded) == encoded.len());
    let p = encoded.subrange(offset, encoded.len() as int);
    assert(p =~= payload);
    // The six fields, one after the other.
    let r1 = p.skip(33);
    let r2 = r1.skip(33);
    let r3 = r2.skip(21);
    let r4 = r3.skip(33);
    let r5 = r4.skip(33);
    assert(p[0] == 0xa0 && r1[0] == 0xa0 && r2[0] == 0x94 && r3[0] == 0xa0 && r4[0] == 0xa0
        && r5[0] == 0xa0);
    assert(fixed_field(p, 32) == Ok::<Seq<u8>, HeaderError>(r1));
    assert(fixed_field(r1, 32) == Ok::<Seq<u8>, HeaderError>(r2));
    assert(fixed_field(r2, 20) == Ok::<Seq<u8>, HeaderError>(r3));
    assert(fixed_field(r3, 32) == Ok::<Seq<u8>, HeaderError>(r4));
    assert(fixed_field(r4, 32) == Ok::<Seq<u8>, HeaderError>(r5));
    assert(fixed_field(r5, 32) is Ok);
    assert(parent_hash_of(encoded) =~= parent_hash);
    assert(receipts_root_of(encoded) =~= receipts_root);
}

/// The digest that `alloy_primitives::keccak256` gives for `data`: its
/// Keccak-256 hash.
pub uninterp spec fn reference_keccak256(data: Seq<u8>) -> Seq<u8>;

/// Calls `alloy_primitives::keccak256` and hands its 32 bytes on. The contract
/// only names the outcome.
#[verifier::external_body]
fn keccak256_digest(data: &[u8]) -> (hash: [u8; 32])
    ensures
        hash@ == reference_keccak256(data@),
{
    alloy_primitives::keccak256(data).0
}

/// An RLP-encoded header whose first six fields are known to be in place.
#[derive(Debug, Clone)]
pub struct EncodedHeaderLens<'a> {
    encoded: &'a [u8],
    payload_offset: usize,
}

impl<'a> View for EncodedHeaderLens<'a> {
    type V = Seq<u8>;

    /// The whole encoding, list header included.
    closed spec fn view(&self) -> Seq<u8> {
        self.encoded@
    }
}

impl<'a> EncodedHeaderLens<'a> {
    /// The bytes are one encoded header, whole, whose fixed fields check.
    pub closed spec fn wf(&self) -> bool {
        &&& parse_header(self.encoded@) == Ok::<int, HeaderError>(self.encoded@.len() as int)
        &&& self.payload_offset == payload_offset_of(self.encoded@)
    }

    /// A well-formed lens is on bytes that parse as exactly one header.
    pub proof fn lemma_wf(&self)
        requires
            self.wf(),
        ensures
            parse_header(self@) == Ok::<int, HeaderError>(self@.len() as int),
            self@.len() >= payload_offset_of(self@) + FIXED_FIELDS_LEN,
            self.payload_start() == payload_offset_of(self@),
    {
        lemma_fixed_fields_len(
            self.encoded@.subrange(
                payload_offset_of(self.encoded@),
                declared_len(self.encoded@),
            ),
        );
    }

    /// The Keccak-256 hash of the encoded header: the block hash.
    pub fn hash(&self) -> (hash: [u8; 32])
        ensures
            hash@ == reference_keccak256(self@),
    {
        keccak256_digest(self.encoded)
    }

    /// The encoded header.
    pub fn as_slice(&self) -> (encoded: &'a [u8])
        ensures
            encoded@ == self@,
    {
        self.encoded
    }

    /// Where the lens takes the list payload to start.
    pub closed spec fn payload_start(&self) -> int {
        self.payload_offset as int
    }

    /// Where the list payload starts in the encoding.
    pub fn payload_start_offset(&self) -> (offset: usize)
        ensures
            offset == self.payload_start(),
    {
        self.payload_offset
    }

    /// Length of the encoded header.
    pub fn len(&self) -> (n: usize)
        ensures
            n == self@.len(),
    {
        self.encoded.len()
    }

    /// Takes one encoded header off the front of `reader`.
    ///
    /// The result is a lens exactly when `parse_header` accepts the unread
    /// bytes; the reader is then past the header. Otherwise the error is that
    /// of `parse_header` and the reader has not moved.
    pub fn read_from(reader: &mut Reader<'a>) -> (lens: Result<Self, HeaderError>)
        ensures
            match lens {
                Ok(l) => {
                    &&& l.wf()
                    &&& parse_header(old(reader)@) == Ok::<int, HeaderError>(l@.len() as int)
                    &&& l@ == old(reader)@.take(l@.len() as int)
                    &&& final(reader)@ == old(reader)@.skip(l@.len() as int)
                },
                Err(e) => {
                    &&& parse_header(old(reader)@) == Err::<int, HeaderError>(e)
                    &&& final(reader)@ == old(reader)@
                },
            },
    {
        let ghost bytes = reader@;
        if reader.is_empty() {
            return Err(HeaderError::Truncated);
        }
        let head = reader.peek(0);
        let length_bytes: usize = if head > RLP_LIST_OFFSET + RLP_MAX_PACKED_LEN {
            (head - RLP_LIST_OFFSET - RLP_MAX_PACKED_LEN) as usize
        } else {
            return Err(HeaderError::InvalidHead { head });
        };
        let payload_offset = 1 + length_bytes;
        if reader.len() < payload_offset {
            return Err(HeaderError::Truncated);
        }
        let mut length: u64 = 0;
        let mut i: usize = 0;
        while i < length_bytes
            invariant
                i <= length_bytes <= 8,
                payload_offset == 1 + length_bytes,
                payload_offset <= reader@.len(),
                reader@ == bytes,
                length == be_value(bytes.subrange(1, 1 + i)),
                length < pow256(i as nat),
            decreases length_bytes - i,
        {
            proof {
                assert(bytes.subrange(1, 1 + i + 1).drop_last() =~= bytes.subrange(1, 1 + i));
                lemma_pow256_monotonic((i + 1) as nat, 8);
                assert(pow256(8) == 0x1_0000_0000_0000_0000) by {
                    reveal_with_fuel(pow256, 9);
                }
            }
            length = 256 * length + reader.peek(i + 1) as u64;
            i += 1;
        }
        if length > (reader.len() - payload_offset) as u64 {
            return Err(HeaderError::Truncated);
        }
        let total: usize = payload_offset + length as usize;
        let encoded: &'a [u8] = &reader.as_slice()[0..total];
        let ghost payload = bytes.subrange(payload_offset as int, total as int);
        assert(payload_offset == payload_offset_of(bytes));
        assert(total == declared_len(bytes));

        let mut payload_reader = Reader::new(&encoded[payload_offset..total]);
        assert(payload_reader@ =~= payload);
        match Self::validate_small_fixed_field::<32>(&mut payload_reader) {
            Err(e) => {
                return Err(e);
            },
            Ok(()) => {},
        }  // parent_hash
        match Self::validate_small_fixed_field::<32>(&mut payload_reader) {
            Err(e) => {
                return Err(e);
            },
            Ok(()) => {},
        }  // ommers_hash
        match Self::validate_small_fixed_field::<20>(&mut payload_reader) {
            Err(e) => {
                return Err(e);
            },
            Ok(()) => {},
        }  // beneficiary
        match Self::validate_small_fixed_field::<32>(&mut payload_reader) {
            Err(e) => {
                return Err(e);
            },
            Ok(()) => {},
        }  // state_root
        match Self::validate_small_fixed_field::<32>(&mut payload_reader) {
            Err(e) => {
                return Err(e);
            },
            Ok(()) => {},
        }  // transactions_root
        match Self::validate_small_fixed_field::<32>(&mut payload_reader) {
            Err(e) => {
                return Err(e);
            },
            Ok(()) => {},
        }  // receipts_root
        let _ = reader.read_next(total);
        proof {
            assert(encoded@ =~= bytes.take(total as int));
            assert(encoded@.subrange(1, payload_offset as int) =~= bytes.subrange(
                1,
                payload_offset as int,
            ));
            assert(encoded@.subrange(payload_offset as int, total as int) =~= payload);
        }
        Ok(EncodedHeaderLens { encoded, payload_offset })
    }

    /// The parent hash: the first field.
    pub fn parent_hash(&self) -> (hash: &[u8; 32])
        requires
            self.wf(),
        ensures
            hash@ == parent_hash_of(self@),
    {
        proof {
            self.lemma_wf();
        }
        array_ref::<32>(&self.encoded[self.payload_offset + 1..self.payload_offset + 33])
    }

    /// The receipts root: the sixth field.
    pub fn receipts_root(&self) -> (root: &[u8; 32])
        requires
            self.wf(),
        ensures
            root@ == receipts_root_of(self@),
    {
        proof {
            self.lemma_wf();
        }
        array_ref::<32>(
            &self.encoded[self.payload_offset + 33 + 33 + 21 + 33 + 33 + 1..self.payload_offset
                + 33 + 33 + 21 + 33 + 33 + 33],
        )
    }

    /// Checks that the payload goes on with a string of `N` bytes, and moves
    /// past it.
    pub fn validate_small_fixed_field<const N: u8>(payload_reader: &mut Reader) -> (checked:
        Result<(), HeaderError>)
        requires
            N <= RLP_MAX_PACKED_LEN,
        ensures
            match checked {
                Ok(()) => fixed_field(old(payload_reader)@, N) == Ok::<Seq<u8>, HeaderError>(
                    final(payload_reader)@,
                ),
                Err(e) => {
                    &&& fixed_field(old(payload_reader)@, N) == Err::<Seq<u8>, HeaderError>(e)
                    &&& final(payload_reader)@ == old(payload_reader)@
                },
            },
    {
        let expected_byte = RLP_STR_OFFSET + N;
        if payload_reader.is_empty() {
            return Err(HeaderError::Truncated);
        }
        let byte = payload_reader.peek(0);
        if byte != expected_byte {
            return Err(HeaderError::UnexpectedFieldHeader { expected: expected_byte, found: byte });
        }
        if payload_reader.len() < N as usize + 1 {
            return Err(HeaderError::Truncated);
        }
        let _ = payload_reader.read_next(N as usize + 1);
        Ok(())
    }
}

} // verus!
