//! The part of the recursive-length-prefix encoding that the crate needs:
//! string and list headers, and the lengths that go with them.

use vstd::prelude::*;
use crate::bytes::be_value;
use crate::keccak::{absorb, lemma_absorb_concat, lemma_absorb_empty, Keccak256};

verus! {

/// Head byte of an empty string; a string of up to 55 bytes has this plus its
/// length as its header.
pub const RLP_STR_OFFSET: u8 = 0x80;

/// Head byte of an empty list.
pub const RLP_LIST_OFFSET: u8 = 0xc0;

/// Longest payload whose length is packed into the head byte.
pub const RLP_MAX_PACKED_LEN: u8 = 55;

/// Number of bytes in the shortest big-endian form of `n` (none for zero).
pub open spec fn be_len(n: nat) -> nat
    decreases n,
{
    if n == 0 {
        0
    } else {
        1 + be_len(n / 256)
    }
}

/// The shortest big-endian form of `n`.
pub open spec fn be_bytes(n: nat) -> Seq<u8>
    decreases n,
{
    if n == 0 {
        Seq::empty()
    } else {
        be_bytes(n / 256).push((n % 256) as u8)
    }
}

/// Length of the header of an item whose payload has `payload_length` bytes.
pub open spec fn length_of_length(payload_length: nat) -> nat {
    if payload_length <= RLP_MAX_PACKED_LEN {
        1
    } else {
        1 + be_len(payload_length)
    }
}

/// Length of an item, header included, whose payload has `payload_length` bytes.
pub open spec fn encoded_length_spec(payload_length: nat) -> nat {
    length_of_length(payload_length) + payload_length
}

/// The header of a string (`offset` 0x80) or a list (`offset` 0xc0) whose
/// payload has `payload_length` bytes.
pub open spec fn rlp_header(offset: u8, payload_length: nat) -> Seq<u8> {
    if payload_length <= RLP_MAX_PACKED_LEN {
        seq![(offset + payload_length) as u8]
    } else {
        seq![(offset + RLP_MAX_PACKED_LEN + be_len(payload_length)) as u8] + be_bytes(
            payload_length,
        )
    }
}

/// `alloy_rlp::length_of_length` gives 1 for a payload of fewer than 56 bytes,
/// and otherwise 1 plus the number of bytes that it takes to write the payload
/// length down.
pub assume_specification[ alloy_rlp::length_of_length ](payload_length: usize) -> (n: usize)
    ensures
        n == length_of_length(payload_length as nat),
;

/// A 64-bit number has at most eight bytes.
pub proof fn lemma_be_len_bound(n: nat)
    requires
        n <= u64::MAX,
    ensures
        be_len(n) <= 8,
        be_bytes(n).len() == be_len(n),
{
    reveal_with_fuel(be_len, 10);
    reveal_with_fuel(be_bytes, 10);
}

/// The value of the shortest big-endian form of a number is the number.
pub proof fn lemma_be_bytes_value(n: nat)
    ensures
        be_value(be_bytes(n)) == n,
        be_bytes(n).len() == be_len(n),
    decreases n,
{
    if n > 0 {
        lemma_be_bytes_value(n / 256);
        assert(be_bytes(n).drop_last() =~= be_bytes(n / 256));
    }
}

/// A header is one byte, or one byte and the length.
pub proof fn lemma_rlp_header_len(offset: u8, payload_length: nat)
    requires
        payload_length <= u64::MAX,
    ensures
        rlp_header(offset, payload_length).len() == length_of_length(payload_length),
{
    lemma_be_len_bound(payload_length);
}

/// Length of an item, header included, whose payload has `payload_length` bytes.
pub fn encoded_length(payload_length: usize) -> (n: usize)
    requires
        payload_length + 9 <= usize::MAX,
    ensures
        n == encoded_length_spec(payload_length as nat),
        payload_length < n <= payload_length + 9,
{
    proof {
        lemma_be_len_bound(payload_length as nat);
    }
    alloy_rlp::length_of_length(payload_length) + payload_length
}

/// Absorbs the shortest big-endian form of `n`.
fn absorb_be_bytes(keccak: &mut Keccak256, n: usize)
    requires
        old(keccak).wf(),
    ensures
        final(keccak).wf(),
        final(keccak)@ == absorb(old(keccak)@, be_bytes(n as nat)),
    decreases n,
{
    if n != 0 {
        absorb_be_bytes(keccak, n / 256);
        let ghost mid = keccak@;
        let low: u8 = (n % 256) as u8;
        let last: [u8; 1] = [low];
        keccak.update(&last);
        proof {
            old(keccak).lemma_view_wf();
            assert(last@ =~= seq![low]);
            assert(be_bytes((n / 256) as nat) + seq![low] =~= be_bytes(n as nat));
            lemma_absorb_concat(old(keccak)@, be_bytes((n / 256) as nat), last@);
        }
    } else {
        proof {
            old(keccak).lemma_view_wf();
            lemma_absorb_empty(old(keccak)@);
        }
    }
}

/// Absorbs the header of an item with the given head-byte offset and payload
/// length.
pub fn encode_header(keccak: &mut Keccak256, offset: u8, payload_length: usize)
    requires
        old(keccak).wf(),
        offset <= RLP_LIST_OFFSET,
    ensures
        final(keccak).wf(),
        final(keccak)@ == absorb(old(keccak)@, rlp_header(offset, payload_length as nat)),
{
    if payload_length <= RLP_MAX_PACKED_LEN as usize {
        let head_byte: u8 = offset + payload_length as u8;
        let head: [u8; 1] = [head_byte];
        keccak.update(&head);
        assert(head@ =~= rlp_header(offset, payload_length as nat));
    } else {
        proof {
            lemma_be_len_bound(payload_length as nat);
        }
        let length_bytes_length: usize = alloy_rlp::length_of_length(payload_length) - 1;
        let head_byte: u8 = offset + RLP_MAX_PACKED_LEN + length_bytes_length as u8;
        let head: [u8; 1] = [head_byte];
        keccak.update(&head);
        absorb_be_bytes(keccak, payload_length);
        proof {
            old(keccak).lemma_view_wf();
            assert(head@ + be_bytes(payload_length as nat) =~= rlp_header(
                offset,
                payload_length as nat,
            ));
            lemma_absorb_concat(old(keccak)@, head@, be_bytes(payload_length as nat));
        }
    }
}

/// Absorbs the header of a list whose payload has `payload_length` bytes.
pub fn encode_list_header(hasher: &mut Keccak256, payload_length: usize)
    requires
        old(hasher).wf(),
    ensures
        final(hasher).wf(),
        final(hasher)@ == absorb(old(hasher)@, rlp_header(RLP_LIST_OFFSET, payload_length as nat)),
{
    encode_header(hasher, RLP_LIST_OFFSET, payload_length)
}

/// Absorbs the header of a string of `payload_length` bytes.
pub fn encode_str_header(hasher: &mut Keccak256, payload_length: usize)
    requires
        old(hasher).wf(),
    ensures
        final(hasher).wf(),
        final(hasher)@ == absorb(old(hasher)@, rlp_header(RLP_STR_OFFSET, payload_length as nat)),
{
    encode_header(hasher, RLP_STR_OFFSET, payload_length)
}

} // verus!
