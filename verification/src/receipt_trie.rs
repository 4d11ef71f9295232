//! Compact proofs that a receipt is in a block's receipts trie.
//!
//! A compact proof is the walk from a trie leaf to the root, written as one
//! byte stream. It starts with the rest of the leaf's key (a nibble count and
//! the packed nibbles). Every further step starts with a control byte: an
//! extension step carries its path like the leaf, a branch step carries a
//! 16-bit map of the children that are present and then the 32-byte hashes of
//! all of them but the one the walk came from.
//!
//! The verifier rebuilds each node's encoding from the step and the hash of
//! the node below, and hashes it. It streams the encoding straight into the
//! sponge and never materializes a node.

use vstd::prelude::*;
use crate::keccak::{
    absorb, hash_from, keccak256, lemma_absorb_concat, lemma_absorb_empty, Keccak256, SpongeState,
};
use crate::bytes::append_bytes;
use crate::reader::Reader;
use crate::rlp::{
    encode_list_header, encode_str_header, encoded_length, encoded_length_spec,
    lemma_rlp_header_len, rlp_header, RLP_LIST_OFFSET, RLP_STR_OFFSET,
};
use crate::trie_path::{path_is_odd, path_nibbles, path_packed, path_valid, TriePath};

verus! {

/// Bit of a path's first byte that tells a leaf from an extension.
pub const PATH_FLAG_MASK: u8 = 0x20;

/// Value of the masked first byte of a leaf path.
pub const LEAF_PATH_FLAG: u8 = 0x20;

/// Value of the masked first byte of an extension path.
pub const EXTENSION_PATH_FLAG: u8 = 0x00;

/// Bit of a path's first byte that is set when the path has an odd number of
/// nibbles; the first nibble then sits in the low half of that byte.
pub const ODD_NIBBLES_FLAG: u8 = 0x10;

/// The low nibble of a byte.
pub const NIBBLE_MASK: u8 = 0xf;

/// Bit of a control byte that tells a branch step from an extension step.
pub const PROOF_PART_TYPE_MASK: u8 = 0x20;

/// Control byte of an extension step.
pub const EXTENSION_NODE_FLAG: u8 = 0x00;

/// Masked control byte of a branch step.
pub const BRANCH_NODE_FLAG: u8 = 0x20;

/// Bit of a branch step's control byte that announces children of other
/// lengths than 0 and 32, written with explicit lengths.
pub const WEIRD_BRANCHES_FLAG: u8 = 0x10;

/// Part of a branch step's control byte that holds the slot the walk came from.
pub const BRANCH_NODE_INDEX_MASK: u8 = 0x0f;

/// Longest receipt encoding whose leaf node has a length that fits in `usize`.
pub open spec fn max_value_len() -> int {
    usize::MAX - 256
}

/// Why a compact proof gave no root.
#[derive(Debug, Clone, Copy, PartialEq, Eq, Structural)]
pub enum TrieProofError {
    /// The proof ends in the middle of a step.
    Truncated,
    /// The encoded receipt is so long that its leaf's length overflows.
    ValueTooLong,
}

/// The 16-bit number that two bytes spell in big-endian order.
pub open spec fn be_u16(hi: u8, lo: u8) -> u16 {
    ((hi as u16) << 8) | (lo as u16)
}

/// The 32-bit number that the first four bytes of `bytes` spell in big-endian
/// order.
pub open spec fn be_u32(bytes: Seq<u8>) -> u32 {
    ((bytes[0] as u32) << 24) | ((bytes[1] as u32) << 16) | ((bytes[2] as u32) << 8) | (
    bytes[3] as u32)
}

/// Number of bits set among the lowest `n` bits of `map`.
pub open spec fn popcount_below(map: u16, n: nat) -> nat
    decreases n,
{
    if n == 0 {
        0
    } else {
        popcount_below(map, (n - 1) as nat) + if map & (1u16 << ((n - 1) as u16)) != 0 {
            1nat
        } else {
            0nat
        }
    }
}

/// Number of bits set in `map`.
pub open spec fn popcount(map: u16) -> nat {
    popcount_below(map, 16)
}

/// No more bits are set than there are.
pub proof fn lemma_popcount_bound(map: u16, n: nat)
    ensures
        popcount_below(map, n) <= n,
    decreases n,
{
    if n > 0 {
        lemma_popcount_bound(map, (n - 1) as nat);
    }
}

/// Bytes that the path descriptor at the front of `proof` takes: the nibble
/// count, the odd nibble if the count is odd, and the packed nibbles.
pub open spec fn path_descriptor_len(proof: Seq<u8>) -> nat {
    (1 + proof[0] % 2 + proof[0] / 2) as nat
}

/// Whether `proof` starts with a whole path descriptor.
pub open spec fn path_node_fits(proof: Seq<u8>) -> bool {
    proof.len() >= 1 && path_descriptor_len(proof) <= proof.len()
}

/// First byte of the hex-prefix key that the path descriptor at the front of
/// `proof` stands for.
pub open spec fn path_first_byte(path_flag: u8, proof: Seq<u8>) -> u8 {
    if proof[0] % 2 == 0 {
        path_flag
    } else {
        path_flag | ODD_NIBBLES_FLAG | (proof[1] & NIBBLE_MASK)
    }
}

/// The encoding of a leaf or extension node: a list of the hex-prefix key,
/// taken from the path descriptor at the front of `proof`, and `value`.
pub open spec fn path_node_preimage(path_flag: u8, proof: Seq<u8>, value: Seq<u8>) -> Seq<u8> {
    let key_bytes = (proof[0] / 2) as nat;
    let odd = (proof[0] % 2) as nat;
    let first_byte = path_first_byte(path_flag, proof);
    let encoded_key_length = encoded_length_spec(key_bytes + 1) - if key_bytes == 0 {
        1nat
    } else {
        0nat
    };
    let payload_length = (encoded_key_length + encoded_length_spec(value.len())) as nat;
    let key_header = if key_bytes >= 1 || first_byte > 0x7f || first_byte == 0 {
        rlp_header(RLP_STR_OFFSET, key_bytes + 1)
    } else {
        Seq::<u8>::empty()
    };
    rlp_header(RLP_LIST_OFFSET, payload_length) + key_header + seq![first_byte] + proof.subrange(
        1 + odd as int,
        1 + odd + key_bytes as int,
    ) + rlp_header(RLP_STR_OFFSET, value.len()) + value
}

/// Child `i` of a branch as it is encoded, if it is not the slot the walk came
/// from, and what is left of `proof` after it. An absent child is the empty
/// string; a present child is read from `proof`, with a four-byte length in
/// front if the branch is `weird`. `None` if `proof` ends too early.
pub open spec fn sibling(map: u16, weird: bool, i: int, proof: Seq<u8>) -> Option<
    (Seq<u8>, Seq<u8>),
> {
    if map & (1u16 << (i as u8)) == 0 {
        Some((rlp_header(RLP_STR_OFFSET, 0), proof))
    } else if weird {
        if proof.len() < 4 || proof.len() - 4 < be_u32(proof) {
            None
        } else {
            let len = be_u32(proof) as int;
            Some(
                (
                    rlp_header(RLP_STR_OFFSET, len as nat) + proof.subrange(4, 4 + len),
                    proof.skip(4 + len),
                ),
            )
        }
    } else {
        if proof.len() < 32 {
            None
        } else {
            Some((rlp_header(RLP_STR_OFFSET, 32) + proof.take(32), proof.skip(32)))
        }
    }
}

/// The encoded children `i..16` of a branch, appended to `acc`, and what is
/// left of `proof` after them. Slot `index` holds the hash that the walk
/// brought along. `None` if `proof` ends too early.
pub open spec fn branch_children(
    map: u16,
    weird: bool,
    index: int,
    root: Seq<u8>,
    i: int,
    acc: Seq<u8>,
    proof: Seq<u8>,
) -> Option<(Seq<u8>, Seq<u8>)>
    decreases 16 - i,
{
    if i >= 16 || i < 0 {
        Some((acc, proof))
    } else if i == index {
        branch_children(
            map,
            weird,
            index,
            root,
            i + 1,
            acc + rlp_header(RLP_STR_OFFSET, 32) + root,
            proof,
        )
    } else {
        match sibling(map, weird, i, proof) {
            None => None,
            Some((child, rest)) => branch_children(
                map,
                weird,
                index,
                root,
                i + 1,
                acc + child,
                rest,
            ),
        }
    }
}

/// The encoding of the branch node that the step at the front of `proof`
/// (after its control byte) describes, and what is left of `proof`. `None` if
/// `proof` ends too early.
pub open spec fn branch_preimage(weird: bool, index: int, root: Seq<u8>, proof: Seq<u8>) -> Option<
    (Seq<u8>, Seq<u8>),
> {
    if proof.len() < 2 || (weird && proof.len() < 6) {
        None
    } else {
        let map = be_u16(proof[0], proof[1]);
        let payload_length = if weird {
            be_u32(proof.skip(2)) as nat
        } else {
            popcount(map) * 32 + 17
        };
        let children_at: int = if weird {
            6
        } else {
            2
        };
        match branch_children(
            map,
            weird,
            index,
            root,
            0,
            Seq::<u8>::empty(),
            proof.skip(children_at),
        ) {
            None => None,
            Some((children, rest)) => Some(
                (
                    rlp_header(RLP_LIST_OFFSET, payload_length) + children + rlp_header(
                        RLP_STR_OFFSET,
                        0,
                    ),
                    rest,
                ),
            ),
        }
    }
}

/// Reading children only shortens the proof.
pub proof fn lemma_branch_children_rest(
    map: u16,
    weird: bool,
    index: int,
    root: Seq<u8>,
    i: int,
    acc: Seq<u8>,
    proof: Seq<u8>,
)
    ensures
        branch_children(map, weird, index, root, i, acc, proof) matches Some((_, rest))
            ==> rest.len() <= proof.len(),
    decreases 16 - i,
{
    if i >= 16 || i < 0 {
    } else if i == index {
        lemma_branch_children_rest(
            map,
            weird,
            index,
            root,
            i + 1,
            acc + rlp_header(RLP_STR_OFFSET, 32) + root,
            proof,
        );
    } else {
        match sibling(map, weird, i, proof) {
            None => {},
            Some((child, rest)) => {
                lemma_branch_children_rest(map, weird, index, root, i + 1, acc + child, rest);
            },
        }
    }
}

/// A branch step only shortens the proof.
pub proof fn lemma_branch_preimage_rest(weird: bool, index: int, root: Seq<u8>, proof: Seq<u8>)
    ensures
        branch_preimage(weird, index, root, proof) matches Some((_, rest)) ==> rest.len()
            <= proof.len(),
{
    if proof.len() < 2 || (weird && proof.len() < 6) {
    } else {
        let children_at: int = if weird {
            6
        } else {
            2
        };
        lemma_branch_children_rest(
            be_u16(proof[0], proof[1]),
            weird,
            index,
            root,
            0,
            Seq::<u8>::empty(),
            proof.skip(children_at),
        );
    }
}

/// The root that the steps in `proof` lead to from the node hash `root`:
/// `root` itself when no step is left. `None` if `proof` ends in the middle of
/// a step.
pub open spec fn proof_steps(root: Seq<u8>, proof: Seq<u8>) -> Option<Seq<u8>>
    decreases proof.len(),
{
    if proof.len() == 0 {
        Some(root)
    } else {
        let control = proof[0];
        let rest = proof.skip(1);
        if control & PROOF_PART_TYPE_MASK == BRANCH_NODE_FLAG {
            let weird = control & WEIRD_BRANCHES_FLAG != 0;
            let index = (control & BRANCH_NODE_INDEX_MASK) as int;
            match branch_preimage(weird, index, root, rest) {
                None => None,
                Some((preimage, after)) => {
                    proof {
                        lemma_branch_preimage_rest(weird, index, root, rest);
                    }
                    proof_steps(keccak256(preimage), after)
                },
            }
        } else {
            if !path_node_fits(rest) {
                None
            } else {
                proof_steps(
                    keccak256(path_node_preimage(EXTENSION_PATH_FLAG, rest, root)),
                    rest.skip(path_descriptor_len(rest) as int),
                )
            }
        }
    }
}

/// The trie root that a compact proof leads to from an encoded receipt, on a
/// sponge that starts in state `s`. `None` if the proof ends in the middle of a
/// step.
pub open spec fn trie_root_from(s: SpongeState, proof: Seq<u8>, encoded_receipt: Seq<u8>) -> Option<
    Seq<u8>,
> {
    if !path_node_fits(proof) {
        None
    } else {
        proof_steps(
            hash_from(s, path_node_preimage(LEAF_PATH_FLAG, proof, encoded_receipt)),
            proof.skip(path_descriptor_len(proof) as int),
        )
    }
}

/// The trie root that a compact proof leads to from an encoded receipt.
pub open spec fn trie_root(proof: Seq<u8>, encoded_receipt: Seq<u8>) -> Option<Seq<u8>> {
    trie_root_from(SpongeState::initial(), proof, encoded_receipt)
}

/// Bytes that the first `n` children of a branch take in its encoding, where
/// the branch has hashes in the slots that `map` marks and in slot `index`:
/// 33 for a hash and 1 for an absent child.
pub open spec fn children_len_below(map: u16, index: int, n: nat) -> nat
    decreases n,
{
    if n == 0 {
        0
    } else {
        children_len_below(map, index, (n - 1) as nat) + if n - 1 == index || map & (1u16 << ((n
            - 1) as u8)) != 0 {
            33nat
        } else {
            1nat
        }
    }
}

/// With the slot the walk came from marked in the map, the children of a
/// branch take 32 bytes for each marked slot and one byte for each of the 16
/// slots.
pub proof fn lemma_children_len(map: u16, index: int, n: nat)
    requires
        0 <= index < 16,
        n <= 16,
        map & (1u16 << (index as u8)) != 0,
    ensures
        children_len_below(map, index, n) == n + 32 * popcount_below(map, n),
    decreases n,
{
    if n > 0 {
        lemma_children_len(map, index, (n - 1) as nat);
        let i = (n - 1) as u8;
        assert((1u16 << i) == (1u16 << (i as u16))) by (bit_vector)
            requires
                i < 16,
        ;
    }
}

/// The children that the verifier reads for a plain branch take as many bytes
/// as `children_len_below` counts.
pub proof fn lemma_branch_children_len(
    map: u16,
    index: int,
    root: Seq<u8>,
    i: int,
    acc: Seq<u8>,
    proof: Seq<u8>,
)
    requires
        0 <= i <= 16,
        root.len() == 32,
    ensures
        branch_children(map, false, index, root, i, acc, proof) matches Some((children, _))
            ==> children.len() + children_len_below(map, index, i as nat) == acc.len()
            + children_len_below(map, index, 16),
    decreases 16 - i,
{
    if i < 16 {
        assert(children_len_below(map, index, (i + 1) as nat) == children_len_below(
            map,
            index,
            i as nat,
        ) + if i == index || map & (1u16 << (i as u8)) != 0 {
            33nat
        } else {
            1nat
        });
        if i == index {
            lemma_branch_children_len(
                map,
                index,
                root,
                i + 1,
                acc + rlp_header(RLP_STR_OFFSET, 32) + root,
                proof,
            );
        } else {
            match sibling(map, false, i, proof) {
                None => {},
                Some((child, rest)) => {
                    lemma_branch_children_len(map, index, root, i + 1, acc + child, rest);
                },
            }
        }
    }
}

/// A plain branch step whose map marks the slot the walk came from gives a
/// well-formed node: the payload length in its list header, 32 bytes for each
/// marked slot and 17 more, is the length of what follows the header.
pub proof fn lemma_branch_payload_length(index: int, root: Seq<u8>, proof: Seq<u8>)
    requires
        0 <= index < 16,
        root.len() == 32,
        proof.len() >= 2,
        be_u16(proof[0], proof[1]) & (1u16 << (index as u8)) != 0,
    ensures
        branch_preimage(false, index, root, proof) matches Some((preimage, _)) ==> {
            let payload_length = popcount(be_u16(proof[0], proof[1])) * 32 + 17;
            &&& preimage.len() == rlp_header(RLP_LIST_OFFSET, payload_length).len()
                + payload_length
            &&& preimage.subrange(0, rlp_header(RLP_LIST_OFFSET, payload_length).len() as int)
                == rlp_header(RLP_LIST_OFFSET, payload_length)
        },
{
    let map = be_u16(proof[0], proof[1]);
    lemma_branch_children_len(map, index, root, 0, Seq::<u8>::empty(), proof.skip(2));
    lemma_children_len(map, index, 16);
    let payload_length = popcount(map) * 32 + 17;
    match branch_preimage(false, index, root, proof) {
        Some((preimage, _)) => {
            let head = rlp_header(RLP_LIST_OFFSET, payload_length);
            assert(preimage.subrange(0, head.len() as int) =~= head);
        },
        None => {},
    }
}

/// Counts the bits that are set in `map`.
pub fn count_ones(map: u16) -> (count: u32)
    ensures
        count == popcount(map),
        count <= 16,
{
    let mut count: u32 = 0;
    let mut i: u16 = 0;
    while i < 16
        invariant
            i <= 16,
            count == popcount_below(map, i as nat),
            count <= i,
        decreases 16 - i,
    {
        if map & (1u16 << i) != 0 {
            count += 1;
        }
        i += 1;
    }
    count
}

/// Reads a big-endian 32-bit number.
fn read_be_u32(proof: &mut Reader) -> (value: u32)
    requires
        old(proof)@.len() >= 4,
    ensures
        value == be_u32(old(proof)@),
        final(proof)@ == old(proof)@.skip(4),
{
    let b0 = proof.read_byte();
    let b1 = proof.read_byte();
    let b2 = proof.read_byte();
    let b3 = proof.read_byte();
    assert(proof@ =~= old(proof)@.skip(4));
    ((b0 as u32) << 24) | ((b1 as u32) << 16) | ((b2 as u32) << 8) | (b3 as u32)
}

/// Hashes a leaf or extension node whose path is described at the front of
/// `proof` and whose second item is `encoded_internal_node`. With a path that
/// is not whole nothing is read or absorbed.
fn hash_node_with_path(
    keccak: &mut Keccak256,
    proof: &mut Reader,
    path_flag: u8,
    encoded_internal_node: &[u8],
) -> (hash: Option<[u8; 32]>)
    requires
        old(keccak).wf(),
        path_flag == LEAF_PATH_FLAG || path_flag == EXTENSION_PATH_FLAG,
        encoded_internal_node@.len() <= max_value_len(),
    ensures
        final(keccak).wf(),
        match hash {
            Some(h) => {
                &&& path_node_fits(old(proof)@)
                &&& h@ == hash_from(
                    old(keccak)@,
                    path_node_preimage(path_flag, old(proof)@, encoded_internal_node@),
                )
                &&& final(proof)@ == old(proof)@.skip(path_descriptor_len(old(proof)@) as int)
                &&& final(keccak)@ == SpongeState::initial()
            },
            None => {
                &&& !path_node_fits(old(proof)@)
                &&& final(proof)@ == old(proof)@
                &&& final(keccak)@ == old(keccak)@
            },
        },
{
    if proof.is_empty() {
        return None;
    }
    // Determine length of encoded key.
    let leaf_key_nibbles = proof.peek(0);
    let key_bytes: usize = (leaf_key_nibbles / 2) as usize;
    let odd = leaf_key_nibbles % 2 != 0;
    let descriptor_len: usize = 1 + (if odd {
        1usize
    } else {
        0usize
    }) + key_bytes;
    if proof.len() < descriptor_len {
        return None;
    }
    let ghost s0 = keccak@;
    let ghost p0 = proof@;
    let ghost value = encoded_internal_node@;
    proof {
        keccak.lemma_view_wf();
        lemma_absorb_empty(s0);
    }
    let _ = proof.read_byte();
    let encoded_key_length = encoded_length(key_bytes + 1) - (if key_bytes == 0 {
        1usize
    } else {
        0usize
    });
    let encoded_node_length = encoded_length(encoded_internal_node.len());

    // Push head.
    let rlp_list_payload_length = encoded_key_length + encoded_node_length;
    encode_list_header(keccak, rlp_list_payload_length);
    let ghost mut pre = rlp_header(RLP_LIST_OFFSET, rlp_list_payload_length as nat);

    // Push key.
    let first_byte = if !odd {
        path_flag
    } else {
        let odd_nibble = proof.read_byte() & NIBBLE_MASK;
        path_flag | ODD_NIBBLES_FLAG | odd_nibble
    };
    assert(first_byte == path_first_byte(path_flag, p0));
    if key_bytes >= 1 || first_byte > 0x7f || first_byte == 0 {
        encode_str_header(keccak, key_bytes + 1);
        proof {
            let added = rlp_header(RLP_STR_OFFSET, (key_bytes + 1) as nat);
            lemma_absorb_concat(s0, pre, added);
            pre = pre + added;
        }
    }
    let first: [u8; 1] = [first_byte];
    keccak.update(&first);
    proof {
        lemma_absorb_concat(s0, pre, first@);
        pre = pre + first@;
    }
    let path = proof.read_next(key_bytes);
    keccak.update(path);
    proof {
        lemma_absorb_concat(s0, pre, path@);
        pre = pre + path@;
    }

    // Push the second item.
    encode_str_header(keccak, encoded_internal_node.len());
    proof {
        let added = rlp_header(RLP_STR_OFFSET, value.len());
        lemma_absorb_concat(s0, pre, added);
        pre = pre + added;
    }
    keccak.update(encoded_internal_node);
    proof {
        lemma_absorb_concat(s0, pre, value);
        pre = pre + value;
        assert(first@ =~= seq![first_byte]);
        let odd_len: int = if odd {
            1
        } else {
            0
        };
        assert(path@ =~= p0.subrange(1 + odd_len, 1 + odd_len + key_bytes));
        assert(pre =~= path_node_preimage(path_flag, p0, value));
        assert(proof@ =~= p0.skip(path_descriptor_len(p0) as int));
    }
    let mut hash = [0u8; 32];
    keccak.finalize_and_reset(&mut hash);
    Some(hash)
}

/// Hashes the leaf whose key rest is described at the front of `proof` and
/// whose value is `encoded_receipt`.
fn hash_leaf(keccak: &mut Keccak256, proof: &mut Reader, encoded_receipt: &[u8]) -> (hash: Option<
    [u8; 32],
>)
    requires
        old(keccak).wf(),
        encoded_receipt@.len() <= max_value_len(),
    ensures
        final(keccak).wf(),
        match hash {
            Some(h) => {
                &&& path_node_fits(old(proof)@)
                &&& h@ == hash_from(
                    old(keccak)@,
                    path_node_preimage(LEAF_PATH_FLAG, old(proof)@, encoded_receipt@),
                )
                &&& final(proof)@ == old(proof)@.skip(path_descriptor_len(old(proof)@) as int)
                &&& final(keccak)@ == SpongeState::initial()
            },
            None => {
                &&& !path_node_fits(old(proof)@)
                &&& final(proof)@ == old(proof)@
                &&& final(keccak)@ == old(keccak)@
            },
        },
{
    hash_node_with_path(keccak, proof, LEAF_PATH_FLAG, encoded_receipt)
}

/// Hashes the extension node whose path is described at the front of `proof`
/// and whose child has the hash `child`.
fn hash_extension(keccak: &mut Keccak256, proof: &mut Reader, child: &[u8]) -> (hash: Option<
    [u8; 32],
>)
    requires
        old(keccak).wf(),
        child@.len() <= max_value_len(),
    ensures
        final(keccak).wf(),
        match hash {
            Some(h) => {
                &&& path_node_fits(old(proof)@)
                &&& h@ == hash_from(
                    old(keccak)@,
                    path_node_preimage(EXTENSION_PATH_FLAG, old(proof)@, child@),
                )
                &&& final(proof)@ == old(proof)@.skip(path_descriptor_len(old(proof)@) as int)
                &&& final(keccak)@ == SpongeState::initial()
            },
            None => {
                &&& !path_node_fits(old(proof)@)
                &&& final(proof)@ == old(proof)@
                &&& final(keccak)@ == old(keccak)@
            },
        },
{
    hash_node_with_path(keccak, proof, EXTENSION_PATH_FLAG, child)
}

/// Absorbs child `i` of a branch, reading it from `proof` if it is present.
/// Gives `false`, with nothing absorbed, if `proof` ends too early.
fn add_sibling(
    keccak: &mut Keccak256,
    proof: &mut Reader,
    branch_map: u16,
    weird_branches: bool,
    i: u8,
) -> (whole: bool)
    requires
        old(keccak).wf(),
        i < 16,
    ensures
        final(keccak).wf(),
        match sibling(branch_map, weird_branches, i as int, old(proof)@) {
            Some((child, rest)) => whole && final(keccak)@ == absorb(old(keccak)@, child)
                && final(proof)@ == rest,
            None => !whole && final(keccak)@ == old(keccak)@,
        },
        final(proof)@.len() <= old(proof)@.len(),
{
    let ghost s0 = keccak@;
    let ghost p0 = proof@;
    proof {
        keccak.lemma_view_wf();
    }
    if branch_map & (1u16 << i) == 0 {
        encode_str_header(keccak, 0);
    } else if weird_branches {
        if proof.len() < 4 {
            return false;
        }
        let payload_length: usize = read_be_u32(proof) as usize;
        if proof.len() < payload_length {
            return false;
        }
        encode_str_header(keccak, payload_length);
        let child = proof.read_next(payload_length);
        keccak.update(child);
        proof {
            assert(child@ =~= p0.subrange(4, 4 + payload_length));
            assert(proof@ =~= p0.skip(4 + payload_length));
            lemma_absorb_concat(s0, rlp_header(RLP_STR_OFFSET, payload_length as nat), child@);
        }
    } else {
        if proof.len() < 32 {
            return false;
        }
        encode_str_header(keccak, 32);
        let child = proof.read_next(32);
        keccak.update(child);
        proof {
            lemma_absorb_concat(s0, rlp_header(RLP_STR_OFFSET, 32), child@);
        }
    }
    true
}

/// Computes the hash of the branch node that the step at the front of `proof`
/// describes, with `last_root` in slot `index`. The sponge ends ready for a
/// new message whether or not the step is whole.
fn hash_branch(
    keccak: &mut Keccak256,
    proof: &mut Reader,
    weird_branches: bool,
    index: u8,
    last_root: &[u8],
) -> (hash: Option<[u8; 32]>)
    requires
        old(keccak).wf(),
        index < 16,
    ensures
        final(keccak).wf(),
        final(keccak)@ == SpongeState::initial(),
        final(proof)@.len() <= old(proof)@.len(),
        match hash {
            Some(h) => branch_preimage(weird_branches, index as int, last_root@, old(proof)@)
                matches Some((preimage, rest)) && h@ == hash_from(old(keccak)@, preimage)
                && final(proof)@ == rest,
            None => branch_preimage(weird_branches, index as int, last_root@, old(proof)@)
                is None,
        },
{
    let ghost s0 = keccak@;
    let ghost p0 = proof@;
    let ghost root = last_root@;
    proof {
        keccak.lemma_view_wf();
    }
    if proof.len() < 2 {
        keccak.reset();
        return None;
    }
    let hi = proof.read_byte();
    let lo = proof.read_byte();
    let branch_map: u16 = ((hi as u16) << 8) | (lo as u16);
    assert(proof@ =~= p0.skip(2));

    let payload_length: usize = if weird_branches {
        if proof.len() < 4 {
            keccak.reset();
            return None;
        }
        let length = read_be_u32(proof) as usize;
        assert(proof@ =~= p0.skip(6));
        length
    } else {
        count_ones(branch_map) as usize * 32 + 17
    };
    let ghost children_at = proof@;

    encode_list_header(keccak, payload_length);
    let ghost head = rlp_header(RLP_LIST_OFFSET, payload_length as nat);
    let ghost mut acc = Seq::<u8>::empty();
    assert(head + acc =~= head);

    let mut i: u8 = 0;
    while i < 16
        invariant
            i <= 16,
            index < 16,
            s0.wf(),
            keccak.wf(),
            keccak@ == absorb(s0, head + acc),
            root == last_root@,
            proof@.len() <= children_at.len(),
            p0.len() >= 2,
            weird_branches ==> p0.len() >= 6,
            children_at == p0.skip(
                if weird_branches {
                    6int
                } else {
                    2int
                },
            ),
            branch_map == be_u16(p0[0], p0[1]),
            p0 == old(proof)@,
            s0 == old(keccak)@,
            head == rlp_header(RLP_LIST_OFFSET, payload_length as nat),
            payload_length == if weird_branches {
                be_u32(p0.skip(2)) as nat
            } else {
                popcount(branch_map) * 32 + 17
            },
            branch_children(
                branch_map,
                weird_branches,
                index as int,
                root,
                0,
                Seq::<u8>::empty(),
                children_at,
            ) == branch_children(
                branch_map,
                weird_branches,
                index as int,
                root,
                i as int,
                acc,
                proof@,
            ),
        decreases 16 - i,
    {
        if i == index {
            encode_str_header(keccak, 32);
            keccak.update(last_root);
            proof {
                let hdr = rlp_header(RLP_STR_OFFSET, 32);
                lemma_absorb_concat(s0, head + acc, hdr);
                lemma_absorb_concat(s0, head + acc + hdr, root);
                assert(head + acc + hdr + root =~= head + (acc + hdr + root));
                acc = acc + hdr + root;
            }
        } else {
            let ghost before = proof@;
            let whole = add_sibling(keccak, proof, branch_map, weird_branches, i);
            if !whole {
                keccak.reset();
                return None;
            }
            proof {
                let child = sibling(branch_map, weird_branches, i as int, before).unwrap().0;
                lemma_absorb_concat(s0, head + acc, child);
                assert(head + acc + child =~= head + (acc + child));
                acc = acc + child;
            }
        }
        i += 1;
    }

    // Empty branch node value.
    encode_str_header(keccak, 0);
    proof {
        let tail = rlp_header(RLP_STR_OFFSET, 0);
        lemma_absorb_concat(s0, head + acc, tail);
    }
    let mut node_hash = [0u8; 32];
    keccak.finalize_and_reset(&mut node_hash);
    Some(node_hash)
}

/// Computes the receipts-trie root that `proof` leads to from
/// `encoded_receipt`, the EIP-2718 encoding of the receipt in the leaf.
///
/// The root is that of `trie_root_from`, hashed node by node from the leaf up.
/// It is `Truncated` exactly when the proof ends in the middle of a step. On a
/// sponge that is ready for a new message the first hash is a plain
/// Keccak-256 too; the sponge is ready again afterwards in every case.
pub fn receipt_trie_root_from_proof(
    keccak: &mut Keccak256,
    proof: &[u8],
    encoded_receipt: &[u8],
) -> (root: Result<[u8; 32], TrieProofError>)
    requires
        old(keccak).wf(),
    ensures
        final(keccak).wf(),
        final(keccak)@ == SpongeState::initial(),
        match root {
            Ok(r) => encoded_receipt@.len() <= max_value_len() && trie_root_from(
                old(keccak)@,
                proof@,
                encoded_receipt@,
            ) == Some(r@),
            Err(TrieProofError::ValueTooLong) => encoded_receipt@.len() > max_value_len(),
            Err(TrieProofError::Truncated) => encoded_receipt@.len() <= max_value_len()
                && trie_root_from(old(keccak)@, proof@, encoded_receipt@) is None,
        },
{
    if encoded_receipt.len() > usize::MAX - 256 {
        keccak.reset();
        return Err(TrieProofError::ValueTooLong);
    }
    let ghost s0 = keccak@;
    let mut steps = Reader::new(proof);
    let mut current_root = match hash_leaf(keccak, &mut steps, encoded_receipt) {
        Some(hash) => hash,
        None => {
            keccak.reset();
            return Err(TrieProofError::Truncated);
        },
    };

    while !steps.is_empty()
        invariant
            keccak.wf(),
            keccak@ == SpongeState::initial(),
            s0 == old(keccak)@,
            encoded_receipt@.len() <= max_value_len(),
            trie_root_from(s0, proof@, encoded_receipt@) == proof_steps(current_root@, steps@),
        decreases steps@.len(),
    {
        let control_byte = steps.read_byte();
        if control_byte & PROOF_PART_TYPE_MASK == BRANCH_NODE_FLAG {
            let index = control_byte & BRANCH_NODE_INDEX_MASK;
            assert(control_byte & 0x0f < 16) by (bit_vector);
            let weird = control_byte & WEIRD_BRANCHES_FLAG != 0;
            current_root = match hash_branch(keccak, &mut steps, weird, index, &current_root) {
                Some(hash) => hash,
                None => {
                    return Err(TrieProofError::Truncated);
                },
            };
        } else {
            current_root = match hash_extension(keccak, &mut steps, &current_root) {
                Some(hash) => hash,
                None => {
                    return Err(TrieProofError::Truncated);
                },
            };
        }
    }

    Ok(current_root)
}

/// The start of a compact proof: the nibble count of the leaf's path and the
/// packed nibbles.
pub open spec fn leaf_descriptor(path: Seq<u8>) -> Seq<u8> {
    seq![path_nibbles(path) as u8] + path_packed(path)
}

/// An extension step: the control byte, the nibble count and the packed
/// nibbles.
pub open spec fn extension_step(path: Seq<u8>) -> Seq<u8> {
    seq![EXTENSION_NODE_FLAG, path_nibbles(path) as u8] + path_packed(path)
}

/// What a list of byte strings holds.
pub open spec fn strings_view(list: Seq<Vec<u8>>) -> Seq<Seq<u8>> {
    list.map_values(|s: Vec<u8>| s@)
}

/// The map of the first `n` children of a branch: bit `i` is set when child
/// `i` is a 32-byte hash.
pub open spec fn branch_map_below(nodes: Seq<Seq<u8>>, n: int) -> u16
    decreases n,
{
    if n <= 0 {
        0
    } else if nodes[n - 1].len() == 32 {
        branch_map_below(nodes, n - 1) | (1u16 << ((n - 1) as usize))
    } else {
        branch_map_below(nodes, n - 1)
    }
}

/// The hashes among the first `n` children of a branch, but for the one in
/// slot `index`, one after the other.
pub open spec fn siblings_below(nodes: Seq<Seq<u8>>, index: int, n: int) -> Seq<u8>
    decreases n,
{
    if n <= 0 {
        Seq::empty()
    } else if n - 1 != index && nodes[n - 1].len() == 32 {
        siblings_below(nodes, index, n - 1) + nodes[n - 1]
    } else {
        siblings_below(nodes, index, n - 1)
    }
}

/// A branch step: the control byte with the slot the walk came from, the map
/// of the children in big-endian order, and the sibling hashes.
pub open spec fn branch_step(index: u8, nodes: Seq<Seq<u8>>) -> Seq<u8> {
    let map = branch_map_below(nodes, nodes.len() as int);
    seq![BRANCH_NODE_FLAG | index, (map >> 8) as u8, (map & 0xff) as u8] + siblings_below(
        nodes,
        index as int,
        nodes.len() as int,
    )
}

/// Every child is empty or a 32-byte hash, and hashes stand in the sixteen
/// child slots only.
pub open spec fn branch_nodes_supported(nodes: Seq<Seq<u8>>) -> bool {
    forall|i: int|
        0 <= i < nodes.len() ==> (#[trigger] nodes[i]).len() == 0 || (nodes[i].len() == 32 && i
            < 16)
}

/// The RLP encoding of a byte string: a single byte below 0x80 stands for
/// itself, any other string follows its header.
pub open spec fn rlp_string(s: Seq<u8>) -> Seq<u8> {
    if s.len() == 1 && s[0] < 0x80 {
        s
    } else {
        rlp_header(RLP_STR_OFFSET, s.len()) + s
    }
}

/// A hex-prefix path with nothing in its first byte but the flags, the first
/// nibble of an odd path, and `flag` as its kind.
pub open spec fn path_canonical(path: Seq<u8>, flag: u8) -> bool {
    &&& path_valid(path)
    &&& if path_is_odd(path) {
        path[0] & 0xf0 == flag | ODD_NIBBLES_FLAG
    } else {
        path[0] == flag
    }
}

/// What the builder writes for a path, less the control byte of an
/// extension step, the verifier reads back as the node with that path: what it
/// hashes is the RLP list of the path and the value. (An extension path
/// without nibbles belongs to no node and is left out; the value must not be a
/// single byte below 0x80, which no receipt and no hash is.)
pub proof fn lemma_path_node_is_rlp(flag: u8, path: Seq<u8>, value: Seq<u8>, rest: Seq<u8>)
    requires
        flag == LEAF_PATH_FLAG || flag == EXTENSION_PATH_FLAG,
        path_canonical(path, flag),
        path.len() > 1 || path[0] != 0,
        value.len() != 1 || value[0] >= 0x80,
        value.len() <= u64::MAX - 64,
    ensures
        ({
            let proof = leaf_descriptor(path) + rest;
            let items = rlp_string(path) + rlp_string(value);
            &&& path_node_fits(proof)
            &&& proof.skip(path_descriptor_len(proof) as int) == rest
            &&& path_node_preimage(flag, proof, value) == rlp_header(RLP_LIST_OFFSET, items.len())
                + items
        }),
{
    let descriptor = leaf_descriptor(path);
    let proof = descriptor + rest;
    let first = path[0];
    let odd = path_is_odd(path);
    let key_bytes = (path.len() - 1) as nat;
    let nibbles = path_nibbles(path);
    assert(proof[0] == nibbles as u8);
    assert(proof[0] / 2 == key_bytes);
    assert(proof[0] % 2 == if odd {
        1int
    } else {
        0int
    });
    if odd {
        assert(proof[1] == first & NIBBLE_MASK);
        assert(flag | 0x10u8 | ((first & 0x0fu8) & 0x0fu8) == first) by (bit_vector)
            requires
                first & 0xf0u8 == flag | 0x10u8,
        ;
        assert(first < 0x80 && first != 0) by (bit_vector)
            requires
                first & 0xf0u8 == flag | 0x10u8,
                flag == 0x20u8 || flag == 0x00u8,
        ;
    }
    assert(path_first_byte(flag, proof) == first);
    assert(first < 0x80);
    let odd_len: int = if odd {
        1
    } else {
        0
    };
    assert(proof.subrange(1 + odd_len, 1 + odd_len + key_bytes) =~= path.skip(1));
    assert(seq![first] + path.skip(1) =~= path);
    assert(proof.skip(path_descriptor_len(proof) as int) =~= rest);
    lemma_rlp_header_len(RLP_STR_OFFSET, path.len());
    lemma_rlp_header_len(RLP_STR_OFFSET, value.len());
    let items = rlp_string(path) + rlp_string(value);
    let key_header = if key_bytes >= 1 || first > 0x7f || first == 0 {
        rlp_header(RLP_STR_OFFSET, key_bytes + 1)
    } else {
        Seq::<u8>::empty()
    };
    assert(key_header + seq![first] + path.skip(1) =~= rlp_string(path));
    assert(path_node_preimage(flag, proof, value) =~= rlp_header(RLP_LIST_OFFSET, items.len())
        + items);
}

/// The hashes among the children of a branch from slot `i` on, but for the one
/// in slot `index`, one after the other.
pub open spec fn siblings_from(nodes: Seq<Seq<u8>>, index: int, i: int) -> Seq<u8>
    decreases nodes.len() - i,
{
    if i < 0 || i >= nodes.len() {
        Seq::empty()
    } else if i != index && nodes[i].len() == 32 {
        nodes[i] + siblings_from(nodes, index, i + 1)
    } else {
        siblings_from(nodes, index, i + 1)
    }
}

/// The children of a branch from slot `i` on as RLP strings, one after the
/// other.
pub open spec fn children_encoding(children: Seq<Seq<u8>>, i: int) -> Seq<u8>
    decreases children.len() - i,
{
    if i < 0 || i >= children.len() {
        Seq::empty()
    } else {
        rlp_string(children[i]) + children_encoding(children, i + 1)
    }
}

/// The siblings below a slot and those from it on are all the siblings.
pub proof fn lemma_siblings_split(nodes: Seq<Seq<u8>>, index: int, n: int)
    requires
        0 <= n <= nodes.len(),
    ensures
        siblings_below(nodes, index, n) + siblings_from(nodes, index, n) == siblings_below(
            nodes,
            index,
            nodes.len() as int,
        ),
    decreases nodes.len() - n,
{
    if n < nodes.len() {
        lemma_siblings_split(nodes, index, n + 1);
        assert(siblings_below(nodes, index, n + 1) + siblings_from(nodes, index, n + 1)
            =~= siblings_below(nodes, index, n) + siblings_from(nodes, index, n));
    } else {
        assert(siblings_below(nodes, index, n) + siblings_from(nodes, index, n)
            =~= siblings_below(nodes, index, n));
    }
}

/// The map that the builder makes marks exactly the slots with a hash.
pub proof fn lemma_branch_map_bits(nodes: Seq<Seq<u8>>, n: int, i: int)
    requires
        0 <= i < 16,
        0 <= n <= nodes.len(),
        branch_nodes_supported(nodes),
    ensures
        (branch_map_below(nodes, n) & (1u16 << (i as u8)) != 0) == (i < n && nodes[i].len() == 32),
    decreases n,
{
    if n > 0 {
        lemma_branch_map_bits(nodes, n - 1, i);
        let before = branch_map_below(nodes, n - 1);
        if nodes[n - 1].len() == 32 {
            assert(n - 1 < 16);
            let k = (n - 1) as u8;
            let j = i as u8;
            let bit = 1u16 << ((n - 1) as usize);
            assert(bit == 1u16 << k) by (bit_vector)
                requires
                    bit == 1u16 << (k as usize),
                    k < 16,
            ;
            assert(((before | (1u16 << k)) & (1u16 << j) != 0) == ((before & (1u16 << j) != 0)
                || j == k)) by (bit_vector)
                requires
                    k < 16,
                    j < 16,
            ;
        }
    } else {
        let j = i as u8;
        assert(0u16 & (1u16 << j) == 0) by (bit_vector);
    }
}

/// What the verifier reads from the siblings that the builder wrote: the
/// children from slot `i` on as RLP strings, with `root` in the slot the walk
/// came from.
pub proof fn lemma_branch_children_round_trip(
    nodes: Seq<Seq<u8>>,
    index: int,
    root: Seq<u8>,
    i: int,
    acc: Seq<u8>,
    rest: Seq<u8>,
)
    requires
        nodes.len() == 17,
        branch_nodes_supported(nodes),
        0 <= index < 16,
        0 <= i <= 16,
        root.len() == 32,
    ensures
        branch_children(
            branch_map_below(nodes, 17),
            false,
            index,
            root,
            i,
            acc,
            siblings_from(nodes, index, i) + rest,
        ) == Some(
            (acc + children_encoding(nodes.update(index, root).take(16), i), rest),
        ),
    decreases 16 - i,
{
    let map = branch_map_below(nodes, 17);
    let children = nodes.update(index, root).take(16);
    let proof = siblings_from(nodes, index, i) + rest;
    let goal = Some((acc + children_encoding(children, i), rest));
    if i < 16 {
        lemma_branch_map_bits(nodes, 17, i);
        assert(children_encoding(children, i) == rlp_string(children[i]) + children_encoding(
            children,
            i + 1,
        ));
        if i == index {
            let next = acc + rlp_header(RLP_STR_OFFSET, 32) + root;
            assert(siblings_from(nodes, index, i) == siblings_from(nodes, index, i + 1));
            assert(children[i] == root);
            assert(rlp_string(root) == rlp_header(RLP_STR_OFFSET, 32) + root);
            lemma_branch_children_round_trip(nodes, index, root, i + 1, next, rest);
            assert(next + children_encoding(children, i + 1) =~= acc + children_encoding(
                children,
                i,
            ));
            assert(branch_children(map, false, index, root, i, acc, proof) == branch_children(
                map,
                false,
                index,
                root,
                i + 1,
                next,
                proof,
            ));
        } else if nodes[i].len() == 32 {
            let next = acc + rlp_header(RLP_STR_OFFSET, 32) + nodes[i];
            assert(siblings_from(nodes, index, i) == nodes[i] + siblings_from(
                nodes,
                index,
                i + 1,
            ));
            assert(proof.len() >= 32);
            assert(proof.take(32) =~= nodes[i]);
            assert(proof.skip(32) =~= siblings_from(nodes, index, i + 1) + rest);
            assert(children[i] == nodes[i]);
            assert(rlp_string(nodes[i]) == rlp_header(RLP_STR_OFFSET, 32) + nodes[i]);
            assert(sibling(map, false, i, proof) == Some(
                (rlp_header(RLP_STR_OFFSET, 32) + nodes[i], proof.skip(32)),
            ));
            lemma_branch_children_round_trip(nodes, index, root, i + 1, next, rest);
            assert(next + children_encoding(children, i + 1) =~= acc + children_encoding(
                children,
                i,
            ));
            assert(acc + (rlp_header(RLP_STR_OFFSET, 32) + nodes[i]) =~= next);
            assert(branch_children(map, false, index, root, i, acc, proof) == branch_children(
                map,
                false,
                index,
                root,
                i + 1,
                next,
                proof.skip(32),
            ));
        } else {
            let next = acc + rlp_header(RLP_STR_OFFSET, 0);
            assert(nodes[i].len() == 0);
            assert(siblings_from(nodes, index, i) == siblings_from(nodes, index, i + 1));
            assert(children[i] == nodes[i]);
            assert(rlp_string(children[i]) =~= rlp_header(RLP_STR_OFFSET, 0));
            assert(sibling(map, false, i, proof) == Some((rlp_header(RLP_STR_OFFSET, 0), proof)));
            lemma_branch_children_round_trip(nodes, index, root, i + 1, next, rest);
            assert(next + children_encoding(children, i + 1) =~= acc + children_encoding(
                children,
                i,
            ));
            assert(branch_children(map, false, index, root, i, acc, proof) == branch_children(
                map,
                false,
                index,
                root,
                i + 1,
                next,
                proof,
            ));
        }
    } else {
        assert(siblings_from(nodes, index, 16) =~= Seq::<u8>::empty()) by {
            reveal_with_fuel(siblings_from, 3);
        }
        assert(proof =~= rest);
        assert(children_encoding(children, 16) =~= Seq::<u8>::empty());
        assert(acc + children_encoding(children, 16) =~= acc);
    }
}

/// What the builder writes for a branch, less the control byte, the verifier
/// reads back as that branch with the hash it brings along in the slot it
/// came from: what it hashes is the RLP list of the sixteen children and the
/// empty value. (The branch has a hash in the slot the walk came from, and no
/// value.)
pub proof fn lemma_branch_is_rlp(index: u8, nodes: Seq<Seq<u8>>, root: Seq<u8>, rest: Seq<u8>)
    requires
        nodes.len() == 17,
        branch_nodes_supported(nodes),
        index < 16,
        nodes[index as int].len() == 32,
        root.len() == 32,
    ensures
        ({
            let items = children_encoding(nodes.update(index as int, root), 0);
            branch_preimage(false, index as int, root, branch_step(index, nodes).skip(1) + rest)
                == Some((rlp_header(RLP_LIST_OFFSET, items.len()) + items, rest))
        }),
{
    let map = branch_map_below(nodes, 17);
    let hi = #[verifier::truncate] ((map >> 8) as u8);
    let lo = #[verifier::truncate] ((map & 0xff) as u8);
    let written = branch_step(index, nodes).skip(1) + rest;
    let all = nodes.update(index as int, root);
    let children = all.take(16);
    assert(be_u16(hi, lo) == map) by (bit_vector)
        requires
            hi == (map >> 8) as u8,
            lo == (map & 0xff) as u8,
    ;
    assert(written[0] == hi && written[1] == lo);
    lemma_siblings_split(nodes, index as int, 0);
    assert(siblings_below(nodes, index as int, 0) =~= Seq::<u8>::empty());
    assert(written.skip(2) =~= siblings_from(nodes, index as int, 0) + rest);
    lemma_branch_children_round_trip(nodes, index as int, root, 0, Seq::<u8>::empty(), rest);
    lemma_branch_map_bits(nodes, 17, index as int);
    lemma_branch_payload_length(index as int, root, written);
    // The sixteen children and the value are all the items.
    lemma_children_encoding_split(all, 0);
    let items = children_encoding(all, 0);
    let sixteen = children_encoding(children, 0);
    assert(all[16].len() == 0);
    assert(rlp_string(all[16]) =~= rlp_header(RLP_STR_OFFSET, 0));
    assert(items =~= sixteen + rlp_header(RLP_STR_OFFSET, 0));
    let payload_length = popcount(map) * 32 + 17;
    lemma_popcount_bound(map, 16);
    let preimage = branch_preimage(false, index as int, root, written).unwrap().0;
    assert(preimage =~= rlp_header(RLP_LIST_OFFSET, payload_length) + items);
    lemma_rlp_header_len(RLP_LIST_OFFSET, payload_length);
    assert(payload_length == items.len());
}

/// The encoding of seventeen items is that of the first sixteen and the last.
pub proof fn lemma_children_encoding_split(all: Seq<Seq<u8>>, i: int)
    requires
        all.len() == 17,
        0 <= i <= 16,
    ensures
        children_encoding(all, i) == children_encoding(all.take(16), i) + rlp_string(all[16]),
    decreases 16 - i,
{
    if i < 16 {
        lemma_children_encoding_split(all, i + 1);
        assert(all.take(16)[i] == all[i]);
        assert(children_encoding(all, i) =~= children_encoding(all.take(16), i) + rlp_string(
            all[16],
        ));
    } else {
        reveal_with_fuel(children_encoding, 2);
        assert(children_encoding(all.take(16), 16) =~= Seq::<u8>::empty());
        assert(children_encoding(all, 16) =~= rlp_string(all[16]));
    }
}

/// Writes a compact proof step by step, from the leaf to the root.
#[derive(Debug, Clone)]
pub struct ProofBuilder(Vec<u8>);

impl View for ProofBuilder {
    type V = Seq<u8>;

    /// The proof bytes written so far.
    closed spec fn view(&self) -> Seq<u8> {
        self.0@
    }
}

impl ProofBuilder {
    /// Starts a proof at a leaf with the hex-prefix path `path`.
    pub fn with_leaf_rest_path_compact(path: &[u8]) -> (builder: Self)
        requires
            path_valid(path@),
            path@[0] & PATH_FLAG_MASK == LEAF_PATH_FLAG,
        ensures
            builder@ == leaf_descriptor(path@),
    {
        let path = TriePath::new(path);
        let mut leaf = Vec::with_capacity(1 + path.bytes() as usize);
        leaf.push(path.nibbles());
        path.write_bytes(&mut leaf);
        assert(leaf@ =~= leaf_descriptor(path@));
        ProofBuilder(leaf)
    }

    /// Adds the step through an extension node with the hex-prefix path `path`.
    pub fn add_extension(&mut self, path: &[u8])
        requires
            path_valid(path@),
            path@[0] & PATH_FLAG_MASK == EXTENSION_PATH_FLAG,
        ensures
            final(self)@ == old(self)@ + extension_step(path@),
    {
        let path = TriePath::new(path);
        self.0.push(EXTENSION_NODE_FLAG);
        self.0.push(path.nibbles());
        path.write_bytes(&mut self.0);
        assert(self.0@ =~= old(self)@ + extension_step(path@));
    }

    /// Adds the step through a branch node that the walk enters by slot
    /// `index`. `nodes` are the children of the branch as they stand in its
    /// encoding (and its value after them): a hash, or nothing.
    pub fn add_branch(&mut self, index: u8, nodes: &[Vec<u8>])
        requires
            index <= 15,
            branch_nodes_supported(strings_view(nodes@)),
        ensures
            final(self)@ == old(self)@ + branch_step(index, strings_view(nodes@)),
    {
        let n = nodes.len();
        let ghost children = strings_view(nodes@);
        let mut branch_map: u16 = 0;
        let mut i: usize = 0;
        while i < n
            invariant
                i <= n,
                n == nodes@.len(),
                children == strings_view(nodes@),
                branch_nodes_supported(children),
                branch_map == branch_map_below(children, i as int),
            decreases n - i,
        {
            assert(children[i as int] == nodes@[i as int]@);
            if nodes[i].len() == 32 {
                branch_map = branch_map | (1u16 << i);
            }
            i += 1;
        }

        self.0.push(BRANCH_NODE_FLAG | index);
        self.0.push((branch_map >> 8) as u8);
        self.0.push((branch_map & 0xff) as u8);
        let ghost head = self.0@;

        let mut i: usize = 0;
        while i < n
            invariant
                i <= n,
                n == nodes@.len(),
                children == strings_view(nodes@),
                self.0@ == head + siblings_below(children, index as int, i as int),
            decreases n - i,
        {
            assert(children[i as int] == nodes@[i as int]@);
            if i != index as usize && nodes[i].len() == 32 {
                append_bytes(&mut self.0, nodes[i].as_slice());
            }
            i += 1;
        }
        assert(self.0@ =~= old(self)@ + branch_step(index, children));
    }

    /// The finished proof.
    pub fn build(self) -> (proof: Vec<u8>)
        ensures
            proof@ == self@,
    {
        self.0
    }
}

} // verus!
