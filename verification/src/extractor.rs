//! Making a compact proof for one receipt of a block.
//!
//! The receipts are put into a trie by a hash builder that retains the nodes
//! on the way to the wanted receipt. The retained nodes are then decoded and
//! written down as the steps of a compact proof, from the leaf up.

use vstd::prelude::*;
use alloy_trie::proof::{AddedRemovedKeys, ProofRetainer};
use alloy_trie::{HashBuilder, Nibbles};
use crate::payload::{encode_receipt_2718, receipt_encoding_2718, Receipt, ReceiptView};
use crate::receipt_trie::{
    branch_nodes_supported, branch_step, extension_step, leaf_descriptor, strings_view,
    ProofBuilder, EXTENSION_PATH_FLAG, LEAF_PATH_FLAG, PATH_FLAG_MASK,
};
use crate::rlp::{be_bytes, be_len, lemma_be_bytes_value, lemma_be_len_bound};
use crate::trie_path::path_valid;

verus! {

/// The hash builder of `alloy_trie`. What it holds is known by the names below
/// only.
#[verifier::external_type_specification]
#[verifier::external_body]
#[verifier::reject_recursive_types(K)]
pub struct ExHashBuilder<K>(HashBuilder<K>);

/// The type that a hash builder is given by default for the keys it tracks.
#[verifier::external_type_specification]
#[verifier::external_body]
pub struct ExAddedRemovedKeys(AddedRemovedKeys);

/// The leaves that were added to a hash builder, in the order they were added:
/// the bytes of each key and the value.
pub uninterp spec fn builder_leaves(builder: HashBuilder) -> Seq<(Seq<u8>, Seq<u8>)>;

/// The bytes of the key whose proof a hash builder retains.
pub uninterp spec fn builder_target(builder: HashBuilder) -> Seq<u8>;

/// The nodes that a hash builder has retained once the trie of `leaves` is
/// complete, from the root down: for each the nibbles of its path and its RLP
/// encoding. They are the nodes on the way to the key `target`.
pub uninterp spec fn retained_nodes(leaves: Seq<(Seq<u8>, Seq<u8>)>, target: Seq<u8>) -> Seq<
    (Seq<u8>, Seq<u8>),
>;

/// The byte strings in the RLP list at the front of `payload`; `None` if there
/// is no such list there or one of its items is no byte string.
pub uninterp spec fn rlp_string_list(payload: Seq<u8>) -> Option<Seq<Seq<u8>>>;

/// A trie node that was retained for a proof.
#[derive(Debug, Clone, PartialEq, Eq)]
pub struct ProofNode {
    /// The nibbles of the node's path from the root.
    pub key: Vec<u8>,
    /// The RLP encoding of the node.
    pub node: Vec<u8>,
}

impl View for ProofNode {
    type V = (Seq<u8>, Seq<u8>);

    open spec fn view(&self) -> (Seq<u8>, Seq<u8>) {
        (self.key@, self.node@)
    }
}

/// What a list of proof nodes holds.
pub open spec fn nodes_view(nodes: Seq<ProofNode>) -> Seq<(Seq<u8>, Seq<u8>)> {
    nodes.map_values(|n: ProofNode| n@)
}

/// Whether `key` comes after `prev` in the order of trie keys without
/// continuing it: at the first place from `i` on where the two differ, both
/// have a byte and that of `key` is the greater.
pub open spec fn key_follows(prev: Seq<u8>, key: Seq<u8>, i: int) -> bool
    decreases prev.len() - i,
{
    if i < 0 || i >= prev.len() || i >= key.len() {
        false
    } else if prev[i] != key[i] {
        prev[i] < key[i]
    } else {
        key_follows(prev, key, i + 1)
    }
}

/// The RLP encoding of an unsigned number.
pub open spec fn rlp_uint(n: nat) -> Seq<u8> {
    if n == 0 {
        seq![0x80u8]
    } else if n < 0x80 {
        seq![n as u8]
    } else {
        seq![(0x80 + be_len(n)) as u8] + be_bytes(n)
    }
}

/// The index of the item that goes into an ordered trie at position `i` of
/// `len`, so that the keys come in rising order.
pub open spec fn adjust_index(i: nat, len: nat) -> nat {
    if i > 0x7f {
        i
    } else if i == 0x7f || i + 1 == len {
        0
    } else {
        i + 1
    }
}

/// `alloy_trie::root::adjust_index_for_rlp` maps a position to the index of
/// the item to insert there: indices from 1 on come first, index 0 comes after
/// index 0x7f or at the end, and from 0x80 on position and index agree.
pub assume_specification[ alloy_trie::root::adjust_index_for_rlp ](i: usize, len: usize) -> (index:
    usize)
    ensures
        index == adjust_index(i as nat, len as nat),
;

/// Encodes an index with `alloy_rlp::encode`: zero as the empty string, a
/// number below 0x80 as itself, a greater one as its big-endian bytes behind a
/// string header.
#[verifier::external_body]
fn encode_index(index: usize) -> (encoded: Vec<u8>)
    ensures
        encoded@ == rlp_uint(index as nat),
{
    alloy_rlp::encode(index)
}

/// Makes a hash builder of `alloy_trie` that retains the proof of the key with
/// the bytes `target`. No leaf is in it yet.
#[verifier::external_body]
fn new_hash_builder(target: &[u8]) -> (builder: HashBuilder)
    requires
        target@.len() <= 32,
    ensures
        builder_leaves(builder) == Seq::<(Seq<u8>, Seq<u8>)>::empty(),
        builder_target(builder) == target@,
{
    HashBuilder::default().with_proof_retainer(ProofRetainer::new(vec![Nibbles::unpack(target)]))
}

/// Adds a leaf with `HashBuilder::add_leaf`, which wants each key to come
/// after the one before. The leaf is then the last of the builder's leaves.
#[verifier::external_body]
fn add_leaf(builder: &mut HashBuilder, key: &[u8], value: &[u8])
    requires
        0 < key@.len() <= 32,
        builder_leaves(*old(builder)).len() > 0 ==> key_follows(
            builder_leaves(*old(builder)).last().0,
            key@,
            0,
        ),
    ensures
        builder_leaves(*final(builder)) == builder_leaves(*old(builder)).push((key@, value@)),
        builder_target(*final(builder)) == builder_target(*old(builder)),
{
    builder.add_leaf(Nibbles::unpack(key), value)
}

/// Completes the trie with `HashBuilder::root` and hands out what
/// `take_proof_nodes` gives, in the order of `into_nodes_sorted`. The contract
/// only names the outcome.
#[verifier::external_body]
fn finish_proof_nodes(builder: HashBuilder) -> (nodes: Vec<ProofNode>)
    ensures
        nodes_view(nodes@) == retained_nodes(builder_leaves(builder), builder_target(builder)),
{
    let mut builder = builder;
    builder.root();
    builder.take_proof_nodes().into_nodes_sorted().into_iter().map(
        |(key, node)| ProofNode { key: key.to_vec(), node: node.to_vec() },
    ).collect()
}

/// Decodes a list of byte strings with `alloy_rlp`'s `Decodable` for vectors.
/// The contract only names the outcome.
#[verifier::external_body]
fn rlp_decode(payload: &[u8]) -> (list: Option<Vec<Vec<u8>>>)
    ensures
        match list {
            Some(l) => rlp_string_list(payload@) == Some(strings_view(l@)),
            None => rlp_string_list(payload@) is None,
        },
{
    let mut buf = payload;
    let list: Option<Vec<alloy_primitives::Bytes>> = alloy_rlp::Decodable::decode(&mut buf).ok();
    list.map(|l| l.into_iter().map(|b| b.to_vec()).collect())
}

/// What a list of receipts holds.
pub open spec fn receipts_view(items: Seq<Receipt>) -> Seq<ReceiptView> {
    items.map_values(|r: Receipt| r@)
}

/// The key of the leaf that goes into the receipts trie at `position`.
pub open spec fn receipt_key(position: nat, len: nat) -> Seq<u8> {
    rlp_uint(adjust_index(position, len))
}

/// The first `n` leaves of the receipts trie of `items`, in the order they go
/// in: the key is the RLP encoding of the receipt's index, the value is the
/// receipt's EIP-2718 encoding.
pub open spec fn trie_leaves(items: Seq<ReceiptView>, n: nat) -> Seq<(Seq<u8>, Seq<u8>)>
    decreases n,
{
    if n == 0 {
        Seq::empty()
    } else {
        trie_leaves(items, (n - 1) as nat).push(
            (
                receipt_key((n - 1) as nat, items.len()),
                receipt_encoding_2718(items[adjust_index((n - 1) as nat, items.len()) as int]),
            ),
        )
    }
}

/// A key follows another if the two agree before some place where the
/// other has the smaller byte.
pub proof fn lemma_key_follows_at(prev: Seq<u8>, key: Seq<u8>, from: int, at: int)
    requires
        0 <= from <= at < prev.len(),
        at < key.len(),
        forall|j: int| from <= j < at ==> prev[j] == key[j],
        prev[at] < key[at],
    ensures
        key_follows(prev, key, from),
    decreases at - from,
{
    if from < at {
        lemma_key_follows_at(prev, key, from + 1, at);
    }
}

/// A greater number has no shorter big-endian form.
pub proof fn lemma_be_len_monotonic(a: nat, b: nat)
    requires
        a <= b,
    ensures
        be_len(a) <= be_len(b),
    decreases b,
{
    if a > 0 {
        lemma_be_len_monotonic(a / 256, b / 256);
    }
}

/// Of two numbers with big-endian forms of one length, the smaller has the
/// smaller byte at the first place where the forms differ. The result is that
/// place.
pub proof fn lemma_be_bytes_order(a: nat, b: nat) -> (at: int)
    requires
        a < b,
        be_len(a) == be_len(b),
    ensures
        0 <= at < be_len(a),
        be_bytes(a).len() == be_len(a),
        be_bytes(b).len() == be_len(a),
        forall|j: int| 0 <= j < at ==> be_bytes(a)[j] == be_bytes(b)[j],
        be_bytes(a)[at] < be_bytes(b)[at],
    decreases b,
{
    lemma_be_bytes_value(a);
    lemma_be_bytes_value(b);
    let qa = a / 256;
    let qb = b / 256;
    lemma_be_bytes_value(qa);
    lemma_be_bytes_value(qb);
    assert(be_bytes(a) == be_bytes(qa).push((a % 256) as u8));
    assert(be_bytes(b) == be_bytes(qb).push((b % 256) as u8));
    if qa == qb {
        be_len(qa) as int
    } else {
        lemma_be_bytes_order(qa, qb)
    }
}

/// The keys of a receipts trie come in the order in which the leaves go in:
/// each key follows the one before.
pub proof fn lemma_receipt_keys_follow(i: nat, len: nat)
    requires
        0 < i < len,
        len <= u64::MAX,
    ensures
        key_follows(receipt_key((i - 1) as nat, len), receipt_key(i, len), 0),
{
    let a = adjust_index((i - 1) as nat, len);
    let b = adjust_index(i, len);
    let prev = rlp_uint(a);
    let key = rlp_uint(b);
    lemma_be_len_bound(a);
    lemma_be_len_bound(b);
    lemma_be_bytes_value(a);
    lemma_be_bytes_value(b);
    if i <= 0x80 {
        // One byte against the first byte of the next key.
        lemma_key_follows_at(prev, key, 0, 0);
    } else {
        lemma_be_len_monotonic(a, b);
        if be_len(a) < be_len(b) {
            lemma_key_follows_at(prev, key, 0, 0);
        } else {
            let at = lemma_be_bytes_order(a, b);
            assert forall|j: int| 0 <= j < at + 1 implies prev[j] == key[j] by {
                if j > 0 {
                    assert(prev[j] == be_bytes(a)[j - 1]);
                    assert(key[j] == be_bytes(b)[j - 1]);
                }
            }
            assert(prev[at + 1] == be_bytes(a)[at]);
            assert(key[at + 1] == be_bytes(b)[at]);
            lemma_key_follows_at(prev, key, 0, at + 1);
        }
    }
}

/// Adds the leaf that goes into the receipts trie of `items` at `position`.
fn add_receipt_leaf(
    hb: &mut HashBuilder,
    items: &[Receipt],
    position: usize,
    value_buffer: &mut Vec<u8>,
)
    requires
        position < items@.len(),
        builder_leaves(*old(hb)) == trie_leaves(receipts_view(items@), position as nat),
    ensures
        builder_target(*final(hb)) == builder_target(*old(hb)),
        builder_leaves(*final(hb)) == trie_leaves(receipts_view(items@), (position + 1) as nat),
{
    let items_len = items.len();
    let index = alloy_trie::root::adjust_index_for_rlp(position, items_len);
    assert(index < items_len);
    let index_buffer = encode_index(index);
    proof {
        lemma_be_len_bound(index as nat);
        lemma_be_bytes_value(index as nat);
        if position > 0 {
            lemma_receipt_keys_follow(position as nat, items_len as nat);
        }
    }
    assert(0 < index_buffer@.len() <= 9);
    value_buffer.clear();
    encode_receipt_2718(&items[index], value_buffer);
    assert(receipts_view(items@)[index as int] == items@[index as int]@);
    assert(value_buffer@ =~= receipt_encoding_2718(receipts_view(items@)[index as int]));
    add_leaf(hb, index_buffer.as_slice(), value_buffer.as_slice());
}

/// Puts the receipts of a block into a trie and hands out the nodes on the
/// way to the receipt at `index`, from the root down: the nodes that the hash
/// builder retains for the leaves of `trie_leaves`.
pub fn get_trie_proof_nodes(items: &[Receipt], index: u32) -> (nodes: Vec<ProofNode>)
    requires
        index < items@.len(),
    ensures
        nodes_view(nodes@) == retained_nodes(
            trie_leaves(receipts_view(items@), items@.len()),
            rlp_uint(index as nat),
        ),
{
    let mut value_buffer: Vec<u8> = Vec::new();
    let target = encode_index(index as usize);
    proof {
        lemma_be_len_bound(index as nat);
        lemma_be_bytes_value(index as nat);
    }
    let mut hb = new_hash_builder(target.as_slice());

    let items_len = items.len();
    let mut i: usize = 0;
    while i < items_len
        invariant
            i <= items_len,
            items_len == items@.len(),
            builder_leaves(hb) == trie_leaves(receipts_view(items@), i as nat),
            builder_target(hb) == rlp_uint(index as nat),
        decreases items_len - i,
    {
        add_receipt_leaf(&mut hb, items, i, &mut value_buffer);
        i += 1;
    }

    finish_proof_nodes(hb)
}

/// A retained node with its encoding taken apart.
#[derive(Debug, Clone, PartialEq, Eq)]
pub struct DecodedNode {
    /// Number of nibbles in the node's path from the root.
    pub key_len: usize,
    /// The items of the node: two for a leaf or an extension, seventeen for a
    /// branch.
    pub items: Vec<Vec<u8>>,
}

/// Nibble `i` of a key.
pub open spec fn nibble_at(key: Seq<u8>, i: int) -> u8 {
    if i % 2 == 0 {
        key[i / 2] >> 4
    } else {
        key[i / 2] & 0x0f
    }
}

/// The start of a compact proof for a leaf with the given items: the leaf must
/// have a valid leaf path as its first item.
pub open spec fn leaf_start(items: Seq<Seq<u8>>) -> Option<Seq<u8>> {
    if items.len() >= 1 && path_valid(items[0]) && items[0][0] & PATH_FLAG_MASK
        == LEAF_PATH_FLAG {
        Some(leaf_descriptor(items[0]))
    } else {
        None
    }
}

/// The step of a compact proof through the node with the given items, at
/// `key_len` nibbles from the root, on the way to the key `target`. A node of
/// two items is an extension and must have a valid extension path. A node of
/// seventeen items is a branch; it must lie on the key, and its children must
/// be hashes or empty. Nothing else is a step.
pub open spec fn step_of(key_len: int, items: Seq<Seq<u8>>, target: Seq<u8>) -> Option<Seq<u8>> {
    if items.len() == 2 {
        if path_valid(items[0]) && items[0][0] & PATH_FLAG_MASK == EXTENSION_PATH_FLAG {
            Some(extension_step(items[0]))
        } else {
            None
        }
    } else if items.len() == 17 && key_len < 2 * target.len() && branch_nodes_supported(items) {
        Some(branch_step(nibble_at(target, key_len), items))
    } else {
        None
    }
}

/// `acc` and then the steps through the nodes `k - 1` down to 0.
pub open spec fn steps_up(
    nodes: Seq<(nat, Seq<Seq<u8>>)>,
    target: Seq<u8>,
    k: nat,
    acc: Seq<u8>,
) -> Option<Seq<u8>>
    decreases k,
{
    if k == 0 {
        Some(acc)
    } else {
        match step_of(nodes[k - 1].0 as int, nodes[k - 1].1, target) {
            None => None,
            Some(step) => steps_up(nodes, target, (k - 1) as nat, acc + step),
        }
    }
}

/// Whether each node lies deeper than the one before.
pub open spec fn deepening(nodes: Seq<(nat, Seq<Seq<u8>>)>, n: nat) -> bool {
    forall|i: int| 0 < i < n ==> nodes[i - 1].0 < (#[trigger] nodes[i]).0
}

/// The compact proof for the key `target` from the nodes on the way to it,
/// given from the root down: the last node is the leaf, and the steps go from
/// the node above it up to the root. `None` if there is no node, the nodes do
/// not get deeper one by one, or a node is none that a proof can hold.
pub open spec fn compact_proof(nodes: Seq<(nat, Seq<Seq<u8>>)>, target: Seq<u8>) -> Option<
    Seq<u8>,
> {
    if nodes.len() == 0 || !deepening(nodes, nodes.len()) {
        None
    } else {
        match leaf_start(nodes.last().1) {
            None => None,
            Some(start) => steps_up(nodes, target, (nodes.len() - 1) as nat, start),
        }
    }
}

/// Whether `path` is a valid hex-prefix path with the flag `flag`.
fn path_with_flag(path: &[u8], flag: u8) -> (valid: bool)
    ensures
        valid == (path_valid(path@) && path@[0] & PATH_FLAG_MASK == flag),
{
    if path.len() < 1 || path.len() > 33 {
        return false;
    }
    let odd = path[0] & crate::receipt_trie::ODD_NIBBLES_FLAG != 0;
    if odd && path.len() > 32 {
        return false;
    }
    path[0] & PATH_FLAG_MASK == flag
}

/// Whether a proof can hold a branch with these children.
fn branch_supported(items: &[Vec<u8>]) -> (supported: bool)
    ensures
        supported == branch_nodes_supported(strings_view(items@)),
{
    let n = items.len();
    let ghost children = strings_view(items@);
    let mut i: usize = 0;
    while i < n
        invariant
            i <= n,
            n == items@.len(),
            children == strings_view(items@),
            forall|k: int|
                0 <= k < i ==> (#[trigger] children[k]).len() == 0 || (children[k].len() == 32
                    && k < 16),
        decreases n - i,
    {
        assert(children[i as int] == items@[i as int]@);
        let len = items[i].len();
        if !(len == 0 || (len == 32 && i < 16)) {
            return false;
        }
        i += 1;
    }
    true
}

/// Whether each node lies deeper than the one before.
fn nodes_deepen(nodes: &[DecodedNode]) -> (deepen: bool)
    ensures
        deepen == deepening(decoded_view(nodes@), nodes@.len()),
{
    let n = nodes.len();
    let ghost views = decoded_view(nodes@);
    let mut i: usize = 1;
    while i < n
        invariant
            1 <= i,
            n == nodes@.len(),
            views == decoded_view(nodes@),
            forall|j: int| 0 < j < i && j < n ==> views[j - 1].0 < (#[trigger] views[j]).0,
        decreases n - i,
    {
        assert(views[i as int].0 == nodes@[i as int].key_len);
        assert(views[i - 1].0 == nodes@[i - 1].key_len);
        if nodes[i - 1].key_len >= nodes[i].key_len {
            assert(!(views[i - 1].0 < views[i as int].0));
            return false;
        }
        i += 1;
    }
    true
}

/// Writes the compact proof for the key `target` from the nodes on the way to
/// it, given from the root down: see `compact_proof`.
pub fn compact_proof_from_nodes(nodes: &[DecodedNode], target: &[u8]) -> (written: Option<
    Vec<u8>,
>)
    ensures
        match written {
            Some(p) => compact_proof(decoded_view(nodes@), target@) == Some(p@),
            None => compact_proof(decoded_view(nodes@), target@) is None,
        },
{
    let n = nodes.len();
    if n == 0 {
        return None;
    }
    let ghost views = decoded_view(nodes@);
    if !nodes_deepen(nodes) {
        return None;
    }
    let leaf = &nodes[n - 1];
    assert(views.last().1 == strings_view(leaf.items@));
    assert(leaf.items@.len() > 0 ==> strings_view(leaf.items@)[0] == leaf.items@[0]@);
    if leaf.items.len() < 1 || !path_with_flag(leaf.items[0].as_slice(), LEAF_PATH_FLAG) {
        return None;
    }
    let mut proof_builder = ProofBuilder::with_leaf_rest_path_compact(leaf.items[0].as_slice());

    let mut k: usize = n - 1;
    while k > 0
        invariant
            k < n,
            n == nodes@.len(),
            views == decoded_view(nodes@),
            compact_proof(views, target@) == steps_up(views, target@, k as nat, proof_builder@),
        decreases k,
    {
        let node = &nodes[k - 1];
        assert(views[k - 1] == (node.key_len as nat, strings_view(node.items@)));
        assert(node.items@.len() > 0 ==> strings_view(node.items@)[0] == node.items@[0]@);
        if node.items.len() == 2 {
            if !path_with_flag(node.items[0].as_slice(), EXTENSION_PATH_FLAG) {
                return None;
            }
            proof_builder.add_extension(node.items[0].as_slice());
        } else {
            if node.items.len() != 17 || node.key_len / 2 >= target.len() || !branch_supported(
                node.items.as_slice(),
            ) {
                return None;
            }
            let byte = target[node.key_len / 2];
            let index = if node.key_len % 2 == 0 {
                byte >> 4
            } else {
                byte & 0x0f
            };
            assert(byte >> 4 <= 15 && byte & 0x0f <= 15) by (bit_vector);
            proof_builder.add_branch(index, node.items.as_slice());
        }
        k -= 1;
    }
    Some(proof_builder.build())
}

/// The retained nodes with their encodings taken apart; `None` if one of the
/// first `n` is no RLP list of byte strings.
pub open spec fn decoded_nodes(nodes: Seq<(Seq<u8>, Seq<u8>)>, n: nat) -> Option<
    Seq<(nat, Seq<Seq<u8>>)>,
>
    decreases n,
{
    if n == 0 {
        Some(Seq::empty())
    } else {
        match decoded_nodes(nodes, (n - 1) as nat) {
            None => None,
            Some(before) => match rlp_string_list(nodes[n - 1].1) {
                None => None,
                Some(items) => Some(before.push((nodes[n - 1].0.len(), items))),
            },
        }
    }
}

/// What a list of decoded nodes holds.
pub open spec fn decoded_view(nodes: Seq<DecodedNode>) -> Seq<(nat, Seq<Seq<u8>>)> {
    nodes.map_values(|n: DecodedNode| (n.key_len as nat, strings_view(n.items@)))
}

/// Takes the encodings of retained nodes apart.
pub fn decode_nodes(nodes: &[ProofNode]) -> (decoded: Option<Vec<DecodedNode>>)
    ensures
        match decoded {
            Some(d) => decoded_nodes(nodes_view(nodes@), nodes@.len()) == Some(decoded_view(d@)),
            None => decoded_nodes(nodes_view(nodes@), nodes@.len()) is None,
        },
{
    let n = nodes.len();
    let mut decoded: Vec<DecodedNode> = Vec::new();
    let mut i: usize = 0;
    while i < n
        invariant
            i <= n,
            n == nodes@.len(),
            decoded_nodes(nodes_view(nodes@), i as nat) == Some(decoded_view(decoded@)),
        decreases n - i,
    {
        let as_list = match rlp_decode(nodes[i].node.as_slice()) {
            Some(list) => list,
            None => {
                proof {
                    assert(decoded_nodes(nodes_view(nodes@), (i + 1) as nat) is None);
                    lemma_decoded_nodes_none(nodes_view(nodes@), (i + 1) as nat, n as nat);
                }
                return None;
            },
        };
        let ghost before = decoded_view(decoded@);
        decoded.push(DecodedNode { key_len: nodes[i].key.len(), items: as_list });
        assert(decoded_view(decoded@) =~= before.push(
            (nodes@[i as int].key@.len(), strings_view(as_list@)),
        ));
        i += 1;
    }
    Some(decoded)
}

/// Once a node fails to decode, the whole list does.
pub proof fn lemma_decoded_nodes_none(nodes: Seq<(Seq<u8>, Seq<u8>)>, k: nat, n: nat)
    requires
        k <= n,
        decoded_nodes(nodes, k) is None,
    ensures
        decoded_nodes(nodes, n) is None,
    decreases n - k,
{
    if k < n {
        lemma_decoded_nodes_none(nodes, k, (n - 1) as nat);
    }
}

/// The compact proof for the receipt at `index` among `items`: the retained
/// nodes of the receipts trie, decoded and written down from the leaf up.
/// `None` if a retained node does not decode, or the nodes are none that a
/// proof can hold.
pub open spec fn extracted_proof(items: Seq<ReceiptView>, index: nat) -> Option<Seq<u8>> {
    let nodes = retained_nodes(trie_leaves(items, items.len()), rlp_uint(index));
    match decoded_nodes(nodes, nodes.len()) {
        None => None,
        Some(decoded) => compact_proof(decoded, rlp_uint(index)),
    }
}

/// Makes the compact proof that the receipt at `index` is in the receipts trie
/// of `items`: see `extracted_proof`.
pub fn get_proof_for_receipt(items: &[Receipt], index: u32) -> (written: Option<Vec<u8>>)
    requires
        index < items@.len(),
    ensures
        match written {
            Some(p) => extracted_proof(receipts_view(items@), index as nat) == Some(p@),
            None => extracted_proof(receipts_view(items@), index as nat) is None,
        },
{
    let proof_nodes = get_trie_proof_nodes(items, index);
    let decoded = match decode_nodes(proof_nodes.as_slice()) {
        Some(decoded) => decoded,
        None => {
            return None;
        },
    };
    let index_as_key = encode_index(index as usize);
    compact_proof_from_nodes(decoded.as_slice(), index_as_key.as_slice())
}

} // verus!
