use alloy_consensus::proofs::calculate_receipt_root;
use alloy_consensus::{ReceiptEnvelope, ReceiptWithBloom};
use alloy_eips::Encodable2718;
use santa_lib::extractor::{
    compact_proof_from_nodes, decode_nodes, get_proof_for_receipt, get_trie_proof_nodes,
    DecodedNode, ProofNode,
};
use santa_lib::payload::{Log, Receipt, ReceiptStatus, ReceiptType};
use santa_lib::receipt_trie::{
    count_ones, receipt_trie_root_from_proof, ProofBuilder, TrieProofError,
};
use santa_lib::Keccak256;

fn sample_receipt(seed: usize) -> Receipt {
    let tx_type = match seed % 5 {
        0 => ReceiptType::Legacy,
        1 => ReceiptType::Eip2930,
        2 => ReceiptType::Eip1559,
        3 => ReceiptType::Eip4844,
        _ => ReceiptType::Eip7702,
    };
    let mut logs = Vec::new();
    for l in 0..(seed % 3) {
        logs.push(Log {
            address: [(seed + l) as u8; 20],
            topics: vec![[(seed * 3 + l) as u8; 32]; l],
            data: (0..(seed % 70)).map(|b| (b * 5 + seed) as u8).collect(),
        });
    }
    let mut logs_bloom = [0u8; 256];
    logs_bloom[seed % 256] = 0x40;
    Receipt {
        tx_type,
        status: if seed % 7 == 3 {
            ReceiptStatus::PostState([seed as u8; 32])
        } else {
            ReceiptStatus::Eip658(seed % 2 == 0)
        },
        cumulative_gas_used: 21_000 * (seed as u64 + 1),
        logs_bloom,
        logs,
    }
}

fn to_alloy(receipt: &Receipt) -> ReceiptEnvelope {
    let logs = receipt
        .logs
        .iter()
        .map(|l| {
            alloy_primitives::Log::new_unchecked(
                l.address.into(),
                l.topics.iter().map(|t| t.into()).collect(),
                l.data.clone().into(),
            )
        })
        .collect();
    let inner = ReceiptWithBloom {
        receipt: alloy_consensus::Receipt {
            status: match receipt.status {
                ReceiptStatus::Eip658(status) => status.into(),
                ReceiptStatus::PostState(root) => alloy_consensus::Eip658Value::PostState(root.into()),
            },
            cumulative_gas_used: receipt.cumulative_gas_used,
            logs,
        },
        logs_bloom: receipt.logs_bloom.into(),
    };
    match receipt.tx_type {
        ReceiptType::Legacy => ReceiptEnvelope::Legacy(inner),
        ReceiptType::Eip2930 => ReceiptEnvelope::Eip2930(inner),
        ReceiptType::Eip1559 => ReceiptEnvelope::Eip1559(inner),
        ReceiptType::Eip4844 => ReceiptEnvelope::Eip4844(inner),
        ReceiptType::Eip7702 => ReceiptEnvelope::Eip7702(inner),
    }
}

fn check_all_proofs(count: usize) {
    let receipts: Vec<Receipt> = (0..count).map(sample_receipt).collect();
    let reference: Vec<ReceiptEnvelope> = receipts.iter().map(to_alloy).collect();
    let root = calculate_receipt_root(&reference);
    let mut keccak = Keccak256::new();
    for index in 0..count {
        let proof = get_proof_for_receipt(&receipts, index as u32).unwrap();
        let encoded = reference[index].encoded_2718();
        let computed = receipt_trie_root_from_proof(&mut keccak, &proof, &encoded).unwrap();
        assert_eq!(computed, root.0, "receipt {} of {}", index, count);
    }
}

#[test]
fn trie_root_of_one_receipt() {
    check_all_proofs(1);
}

#[test]
fn trie_root_of_two_receipts() {
    check_all_proofs(2);
}

#[test]
fn trie_root_of_sixteen_receipts() {
    check_all_proofs(16);
}

#[test]
fn trie_root_of_seventeen_receipts() {
    check_all_proofs(17);
}

#[test]
fn trie_root_of_128_receipts() {
    check_all_proofs(128);
}

#[test]
fn trie_root_of_129_receipts() {
    check_all_proofs(129);
}

#[test]
fn trie_root_of_300_receipts() {
    check_all_proofs(300);
}

#[test]
fn receipt_encoding_is_that_of_the_envelope() {
    for seed in 0..12 {
        let receipt = sample_receipt(seed);
        let encoded = receipt.encoded_2718();
        assert_eq!(encoded, to_alloy(&receipt).encoded_2718());
        assert!(encoded.len() > 258);
        assert_eq!(receipt.duplicate(), receipt);
    }
    // A typed receipt starts with its type byte, a legacy one with its list.
    assert_eq!(sample_receipt(2).encoded_2718()[0], 0x02);
    assert_eq!(sample_receipt(4).encoded_2718()[0], 0x04);
    assert_eq!(sample_receipt(0).encoded_2718()[0], 0xf9);
}

#[test]
fn leaf_keys_are_the_encoded_indices() {
    let receipts: Vec<Receipt> = (0..200).map(sample_receipt).collect();
    for (index, key) in [(0u32, vec![8u8, 0]), (1, vec![0, 1]), (0x7f, vec![7, 0xf]),
        (0x80, vec![8, 1, 8, 0]), (199, vec![8, 1, 0xc, 7])]
    {
        let nodes = get_trie_proof_nodes(&receipts, index);
        let leaf = &nodes[nodes.len() - 1];
        let items = decode_nodes(&nodes[nodes.len() - 1..]).unwrap().remove(0).items;
        // The leaf holds the rest of the key: its path, less the flag nibble
        // (and the padding nibble of an even path), ends the key.
        let mut rest: Vec<u8> = Vec::new();
        for byte in items[0].iter() {
            rest.push(byte >> 4);
            rest.push(byte & 0x0f);
        }
        let skip = if rest[0] & 1 == 1 { 1 } else { 2 };
        let mut whole = leaf.key.clone();
        whole.extend_from_slice(&rest[skip..]);
        assert_eq!(whole, key, "index {}", index);
    }
}

#[test]
fn retained_nodes_lead_to_the_leaf() {
    let receipts: Vec<Receipt> = (0..20).map(sample_receipt).collect();
    let nodes = get_trie_proof_nodes(&receipts, 5);
    assert!(nodes.len() >= 2);
    for pair in nodes.windows(2) {
        assert!(pair[0].key.len() < pair[1].key.len());
    }
    assert_eq!(nodes[0].key.len(), 0);
    let decoded = decode_nodes(&nodes).unwrap();
    assert_eq!(decoded.len(), nodes.len());
    for (node, plain) in decoded.iter().zip(nodes.iter()) {
        assert_eq!(node.key_len, plain.key.len());
    }
    let leaf = &decoded[decoded.len() - 1].items;
    assert_eq!(leaf.len(), 2);
    assert_eq!(leaf[1], to_alloy(&receipts[5]).encoded_2718());
}

fn decode_one(node: &[u8]) -> Option<Vec<Vec<u8>>> {
    let nodes = [ProofNode { key: vec![1, 2, 3], node: node.to_vec() }];
    decode_nodes(&nodes).map(|mut decoded| {
        assert_eq!(decoded.len(), 1);
        assert_eq!(decoded[0].key_len, 3);
        decoded.remove(0).items
    })
}

#[test]
fn nodes_decode_as_lists_of_strings() {
    assert_eq!(decode_one(&[0xc0]), Some(vec![]));
    assert_eq!(decode_one(&[0xc2, 0x01, 0x80]), Some(vec![vec![0x01], vec![]]));
    assert_eq!(decode_one(&[0xc3, 0x82, 0xab, 0xcd]), Some(vec![vec![0xab, 0xcd]]));
    assert_eq!(decode_one(&[0x82, 0xab, 0xcd]), None);
    assert_eq!(decode_one(&[0xc3, 0x82, 0xab]), None);
    assert_eq!(decode_one(&[0xc2, 0xc1, 0x01]), None);
    assert_eq!(decode_nodes(&[]), Some(vec![]));
    let nodes = [
        ProofNode { key: vec![], node: vec![0xc1, 0x05] },
        ProofNode { key: vec![4], node: vec![0x05] },
    ];
    assert_eq!(decode_nodes(&nodes), None);
}

#[test]
fn compact_proof_of_leaf_extension_and_branch() {
    let mut children: Vec<Vec<u8>> = vec![Vec::new(); 17];
    children[3] = vec![0x11; 32];
    children[9] = vec![0x22; 32];
    children[12] = vec![0x33; 32];
    let nodes = vec![
        DecodedNode { key_len: 0, items: vec![vec![0x00, 0x8a], vec![0x44; 32]] },
        DecodedNode { key_len: 2, items: children },
        DecodedNode { key_len: 3, items: vec![vec![0x20], vec![0x55; 40]] },
    ];
    // The key 0x8a 0x90 has the nibbles 8, a, 9, 0: the branch at depth 2 is
    // entered by slot 9.
    let proof = compact_proof_from_nodes(&nodes, &[0x8a, 0x90]).unwrap();
    let mut expected = vec![0x00];
    expected.push(0x20 | 9);
    expected.extend_from_slice(&[0x12, 0x08]);
    expected.extend_from_slice(&[0x11; 32]);
    expected.extend_from_slice(&[0x33; 32]);
    expected.extend_from_slice(&[0x00, 0x02, 0x8a]);
    assert_eq!(proof, expected);
}

#[test]
fn compact_proof_refuses_what_it_cannot_hold() {
    let leaf = DecodedNode { key_len: 1, items: vec![vec![0x31], vec![0x55; 40]] };
    assert_eq!(compact_proof_from_nodes(&[], &[0x10]), None);
    // A leaf with an extension path.
    let bad = DecodedNode { key_len: 1, items: vec![vec![0x11], vec![0x55; 40]] };
    assert_eq!(compact_proof_from_nodes(&[bad], &[0x10]), None);
    // Nodes that do not get deeper.
    let top = DecodedNode { key_len: 1, items: vec![vec![0x00, 0x12], vec![0x44; 32]] };
    assert_eq!(compact_proof_from_nodes(&[top, leaf.clone()], &[0x10]), None);
    // A branch with a child that is neither empty nor a hash.
    let mut children: Vec<Vec<u8>> = vec![Vec::new(); 17];
    children[1] = vec![0x11; 5];
    let branch = DecodedNode { key_len: 0, items: children };
    assert_eq!(compact_proof_from_nodes(&[branch, leaf.clone()], &[0x10]), None);
    // A node with three items.
    let odd = DecodedNode { key_len: 0, items: vec![vec![0x00], vec![], vec![]] };
    assert_eq!(compact_proof_from_nodes(&[odd, leaf.clone()], &[0x10]), None);
    assert_eq!(compact_proof_from_nodes(&[leaf], &[0x10]), Some(vec![0x01, 0x01]));
}

#[test]
fn proof_builder_steps() {
    let mut builder = ProofBuilder::with_leaf_rest_path_compact(&[0x20, 0xab, 0xcd]);
    builder.add_extension(&[0x17]);
    let mut children: Vec<Vec<u8>> = vec![Vec::new(); 17];
    children[0] = vec![0xaa; 32];
    children[15] = vec![0xbb; 32];
    builder.add_branch(15, &children);
    let mut expected = vec![0x04, 0xab, 0xcd, 0x00, 0x01, 0x07, 0x2f, 0x80, 0x01];
    expected.extend_from_slice(&[0xaa; 32]);
    assert_eq!(builder.build(), expected);
}

#[test]
fn verifier_reports_truncated_proofs() {
    let receipts: Vec<Receipt> = (0..40).map(sample_receipt).collect();
    let proof = get_proof_for_receipt(&receipts, 7).unwrap();
    let encoded = to_alloy(&receipts[7]).encoded_2718();
    let mut keccak = Keccak256::new();
    assert!(receipt_trie_root_from_proof(&mut keccak, &proof, &encoded).is_ok());
    assert_eq!(
        receipt_trie_root_from_proof(&mut keccak, &[], &encoded),
        Err(TrieProofError::Truncated)
    );
    assert_eq!(
        receipt_trie_root_from_proof(&mut keccak, &proof[..proof.len() - 1], &encoded),
        Err(TrieProofError::Truncated)
    );
    assert_eq!(
        receipt_trie_root_from_proof(&mut keccak, &[0x03, 0x01], &encoded),
        Err(TrieProofError::Truncated)
    );
    // The sponge is ready again after a failure.
    let again = receipt_trie_root_from_proof(&mut keccak, &proof, &encoded).unwrap();
    let root = calculate_receipt_root(&receipts.iter().map(to_alloy).collect::<Vec<_>>());
    assert_eq!(again, root.0);
}

#[test]
fn verifier_hashes_a_lone_leaf_as_keccak_of_its_encoding() {
    // A leaf with the one-nibble path 1 and the value "abc": the list of the
    // key 0x31 and the string: 0xc5 0x31 0x83 'a' 'b' 'c'.
    let mut keccak = Keccak256::new();
    let root = receipt_trie_root_from_proof(&mut keccak, &[0x01, 0x01], b"abc").unwrap();
    let expected = alloy_primitives::keccak256([0xc5, 0x31, 0x83, b'a', b'b', b'c']);
    assert_eq!(root, expected.0);
}

#[test]
fn verifier_reads_weird_branches() {
    // Leaf, then a weird branch entered by slot 2 with one child of 3 bytes in
    // slot 0. The payload length is given in the proof.
    let mut proof = vec![0x01, 0x01];
    proof.push(0x30 | 2);
    proof.extend_from_slice(&[0x00, 0x01]);
    let payload_len: u32 = 4 + 1 + 33 + 13 + 1;
    proof.extend_from_slice(&payload_len.to_be_bytes());
    proof.extend_from_slice(&[0, 0, 0, 3, 0xde, 0xad, 0xbf]);
    let mut keccak = Keccak256::new();
    let root = receipt_trie_root_from_proof(&mut keccak, &proof, b"abc").unwrap();

    let leaf = alloy_primitives::keccak256([0xc5, 0x31, 0x83, b'a', b'b', b'c']);
    let mut node = vec![0xc0 + payload_len as u8];
    node.extend_from_slice(&[0x83, 0xde, 0xad, 0xbf]);
    node.push(0x80);
    node.push(0xa0);
    node.extend_from_slice(leaf.as_slice());
    node.extend_from_slice(&[0x80; 13]);
    node.push(0x80);
    assert_eq!(root, alloy_primitives::keccak256(&node).0);
}

#[test]
fn popcount_counts_bits() {
    assert_eq!(count_ones(0), 0);
    assert_eq!(count_ones(0xffff), 16);
    assert_eq!(count_ones(0x8001), 2);
    assert_eq!(count_ones(0x0f30), 6);
}
