use alloy_consensus::proofs::calculate_receipt_root;
use alloy_consensus::{Header, ReceiptEnvelope, ReceiptWithBloom};
use alloy_primitives::{keccak256, B256};
use alloy_rlp::Encodable;
use santa_lib::builder::{build_payload, BlockInput, BuildError, OracleEntry};
use santa_lib::fee_summary::FeeEntry;
use santa_lib::guest::{
    public_output, validate_payload, validated_output, RewardAggregator, ValidationError,
};
use santa_lib::header_lens::{EncodedHeaderLens, HeaderError};
use santa_lib::payload::{
    Log, Payload, Receipt, ReceiptStatus, ReceiptType, RewardBlock,
};
use santa_lib::receipt_trie::TrieProofError;
use santa_lib::sums::AssetSums;
use santa_lib::{Keccak256, Reader};

const ANGSTROM: [u8; 20] = [0x3f; 20];
const ASSET_A: [u8; 20] = [0xa1; 20];
const ASSET_B: [u8; 20] = [0xb2; 20];

fn to_alloy(receipt: &Receipt) -> ReceiptEnvelope {
    let logs = receipt
        .logs
        .iter()
        .map(|l| {
            alloy_primitives::Log::new_unchecked(
                l.address.into(),
                l.topics.iter().map(|t| t.into()).collect(),
                l.data.clone().into(),
            )
        })
        .collect();
    let inner = ReceiptWithBloom {
        receipt: alloy_consensus::Receipt {
            status: match receipt.status {
                ReceiptStatus::Eip658(status) => status.into(),
                ReceiptStatus::PostState(root) => alloy_consensus::Eip658Value::PostState(root.into()),
            },
            cumulative_gas_used: receipt.cumulative_gas_used,
            logs,
        },
        logs_bloom: receipt.logs_bloom.into(),
    };
    match receipt.tx_type {
        ReceiptType::Legacy => ReceiptEnvelope::Legacy(inner),
        ReceiptType::Eip2930 => ReceiptEnvelope::Eip2930(inner),
        ReceiptType::Eip1559 => ReceiptEnvelope::Eip1559(inner),
        ReceiptType::Eip4844 => ReceiptEnvelope::Eip4844(inner),
        ReceiptType::Eip7702 => ReceiptEnvelope::Eip7702(inner),
    }
}

fn plain_receipt(seed: u8) -> Receipt {
    Receipt {
        tx_type: ReceiptType::Eip1559,
        status: ReceiptStatus::Eip658(true),
        cumulative_gas_used: 50_000 + seed as u64,
        logs_bloom: [seed; 256],
        logs: vec![Log { address: [seed; 20], topics: vec![[seed; 32]], data: vec![seed; 40] }],
    }
}

fn entries_bytes(entries: &[FeeEntry]) -> Vec<u8> {
    let mut bytes = Vec::new();
    for entry in entries {
        bytes.extend_from_slice(entry.as_bytes());
    }
    bytes
}

fn oracle_entry(entries: Vec<FeeEntry>) -> OracleEntry {
    OracleEntry { reward_hash: keccak256(entries_bytes(&entries)).0, entries }
}

fn reward_receipt(oracle: &OracleEntry) -> Receipt {
    let mut receipt = plain_receipt(0x77);
    receipt.logs.push(Log {
        address: ANGSTROM,
        topics: Vec::new(),
        data: oracle.reward_hash.to_vec(),
    });
    receipt
}

fn receipts_root(receipts: &[Receipt]) -> B256 {
    calculate_receipt_root(&receipts.iter().map(to_alloy).collect::<Vec<_>>())
}

/// Headers that form a chain from `parent`; block `i` has the receipts root
/// of `receipts[i]` where that is given.
fn chain(parent: B256, receipts: &[Option<Vec<Receipt>>]) -> Vec<Header> {
    let mut headers = Vec::new();
    let mut parent_hash = parent;
    for (number, block_receipts) in receipts.iter().enumerate() {
        let mut header = Header::default();
        header.number = number as u64;
        header.parent_hash = parent_hash;
        if let Some(block_receipts) = block_receipts {
            header.receipts_root = receipts_root(block_receipts);
        }
        parent_hash = header.hash_slow();
        headers.push(header);
    }
    headers
}

fn encode(header: &Header) -> Vec<u8> {
    let mut encoded = Vec::new();
    header.encode(&mut encoded);
    encoded
}

fn inputs(headers: &[Header], receipts: &[Option<Vec<Receipt>>]) -> Vec<BlockInput> {
    headers
        .iter()
        .zip(receipts.iter())
        .map(|(header, receipts)| BlockInput { header: encode(header), receipts: receipts.clone() })
        .collect()
}

fn be32(amount: u128) -> [u8; 32] {
    let mut bytes = [0u8; 32];
    bytes[16..].copy_from_slice(&amount.to_be_bytes());
    bytes
}

/// Two blocks, the second of which carries a reward of one entry.
fn one_reward() -> (Vec<Header>, Payload) {
    let oracle = vec![oracle_entry(vec![FeeEntry::new(ASSET_A, 1_000_000)])];
    let receipts = vec![
        None,
        Some(vec![plain_receipt(1), plain_receipt(2), reward_receipt(&oracle[0]), plain_receipt(3)]),
    ];
    let headers = chain(B256::repeat_byte(0x11), &receipts);
    let payload = build_payload(inputs(&headers, &receipts), ANGSTROM, &oracle).unwrap();
    (headers, payload)
}

#[test]
fn single_block_without_rewards() {
    let mut header = Header::default();
    header.parent_hash = B256::repeat_byte(0xf1);
    let payload = Payload {
        angstrom: ANGSTROM,
        headers: encode(&header),
        reward_blocks: Vec::new(),
        fee_entries: Vec::new(),
    };
    let mut expected = ANGSTROM.to_vec();
    expected.extend_from_slice(header.parent_hash.as_slice());
    expected.extend_from_slice(header.hash_slow().as_slice());
    assert_eq!(validated_output(&payload), Ok(expected));

    let (chain_parent, chain_last, sums) = validate_payload(&payload).unwrap();
    assert_eq!(chain_parent, header.parent_hash.0);
    assert_eq!(chain_last, header.hash_slow().0);
    assert_eq!(sums.len(), 0);
}

#[test]
fn two_blocks_with_a_chain_break() {
    let mut headers = chain(B256::repeat_byte(0x22), &[None, None]);
    headers[1].parent_hash = B256::repeat_byte(0x23);
    let mut bytes = encode(&headers[0]);
    bytes.extend_from_slice(&encode(&headers[1]));
    let payload = Payload {
        angstrom: ANGSTROM,
        headers: bytes,
        reward_blocks: Vec::new(),
        fee_entries: Vec::new(),
    };
    assert_eq!(validated_output(&payload), Err(ValidationError::BrokenChain));
    assert!(validate_payload(&payload).is_err());
}

#[test]
fn two_blocks_with_one_reward_of_one_entry() {
    let (headers, payload) = one_reward();
    assert_eq!(payload.reward_blocks.len(), 1);
    assert_eq!(payload.reward_blocks[0].block_index, 1);
    assert_eq!(payload.reward_blocks[0].log_index, 1);
    assert_eq!(payload.reward_blocks[0].fee_entries, 1);
    assert_eq!(payload.fee_entries.len(), 36);

    let output = validated_output(&payload).unwrap();
    let mut expected = ANGSTROM.to_vec();
    expected.extend_from_slice(headers[0].parent_hash.as_slice());
    expected.extend_from_slice(headers[1].hash_slow().as_slice());
    expected.extend_from_slice(&ASSET_A);
    expected.extend_from_slice(&be32(1_000_000));
    assert_eq!(output, expected);
    assert_eq!(&output[84..104], &ASSET_A);
    assert_eq!(&output[104..], &be32(1_000_000));
}

#[test]
fn reward_log_of_another_address() {
    // One block only: the block with the reward.
    let oracle = vec![oracle_entry(vec![FeeEntry::new(ASSET_A, 1_000_000)])];
    let receipts = vec![Some(vec![reward_receipt(&oracle[0])])];
    let headers = chain(B256::repeat_byte(0x11), &receipts);
    let mut payload = build_payload(inputs(&headers, &receipts), ANGSTROM, &oracle).unwrap();
    assert!(validated_output(&payload).is_ok());
    payload.angstrom = [0x40; 20];
    assert_eq!(validated_output(&payload), Err(ValidationError::WrongLogAddress));
}

#[test]
fn receipts_root_that_disagrees_with_the_header() {
    let oracle = vec![oracle_entry(vec![FeeEntry::new(ASSET_A, 1_000_000)])];
    let receipts = vec![Some(vec![plain_receipt(1), reward_receipt(&oracle[0])])];
    let mut headers = chain(B256::repeat_byte(0x11), &receipts);
    headers[0].receipts_root = B256::repeat_byte(0xcc);
    let payload = build_payload(inputs(&headers, &receipts), ANGSTROM, &oracle).unwrap();
    assert_eq!(validated_output(&payload), Err(ValidationError::ReceiptsRootMismatch));

    // The same with a proof for another receipt than the one handed in.
    let (_, mut payload) = one_reward();
    payload.reward_blocks[0].receipt.cumulative_gas_used += 1;
    assert_eq!(validated_output(&payload), Err(ValidationError::ReceiptsRootMismatch));
}

#[test]
fn fee_entries_that_disagree_with_the_log() {
    let (_, mut payload) = one_reward();
    payload.fee_entries[35] ^= 1;
    assert_eq!(validated_output(&payload), Err(ValidationError::RewardHashMismatch));

    let (_, mut payload) = one_reward();
    payload.reward_blocks[0].receipt.logs[1].data[0] ^= 0x80;
    assert_eq!(validated_output(&payload), Err(ValidationError::RewardHashMismatch));

    let (_, mut payload) = one_reward();
    payload.reward_blocks[0].receipt.logs[1].data.truncate(31);
    assert_eq!(validated_output(&payload), Err(ValidationError::RewardHashMismatch));
}

#[test]
fn only_the_first_32_bytes_of_the_log_data_count() {
    let entries = vec![FeeEntry::new(ASSET_A, 5)];
    let hash = keccak256(entries_bytes(&entries)).0;
    let mut receipt = plain_receipt(9);
    let mut data = hash.to_vec();
    data.extend_from_slice(&[0xee; 7]);
    receipt.logs.insert(0, Log { address: ANGSTROM, topics: Vec::new(), data });
    let receipts = vec![Some(vec![receipt])];
    let headers = chain(B256::repeat_byte(0x11), &receipts);
    let oracle = vec![OracleEntry { reward_hash: hash, entries }];
    let payload = build_payload(inputs(&headers, &receipts), ANGSTROM, &oracle).unwrap();
    let (_, _, sums) = validate_payload(&payload).unwrap();
    assert_eq!(sums.len(), 1);
    assert_eq!(sums.total(0).to_be_bytes(), be32(5));
}

#[test]
fn totals_add_up_over_blocks_and_skip_zero_amounts() {
    let oracle = vec![
        oracle_entry(vec![
            FeeEntry::new(ASSET_A, 10),
            FeeEntry::new(ASSET_B, 0),
            FeeEntry::new(ASSET_A, 5),
        ]),
        oracle_entry(vec![FeeEntry::new(ASSET_B, u128::MAX), FeeEntry::new(ASSET_B, 2)]),
        oracle_entry(Vec::new()),
    ];
    let receipts = vec![
        Some(vec![reward_receipt(&oracle[0])]),
        None,
        Some(vec![plain_receipt(4), reward_receipt(&oracle[1])]),
        Some(vec![reward_receipt(&oracle[2]), plain_receipt(5)]),
        None,
    ];
    let headers = chain(B256::repeat_byte(0x05), &receipts);
    let payload = build_payload(inputs(&headers, &receipts), ANGSTROM, &oracle).unwrap();
    assert_eq!(payload.reward_blocks.len(), 3);
    assert_eq!(payload.reward_blocks[1].block_index, 2);
    assert_eq!(payload.reward_blocks[2].fee_entries, 0);
    assert_eq!(payload.fee_entries.len(), 5 * 36);

    let (chain_parent, chain_last, sums) = validate_payload(&payload).unwrap();
    assert_eq!(chain_parent, [0x05; 32]);
    assert_eq!(chain_last, headers[4].hash_slow().0);
    assert_eq!(sums.len(), 2);
    assert_eq!(sums.asset(0), &ASSET_A);
    assert_eq!(sums.total(0).to_be_bytes(), be32(15));
    assert_eq!(sums.asset(1), &ASSET_B);
    let mut carried = [0u8; 32];
    carried[15] = 1;
    carried[31] = 1;
    assert_eq!(sums.total(1).to_be_bytes(), carried);

    let output = public_output(&ANGSTROM, &chain_parent, &chain_last, &sums);
    assert_eq!(output.len(), 20 + 32 + 32 + 2 * 52);
    assert_eq!(&output[136..156], &ASSET_B);
    assert_eq!(&output[156..], &carried);
}

#[test]
fn reward_blocks_must_be_reached_in_order() {
    let (_, payload) = one_reward();
    let mut late = payload.clone();
    late.reward_blocks[0].block_index = 2;
    assert_eq!(validated_output(&late), Err(ValidationError::RewardBlockNotReached));

    let mut early = payload.clone();
    early.reward_blocks[0].block_index = 0;
    assert_eq!(validated_output(&early), Err(ValidationError::ReceiptsRootMismatch));
}

#[test]
fn reward_block_errors() {
    let (_, payload) = one_reward();

    let mut bad = payload.clone();
    bad.reward_blocks[0].log_index = 2;
    assert_eq!(validated_output(&bad), Err(ValidationError::LogIndexOutOfRange));

    let mut bad = payload.clone();
    bad.reward_blocks[0].log_index = 0;
    assert_eq!(validated_output(&bad), Err(ValidationError::WrongLogAddress));

    let mut bad = payload.clone();
    bad.reward_blocks[0].fee_entries = 2;
    assert_eq!(validated_output(&bad), Err(ValidationError::FeeEntriesOutOfRange));

    let mut bad = payload.clone();
    bad.reward_blocks[0].proof.pop();
    assert_eq!(
        validated_output(&bad),
        Err(ValidationError::Proof(TrieProofError::Truncated))
    );

    let mut bad = payload.clone();
    bad.headers.pop();
    assert_eq!(validated_output(&bad), Err(ValidationError::Header(HeaderError::Truncated)));

    let mut bad = payload.clone();
    bad.headers.clear();
    assert_eq!(validated_output(&bad), Err(ValidationError::Header(HeaderError::Truncated)));

    let mut bad = payload.clone();
    bad.headers[0] = 0xc0;
    assert_eq!(
        validated_output(&bad),
        Err(ValidationError::Header(HeaderError::InvalidHead { head: 0xc0 }))
    );
}

#[test]
fn a_mutated_header_breaks_the_chain() {
    let headers = chain(B256::repeat_byte(0x31), &[None, None, None]);
    let mut bytes = Vec::new();
    for header in headers.iter() {
        bytes.extend_from_slice(&encode(header));
    }
    let first_len = encode(&headers[0]).len();
    let mut payload = Payload {
        angstrom: ANGSTROM,
        headers: bytes,
        reward_blocks: Vec::new(),
        fee_entries: Vec::new(),
    };
    assert!(validated_output(&payload).is_ok());
    // A byte in the tail of the first header.
    payload.headers[first_len - 1] ^= 1;
    assert_eq!(validated_output(&payload), Err(ValidationError::BrokenChain));
}

#[test]
fn totals_carry_into_the_upper_half() {
    let mut sums = AssetSums::new();
    sums.add(&ASSET_A, u128::MAX);
    sums.add(&ASSET_A, 1);
    sums.add(&ASSET_B, 0);
    assert_eq!(sums.len(), 1);
    let mut expected = [0u8; 32];
    expected[15] = 1;
    assert_eq!(sums.total(0).to_be_bytes(), expected);
}

#[test]
fn aggregator_steps_header_by_header() {
    let (_, payload) = one_reward();
    let mut keccak = Keccak256::new();
    let mut scratch = [0u8; 32];
    let mut aggregator = RewardAggregator::new(&payload);
    let mut reader = Reader::from(payload.headers.as_slice());

    let first = EncodedHeaderLens::read_from(&mut reader).unwrap();
    assert_eq!(
        aggregator.validate_and_agg_next_block(&first, &mut scratch, &mut keccak),
        Ok(())
    );
    assert_eq!(scratch, [0u8; 32]);
    let second = EncodedHeaderLens::read_from(&mut reader).unwrap();
    assert_eq!(
        aggregator.validate_and_agg_next_block(&second, &mut scratch, &mut keccak),
        Ok(())
    );
    assert_eq!(scratch, keccak256(&payload.fee_entries).0);
    let sums = aggregator.into_sums();
    assert_eq!(sums.len(), 1);
    assert_eq!(sums.asset(0), &ASSET_A);
}

#[test]
fn builder_errors() {
    let oracle = vec![oracle_entry(vec![FeeEntry::new(ASSET_A, 1)])];
    let header = encode(&Header::default());

    let no_log = vec![BlockInput { header: header.clone(), receipts: Some(vec![plain_receipt(1)]) }];
    assert_eq!(build_payload(no_log, ANGSTROM, &oracle), Err(BuildError::NoRewardLog));

    let empty = vec![BlockInput { header: header.clone(), receipts: Some(Vec::new()) }];
    assert_eq!(build_payload(empty, ANGSTROM, &oracle), Err(BuildError::NoRewardLog));

    // A log of the reward contract with less than a hash as its data is no
    // reward log.
    let mut short = reward_receipt(&oracle[0]);
    short.logs[1].data.truncate(20);
    let short = vec![BlockInput { header: header.clone(), receipts: Some(vec![short]) }];
    assert_eq!(build_payload(short, ANGSTROM, &oracle), Err(BuildError::NoRewardLog));

    // Nor is one with a hash that the oracle does not know.
    let unknown = oracle_entry(vec![FeeEntry::new(ASSET_B, 2)]);
    let missing =
        vec![BlockInput { header: header.clone(), receipts: Some(vec![reward_receipt(&unknown)]) }];
    assert_eq!(build_payload(missing, ANGSTROM, &oracle), Err(BuildError::NoRewardLog));

    // A log with a known hash from another contract is none either.
    let mut foreign = reward_receipt(&oracle[0]);
    foreign.logs[1].address = [0x40; 20];
    let foreign = vec![BlockInput { header: header.clone(), receipts: Some(vec![foreign]) }];
    assert_eq!(build_payload(foreign, ANGSTROM, &oracle), Err(BuildError::NoRewardLog));

    let none = vec![BlockInput { header: header.clone(), receipts: None }];
    let payload = build_payload(none, ANGSTROM, &oracle).unwrap();
    assert_eq!(payload.headers, header);
    assert_eq!(payload.angstrom, ANGSTROM);
    assert!(payload.reward_blocks.is_empty());
    assert!(payload.fee_entries.is_empty());
}

#[test]
fn builder_takes_the_leftmost_reward_log() {
    let first = oracle_entry(vec![FeeEntry::new(ASSET_A, 1)]);
    let second = oracle_entry(vec![FeeEntry::new(ASSET_B, 2), FeeEntry::new(ASSET_A, 3)]);
    let mut both = reward_receipt(&second);
    both.logs.push(Log { address: ANGSTROM, topics: Vec::new(), data: first.reward_hash.to_vec() });
    let receipts = vec![Some(vec![plain_receipt(1), both, reward_receipt(&first)])];
    let headers = chain(B256::repeat_byte(0x11), &receipts);
    let oracle = vec![first, second];
    let payload = build_payload(inputs(&headers, &receipts), ANGSTROM, &oracle).unwrap();
    let rb: &RewardBlock = &payload.reward_blocks[0];
    assert_eq!(rb.block_index, 0);
    assert_eq!(rb.log_index, 1);
    assert_eq!(rb.fee_entries, 2);
    assert_eq!(rb.receipt, receipts[0].as_ref().unwrap()[1]);
    assert_eq!(payload.fee_entries, entries_bytes(&oracle[1].entries));
    assert!(validated_output(&payload).is_ok());
}

#[test]
fn builder_skips_reward_contract_logs_that_the_oracle_does_not_know() {
    let known = oracle_entry(vec![FeeEntry::new(ASSET_A, 7), FeeEntry::new(ASSET_B, 9)]);
    let unknown = oracle_entry(vec![FeeEntry::new(ASSET_B, 2)]);

    // One receipt: a log with an unknown hash, one with too little data, then
    // the log with the known hash.
    let mut receipt = plain_receipt(3);
    receipt.logs.push(Log {
        address: ANGSTROM,
        topics: Vec::new(),
        data: unknown.reward_hash.to_vec(),
    });
    receipt.logs.push(Log { address: ANGSTROM, topics: Vec::new(), data: vec![0x11; 31] });
    receipt.logs.push(Log { address: ANGSTROM, topics: Vec::new(), data: known.reward_hash.to_vec() });
    let receipts = vec![Some(vec![plain_receipt(1), receipt])];
    let headers = chain(B256::repeat_byte(0x11), &receipts);
    let oracle = vec![known];
    let payload = build_payload(inputs(&headers, &receipts), ANGSTROM, &oracle).unwrap();
    assert_eq!(payload.reward_blocks.len(), 1);
    assert_eq!(payload.reward_blocks[0].log_index, 3);
    assert_eq!(payload.reward_blocks[0].fee_entries, 2);
    assert_eq!(payload.reward_blocks[0].receipt, receipts[0].as_ref().unwrap()[1]);
    assert_eq!(payload.fee_entries, entries_bytes(&oracle[0].entries));
    let (_, _, sums) = validate_payload(&payload).unwrap();
    assert_eq!(sums.len(), 2);
    assert_eq!(sums.total(0).to_be_bytes(), be32(7));

    // Two receipts: the first holds only a log with an unknown hash, the
    // second holds the one with the known hash.
    let receipts = vec![Some(vec![reward_receipt(&unknown), reward_receipt(&oracle[0])])];
    let headers = chain(B256::repeat_byte(0x11), &receipts);
    let payload = build_payload(inputs(&headers, &receipts), ANGSTROM, &oracle).unwrap();
    assert_eq!(payload.reward_blocks[0].log_index, 1);
    assert_eq!(payload.reward_blocks[0].receipt, receipts[0].as_ref().unwrap()[1]);
    assert_eq!(payload.fee_entries, entries_bytes(&oracle[0].entries));
    assert!(validated_output(&payload).is_ok());
}
