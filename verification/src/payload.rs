//! The payload that the host hands to the guest: headers, the reward blocks
//! among them, and the fee entries that their logs commit to.

use vstd::prelude::*;
use alloy_consensus::Receipt as EthReceipt;
use alloy_consensus::{Eip658Value, ReceiptEnvelope, ReceiptWithBloom};
use alloy_eips::Encodable2718;
use alloy_primitives::Log as EthLog;
use self::ReceiptStatus::{Eip658, PostState};
use self::ReceiptType::{Eip1559, Eip2930, Eip4844, Eip7702, Legacy};

verus! {

/// A log of a receipt.
#[derive(Debug, Clone, PartialEq, Eq)]
pub struct Log {
    /// The contract that emitted the log.
    pub address: [u8; 20],
    /// The indexed topics.
    pub topics: Vec<[u8; 32]>,
    /// The data.
    pub data: Vec<u8>,
}

/// What a log holds.
pub struct LogView {
    pub address: Seq<u8>,
    pub topics: Seq<Seq<u8>>,
    pub data: Seq<u8>,
}

impl View for Log {
    type V = LogView;

    open spec fn view(&self) -> LogView {
        LogView {
            address: self.address@,
            topics: self.topics@.map_values(|t: [u8; 32]| t@),
            data: self.data@,
        }
    }
}

impl Log {
    /// A copy of the log.
    pub fn duplicate(&self) -> (copy: Log)
        ensures
            copy@ == self@,
    {
        let copy = Log {
            address: self.address,
            topics: vstd::slice::slice_to_vec(self.topics.as_slice()),
            data: vstd::slice::slice_to_vec(self.data.as_slice()),
        };
        assert(copy@.topics =~= self@.topics);
        copy
    }
}

/// The kind of transaction that a receipt belongs to, which decides the type
/// byte of its EIP-2718 envelope.
#[derive(Debug, Clone, Copy, PartialEq, Eq, Structural)]
pub enum ReceiptType {
    Legacy,
    Eip2930,
    Eip1559,
    Eip4844,
    Eip7702,
}

/// The outcome of a transaction as its receipt records it.
#[derive(Debug, Clone, Copy, PartialEq, Eq)]
pub enum ReceiptStatus {
    /// Whether the transaction succeeded: the status of all receipts since the
    /// Byzantium fork.
    Eip658(bool),
    /// The state root after the transaction, which older receipts hold in
    /// place of a status.
    PostState([u8; 32]),
}

/// What a receipt status holds.
pub enum ReceiptStatusView {
    Eip658(bool),
    PostState(Seq<u8>),
}

impl View for ReceiptStatus {
    type V = ReceiptStatusView;

    open spec fn view(&self) -> ReceiptStatusView {
        match *self {
            ReceiptStatus::Eip658(status) => ReceiptStatusView::Eip658(status),
            ReceiptStatus::PostState(root) => ReceiptStatusView::PostState(root@),
        }
    }
}

/// A receipt with its bloom filter, as it stands in a block's receipts trie.
#[derive(Debug, Clone, PartialEq, Eq)]
pub struct Receipt {
    /// The kind of the transaction.
    pub tx_type: ReceiptType,
    /// The outcome of the transaction.
    pub status: ReceiptStatus,
    /// Gas used in the block up to and including this transaction.
    pub cumulative_gas_used: u64,
    /// The bloom filter of the logs.
    pub logs_bloom: [u8; 256],
    /// The logs, in the order they were emitted.
    pub logs: Vec<Log>,
}

/// What a receipt holds.
pub struct ReceiptView {
    pub tx_type: ReceiptType,
    pub status: ReceiptStatusView,
    pub cumulative_gas_used: u64,
    pub logs_bloom: Seq<u8>,
    pub logs: Seq<LogView>,
}

impl View for Receipt {
    type V = ReceiptView;

    open spec fn view(&self) -> ReceiptView {
        ReceiptView {
            tx_type: self.tx_type,
            status: self.status@,
            cumulative_gas_used: self.cumulative_gas_used,
            logs_bloom: self.logs_bloom@,
            logs: self.logs@.map_values(|l: Log| l@),
        }
    }
}

impl Receipt {
    /// The EIP-2718 encoding of the receipt: what the leaf of the receipts trie
    /// holds.
    pub fn encoded_2718(&self) -> (encoded: Vec<u8>)
        ensures
            encoded@ == receipt_encoding_2718(self@),
    {
        let mut encoded: Vec<u8> = Vec::new();
        encode_receipt_2718(self, &mut encoded);
        assert(encoded@ =~= receipt_encoding_2718(self@));
        encoded
    }

    /// A copy of the receipt.
    pub fn duplicate(&self) -> (copy: Receipt)
        ensures
            copy@ == self@,
    {
        let mut logs: Vec<Log> = Vec::new();
        let n = self.logs.len();
        let mut i: usize = 0;
        while i < n
            invariant
                i <= n,
                n == self.logs@.len(),
                logs@.len() == i,
                forall|k: int| 0 <= k < i ==> (#[trigger] logs@[k])@ == self.logs@[k]@,
            decreases n - i,
        {
            logs.push(self.logs[i].duplicate());
            i += 1;
        }
        let copy = Receipt {
            tx_type: self.tx_type,
            status: self.status,
            cumulative_gas_used: self.cumulative_gas_used,
            logs_bloom: self.logs_bloom,
            logs,
        };
        assert(copy@.logs =~= self@.logs);
        copy
    }
}

/// A block with a reward log, and the proof that the log's receipt is in it.
#[derive(Debug, Clone, PartialEq, Eq)]
pub struct RewardBlock {
    /// Position of the block's header among the payload's headers.
    pub block_index: u32,
    /// Compact proof of the receipt in the block's receipts trie.
    pub proof: Vec<u8>,
    /// The receipt that holds the reward log.
    pub receipt: Receipt,
    /// Position of the reward log among the receipt's logs.
    pub log_index: u32,
    /// Number of fee entries that the log commits to.
    pub fee_entries: u32,
}

/// What a reward block holds.
pub struct RewardBlockView {
    pub block_index: u32,
    pub proof: Seq<u8>,
    pub receipt: ReceiptView,
    pub log_index: u32,
    pub fee_entries: u32,
}

impl View for RewardBlock {
    type V = RewardBlockView;

    open spec fn view(&self) -> RewardBlockView {
        RewardBlockView {
            block_index: self.block_index,
            proof: self.proof@,
            receipt: self.receipt@,
            log_index: self.log_index,
            fee_entries: self.fee_entries,
        }
    }
}

/// All that the guest needs to check a range of blocks.
#[derive(Debug, Clone, PartialEq, Eq)]
pub struct Payload {
    /// The contract whose logs count as reward logs.
    pub angstrom: [u8; 20],
    /// The encoded headers, one after the other.
    pub headers: Vec<u8>,
    /// The blocks with a reward log, by rising block index.
    pub reward_blocks: Vec<RewardBlock>,
    /// The fee entries of all reward blocks, one block after the other.
    pub fee_entries: Vec<u8>,
}

/// What a payload holds.
pub struct PayloadView {
    pub angstrom: Seq<u8>,
    pub headers: Seq<u8>,
    pub reward_blocks: Seq<RewardBlockView>,
    pub fee_entries: Seq<u8>,
}

impl View for Payload {
    type V = PayloadView;

    open spec fn view(&self) -> PayloadView {
        PayloadView {
            angstrom: self.angstrom@,
            headers: self.headers@,
            reward_blocks: self.reward_blocks@.map_values(|rb: RewardBlock| rb@),
            fee_entries: self.fee_entries@,
        }
    }
}

/// The EIP-2718 encoding of a receipt as `alloy_consensus::ReceiptEnvelope`
/// writes it: the type byte, unless the receipt is a legacy one, and the RLP
/// list of status or state root, gas used, bloom filter and logs.
pub uninterp spec fn receipt_encoding_2718(receipt: ReceiptView) -> Seq<u8>;

/// Builds the `alloy_consensus::ReceiptEnvelope` that holds the same values as
/// `receipt` and appends what its `encode_2718` writes to `out`. The contract
/// only names what is appended.
#[verifier::external_body]
pub(crate) fn encode_receipt_2718(receipt: &Receipt, out: &mut Vec<u8>)
    ensures
        final(out)@ == old(out)@ + receipt_encoding_2718(receipt@),
{
    let logs = receipt.logs.iter().map(|l| EthLog::new_unchecked(l.address.into(), l.topics.iter().map(|t| t.into()).collect(), l.data.clone().into())).collect();
    let status = match receipt.status {
        Eip658(status) => status.into(),
        PostState(root) => Eip658Value::PostState(root.into()),
    };
    let inner = ReceiptWithBloom { receipt: EthReceipt { status, cumulative_gas_used: receipt.cumulative_gas_used, logs }, logs_bloom: receipt.logs_bloom.into() };
    match receipt.tx_type {
        Legacy => ReceiptEnvelope::Legacy(inner),
        Eip2930 => ReceiptEnvelope::Eip2930(inner),
        Eip1559 => ReceiptEnvelope::Eip1559(inner),
        Eip4844 => ReceiptEnvelope::Eip4844(inner),
        Eip7702 => ReceiptEnvelope::Eip7702(inner),
    }.encode_2718(out)
}

} // verus!
