//! Building a payload from blocks, their receipts and the fee entries behind
//! their reward logs.

use vstd::prelude::*;
use crate::bytes::{append_bytes, bytes_eq};
use crate::extractor::{extracted_proof, get_proof_for_receipt, receipts_view};
use crate::fee_summary::FeeEntry;
use crate::payload::{
    Log, LogView, Payload, PayloadView, Receipt, ReceiptView, RewardBlock, RewardBlockView,
};

verus! {

/// A block as the builder takes it.
#[derive(Debug, Clone)]
pub struct BlockInput {
    /// The RLP encoding of the block's header.
    pub header: Vec<u8>,
    /// The receipts of the block, if the block is to carry a reward.
    pub receipts: Option<Vec<Receipt>>,
}

/// What a block input holds.
pub struct BlockInputView {
    pub header: Seq<u8>,
    pub receipts: Option<Seq<ReceiptView>>,
}

impl View for BlockInput {
    type V = BlockInputView;

    open spec fn view(&self) -> BlockInputView {
        BlockInputView {
            header: self.header@,
            receipts: match self.receipts {
                Some(receipts) => Some(receipts_view(receipts@)),
                None => None,
            },
        }
    }
}

/// The fee entries that a reward hash commits to.
#[derive(Debug, Clone)]
pub struct OracleEntry {
    /// The Keccak-256 hash of the entries.
    pub reward_hash: [u8; 32],
    /// The entries.
    pub entries: Vec<FeeEntry>,
}

/// What an oracle entry holds.
pub struct OracleEntryView {
    pub reward_hash: Seq<u8>,
    pub entries: Seq<Seq<u8>>,
}

impl View for OracleEntry {
    type V = OracleEntryView;

    open spec fn view(&self) -> OracleEntryView {
        OracleEntryView {
            reward_hash: self.reward_hash@,
            entries: self.entries@.map_values(|e: FeeEntry| e@),
        }
    }
}

/// What a list of block inputs holds.
pub open spec fn blocks_view(blocks: Seq<BlockInput>) -> Seq<BlockInputView> {
    blocks.map_values(|b: BlockInput| b@)
}

/// What an oracle holds.
pub open spec fn oracle_view(oracle: Seq<OracleEntry>) -> Seq<OracleEntryView> {
    oracle.map_values(|e: OracleEntry| e@)
}

/// Why no payload was built.
#[derive(Debug, Clone, Copy, PartialEq, Eq, Structural)]
pub enum BuildError {
    /// A block came with receipts, and none of them holds a log of the reward
    /// contract whose data starts with a hash that the oracle knows.
    NoRewardLog,
    /// A position or a count does not fit in 32 bits.
    IndexOverflow,
    /// No compact proof could be made for the receipt.
    NoProof,
}

/// Where the first entry for `hash` stands in the oracle at or after `from`;
/// the length of the oracle if there is none.
pub open spec fn oracle_lookup(oracle: Seq<OracleEntryView>, hash: Seq<u8>, from: int) -> int
    decreases oracle.len() - from,
{
    if from >= oracle.len() {
        oracle.len() as int
    } else if oracle[from].reward_hash == hash {
        from
    } else {
        oracle_lookup(oracle, hash, from + 1)
    }
}

/// Whether a log is a reward log: the reward contract emitted it, and its
/// first 32 data bytes are a hash that the oracle has an entry for.
pub open spec fn is_reward_log(
    log: LogView,
    angstrom: Seq<u8>,
    oracle: Seq<OracleEntryView>,
) -> bool {
    &&& log.address == angstrom
    &&& log.data.len() >= 32
    &&& oracle_lookup(oracle, log.data.take(32), 0) < oracle.len()
}

/// Where the first reward log stands in `logs` at or after `from`; the
/// length of `logs` if there is none.
pub open spec fn first_log(
    logs: Seq<LogView>,
    angstrom: Seq<u8>,
    oracle: Seq<OracleEntryView>,
    from: int,
) -> int
    decreases logs.len() - from,
{
    if from >= logs.len() {
        logs.len() as int
    } else if is_reward_log(logs[from], angstrom, oracle) {
        from
    } else {
        first_log(logs, angstrom, oracle, from + 1)
    }
}

/// The first receipt at or after `from` that holds a reward log, and the
/// first reward log in it: the leftmost pair of receipt and log.
pub open spec fn first_reward(
    receipts: Seq<ReceiptView>,
    angstrom: Seq<u8>,
    oracle: Seq<OracleEntryView>,
    from: int,
) -> Option<(int, int)>
    decreases receipts.len() - from,
{
    if from >= receipts.len() || from < 0 {
        None
    } else if first_log(receipts[from].logs, angstrom, oracle, 0) < receipts[from].logs.len() {
        Some((from, first_log(receipts[from].logs, angstrom, oracle, 0)))
    } else {
        first_reward(receipts, angstrom, oracle, from + 1)
    }
}

/// `first_log` gives the first place at or after `from` where a reward log
/// stands, and the length if none stands there.
pub proof fn lemma_first_log(
    logs: Seq<LogView>,
    angstrom: Seq<u8>,
    oracle: Seq<OracleEntryView>,
    from: int,
)
    requires
        0 <= from <= logs.len(),
    ensures
        from <= first_log(logs, angstrom, oracle, from) <= logs.len(),
        first_log(logs, angstrom, oracle, from) < logs.len() ==> is_reward_log(
            logs[first_log(logs, angstrom, oracle, from)],
            angstrom,
            oracle,
        ),
        forall|l: int|
            from <= l < first_log(logs, angstrom, oracle, from) ==> !is_reward_log(
                #[trigger] logs[l],
                angstrom,
                oracle,
            ),
    decreases logs.len() - from,
{
    if from < logs.len() && !is_reward_log(logs[from], angstrom, oracle) {
        lemma_first_log(logs, angstrom, oracle, from + 1);
    }
}

/// The leftmost rule: what `first_reward` finds is a reward log, no receipt
/// before its receipt holds a reward log, and no log before it in its receipt
/// is one. It finds nothing only where no receipt from `from` on holds a
/// reward log.
pub proof fn lemma_first_reward_is_leftmost(
    receipts: Seq<ReceiptView>,
    angstrom: Seq<u8>,
    oracle: Seq<OracleEntryView>,
    from: int,
)
    requires
        0 <= from <= receipts.len(),
    ensures
        match first_reward(receipts, angstrom, oracle, from) {
            Some((r, l)) => {
                &&& from <= r < receipts.len()
                &&& 0 <= l < receipts[r].logs.len()
                &&& is_reward_log(receipts[r].logs[l], angstrom, oracle)
                &&& forall|k: int|
                    0 <= k < l ==> !is_reward_log(#[trigger] receipts[r].logs[k], angstrom, oracle)
                &&& forall|q: int, k: int|
                    from <= q < r && 0 <= k < receipts[q].logs.len() ==> !is_reward_log(
                        #[trigger] receipts[q].logs[k],
                        angstrom,
                        oracle,
                    )
            },
            None => forall|q: int, k: int|
                from <= q < receipts.len() && 0 <= k < receipts[q].logs.len() ==> !is_reward_log(
                    #[trigger] receipts[q].logs[k],
                    angstrom,
                    oracle,
                ),
        },
    decreases receipts.len() - from,
{
    if from < receipts.len() {
        lemma_first_log(receipts[from].logs, angstrom, oracle, 0);
        if first_log(receipts[from].logs, angstrom, oracle, 0) >= receipts[from].logs.len() {
            lemma_first_reward_is_leftmost(receipts, angstrom, oracle, from + 1);
        }
    }
}

/// The first `n` of `entries`, back to back.
pub open spec fn entries_bytes(entries: Seq<Seq<u8>>, n: nat) -> Seq<u8>
    decreases n,
{
    if n == 0 {
        Seq::empty()
    } else {
        entries_bytes(entries, (n - 1) as nat) + entries[n - 1]
    }
}

/// The reward block for a block with the given receipts, and the bytes of its
/// fee entries. The reward log is the leftmost log, by receipt and then by
/// log, that the reward contract emitted and whose first 32 data bytes the
/// oracle knows; the fee entries are those of the oracle's first entry for
/// that hash.
pub open spec fn reward_block_of(
    receipts: Seq<ReceiptView>,
    angstrom: Seq<u8>,
    oracle: Seq<OracleEntryView>,
    block_index: nat,
) -> Result<(RewardBlockView, Seq<u8>), BuildError> {
    match first_reward(receipts, angstrom, oracle, 0) {
        None => Err(BuildError::NoRewardLog),
        Some((r, l)) => {
            let data = receipts[r].logs[l].data;
            let o = oracle_lookup(oracle, data.take(32), 0);
            if block_index > u32::MAX || r > u32::MAX || l > u32::MAX || oracle[o].entries.len()
                > u32::MAX {
                Err(BuildError::IndexOverflow)
            } else {
                match extracted_proof(receipts, r as nat) {
                    None => Err(BuildError::NoProof),
                    Some(proof) => Ok(
                        (
                            RewardBlockView {
                                block_index: block_index as u32,
                                proof,
                                receipt: receipts[r],
                                log_index: l as u32,
                                fee_entries: oracle[o].entries.len() as u32,
                            },
                            entries_bytes(oracle[o].entries, oracle[o].entries.len()),
                        ),
                    ),
                }
            }
        },
    }
}

/// The payload for the first `n` blocks: their headers back to back, and a
/// reward block with its fee entries for each block that came with receipts.
/// The error is that of the first block that fails.
pub open spec fn built_payload(
    blocks: Seq<BlockInputView>,
    angstrom: Seq<u8>,
    oracle: Seq<OracleEntryView>,
    n: nat,
) -> Result<PayloadView, BuildError>
    decreases n,
{
    if n == 0 {
        Ok(
            PayloadView {
                angstrom,
                headers: Seq::empty(),
                reward_blocks: Seq::empty(),
                fee_entries: Seq::empty(),
            },
        )
    } else {
        match built_payload(blocks, angstrom, oracle, (n - 1) as nat) {
            Err(e) => Err(e),
            Ok(before) => {
                let block = blocks[n - 1];
                let headers = before.headers + block.header;
                match block.receipts {
                    None => Ok(PayloadView { headers, ..before }),
                    Some(receipts) => match reward_block_of(
                        receipts,
                        angstrom,
                        oracle,
                        (n - 1) as nat,
                    ) {
                        Err(e) => Err(e),
                        Ok((rb, fees)) => Ok(
                            PayloadView {
                                angstrom,
                                headers,
                                reward_blocks: before.reward_blocks.push(rb),
                                fee_entries: before.fee_entries + fees,
                            },
                        ),
                    },
                }
            },
        }
    }
}

/// Finds the first entry of the oracle for `hash`.
fn find_oracle_entry(oracle: &[OracleEntry], hash: &[u8]) -> (at: usize)
    ensures
        at == oracle_lookup(oracle_view(oracle@), hash@, 0),
        at <= oracle@.len(),
{
    let n = oracle.len();
    let ghost views = oracle_view(oracle@);
    let mut i: usize = 0;
    while i < n
        invariant
            i <= n,
            n == oracle@.len(),
            views == oracle_view(oracle@),
            oracle_lookup(views, hash@, 0) == oracle_lookup(views, hash@, i as int),
        decreases n - i,
    {
        assert(views[i as int] == oracle@[i as int]@);
        if bytes_eq(&oracle[i].reward_hash, hash) {
            return i;
        }
        i += 1;
    }
    n
}

/// The oracle's first entry for the hash in a log, if the log is a reward
/// log.
fn reward_entry_of(log: &Log, angstrom: &[u8; 20], oracle: &[OracleEntry]) -> (entry: Option<usize>)
    ensures
        match entry {
            Some(at) => {
                &&& is_reward_log(log@, angstrom@, oracle_view(oracle@))
                &&& at == oracle_lookup(oracle_view(oracle@), log@.data.take(32), 0)
                &&& at < oracle@.len()
            },
            None => !is_reward_log(log@, angstrom@, oracle_view(oracle@)),
        },
{
    if !bytes_eq(&log.address, angstrom) {
        return None;
    }
    if log.data.len() < 32 {
        return None;
    }
    let reward_hash = &log.data.as_slice()[0..32];
    let at = find_oracle_entry(oracle, reward_hash);
    if at >= oracle.len() {
        return None;
    }
    Some(at)
}

/// Finds the first reward log among `logs`, and the oracle's entry for it.
fn find_log(logs: &[Log], angstrom: &[u8; 20], oracle: &[OracleEntry]) -> (found: Option<
    (usize, usize),
>)
    ensures
        match found {
            Some((l, at)) => {
                &&& l < logs@.len()
                &&& l == first_log(
                    logs@.map_values(|l: Log| l@),
                    angstrom@,
                    oracle_view(oracle@),
                    0,
                )
                &&& at == oracle_lookup(oracle_view(oracle@), logs@[l as int]@.data.take(32), 0)
                &&& at < oracle@.len()
            },
            None => first_log(logs@.map_values(|l: Log| l@), angstrom@, oracle_view(oracle@), 0)
                == logs@.len(),
        },
{
    let n = logs.len();
    let ghost views = logs@.map_values(|l: Log| l@);
    let ghost entries = oracle_view(oracle@);
    let mut i: usize = 0;
    while i < n
        invariant
            i <= n,
            n == logs@.len(),
            views == logs@.map_values(|l: Log| l@),
            entries == oracle_view(oracle@),
            first_log(views, angstrom@, entries, 0) == first_log(
                views,
                angstrom@,
                entries,
                i as int,
            ),
        decreases n - i,
    {
        assert(views[i as int] == logs@[i as int]@);
        match reward_entry_of(&logs[i], angstrom, oracle) {
            Some(at) => {
                return Some((i, at));
            },
            None => {},
        }
        i += 1;
    }
    None
}

/// Finds the leftmost reward log: the first receipt that holds one, the first
/// one in it, and the oracle's entry for it.
fn find_reward(receipts: &[Receipt], angstrom: &[u8; 20], oracle: &[OracleEntry]) -> (found:
    Option<(usize, usize, usize)>)
    ensures
        match found {
            Some((r, l, at)) => {
                &&& first_reward(receipts_view(receipts@), angstrom@, oracle_view(oracle@), 0)
                    == Some((r as int, l as int))
                &&& r < receipts@.len()
                &&& l < receipts@[r as int].logs@.len()
                &&& at == oracle_lookup(
                    oracle_view(oracle@),
                    receipts@[r as int].logs@[l as int]@.data.take(32),
                    0,
                )
                &&& at < oracle@.len()
            },
            None => first_reward(receipts_view(receipts@), angstrom@, oracle_view(oracle@), 0)
                is None,
        },
{
    let n = receipts.len();
    let ghost views = receipts_view(receipts@);
    let ghost entries = oracle_view(oracle@);
    let mut i: usize = 0;
    while i < n
        invariant
            i <= n,
            n == receipts@.len(),
            views == receipts_view(receipts@),
            entries == oracle_view(oracle@),
            first_reward(views, angstrom@, entries, 0) == first_reward(
                views,
                angstrom@,
                entries,
                i as int,
            ),
        decreases n - i,
    {
        assert(views[i as int] == receipts@[i as int]@);
        match find_log(receipts[i].logs.as_slice(), angstrom, oracle) {
            Some((l, at)) => {
                return Some((i, l, at));
            },
            None => {},
        }
        i += 1;
    }
    None
}

/// Builds the reward block for a block with the given receipts, and appends
/// the bytes of its fee entries to `fee_entries`.
fn build_reward_block(
    receipts: &[Receipt],
    angstrom: &[u8; 20],
    fee_summary_oracle: &[OracleEntry],
    block_index: usize,
    fee_entries: &mut Vec<u8>,
) -> (built: Result<RewardBlock, BuildError>)
    ensures
        match built {
            Ok(rb) => reward_block_of(
                receipts_view(receipts@),
                angstrom@,
                oracle_view(fee_summary_oracle@),
                block_index as nat,
            ) matches Ok((view, fees)) && view == rb@ && final(fee_entries)@ == old(fee_entries)@
                + fees,
            Err(e) => reward_block_of(
                receipts_view(receipts@),
                angstrom@,
                oracle_view(fee_summary_oracle@),
                block_index as nat,
            ) == Err::<(RewardBlockView, Seq<u8>), BuildError>(e) && final(fee_entries)@ == old(
                fee_entries,
            )@,
        },
{
    let (receipt_index, log_index, at) = match find_reward(
        receipts,
        angstrom,
        fee_summary_oracle,
    ) {
        Some(found) => found,
        None => {
            return Err(BuildError::NoRewardLog);
        },
    };
    let receipt = &receipts[receipt_index];
    assert(receipts_view(receipts@)[receipt_index as int] == receipt@);
    assert(receipt@.logs[log_index as int] == receipt.logs@[log_index as int]@);
    let block_fee_entries = &fee_summary_oracle[at].entries;
    assert(oracle_view(fee_summary_oracle@)[at as int] == fee_summary_oracle@[at as int]@);
    let count = block_fee_entries.len();
    if block_index > u32::MAX as usize || receipt_index > u32::MAX as usize || log_index
        > u32::MAX as usize || count > u32::MAX as usize {
        return Err(BuildError::IndexOverflow);
    }
    let proof = match get_proof_for_receipt(receipts, receipt_index as u32) {
        Some(proof) => proof,
        None => {
            return Err(BuildError::NoProof);
        },
    };
    let ghost entries = fee_summary_oracle@[at as int]@.entries;
    let mut i: usize = 0;
    while i < count
        invariant
            i <= count,
            count == block_fee_entries@.len(),
            entries == block_fee_entries@.map_values(|e: FeeEntry| e@),
            fee_entries@ == old(fee_entries)@ + entries_bytes(entries, i as nat),
        decreases count - i,
    {
        assert(entries[i as int] == block_fee_entries@[i as int]@);
        append_bytes(fee_entries, block_fee_entries[i].as_bytes());
        i += 1;
    }
    Ok(
        RewardBlock {
            block_index: block_index as u32,
            proof,
            receipt: receipt.duplicate(),
            log_index: log_index as u32,
            fee_entries: count as u32,
        },
    )
}

/// Builds the payload for `blocks`: see `built_payload`.
pub fn build_payload(
    blocks: Vec<BlockInput>,
    angstrom: [u8; 20],
    fee_summary_oracle: &[OracleEntry],
) -> (payload: Result<Payload, BuildError>)
    ensures
        match payload {
            Ok(p) => built_payload(
                blocks_view(blocks@),
                angstrom@,
                oracle_view(fee_summary_oracle@),
                blocks@.len(),
            ) == Ok::<PayloadView, BuildError>(p@),
            Err(e) => built_payload(
                blocks_view(blocks@),
                angstrom@,
                oracle_view(fee_summary_oracle@),
                blocks@.len(),
            ) == Err::<PayloadView, BuildError>(e),
        },
{
    let mut headers: Vec<u8> = Vec::new();
    let mut reward_blocks: Vec<RewardBlock> = Vec::new();
    let mut fee_entries: Vec<u8> = Vec::new();
    let ghost views = blocks_view(blocks@);
    let ghost oracle = oracle_view(fee_summary_oracle@);

    let n = blocks.len();
    let mut block_index: usize = 0;
    assert(reward_blocks@.map_values(|rb: RewardBlock| rb@) =~= Seq::<RewardBlockView>::empty());
    while block_index < n
        invariant
            block_index <= n,
            n == blocks@.len(),
            views == blocks_view(blocks@),
            oracle == oracle_view(fee_summary_oracle@),
            built_payload(views, angstrom@, oracle, block_index as nat) == Ok::<
                PayloadView,
                BuildError,
            >(
                PayloadView {
                    angstrom: angstrom@,
                    headers: headers@,
                    reward_blocks: reward_blocks@.map_values(|rb: RewardBlock| rb@),
                    fee_entries: fee_entries@,
                },
            ),
        decreases n - block_index,
    {
        let block = &blocks[block_index];
        assert(views[block_index as int] == block@);
        append_bytes(&mut headers, block.header.as_slice());
        match &block.receipts {
            Some(receipts) => {
                let ghost before = reward_blocks@.map_values(|rb: RewardBlock| rb@);
                match build_reward_block(
                    receipts.as_slice(),
                    &angstrom,
                    fee_summary_oracle,
                    block_index,
                    &mut fee_entries,
                ) {
                    Ok(rb) => {
                        reward_blocks.push(rb);
                        assert(reward_blocks@.map_values(|rb: RewardBlock| rb@) =~= before.push(
                            rb@,
                        ));
                    },
                    Err(e) => {
                        proof {
                            lemma_built_payload_err(
                                views,
                                angstrom@,
                                oracle,
                                (block_index + 1) as nat,
                                n as nat,
                            );
                        }
                        return Err(e);
                    },
                }
            },
            None => {},
        }
        block_index += 1;
    }

    Ok(Payload { angstrom, headers, reward_blocks, fee_entries })
}

/// Once a block has failed, so has every longer run of blocks, in the same
/// way.
pub proof fn lemma_built_payload_err(
    blocks: Seq<BlockInputView>,
    angstrom: Seq<u8>,
    oracle: Seq<OracleEntryView>,
    k: nat,
    n: nat,
)
    requires
        k <= n,
        built_payload(blocks, angstrom, oracle, k) is Err,
    ensures
        built_payload(blocks, angstrom, oracle, n) == built_payload(blocks, angstrom, oracle, k),
    decreases n - k,
{
    if k < n {
        lemma_built_payload_err(blocks, angstrom, oracle, k, (n - 1) as nat);
    }
}

} // verus!
