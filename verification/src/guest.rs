//! The check that the guest runs on a payload.
//!
//! The headers are walked in order. Each must name the hash of the one before
//! as its parent. Where the next reward block belongs to the header at hand,
//! its log, its fee entries and its receipt proof are checked against the
//! header, and the fee entries are added to the totals.

use vstd::prelude::*;
use crate::bytes::{append_bytes, be_fixed, bytes_eq};
use crate::fee_summary::{
    entry_amount, entry_asset, entry_at, FeeSummaryInspector, FEE_ENTRY_SIZE,
};
use crate::header_lens::{
    lemma_parse_header_prefix, parent_hash_of, parse_header, receipts_root_of, EncodedHeaderLens,
    HeaderError,
};
use crate::keccak::{hash_from, keccak256, Keccak256, SpongeState};
use crate::payload::{
    encode_receipt_2718, receipt_encoding_2718, Payload, PayloadView, RewardBlock,
    RewardBlockView,
};
use crate::reader::Reader;
use crate::receipt_trie::{
    max_value_len, receipt_trie_root_from_proof, trie_root, TrieProofError,
};
use crate::sums::{
    add_amount, lemma_add_amount_bounded, lemma_add_amount_total, lemma_add_amount_wf,
    lemma_bounded_total_fits, sums_bounded, sums_wf, total_of, AssetSums,
};

verus! {

/// Why a payload was turned down.
#[derive(Debug, Clone, Copy, PartialEq, Eq, Structural)]
pub enum ValidationError {
    /// The headers do not go on with an encoded header.
    Header(HeaderError),
    /// A header does not name the hash of the header before it as its parent.
    BrokenChain,
    /// A reward block points past the logs of its receipt.
    LogIndexOutOfRange,
    /// A reward log was not emitted by the reward contract.
    WrongLogAddress,
    /// A reward block claims more fee entries than are left.
    FeeEntriesOutOfRange,
    /// The hash of a block's fee entries is not what its reward log holds.
    RewardHashMismatch,
    /// A receipt proof gave no root.
    Proof(TrieProofError),
    /// A receipt proof leads to another root than that of its header.
    ReceiptsRootMismatch,
    /// A reward block belongs to no header, or stands out of order.
    RewardBlockNotReached,
}

/// `sums` after the first `n` entries of `blob` were added.
pub open spec fn add_entries(sums: Seq<(Seq<u8>, nat)>, blob: Seq<u8>, n: nat) -> Seq<
    (Seq<u8>, nat),
>
    decreases n,
{
    if n == 0 {
        sums
    } else {
        add_amount(
            add_entries(sums, blob, (n - 1) as nat),
            entry_asset(entry_at(blob, n - 1)),
            entry_amount(entry_at(blob, n - 1)),
        )
    }
}

/// The fee entries of a reward block in the payload's blob, when `fee_cursor`
/// entries were taken before.
pub open spec fn block_fee_blob(fee_entries: Seq<u8>, fee_cursor: nat, count: nat) -> Seq<u8> {
    fee_entries.subrange(fee_cursor * FEE_ENTRY_SIZE, (fee_cursor + count) * FEE_ENTRY_SIZE)
}

/// Whether the log that a reward block points to is there, was emitted by the
/// reward contract, and comes with fee entries that are there.
pub open spec fn reward_log_in_place(
    angstrom: Seq<u8>,
    fee_entries: Seq<u8>,
    rb: RewardBlockView,
    fee_cursor: nat,
) -> Result<(), ValidationError> {
    if rb.log_index >= rb.receipt.logs.len() {
        Err(ValidationError::LogIndexOutOfRange)
    } else if rb.receipt.logs[rb.log_index as int].address != angstrom {
        Err(ValidationError::WrongLogAddress)
    } else if (fee_cursor + rb.fee_entries) * FEE_ENTRY_SIZE > fee_entries.len() {
        Err(ValidationError::FeeEntriesOutOfRange)
    } else {
        Ok(())
    }
}

/// The checks on one reward block, in order: the log is in place, the first
/// 32 bytes of its data are the hash of the block's fee entries, and the
/// proof leads from `encoded_receipt` to `receipts_root`. The result is the
/// block's fee entries. `sponge` is the state of the sponge at the start.
pub open spec fn reward_block_checks(
    angstrom: Seq<u8>,
    fee_entries: Seq<u8>,
    rb: RewardBlockView,
    encoded_receipt: Seq<u8>,
    fee_cursor: nat,
    sponge: SpongeState,
    receipts_root: Seq<u8>,
) -> Result<Seq<u8>, ValidationError> {
    match reward_log_in_place(angstrom, fee_entries, rb, fee_cursor) {
        Err(e) => Err(e),
        Ok(()) => {
            let blob = block_fee_blob(fee_entries, fee_cursor, rb.fee_entries as nat);
            let data = rb.receipt.logs[rb.log_index as int].data;
            if data.len() < 32 || hash_from(sponge, blob) != data.take(32) {
                Err(ValidationError::RewardHashMismatch)
            } else if encoded_receipt.len() > max_value_len() {
                Err(ValidationError::Proof(TrieProofError::ValueTooLong))
            } else {
                match trie_root(rb.proof, encoded_receipt) {
                    None => Err(ValidationError::Proof(TrieProofError::Truncated)),
                    Some(root) => if root != receipts_root {
                        Err(ValidationError::ReceiptsRootMismatch)
                    } else {
                        Ok(blob)
                    },
                }
            }
        },
    }
}

/// What the scratch buffer holds after the checks on a reward block: the hash
/// of the block's fee entries if the checks got as far as hashing them.
pub open spec fn scratch_after(
    angstrom: Seq<u8>,
    fee_entries: Seq<u8>,
    rb: RewardBlockView,
    fee_cursor: nat,
    sponge: SpongeState,
    scratch: Seq<u8>,
) -> Seq<u8> {
    if reward_log_in_place(angstrom, fee_entries, rb, fee_cursor) is Ok {
        hash_from(sponge, block_fee_blob(fee_entries, fee_cursor, rb.fee_entries as nat))
    } else {
        scratch
    }
}

/// Checks that the log of a reward block is in place and hands out the
/// block's fee entries.
fn reward_fee_entries<'p>(payload: &'p Payload, rb: &RewardBlock, fee_entry_offset: usize) -> (fees:
    Result<FeeSummaryInspector<'p>, ValidationError>)
    requires
        fee_entry_offset * FEE_ENTRY_SIZE <= payload.fee_entries@.len(),
    ensures
        match fees {
            Ok(f) => {
                &&& f.wf()
                &&& reward_log_in_place(
                    payload@.angstrom,
                    payload@.fee_entries,
                    rb@,
                    fee_entry_offset as nat,
                ) is Ok
                &&& f@ == block_fee_blob(
                    payload@.fee_entries,
                    fee_entry_offset as nat,
                    rb@.fee_entries as nat,
                )
            },
            Err(e) => reward_log_in_place(
                payload@.angstrom,
                payload@.fee_entries,
                rb@,
                fee_entry_offset as nat,
            ) == Err::<(), ValidationError>(e),
        },
{
    if rb.log_index as usize >= rb.receipt.logs.len() {
        return Err(ValidationError::LogIndexOutOfRange);
    }
    let log = &rb.receipt.logs[rb.log_index as usize];
    assert(log@ == rb@.receipt.logs[rb.log_index as int]);
    if !bytes_eq(&log.address, &payload.angstrom) {
        return Err(ValidationError::WrongLogAddress);
    }
    let block_fee_entries = rb.fee_entries as usize;
    let total = payload.fee_entries.len();
    let start = fee_entry_offset * FEE_ENTRY_SIZE;
    if block_fee_entries > (total - start) / FEE_ENTRY_SIZE {
        return Err(ValidationError::FeeEntriesOutOfRange);
    }
    let end = start + block_fee_entries * FEE_ENTRY_SIZE;
    assert(end == (fee_entry_offset + block_fee_entries) * 36);
    let blob: &'p [u8] = &payload.fee_entries.as_slice()[start..end];
    assert(blob@.len() == block_fee_entries * 36);
    Ok(FeeSummaryInspector::from_whole_entries(blob))
}

/// Runs the checks on one reward block, given the EIP-2718 encoding of its
/// receipt, and hands out the block's fee entries if all of them hold.
/// `fee_entry_offset` is the number of fee entries that earlier blocks took.
/// The sponge is ready for a new message afterwards.
pub fn verify_reward_block<'p>(
    keccak: &mut Keccak256,
    payload: &'p Payload,
    rb: &RewardBlock,
    encoded_receipt: &[u8],
    fee_entry_offset: usize,
    receipts_root: &[u8; 32],
    hash_out: &mut [u8; 32],
) -> (fees: Result<FeeSummaryInspector<'p>, ValidationError>)
    requires
        old(keccak).wf(),
        fee_entry_offset * FEE_ENTRY_SIZE <= payload.fee_entries@.len(),
    ensures
        final(keccak).wf(),
        final(keccak)@ == SpongeState::initial(),
        final(hash_out)@ == scratch_after(
            payload@.angstrom,
            payload@.fee_entries,
            rb@,
            fee_entry_offset as nat,
            old(keccak)@,
            old(hash_out)@,
        ),
        match fees {
            Ok(f) => f.wf() && reward_block_checks(
                payload@.angstrom,
                payload@.fee_entries,
                rb@,
                encoded_receipt@,
                fee_entry_offset as nat,
                old(keccak)@,
                receipts_root@,
            ) == Ok::<Seq<u8>, ValidationError>(f@),
            Err(e) => reward_block_checks(
                payload@.angstrom,
                payload@.fee_entries,
                rb@,
                encoded_receipt@,
                fee_entry_offset as nat,
                old(keccak)@,
                receipts_root@,
            ) == Err::<Seq<u8>, ValidationError>(e),
        },
{
    let fee_summaries = match reward_fee_entries(payload, rb, fee_entry_offset) {
        Ok(f) => f,
        Err(e) => {
            keccak.reset();
            return Err(e);
        },
    };
    let log = &rb.receipt.logs[rb.log_index as usize];
    assert(log@ == rb@.receipt.logs[rb.log_index as int]);
    keccak.update(fee_summaries.as_slice());
    keccak.finalize_and_reset(hash_out);
    if log.data.len() < 32 || !bytes_eq(hash_out, &log.data.as_slice()[0..32]) {
        return Err(ValidationError::RewardHashMismatch);
    }
    let computed_receipt_root = match receipt_trie_root_from_proof(
        keccak,
        rb.proof.as_slice(),
        encoded_receipt,
    ) {
        Ok(root) => root,
        Err(e) => {
            return Err(ValidationError::Proof(e));
        },
    };
    if !bytes_eq(&computed_receipt_root, receipts_root) {
        return Err(ValidationError::ReceiptsRootMismatch);
    }
    Ok(fee_summaries)
}

/// What an aggregator stands for between two headers.
pub struct AggState {
    /// The totals so far.
    pub sums: Seq<(Seq<u8>, nat)>,
    /// Number of fee entries taken so far.
    pub fee_cursor: nat,
    /// Index of the next header.
    pub block_index: nat,
    /// Number of reward blocks taken so far.
    pub next_reward: nat,
}

impl AggState {
    /// The state before the first header.
    pub open spec fn start() -> AggState {
        AggState { sums: Seq::empty(), fee_cursor: 0, block_index: 0, next_reward: 0 }
    }
}

/// Whether the next reward block belongs to the header at hand.
pub open spec fn reward_due(payload: PayloadView, st: AggState) -> bool {
    st.next_reward < payload.reward_blocks.len() && payload.reward_blocks[st.next_reward
        as int].block_index == st.block_index
}

/// The state after the header with the given receipts root. Where the next
/// reward block belongs to this header it is checked and its fee entries are
/// added; a header without reward block only counts. `sponge` is the state of
/// the sponge at the start.
pub open spec fn agg_step(
    payload: PayloadView,
    st: AggState,
    sponge: SpongeState,
    receipts_root: Seq<u8>,
) -> Result<AggState, ValidationError> {
    if reward_due(payload, st) {
        let rb = payload.reward_blocks[st.next_reward as int];
        match reward_block_checks(
            payload.angstrom,
            payload.fee_entries,
            rb,
            receipt_encoding_2718(rb.receipt),
            st.fee_cursor,
            sponge,
            receipts_root,
        ) {
            Err(e) => Err(e),
            Ok(blob) => Ok(
                AggState {
                    sums: add_entries(st.sums, blob, rb.fee_entries as nat),
                    fee_cursor: st.fee_cursor + rb.fee_entries as nat,
                    block_index: st.block_index + 1,
                    next_reward: st.next_reward + 1,
                },
            ),
        }
    } else {
        Ok(AggState { block_index: st.block_index + 1, ..st })
    }
}

/// What the scratch buffer holds after a step.
pub open spec fn scratch_after_step(
    payload: PayloadView,
    st: AggState,
    sponge: SpongeState,
    scratch: Seq<u8>,
) -> Seq<u8> {
    if reward_due(payload, st) {
        scratch_after(
            payload.angstrom,
            payload.fee_entries,
            payload.reward_blocks[st.next_reward as int],
            st.fee_cursor,
            sponge,
            scratch,
        )
    } else {
        scratch
    }
}

/// Walks the reward blocks of a payload in step with its headers and sums up
/// the fee entries of those that check.
pub struct RewardAggregator<'p> {
    sums: AssetSums,
    fee_entry_offset: usize,
    block_index: usize,
    next_reward: usize,
    payload: &'p Payload,
    encoded_receipt_buf: Vec<u8>,
}

impl<'p> View for RewardAggregator<'p> {
    type V = AggState;

    closed spec fn view(&self) -> AggState {
        AggState {
            sums: self.sums@,
            fee_cursor: self.fee_entry_offset as nat,
            block_index: self.block_index as nat,
            next_reward: self.next_reward as nat,
        }
    }
}

impl<'p> RewardAggregator<'p> {
    /// The payload that the aggregator walks.
    pub closed spec fn payload(&self) -> &'p Payload {
        self.payload
    }

    /// The cursors are inside the payload, and the totals are those of no
    /// more entries than were taken.
    pub closed spec fn wf(&self) -> bool {
        &&& self.fee_entry_offset * FEE_ENTRY_SIZE <= self.payload.fee_entries@.len()
        &&& self.next_reward <= self.payload.reward_blocks@.len()
        &&& sums_bounded(self.sums@, self.fee_entry_offset as nat)
    }

    /// An aggregator before the first header of `payload`.
    pub fn new(payload: &'p Payload) -> (aggregator: Self)
        ensures
            aggregator.wf(),
            aggregator.payload() == payload,
            aggregator@ == AggState::start(),
    {
        RewardAggregator {
            sums: AssetSums::new(),
            fee_entry_offset: 0,
            block_index: 0,
            next_reward: 0,
            payload,
            encoded_receipt_buf: Vec::with_capacity(512),
        }
    }

    /// Takes the step for `header`: see `agg_step`. A failed step leaves the
    /// aggregator as it was. `hash_out` is scratch space; the sponge is used,
    /// and left ready for a new message, only where a reward block is due.
    #[verifier::loop_isolation(false)]
    pub fn validate_and_agg_next_block(
        &mut self,
        header: &EncodedHeaderLens,
        hash_out: &mut [u8; 32],
        keccak: &mut Keccak256,
    ) -> (step: Result<(), ValidationError>)
        requires
            old(self).wf(),
            header.wf(),
            old(keccak).wf(),
            old(self)@.block_index < usize::MAX,
        ensures
            final(self).wf(),
            final(self).payload() == old(self).payload(),
            final(keccak).wf(),
            final(keccak)@ == if reward_due(old(self).payload()@, old(self)@) {
                SpongeState::initial()
            } else {
                old(keccak)@
            },
            final(hash_out)@ == scratch_after_step(
                old(self).payload()@,
                old(self)@,
                old(keccak)@,
                old(hash_out)@,
            ),
            match step {
                Ok(()) => agg_step(
                    old(self).payload()@,
                    old(self)@,
                    old(keccak)@,
                    receipts_root_of(header@),
                ) == Ok::<AggState, ValidationError>(final(self)@),
                Err(e) => {
                    &&& agg_step(
                        old(self).payload()@,
                        old(self)@,
                        old(keccak)@,
                        receipts_root_of(header@),
                    ) == Err::<AggState, ValidationError>(e)
                    &&& final(self)@ == old(self)@
                },
            },
    {
        let payload: &'p Payload = self.payload;
        let block_index = self.block_index;
        let due = self.next_reward < payload.reward_blocks.len()
            && payload.reward_blocks[self.next_reward].block_index as usize == block_index;
        if !due {
            self.block_index = block_index + 1;
            return Ok(());
        }
        let rb: &'p RewardBlock = &payload.reward_blocks[self.next_reward];
        assert(rb@ == payload@.reward_blocks[self.next_reward as int]);

        self.encoded_receipt_buf.clear();
        encode_receipt_2718(&rb.receipt, &mut self.encoded_receipt_buf);
        assert(self.encoded_receipt_buf@ =~= receipt_encoding_2718(rb@.receipt));

        let fee_summaries = match verify_reward_block(
            keccak,
            payload,
            rb,
            self.encoded_receipt_buf.as_slice(),
            self.fee_entry_offset,
            header.receipts_root(),
            hash_out,
        ) {
            Ok(fees) => fees,
            Err(e) => {
                return Err(e);
            },
        };

        let block_fee_entries = rb.fee_entries as usize;
        let fee_entry_offset = self.fee_entry_offset;
        let blob_len = payload.fee_entries.len();
        let ghost sums0 = self.sums@;
        let ghost blob = fee_summaries@;
        assert((fee_entry_offset + block_fee_entries) * 36 <= blob_len);
        let mut i: usize = 0;
        while i < block_fee_entries
            invariant
                i <= block_fee_entries,
                fee_summaries.wf(),
                fee_summaries@ == blob,
                blob.len() == block_fee_entries * FEE_ENTRY_SIZE,
                self.sums@ == add_entries(sums0, blob, i as nat),
                sums_bounded(self.sums@, (fee_entry_offset + i) as nat),
                self.fee_entry_offset == fee_entry_offset,
                self.block_index == old(self).block_index,
                self.next_reward == old(self).next_reward,
                self.payload == old(self).payload,
            decreases block_fee_entries - i,
        {
            let entry = fee_summaries.index(i);
            let amount = entry.amount();
            proof {
                let asset = entry_asset(entry_at(blob, i as int));
                lemma_bounded_total_fits(
                    (fee_entry_offset + i) as nat,
                    total_of(self.sums@, asset),
                    amount as nat,
                );
                lemma_add_amount_bounded(
                    self.sums@,
                    asset,
                    amount as nat,
                    (fee_entry_offset + i) as nat,
                );
            }
            self.sums.add(entry.asset(), amount);
            i += 1;
        }
        self.fee_entry_offset = fee_entry_offset + block_fee_entries;
        self.next_reward = self.next_reward + 1;
        self.block_index = block_index + 1;
        Ok(())
    }

    /// The totals.
    pub fn into_sums(self) -> (sums: AssetSums)
        ensures
            sums@ == self@.sums,
    {
        self.sums
    }
}

/// What the guest has established of a payload.
pub struct Validated {
    /// The parent of the first header.
    pub chain_parent: Seq<u8>,
    /// The hash of the last header.
    pub chain_last: Seq<u8>,
    /// The per-asset totals of all fee entries.
    pub sums: Seq<(Seq<u8>, nat)>,
}

/// The result once all headers are walked: every reward block must have been
/// taken.
pub open spec fn finish(
    payload: PayloadView,
    st: AggState,
    chain_parent: Seq<u8>,
    chain_last: Seq<u8>,
) -> Result<Validated, ValidationError> {
    if st.next_reward < payload.reward_blocks.len() {
        Err(ValidationError::RewardBlockNotReached)
    } else {
        Ok(Validated { chain_parent, chain_last, sums: st.sums })
    }
}

/// The result of walking the headers in `rest` after a header with the hash
/// `last_hash`.
pub open spec fn walk_rest(
    payload: PayloadView,
    rest: Seq<u8>,
    st: AggState,
    chain_parent: Seq<u8>,
    last_hash: Seq<u8>,
) -> Result<Validated, ValidationError>
    decreases rest.len(), 1nat,
{
    if rest.len() == 0 {
        finish(payload, st, chain_parent, last_hash)
    } else {
        walk_header(payload, rest, st, Some((chain_parent, last_hash)))
    }
}

/// The result of walking `headers`, which must start with a header. With a
/// header before it (`chain` holds the chain's parent and that header's hash)
/// the header must name that hash as its parent; without, its parent is the
/// chain's parent.
pub open spec fn walk_header(
    payload: PayloadView,
    headers: Seq<u8>,
    st: AggState,
    chain: Option<(Seq<u8>, Seq<u8>)>,
) -> Result<Validated, ValidationError>
    decreases headers.len(), 0nat,
{
    match parse_header(headers) {
        Err(e) => Err(ValidationError::Header(e)),
        Ok(len) => {
            let header = headers.take(len);
            if chain is Some && parent_hash_of(header) != chain.unwrap().1 {
                Err(ValidationError::BrokenChain)
            } else {
                match agg_step(payload, st, SpongeState::initial(), receipts_root_of(header)) {
                    Err(e) => Err(e),
                    Ok(next) => {
                        let chain_parent = if chain is Some {
                            chain.unwrap().0
                        } else {
                            parent_hash_of(header)
                        };
                        walk_rest(payload, headers.skip(len), next, chain_parent, keccak256(header))
                    },
                }
            }
        },
    }
}

/// What the guest establishes of a payload, or why it turns the payload down.
pub open spec fn validate(payload: PayloadView) -> Result<Validated, ValidationError> {
    walk_header(payload, payload.headers, AggState::start(), None)
}

/// The totals as they stand in the public output: each asset and its total as
/// a 256-bit big-endian number, for the first `n` assets.
pub open spec fn sums_bytes(sums: Seq<(Seq<u8>, nat)>, n: nat) -> Seq<u8>
    decreases n,
{
    if n == 0 {
        Seq::empty()
    } else {
        sums_bytes(sums, (n - 1) as nat) + sums[n - 1].0 + be_fixed(sums[n - 1].1, 32)
    }
}

/// The public output: the reward contract, the chain's parent, the hash of the
/// last header, and the totals.
pub open spec fn output_bytes(angstrom: Seq<u8>, validated: Validated) -> Seq<u8> {
    angstrom + validated.chain_parent + validated.chain_last + sums_bytes(
        validated.sums,
        validated.sums.len(),
    )
}

/// Checks a payload: see `validate`. The result is the chain's parent, the
/// hash of the last header, and the totals.
#[verifier::loop_isolation(false)]
pub fn validate_payload(payload: &Payload) -> (outcome: Result<
    ([u8; 32], [u8; 32], AssetSums),
    ValidationError,
>)
    ensures
        match outcome {
            Ok((chain_parent, chain_last, sums)) => validate(payload@) == Ok::<
                Validated,
                ValidationError,
            >(Validated { chain_parent: chain_parent@, chain_last: chain_last@, sums: sums@ }),
            Err(e) => validate(payload@) == Err::<Validated, ValidationError>(e),
        },
{
    let mut keccak = Keccak256::new();

    let mut headers = Reader::new(payload.headers.as_slice());
    let mut reward_agg = RewardAggregator::new(payload);
    let total = payload.headers.len();

    // Read first header, store parent as start of chain and compute hash.
    let header = match EncodedHeaderLens::read_from(&mut headers) {
        Ok(header) => header,
        Err(e) => {
            return Err(ValidationError::Header(e));
        },
    };
    proof {
        header.lemma_wf();
    }
    let chain_parent: [u8; 32] = *header.parent_hash();
    let mut last_hash = [0u8; 32];
    match reward_agg.validate_and_agg_next_block(&header, &mut last_hash, &mut keccak) {
        Ok(()) => {},
        Err(e) => {
            return Err(e);
        },
    }
    keccak.update(header.as_slice());
    keccak.finalize_and_reset(&mut last_hash);

    while !headers.is_empty()
        invariant
            keccak.wf(),
            keccak@ == SpongeState::initial(),
            reward_agg.wf(),
            reward_agg.payload() == payload,
            reward_agg@.block_index + headers@.len() <= total,
            validate(payload@) == walk_rest(
                payload@,
                headers@,
                reward_agg@,
                chain_parent@,
                last_hash@,
            ),
        decreases headers@.len(),
    {
        let header = match EncodedHeaderLens::read_from(&mut headers) {
            Ok(header) => header,
            Err(e) => {
                return Err(ValidationError::Header(e));
            },
        };
        proof {
            header.lemma_wf();
        }
        if !bytes_eq(&last_hash, header.parent_hash()) {
            return Err(ValidationError::BrokenChain);
        }
        // `last_hash` serves as scratch space: its value was used and is
        // going to be overwritten.

        match reward_agg.validate_and_agg_next_block(&header, &mut last_hash, &mut keccak) {
            Ok(()) => {},
            Err(e) => {
                return Err(e);
            },
        }
        keccak.update(header.as_slice());
        keccak.finalize_and_reset(&mut last_hash);
    }

    if reward_agg.next_reward < payload.reward_blocks.len() {
        return Err(ValidationError::RewardBlockNotReached);
    }
    Ok((chain_parent, last_hash, reward_agg.into_sums()))
}

/// Packs the public output.
pub fn public_output(
    angstrom: &[u8; 20],
    chain_parent: &[u8; 32],
    chain_last: &[u8; 32],
    sums: &AssetSums,
) -> (out: Vec<u8>)
    ensures
        out@ == output_bytes(
            angstrom@,
            Validated { chain_parent: chain_parent@, chain_last: chain_last@, sums: sums@ },
        ),
{
    let mut out: Vec<u8> = Vec::new();
    append_bytes(&mut out, angstrom);
    append_bytes(&mut out, chain_parent);
    append_bytes(&mut out, chain_last);
    let ghost head = out@;
    let n = sums.len();
    let mut i: usize = 0;
    while i < n
        invariant
            i <= n,
            n == sums@.len(),
            out@ == head + sums_bytes(sums@, i as nat),
        decreases n - i,
    {
        append_bytes(&mut out, sums.asset(i));
        let amount = sums.total(i).to_be_bytes();
        append_bytes(&mut out, &amount);
        i += 1;
    }
    out
}

/// Checks a payload and packs the public output that the guest commits to.
pub fn validated_output(payload: &Payload) -> (outcome: Result<Vec<u8>, ValidationError>)
    ensures
        match outcome {
            Ok(out) => validate(payload@) matches Ok(validated) && out@ == output_bytes(
                payload@.angstrom,
                validated,
            ),
            Err(e) => validate(payload@) == Err::<Validated, ValidationError>(e),
        },
{
    match validate_payload(payload) {
        Ok((chain_parent, chain_last, sums)) => Ok(
            public_output(&payload.angstrom, &chain_parent, &chain_last, &sums),
        ),
        Err(e) => Err(e),
    }
}

/// What `asset` receives from the first `n` entries of `blob`.
pub open spec fn asset_sum(blob: Seq<u8>, n: nat, asset: Seq<u8>) -> nat
    decreases n,
{
    if n == 0 {
        0
    } else {
        asset_sum(blob, (n - 1) as nat, asset) + if entry_asset(entry_at(blob, n - 1)) == asset {
            entry_amount(entry_at(blob, n - 1))
        } else {
            0
        }
    }
}

/// Number of fee entries that the first `k` reward blocks of a payload take.
pub open spec fn fee_cursor_before(payload: PayloadView, k: nat) -> nat
    decreases k,
{
    if k == 0 {
        0
    } else {
        fee_cursor_before(payload, (k - 1) as nat) + payload.reward_blocks[k - 1].fee_entries
            as nat
    }
}

/// What `asset` receives from the fee entries of the first `k` reward blocks
/// of a payload.
pub open spec fn payload_total(payload: PayloadView, k: nat, asset: Seq<u8>) -> nat
    decreases k,
{
    if k == 0 {
        0
    } else {
        payload_total(payload, (k - 1) as nat, asset) + asset_sum(
            block_fee_blob(
                payload.fee_entries,
                fee_cursor_before(payload, (k - 1) as nat),
                payload.reward_blocks[k - 1].fee_entries as nat,
            ),
            payload.reward_blocks[k - 1].fee_entries as nat,
            asset,
        )
    }
}

/// Adding the entries of a blob raises the total of each asset by what the
/// asset receives from them.
pub proof fn lemma_add_entries_total(
    sums: Seq<(Seq<u8>, nat)>,
    blob: Seq<u8>,
    n: nat,
    asset: Seq<u8>,
)
    ensures
        total_of(add_entries(sums, blob, n), asset) == total_of(sums, asset) + asset_sum(
            blob,
            n,
            asset,
        ),
    decreases n,
{
    if n > 0 {
        lemma_add_entries_total(sums, blob, (n - 1) as nat, asset);
        lemma_add_amount_total(
            add_entries(sums, blob, (n - 1) as nat),
            entry_asset(entry_at(blob, n - 1)),
            entry_amount(entry_at(blob, n - 1)),
            asset,
        );
    }
}

/// Adding the entries of a blob lists no asset twice and none that received
/// nothing.
pub proof fn lemma_add_entries_wf(sums: Seq<(Seq<u8>, nat)>, blob: Seq<u8>, n: nat)
    requires
        sums_wf(sums),
    ensures
        sums_wf(add_entries(sums, blob, n)),
    decreases n,
{
    if n > 0 {
        lemma_add_entries_wf(sums, blob, (n - 1) as nat);
        lemma_add_amount_wf(
            add_entries(sums, blob, (n - 1) as nat),
            entry_asset(entry_at(blob, n - 1)),
            entry_amount(entry_at(blob, n - 1)),
        );
    }
}

/// The totals of a state are those of the reward blocks taken so far.
pub open spec fn sums_up(payload: PayloadView, st: AggState, asset: Seq<u8>) -> bool {
    &&& st.next_reward <= payload.reward_blocks.len()
    &&& st.fee_cursor == fee_cursor_before(payload, st.next_reward)
    &&& total_of(st.sums, asset) == payload_total(payload, st.next_reward, asset)
    &&& sums_wf(st.sums)
}

/// A step keeps the totals those of the reward blocks taken so far.
pub proof fn lemma_agg_step_sums(
    payload: PayloadView,
    st: AggState,
    sponge: SpongeState,
    receipts_root: Seq<u8>,
    asset: Seq<u8>,
)
    requires
        sums_up(payload, st, asset),
    ensures
        agg_step(payload, st, sponge, receipts_root) matches Ok(next) ==> sums_up(
            payload,
            next,
            asset,
        ),
{
    if reward_due(payload, st) {
        let rb = payload.reward_blocks[st.next_reward as int];
        let blob = block_fee_blob(payload.fee_entries, st.fee_cursor, rb.fee_entries as nat);
        lemma_add_entries_total(st.sums, blob, rb.fee_entries as nat, asset);
        lemma_add_entries_wf(st.sums, blob, rb.fee_entries as nat);
    }
}

/// The totals at the end of a walk are those of all reward blocks.
pub proof fn lemma_walk_rest_sums(
    payload: PayloadView,
    rest: Seq<u8>,
    st: AggState,
    chain_parent: Seq<u8>,
    last_hash: Seq<u8>,
    asset: Seq<u8>,
)
    requires
        sums_up(payload, st, asset),
    ensures
        walk_rest(payload, rest, st, chain_parent, last_hash) matches Ok(v) ==> total_of(
            v.sums,
            asset,
        ) == payload_total(payload, payload.reward_blocks.len(), asset) && sums_wf(v.sums),
    decreases rest.len(), 1nat,
{
    if rest.len() > 0 {
        lemma_walk_header_sums(payload, rest, st, Some((chain_parent, last_hash)), asset);
    }
}

/// The totals at the end of a walk are those of all reward blocks.
pub proof fn lemma_walk_header_sums(
    payload: PayloadView,
    headers: Seq<u8>,
    st: AggState,
    chain: Option<(Seq<u8>, Seq<u8>)>,
    asset: Seq<u8>,
)
    requires
        sums_up(payload, st, asset),
    ensures
        walk_header(payload, headers, st, chain) matches Ok(v) ==> total_of(v.sums, asset)
            == payload_total(payload, payload.reward_blocks.len(), asset) && sums_wf(v.sums),
    decreases headers.len(), 0nat,
{
    match parse_header(headers) {
        Err(e) => {},
        Ok(len) => {
            let header = headers.take(len);
            let root = receipts_root_of(header);
            lemma_agg_step_sums(payload, st, SpongeState::initial(), root, asset);
            match agg_step(payload, st, SpongeState::initial(), root) {
                Err(e) => {},
                Ok(next) => {
                    let chain_parent = if chain is Some {
                        chain.unwrap().0
                    } else {
                        parent_hash_of(header)
                    };
                    lemma_walk_rest_sums(
                        payload,
                        headers.skip(len),
                        next,
                        chain_parent,
                        keccak256(header),
                        asset,
                    );
                },
            }
        },
    }
}

/// Aggregation: where the guest accepts a payload, the total that it gives
/// for an asset is the sum of the amounts of all fee entries of that asset, over
/// all reward blocks. No asset is listed twice, and none that received nothing:
/// an entry with the amount zero adds no asset.
pub proof fn lemma_aggregation(payload: PayloadView, asset: Seq<u8>)
    ensures
        validate(payload) matches Ok(v) ==> total_of(v.sums, asset) == payload_total(
            payload,
            payload.reward_blocks.len(),
            asset,
        ) && sums_wf(v.sums),
{
    lemma_walk_header_sums(payload, payload.headers, AggState::start(), None, asset);
}

/// The headers from `i` on, back to back.
pub open spec fn join_from(headers: Seq<Seq<u8>>, i: int) -> Seq<u8>
    decreases headers.len() - i,
{
    if i < 0 || i >= headers.len() {
        Seq::empty()
    } else {
        headers[i] + join_from(headers, i + 1)
    }
}

/// Each of the byte strings is one encoded header that the lens accepts.
pub open spec fn all_parse(headers: Seq<Seq<u8>>) -> bool {
    forall|i: int|
        0 <= i < headers.len() ==> parse_header(#[trigger] headers[i]) == Ok::<int, HeaderError>(
            headers[i].len() as int,
        )
}

/// Each header from `i` on names the hash of the header before it as its
/// parent.
pub open spec fn linked_from(headers: Seq<Seq<u8>>, i: int) -> bool {
    forall|j: int|
        i <= j < headers.len() - 1 ==> parent_hash_of(#[trigger] headers[j + 1]) == keccak256(
            headers[j],
        )
}

/// What a successful walk has found at its first header.
pub proof fn lemma_walk_header_ok(
    payload: PayloadView,
    headers: Seq<u8>,
    st: AggState,
    chain: Option<(Seq<u8>, Seq<u8>)>,
)
    requires
        walk_header(payload, headers, st, chain) is Ok,
    ensures
        parse_header(headers) is Ok,
        chain matches Some((_, last_hash)) ==> parent_hash_of(
            headers.take(parse_header(headers).unwrap()),
        ) == last_hash,
        agg_step(
            payload,
            st,
            SpongeState::initial(),
            receipts_root_of(headers.take(parse_header(headers).unwrap())),
        ) is Ok,
        ({
            let len = parse_header(headers).unwrap();
            let header = headers.take(len);
            let next = agg_step(
                payload,
                st,
                SpongeState::initial(),
                receipts_root_of(header),
            ).unwrap();
            walk_header(payload, headers, st, chain) == walk_rest(
                payload,
                headers.skip(len),
                next,
                match chain {
                    Some((parent, _)) => parent,
                    None => parent_hash_of(header),
                },
                keccak256(header),
            )
        }),
{
}

/// Where a walk over whole headers succeeds, the headers are linked, the
/// chain's parent is that of the first header, and the last hash is that of
/// the last header.
#[verifier::rlimit(40)]
pub proof fn lemma_walk_chain(
    payload: PayloadView,
    headers: Seq<Seq<u8>>,
    i: int,
    st: AggState,
    chain: Option<(Seq<u8>, Seq<u8>)>,
)
    requires
        0 <= i < headers.len(),
        all_parse(headers),
    ensures
        walk_header(payload, join_from(headers, i), st, chain) matches Ok(v) ==> {
            &&& v.chain_last == keccak256(headers.last())
            &&& linked_from(headers, i)
            &&& match chain {
                Some((parent, last_hash)) => v.chain_parent == parent && parent_hash_of(headers[i])
                    == last_hash,
                None => v.chain_parent == parent_hash_of(headers[i]),
            }
        },
    decreases headers.len() - i,
{
    let header = headers[i];
    let rest = join_from(headers, i + 1);
    let all = join_from(headers, i);
    assert(all == header + rest);
    assert(parse_header(header) == Ok::<int, HeaderError>(header.len() as int));
    lemma_parse_header_prefix(header, rest);
    if walk_header(payload, all, st, chain) is Ok {
        lemma_walk_header_ok(payload, all, st, chain);
        let next = agg_step(
            payload,
            st,
            SpongeState::initial(),
            receipts_root_of(header),
        ).unwrap();
        let chain_parent: Seq<u8> = match chain {
            Some((parent, _)) => parent,
            None => parent_hash_of(header),
        };
        let v = walk_header(payload, all, st, chain).unwrap();
        assert(walk_rest(payload, rest, next, chain_parent, keccak256(header)) == Ok::<
            Validated,
            ValidationError,
        >(v));
        if i + 1 < headers.len() {
            assert(parse_header(headers[i + 1]) == Ok::<int, HeaderError>(
                headers[i + 1].len() as int,
            ));
            lemma_parse_header_prefix(headers[i + 1], join_from(headers, i + 2));
            assert(rest == headers[i + 1] + join_from(headers, i + 2));
            assert(rest.len() > 0);
            lemma_walk_chain(payload, headers, i + 1, next, Some((chain_parent, keccak256(header))));
            assert(parent_hash_of(headers[i + 1]) == keccak256(headers[i]));
            assert(linked_from(headers, i + 1));
            assert forall|j: int| i <= j < headers.len() - 1 implies parent_hash_of(
                #[trigger] headers[j + 1],
            ) == keccak256(headers[j]) by {
                if j > i {
                    assert(linked_from(headers, i + 1));
                }
            }
        } else {
            assert(rest.len() == 0);
            assert(headers.last() == header);
        }
    }
}

/// Hash chain: where the guest accepts a payload whose headers are the given
/// ones, each header names the hash of the one before as its parent, the
/// chain's parent is the parent of the first header, and the last hash is the
/// hash of the last header.
pub proof fn lemma_hash_chain(payload: PayloadView, headers: Seq<Seq<u8>>)
    requires
        headers.len() > 0,
        all_parse(headers),
        payload.headers == join_from(headers, 0),
    ensures
        validate(payload) matches Ok(v) ==> {
            &&& v.chain_parent == parent_hash_of(headers[0])
            &&& v.chain_last == keccak256(headers.last())
            &&& linked_from(headers, 0)
        },
{
    lemma_walk_chain(payload, headers, 0, AggState::start(), None);
}

/// A walk over linked headers without reward blocks succeeds.
#[verifier::rlimit(40)]
pub proof fn lemma_walk_linked(
    payload: PayloadView,
    headers: Seq<Seq<u8>>,
    i: int,
    st: AggState,
    chain: Option<(Seq<u8>, Seq<u8>)>,
)
    requires
        0 <= i < headers.len(),
        all_parse(headers),
        linked_from(headers, i),
        payload.reward_blocks.len() == 0,
        st.next_reward == 0,
        chain matches Some((_, last_hash)) ==> parent_hash_of(headers[i]) == last_hash,
    ensures
        walk_header(payload, join_from(headers, i), st, chain) == Ok::<
            Validated,
            ValidationError,
        >(
            Validated {
                chain_parent: match chain {
                    Some((parent, _)) => parent,
                    None => parent_hash_of(headers[i]),
                },
                chain_last: keccak256(headers.last()),
                sums: st.sums,
            },
        ),
    decreases headers.len() - i,
{
    let header = headers[i];
    let rest = join_from(headers, i + 1);
    let all = join_from(headers, i);
    assert(all == header + rest);
    assert(parse_header(header) == Ok::<int, HeaderError>(header.len() as int));
    lemma_parse_header_prefix(header, rest);
    let next = AggState { block_index: st.block_index + 1, ..st };
    let chain_parent: Seq<u8> = match chain {
        Some((parent, _)) => parent,
        None => parent_hash_of(header),
    };
    assert(!reward_due(payload, st));
    assert(agg_step(payload, st, SpongeState::initial(), receipts_root_of(header)) == Ok::<
        AggState,
        ValidationError,
    >(next));
    assert(walk_header(payload, all, st, chain) == walk_rest(
        payload,
        rest,
        next,
        chain_parent,
        keccak256(header),
    ));
    if i + 1 < headers.len() {
        assert(parse_header(headers[i + 1]) == Ok::<int, HeaderError>(
            headers[i + 1].len() as int,
        ));
        lemma_parse_header_prefix(headers[i + 1], join_from(headers, i + 2));
        assert(rest == headers[i + 1] + join_from(headers, i + 2));
        assert(rest.len() > 0);
        assert(parent_hash_of(headers[i + 1]) == keccak256(headers[i]));
        lemma_walk_linked(payload, headers, i + 1, next, Some((chain_parent, keccak256(header))));
    } else {
        assert(rest.len() == 0);
        assert(headers.last() == header);
    }
}

/// Hash chain, the other way round: the guest accepts headers that are linked
/// and come without reward blocks, with the parent of the first header as the
/// chain's parent, the hash of the last header as the last hash, and no
/// totals.
pub proof fn lemma_linked_headers_validate(payload: PayloadView, headers: Seq<Seq<u8>>)
    requires
        headers.len() > 0,
        all_parse(headers),
        linked_from(headers, 0),
        payload.headers == join_from(headers, 0),
        payload.reward_blocks.len() == 0,
    ensures
        validate(payload) == Ok::<Validated, ValidationError>(
            Validated {
                chain_parent: parent_hash_of(headers[0]),
                chain_last: keccak256(headers.last()),
                sums: Seq::empty(),
            },
        ),
{
    lemma_walk_linked(payload, headers, 0, AggState::start(), None);
}

/// A step whose reward block points at a log of another address than the
/// reward contract's fails with `WrongLogAddress`.
pub proof fn lemma_step_wrong_log_address(
    payload: PayloadView,
    st: AggState,
    sponge: SpongeState,
    receipts_root: Seq<u8>,
)
    requires
        reward_due(payload, st),
        ({
            let rb = payload.reward_blocks[st.next_reward as int];
            &&& rb.log_index < rb.receipt.logs.len()
            &&& rb.receipt.logs[rb.log_index as int].address != payload.angstrom
        }),
    ensures
        agg_step(payload, st, sponge, receipts_root) == Err::<AggState, ValidationError>(
            ValidationError::WrongLogAddress,
        ),
{
}

/// A step whose reward log is in place, and whose fee entries do not hash to
/// the first 32 bytes of the log's data, fails with `RewardHashMismatch`.
pub proof fn lemma_step_reward_hash_mismatch(
    payload: PayloadView,
    st: AggState,
    sponge: SpongeState,
    receipts_root: Seq<u8>,
)
    requires
        reward_due(payload, st),
        reward_log_in_place(
            payload.angstrom,
            payload.fee_entries,
            payload.reward_blocks[st.next_reward as int],
            st.fee_cursor,
        ) is Ok,
        ({
            let rb = payload.reward_blocks[st.next_reward as int];
            let data = rb.receipt.logs[rb.log_index as int].data;
            data.len() < 32 || hash_from(
                sponge,
                block_fee_blob(payload.fee_entries, st.fee_cursor, rb.fee_entries as nat),
            ) != data.take(32)
        }),
    ensures
        agg_step(payload, st, sponge, receipts_root) == Err::<AggState, ValidationError>(
            ValidationError::RewardHashMismatch,
        ),
{
}

/// A step whose reward log is in place and commits to its fee entries, and
/// whose proof leads to another root than `receipts_root`, fails with
/// `ReceiptsRootMismatch`.
pub proof fn lemma_step_receipts_root_mismatch(
    payload: PayloadView,
    st: AggState,
    sponge: SpongeState,
    receipts_root: Seq<u8>,
)
    requires
        reward_due(payload, st),
        reward_log_in_place(
            payload.angstrom,
            payload.fee_entries,
            payload.reward_blocks[st.next_reward as int],
            st.fee_cursor,
        ) is Ok,
        ({
            let rb = payload.reward_blocks[st.next_reward as int];
            let data = rb.receipt.logs[rb.log_index as int].data;
            let encoded = receipt_encoding_2718(rb.receipt);
            &&& data.len() >= 32
            &&& hash_from(
                sponge,
                block_fee_blob(payload.fee_entries, st.fee_cursor, rb.fee_entries as nat),
            ) == data.take(32)
            &&& encoded.len() <= max_value_len()
            &&& trie_root(rb.proof, encoded) matches Some(root)
            &&& root != receipts_root
        }),
    ensures
        agg_step(payload, st, sponge, receipts_root) == Err::<AggState, ValidationError>(
            ValidationError::ReceiptsRootMismatch,
        ),
{
}

/// Reward block `k` of a payload stands every check against the header it
/// names: the header is there, the log is in place, the fee entries that
/// follow those of the reward blocks before hash to the first 32 bytes of the
/// log's data, and the proof leads from the receipt to the header's receipts
/// root.
pub open spec fn reward_block_checked(
    payload: PayloadView,
    headers: Seq<Seq<u8>>,
    k: int,
) -> bool {
    let rb = payload.reward_blocks[k];
    &&& rb.block_index < headers.len()
    &&& reward_block_checks(
        payload.angstrom,
        payload.fee_entries,
        rb,
        receipt_encoding_2718(rb.receipt),
        fee_cursor_before(payload, k as nat),
        SpongeState::initial(),
        receipts_root_of(headers[rb.block_index as int]),
    ) is Ok
}

/// Where a walk from header `i` on succeeds, every reward block that was not
/// taken before stands every check.
#[verifier::rlimit(40)]
pub proof fn lemma_walk_checks(
    payload: PayloadView,
    headers: Seq<Seq<u8>>,
    i: int,
    st: AggState,
    chain: Option<(Seq<u8>, Seq<u8>)>,
    k: int,
)
    requires
        0 <= i < headers.len(),
        all_parse(headers),
        st.block_index == i,
        st.fee_cursor == fee_cursor_before(payload, st.next_reward),
        st.next_reward <= k < payload.reward_blocks.len(),
        walk_header(payload, join_from(headers, i), st, chain) is Ok,
    ensures
        reward_block_checked(payload, headers, k),
    decreases headers.len() - i,
{
    let header = headers[i];
    let rest = join_from(headers, i + 1);
    let all = join_from(headers, i);
    assert(all == header + rest);
    assert(parse_header(header) == Ok::<int, HeaderError>(header.len() as int));
    lemma_parse_header_prefix(header, rest);
    lemma_walk_header_ok(payload, all, st, chain);
    let root = receipts_root_of(header);
    let next = agg_step(payload, st, SpongeState::initial(), root).unwrap();
    let chain_parent: Seq<u8> = match chain {
        Some((parent, _)) => parent,
        None => parent_hash_of(header),
    };
    assert(walk_rest(payload, rest, next, chain_parent, keccak256(header)) is Ok);
    if reward_due(payload, st) && st.next_reward == k {
        assert(payload.reward_blocks[k].block_index == i);
    } else {
        assert(next.next_reward <= k);
        assert(next.fee_cursor == fee_cursor_before(payload, next.next_reward));
        if i + 1 < headers.len() {
            assert(parse_header(headers[i + 1]) == Ok::<int, HeaderError>(
                headers[i + 1].len() as int,
            ));
            lemma_parse_header_prefix(headers[i + 1], join_from(headers, i + 2));
            assert(rest == headers[i + 1] + join_from(headers, i + 2));
            assert(rest.len() > 0);
            lemma_walk_checks(
                payload,
                headers,
                i + 1,
                next,
                Some((chain_parent, keccak256(header))),
                k,
            );
        } else {
            assert(rest.len() == 0);
            assert(finish(payload, next, chain_parent, keccak256(header)) is Err);
        }
    }
}

/// No output without the checks: where the guest accepts a payload whose
/// headers are the given ones, every reward block stands every check against
/// the header it names. For each reward block that means: its header is among
/// the headers, its log is there and was emitted by the reward contract, its
/// fee entries are there and hash to the first 32 bytes of the log's data, and
/// its proof leads from its receipt to the receipts root of its header.
pub proof fn lemma_accepted_payload_is_checked(
    payload: PayloadView,
    headers: Seq<Seq<u8>>,
    k: int,
)
    requires
        headers.len() > 0,
        all_parse(headers),
        payload.headers == join_from(headers, 0),
        0 <= k < payload.reward_blocks.len(),
        validate(payload) is Ok,
    ensures
        reward_block_checked(payload, headers, k),
        ({
            let rb = payload.reward_blocks[k];
            let log = rb.receipt.logs[rb.log_index as int];
            let blob = block_fee_blob(
                payload.fee_entries,
                fee_cursor_before(payload, k as nat),
                rb.fee_entries as nat,
            );
            &&& rb.block_index < headers.len()
            &&& rb.log_index < rb.receipt.logs.len()
            &&& log.address == payload.angstrom
            &&& (fee_cursor_before(payload, k as nat) + rb.fee_entries) * FEE_ENTRY_SIZE
                <= payload.fee_entries.len()
            &&& log.data.len() >= 32
            &&& keccak256(blob) == log.data.take(32)
            &&& trie_root(rb.proof, receipt_encoding_2718(rb.receipt)) == Some(
                receipts_root_of(headers[rb.block_index as int]),
            )
        }),
{
    lemma_walk_checks(payload, headers, 0, AggState::start(), None, k);
}

/// A payload with a reward log of another address than the reward contract's
/// gives no output.
pub proof fn lemma_wrong_log_address_is_refused(
    payload: PayloadView,
    headers: Seq<Seq<u8>>,
    k: int,
)
    requires
        headers.len() > 0,
        all_parse(headers),
        payload.headers == join_from(headers, 0),
        0 <= k < payload.reward_blocks.len(),
        ({
            let rb = payload.reward_blocks[k];
            &&& rb.log_index < rb.receipt.logs.len()
            &&& rb.receipt.logs[rb.log_index as int].address != payload.angstrom
        }),
    ensures
        validate(payload) is Err,
{
    if validate(payload) is Ok {
        lemma_accepted_payload_is_checked(payload, headers, k);
    }
}

/// A payload with a reward block whose proof does not lead from its receipt
/// to the receipts root of its header gives no output.
pub proof fn lemma_receipts_root_mismatch_is_refused(
    payload: PayloadView,
    headers: Seq<Seq<u8>>,
    k: int,
)
    requires
        headers.len() > 0,
        all_parse(headers),
        payload.headers == join_from(headers, 0),
        0 <= k < payload.reward_blocks.len(),
        payload.reward_blocks[k].block_index < headers.len(),
        trie_root(
            payload.reward_blocks[k].proof,
            receipt_encoding_2718(payload.reward_blocks[k].receipt),
        ) != Some(receipts_root_of(headers[payload.reward_blocks[k].block_index as int])),
    ensures
        validate(payload) is Err,
{
    if validate(payload) is Ok {
        lemma_accepted_payload_is_checked(payload, headers, k);
    }
}

/// A payload with a reward block whose fee entries, those that follow the
/// entries of the reward blocks before it, do not hash to the first 32 bytes
/// of its log's data gives no output.
pub proof fn lemma_reward_hash_mismatch_is_refused(
    payload: PayloadView,
    headers: Seq<Seq<u8>>,
    k: int,
)
    requires
        headers.len() > 0,
        all_parse(headers),
        payload.headers == join_from(headers, 0),
        0 <= k < payload.reward_blocks.len(),
        ({
            let rb = payload.reward_blocks[k];
            let data = rb.receipt.logs[rb.log_index as int].data;
            data.len() < 32 || keccak256(
                block_fee_blob(
                    payload.fee_entries,
                    fee_cursor_before(payload, k as nat),
                    rb.fee_entries as nat,
                ),
            ) != data.take(32)
        }),
    ensures
        validate(payload) is Err,
{
    if validate(payload) is Ok {
        lemma_accepted_payload_is_checked(payload, headers, k);
    }
}

} // verus!
