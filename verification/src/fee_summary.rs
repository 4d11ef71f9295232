//! Fee entries and the packed blob that a reward log commits to.
//!
//! A fee entry is 36 bytes: a 20-byte asset address and a 16-byte big-endian
//! amount. A fee summary is any number of entries back to back.

use vstd::prelude::*;
use crate::bytes::{array_ref, be_value, copy_into, u128_from_be, u128_to_be};

verus! {

/// Bytes of one fee entry.
pub const FEE_ENTRY_SIZE: usize = 36;

/// Where the asset address starts in an entry.
pub const ASSET_OFFSET: usize = 0;

/// Where the amount starts in an entry.
pub const AMOUNT_OFFSET: usize = 20;

/// The asset address in the bytes of an entry.
pub open spec fn entry_asset(entry: Seq<u8>) -> Seq<u8> {
    entry.subrange(ASSET_OFFSET as int, AMOUNT_OFFSET as int)
}

/// The amount in the bytes of an entry.
pub open spec fn entry_amount(entry: Seq<u8>) -> nat {
    be_value(entry.subrange(AMOUNT_OFFSET as int, FEE_ENTRY_SIZE as int))
}

/// Entry `index` of a packed blob.
pub open spec fn entry_at(blob: Seq<u8>, index: int) -> Seq<u8> {
    blob.subrange(index * FEE_ENTRY_SIZE, (index + 1) * FEE_ENTRY_SIZE)
}

/// One asset and the amount of fees in it.
#[derive(Debug, Clone, Copy)]
pub struct FeeEntry([u8; 36]);

impl View for FeeEntry {
    type V = Seq<u8>;

    /// The 36 bytes of the entry.
    closed spec fn view(&self) -> Seq<u8> {
        self.0@
    }
}

impl FeeEntry {
    /// An entry has 36 bytes.
    pub proof fn lemma_len(&self)
        ensures
            self@.len() == FEE_ENTRY_SIZE,
    {
    }

    /// The entry for `amount` of the asset at `addr`.
    pub fn new(addr: [u8; 20], amount: u128) -> (entry: Self)
        ensures
            entry@.len() == FEE_ENTRY_SIZE,
            entry_asset(entry@) == addr@,
            entry_amount(entry@) == amount,
    {
        let mut bytes = [0u8; 36];
        let amount_bytes = u128_to_be(amount);
        copy_into(&mut bytes, ASSET_OFFSET, &addr);
        copy_into(&mut bytes, AMOUNT_OFFSET, &amount_bytes);
        assert(entry_asset(bytes@) =~= addr@);
        assert(bytes@.subrange(AMOUNT_OFFSET as int, FEE_ENTRY_SIZE as int) =~= amount_bytes@);
        FeeEntry(bytes)
    }

    /// The entry that 36 bytes spell.
    pub fn from_bytes(bytes: [u8; 36]) -> (entry: Self)
        ensures
            entry@ == bytes@,
    {
        FeeEntry(bytes)
    }

    /// The bytes of the entry, as they go into the reward hash.
    pub fn as_bytes(&self) -> (bytes: &[u8; 36])
        ensures
            bytes@ == self@,
    {
        &self.0
    }

    /// The asset address.
    pub fn asset(&self) -> (addr: &[u8; 20])
        ensures
            addr@ == entry_asset(self@),
    {
        array_ref::<20>(&self.0[ASSET_OFFSET..AMOUNT_OFFSET])
    }

    /// The amount.
    pub fn amount(&self) -> (amount: u128)
        ensures
            amount == entry_amount(self@),
    {
        u128_from_be(&self.0[AMOUNT_OFFSET..FEE_ENTRY_SIZE])
    }
}

/// Why bytes are not a fee summary.
#[derive(Debug, Clone, Copy, PartialEq, Eq, Structural)]
pub enum FeeSummaryInspectorError {
    /// The length is no multiple of the entry size.
    UnalignedLength { length: usize },
}

/// A view of borrowed bytes as a sequence of fee entries.
#[derive(Debug, Clone, Copy)]
pub struct FeeSummaryInspector<'a>(&'a [u8]);

impl<'a> View for FeeSummaryInspector<'a> {
    type V = Seq<u8>;

    /// The bytes of all entries.
    closed spec fn view(&self) -> Seq<u8> {
        self.0@
    }
}

impl<'a> FeeSummaryInspector<'a> {
    /// The bytes hold whole entries only.
    pub closed spec fn wf(&self) -> bool {
        self.0@.len() % (FEE_ENTRY_SIZE as nat) == 0
    }

    /// The bytes of a well-formed inspector are whole entries.
    pub proof fn lemma_aligned(&self)
        requires
            self.wf(),
        ensures
            self@.len() % (FEE_ENTRY_SIZE as nat) == 0,
    {
    }

    /// Views `entry_bytes` as fee entries if its length is a multiple of the
    /// entry size, and reports the length otherwise.
    pub fn try_from(entry_bytes: &'a [u8]) -> (inspector: Result<Self, FeeSummaryInspectorError>)
        ensures
            match inspector {
                Ok(i) => i.wf() && i@ == entry_bytes@ && entry_bytes@.len() % (
                FEE_ENTRY_SIZE as nat) == 0,
                Err(e) => entry_bytes@.len() % (FEE_ENTRY_SIZE as nat) != 0 && e == (
                FeeSummaryInspectorError::UnalignedLength { length: entry_bytes@.len() as usize }),
            },
    {
        if entry_bytes.len() % FEE_ENTRY_SIZE != 0 {
            return Err(FeeSummaryInspectorError::UnalignedLength { length: entry_bytes.len() });
        }
        Ok(FeeSummaryInspector(entry_bytes))
    }

    /// Views bytes that are known to be whole entries as fee entries.
    pub fn from_whole_entries(entry_bytes: &'a [u8]) -> (inspector: Self)
        requires
            entry_bytes@.len() % (FEE_ENTRY_SIZE as nat) == 0,
        ensures
            inspector.wf(),
            inspector@ == entry_bytes@,
    {
        FeeSummaryInspector(entry_bytes)
    }

    /// Number of entries.
    pub fn entries(&self) -> (count: usize)
        requires
            self.wf(),
        ensures
            count * FEE_ENTRY_SIZE == self@.len(),
    {
        self.0.len() / FEE_ENTRY_SIZE
    }

    /// All bytes, as they go into the reward hash.
    pub fn as_slice(&self) -> (bytes: &'a [u8])
        ensures
            bytes@ == self@,
    {
        self.0
    }

    /// Entry `index`.
    pub fn index(&self, index: usize) -> (entry: FeeEntry)
        requires
            self.wf(),
            (index + 1) * FEE_ENTRY_SIZE <= self@.len(),
        ensures
            entry@ == entry_at(self@, index as int),
    {
        let total = self.0.len();
        assert(index * 36 + 36 <= total);
        let start = index * FEE_ENTRY_SIZE;
        let bytes: &[u8; 36] = array_ref::<36>(&self.0[start..start + FEE_ENTRY_SIZE]);
        FeeEntry(*bytes)
    }
}

} // verus!
