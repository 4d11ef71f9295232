//! Per-asset fee totals.
//!
//! Totals are 256-bit numbers. The assets are kept in the order in which they
//! first received an amount, and an asset that never received one is not
//! listed.

use vstd::prelude::*;
use crate::bytes::{
    be_fixed, bytes_eq, copy_into, lemma_be_fixed_of_value, lemma_be_value_concat,
    lemma_pow256_16, u128_to_be,
};

verus! {

/// Two to the power 128.
pub open spec fn two_128() -> nat {
    0x1_0000_0000_0000_0000_0000_0000_0000_0000nat
}

/// Two to the power 256: one more than the largest total.
pub open spec fn two_256() -> nat {
    two_128() * two_128()
}

/// An unsigned number of 256 bits.
#[derive(Debug, Clone, Copy, PartialEq, Eq, Structural)]
pub struct Total256 {
    hi: u128,
    lo: u128,
}

impl View for Total256 {
    type V = nat;

    /// The number.
    closed spec fn view(&self) -> nat {
        (self.hi * two_128() + self.lo) as nat
    }
}

impl Total256 {
    /// A total is below two to the 256.
    pub proof fn lemma_bound(&self)
        ensures
            self@ < two_256(),
    {
        let h = self.hi as int;
        let l = self.lo as int;
        let t = two_128() as int;
        assert(h * t + l < t * t) by (nonlinear_arith)
            requires
                0 <= h < t,
                0 <= l < t,
        ;
    }

    /// The total of one amount.
    pub fn from_u128(amount: u128) -> (total: Self)
        ensures
            total@ == amount,
    {
        Total256 { hi: 0, lo: amount }
    }

    /// This total and `amount` more, unless that takes more than 256 bits.
    pub fn checked_add(&self, amount: u128) -> (sum: Option<Self>)
        ensures
            match sum {
                Some(s) => s@ == self@ + amount,
                None => self@ + amount >= two_256(),
            },
    {
        let (lo, carry): (u128, u128) = match self.lo.checked_add(amount) {
            Some(lo) => (lo, 0),
            None => (self.lo - (u128::MAX - amount) - 1, 1),
        };
        match self.hi.checked_add(carry) {
            Some(hi) => {
                proof {
                    let h = self.hi as int;
                    let c = carry as int;
                    let t = two_128() as int;
                    assert((h + c) * t == h * t + c * t) by (nonlinear_arith);
                }
                Some(Total256 { hi, lo })
            },
            None => {
                proof {
                    let h = self.hi as int;
                    let t = two_128() as int;
                    assert(h * t + t == t * t) by (nonlinear_arith)
                        requires
                            h == t - 1,
                    ;
                }
                None
            },
        }
    }

    /// This total and `amount` more.
    pub fn add(&self, amount: u128) -> (sum: Self)
        requires
            self@ + amount < two_256(),
        ensures
            sum@ == self@ + amount,
    {
        let (lo, carry): (u128, u128) = match self.lo.checked_add(amount) {
            Some(lo) => (lo, 0),
            None => (self.lo - (u128::MAX - amount) - 1, 1),
        };
        proof {
            let h = self.hi as int;
            let c = carry as int;
            let t = two_128() as int;
            assert((h + c) * t == h * t + c * t) by (nonlinear_arith);
            if h == t - 1 {
                assert(h * t + t == t * t) by (nonlinear_arith)
                    requires
                        h == t - 1,
                ;
            }
        }
        Total256 { hi: self.hi + carry, lo }
    }

    /// The total as 32 bytes in big-endian order.
    pub fn to_be_bytes(&self) -> (bytes: [u8; 32])
        ensures
            bytes@ == be_fixed(self@, 32),
    {
        let hi = u128_to_be(self.hi);
        let lo = u128_to_be(self.lo);
        let mut bytes = [0u8; 32];
        copy_into(&mut bytes, 0, &hi);
        copy_into(&mut bytes, 16, &lo);
        proof {
            assert(bytes@ =~= hi@ + lo@);
            lemma_be_value_concat(hi@, lo@);
            lemma_pow256_16();
            lemma_be_fixed_of_value(bytes@);
        }
        bytes
    }
}

/// Where `asset` stands in `sums` at or after `from`; the length of `sums` if
/// it does not.
pub open spec fn find_asset(sums: Seq<(Seq<u8>, nat)>, asset: Seq<u8>, from: int) -> int
    decreases sums.len() - from,
{
    if from >= sums.len() {
        sums.len() as int
    } else if sums[from].0 == asset {
        from
    } else {
        find_asset(sums, asset, from + 1)
    }
}

/// The total of `asset`: zero if it is not listed.
pub open spec fn total_of(sums: Seq<(Seq<u8>, nat)>, asset: Seq<u8>) -> nat {
    let i = find_asset(sums, asset, 0);
    if i < sums.len() {
        sums[i].1
    } else {
        0
    }
}

/// `sums` after `asset` received `amount`. An amount of zero changes nothing;
/// an asset that is not listed yet is added at the end.
pub open spec fn add_amount(sums: Seq<(Seq<u8>, nat)>, asset: Seq<u8>, amount: nat) -> Seq<
    (Seq<u8>, nat),
> {
    let i = find_asset(sums, asset, 0);
    if amount == 0 {
        sums
    } else if i < sums.len() {
        sums.update(i, (asset, sums[i].1 + amount))
    } else {
        sums.push((asset, amount))
    }
}

/// Every total is at most `count` times the largest amount: the totals of
/// `count` entries.
pub open spec fn sums_bounded(sums: Seq<(Seq<u8>, nat)>, count: nat) -> bool {
    forall|asset: Seq<u8>| #[trigger] total_of(sums, asset) <= count * u128::MAX
}

/// The total of up to 2^64 entries and one amount more fit in 256 bits.
pub proof fn lemma_bounded_total_fits(count: nat, total: nat, amount: nat)
    requires
        count <= u64::MAX,
        total <= count * u128::MAX,
        amount <= u128::MAX,
    ensures
        total + amount < two_256(),
        total + amount <= (count + 1) * u128::MAX,
{
    let c = count as int;
    let m = u128::MAX as int;
    assert(c * m <= 0xffff_ffff_ffff_ffff * m) by (nonlinear_arith)
        requires
            0 <= c <= 0xffff_ffff_ffff_ffff,
            m >= 0,
    ;
    assert((c + 1) * m == c * m + m) by (nonlinear_arith);
    assert(two_128() * two_128()
        == 0x1_0000_0000_0000_0000_0000_0000_0000_0000_0000_0000_0000_0000_0000_0000_0000_0000)
        by (nonlinear_arith);
    assert(0xffff_ffff_ffff_ffff * m == 0xffff_ffff_ffff_fffe_ffff_ffff_ffff_ffff_0000_0000_0000_0001)
        by (nonlinear_arith)
        requires
            m == 0xffff_ffff_ffff_ffff_ffff_ffff_ffff_ffff,
    ;
}

/// Adding to an asset keeps the totals within those of one entry more.
pub proof fn lemma_add_amount_bounded(
    sums: Seq<(Seq<u8>, nat)>,
    asset: Seq<u8>,
    amount: nat,
    count: nat,
)
    requires
        sums_bounded(sums, count),
        amount <= u128::MAX,
    ensures
        sums_bounded(add_amount(sums, asset, amount), count + 1),
{
    let after = add_amount(sums, asset, amount);
    assert forall|other: Seq<u8>| #[trigger] total_of(after, other) <= (count + 1)
        * u128::MAX by {
        lemma_add_amount_total(sums, asset, amount, other);
        assert(total_of(sums, other) <= count * u128::MAX);
        assert((count + 1) * u128::MAX == count * u128::MAX + u128::MAX) by (nonlinear_arith);
    }
}

/// Every listed asset is listed once and has received something.
pub open spec fn sums_wf(sums: Seq<(Seq<u8>, nat)>) -> bool {
    &&& forall|i: int| 0 <= i < sums.len() ==> (#[trigger] sums[i]).1 > 0
    &&& forall|i: int, j: int|
        0 <= i < j < sums.len() ==> (#[trigger] sums[i]).0 != (#[trigger] sums[j]).0
}

/// `find_asset` gives the first place at or after `from` where the asset
/// stands, and the length if it stands nowhere.
pub proof fn lemma_find_asset(sums: Seq<(Seq<u8>, nat)>, asset: Seq<u8>, from: int)
    requires
        0 <= from <= sums.len(),
    ensures
        from <= find_asset(sums, asset, from) <= sums.len(),
        find_asset(sums, asset, from) < sums.len() ==> sums[find_asset(sums, asset, from)].0
            == asset,
        forall|k: int| from <= k < find_asset(sums, asset, from) ==> (#[trigger] sums[k]).0 != asset,
    decreases sums.len() - from,
{
    if from < sums.len() && sums[from].0 != asset {
        lemma_find_asset(sums, asset, from + 1);
    }
}

/// Two lists with the same assets in the same places find an asset in the
/// same place.
pub proof fn lemma_find_asset_same_keys(
    a: Seq<(Seq<u8>, nat)>,
    b: Seq<(Seq<u8>, nat)>,
    asset: Seq<u8>,
    from: int,
)
    requires
        0 <= from <= a.len(),
        a.len() <= b.len(),
        forall|k: int| 0 <= k < a.len() ==> (#[trigger] a[k]).0 == (#[trigger] b[k]).0,
    ensures
        find_asset(a, asset, from) < a.len() ==> find_asset(b, asset, from) == find_asset(
            a,
            asset,
            from,
        ),
        find_asset(a, asset, from) == a.len() ==> find_asset(b, asset, from) == find_asset(
            b,
            asset,
            a.len() as int,
        ),
    decreases a.len() - from,
{
    if from < a.len() {
        assert(a[from].0 == b[from].0);
        if a[from].0 != asset {
            lemma_find_asset_same_keys(a, b, asset, from + 1);
        }
    }
}

/// Adding to an asset raises its total by the amount and leaves the totals of
/// all other assets as they are.
pub proof fn lemma_add_amount_total(
    sums: Seq<(Seq<u8>, nat)>,
    asset: Seq<u8>,
    amount: nat,
    other: Seq<u8>,
)
    ensures
        total_of(add_amount(sums, asset, amount), other) == total_of(sums, other) + if other
            == asset {
            amount
        } else {
            0
        },
{
    let after = add_amount(sums, asset, amount);
    let i = find_asset(sums, asset, 0);
    lemma_find_asset(sums, asset, 0);
    lemma_find_asset(sums, other, 0);
    if amount > 0 {
        lemma_find_asset_same_keys(sums, after, other, 0);
        if i >= sums.len() {
            let j = find_asset(sums, other, 0);
            if j >= sums.len() {
                // `other` is found in the new last place, or nowhere.
                assert(find_asset(after, other, sums.len() as int) == if other == asset {
                    sums.len() as int
                } else {
                    after.len() as int
                }) by {
                    reveal_with_fuel(find_asset, 2);
                }
            }
        }
    }
}

/// Adding keeps a list in which every asset stands once with a total above
/// zero that way.
pub proof fn lemma_add_amount_wf(sums: Seq<(Seq<u8>, nat)>, asset: Seq<u8>, amount: nat)
    requires
        sums_wf(sums),
    ensures
        sums_wf(add_amount(sums, asset, amount)),
        amount == 0 ==> add_amount(sums, asset, amount) == sums,
{
    lemma_find_asset(sums, asset, 0);
}

/// One asset and its total.
#[derive(Debug, Clone, Copy)]
pub struct AssetTotal {
    asset: [u8; 20],
    total: Total256,
}

/// Totals per asset.
#[derive(Debug, Clone)]
pub struct AssetSums {
    entries: Vec<AssetTotal>,
}

impl View for AssetSums {
    type V = Seq<(Seq<u8>, nat)>;

    /// The assets with their totals, in the order they were first added.
    closed spec fn view(&self) -> Seq<(Seq<u8>, nat)> {
        self.entries@.map_values(|e: AssetTotal| (e.asset@, e.total@))
    }
}

impl AssetSums {
    /// No totals.
    pub fn new() -> (sums: Self)
        ensures
            sums@ == Seq::<(Seq<u8>, nat)>::empty(),
    {
        let sums = AssetSums { entries: Vec::new() };
        assert(sums@ =~= Seq::<(Seq<u8>, nat)>::empty());
        sums
    }

    /// Number of assets.
    pub fn len(&self) -> (n: usize)
        ensures
            n == self@.len(),
    {
        self.entries.len()
    }

    /// The asset at position `index`.
    pub fn asset(&self, index: usize) -> (asset: &[u8; 20])
        requires
            index < self@.len(),
        ensures
            asset@ == self@[index as int].0,
    {
        &self.entries[index].asset
    }

    /// The total at position `index`.
    pub fn total(&self, index: usize) -> (total: Total256)
        requires
            index < self@.len(),
        ensures
            total@ == self@[index as int].1,
    {
        self.entries[index].total
    }

    /// Adds `amount` to the total of `asset`. An amount of zero changes
    /// nothing; an asset that is not listed yet is added at the end.
    pub fn add(&mut self, asset: &[u8; 20], amount: u128)
        requires
            total_of(old(self)@, asset@) + amount < two_256(),
        ensures
            final(self)@ == add_amount(old(self)@, asset@, amount as nat),
    {
        if amount == 0 {
            return ;
        }
        let n = self.entries.len();
        let mut i: usize = 0;
        while i < n
            invariant
                i <= n,
                n == self.entries@.len(),
                *self == *old(self),
                find_asset(self@, asset@, 0) == find_asset(self@, asset@, i as int),
            ensures
                i <= n,
                i < n ==> self@[i as int].0 == asset@,
                find_asset(self@, asset@, 0) == i,
            decreases n - i,
        {
            if bytes_eq(&self.entries[i].asset, asset) {
                break ;
            }
            i += 1;
        }
        if i < n {
            let entry = self.entries[i];
            let total = entry.total.add(amount);
            self.entries[i] = AssetTotal { asset: entry.asset, total };
            assert(self@ =~= old(self)@.update(
                i as int,
                (asset@, old(self)@[i as int].1 + amount as nat),
            ));
        } else {
            self.entries.push(AssetTotal { asset: *asset, total: Total256::from_u128(amount) });
            assert(self@ =~= old(self)@.push((asset@, amount as nat)));
        }
    }
}

} // verus!
