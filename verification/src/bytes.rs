//! Big-endian numbers and fixed-size views of byte slices.

use vstd::prelude::*;

verus! {

/// 256 to the power `n`.
pub open spec fn pow256(n: nat) -> nat
    decreases n,
{
    if n == 0 {
        1
    } else {
        256 * pow256((n - 1) as nat)
    }
}

/// The number that `bytes` spell in big-endian order.
pub open spec fn be_value(bytes: Seq<u8>) -> nat
    decreases bytes.len(),
{
    if bytes.len() == 0 {
        0
    } else {
        be_value(bytes.drop_last()) * 256 + bytes.last() as nat
    }
}

/// `n` bytes spell a number below 256 to the `n`.
pub proof fn lemma_be_value_bound(bytes: Seq<u8>)
    ensures
        be_value(bytes) < pow256(bytes.len()),
    decreases bytes.len(),
{
    if bytes.len() > 0 {
        lemma_be_value_bound(bytes.drop_last());
    }
}

/// The value of two byte strings put together.
pub proof fn lemma_be_value_concat(a: Seq<u8>, b: Seq<u8>)
    ensures
        be_value(a + b) == be_value(a) * pow256(b.len()) + be_value(b),
    decreases b.len(),
{
    let x = be_value(a) as int;
    if b.len() == 0 {
        assert(a + b =~= a);
        assert(x * pow256(0) == x) by (nonlinear_arith)
            requires
                pow256(0) == 1,
        ;
    } else {
        assert((a + b).drop_last() =~= a + b.drop_last());
        assert((a + b).last() == b.last());
        lemma_be_value_concat(a, b.drop_last());
        let p = pow256((b.len() - 1) as nat) as int;
        let y = be_value(b.drop_last()) as int;
        assert(pow256(b.len()) == 256 * p);
        assert(be_value(a + b.drop_last()) == x * p + y);
        assert(be_value(a + b) == (x * p + y) * 256 + b.last() as nat);
        assert((x * p + y) * 256 == x * (256 * p) + y * 256) by (nonlinear_arith);
        assert(x * pow256(b.len()) == x * (256 * p));
    }
}

/// Sixteen bytes fill a `u128` exactly.
pub proof fn lemma_pow256_16()
    ensures
        pow256(16) == 0x1_0000_0000_0000_0000_0000_0000_0000_0000,
        pow256(16) == u128::MAX + 1,
{
    reveal_with_fuel(pow256, 17);
}

/// Bytes with equal values and equal lengths are equal.
pub proof fn lemma_be_value_injective(a: Seq<u8>, b: Seq<u8>)
    requires
        a.len() == b.len(),
        be_value(a) == be_value(b),
    ensures
        a == b,
    decreases a.len(),
{
    if a.len() > 0 {
        lemma_be_value_injective(a.drop_last(), b.drop_last());
        assert(a =~= a.drop_last().push(a.last()));
        assert(b =~= b.drop_last().push(b.last()));
    } else {
        assert(a =~= b);
    }
}

/// The last `width` base-256 digits of `n` in big-endian order.
pub open spec fn be_fixed(n: nat, width: nat) -> Seq<u8>
    decreases width,
{
    if width == 0 {
        Seq::empty()
    } else {
        be_fixed(n / 256, (width - 1) as nat).push((n % 256) as u8)
    }
}

/// `be_fixed` has the width it is asked for.
pub proof fn lemma_be_fixed_len(n: nat, width: nat)
    ensures
        be_fixed(n, width).len() == width,
    decreases width,
{
    if width > 0 {
        lemma_be_fixed_len(n / 256, (width - 1) as nat);
    }
}

/// A number that fits in `width` bytes is the value of its `be_fixed` form.
pub proof fn lemma_be_fixed_value(n: nat, width: nat)
    requires
        n < pow256(width),
    ensures
        be_value(be_fixed(n, width)) == n,
    decreases width,
{
    if width > 0 {
        let digits = be_fixed(n / 256, (width - 1) as nat);
        lemma_be_fixed_value(n / 256, (width - 1) as nat);
        assert(be_fixed(n, width).drop_last() =~= digits);
    }
}

/// Bytes are the `be_fixed` form of their value.
pub proof fn lemma_be_fixed_of_value(bytes: Seq<u8>)
    ensures
        be_fixed(be_value(bytes), bytes.len()) == bytes,
{
    lemma_be_value_bound(bytes);
    lemma_be_fixed_len(be_value(bytes), bytes.len());
    lemma_be_fixed_value(be_value(bytes), bytes.len());
    lemma_be_value_injective(be_fixed(be_value(bytes), bytes.len()), bytes);
}

/// Converts a slice of `N` bytes to a reference to an array, by std's
/// `TryFrom<&[u8]>` for `&[u8; N]`. The conversion succeeds on a slice of that
/// length and the array holds the same bytes.
#[verifier::external_body]
pub(crate) fn array_ref<const N: usize>(bytes: &[u8]) -> (array: &[u8; N])
    requires
        bytes@.len() == N,
    ensures
        array@ == bytes@,
{
    bytes.try_into().unwrap()
}

/// Reads a big-endian number of sixteen bytes.
pub fn u128_from_be(bytes: &[u8]) -> (value: u128)
    requires
        bytes@.len() == 16,
    ensures
        value == be_value(bytes@),
{
    let mut value: u128 = 0;
    let mut i: usize = 0;
    while i < 16
        invariant
            i <= 16,
            bytes@.len() == 16,
            value == be_value(bytes@.take(i as int)),
            value < pow256(i as nat),
        decreases 16 - i,
    {
        proof {
            assert(bytes@.take(i + 1).drop_last() =~= bytes@.take(i as int));
            lemma_pow256_monotonic((i + 1) as nat, 16);
            lemma_pow256_16();
        }
        value = value * 256 + bytes[i] as u128;
        i += 1;
    }
    assert(bytes@.take(16) =~= bytes@);
    value
}

/// Powers of 256 grow.
pub proof fn lemma_pow256_monotonic(a: nat, b: nat)
    requires
        a <= b,
    ensures
        pow256(a) <= pow256(b),
        pow256(a) >= 1,
    decreases b,
{
    if a < b {
        lemma_pow256_monotonic(a, (b - 1) as nat);
    } else if a > 0 {
        lemma_pow256_monotonic((a - 1) as nat, (a - 1) as nat);
    }
}

/// Writes a number as sixteen bytes in big-endian order.
pub fn u128_to_be(value: u128) -> (bytes: [u8; 16])
    ensures
        be_value(bytes@) == value,
{
    let mut bytes = [0u8; 16];
    let mut rest: u128 = value;
    let mut i: usize = 16;
    assert(bytes@.subrange(16, 16) =~= Seq::<u8>::empty());
    assert(pow256(0) == 1);
    assert(be_value(Seq::<u8>::empty()) == 0);
    assert(rest * pow256(0) == rest) by (nonlinear_arith)
        requires
            pow256(0) == 1,
    ;
    while i > 0
        invariant
            i <= 16,
            rest * pow256((16 - i) as nat) + be_value(bytes@.subrange(i as int, 16)) == value,
        decreases i,
    {
        let ghost suffix = bytes@.subrange(i as int, 16);
        let ghost p = pow256((16 - i) as nat) as int;
        let low: u8 = (rest % 256) as u8;
        let ghost before = rest as int;
        i -= 1;
        bytes[i] = low;
        rest = rest / 256;
        proof {
            assert(bytes@.subrange(i as int, 16) =~= seq![low] + suffix);
            lemma_be_value_concat(seq![low], suffix);
            assert(seq![low].drop_last() =~= Seq::<u8>::empty());
            assert(be_value(seq![low]) == low as nat) by {
                reveal_with_fuel(be_value, 2);
            }
            let r = rest as int;
            let l = low as int;
            assert(before == 256 * r + l);
            assert((256 * r + l) * p == r * (256 * p) + l * p) by (nonlinear_arith);
        }
    }
    proof {
        assert(bytes@.subrange(0, 16) =~= bytes@);
        lemma_be_value_bound(bytes@);
        lemma_pow256_16();
        let r = rest as int;
        let v = be_value(bytes@) as int;
        assert(r * 0x1_0000_0000_0000_0000_0000_0000_0000_0000 + v == value);
        assert(r == 0) by (nonlinear_arith)
            requires
                r >= 0,
                0 <= v < 0x1_0000_0000_0000_0000_0000_0000_0000_0000,
                r * 0x1_0000_0000_0000_0000_0000_0000_0000_0000 + v
                    < 0x1_0000_0000_0000_0000_0000_0000_0000_0000,
        ;
    }
    bytes
}

/// Copies `src` over `dst[at..at + src.len()]`.
pub fn copy_into(dst: &mut [u8], at: usize, src: &[u8])
    requires
        at + src@.len() <= old(dst)@.len(),
    ensures
        final(dst)@.len() == old(dst)@.len(),
        forall|i: int|
            0 <= i < old(dst)@.len() ==> #[trigger] final(dst)@[i] == if at <= i < at + src@.len() {
                src@[i - at]
            } else {
                old(dst)@[i]
            },
{
    let n = src.len();
    let total = dst.len();
    let mut i: usize = 0;
    while i < n
        invariant
            i <= n,
            n == src@.len(),
            dst@.len() == total,
            dst@.len() == old(dst)@.len(),
            at + n <= dst@.len(),
            forall|k: int|
                0 <= k < dst@.len() ==> #[trigger] dst@[k] == if at <= k < at + i {
                    src@[k - at]
                } else {
                    old(dst)@[k]
                },
        decreases n - i,
    {
        dst[at + i] = src[i];
        i += 1;
    }
}

/// Appends `data` to `buf`.
pub fn append_bytes(buf: &mut Vec<u8>, data: &[u8])
    ensures
        final(buf)@ == old(buf)@ + data@,
{
    buf.extend_from_slice(data);
    assert(buf@ =~= old(buf)@ + data@);
}

/// Whether two byte strings are equal.
pub fn bytes_eq(a: &[u8], b: &[u8]) -> (equal: bool)
    ensures
        equal == (a@ == b@),
{
    if a.len() != b.len() {
        return false;
    }
    let n = a.len();
    let mut i: usize = 0;
    while i < n
        invariant
            i <= n,
            n == a@.len(),
            n == b@.len(),
            a@.take(i as int) == b@.take(i as int),
        decreases n - i,
    {
        if a[i] != b[i] {
            return false;
        }
        assert(a@.take(i + 1) =~= a@.take(i as int).push(a@[i as int]));
        assert(b@.take(i + 1) =~= b@.take(i as int).push(b@[i as int]));
        i += 1;
    }
    assert(a@.take(n as int) =~= a@);
    assert(b@.take(n as int) =~= b@);
    true
}

} // verus!
