//! Fibonacci (Zeckendorf) and Elias-gamma codes for integers, as bit strings.
use vstd::prelude::*;
use vstd::std_specs::bits::{u32_leading_zeros, axiom_u32_leading_zeros};
use crate::bitio::zero_bits;

verus! {

/// Number of entries of the Fibonacci table: the terms 1, 2, 3, 5, ... that do not exceed
/// `FIB_TABLE_LIMIT`.
pub const FIB_TABLE_LEN: usize = 31;

/// Largest value the Fibonacci table may hold.
pub const FIB_TABLE_LIMIT: u32 = 3000000;

/// The Fibonacci numbers 1, 2, 3, 5, 8, ... (`fib(0) == 1`, `fib(1) == 2`).
pub open spec fn fib(k: nat) -> nat
    decreases k,
{
    if k == 0 {
        1
    } else if k == 1 {
        2
    } else {
        fib((k - 1) as nat) + fib((k - 2) as nat)
    }
}

/// The table of the codec: the first `FIB_TABLE_LEN` Fibonacci numbers.
pub open spec fn fibonacci_table() -> Seq<u32> {
    Seq::new(FIB_TABLE_LEN as nat, |k: int| fib(k as nat) as u32)
}

/// What reading a code from the front of a bit string gives.
pub enum Decoded<T> {
    /// The value and the bits after the code.
    Value(T, Seq<bool>),
    /// The bits ran out before the code was complete; all of them are consumed.
    Exhausted,
    /// The bits name a table entry or an arithmetic result that does not exist.
    Fault,
}

// ----------------------------------------------------------------------------------------
// Fibonacci code

/// Largest index `t <= i` with `fib(t) <= m`, or 0.
pub open spec fn fib_top(m: nat, i: nat) -> nat
    decreases i,
{
    if i == 0 || fib(i) <= m {
        i
    } else {
        fib_top(m, (i - 1) as nat)
    }
}

/// Greedy Zeckendorf digits of `m` over `fib(0) .. fib(k - 1)`, lowest index first.
pub open spec fn zeck_bits(m: nat, k: nat) -> Seq<bool>
    decreases k,
{
    if k == 0 {
        Seq::empty()
    } else {
        let b = m >= fib((k - 1) as nat);
        zeck_bits(if b { (m - fib((k - 1) as nat)) as nat } else { m }, (k - 1) as nat).push(b)
    }
}

/// The Fibonacci code of `n`: the Zeckendorf digits of `n + 1` up to its highest
/// table term, lowest first, then a closing 1.
pub open spec fn fib_code(n: u32) -> Seq<bool> {
    let m = n + 1;
    zeck_bits(m as nat, fib_top(m as nat, (FIB_TABLE_LEN - 1) as nat) + 1).push(true)
}

/// Reading a Fibonacci code from position `i` of `bits`, after a `prev` bit, with the
/// table terms added so far in `acc`.
pub open spec fn fib_scan(bits: Seq<bool>, i: int, prev: bool, acc: int) -> Decoded<u32>
    decreases bits.len() - i,
{
    if i < 0 || i >= bits.len() {
        Decoded::Exhausted
    } else if bits[i] {
        if prev {
            Decoded::Value((acc - 1) as u32, bits.skip(i + 1))
        } else if i >= FIB_TABLE_LEN {
            Decoded::Fault
        } else {
            fib_scan(bits, i + 1, true, acc + fib(i as nat))
        }
    } else {
        fib_scan(bits, i + 1, false, acc)
    }
}

/// Reading one Fibonacci code from the front of `bits`: the table terms at the 1 bits are
/// added up until two 1 bits follow each other; the value is that sum minus one.
pub open spec fn fib_read(bits: Seq<bool>) -> Decoded<u32> {
    fib_scan(bits, 0, false, 0)
}

/// Table values.
pub proof fn lemma_fib_values()
    ensures
        fib(0) == 1,
        fib(1) == 2,
        fib(29) == 1346269,
        fib(30) == 2178309,
        fib(31) == 3524578,
{
    assert(fib(0) == 1);
    assert(fib(1) == 2);
    assert(fib(2) == 3);
    assert(fib(3) == 5);
    assert(fib(4) == 8);
    assert(fib(5) == 13);
    assert(fib(6) == 21);
    assert(fib(7) == 34);
    assert(fib(8) == 55);
    assert(fib(9) == 89);
    assert(fib(10) == 144);
    assert(fib(11) == 233);
    assert(fib(12) == 377);
    assert(fib(13) == 610);
    assert(fib(14) == 987);
    assert(fib(15) == 1597);
    assert(fib(16) == 2584);
    assert(fib(17) == 4181);
    assert(fib(18) == 6765);
    assert(fib(19) == 10946);
    assert(fib(20) == 17711);
    assert(fib(21) == 28657);
    assert(fib(22) == 46368);
    assert(fib(23) == 75025);
    assert(fib(24) == 121393);
    assert(fib(25) == 196418);
    assert(fib(26) == 317811);
    assert(fib(27) == 514229);
    assert(fib(28) == 832040);
    assert(fib(29) == 1346269);
    assert(fib(30) == 2178309);
    assert(fib(31) == 3524578);
}

/// Every Fibonacci number is positive.
pub proof fn lemma_fib_pos(k: nat)
    ensures
        fib(k) >= 1,
    decreases k,
{
    if k >= 2 {
        lemma_fib_pos((k - 1) as nat);
    }
}

/// The Fibonacci numbers strictly increase.
pub proof fn lemma_fib_increasing(i: nat, j: nat)
    requires
        i < j,
    ensures
        fib(i) < fib(j),
    decreases j,
{
    if j >= 2 {
        lemma_fib_pos((j - 2) as nat);
        assert(fib(j) == fib((j - 1) as nat) + fib((j - 2) as nat));
    } else {
        assert(fib(0) == 1 && fib(1) == 2);
    }
    if i < j - 1 {
        lemma_fib_increasing(i, (j - 1) as nat);
    }
}

/// Every table term is at most `FIB_TABLE_LIMIT`, and the next one is above it.
pub proof fn lemma_fib_table_bound(k: nat)
    ensures
        k < FIB_TABLE_LEN ==> fib(k) <= FIB_TABLE_LIMIT,
        k >= FIB_TABLE_LEN ==> fib(k) > FIB_TABLE_LIMIT,
{
    lemma_fib_values();
    if k < 30 {
        lemma_fib_increasing(k, 30);
    } else if k > 31 {
        lemma_fib_increasing(31, k);
    }
}

/// `fib_top` picks a term not above `m` (or index 0), and every later index up to `i` is above.
pub proof fn lemma_fib_top(m: nat, i: nat)
    ensures
        fib_top(m, i) <= i,
        fib_top(m, i) == 0 || fib(fib_top(m, i)) <= m,
        forall|j: nat| fib_top(m, i) < j <= i ==> fib(j) > m,
    decreases i,
{
    if i == 0 || fib(i) <= m {
    } else {
        lemma_fib_top(m, (i - 1) as nat);
    }
}

/// Weighted sum of Zeckendorf digits.
pub open spec fn zeck_sum(s: Seq<bool>) -> nat
    decreases s.len(),
{
    if s.len() == 0 {
        0
    } else {
        zeck_sum(s.drop_last()) + if s.last() { fib((s.len() - 1) as nat) } else { 0 }
    }
}

/// No two 1 digits next to each other.
pub open spec fn no_adjacent_ones(s: Seq<bool>) -> bool {
    forall|i: int| 0 <= i < s.len() - 1 ==> !(#[trigger] s[i] && s[i + 1])
}

proof fn lemma_zeck_len(m: nat, k: nat)
    ensures
        zeck_bits(m, k).len() == k,
    decreases k,
{
    if k > 0 {
        let b = m >= fib((k - 1) as nat);
        lemma_zeck_len(if b { (m - fib((k - 1) as nat)) as nat } else { m }, (k - 1) as nat);
    }
}

/// The greedy digits of `m < fib(k)` add up to `m`, have no adjacent ones, and end in a 1
/// exactly when `fib(k - 1) <= m`.
pub proof fn lemma_zeck(m: nat, k: nat)
    requires
        k >= 1,
        m < fib(k),
    ensures
        zeck_bits(m, k).len() == k,
        zeck_sum(zeck_bits(m, k)) == m,
        no_adjacent_ones(zeck_bits(m, k)),
        zeck_bits(m, k).last() == (m >= fib((k - 1) as nat)),
    decreases k,
{
    let b = m >= fib((k - 1) as nat);
    let m2 = if b { (m - fib((k - 1) as nat)) as nat } else { m };
    let s = zeck_bits(m, k);
    let s2 = zeck_bits(m2, (k - 1) as nat);
    assert(s == s2.push(b));
    lemma_zeck_len(m, k);
    assert(s.drop_last() =~= s2);
    assert(zeck_sum(s) == zeck_sum(s2) + if b { fib((k - 1) as nat) } else { 0 });
    if k == 1 {
        assert(s2 =~= Seq::<bool>::empty());
        assert(fib(0) == 1 && fib(1) == 2);
        assert(zeck_sum(s2) == 0);
    } else {
        assert(m2 < fib((k - 1) as nat)) by {
            assert(fib(k) == fib((k - 1) as nat) + fib((k - 2) as nat));
            if b {
                lemma_fib_increasing((k - 2) as nat, (k - 1) as nat);
            }
        }
        lemma_zeck(m2, (k - 1) as nat);
        if b {
            assert(m2 < fib((k - 2) as nat)) by {
                assert(fib(k) == fib((k - 1) as nat) + fib((k - 2) as nat));
            }
            assert(!s2.last());
        }
        assert forall|i: int| 0 <= i < s.len() - 1 implies !(#[trigger] s[i] && s[i + 1]) by {
            if i < s.len() - 2 {
                assert(s[i] == s2[i] && s[i + 1] == s2[i + 1]);
            } else {
                assert(s[i] == s2.last());
            }
        }
    }
}

/// Reading a bit string `s + [1] + rest` in which `s` has no adjacent ones: after `j`
/// digits the scan has added the terms at the ones of `s.take(j)`.
proof fn lemma_scan_prefix(s: Seq<bool>, rest: Seq<bool>, j: int)
    requires
        s.len() <= FIB_TABLE_LEN,
        no_adjacent_ones(s),
        0 <= j <= s.len(),
    ensures
        fib_read(s.push(true) + rest) == fib_scan(
            s.push(true) + rest,
            j,
            j > 0 && s[j - 1],
            zeck_sum(s.take(j)) as int,
        ),
    decreases j,
{
    let bits = s.push(true) + rest;
    if j == 0 {
        assert(s.take(0) =~= Seq::<bool>::empty());
    } else {
        lemma_scan_prefix(s, rest, j - 1);
        let p = j - 1;
        assert(bits[p] == s[p]);
        assert(s.take(j).drop_last() =~= s.take(p));
        if s[p] && p > 0 {
            assert(!(s[p - 1] && s[p]));
        }
    }
}

/// A Fibonacci code read back from the front of a bit string gives its value and the bits
/// after it, for every value whose successor is below `fib(FIB_TABLE_LEN)`.
pub proof fn lemma_fib_roundtrip(n: u32, rest: Seq<bool>)
    requires
        n + 1 < fib(FIB_TABLE_LEN as nat),
    ensures
        fib_read(fib_code(n) + rest) == Decoded::Value(n, rest),
{
    let m = (n + 1) as nat;
    let top = fib_top(m, 30);
    lemma_fib_top(m, 30);
    assert(m < fib(top + 1)) by {
        if top < 30 {
            assert(fib(top + 1) > m);
        }
    }
    assert(fib(top) <= m) by {
        if top == 0 {
            lemma_fib_values();
        }
    }
    let s = zeck_bits(m, top + 1);
    lemma_zeck(m, top + 1);
    let bits = s.push(true) + rest;
    assert(fib_code(n) == s.push(true));
    lemma_scan_prefix(s, rest, s.len() as int);
    assert(s.take(s.len() as int) =~= s);
    assert(bits[s.len() as int] == true);
    assert(bits.skip(s.len() as int + 1) =~= rest);
}

// ----------------------------------------------------------------------------------------
// Elias-gamma code

/// Index of the highest 1 bit of `m` (for `m > 0`).
pub open spec fn top_bit(m: u32) -> nat {
    (31 - u32_leading_zeros(m)) as nat
}

/// The low `k` bits of `m`, highest first.
pub open spec fn msb_bits(m: u32, k: nat) -> Seq<bool> {
    Seq::new(k, |t: int| ((m >> ((k - 1 - t) as u32)) & 1u32) == 1u32)
}

/// The Elias-gamma code of `n`: for `m = n + 1` with highest bit `k`, `k` zeros, a 1, and
/// the `k` bits of `m` below its highest bit.
pub open spec fn gamma_code(n: u32) -> Seq<bool> {
    let m = (n + 1) as u32;
    zero_bits(top_bit(m)) + seq![true] + msb_bits(m, top_bit(m))
}

/// Number of zero bits at the front of `bits`.
pub open spec fn zero_run(bits: Seq<bool>) -> nat
    decreases bits.len(),
{
    if bits.len() == 0 || bits[0] {
        0
    } else {
        1 + zero_run(bits.drop_first())
    }
}

/// `n` with the bits of `s` shifted in from the right, in 32-bit arithmetic.
pub open spec fn shift_in(n: u32, s: Seq<bool>) -> u32
    decreases s.len(),
{
    if s.len() == 0 {
        n
    } else {
        shift_in((n << 1u32) | (if s[0] { 1u32 } else { 0u32 }), s.drop_first())
    }
}

/// Reading one Elias-gamma code from the front of `bits`: `z` zeros, a 1, then `z` bits
/// shifted into a 32-bit value that starts at 1; the value is that number minus one.
/// The subtraction wraps: a number that has lost its leading 1 and is zero gives
/// `u32::MAX`. A run of more zeros than a 32-bit signed counter holds is a fault.
pub open spec fn gamma_read(bits: Seq<bool>) -> Decoded<u32> {
    let z = zero_run(bits) as int;
    if z > i32::MAX {
        Decoded::Fault
    } else if bits.len() < 2 * z + 1 {
        Decoded::Exhausted
    } else {
        let v = shift_in(1, bits.subrange(z + 1, 2 * z + 1));
        Decoded::Value(if v == 0 { u32::MAX } else { (v - 1) as u32 }, bits.skip(2 * z + 1))
    }
}

/// Leading zeros before position `k` count into the zero run.
pub proof fn lemma_zero_run_prefix(bits: Seq<bool>, k: int)
    requires
        0 <= k <= bits.len(),
        forall|t: int| 0 <= t < k ==> !#[trigger] bits[t],
    ensures
        zero_run(bits) == k + zero_run(bits.skip(k)),
    decreases k,
{
    if k > 0 {
        assert(!bits[0]);
        lemma_zero_run_prefix(bits.drop_first(), k - 1);
        assert(bits.drop_first().skip(k - 1) =~= bits.skip(k));
    } else {
        assert(bits.skip(0) =~= bits);
    }
}

proof fn lemma_zero_run(k: nat, rest: Seq<bool>)
    ensures
        zero_run(zero_bits(k) + seq![true] + rest) == k,
    decreases k,
{
    let s = zero_bits(k) + seq![true] + rest;
    if k > 0 {
        assert(s.drop_first() =~= zero_bits((k - 1) as nat) + seq![true] + rest);
        lemma_zero_run((k - 1) as nat, rest);
    } else {
        assert(s[0]);
    }
}

pub proof fn lemma_shift_in_push(n: u32, s: Seq<bool>, b: bool)
    ensures
        shift_in(n, s.push(b)) == (shift_in(n, s) << 1u32) | (if b { 1u32 } else { 0u32 }),
    decreases s.len(),
{
    if s.len() == 0 {
        assert(s.push(b).drop_first() =~= Seq::<bool>::empty());
        assert(shift_in(n, s) == n);
        let n2 = (n << 1u32) | (if b { 1u32 } else { 0u32 });
        assert(shift_in(n2, Seq::<bool>::empty()) == n2);
    } else {
        let n2 = (n << 1u32) | (if s[0] { 1u32 } else { 0u32 });
        assert(s.push(b)[0] == s[0]);
        assert(s.push(b).drop_first() =~= s.drop_first().push(b));
        lemma_shift_in_push(n2, s.drop_first(), b);
    }
}

proof fn lemma_shift_in_msb(m: u32, k: nat, j: nat)
    requires
        k <= 31,
        j <= k,
        m >> (k as u32) == 1u32,
    ensures
        shift_in(1, msb_bits(m, k).take(j as int)) == m >> ((k - j) as u32),
    decreases j,
{
    if j == 0 {
        assert(msb_bits(m, k).take(0) =~= Seq::<bool>::empty());
    } else {
        lemma_shift_in_msb(m, k, (j - 1) as nat);
        let s = msb_bits(m, k).take(j as int);
        assert(s =~= msb_bits(m, k).take(j - 1).push(s.last()));
        lemma_shift_in_push(1, msb_bits(m, k).take(j - 1), s.last());
        let sh = (k - j) as u32;
        assert(sh < 31);
        assert(s.last() == (((m >> sh) & 1u32) == 1u32));
        assert((((m >> ((sh + 1) as u32)) << 1u32) | (if ((m >> sh) & 1u32) == 1u32 { 1u32 } else { 0u32 }))
            == m >> sh) by (bit_vector)
            requires
                sh < 31,
        ;
    }
}

/// An Elias-gamma code read back from the front of a bit string gives its value and the
/// bits after it.
pub proof fn lemma_gamma_roundtrip(n: u32, rest: Seq<bool>)
    requires
        n < u32::MAX,
    ensures
        gamma_read(gamma_code(n) + rest) == Decoded::Value(n, rest),
{
    let m = (n + 1) as u32;
    axiom_u32_leading_zeros(m);
    let lz = u32_leading_zeros(m);
    let k = top_bit(m) as int;
    assert(lz < 32);
    let sk = k as u32;
    assert(m >> sk == 1u32) by {
        assert(((m >> sk) & 1u32) != 0u32);
        if sk < 31 {
            assert(m >> ((32 - lz) as u32) == 0);
            assert(((m >> sk) & 1u32) != 0u32 && m >> ((sk + 1) as u32) == 0u32 ==> m >> sk == 1u32)
                by (bit_vector);
        } else {
            assert(((m >> 31u32) & 1u32) != 0u32 ==> m >> 31u32 == 1u32) by (bit_vector);
        }
    }
    let bits = gamma_code(n) + rest;
    let mb = msb_bits(m, k as nat);
    assert(bits =~= zero_bits(k as nat) + seq![true] + (mb + rest));
    lemma_zero_run(k as nat, mb + rest);
    assert(bits.subrange(k + 1, 2 * k + 1) =~= mb);
    lemma_shift_in_msb(m, k as nat, k as nat);
    assert(mb.take(k) =~= mb);
    assert(m >> 0u32 == m) by (bit_vector);
    assert(bits.skip(2 * k + 1) =~= rest);
}

} // verus!
