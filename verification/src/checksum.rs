//! The Adler-32 checksum.
use vstd::prelude::*;

verus! {

/// The Adler-32 modulus.
pub const ADLER_MOD: u32 = 65521;

/// The two Adler-32 sums of `s`: `a` starts at 1 and adds each byte, `b` adds each new
/// `a`, both modulo 65521.
pub open spec fn adler_sums(s: Seq<u8>) -> (nat, nat)
    decreases s.len(),
{
    if s.len() == 0 {
        (1, 0)
    } else {
        let (a, b) = adler_sums(s.drop_last());
        let a2 = ((a + s.last()) % 65521) as nat;
        (a2, ((b + a2) % 65521) as nat)
    }
}

/// The Adler-32 checksum of `s`: `b * 65536 + a`.
pub open spec fn adler32_of(s: Seq<u8>) -> u32 {
    (adler_sums(s).1 * 65536 + adler_sums(s).0) as u32
}

proof fn lemma_adler_sums_bound(s: Seq<u8>)
    ensures
        adler_sums(s).0 < 65521,
        adler_sums(s).1 < 65521,
    decreases s.len(),
{
    if s.len() > 0 {
        lemma_adler_sums_bound(s.drop_last());
    }
}

/// Adler-32 is one update step per byte, over every byte of the data, whatever its
/// length: the empty checksum is 1, and with `a` the low and `b` the high 16 bits of the
/// checksum of `s`, appending `x` makes `a' = (a + x) mod 65521` the low half and
/// `(b + a') mod 65521` the high half. Both halves stay below 65521.
pub proof fn lemma_adler32_step(s: Seq<u8>, x: u8)
    ensures
        adler32_of(Seq::empty()) == 1,
        adler32_of(s) % 65536 < 65521,
        adler32_of(s) / 65536 < 65521,
        ({
            let a = adler32_of(s) % 65536;
            let b = adler32_of(s) / 65536;
            let a2 = (a + x) % 65521;
            adler32_of(s.push(x)) == ((b + a2) % 65521) * 65536 + a2
        }),
{
    lemma_adler_sums_bound(s);
    lemma_adler_sums_bound(s.push(x));
    assert(s.push(x).drop_last() =~= s);
    let (a, b) = adler_sums(s);
    assert(adler32_of(s) == b * 65536 + a);
    assert((b * 65536 + a) % 65536 == a && (b * 65536 + a) / 65536 == b) by (nonlinear_arith)
        requires
            a < 65521,
            b < 65521,
    ;
}

/// Adler-32 checksum of `data`.
pub fn adler32(data: &[u8]) -> (r: u32)
    ensures
        r == adler32_of(data@),
        adler_sums(data@).0 < 65521 && adler_sums(data@).1 < 65521,
{
    let mut a: u32 = 1;
    let mut b: u32 = 0;
    let mut i: usize = 0;
    while i < data.len()
        invariant
            i <= data@.len(),
            adler_sums(data@.take(i as int)) == (a as nat, b as nat),
            a < 65521,
            b < 65521,
        decreases data@.len() - i,
    {
        let byte = data[i];
        assert(data@.take(i + 1).drop_last() =~= data@.take(i as int));
        a = (a + byte as u32) % ADLER_MOD;
        b = (b + a) % ADLER_MOD;
        i += 1;
    }
    assert(data@.take(data@.len() as int) =~= data@);
    assert((b << 16) | a == b * 65536 + a) by (bit_vector)
        requires
            a < 65521,
            b < 65521,
    ;
    (b << 16) | a
}

} // verus!
