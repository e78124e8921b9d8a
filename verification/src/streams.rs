//! The four bit-stream formats of a packed chunk: what each packer writes, what each
//! unpacker reads back, and that reading gives back what was written.
use vstd::prelude::*;
use vstd::arithmetic::div_mod::{lemma_mod_add_multiples_vanish, lemma_small_mod};
use crate::bitio::{bytes_to_bits, bits_to_byte, byte_bit, zero_bits, lemma_bits_to_byte_bit};
use crate::codes::{
    Decoded, fib, fib_code, fib_read, fib_scan, gamma_code, gamma_read, FIB_TABLE_LEN,
    lemma_fib_roundtrip, lemma_fib_values, lemma_gamma_roundtrip,
};

verus! {

/// The three header bits of a packed chunk: the delta flag and the two bits of the format.
pub open spec fn header_bits(is_delta: bool, hi: bool, lo: bool) -> Seq<bool> {
    seq![is_delta, hi, lo]
}

// ----------------------------------------------------------------------------------------
// Facts about reading codes

proof fn lemma_fib_scan_shrinks(bits: Seq<bool>, i: int, prev: bool, acc: int)
    requires
        0 <= i,
    ensures
        fib_scan(bits, i, prev, acc) matches Decoded::Value(v, rest) ==> rest.len() < bits.len() - i,
    decreases bits.len() - i,
{
    if i < bits.len() {
        if bits[i] {
            if !prev && i < FIB_TABLE_LEN {
                lemma_fib_scan_shrinks(bits, i + 1, true, acc + fib(i as nat));
            }
        } else {
            lemma_fib_scan_shrinks(bits, i + 1, false, acc);
        }
    }
}

/// A Fibonacci code read from the front leaves fewer bits behind.
pub proof fn lemma_fib_read_shrinks(bits: Seq<bool>)
    ensures
        fib_read(bits) matches Decoded::Value(v, rest) ==> rest.len() < bits.len(),
{
    lemma_fib_scan_shrinks(bits, 0, false, 0);
}

/// An Elias-gamma code read from the front leaves fewer bits behind.
pub proof fn lemma_gamma_read_shrinks(bits: Seq<bool>)
    ensures
        gamma_read(bits) matches Decoded::Value(v, rest) ==> rest.len() < bits.len(),
{
}

proof fn lemma_fib_scan_zeros(n: nat, i: int, acc: int)
    requires
        0 <= i,
    ensures
        fib_scan(zero_bits(n), i, false, acc) == Decoded::<u32>::Exhausted,
    decreases n - i,
{
    if i < n {
        lemma_fib_scan_zeros(n, i + 1, acc);
    }
}

/// Zero bits alone hold no Fibonacci code: reading runs out.
pub proof fn lemma_fib_read_zeros(n: nat)
    ensures
        fib_read(zero_bits(n)) == Decoded::<u32>::Exhausted,
{
    lemma_fib_scan_zeros(n, 0, 0);
}

/// A byte value read back from its Fibonacci code.
pub proof fn lemma_fib_roundtrip_small(n: u32, rest: Seq<bool>)
    requires
        n <= 65535,
    ensures
        fib_read(fib_code(n) + rest) == Decoded::Value(n, rest),
{
    lemma_fib_values();
    lemma_fib_roundtrip(n, rest);
}

// ----------------------------------------------------------------------------------------
// Raw format: the bytes as they are

/// The whole bytes in `bits`, eight bits each; a last incomplete group is dropped.
pub open spec fn raw_read(bits: Seq<bool>) -> Seq<u8> {
    Seq::new(bits.len() / 8, |t: int| bits_to_byte(bits.subrange(8 * t, 8 * t + 8)))
}

/// The eight bits of a byte give the byte back.
pub proof fn lemma_byte_bits(b: u8)
    ensures
        bits_to_byte(Seq::new(8, |j: int| byte_bit(b, j))) == b,
{
    let s = Seq::new(8, |j: int| byte_bit(b, j));
    let x = bits_to_byte(s);
    assert forall|j: int| 0 <= j < 8 implies byte_bit(x, j) == byte_bit(b, j) by {
        lemma_bits_to_byte_bit(s, j);
    }
    assert(byte_bit(x, 0) == byte_bit(b, 0));
    assert(byte_bit(x, 1) == byte_bit(b, 1));
    assert(byte_bit(x, 2) == byte_bit(b, 2));
    assert(byte_bit(x, 3) == byte_bit(b, 3));
    assert(byte_bit(x, 4) == byte_bit(b, 4));
    assert(byte_bit(x, 5) == byte_bit(b, 5));
    assert(byte_bit(x, 6) == byte_bit(b, 6));
    assert(byte_bit(x, 7) == byte_bit(b, 7));
    assert(x == b) by (bit_vector)
        requires
            ((x >> 7u8) & 1u8 == 1u8) == ((b >> 7u8) & 1u8 == 1u8),
            ((x >> 6u8) & 1u8 == 1u8) == ((b >> 6u8) & 1u8 == 1u8),
            ((x >> 5u8) & 1u8 == 1u8) == ((b >> 5u8) & 1u8 == 1u8),
            ((x >> 4u8) & 1u8 == 1u8) == ((b >> 4u8) & 1u8 == 1u8),
            ((x >> 3u8) & 1u8 == 1u8) == ((b >> 3u8) & 1u8 == 1u8),
            ((x >> 2u8) & 1u8 == 1u8) == ((b >> 2u8) & 1u8 == 1u8),
            ((x >> 1u8) & 1u8 == 1u8) == ((b >> 1u8) & 1u8 == 1u8),
            ((x >> 0u8) & 1u8 == 1u8) == ((b >> 0u8) & 1u8 == 1u8),
    ;
}

/// The raw format reads back its bytes, whatever fewer than eight filler bits follow.
pub proof fn lemma_raw_roundtrip(data: Seq<u8>, p: nat)
    requires
        p < 8,
    ensures
        raw_read(bytes_to_bits(data) + zero_bits(p)) == data,
{
    let bits = bytes_to_bits(data) + zero_bits(p);
    let n = data.len();
    assert(bits.len() / 8 == n) by (nonlinear_arith)
        requires
            bits.len() == 8 * n + p,
            p < 8,
    ;
    assert forall|t: int| 0 <= t < n implies #[trigger] raw_read(bits)[t] == data[t] by {
        let sub = bits.subrange(8 * t, 8 * t + 8);
        assert(8 * t + 8 <= 8 * n) by (nonlinear_arith)
            requires
                t < n,
        ;
        assert forall|j: int| 0 <= j < 8 implies #[trigger] sub[j] == byte_bit(data[t], j) by {
            let i = 8 * t + j;
            assert(i / 8 == t && i % 8 == j) by (nonlinear_arith)
                requires
                    i == 8 * t + j,
                    0 <= j < 8,
            ;
        }
        assert(sub =~= Seq::new(8, |j: int| byte_bit(data[t], j)));
        lemma_byte_bits(data[t]);
    }
    assert(raw_read(bits) =~= data);
}

// ----------------------------------------------------------------------------------------
// Fibonacci format: one Fibonacci code per byte

/// The Fibonacci codes of the bytes of `s`, one after another.
pub open spec fn fib_stream(s: Seq<u8>) -> Seq<bool>
    decreases s.len(),
{
    if s.len() == 0 {
        Seq::empty()
    } else {
        fib_code(s[0] as u32) + fib_stream(s.drop_first())
    }
}

/// Appending a byte appends its code.
pub proof fn lemma_fib_stream_push(s: Seq<u8>, b: u8)
    ensures
        fib_stream(s.push(b)) == fib_stream(s) + fib_code(b as u32),
    decreases s.len(),
{
    if s.len() == 0 {
        assert(s.push(b).drop_first() =~= Seq::<u8>::empty());
        assert(fib_stream(s.push(b)) =~= fib_code(b as u32) + fib_stream(Seq::<u8>::empty()));
        assert(fib_stream(s) + fib_code(b as u32) =~= fib_code(b as u32));
    } else {
        assert(s.push(b).drop_first() =~= s.drop_first().push(b));
        lemma_fib_stream_push(s.drop_first(), b);
        assert(s.push(b)[0] == s[0]);
        assert(fib_stream(s.push(b)) =~= fib_code(s[0] as u32) + (fib_stream(s.drop_first())
            + fib_code(b as u32)));
    }
}

/// Reading Fibonacci codes until the bits run out; the values become bytes (their low
/// eight bits). `None` when a code is faulty.
pub open spec fn fib_values_read(bits: Seq<bool>, out: Seq<u8>) -> Option<Seq<u8>>
    decreases bits.len(),
{
    match fib_read(bits) {
        Decoded::Value(v, rest) => {
            proof {
                lemma_fib_read_shrinks(bits);
            }
            fib_values_read(rest, out.push(v as u8))
        },
        Decoded::Exhausted => Some(out),
        Decoded::Fault => None,
    }
}

/// The Fibonacci format reads back its bytes, whatever fewer than eight filler bits follow.
pub proof fn lemma_fib_stream_roundtrip(data: Seq<u8>, p: nat, out: Seq<u8>)
    requires
        p < 8,
    ensures
        fib_values_read(fib_stream(data) + zero_bits(p), out) == Some(out + data),
    decreases data.len(),
{
    if data.len() == 0 {
        assert(fib_stream(data) + zero_bits(p) =~= zero_bits(p));
        lemma_fib_read_zeros(p);
        assert(out + data =~= out);
    } else {
        let b = data[0];
        let rest = fib_stream(data.drop_first()) + zero_bits(p);
        assert(fib_stream(data) + zero_bits(p) =~= fib_code(b as u32) + rest);
        lemma_fib_roundtrip_small(b as u32, rest);
        lemma_fib_stream_roundtrip(data.drop_first(), p, out.push(b));
        assert(out.push(b) + data.drop_first() =~= out + data);
    }
}


// ----------------------------------------------------------------------------------------
// LZ format: literals and back-references

/// One step of the LZ format.
pub enum LzToken {
    /// One byte as it is.
    Literal(u8),
    /// Copy `len` bytes from `dist` bytes back, one byte at a time (so a copy may overlap
    /// the bytes it produces).
    Copy(u32, u32),
}

/// The bits of one token: a 0 flag and the Fibonacci code of the byte, or a 1 flag and
/// the Fibonacci codes of distance and length.
pub open spec fn token_bits(t: LzToken) -> Seq<bool> {
    match t {
        LzToken::Literal(b) => seq![false] + fib_code(b as u32),
        LzToken::Copy(d, l) => seq![true] + fib_code(d) + fib_code(l),
    }
}

/// The bits of a token sequence.
pub open spec fn tokens_bits(ts: Seq<LzToken>) -> Seq<bool>
    decreases ts.len(),
{
    if ts.len() == 0 {
        Seq::empty()
    } else {
        token_bits(ts[0]) + tokens_bits(ts.drop_first())
    }
}

/// `out` followed by `l` bytes copied one at a time from `d` bytes back.
pub open spec fn lz_copy(out: Seq<u8>, d: int, l: int) -> Seq<u8> {
    out + Seq::new(l as nat, |t: int| out[out.len() - d + t % d])
}

/// `out` after one token.
pub open spec fn lz_apply(out: Seq<u8>, t: LzToken) -> Seq<u8> {
    match t {
        LzToken::Literal(b) => out.push(b),
        LzToken::Copy(d, l) => lz_copy(out, d as int, l as int),
    }
}

/// `out` after the tokens `ts`.
pub open spec fn lz_expand(ts: Seq<LzToken>, out: Seq<u8>) -> Seq<u8>
    decreases ts.len(),
{
    if ts.len() == 0 {
        out
    } else {
        lz_expand(ts.drop_first(), lz_apply(out, ts[0]))
    }
}

/// Output length after one token, from output length `n`.
pub open spec fn token_len(t: LzToken) -> nat {
    match t {
        LzToken::Literal(_) => 1,
        LzToken::Copy(_, l) => l as nat,
    }
}

/// A token that the packer may emit after `n` output bytes: a back-reference reaches
/// 1 to 65535 bytes back, not before the start, and copies 3 to 255 bytes.
pub open spec fn token_ok(t: LzToken, n: nat) -> bool {
    match t {
        LzToken::Literal(_) => true,
        LzToken::Copy(d, l) => 1 <= d <= n && d <= 65535 && 3 <= l <= 255,
    }
}

/// Every token of `ts` is one the packer may emit, starting from `n` output bytes.
pub open spec fn lz_valid(ts: Seq<LzToken>, n: nat) -> bool
    decreases ts.len(),
{
    if ts.len() == 0 {
        true
    } else {
        token_ok(ts[0], n) && lz_valid(ts.drop_first(), n + token_len(ts[0]))
    }
}

/// Reading LZ tokens from `bits` onto `out` until the bits run out. `None` when a code
/// is faulty or a back-reference with a nonzero length reaches before the start.
pub open spec fn lz_read(bits: Seq<bool>, out: Seq<u8>) -> Option<Seq<u8>>
    decreases bits.len(),
{
    if bits.len() == 0 {
        Some(out)
    } else {
        let rest = bits.drop_first();
        proof {
            lemma_fib_read_shrinks(rest);
        }
        if !bits[0] {
            match fib_read(rest) {
                Decoded::Value(v, r) => lz_read(r, out.push(v as u8)),
                Decoded::Exhausted => Some(out),
                Decoded::Fault => None,
            }
        } else {
            match fib_read(rest) {
                Decoded::Value(d, r1) => {
                    proof {
                        lemma_fib_read_shrinks(r1);
                    }
                    match fib_read(r1) {
                        Decoded::Value(l, r2) => if l > 0 && (d == 0 || d > out.len()) {
                            None
                        } else {
                            lz_read(r2, lz_copy(out, d as int, l as int))
                        },
                        Decoded::Exhausted => Some(out),
                        Decoded::Fault => None,
                    }
                },
                Decoded::Exhausted => Some(out),
                Decoded::Fault => None,
            }
        }
    }
}

/// Appending a token appends its bits.
pub proof fn lemma_tokens_bits_push(ts: Seq<LzToken>, t: LzToken)
    ensures
        tokens_bits(ts.push(t)) == tokens_bits(ts) + token_bits(t),
    decreases ts.len(),
{
    assert(ts.push(t)[0] == if ts.len() == 0 { t } else { ts[0] });
    if ts.len() == 0 {
        assert(ts.push(t).drop_first() =~= Seq::<LzToken>::empty());
        assert(tokens_bits(ts.push(t)) =~= token_bits(t) + tokens_bits(Seq::<LzToken>::empty()));
        assert(tokens_bits(ts) + token_bits(t) =~= token_bits(t));
    } else {
        assert(ts.push(t).drop_first() =~= ts.drop_first().push(t));
        lemma_tokens_bits_push(ts.drop_first(), t);
        assert(tokens_bits(ts.push(t)) =~= token_bits(ts[0]) + (tokens_bits(ts.drop_first())
            + token_bits(t)));
    }
}

proof fn lemma_lz_read_zeros(p: nat, out: Seq<u8>)
    ensures
        lz_read(zero_bits(p), out) == Some(out),
{
    if p > 0 {
        assert(zero_bits(p).drop_first() =~= zero_bits((p - 1) as nat));
        lemma_fib_read_zeros((p - 1) as nat);
    }
}

/// The LZ format reads back what its tokens produce, whatever fewer than eight filler
/// bits follow.
pub proof fn lemma_lz_roundtrip(ts: Seq<LzToken>, p: nat, out: Seq<u8>)
    requires
        p < 8,
        lz_valid(ts, out.len()),
    ensures
        lz_read(tokens_bits(ts) + zero_bits(p), out) == Some(lz_expand(ts, out)),
    decreases ts.len(),
{
    if ts.len() == 0 {
        assert(tokens_bits(ts) + zero_bits(p) =~= zero_bits(p));
        lemma_lz_read_zeros(p, out);
    } else {
        let rest = tokens_bits(ts.drop_first()) + zero_bits(p);
        let bits = tokens_bits(ts) + zero_bits(p);
        match ts[0] {
            LzToken::Literal(b) => {
                assert(bits =~= seq![false] + (fib_code(b as u32) + rest));
                assert(bits.drop_first() =~= fib_code(b as u32) + rest);
                lemma_fib_roundtrip_small(b as u32, rest);
            },
            LzToken::Copy(d, l) => {
                assert(bits =~= seq![true] + (fib_code(d) + (fib_code(l) + rest)));
                assert(bits.drop_first() =~= fib_code(d) + (fib_code(l) + rest));
                lemma_fib_roundtrip_small(d, fib_code(l) + rest);
                lemma_fib_roundtrip_small(l, rest);
            },
        }
        lemma_lz_roundtrip(ts.drop_first(), p, lz_apply(out, ts[0]));
    }
}

/// A match of `l` bytes at distance `d` before position `i` is the copy of those bytes.
pub proof fn lemma_match_copy(s: Seq<u8>, i: int, d: int, l: int)
    requires
        1 <= d <= i,
        0 <= l,
        i + l <= s.len(),
        forall|j: int| 0 <= j < l ==> #[trigger] s[i - d + j] == s[i + j],
    ensures
        s.take(i + l) == lz_copy(s.take(i), d, l),
{
    let a = s.take(i + l);
    let b = lz_copy(s.take(i), d, l);
    assert forall|k: int| 0 <= k < a.len() implies #[trigger] a[k] == b[k] by {
        if k >= i {
            let t = k - i;
            lemma_match_copy_at(s, i, d, l, t);
            assert(0 <= t % d < d) by (nonlinear_arith)
                requires
                    d >= 1,
                    t >= 0,
            ;
            assert(b[k] == s.take(i)[i - d + t % d]);
        }
    }
    assert(a =~= b);
}

proof fn lemma_match_copy_at(s: Seq<u8>, i: int, d: int, l: int, t: int)
    requires
        1 <= d <= i,
        0 <= t < l,
        i + l <= s.len(),
        forall|j: int| 0 <= j < l ==> #[trigger] s[i - d + j] == s[i + j],
    ensures
        s[i + t] == s[i - d + t % d],
    decreases t,
{
    if t < d {
        lemma_small_mod(t as nat, d as nat);
        assert(s[i - d + t] == s[i + t]);
    } else {
        lemma_match_copy_at(s, i, d, l, t - d);
        lemma_mod_add_multiples_vanish(t - d, d);
        assert(s[i - d + t] == s[i + t]);
        assert(i - d + t == i + (t - d));
    }
}


// ----------------------------------------------------------------------------------------
// Pair format: a dictionary of frequent byte pairs, then pairs and literals

/// Number of positions `i` with `(s[i], s[i + 1]) == p`.
pub open spec fn pair_count(s: Seq<u8>, p: (u8, u8)) -> nat
    decreases s.len(),
{
    if s.len() < 2 {
        0
    } else {
        pair_count(s.drop_last(), p) + if (s[s.len() - 2], s.last()) == p { 1nat } else { 0nat }
    }
}

/// Counting pairs from the front: the pairs of `x` put before `s` are those of `s` and
/// the pair of `x` with the first byte of `s`; no pair occurs in fewer than two bytes.
pub proof fn lemma_pair_count_front(x: u8, s: Seq<u8>, p: (u8, u8))
    ensures
        pair_count(seq![x], p) == 0,
        pair_count(seq![x] + s, p) == pair_count(s, p) + if s.len() >= 1 && (x, s[0]) == p {
            1nat
        } else {
            0nat
        },
    decreases s.len(),
{
    let t = seq![x] + s;
    if s.len() >= 2 {
        lemma_pair_count_front(x, s.drop_last(), p);
        assert(t.drop_last() =~= seq![x] + s.drop_last());
        assert(t[t.len() - 2] == s[s.len() - 2]);
    } else if s.len() == 1 {
        assert(t.drop_last() =~= seq![x]);
        assert(s.drop_last().len() == 0);
    }
}

/// The dictionary the pair packer chooses: at most 255 distinct pairs; each occurs at
/// least six times; they come in order of non-increasing count; and a pair that occurs
/// six times or more is left out only when 255 entries that occur at least as often are
/// in.
pub proof fn lemma_dict_choice(s: Seq<u8>, dict: Seq<(u8, u8)>)
    requires
        valid_dict(s, dict),
    ensures
        dict.len() <= 255,
        forall|a: int, b: int| 0 <= a < b < dict.len() ==> dict[a] != dict[b],
        forall|j: int| 0 <= j < dict.len() ==> pair_count(s, #[trigger] dict[j]) >= 6,
        forall|a: int, b: int|
            0 <= a <= b < dict.len() ==> pair_count(s, #[trigger] dict[a]) >= pair_count(s, #[trigger] dict[b]),
        forall|q: (u8, u8)|
            #[trigger] pair_count(s, q) >= 6 && !dict.contains(q) ==> dict.len() == 255 && forall|j: int|
                0 <= j < dict.len() ==> pair_count(s, #[trigger] dict[j]) >= pair_count(s, q),
{
}

/// A dictionary that the pair packer may choose for `s`: at most 255 distinct pairs, each
/// occurring more than five times, in order of non-increasing count, and none left out
/// that occurs more than five times unless the dictionary is full and every entry occurs
/// at least as often.
pub open spec fn valid_dict(s: Seq<u8>, dict: Seq<(u8, u8)>) -> bool {
    &&& dict.len() <= 255
    &&& dict.no_duplicates()
    &&& forall|j: int| 0 <= j < dict.len() ==> pair_count(s, #[trigger] dict[j]) > 5
    &&& forall|i: int, j: int|
        0 <= i < j < dict.len() ==> pair_count(s, #[trigger] dict[i]) >= pair_count(s, #[trigger] dict[j])
    &&& forall|q: (u8, u8)|
        !dict.contains(q) && #[trigger] pair_count(s, q) > 5 ==> dict.len() == 255 && forall|j: int|
            0 <= j < dict.len() ==> pair_count(s, q) <= pair_count(s, #[trigger] dict[j])
}

/// The dictionary entries, each as the Fibonacci codes of its two bytes.
pub open spec fn dict_bits(dict: Seq<(u8, u8)>) -> Seq<bool>
    decreases dict.len(),
{
    if dict.len() == 0 {
        Seq::empty()
    } else {
        fib_code(dict[0].0 as u32) + fib_code(dict[0].1 as u32) + dict_bits(dict.drop_first())
    }
}

/// The body from position `i`: a pair that is in the dictionary becomes a 1 flag and the
/// Elias-gamma code of its index, any other byte a 0 flag and its Fibonacci code.
pub open spec fn pairs_body(s: Seq<u8>, dict: Seq<(u8, u8)>, i: int) -> Seq<bool>
    decreases s.len() - i,
{
    if i < 0 || i >= s.len() {
        Seq::empty()
    } else if i + 1 < s.len() && dict.len() > 0 && dict.contains((s[i], s[i + 1])) {
        seq![true] + gamma_code(dict.index_of((s[i], s[i + 1])) as u32) + pairs_body(s, dict, i + 2)
    } else {
        seq![false] + fib_code(s[i] as u32) + pairs_body(s, dict, i + 1)
    }
}

/// The bits of the pair format after the header: the dictionary size, the dictionary,
/// the body.
pub open spec fn pairs_bits(s: Seq<u8>, dict: Seq<(u8, u8)>) -> Seq<bool> {
    fib_code(dict.len() as u32) + dict_bits(dict) + pairs_body(s, dict, 0)
}

/// The pair format is greedy from every position, whatever its parity: at position `i`,
/// when the pair starting there is entry `j` of the dictionary, the body goes on with a 1
/// flag, the Elias-gamma code of `j`, and the body two positions on; otherwise with a 0
/// flag, the Fibonacci code of the byte, and the body one position on. The body ends at
/// the end of the data, and the pair format is the dictionary size, the entries and the
/// body.
pub proof fn lemma_pairs_greedy(s: Seq<u8>, dict: Seq<(u8, u8)>, i: int)
    requires
        0 <= i < s.len(),
        dict.no_duplicates(),
    ensures
        pairs_body(s, dict, s.len() as int) == Seq::<bool>::empty(),
        pairs_bits(s, dict) == fib_code(dict.len() as u32) + dict_bits(dict) + pairs_body(s, dict, 0),
        forall|j: int|
            0 <= j < dict.len() && i + 1 < s.len() && #[trigger] dict[j] == (s[i], s[i + 1]) ==> pairs_body(
                s,
                dict,
                i,
            ) == seq![true] + gamma_code(j as u32) + pairs_body(s, dict, i + 2),
        (i + 1 >= s.len() || forall|j: int| 0 <= j < dict.len() ==> #[trigger] dict[j] != (s[i], s[i + 1]))
            ==> pairs_body(s, dict, i) == seq![false] + fib_code(s[i] as u32) + pairs_body(s, dict, i + 1),
{
    if i + 1 < s.len() {
        let pr = (s[i], s[i + 1]);
        assert forall|j: int| 0 <= j < dict.len() && #[trigger] dict[j] == pr implies pairs_body(s, dict, i)
            == seq![true] + gamma_code(j as u32) + pairs_body(s, dict, i + 2) by {
            assert(dict.contains(pr));
            let k = dict.index_of(pr);
            assert(0 <= k < dict.len() && dict[k] == pr);
            assert(k == j);
        }
        if forall|j: int| 0 <= j < dict.len() ==> #[trigger] dict[j] != pr {
            assert(!dict.contains(pr));
        }
    }
}

/// Reading `n` dictionary entries onto `dict`; `None` when a code is missing or faulty.
pub open spec fn dict_read(bits: Seq<bool>, n: nat, dict: Seq<(u8, u8)>) -> Option<(Seq<(u8, u8)>, Seq<bool>)>
    decreases n,
{
    if n == 0 {
        Some((dict, bits))
    } else {
        match fib_read(bits) {
            Decoded::Value(a, r1) => match fib_read(r1) {
                Decoded::Value(b, r2) => dict_read(r2, (n - 1) as nat, dict.push((a as u8, b as u8))),
                _ => None,
            },
            _ => None,
        }
    }
}

/// Reading the body onto `out` until the bits run out or an index is past the
/// dictionary; `None` when a code is faulty.
pub open spec fn pairs_read(bits: Seq<bool>, dict: Seq<(u8, u8)>, out: Seq<u8>) -> Option<Seq<u8>>
    decreases bits.len(),
{
    if bits.len() == 0 {
        Some(out)
    } else {
        let rest = bits.drop_first();
        proof {
            lemma_fib_read_shrinks(rest);
            lemma_gamma_read_shrinks(rest);
        }
        if !bits[0] {
            match fib_read(rest) {
                Decoded::Value(v, r) => pairs_read(r, dict, out.push(v as u8)),
                Decoded::Exhausted => Some(out),
                Decoded::Fault => None,
            }
        } else {
            match gamma_read(rest) {
                Decoded::Value(idx, r) => if (idx as int) < dict.len() {
                    pairs_read(r, dict, out.push(dict[idx as int].0).push(dict[idx as int].1))
                } else {
                    Some(out)
                },
                Decoded::Exhausted => Some(out),
                Decoded::Fault => None,
            }
        }
    }
}

/// Reading the pair format after the header: no bits for the size give nothing.
pub open spec fn pairs_unpack(bits: Seq<bool>) -> Option<Seq<u8>> {
    match fib_read(bits) {
        Decoded::Value(n, r) => match dict_read(r, n as nat, Seq::empty()) {
            Some((dict, r2)) => pairs_read(r2, dict, Seq::empty()),
            None => None,
        },
        Decoded::Exhausted => Some(Seq::empty()),
        Decoded::Fault => None,
    }
}

/// The bits that reading the body leaves unread: none when the bits run out or a code is
/// cut short, the bits after the index code when an index is past the dictionary.
pub open spec fn pairs_read_rest(bits: Seq<bool>, dict: Seq<(u8, u8)>) -> Seq<bool>
    decreases bits.len(),
{
    if bits.len() == 0 {
        Seq::empty()
    } else {
        let rest = bits.drop_first();
        proof {
            lemma_fib_read_shrinks(rest);
            lemma_gamma_read_shrinks(rest);
        }
        if !bits[0] {
            match fib_read(rest) {
                Decoded::Value(v, r) => pairs_read_rest(r, dict),
                _ => Seq::empty(),
            }
        } else {
            match gamma_read(rest) {
                Decoded::Value(idx, r) => if (idx as int) < dict.len() {
                    pairs_read_rest(r, dict)
                } else {
                    r
                },
                _ => Seq::empty(),
            }
        }
    }
}

/// The bits that reading the pair format leaves unread.
pub open spec fn pairs_unpack_rest(bits: Seq<bool>) -> Seq<bool> {
    match fib_read(bits) {
        Decoded::Value(n, r) => match dict_read(r, n as nat, Seq::empty()) {
            Some((dict, r2)) => pairs_read_rest(r2, dict),
            None => Seq::empty(),
        },
        _ => Seq::empty(),
    }
}

proof fn lemma_dict_read(dict: Seq<(u8, u8)>, rest: Seq<bool>, acc: Seq<(u8, u8)>)
    ensures
        dict_read(dict_bits(dict) + rest, dict.len(), acc) == Some((acc + dict, rest)),
    decreases dict.len(),
{
    if dict.len() == 0 {
        assert(dict_bits(dict) + rest =~= rest);
        assert(acc + dict =~= acc);
    } else {
        let e = dict[0];
        let tail = dict_bits(dict.drop_first()) + rest;
        assert(dict_bits(dict) + rest =~= fib_code(e.0 as u32) + (fib_code(e.1 as u32) + tail));
        lemma_fib_roundtrip_small(e.0 as u32, fib_code(e.1 as u32) + tail);
        lemma_fib_roundtrip_small(e.1 as u32, tail);
        lemma_dict_read(dict.drop_first(), rest, acc.push(e));
        assert(acc.push(e) + dict.drop_first() =~= acc + dict);
    }
}

proof fn lemma_pairs_read_zeros(p: nat, dict: Seq<(u8, u8)>, out: Seq<u8>)
    ensures
        pairs_read(zero_bits(p), dict, out) == Some(out),
        pairs_read_rest(zero_bits(p), dict) == Seq::<bool>::empty(),
{
    if p > 0 {
        assert(zero_bits(p).drop_first() =~= zero_bits((p - 1) as nat));
        lemma_fib_read_zeros((p - 1) as nat);
    }
}

#[verifier::spinoff_prover]
#[verifier::rlimit(50)]
proof fn lemma_pairs_body_roundtrip(s: Seq<u8>, dict: Seq<(u8, u8)>, i: int, p: nat, out: Seq<u8>)
    requires
        0 <= i <= s.len(),
        dict.len() <= 255,
        p < 8,
    ensures
        pairs_read(pairs_body(s, dict, i) + zero_bits(p), dict, out) == Some(out + s.skip(i)),
        pairs_read_rest(pairs_body(s, dict, i) + zero_bits(p), dict) == Seq::<bool>::empty(),
    decreases s.len() - i,
{
    let bits = pairs_body(s, dict, i) + zero_bits(p);
    if i == s.len() {
        assert(bits =~= zero_bits(p));
        lemma_pairs_read_zeros(p, dict, out);
        assert(out + s.skip(i) =~= out);
    } else if i + 1 < s.len() && dict.len() > 0 && dict.contains((s[i], s[i + 1])) {
        let pr = (s[i], s[i + 1]);
        let idx = dict.index_of(pr);
        assert(0 <= idx < dict.len() && dict[idx] == pr);
        let rest = pairs_body(s, dict, i + 2) + zero_bits(p);
        assert(bits =~= seq![true] + (gamma_code(idx as u32) + rest));
        assert(bits.drop_first() =~= gamma_code(idx as u32) + rest);
        lemma_gamma_roundtrip(idx as u32, rest);
        lemma_pairs_body_roundtrip(s, dict, i + 2, p, out.push(s[i]).push(s[i + 1]));
        assert(out.push(s[i]).push(s[i + 1]) + s.skip(i + 2) =~= out + s.skip(i));
    } else {
        let rest = pairs_body(s, dict, i + 1) + zero_bits(p);
        assert(bits =~= seq![false] + (fib_code(s[i] as u32) + rest));
        assert(bits.drop_first() =~= fib_code(s[i] as u32) + rest);
        lemma_fib_roundtrip_small(s[i] as u32, rest);
        lemma_pairs_body_roundtrip(s, dict, i + 1, p, out.push(s[i]));
        assert(out.push(s[i]) + s.skip(i + 1) =~= out + s.skip(i));
    }
}

/// The pair format reads back its bytes, for any dictionary of at most 255 entries,
/// whatever fewer than eight filler bits follow, and reads to the end of the bits.
pub proof fn lemma_pairs_roundtrip(s: Seq<u8>, dict: Seq<(u8, u8)>, p: nat)
    requires
        dict.len() <= 255,
        p < 8,
    ensures
        pairs_unpack(pairs_bits(s, dict) + zero_bits(p)) == Some(s),
        pairs_unpack_rest(pairs_bits(s, dict) + zero_bits(p)) == Seq::<bool>::empty(),
{
    let rest = dict_bits(dict) + (pairs_body(s, dict, 0) + zero_bits(p));
    assert(pairs_bits(s, dict) + zero_bits(p) =~= fib_code(dict.len() as u32) + rest);
    lemma_fib_roundtrip_small(dict.len() as u32, rest);
    lemma_dict_read(dict, pairs_body(s, dict, 0) + zero_bits(p), Seq::empty());
    assert(Seq::<(u8, u8)>::empty() + dict =~= dict);
    lemma_pairs_body_roundtrip(s, dict, 0, p, Seq::empty());
    assert(Seq::<u8>::empty() + s.skip(0) =~= s);
}


/// Appending an entry appends its codes.
pub proof fn lemma_dict_bits_push(dict: Seq<(u8, u8)>, e: (u8, u8))
    ensures
        dict_bits(dict.push(e)) == dict_bits(dict) + fib_code(e.0 as u32) + fib_code(e.1 as u32),
    decreases dict.len(),
{
    assert(dict.push(e)[0] == if dict.len() == 0 { e } else { dict[0] });
    if dict.len() == 0 {
        assert(dict.push(e).drop_first() =~= Seq::<(u8, u8)>::empty());
        assert(dict_bits(dict.push(e)) =~= fib_code(e.0 as u32) + fib_code(e.1 as u32) + dict_bits(
            Seq::<(u8, u8)>::empty(),
        ));
        assert(dict_bits(dict) + fib_code(e.0 as u32) + fib_code(e.1 as u32) =~= fib_code(
            e.0 as u32,
        ) + fib_code(e.1 as u32));
    } else {
        assert(dict.push(e).drop_first() =~= dict.drop_first().push(e));
        lemma_dict_bits_push(dict.drop_first(), e);
        assert(dict_bits(dict.push(e)) =~= fib_code(dict[0].0 as u32) + fib_code(dict[0].1 as u32)
            + (dict_bits(dict.drop_first()) + fib_code(e.0 as u32) + fib_code(e.1 as u32)));
    }
}

/// A pair occurs at most once per position.
pub proof fn lemma_pair_count_bound(s: Seq<u8>, p: (u8, u8))
    ensures
        pair_count(s, p) <= s.len(),
    decreases s.len(),
{
    if s.len() >= 2 {
        lemma_pair_count_bound(s.drop_last(), p);
    }
}

} // verus!
