//! The packers and unpackers of the four chunk formats.
use vstd::prelude::*;
use crate::bitio::{BitWriter, BitReader, bytes_to_bits, bits_to_byte, byte_bit, pack_bits};
use crate::codec::{CodecCore, StreamFault};
use crate::streams::{
    header_bits, raw_read, fib_stream, fib_values_read, lemma_fib_stream_push, LzToken,
    tokens_bits, lz_copy, lz_expand, lz_valid, lz_read,
    lemma_tokens_bits_push, lemma_match_copy, lemma_fib_read_shrinks, pair_count,
    valid_dict, dict_bits, pairs_body, pairs_bits, dict_read, pairs_read, pairs_unpack,
    lemma_dict_bits_push, lemma_pair_count_bound, lemma_gamma_read_shrinks, pairs_read_rest, pairs_unpack_rest,
};
use vstd::wrapping::u64_specs::wrapping_mul;
use crate::codes::{gamma_code, fib_code};

verus! {

/// `r` is what the stream reading `expect` describes: its bytes, or a fault.
pub open spec fn unpacked_as(r: Result<Vec<u8>, StreamFault>, expect: Option<Seq<u8>>) -> bool {
    match r {
        Ok(v) => expect == Some(v@),
        Err(_) => expect is None,
    }
}

/// The bits of the first `k + 1` bytes: those of the first `k` bytes, then those of byte `k`.
proof fn lemma_bytes_to_bits_step(s: Seq<u8>, k: int)
    requires
        0 <= k < s.len(),
    ensures
        bytes_to_bits(s.take(k + 1)) == bytes_to_bits(s.take(k)) + Seq::new(8, |j: int| byte_bit(s[k], j)),
{
    let a = bytes_to_bits(s.take(k + 1));
    let b = bytes_to_bits(s.take(k)) + Seq::new(8, |j: int| byte_bit(s[k], j));
    assert forall|i: int| 0 <= i < a.len() implies #[trigger] a[i] == b[i] by {
        assert(i / 8 <= k) by (nonlinear_arith)
            requires
                0 <= i < 8 * (k + 1),
        ;
        if i >= 8 * k {
            assert(i / 8 == k && i % 8 == i - 8 * k) by (nonlinear_arith)
                requires
                    8 * k <= i < 8 * k + 8,
            ;
        } else {
            assert(i / 8 < k) by (nonlinear_arith)
                requires
                    0 <= i < 8 * k,
            ;
        }
    }
    assert(a =~= b);
}

/// Or-ing the next bit into a partly built byte.
proof fn lemma_bits_to_byte_push(t: Seq<bool>, x: bool, byte: u8, bit: u8, i: u8)
    requires
        t.len() < 8,
        i == 7 - t.len(),
        byte == bits_to_byte(t),
        bit <= 1,
        x == (bit == 1),
    ensures
        byte | (bit << i) == bits_to_byte(t.push(x)),
{
    assert(t.push(x).drop_last() =~= t);
    if bit == 0 {
        assert(byte | (0u8 << i) == byte) by (bit_vector);
    }
}

/// Reading whole bytes from a longer prefix of `bits`: one more byte per complete group.
proof fn lemma_raw_read_take(bits: Seq<bool>, c: int)
    requires
        0 <= c <= bits.len(),
    ensures
        c % 8 == 0 && c + 8 <= bits.len() ==> raw_read(bits.take(c + 8)) == raw_read(
            bits.take(c),
        ).push(bits_to_byte(bits.subrange(c, c + 8))),
        c % 8 == 0 && bits.len() < c + 8 ==> raw_read(bits.take(bits.len() as int)) == raw_read(
            bits.take(c),
        ),
{
    if c % 8 == 0 {
        let k = c / 8;
        assert(c == 8 * k);
        if c + 8 <= bits.len() {
            let a = raw_read(bits.take(c + 8));
            let b = raw_read(bits.take(c)).push(bits_to_byte(bits.subrange(c, c + 8)));
            assert((c + 8) / 8 == k + 1);
            assert forall|t: int| 0 <= t < a.len() implies #[trigger] a[t] == b[t] by {
                assert(bits.take(c + 8).subrange(8 * t, 8 * t + 8) =~= bits.subrange(8 * t, 8 * t + 8));
                if t < k {
                    assert(bits.take(c).subrange(8 * t, 8 * t + 8) =~= bits.subrange(8 * t, 8 * t + 8));
                }
            }
            assert(a =~= b);
        } else {
            let n = bits.len() as int;
            assert(n / 8 == k) by (nonlinear_arith)
                requires
                    8 * k <= n < 8 * k + 8,
            ;
            let a = raw_read(bits.take(n));
            let b = raw_read(bits.take(c));
            assert forall|t: int| 0 <= t < a.len() implies #[trigger] a[t] == b[t] by {
                assert(bits.take(n).subrange(8 * t, 8 * t + 8) =~= bits.subrange(8 * t, 8 * t + 8));
                assert(bits.take(c).subrange(8 * t, 8 * t + 8) =~= bits.subrange(8 * t, 8 * t + 8));
            }
            assert(a =~= b);
        }
    }
}

impl CodecCore {
    /// Raw format: the header, then the bits of each byte.
    pub fn compress_path0(&self, chunk: &[u8], is_delta: bool) -> (out: Vec<u8>)
        ensures
            out@ == pack_bits(header_bits(is_delta, false, false) + bytes_to_bits(chunk@)),
    {
        let cap = if chunk.len() < usize::MAX { chunk.len() + 1 } else { chunk.len() };
        let mut writer = BitWriter::new(cap);
        writer.write_bit(if is_delta { 1 } else { 0 });
        writer.write_bit(0);
        writer.write_bit(0);
        let ghost head = writer@;
        assert(head =~= header_bits(is_delta, false, false));
        let mut k: usize = 0;
        while k < chunk.len()
            invariant
                writer.wf(),
                k <= chunk@.len(),
                writer@ == head + bytes_to_bits(chunk@.take(k as int)),
            decreases chunk@.len() - k,
        {
            let byte = chunk[k];
            let ghost before = writer@;
            let mut i: u32 = 8;
            while i > 0
                invariant
                    writer.wf(),
                    i <= 8,
                    writer@ == before + Seq::new((8 - i) as nat, |j: int| byte_bit(byte, j)),
                decreases i,
            {
                i -= 1;
                let bit: u8 = (byte >> i) & 1;
                proof {
                    let ii = i as u8;
                    assert((byte >> ii) & 1u8 <= 1u8) by (bit_vector);
                    assert(Seq::new((8 - i) as nat, |j: int| byte_bit(byte, j)) =~= Seq::new(
                        (7 - i) as nat,
                        |j: int| byte_bit(byte, j),
                    ).push(bit == 1));
                }
                writer.write_bit(bit);
            }
            proof {
                lemma_bytes_to_bits_step(chunk@, k as int);
            }
            assert(writer@ =~= head + bytes_to_bits(chunk@.take(k + 1)));
            k += 1;
        }
        assert(chunk@.take(chunk@.len() as int) =~= chunk@);
        writer.finish().0
    }

    /// Raw format: every complete group of eight bits left in `reader` is one byte.
    pub fn decompress_path0(&self, reader: &mut BitReader) -> (out: Vec<u8>)
        requires
            old(reader).wf(),
        ensures
            final(reader).wf(),
            final(reader)@.len() == 0,
            out@ == raw_read(old(reader)@),
    {
        let ghost bits = reader@;
        let mut out: Vec<u8> = Vec::new();
        loop
            invariant
                reader.wf(),
                bits == old(reader)@,
                reader@.len() <= bits.len(),
                reader@ == bits.skip(bits.len() - reader@.len()),
                out@ == raw_read(bits.take(bits.len() - reader@.len())),
                (bits.len() - reader@.len()) % 8 == 0 || reader@.len() == 0,
            ensures
                reader.wf(),
                reader@.len() == 0,
                out@ == raw_read(bits),
            decreases reader@.len(),
        {
            let ghost c: int = bits.len() - reader@.len();
            proof {
                lemma_raw_read_take(bits, c);
            }
            let b7 = match reader.read_bit() {
                Some(b) => b,
                None => {
                    assert(bits.take(bits.len() as int) =~= bits);
                    break;
                },
            };
            assert(bits[c] == (b7 == 1));
            assert(bits.skip(c + 1) =~= bits.skip(c).drop_first());
            assert(bits.subrange(c, c + 1) =~= Seq::<bool>::empty().push(bits[c]));
            proof {
                lemma_bits_to_byte_push(Seq::<bool>::empty(), bits[c], 0u8, b7, 7u8);
                assert(0u8 | (b7 << 7u8) == b7 << 7u8) by (bit_vector);
            }
            let mut byte: u8 = b7 << 7;
            let mut complete = true;
            let mut i: u8 = 7;
            while i > 0
                invariant_except_break
                    byte == bits_to_byte(bits.subrange(c, c + 8 - i)),
                    reader@ == bits.skip(c + 8 - i),
                    complete,
                invariant
                    reader.wf(),
                    bits == old(reader)@,
                    0 <= c,
                    i <= 7,
                    c + 8 - i <= bits.len(),
                ensures
                    reader.wf(),
                    complete ==> byte == bits_to_byte(bits.subrange(c, c + 8)) && reader@ == bits.skip(c + 8)
                        && c + 8 <= bits.len(),
                    !complete ==> reader@.len() == 0 && bits.len() < c + 8,
                decreases i,
            {
                let ghost p: int = c + 8 - i;
                match reader.read_bit() {
                    Some(bit) => {
                        proof {
                            assert(bits[p] == (bit == 1));
                            assert(bits.skip(p + 1) =~= bits.skip(p).drop_first());
                            assert(bits.subrange(c, p + 1) =~= bits.subrange(c, p).push(bits[p]));
                            lemma_bits_to_byte_push(bits.subrange(c, p), bits[p], byte, bit, (i - 1) as u8);
                        }
                        i -= 1;
                        byte |= bit << i;
                    },
                    None => {
                        complete = false;
                        break;
                    },
                }
            }
            if complete {
                out.push(byte);
            } else {
                assert(bits.len() < c + 8);
            }
        }
        out
    }
}

impl CodecCore {
    /// Fibonacci format: the header, then the Fibonacci code of each byte.
    pub fn compress_path1(&self, chunk: &[u8], is_delta: bool) -> (out: Vec<u8>)
        requires
            self.wf(),
        ensures
            out@ == pack_bits(header_bits(is_delta, false, true) + fib_stream(chunk@)),
    {
        let mut writer = BitWriter::new(chunk.len());
        writer.write_bit(if is_delta { 1 } else { 0 });
        writer.write_bit(0);
        writer.write_bit(1);
        let ghost head = writer@;
        assert(head =~= header_bits(is_delta, false, true));
        assert(fib_stream(chunk@.take(0)) =~= Seq::<bool>::empty());
        let mut k: usize = 0;
        while k < chunk.len()
            invariant
                self.wf(),
                writer.wf(),
                k <= chunk@.len(),
                writer@ == head + fib_stream(chunk@.take(k as int)),
            decreases chunk@.len() - k,
        {
            let byte = chunk[k];
            self.fib_encode_number(byte as u32, &mut writer);
            proof {
                assert(chunk@.take(k + 1) =~= chunk@.take(k as int).push(byte));
                lemma_fib_stream_push(chunk@.take(k as int), byte);
            }
            assert(writer@ =~= head + fib_stream(chunk@.take(k + 1)));
            k += 1;
        }
        assert(chunk@.take(chunk@.len() as int) =~= chunk@);
        writer.finish().0
    }

    /// Fibonacci format: reads Fibonacci codes until the bits run out and keeps the low
    /// byte of each value.
    pub fn decompress_path1(&self, reader: &mut BitReader) -> (r: Result<Vec<u8>, StreamFault>)
        requires
            self.wf(),
            old(reader).wf(),
        ensures
            final(reader).wf(),
            unpacked_as(r, fib_values_read(old(reader)@, Seq::empty())),
            r is Ok ==> final(reader)@.len() == 0,
    {
        let ghost bits = reader@;
        let mut out: Vec<u8> = Vec::new();
        loop
            invariant
                self.wf(),
                reader.wf(),
                fib_values_read(bits, Seq::empty()) == fib_values_read(reader@, out@),
                bits == old(reader)@,
            decreases reader@.len(),
        {
            let ghost cur = reader@;
            proof {
                crate::streams::lemma_fib_read_shrinks(cur);
            }
            match self.fib_decode_number(reader) {
                Ok(Some(n)) => {
                    out.push(n as u8);
                },
                Ok(None) => {
                    return Ok(out);
                },
                Err(e) => {
                    return Err(e);
                },
            }
        }
    }
}


/// The LZ hash of the three bytes at a position.
pub open spec fn lz_hash(a: u8, b: u8, c: u8) -> int {
    wrapping_mul(((a as u64) * 65536 + (b as u64) * 256 + (c as u64)) as u64, 2654435761u64) as int % 65536
}

fn hash3(chunk: &[u8], pos: usize) -> (h: usize)
    requires
        pos + 3 <= chunk@.len(),
    ensures
        h < 65536,
        h == lz_hash(chunk@[pos as int], chunk@[pos + 1], chunk@[pos + 2]),
{
    let a = chunk[pos] as u64;
    let b = chunk[pos + 1] as u64;
    let c = chunk[pos + 2] as u64;
    let v: u64 = (a << 16) | (b << 8) | c;
    assert(v == a * 65536 + b * 256 + c) by (bit_vector)
        requires
            a < 256,
            b < 256,
            c < 256,
            v == (a << 16) | (b << 8) | c,
    ;
    (v.wrapping_mul(2654435761) % 65536) as usize
}

/// Length of the common run of `s` at `mp` and at `i`, counted from `c`, at most `max_len`.
pub open spec fn match_len(s: Seq<u8>, mp: int, i: int, max_len: int, c: int) -> int
    decreases max_len - c,
{
    if c < max_len && s[mp + c] == s[i + c] {
        match_len(s, mp, i, max_len, c + 1)
    } else {
        c
    }
}

/// The hash-chain search at position `i`: from candidate `mp`, through at most `chain`
/// candidates linked by `prev` and within `max_lookback` bytes, the first longest match
/// as (length, distance), stopping early at a match of `max_len` bytes.
pub open spec fn chain_search(
    s: Seq<u8>,
    prev: Seq<usize>,
    i: int,
    mp: int,
    chain: nat,
    max_len: int,
    max_lookback: int,
    best: (int, int),
) -> (int, int)
    decreases chain,
{
    if mp > 0 && i - mp <= max_lookback && chain > 0 {
        let cl = match_len(s, mp, i, max_len, 0);
        if cl > best.0 {
            if cl == max_len {
                (cl, i - mp)
            } else {
                chain_search(s, prev, i, prev[mp] as int, (chain - 1) as nat, max_len, max_lookback, (cl, i - mp))
            }
        } else {
            chain_search(s, prev, i, prev[mp] as int, (chain - 1) as nat, max_len, max_lookback, best)
        }
    } else {
        best
    }
}

/// Position `pos` entered into the hash chains: it heads its bucket and links to the
/// former head.
pub open spec fn lz_insert(s: Seq<u8>, head: Seq<usize>, prev: Seq<usize>, pos: int) -> (Seq<usize>, Seq<usize>) {
    let h = lz_hash(s[pos], s[pos + 1], s[pos + 2]);
    (head.update(h, pos as usize), prev.update(pos, head[h]))
}

/// Positions `i + k .. i + n` entered into the hash chains, those with three bytes left.
pub open spec fn lz_insert_run(s: Seq<u8>, head: Seq<usize>, prev: Seq<usize>, i: int, k: int, n: int) -> (Seq<usize>, Seq<usize>)
    decreases n - k,
{
    if k >= n {
        (head, prev)
    } else {
        let hp = if k + 3 <= s.len() - i { lz_insert(s, head, prev, i + k) } else { (head, prev) };
        lz_insert_run(s, hp.0, hp.1, i, k + 1, n)
    }
}

/// The longest match that the packer finds at position `i`, as (length, distance).
pub open spec fn lz_best(s: Seq<u8>, head: Seq<usize>, prev: Seq<usize>, i: int) -> (int, int) {
    let rem = s.len() - i;
    let max_len = if rem < 255 { rem } else { 255 };
    let max_lookback = if i < 65535 { i } else { 65535 };
    if max_len >= 3 {
        chain_search(
            s,
            prev,
            i,
            head[lz_hash(s[i], s[i + 1], s[i + 2])] as int,
            50,
            max_len,
            max_lookback,
            (0, 0),
        )
    } else {
        (0, 0)
    }
}

/// The tokens that the packer emits from position `i` with hash chains `head` and `prev`:
/// a back-reference for a match of at least three bytes, else a literal; the positions
/// covered are entered into the chains.
pub open spec fn lz_tokens_from(s: Seq<u8>, i: int, head: Seq<usize>, prev: Seq<usize>) -> Seq<LzToken>
    decreases if i < s.len() { s.len() - i } else { 0 },
{
    if i < 0 || i >= s.len() {
        Seq::empty()
    } else {
        let best = lz_best(s, head, prev, i);
        if best.0 >= 3 {
            let hp = lz_insert_run(s, head, prev, i, 0, best.0);
            seq![LzToken::Copy(best.1 as u32, best.0 as u32)] + lz_tokens_from(s, i + best.0, hp.0, hp.1)
        } else {
            let hp = if 3 <= s.len() - i { lz_insert(s, head, prev, i) } else { (head, prev) };
            seq![LzToken::Literal(s[i])] + lz_tokens_from(s, i + 1, hp.0, hp.1)
        }
    }
}

/// The tokens that the packer emits for `s`, starting from empty hash chains.
pub open spec fn lz_tokens(s: Seq<u8>) -> Seq<LzToken> {
    lz_tokens_from(s, 0, Seq::new(65536, |h: int| 0usize), Seq::new(s.len(), |p: int| 0usize))
}

/// Hash chains built over the positions before `i`: every bucket head and every link
/// points before its own position, or is 0.
pub open spec fn chains_ok(s: Seq<u8>, head: Seq<usize>, prev: Seq<usize>, i: int) -> bool {
    &&& head.len() == 65536
    &&& prev.len() == s.len()
    &&& forall|h: int| 0 <= h < 65536 ==> #[trigger] head[h] < i || head[h] == 0
    &&& forall|p: int| 0 <= p < prev.len() ==> #[trigger] prev[p] < p || prev[p] == 0
}

/// A match found at `i`: at most `max_len` bytes, 1 to `max_lookback` bytes back, and
/// equal to the bytes at `i`.
pub open spec fn match_ok(s: Seq<u8>, i: int, max_len: int, max_lookback: int, best: (int, int)) -> bool {
    &&& 0 <= best.0 <= max_len
    &&& best.0 > 0 ==> 1 <= best.1 <= max_lookback
    &&& forall|j: int| 0 <= j < best.0 ==> #[trigger] s[i - best.1 + j] == s[i + j]
}

proof fn lemma_match_len(s: Seq<u8>, mp: int, i: int, max_len: int, c: int)
    requires
        0 < mp < i,
        0 <= c <= max_len,
        i + max_len <= s.len(),
    ensures
        c <= match_len(s, mp, i, max_len, c) <= max_len,
        forall|j: int| c <= j < match_len(s, mp, i, max_len, c) ==> #[trigger] s[mp + j] == s[i + j],
    decreases max_len - c,
{
    if c < max_len && s[mp + c] == s[i + c] {
        lemma_match_len(s, mp, i, max_len, c + 1);
    }
}

proof fn lemma_chain_search(
    s: Seq<u8>,
    prev: Seq<usize>,
    i: int,
    mp: int,
    chain: nat,
    max_len: int,
    max_lookback: int,
    best: (int, int),
)
    requires
        prev.len() == s.len(),
        forall|p: int| 0 <= p < prev.len() ==> #[trigger] prev[p] < p || prev[p] == 0,
        0 <= i < s.len(),
        0 <= max_len,
        i + max_len <= s.len(),
        0 <= max_lookback <= i,
        0 <= mp,
        mp < i || mp == 0,
        match_ok(s, i, max_len, max_lookback, best),
    ensures
        match_ok(s, i, max_len, max_lookback, chain_search(s, prev, i, mp, chain, max_len, max_lookback, best)),
    decreases chain,
{
    if mp > 0 && i - mp <= max_lookback && chain > 0 {
        lemma_match_len(s, mp, i, max_len, 0);
        let cl = match_len(s, mp, i, max_len, 0);
        let d = i - mp;
        let nb = if cl > best.0 { (cl, d) } else { best };
        assert(match_ok(s, i, max_len, max_lookback, nb)) by {
            if cl > best.0 {
                assert forall|j: int| 0 <= j < cl implies #[trigger] s[i - d + j] == s[i + j] by {
                    assert(s[mp + j] == s[i + j]);
                }
            }
        }
        if !(cl > best.0 && cl == max_len) {
            lemma_chain_search(s, prev, i, prev[mp] as int, (chain - 1) as nat, max_len, max_lookback, nb);
        }
    }
}

proof fn lemma_lz_best(s: Seq<u8>, head: Seq<usize>, prev: Seq<usize>, i: int)
    requires
        0 <= i < s.len(),
        chains_ok(s, head, prev, i),
    ensures
        ({
            let rem = s.len() - i;
            let max_len = if rem < 255 { rem } else { 255 };
            let max_lookback = if i < 65535 { i } else { 65535 };
            match_ok(s, i, max_len, max_lookback, lz_best(s, head, prev, i))
        }),
{
    let rem = s.len() - i;
    let max_len = if rem < 255 { rem } else { 255 };
    let max_lookback = if i < 65535 { i } else { 65535 };
    if max_len >= 3 {
        let h = lz_hash(s[i], s[i + 1], s[i + 2]);
        assert(0 <= h < 65536);
        lemma_chain_search(s, prev, i, head[h] as int, 50, max_len, max_lookback, (0, 0));
    }
}

proof fn lemma_lz_insert(s: Seq<u8>, head: Seq<usize>, prev: Seq<usize>, i: int, pos: int)
    requires
        chains_ok(s, head, prev, i),
        0 <= i <= pos,
        pos + 3 <= s.len(),
        pos <= usize::MAX,
    ensures
        chains_ok(s, lz_insert(s, head, prev, pos).0, lz_insert(s, head, prev, pos).1, pos + 1),
{
    let h = lz_hash(s[pos], s[pos + 1], s[pos + 2]);
    assert(0 <= h < 65536);
    let (h2, p2) = lz_insert(s, head, prev, pos);
    assert forall|x: int| 0 <= x < 65536 implies #[trigger] h2[x] < pos + 1 || h2[x] == 0 by {
        if x != h {
            assert(h2[x] == head[x]);
        }
    }
    assert forall|q: int| 0 <= q < p2.len() implies #[trigger] p2[q] < q || p2[q] == 0 by {
        if q != pos {
            assert(p2[q] == prev[q]);
        } else {
            assert(p2[q] == head[h]);
        }
    }
}

proof fn lemma_lz_insert_run(s: Seq<u8>, head: Seq<usize>, prev: Seq<usize>, i: int, k: int, n: int)
    requires
        chains_ok(s, head, prev, i + k),
        0 <= i,
        0 <= k <= n,
        i + n <= s.len(),
        s.len() <= usize::MAX,
    ensures
        chains_ok(s, lz_insert_run(s, head, prev, i, k, n).0, lz_insert_run(s, head, prev, i, k, n).1, i + n),
    decreases n - k,
{
    if k < n {
        let hp = if k + 3 <= s.len() - i { lz_insert(s, head, prev, i + k) } else { (head, prev) };
        if k + 3 <= s.len() - i {
            lemma_lz_insert(s, head, prev, i + k, i + k);
        }
        lemma_lz_insert_run(s, hp.0, hp.1, i, k + 1, n);
    }
}

/// The packer's tokens from position `i` are ones it may emit and expand the bytes before
/// `i` to the whole of `s`.
proof fn lemma_lz_tokens_from(s: Seq<u8>, i: int, head: Seq<usize>, prev: Seq<usize>)
    requires
        0 <= i <= s.len(),
        s.len() <= usize::MAX,
        chains_ok(s, head, prev, i),
    ensures
        lz_valid(lz_tokens_from(s, i, head, prev), i as nat),
        lz_expand(lz_tokens_from(s, i, head, prev), s.take(i)) == s,
    decreases s.len() - i,
{
    let ts = lz_tokens_from(s, i, head, prev);
    if i == s.len() {
        assert(s.take(i) =~= s);
    } else {
        lemma_lz_best(s, head, prev, i);
        let best = lz_best(s, head, prev, i);
        if best.0 >= 3 {
            let tok = LzToken::Copy(best.1 as u32, best.0 as u32);
            let hp = lz_insert_run(s, head, prev, i, 0, best.0);
            lemma_lz_insert_run(s, head, prev, i, 0, best.0);
            lemma_lz_tokens_from(s, i + best.0, hp.0, hp.1);
            let rest = lz_tokens_from(s, i + best.0, hp.0, hp.1);
            assert(ts == seq![tok] + rest);
            assert(ts[0] == tok);
            assert(ts.drop_first() =~= rest);
            lemma_match_copy(s, i, best.1, best.0);
        } else {
            let tok = LzToken::Literal(s[i]);
            let hp = if 3 <= s.len() - i { lz_insert(s, head, prev, i) } else { (head, prev) };
            if 3 <= s.len() - i {
                lemma_lz_insert(s, head, prev, i, i);
            }
            lemma_lz_tokens_from(s, i + 1, hp.0, hp.1);
            let rest = lz_tokens_from(s, i + 1, hp.0, hp.1);
            assert(ts == seq![tok] + rest);
            assert(ts[0] == tok);
            assert(ts.drop_first() =~= rest);
            assert(s.take(i).push(s[i]) =~= s.take(i + 1));
        }
    }
}

/// The packer's tokens for `s` are ones it may emit and expand to `s`.
pub proof fn lemma_lz_tokens(s: Seq<u8>)
    requires
        s.len() <= usize::MAX,
    ensures
        lz_valid(lz_tokens(s), 0),
        lz_expand(lz_tokens(s), Seq::empty()) == s,
{
    let head = Seq::new(65536, |h: int| 0usize);
    let prev = Seq::new(s.len(), |p: int| 0usize);
    lemma_lz_tokens_from(s, 0, head, prev);
    assert(s.take(0) =~= Seq::<u8>::empty());
}

/// Link `k` of the hash chain that starts at `start`: `start`, then `prev` followed `k`
/// times.
pub open spec fn chain_at(prev: Seq<usize>, start: int, k: nat) -> int
    decreases k,
{
    if k == 0 {
        start
    } else {
        prev[chain_at(prev, start, (k - 1) as nat)] as int
    }
}

/// Links `0..=k` of the chain from `start` are earlier positions (not 0) within `lb`
/// bytes before `i`: the chain walk reaches link `k`.
pub open spec fn chain_reaches(prev: Seq<usize>, start: int, k: nat, i: int, lb: int) -> bool {
    forall|t: nat| t <= k ==> #[trigger] chain_at(prev, start, t) > 0 && i - chain_at(prev, start, t) <= lb
}

/// The bytes at `p` and at `i` agree for `c` bytes.
pub open spec fn runs_agree(s: Seq<u8>, p: int, i: int, c: int) -> bool {
    forall|j: int| 0 <= j < c ==> #[trigger] s[p + j] == s[i + j]
}

proof fn lemma_chain_at_shift(prev: Seq<usize>, start: int, k: nat)
    ensures
        chain_at(prev, start, k + 1) == chain_at(prev, prev[start] as int, k),
    decreases k,
{
    assert(chain_at(prev, start, k + 1) == prev[chain_at(prev, start, k)] as int);
    if k > 0 {
        lemma_chain_at_shift(prev, start, (k - 1) as nat);
        assert(chain_at(prev, prev[start] as int, k) == prev[chain_at(prev, prev[start] as int, (k - 1) as nat)] as int);
    } else {
        assert(chain_at(prev, start, 0) == start);
        assert(chain_at(prev, prev[start] as int, 0) == prev[start] as int);
    }
}

proof fn lemma_match_len_longest(s: Seq<u8>, mp: int, i: int, max_len: int, c0: int, c: int)
    requires
        0 < mp < i,
        0 <= c0 <= c <= max_len,
        i + max_len <= s.len(),
        forall|j: int| c0 <= j < c ==> #[trigger] s[mp + j] == s[i + j],
    ensures
        c <= match_len(s, mp, i, max_len, c0),
    decreases max_len - c0,
{
    if c0 < c {
        assert(s[mp + c0] == s[i + c0]);
        assert(match_len(s, mp, i, max_len, c0) == match_len(s, mp, i, max_len, c0 + 1));
        lemma_match_len_longest(s, mp, i, max_len, c0 + 1, c);
    } else {
        lemma_match_len(s, mp, i, max_len, c0);
    }
}

proof fn lemma_chain_search_longest(
    s: Seq<u8>,
    prev: Seq<usize>,
    i: int,
    mp: int,
    chain: nat,
    max_len: int,
    max_lookback: int,
    best: (int, int),
)
    requires
        prev.len() == s.len(),
        forall|p: int| 0 <= p < prev.len() ==> #[trigger] prev[p] < p || prev[p] == 0,
        0 <= i < s.len(),
        0 <= max_len,
        i + max_len <= s.len(),
        0 <= max_lookback <= i,
        0 <= mp,
        mp < i || mp == 0,
        best.0 <= max_len,
    ensures
        chain_search(s, prev, i, mp, chain, max_len, max_lookback, best).0 >= best.0,
        forall|k: nat, c: int|
            k < chain && chain_reaches(prev, mp, k, i, max_lookback) && 0 <= c <= max_len
                && #[trigger] runs_agree(s, chain_at(prev, mp, k), i, c) ==> c <= chain_search(
                s,
                prev,
                i,
                mp,
                chain,
                max_len,
                max_lookback,
                best,
            ).0,
    decreases chain,
{
    let r = chain_search(s, prev, i, mp, chain, max_len, max_lookback, best);
    if mp > 0 && i - mp <= max_lookback && chain > 0 {
        let cl = match_len(s, mp, i, max_len, 0);
        lemma_match_len(s, mp, i, max_len, 0);
        let nb = if cl > best.0 { (cl, i - mp) } else { best };
        let nmp = prev[mp] as int;
        if cl > best.0 && cl == max_len {
            assert(r.0 == max_len);
        } else {
            lemma_chain_search_longest(s, prev, i, nmp, (chain - 1) as nat, max_len, max_lookback, nb);
            assert(r == chain_search(s, prev, i, nmp, (chain - 1) as nat, max_len, max_lookback, nb));
            assert forall|k: nat, c: int|
                k < chain && chain_reaches(prev, mp, k, i, max_lookback) && 0 <= c <= max_len
                    && #[trigger] runs_agree(s, chain_at(prev, mp, k), i, c) implies c <= r.0 by {
                if k == 0 {
                    assert(chain_at(prev, mp, 0) == mp);
                    assert forall|j: int| 0 <= j < c implies #[trigger] s[mp + j] == s[i + j] by {
                        assert(runs_agree(s, chain_at(prev, mp, k), i, c));
                    }
                    lemma_match_len_longest(s, mp, i, max_len, 0, c);
                } else {
                    let k1 = (k - 1) as nat;
                    lemma_chain_at_shift(prev, mp, k1);
                    assert forall|t: nat| t <= k1 implies #[trigger] chain_at(prev, nmp, t) > 0 && i
                        - chain_at(prev, nmp, t) <= max_lookback by {
                        lemma_chain_at_shift(prev, mp, t);
                        assert(chain_at(prev, mp, t + 1) > 0);
                    }
                    assert(chain_reaches(prev, nmp, k1, i, max_lookback));
                }
            }
        }
    } else {
        assert forall|k: nat, c: int|
            k < chain && chain_reaches(prev, mp, k, i, max_lookback) && 0 <= c <= max_len
                && #[trigger] runs_agree(s, chain_at(prev, mp, k), i, c) implies c <= r.0 by {
            assert(chain_at(prev, mp, 0) > 0);
        }
    }
}

proof fn lemma_chain_below(prev: Seq<usize>, start: int, k: nat, i: int)
    requires
        forall|p: int| 0 <= p < prev.len() ==> #[trigger] prev[p] < p || prev[p] == 0,
        0 <= i < prev.len(),
        0 <= start,
        start < i || start == 0,
    ensures
        0 <= chain_at(prev, start, k),
        chain_at(prev, start, k) < i || chain_at(prev, start, k) == 0,
    decreases k,
{
    if k > 0 {
        lemma_chain_below(prev, start, (k - 1) as nat, i);
        let q = chain_at(prev, start, (k - 1) as nat);
        assert(0 <= q < prev.len());
        assert(chain_at(prev, start, k) == prev[q] as int);
        assert(prev[q] < q || prev[q] == 0);
    }
}

proof fn lemma_chain_search_first(
    s: Seq<u8>,
    prev: Seq<usize>,
    i: int,
    mp: int,
    chain: nat,
    max_len: int,
    max_lookback: int,
    best: (int, int),
)
    requires
        prev.len() == s.len(),
        forall|p: int| 0 <= p < prev.len() ==> #[trigger] prev[p] < p || prev[p] == 0,
        0 <= i < s.len(),
        0 <= max_len,
        i + max_len <= s.len(),
        0 <= max_lookback <= i,
        0 <= mp,
        mp < i || mp == 0,
    ensures
        ({
            let r = chain_search(s, prev, i, mp, chain, max_len, max_lookback, best);
            r == best || exists|k: nat|
                k < chain && chain_reaches(prev, mp, k, i, max_lookback) && r.1 == i - chain_at(prev, mp, k)
                    && r.0 == match_len(s, chain_at(prev, mp, k), i, max_len, 0) && r.0 > best.0
                    && forall|k2: nat| k2 < k ==> #[trigger] match_len(s, chain_at(prev, mp, k2), i, max_len, 0) < r.0
        }),
    decreases chain,
{
    let r = chain_search(s, prev, i, mp, chain, max_len, max_lookback, best);
    if mp > 0 && i - mp <= max_lookback && chain > 0 {
        let cl = match_len(s, mp, i, max_len, 0);
        let nb = if cl > best.0 { (cl, i - mp) } else { best };
        let nmp = prev[mp] as int;
        assert(chain_at(prev, mp, 0) == mp);
        assert(chain_reaches(prev, mp, 0, i, max_lookback)) by {
            assert forall|t: nat| t <= 0 implies #[trigger] chain_at(prev, mp, t) > 0 && i - chain_at(prev, mp, t)
                <= max_lookback by {
                assert(t == 0);
            }
        }
        if cl > best.0 && cl == max_len {
            assert(r == (cl, i - mp));
        } else {
            lemma_chain_search_first(s, prev, i, nmp, (chain - 1) as nat, max_len, max_lookback, nb);
            assert(r == chain_search(s, prev, i, nmp, (chain - 1) as nat, max_len, max_lookback, nb));
            if r == nb {
            } else {
                let k1 = choose|k: nat|
                    k < chain - 1 && chain_reaches(prev, nmp, k, i, max_lookback) && r.1 == i - chain_at(prev, nmp, k)
                        && r.0 == match_len(s, chain_at(prev, nmp, k), i, max_len, 0) && r.0 > nb.0
                        && forall|k2: nat| k2 < k ==> #[trigger] match_len(s, chain_at(prev, nmp, k2), i, max_len, 0) < r.0;
                let k = k1 + 1;
                lemma_chain_at_shift(prev, mp, k1);
                assert forall|t: nat| t <= k implies #[trigger] chain_at(prev, mp, t) > 0 && i - chain_at(prev, mp, t)
                    <= max_lookback by {
                    if t > 0 {
                        lemma_chain_at_shift(prev, mp, (t - 1) as nat);
                        assert(chain_at(prev, nmp, (t - 1) as nat) > 0);
                    }
                }
                assert forall|k2: nat| k2 < k implies #[trigger] match_len(s, chain_at(prev, mp, k2), i, max_len, 0) < r.0 by {
                    if k2 > 0 {
                        lemma_chain_at_shift(prev, mp, (k2 - 1) as nat);
                        assert(match_len(s, chain_at(prev, nmp, (k2 - 1) as nat), i, max_len, 0) < r.0);
                    }
                }
                assert(chain_reaches(prev, mp, k, i, max_lookback));
            }
        }
    }
}

/// Among equally long matches the packer keeps the first it meets in the chain: an
/// emitted back-reference copies 3 to 255 bytes (at most what is left) from 1 to 65535
/// bytes back (at most `i`), it reaches back to link `k` (one of the first 50 that the walk
/// reaches), the `l` bytes there agree with those at `i`, and at every earlier link every
/// agreeing run is shorter than `l`.
pub proof fn lemma_lz_first_longest(s: Seq<u8>, i: int, head: Seq<usize>, prev: Seq<usize>)
    requires
        0 <= i < s.len(),
        s.len() <= usize::MAX,
        chains_ok(s, head, prev, i),
    ensures
        ({
            let ts = lz_tokens_from(s, i, head, prev);
            let rem = s.len() - i;
            let max_len = if rem < 255 { rem } else { 255 };
            let lb = if i < 65535 { i } else { 65535 };
            let start = head[lz_hash(s[i], s[i + 1], s[i + 2])] as int;
            ts.len() > 0 && (ts[0] matches LzToken::Copy(d, l) ==> 3 <= l <= max_len && 1 <= d <= lb && exists|k: nat|
                k < 50 && chain_reaches(prev, start, k, i, lb) && chain_at(prev, start, k) == i - d
                    && runs_agree(s, i - d, i, l as int) && forall|k2: nat, c: int|
                    k2 < k && 0 <= c <= max_len && #[trigger] runs_agree(s, chain_at(prev, start, k2), i, c)
                        ==> c < l)
        }),
{
    let rem = s.len() - i;
    let max_len = if rem < 255 { rem } else { 255 };
    let lb = if i < 65535 { i } else { 65535 };
    let ts = lz_tokens_from(s, i, head, prev);
    lemma_lz_best(s, head, prev, i);
    let best = lz_best(s, head, prev, i);
    if best.0 >= 3 {
        let hp = lz_insert_run(s, head, prev, i, 0, best.0);
        assert(ts =~= seq![LzToken::Copy(best.1 as u32, best.0 as u32)] + lz_tokens_from(s, i + best.0, hp.0, hp.1));
        let h = lz_hash(s[i], s[i + 1], s[i + 2]);
        assert(0 <= h < 65536);
        let start = head[h] as int;
        lemma_chain_search_first(s, prev, i, start, 50, max_len, lb, (0, 0));
        let k = choose|k: nat|
            k < 50 && chain_reaches(prev, start, k, i, lb) && best.1 == i - chain_at(prev, start, k)
                && best.0 == match_len(s, chain_at(prev, start, k), i, max_len, 0) && best.0 > 0
                && forall|k2: nat| k2 < k ==> #[trigger] match_len(s, chain_at(prev, start, k2), i, max_len, 0) < best.0;
        let p = chain_at(prev, start, k);
        assert(p > 0) by {
            assert(chain_at(prev, start, k) > 0 && i - chain_at(prev, start, k) <= lb);
        }
        lemma_match_len(s, p, i, max_len, 0);
        assert(runs_agree(s, p, i, best.0));
        assert forall|k2: nat, c: int|
            k2 < k && 0 <= c <= max_len && #[trigger] runs_agree(s, chain_at(prev, start, k2), i, c) implies c < best.0 by {
            let p2 = chain_at(prev, start, k2);
            assert(p2 > 0 && i - p2 <= lb);
            lemma_chain_below(prev, start, k2, i);
            assert forall|j: int| 0 <= j < c implies #[trigger] s[p2 + j] == s[i + j] by {
                assert(runs_agree(s, p2, i, c));
            }
            lemma_match_len_longest(s, p2, i, max_len, 0, c);
            assert(match_len(s, chain_at(prev, start, k2), i, max_len, 0) < best.0);
        }
    } else {
        let hp = if 3 <= s.len() - i { lz_insert(s, head, prev, i) } else { (head, prev) };
        assert(ts =~= seq![LzToken::Literal(s[i])] + lz_tokens_from(s, i + 1, hp.0, hp.1));
    }
}

/// The latest position `q < j` that has three bytes left and whose three bytes hash to
/// `h`; 0 when there is none.
pub open spec fn last_same(s: Seq<u8>, h: int, j: int) -> int
    decreases j,
{
    if j <= 0 {
        0
    } else if j + 2 <= s.len() && lz_hash(s[j - 1], s[j], s[j + 1]) == h {
        j - 1
    } else {
        last_same(s, h, j - 1)
    }
}

/// The `k`-th latest position before `i` (counting from 0) whose three bytes hash to `h`,
/// going back one same-hash position at a time.
pub open spec fn nth_same(s: Seq<u8>, h: int, i: int, k: nat) -> int
    decreases k,
{
    if k == 0 {
        last_same(s, h, i)
    } else {
        last_same(s, h, nth_same(s, h, i, (k - 1) as nat))
    }
}

/// Hash chains that hold every position before `i`: each bucket heads with the latest
/// position of its hash, and each position links to the latest earlier one of its hash.
pub open spec fn chains_exact(s: Seq<u8>, head: Seq<usize>, prev: Seq<usize>, i: int) -> bool {
    &&& chains_ok(s, head, prev, i)
    &&& forall|h: int| 0 <= h < 65536 ==> #[trigger] head[h] as int == last_same(s, h, i)
    &&& forall|q: int| 0 <= q < i && q + 3 <= s.len() ==> #[trigger] prev[q] as int == last_same(
        s,
        lz_hash(s[q], s[q + 1], s[q + 2]),
        q,
    )
}

proof fn lemma_last_same(s: Seq<u8>, h: int, j: int)
    ensures
        0 <= last_same(s, h, j),
        last_same(s, h, j) > 0 ==> last_same(s, h, j) < j && last_same(s, h, j) + 3 <= s.len() && lz_hash(
            s[last_same(s, h, j)],
            s[last_same(s, h, j) + 1],
            s[last_same(s, h, j) + 2],
        ) == h,
        last_same(s, h, j) < j || last_same(s, h, j) == 0,
    decreases j,
{
    if j > 0 {
        lemma_last_same(s, h, j - 1);
    }
}

proof fn lemma_chains_exact_next(s: Seq<u8>, head: Seq<usize>, prev: Seq<usize>, i: int)
    requires
        chains_exact(s, head, prev, i),
        0 <= i < s.len(),
        s.len() <= usize::MAX,
    ensures
        i + 3 <= s.len() ==> chains_exact(s, lz_insert(s, head, prev, i).0, lz_insert(s, head, prev, i).1, i + 1),
        i + 3 > s.len() ==> chains_exact(s, head, prev, i + 1),
{
    if i + 3 <= s.len() {
        lemma_lz_insert(s, head, prev, i, i);
        let hi = lz_hash(s[i], s[i + 1], s[i + 2]);
        let (h2, p2) = lz_insert(s, head, prev, i);
        assert(0 <= hi < 65536);
        assert forall|h: int| 0 <= h < 65536 implies #[trigger] h2[h] as int == last_same(s, h, i + 1) by {
            if h != hi {
                assert(h2[h] == head[h]);
            }
        }
        assert forall|q: int| 0 <= q < i + 1 && q + 3 <= s.len() implies #[trigger] p2[q] as int == last_same(
            s,
            lz_hash(s[q], s[q + 1], s[q + 2]),
            q,
        ) by {
            if q < i {
                assert(p2[q] == prev[q]);
            } else {
                assert(p2[q] == head[hi]);
            }
        }
    } else {
        assert forall|h: int| 0 <= h < 65536 implies #[trigger] head[h] as int == last_same(s, h, i + 1) by {}
        assert forall|h: int| 0 <= h < 65536 implies #[trigger] head[h] < i + 1 || head[h] == 0 by {}
    }
}

proof fn lemma_chains_exact_run(s: Seq<u8>, head: Seq<usize>, prev: Seq<usize>, i: int, k: int, n: int)
    requires
        chains_exact(s, head, prev, i + k),
        0 <= i,
        0 <= k <= n,
        i + n <= s.len(),
        s.len() <= usize::MAX,
    ensures
        chains_exact(s, lz_insert_run(s, head, prev, i, k, n).0, lz_insert_run(s, head, prev, i, k, n).1, i + n),
    decreases n - k,
{
    if k < n {
        lemma_chains_exact_next(s, head, prev, i + k);
        let hp = if k + 3 <= s.len() - i { lz_insert(s, head, prev, i + k) } else { (head, prev) };
        lemma_chains_exact_run(s, hp.0, hp.1, i, k + 1, n);
    }
}

proof fn lemma_chain_is_nth(s: Seq<u8>, head: Seq<usize>, prev: Seq<usize>, i: int, h: int, k: nat)
    requires
        chains_exact(s, head, prev, i),
        0 <= i < s.len(),
        0 <= h < 65536,
        forall|t: nat| t < k ==> #[trigger] nth_same(s, h, i, t) > 0,
    ensures
        chain_at(prev, head[h] as int, k) == nth_same(s, h, i, k),
        nth_same(s, h, i, k) < i || nth_same(s, h, i, k) == 0,
        0 <= nth_same(s, h, i, k),
    decreases k,
{
    lemma_last_same(s, h, i);
    if k > 0 {
        let k1 = (k - 1) as nat;
        lemma_chain_is_nth(s, head, prev, i, h, k1);
        let q = nth_same(s, h, i, k1);
        assert(q > 0);
        lemma_last_same(s, h, if k1 == 0 { i } else { nth_same(s, h, i, (k1 - 1) as nat) });
        assert(q + 3 <= s.len() && lz_hash(s[q], s[q + 1], s[q + 2]) == h);
        assert(prev[q] as int == last_same(s, h, q));
        lemma_last_same(s, h, q);
    }
}

/// The packer's hash chains hold every earlier position: starting from empty chains, and
/// after each literal or back-reference, the chains hold exactly the positions before the
/// next one, each linked to the latest earlier position of the same hash.
pub proof fn lemma_lz_chains_exact(s: Seq<u8>, i: int, head: Seq<usize>, prev: Seq<usize>)
    requires
        0 <= i < s.len(),
        s.len() <= usize::MAX,
        chains_exact(s, head, prev, i),
    ensures
        chains_exact(s, Seq::new(65536, |h: int| 0usize), Seq::new(s.len(), |p: int| 0usize), 0),
        lz_tokens(s) == lz_tokens_from(s, 0, Seq::new(65536, |h: int| 0usize), Seq::new(s.len(), |p: int| 0usize)),
        ({
            let ts = lz_tokens_from(s, i, head, prev);
            &&& ts.len() > 0
            &&& ts[0] matches LzToken::Copy(d, l) ==> {
                let hp = lz_insert_run(s, head, prev, i, 0, l as int);
                &&& i + l <= s.len()
                &&& chains_exact(s, hp.0, hp.1, i + l)
                &&& ts.drop_first() == lz_tokens_from(s, i + l, hp.0, hp.1)
            }
            &&& ts[0] is Literal ==> {
                let hp = if i + 3 <= s.len() { lz_insert(s, head, prev, i) } else { (head, prev) };
                &&& chains_exact(s, hp.0, hp.1, i + 1)
                &&& ts.drop_first() == lz_tokens_from(s, i + 1, hp.0, hp.1)
            }
        }),
{
    let h0 = Seq::new(65536, |h: int| 0usize);
    let p0 = Seq::new(s.len(), |p: int| 0usize);
    assert forall|h: int| 0 <= h < 65536 implies #[trigger] h0[h] as int == last_same(s, h, 0) by {}
    let ts = lz_tokens_from(s, i, head, prev);
    lemma_lz_best(s, head, prev, i);
    let best = lz_best(s, head, prev, i);
    lemma_chains_exact_next(s, head, prev, i);
    if best.0 >= 3 {
        let hp = lz_insert_run(s, head, prev, i, 0, best.0);
        assert(ts =~= seq![LzToken::Copy(best.1 as u32, best.0 as u32)] + lz_tokens_from(s, i + best.0, hp.0, hp.1));
        lemma_chains_exact_run(s, head, prev, i, 0, best.0);
        assert(ts.drop_first() =~= lz_tokens_from(s, i + best.0, hp.0, hp.1));
    } else {
        let hp = if 3 <= s.len() - i { lz_insert(s, head, prev, i) } else { (head, prev) };
        assert(ts =~= seq![LzToken::Literal(s[i])] + lz_tokens_from(s, i + 1, hp.0, hp.1));
        assert(ts.drop_first() =~= lz_tokens_from(s, i + 1, hp.0, hp.1));
    }
}

/// With chains that hold every earlier position, the packer keeps the longest match
/// among the 50 latest earlier positions whose three bytes hash like those at `i`: for
/// each of them that lies after position 0 and within the 65535-byte window (as do all
/// later ones), and every run of `c` bytes there (3 to 255, and at most what is left)
/// that agrees with the bytes at `i`, the token emitted at `i` is a back-reference of at
/// least `c` bytes.
pub proof fn lemma_lz_longest_recent(s: Seq<u8>, i: int, head: Seq<usize>, prev: Seq<usize>)
    requires
        0 <= i < s.len(),
        s.len() <= usize::MAX,
        chains_exact(s, head, prev, i),
    ensures
        ({
            let ts = lz_tokens_from(s, i, head, prev);
            let rem = s.len() - i;
            let max_len = if rem < 255 { rem } else { 255 };
            let lb = if i < 65535 { i } else { 65535 };
            let h = lz_hash(s[i], s[i + 1], s[i + 2]);
            max_len >= 3 ==> forall|k: nat, c: int|
                k < 50 && (forall|t: nat| t <= k ==> #[trigger] nth_same(s, h, i, t) > 0 && i - nth_same(s, h, i, t) <= lb)
                    && 3 <= c <= max_len && #[trigger] runs_agree(s, nth_same(s, h, i, k), i, c) ==> (ts[0] matches LzToken::Copy(d, l)
                    && c <= l)
        }),
{
    let rem = s.len() - i;
    let max_len = if rem < 255 { rem } else { 255 };
    let lb = if i < 65535 { i } else { 65535 };
    let ts = lz_tokens_from(s, i, head, prev);
    if max_len >= 3 {
        let h = lz_hash(s[i], s[i + 1], s[i + 2]);
        assert(0 <= h < 65536);
        let start = head[h] as int;
        lemma_lz_longest_in_chain(s, i, head, prev);
        assert forall|k: nat, c: int|
            k < 50 && (forall|t: nat| t <= k ==> #[trigger] nth_same(s, h, i, t) > 0 && i - nth_same(s, h, i, t) <= lb)
                && 3 <= c <= max_len && #[trigger] runs_agree(s, nth_same(s, h, i, k), i, c) implies (ts[0] matches LzToken::Copy(d, l)
                && c <= l) by {
            assert forall|t: nat| t <= k implies #[trigger] chain_at(prev, start, t) > 0 && i - chain_at(prev, start, t) <= lb by {
                assert forall|t2: nat| t2 < t implies #[trigger] nth_same(s, h, i, t2) > 0 by {
                    assert(nth_same(s, h, i, t2) > 0 && i - nth_same(s, h, i, t2) <= lb);
                }
                lemma_chain_is_nth(s, head, prev, i, h, t);
                assert(nth_same(s, h, i, t) > 0 && i - nth_same(s, h, i, t) <= lb);
            }
            assert forall|t2: nat| t2 < k implies #[trigger] nth_same(s, h, i, t2) > 0 by {
                assert(nth_same(s, h, i, t2) > 0 && i - nth_same(s, h, i, t2) <= lb);
            }
            lemma_chain_is_nth(s, head, prev, i, h, k);
            assert(chain_reaches(prev, start, k, i, lb));
            assert(runs_agree(s, chain_at(prev, start, k), i, c));
        }
    }
}

/// The packer keeps the longest match in the chain: at position `i`, for every one of the
/// first 50 links of the hash chain of the three bytes at `i` that the walk reaches (an
/// earlier position within the 65535-byte window), and every run of `c` bytes (at most
/// 255 and at most what is left) that agrees there, the token emitted at `i` is a
/// back-reference of at least `c` bytes, or `c` is shorter than 3. A literal is the byte
/// at `i`.
pub proof fn lemma_lz_longest_in_chain(s: Seq<u8>, i: int, head: Seq<usize>, prev: Seq<usize>)
    requires
        0 <= i < s.len(),
        s.len() <= usize::MAX,
        chains_ok(s, head, prev, i),
    ensures
        ({
            let ts = lz_tokens_from(s, i, head, prev);
            let rem = s.len() - i;
            let max_len = if rem < 255 { rem } else { 255 };
            let lb = if i < 65535 { i } else { 65535 };
            &&& ts.len() > 0
            &&& ts[0] is Literal ==> ts[0] == LzToken::Literal(s[i])
            &&& max_len >= 3 ==> forall|k: nat, c: int|
                k < 50 && chain_reaches(prev, head[lz_hash(s[i], s[i + 1], s[i + 2])] as int, k, i, lb)
                    && 3 <= c <= max_len && #[trigger] runs_agree(
                    s,
                    chain_at(prev, head[lz_hash(s[i], s[i + 1], s[i + 2])] as int, k),
                    i,
                    c,
                ) ==> (ts[0] matches LzToken::Copy(d, l) && c <= l)
        }),
{
    let rem = s.len() - i;
    let max_len = if rem < 255 { rem } else { 255 };
    let lb = if i < 65535 { i } else { 65535 };
    let ts = lz_tokens_from(s, i, head, prev);
    lemma_lz_best(s, head, prev, i);
    let best = lz_best(s, head, prev, i);
    if best.0 >= 3 {
        let hp = lz_insert_run(s, head, prev, i, 0, best.0);
        assert(ts =~= seq![LzToken::Copy(best.1 as u32, best.0 as u32)] + lz_tokens_from(s, i + best.0, hp.0, hp.1));
    } else {
        let hp = if 3 <= s.len() - i { lz_insert(s, head, prev, i) } else { (head, prev) };
        assert(ts =~= seq![LzToken::Literal(s[i])] + lz_tokens_from(s, i + 1, hp.0, hp.1));
    }
    if max_len >= 3 {
        let h = lz_hash(s[i], s[i + 1], s[i + 2]);
        assert(0 <= h < 65536);
        lemma_chain_search_longest(s, prev, i, head[h] as int, 50, max_len, lb, (0, 0));
    }
}

impl CodecCore {
    /// LZ format: literals and back-references found through hash chains over the
    /// three-byte prefixes (a window of 65535 bytes, 50 candidates per position, matches of
    /// 3 to 255 bytes).
    pub fn compress_path2(&self, chunk: &[u8], is_delta: bool) -> (out: Vec<u8>)
        requires
            self.wf(),
        ensures
            out@ == pack_bits(header_bits(is_delta, true, false) + tokens_bits(lz_tokens(chunk@))),
            lz_valid(lz_tokens(chunk@), 0),
            lz_expand(lz_tokens(chunk@), Seq::empty()) == chunk@,
    {
        let mut writer = BitWriter::new(chunk.len());
        writer.write_bit(if is_delta { 1 } else { 0 });
        writer.write_bit(1);
        writer.write_bit(0);
        let ghost hb = writer@;
        let ghost s = chunk@;
        assert(hb =~= header_bits(is_delta, true, false));
        let mut head: Vec<usize> = vec![0usize; 65536];
        let mut prev: Vec<usize> = vec![0usize; chunk.len()];
        assert(head@ =~= Seq::new(65536, |h: int| 0usize));
        assert(prev@ =~= Seq::new(s.len(), |p: int| 0usize));
        let ghost mut toks: Seq<LzToken> = Seq::empty();
        assert(hb + tokens_bits(toks) =~= hb);
        assert(lz_tokens(s) =~= toks + lz_tokens_from(s, 0, head@, prev@));
        let mut i: usize = 0;
        while i < chunk.len()
            invariant
                self.wf(),
                writer.wf(),
                s == chunk@,
                i <= chunk@.len(),
                head@.len() == 65536,
                prev@.len() == chunk@.len(),
                forall|h: int| 0 <= h < 65536 ==> #[trigger] head@[h] < i || head@[h] == 0,
                forall|p: int| 0 <= p < prev@.len() ==> #[trigger] prev@[p] < p || prev@[p] == 0,
                writer@ == hb + tokens_bits(toks),
                lz_tokens(s) == toks + lz_tokens_from(s, i as int, head@, prev@),
            decreases chunk@.len() - i,
        {
            let mut best_match_len: usize = 0;
            let mut best_match_dist: usize = 0;
            let rem = chunk.len() - i;
            let max_len: usize = if rem < 255 { rem } else { 255 };
            let max_lookback: usize = if i < 65535 { i } else { 65535 };
            if max_len >= 3 {
                let h = hash3(chunk, i);
                let mut match_pos = head[h];
                let mut chain_length: u32 = 50;
                assert(chunk@.len() == chunk.len());
                let ghost mp0 = match_pos as int;
                while match_pos > 0 && i - match_pos <= max_lookback && chain_length > 0
                    invariant_except_break
                        chain_search(s, prev@, i as int, mp0, 50, max_len as int, max_lookback as int, (0, 0))
                            == chain_search(s, prev@, i as int, match_pos as int, chain_length as nat, max_len as int,
                            max_lookback as int, (best_match_len as int, best_match_dist as int)),
                    invariant
                        s == chunk@,
                        i < chunk@.len(),
                        chunk@.len() <= usize::MAX,
                        max_len <= chunk@.len() - i,
                        max_lookback <= i,
                        max_lookback <= 65535,
                        prev@.len() == chunk@.len(),
                        forall|p: int| 0 <= p < prev@.len() ==> #[trigger] prev@[p] < p || prev@[p] == 0,
                        match_pos < i || match_pos == 0,
                        best_match_len <= max_len,
                        best_match_len > 0 ==> 1 <= best_match_dist <= max_lookback,
                    ensures
                        best_match_len <= max_len,
                        best_match_len > 0 ==> 1 <= best_match_dist <= max_lookback,
                        chain_search(s, prev@, i as int, mp0, 50, max_len as int, max_lookback as int, (0, 0))
                            == (best_match_len as int, best_match_dist as int),
                    decreases chain_length,
                {
                    let dist = i - match_pos;
                    let mut current_len: usize = 0;
                    loop
                        invariant
                            s == chunk@,
                            i < chunk@.len(),
                            chunk@.len() <= usize::MAX,
                            max_len <= chunk@.len() - i,
                            0 < match_pos < i,
                            dist == i - match_pos,
                            current_len <= max_len,
                            match_len(s, match_pos as int, i as int, max_len as int, 0)
                                == match_len(s, match_pos as int, i as int, max_len as int, current_len as int),
                        ensures
                            current_len <= max_len,
                            match_len(s, match_pos as int, i as int, max_len as int, 0) == current_len,
                        decreases max_len - current_len,
                    {
                        if current_len >= max_len {
                            break;
                        }
                        if chunk[match_pos + current_len] != chunk[i + current_len] {
                            break;
                        }
                        current_len += 1;
                    }
                    if current_len > best_match_len {
                        best_match_len = current_len;
                        best_match_dist = dist;
                        if best_match_len == max_len {
                            break;
                        }
                    }
                    match_pos = prev[match_pos];
                    chain_length -= 1;
                }
                assert(lz_best(s, head@, prev@, i as int) == (best_match_len as int, best_match_dist as int));
            } else {
                assert(lz_best(s, head@, prev@, i as int) == (0int, 0int));
            }
            let ghost head0 = head@;
            let ghost prev0 = prev@;
            if best_match_len >= 3 {
                writer.write_bit(1);
                self.fib_encode_number(best_match_dist as u32, &mut writer);
                self.fib_encode_number(best_match_len as u32, &mut writer);
                let ghost tok = LzToken::Copy(best_match_dist as u32, best_match_len as u32);
                proof {
                    lemma_tokens_bits_push(toks, tok);
                }
                let mut k: usize = 0;
                while k < best_match_len
                    invariant
                        s == chunk@,
                        i + best_match_len <= chunk@.len(),
                        best_match_len <= 255,
                        k <= best_match_len,
                        head@.len() == 65536,
                        prev@.len() == chunk@.len(),
                        forall|h: int| 0 <= h < 65536 ==> #[trigger] head@[h] < i + k || head@[h] == 0,
                        forall|p: int| 0 <= p < prev@.len() ==> #[trigger] prev@[p] < p || prev@[p] == 0,
                        lz_insert_run(s, head0, prev0, i as int, 0, best_match_len as int)
                            == lz_insert_run(s, head@, prev@, i as int, k as int, best_match_len as int),
                    decreases best_match_len - k,
                {
                    if k + 3 <= chunk.len() - i {
                        let h = hash3(chunk, i + k);
                        let old_head = head[h];
                        prev.set(i + k, old_head);
                        head.set(h, i + k);
                    }
                    k += 1;
                }
                proof {
                    assert(lz_tokens_from(s, i as int, head0, prev0) == seq![tok] + lz_tokens_from(
                        s, i + best_match_len, head@, prev@));
                    assert(toks + lz_tokens_from(s, i as int, head0, prev0) =~= toks.push(tok)
                        + lz_tokens_from(s, i + best_match_len, head@, prev@));
                    toks = toks.push(tok);
                }
                assert(writer@ =~= hb + tokens_bits(toks));
                i += best_match_len;
            } else {
                writer.write_bit(0);
                self.fib_encode_number(chunk[i] as u32, &mut writer);
                let ghost tok = LzToken::Literal(chunk@[i as int]);
                proof {
                    lemma_tokens_bits_push(toks, tok);
                }
                if 3 <= chunk.len() - i {
                    let h = hash3(chunk, i);
                    let old_head = head[h];
                    prev.set(i, old_head);
                    head.set(h, i);
                }
                proof {
                    assert(lz_tokens_from(s, i as int, head0, prev0) == seq![tok] + lz_tokens_from(
                        s, i + 1, head@, prev@));
                    assert(toks + lz_tokens_from(s, i as int, head0, prev0) =~= toks.push(tok)
                        + lz_tokens_from(s, i + 1, head@, prev@));
                    toks = toks.push(tok);
                }
                assert(writer@ =~= hb + tokens_bits(toks));
                i += 1;
            }
        }
        assert(lz_tokens(s) =~= toks);
        let out = writer.finish().0;
        proof {
            lemma_lz_tokens(s);
        }
        out
    }

    /// LZ format: reads tokens until the bits run out; a back-reference copies its bytes
    /// one at a time.
    pub fn decompress_path2(&self, reader: &mut BitReader) -> (r: Result<Vec<u8>, StreamFault>)
        requires
            self.wf(),
            old(reader).wf(),
        ensures
            final(reader).wf(),
            unpacked_as(r, lz_read(old(reader)@, Seq::empty())),
            r is Ok ==> final(reader)@.len() == 0,
    {
        let ghost bits = reader@;
        let mut out: Vec<u8> = Vec::new();
        loop
            invariant
                self.wf(),
                reader.wf(),
                bits == old(reader)@,
                lz_read(bits, Seq::empty()) == lz_read(reader@, out@),
            decreases reader@.len(),
        {
            let ghost cur = reader@;
            let flag = match reader.read_bit() {
                Some(f) => f,
                None => {
                    return Ok(out);
                },
            };
            proof {
                lemma_fib_read_shrinks(cur.drop_first());
            }
            if flag == 0 {
                match self.fib_decode_number(reader) {
                    Ok(Some(n)) => {
                        out.push(n as u8);
                    },
                    Ok(None) => {
                        return Ok(out);
                    },
                    Err(e) => {
                        return Err(e);
                    },
                }
            } else {
                let ghost r1 = reader@;
                let dist: usize = match self.fib_decode_number(reader) {
                    Ok(Some(d)) => d as usize,
                    Ok(None) => {
                        return Ok(out);
                    },
                    Err(e) => {
                        return Err(e);
                    },
                };
                proof {
                    lemma_fib_read_shrinks(reader@);
                }
                let len: usize = match self.fib_decode_number(reader) {
                    Ok(Some(l)) => l as usize,
                    Ok(None) => {
                        return Ok(out);
                    },
                    Err(e) => {
                        return Err(e);
                    },
                };
                if len > 0 && (dist == 0 || dist > out.len()) {
                    return Err(StreamFault);
                }
                let ghost out0 = out@;
                let mut j: usize = 0;
                while j < len
                    invariant
                        j <= len,
                        len > 0 ==> 1 <= dist <= out0.len(),
                        out@ == lz_copy(out0, dist as int, j as int),
                    decreases len - j,
                {
                    let b = out[out.len() - dist];
                    proof {
                        let d = dist as int;
                        let n0 = out0.len() as int;
                        let jj = j as int;
                        if jj < d {
                            vstd::arithmetic::div_mod::lemma_small_mod(jj as nat, d as nat);
                        } else {
                            vstd::arithmetic::div_mod::lemma_mod_add_multiples_vanish(jj - d, d);
                            assert(0 <= (jj - d) % d < d) by (nonlinear_arith)
                                requires
                                    d >= 1,
                                    jj - d >= 0,
                            ;
                        }
                        assert(b == out0[n0 - d + jj % d]);
                    }
                    out.push(b);
                    assert(out@ =~= lz_copy(out0, dist as int, j + 1));
                    j += 1;
                }
            }
        }
    }
}


/// Table index of a byte pair.
pub open spec fn pair_key(p: (u8, u8)) -> int {
    p.0 * 256 + p.1
}

proof fn lemma_pair_key(p: (u8, u8), q: (u8, u8))
    ensures
        0 <= pair_key(p) < 65536,
        pair_key(p) == pair_key(q) ==> p == q,
{
    let (a, b) = p;
    let (c, d) = q;
    assert(a * 256 + b == c * 256 + d ==> a == c && b == d) by (nonlinear_arith)
        requires
            a < 256,
            b < 256,
            c < 256,
            d < 256,
    ;
    assert(0 <= a * 256 + b < 65536) by (nonlinear_arith)
        requires
            a < 256,
            b < 256,
    ;
}

proof fn lemma_key_pair(k: int)
    requires
        0 <= k < 65536,
    ensures
        pair_key(((k / 256) as u8, (k % 256) as u8)) == k,
{
    assert(0 <= k / 256 < 256 && 0 <= k % 256 < 256 && (k / 256) * 256 + k % 256 == k) by (nonlinear_arith)
        requires
            0 <= k < 65536,
    ;
}

fn count_pairs(chunk: &[u8]) -> (counts: Vec<u32>)
    requires
        chunk@.len() <= u32::MAX,
    ensures
        counts@.len() == 65536,
        forall|p: (u8, u8)| #[trigger] counts@[pair_key(p)] == pair_count(chunk@, p),
{
    let mut counts: Vec<u32> = vec![0u32; 65536];
    let n = chunk.len();
    if n < 2 {
        assert forall|p: (u8, u8)| #[trigger] counts@[pair_key(p)] == pair_count(chunk@, p) by {
            lemma_pair_key(p, p);
        }
        return counts;
    }
    let mut i: usize = 0;
    assert forall|p: (u8, u8)| #[trigger] counts@[pair_key(p)] == pair_count(chunk@.take(1), p) by {
        lemma_pair_key(p, p);
    }
    while i < n - 1
        invariant
            n == chunk@.len(),
            2 <= n <= u32::MAX,
            i <= n - 1,
            counts@.len() == 65536,
            forall|p: (u8, u8)| #[trigger] counts@[pair_key(p)] == pair_count(chunk@.take(i + 1), p),
        decreases n - 1 - i,
    {
        let a = chunk[i];
        let b = chunk[i + 1];
        let k: usize = (a as usize) * 256 + (b as usize);
        let ghost pr = (a, b);
        proof {
            lemma_pair_key(pr, pr);
            lemma_pair_count_bound(chunk@.take(i + 1), pr);
        }
        let c = counts[k];
        counts.set(k, c + 1);
        proof {
            let t2 = chunk@.take(i + 2);
            assert(t2.drop_last() =~= chunk@.take(i + 1));
            assert(t2[t2.len() - 2] == a && t2.last() == b);
            assert forall|p: (u8, u8)| #[trigger] counts@[pair_key(p)] == pair_count(t2, p) by {
                lemma_pair_key(p, pr);
            }
        }
        i += 1;
    }
    assert(chunk@.take(n as int) =~= chunk@);
    counts
}

fn select_pairs(chunk: &[u8], counts: Vec<u32>) -> (dict: Vec<(u8, u8)>)
    requires
        counts@.len() == 65536,
        forall|p: (u8, u8)| #[trigger] counts@[pair_key(p)] == pair_count(chunk@, p),
    ensures
        valid_dict(chunk@, dict@),
{
    let mut work = counts;
    let mut dict: Vec<(u8, u8)> = Vec::new();
    let ghost s = chunk@;
    loop
        invariant
            work@.len() == 65536,
            dict@.len() <= 255,
            dict@.no_duplicates(),
            forall|j: int| 0 <= j < dict@.len() ==> pair_count(s, #[trigger] dict@[j]) > 5,
            forall|i: int, j: int|
                0 <= i < j < dict@.len() ==> pair_count(s, #[trigger] dict@[i]) >= pair_count(
                    s,
                    #[trigger] dict@[j],
                ),
            forall|q: (u8, u8), j: int|
                !dict@.contains(q) && 0 <= j < dict@.len() ==> #[trigger] pair_count(s, q)
                    <= pair_count(s, #[trigger] dict@[j]),
            forall|p: (u8, u8)| #[trigger] work@[pair_key(p)] == if dict@.contains(p) {
                0
            } else {
                pair_count(s, p)
            },
        ensures
            valid_dict(s, dict@),
        decreases 255 - dict@.len(),
    {
        if dict.len() >= 255 {
            break;
        }
        let mut best_k: usize = 0;
        let mut best_count: u32 = work[0];
        let mut k: usize = 1;
        while k < 65536
            invariant
                work@.len() == 65536,
                1 <= k <= 65536,
                best_k < 65536,
                best_count == work@[best_k as int],
                forall|j: int| 0 <= j < k ==> #[trigger] work@[j] <= best_count,
            decreases 65536 - k,
        {
            if work[k] > best_count {
                best_count = work[k];
                best_k = k;
            }
            k += 1;
        }
        if best_count <= 5 {
            assert forall|q: (u8, u8)| !dict@.contains(q) && #[trigger] pair_count(s, q) > 5 implies false by {
                lemma_pair_key(q, q);
                assert(work@[pair_key(q)] <= best_count);
            }
            break;
        }
        let ghost old_dict = dict@;
        let pr: (u8, u8) = ((best_k / 256) as u8, (best_k % 256) as u8);
        proof {
            lemma_key_pair(best_k as int);
            lemma_pair_key(pr, pr);
            assert(!old_dict.contains(pr));
            assert(pair_count(s, pr) == best_count);
        }
        dict.push(pr);
        work.set(best_k, 0);
        proof {
            let nd = dict@;
            assert(nd == old_dict.push(pr));
            assert forall|q: (u8, u8)| nd.contains(q) == (old_dict.contains(q) || q == pr) by {
                if old_dict.contains(q) {
                    let j = choose|j: int| 0 <= j < old_dict.len() && old_dict[j] == q;
                    assert(nd[j] == q);
                }
                if q == pr {
                    assert(nd[old_dict.len() as int] == q);
                }
                if nd.contains(q) {
                    let j = choose|j: int| 0 <= j < nd.len() && nd[j] == q;
                    if j < old_dict.len() {
                        assert(old_dict[j] == q);
                    }
                }
            }
            assert forall|p: (u8, u8)| #[trigger] work@[pair_key(p)] == if nd.contains(p) {
                0
            } else {
                pair_count(s, p)
            } by {
                lemma_pair_key(p, pr);
            }
            assert forall|q: (u8, u8), j: int|
                !nd.contains(q) && 0 <= j < nd.len() implies #[trigger] pair_count(s, q)
                <= pair_count(s, #[trigger] nd[j]) by {
                lemma_pair_key(q, q);
                assert(work@[pair_key(q)] == pair_count(s, q));
                if j < old_dict.len() {
                    assert(nd[j] == old_dict[j]);
                }
            }
            assert forall|i: int, j: int|
                0 <= i < j < nd.len() implies pair_count(s, #[trigger] nd[i]) >= pair_count(
                s,
                #[trigger] nd[j],
            ) by {
                if j == old_dict.len() {
                    assert(nd[i] == old_dict[i]);
                } else {
                    assert(nd[i] == old_dict[i] && nd[j] == old_dict[j]);
                }
            }
            assert forall|i: int, j: int|
                0 <= i < nd.len() && 0 <= j < nd.len() && i != j implies nd[i] != nd[j] by {
                if i < old_dict.len() && j < old_dict.len() {
                    assert(nd[i] == old_dict[i] && nd[j] == old_dict[j]);
                } else if i < old_dict.len() {
                    assert(old_dict.contains(nd[i]));
                } else {
                    assert(old_dict.contains(nd[j]));
                }
            }
        }
    }
    dict
}

/// `out` is a pair-format chunk of `chunk`: the header and the pair format under a
/// dictionary that the packer may choose.
pub open spec fn pairs_packed(chunk: Seq<u8>, is_delta: bool, out: Seq<u8>) -> bool {
    exists|dict: Seq<(u8, u8)>|
        valid_dict(chunk, dict) && out == pack_bits(header_bits(is_delta, true, true) + pairs_bits(chunk, dict))
}


impl CodecCore {
    /// Pair format: a dictionary of up to 255 byte pairs that occur more than five times,
    /// most frequent first; then each dictionary pair as the Elias-gamma code of its index
    /// and each other byte as its Fibonacci code.
    pub fn compress_path3(&self, chunk: &[u8], is_delta: bool) -> (out: Vec<u8>)
        requires
            self.wf(),
            chunk@.len() <= u32::MAX,
        ensures
            pairs_packed(chunk@, is_delta, out@),
    {
        let mut writer = BitWriter::new(chunk.len());
        writer.write_bit(if is_delta { 1 } else { 0 });
        writer.write_bit(1);
        writer.write_bit(1);
        let ghost hb = writer@;
        assert(hb =~= header_bits(is_delta, true, true));
        let counts = count_pairs(chunk);
        let dict = select_pairs(chunk, counts);
        let dict_size = dict.len();
        let ghost d = dict@;
        self.fib_encode_number(dict_size as u32, &mut writer);
        let ghost h2 = writer@;
        let mut lookup: Vec<u32> = vec![0u32; 65536];
        let mut idx: usize = 0;
        assert(d.take(0) =~= Seq::<(u8, u8)>::empty());
        assert(h2 + dict_bits(d.take(0)) =~= h2);
        assert forall|p: (u8, u8)| #[trigger] lookup@[pair_key(p)] == 0 by {
            lemma_pair_key(p, p);
        }
        while idx < dict_size
            invariant
                self.wf(),
                writer.wf(),
                d == dict@,
                dict_size == d.len(),
                valid_dict(chunk@, d),
                idx <= dict_size,
                lookup@.len() == 65536,
                writer@ == h2 + dict_bits(d.take(idx as int)),
                forall|p: (u8, u8)| #[trigger] lookup@[pair_key(p)] == 0 || (1 <= lookup@[pair_key(p)]
                    <= idx && d[lookup@[pair_key(p)] - 1] == p),
                forall|j: int| 0 <= j < idx ==> #[trigger] lookup@[pair_key(d[j])] == j + 1,
            decreases dict_size - idx,
        {
            let pr = dict[idx];
            let k: usize = (pr.0 as usize) * 256 + (pr.1 as usize);
            proof {
                lemma_pair_key(pr, pr);
            }
            lookup.set(k, (idx + 1) as u32);
            self.fib_encode_number(pr.0 as u32, &mut writer);
            self.fib_encode_number(pr.1 as u32, &mut writer);
            proof {
                assert(d.take(idx + 1) =~= d.take(idx as int).push(pr));
                lemma_dict_bits_push(d.take(idx as int), pr);
                assert(writer@ =~= h2 + dict_bits(d.take(idx + 1)));
                assert forall|p: (u8, u8)| #[trigger] lookup@[pair_key(p)] == 0 || (1 <= lookup@[pair_key(p)]
                    <= idx + 1 && d[lookup@[pair_key(p)] - 1] == p) by {
                    lemma_pair_key(p, pr);
                }
                assert forall|j: int| 0 <= j < idx + 1 implies #[trigger] lookup@[pair_key(d[j])] == j + 1 by {
                    lemma_pair_key(d[j], pr);
                    if j < idx {
                        assert(d[j] != pr);
                    }
                }
            }
            idx += 1;
        }
        assert(d.take(dict_size as int) =~= d);
        // Each entry of the lookup table names the index of its pair, or marks it absent.
        assert forall|p: (u8, u8)| (#[trigger] lookup@[pair_key(p)] == 0) == !d.contains(p) && (
        lookup@[pair_key(p)] != 0 ==> d.index_of(p) == lookup@[pair_key(p)] - 1) by {
            if d.contains(p) {
                let j = choose|j: int| 0 <= j < d.len() && d[j] == p;
                assert(lookup@[pair_key(d[j])] == j + 1);
            }
            if lookup@[pair_key(p)] != 0 {
                let j = lookup@[pair_key(p)] - 1;
                assert(d[j] == p);
                assert(d.contains(p));
                let c = d.index_of(p);
                assert(0 <= c < d.len() && d[c] == p);
                assert(c == j);
            }
        }
        let ghost h3 = writer@;
        let n = chunk.len();
        let mut i: usize = 0;
        assert(h3 + Seq::<bool>::empty() =~= h3);
        let ghost mut done: Seq<bool> = Seq::empty();
        while i < n
            invariant
                self.wf(),
                writer.wf(),
                n == chunk@.len(),
                i <= n,
                d == dict@,
                dict_size == d.len(),
                valid_dict(chunk@, d),
                lookup@.len() == 65536,
                forall|p: (u8, u8)| (#[trigger] lookup@[pair_key(p)] == 0) == !d.contains(p) && (
                lookup@[pair_key(p)] != 0 ==> d.index_of(p) == lookup@[pair_key(p)] - 1),
                writer@ == h3 + done,
                pairs_body(chunk@, d, 0) == done + pairs_body(chunk@, d, i as int),
            decreases n - i,
        {
            if i < n - 1 && dict_size > 0 {
                let pr = (chunk[i], chunk[i + 1]);
                let k: usize = (pr.0 as usize) * 256 + (pr.1 as usize);
                proof {
                    lemma_pair_key(pr, pr);
                }
                let v = lookup[k];
                if v > 0 {
                    writer.write_bit(1);
                    self.elias_gamma_encode(v - 1, &mut writer);
                    proof {
                        let step = seq![true] + gamma_code((v - 1) as u32);
                        assert(d.contains(pr));
                        assert(pairs_body(chunk@, d, i as int) == step + pairs_body(chunk@, d, i + 2));
                        assert(done + pairs_body(chunk@, d, i as int) =~= (done + step) + pairs_body(chunk@, d, i + 2));
                        done = done + step;
                        assert(writer@ =~= h3 + done);
                    }
                    i += 2;
                    continue;
                }
            }
            writer.write_bit(0);
            self.fib_encode_number(chunk[i] as u32, &mut writer);
            proof {
                let step = seq![false] + fib_code(chunk@[i as int] as u32);
                if i + 1 < n && dict_size > 0 {
                    let pr = (chunk@[i as int], chunk@[i + 1]);
                    lemma_pair_key(pr, pr);
                    assert(!d.contains(pr));
                }
                assert(pairs_body(chunk@, d, i as int) == step + pairs_body(chunk@, d, i + 1));
                assert(done + pairs_body(chunk@, d, i as int) =~= (done + step) + pairs_body(chunk@, d, i + 1));
                done = done + step;
                assert(writer@ =~= h3 + done);
            }
            i += 1;
        }
        proof {
            assert(pairs_body(chunk@, d, n as int) =~= Seq::<bool>::empty());
            assert(done =~= pairs_body(chunk@, d, 0));
            assert(writer@ =~= hb + pairs_bits(chunk@, d));
        }
        let out = writer.finish().0;
        assert(valid_dict(chunk@, d) && out@ == pack_bits(header_bits(is_delta, true, true) + pairs_bits(chunk@, d)));
        out
    }

    /// Pair format: reads the dictionary size and entries, then flags with byte or index
    /// codes until the bits run out or an index is past the dictionary.
    pub fn decompress_path3(&self, reader: &mut BitReader) -> (r: Result<Vec<u8>, StreamFault>)
        requires
            self.wf(),
            old(reader).wf(),
        ensures
            final(reader).wf(),
            unpacked_as(r, pairs_unpack(old(reader)@)),
            r is Ok ==> final(reader)@ == pairs_unpack_rest(old(reader)@),
    {
        let ghost bits = reader@;
        let mut out: Vec<u8> = Vec::new();
        let dict_size: usize = match self.fib_decode_number(reader) {
            Ok(Some(s)) => s as usize,
            Ok(None) => {
                return Ok(out);
            },
            Err(e) => {
                return Err(e);
            },
        };
        let ghost r0 = reader@;
        let mut dict: Vec<(u8, u8)> = Vec::with_capacity(dict_size);
        let mut j: usize = 0;
        while j < dict_size
            invariant
                self.wf(),
                reader.wf(),
                j <= dict_size,
                dict@.len() == j,
                bits == old(reader)@,
                out@ == Seq::<u8>::empty(),
                pairs_unpack(bits) == match dict_read(r0, dict_size as nat, Seq::empty()) {
                    Some((dd, r2)) => pairs_read(r2, dd, Seq::empty()),
                    None => None,
                },
                pairs_unpack_rest(bits) == match dict_read(r0, dict_size as nat, Seq::empty()) {
                    Some((dd, r2)) => pairs_read_rest(r2, dd),
                    None => Seq::empty(),
                },
                dict_read(r0, dict_size as nat, Seq::empty()) == dict_read(reader@, (dict_size - j) as nat, dict@),
            decreases dict_size - j,
        {
            let b1: u8 = match self.fib_decode_number(reader) {
                Ok(Some(v)) => v as u8,
                Ok(None) => {
                    return Err(StreamFault);
                },
                Err(e) => {
                    return Err(e);
                },
            };
            let b2: u8 = match self.fib_decode_number(reader) {
                Ok(Some(v)) => v as u8,
                Ok(None) => {
                    return Err(StreamFault);
                },
                Err(e) => {
                    return Err(e);
                },
            };
            dict.push((b1, b2));
            j += 1;
        }
        let ghost d = dict@;
        loop
            invariant
                self.wf(),
                reader.wf(),
                dict@ == d,
                dict_size == d.len(),
                bits == old(reader)@,
                pairs_unpack(bits) == pairs_read(reader@, d, out@),
                pairs_unpack_rest(bits) == pairs_read_rest(reader@, d),
            decreases reader@.len(),
        {
            let ghost cur = reader@;
            let flag = match reader.read_bit() {
                Some(f) => f,
                None => {
                    return Ok(out);
                },
            };
            proof {
                lemma_fib_read_shrinks(cur.drop_first());
                lemma_gamma_read_shrinks(cur.drop_first());
            }
            if flag == 0 {
                match self.fib_decode_number(reader) {
                    Ok(Some(n)) => {
                        out.push(n as u8);
                    },
                    Ok(None) => {
                        return Ok(out);
                    },
                    Err(e) => {
                        return Err(e);
                    },
                }
            } else {
                match self.elias_gamma_decode(reader) {
                    Ok(Some(idx)) => {
                        if (idx as usize) < dict_size {
                            let pair = dict[idx as usize];
                            out.push(pair.0);
                            out.push(pair.1);
                        } else {
                            return Ok(out);
                        }
                    },
                    Ok(None) => {
                        return Ok(out);
                    },
                    Err(e) => {
                        return Err(e);
                    },
                }
            }
        }
    }
}

} // verus!
