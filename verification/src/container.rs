//! Packing a chunk into a record and reading a record back: the eight candidate
//! encodings, the shortest one behind its length and checksum, the whole record masked
//! with the keystream; a record whose checksum does not match is refused.
use vstd::prelude::*;
use vstd::bytes::{
    spec_u32_to_le_bytes, spec_u32_from_le_bytes, u32_to_le_bytes, u32_from_le_bytes,
    lemma_auto_spec_u32_to_from_le_bytes,
};
use crate::bitio::{BitReader, bytes_to_bits, pack_bits, padding_of, zero_bits, lemma_unpack_pack};
use crate::checksum::{adler32, adler32_of};
use crate::cipher::{masked, keystream_byte, lemma_mask_involution, lemma_keys_differ_in_first_eight};
use crate::codec::{CodecCore, StreamFault};
use crate::filters::{delta_encoded, delta_decoded, lemma_delta_roundtrip};
use crate::paths::{pairs_packed, lz_tokens, lemma_lz_tokens};
use crate::streams::{
    header_bits, raw_read, fib_stream, fib_values_read, lz_read, pairs_unpack, tokens_bits,
    pairs_bits, valid_dict, lemma_raw_roundtrip, lemma_fib_stream_roundtrip,
    lemma_lz_roundtrip, lemma_pairs_roundtrip,
};

verus! {

/// Size of the chunks that a file is cut into.
pub const CHUNK_SIZE: usize = 1048576;

/// Header bit `i` of a packed chunk; a missing bit reads as 0.
pub open spec fn header_bit(bits: Seq<bool>, i: int) -> bool {
    i < bits.len() && bits[i]
}

/// Unpacking the bits of a packed chunk: the format named by header bits 1 and 2, then
/// the delta filter undone when header bit 0 is set. `None` when the stream is faulty.
pub open spec fn unpack_bits(bits: Seq<bool>) -> Option<Seq<u8>> {
    let rest = if bits.len() >= 3 { bits.skip(3) } else { Seq::empty() };
    let hi = header_bit(bits, 1);
    let lo = header_bit(bits, 2);
    let body = if !hi && !lo {
        Some(raw_read(rest))
    } else if !hi && lo {
        fib_values_read(rest, Seq::empty())
    } else if hi && !lo {
        lz_read(rest, Seq::empty())
    } else {
        pairs_unpack(rest)
    };
    match body {
        Some(d) => Some(if header_bit(bits, 0) { delta_decoded(d) } else { d }),
        None => None,
    }
}

/// Unpacking a packed chunk.
pub open spec fn unpack_packed(packed: Seq<u8>) -> Option<Seq<u8>> {
    unpack_bits(bytes_to_bits(packed))
}

/// The shortest of the candidates, the first one among equally short ones.
pub open spec fn shortest(cands: Seq<Seq<u8>>) -> Seq<u8>
    decreases cands.len(),
{
    if cands.len() <= 1 {
        cands[0]
    } else {
        let b = shortest(cands.drop_last());
        if cands.last().len() < b.len() { cands.last() } else { b }
    }
}

/// The raw and Fibonacci encodings of `data`, with the delta flag `d`.
pub open spec fn raw_candidate(data: Seq<u8>, d: bool) -> Seq<u8> {
    pack_bits(header_bits(d, false, false) + bytes_to_bits(data))
}

pub open spec fn fib_candidate(data: Seq<u8>, d: bool) -> Seq<u8> {
    pack_bits(header_bits(d, false, true) + fib_stream(data))
}

/// The LZ encoding of `data`, with the delta flag `d`.
pub open spec fn lz_candidate(data: Seq<u8>, d: bool) -> Seq<u8> {
    pack_bits(header_bits(d, true, false) + tokens_bits(lz_tokens(data)))
}

/// The eight candidates in the order they are tried: raw, Fibonacci, LZ and pair format of
/// the chunk, then the same of its delta filter.
/// (The pair-format candidates are passed in: their dictionaries may differ in the order
/// of equally frequent pairs.)
pub open spec fn candidates(chunk: Seq<u8>, c3: Seq<u8>, c7: Seq<u8>) -> Seq<Seq<u8>> {
    seq![
        raw_candidate(chunk, false),
        fib_candidate(chunk, false),
        lz_candidate(chunk, false),
        c3,
        raw_candidate(delta_encoded(chunk), true),
        fib_candidate(delta_encoded(chunk), true),
        lz_candidate(delta_encoded(chunk), true),
        c7,
    ]
}

/// The record of a chunk: the length of the packed chunk and the checksum of the chunk,
/// each as four little-endian bytes, then the packed chunk; all of it masked with the
/// keystream, so that no byte of a record stands in clear.
pub open spec fn record_of(key: u64, chunk: Seq<u8>, packed: Seq<u8>) -> Seq<u8> {
    masked(
        key,
        spec_u32_to_le_bytes(packed.len() as u32) + spec_u32_to_le_bytes(adler32_of(chunk)) + packed,
    )
}

/// Why a record is refused.
#[derive(Debug, Clone, Copy, PartialEq, Eq)]
pub enum RecordError {
    /// The packed chunk is a stream that the decoder cannot follow.
    Corrupt,
    /// The chunk unpacked, but its checksum is not the one in the record: the record was
    /// altered, or the key is not the one it was packed with.
    ChecksumMismatch,
    /// The container ends inside a record header or a record.
    Truncated,
}

/// The length field of a record, read through the keystream.
pub open spec fn record_len_field(key: u64, record: Seq<u8>) -> u32 {
    spec_u32_from_le_bytes(masked(key, record).take(4))
}

/// The checksum field of a record, read through the keystream.
pub open spec fn record_checksum_field(key: u64, record: Seq<u8>) -> u32 {
    spec_u32_from_le_bytes(masked(key, record).subrange(4, 8))
}

/// Reading a whole record back: unmasked, its packed chunk is unpacked, and the chunk is
/// given back only when its checksum is the one in the record.
pub open spec fn record_unpacked(key: u64, record: Seq<u8>) -> Result<Seq<u8>, RecordError> {
    match unpack_packed(masked(key, record).skip(8)) {
        None => Err(RecordError::Corrupt),
        Some(d) => if adler32_of(d) == record_checksum_field(key, record) {
            Ok(d)
        } else {
            Err(RecordError::ChecksumMismatch)
        },
    }
}

/// `record` is what the packer may write for `chunk` under `key`: the record of the
/// shortest candidate, where the pair-format candidates are ones that the pair packer may
/// produce.
pub open spec fn chunk_packed(key: u64, chunk: Seq<u8>, record: Seq<u8>) -> bool {
    exists|c3: Seq<u8>, c7: Seq<u8>|
        pairs_packed(chunk, false, c3) && pairs_packed(delta_encoded(chunk), true, c7) && record
            == record_of(key, chunk, shortest(#[trigger] candidates(chunk, c3, c7)))
}

proof fn lemma_shortest(cands: Seq<Seq<u8>>) -> (j: int)
    requires
        cands.len() >= 1,
    ensures
        0 <= j < cands.len(),
        shortest(cands) == cands[j],
        shortest(cands).len() <= cands[0].len(),
    decreases cands.len(),
{
    if cands.len() == 1 {
        0
    } else {
        let k = lemma_shortest(cands.drop_last());
        if cands.last().len() < shortest(cands.drop_last()).len() {
            (cands.len() - 1) as int
        } else {
            k
        }
    }
}

proof fn lemma_unpack_encoded(data: Seq<u8>, body: Seq<bool>, d: bool, hi: bool, lo: bool)
    ensures
        ({
            let bits = bytes_to_bits(pack_bits(header_bits(d, hi, lo) + body));
            let p = padding_of(3 + body.len());
            &&& p < 8
            &&& bits.len() >= 3
            &&& header_bit(bits, 0) == d
            &&& header_bit(bits, 1) == hi
            &&& header_bit(bits, 2) == lo
            &&& bits.skip(3) == body + zero_bits(p)
        }),
{
    let s = header_bits(d, hi, lo) + body;
    lemma_unpack_pack(s);
    let bits = bytes_to_bits(pack_bits(s));
    assert(bits.skip(3) =~= body + zero_bits(padding_of(s.len())));
}

/// Unpacking a chunk packed in the given format with header `d` gives `data`, with the
/// delta filter undone when `d` is set.
pub open spec fn unpacked_data(data: Seq<u8>, d: bool) -> Option<Seq<u8>> {
    Some(if d { delta_decoded(data) } else { data })
}

proof fn lemma_raw_candidate(data: Seq<u8>, d: bool)
    ensures
        unpack_packed(raw_candidate(data, d)) == unpacked_data(data, d),
{
    lemma_unpack_encoded(data, bytes_to_bits(data), d, false, false);
    lemma_raw_roundtrip(data, padding_of(3 + bytes_to_bits(data).len()));
}

proof fn lemma_fib_candidate(data: Seq<u8>, d: bool)
    ensures
        unpack_packed(fib_candidate(data, d)) == unpacked_data(data, d),
{
    lemma_unpack_encoded(data, fib_stream(data), d, false, true);
    lemma_fib_stream_roundtrip(data, padding_of(3 + fib_stream(data).len()), Seq::empty());
    assert(Seq::<u8>::empty() + data =~= data);
}

proof fn lemma_lz_candidate(data: Seq<u8>, d: bool)
    requires
        data.len() <= usize::MAX,
    ensures
        unpack_packed(lz_candidate(data, d)) == unpacked_data(data, d),
{
    let ts = lz_tokens(data);
    lemma_lz_tokens(data);
    lemma_unpack_encoded(data, tokens_bits(ts), d, true, false);
    lemma_lz_roundtrip(ts, padding_of(3 + tokens_bits(ts).len()), Seq::empty());
}

proof fn lemma_pairs_candidate(data: Seq<u8>, d: bool, c: Seq<u8>)
    requires
        pairs_packed(data, d, c),
    ensures
        unpack_packed(c) == unpacked_data(data, d),
{
    let dict = choose|dict: Seq<(u8, u8)>|
        valid_dict(data, dict) && c == pack_bits(header_bits(d, true, true) + pairs_bits(data, dict));
    lemma_unpack_encoded(data, pairs_bits(data, dict), d, true, true);
    lemma_pairs_roundtrip(data, dict, padding_of(3 + pairs_bits(data, dict).len()));
}

/// Every candidate unpacks to the chunk.
proof fn lemma_candidates_unpack(chunk: Seq<u8>, c3: Seq<u8>, c7: Seq<u8>, k: int)
    requires
        chunk.len() <= usize::MAX,
        pairs_packed(chunk, false, c3),
        pairs_packed(delta_encoded(chunk), true, c7),
        0 <= k < 8,
    ensures
        unpack_packed(candidates(chunk, c3, c7)[k]) == Some(chunk),
{
    lemma_delta_roundtrip(chunk);
    let dc = delta_encoded(chunk);
    let cands = candidates(chunk, c3, c7);
    if k == 0 {
        lemma_raw_candidate(chunk, false);
    } else if k == 1 {
        lemma_fib_candidate(chunk, false);
    } else if k == 2 {
        lemma_lz_candidate(chunk, false);
    } else if k == 3 {
        lemma_pairs_candidate(chunk, false, c3);
    } else if k == 4 {
        lemma_raw_candidate(dc, true);
    } else if k == 5 {
        lemma_fib_candidate(dc, true);
    } else if k == 6 {
        lemma_lz_candidate(dc, true);
    } else {
        lemma_pairs_candidate(dc, true, c7);
    }
}

/// Reading back a record: unmasked with the same key, its first four bytes give the
/// length of what follows, the next four the checksum of the chunk, and the rest unpacks
/// to the chunk, so the record reads back as the chunk. A record is at most nine bytes
/// longer than its chunk.
#[verifier::spinoff_prover]
#[verifier::rlimit(60)]
pub proof fn lemma_record_roundtrip(key: u64, chunk: Seq<u8>, record: Seq<u8>)
    requires
        chunk_packed(key, chunk, record),
        chunk.len() < u32::MAX,
    ensures
        8 <= record.len() <= chunk.len() + 9,
        record_len_field(key, record) == record.len() - 8,
        record_checksum_field(key, record) == adler32_of(chunk),
        unpack_packed(masked(key, record).skip(8)) == Some(chunk),
        record_unpacked(key, record) == Ok::<Seq<u8>, RecordError>(chunk),
{
    let (c3, c7) = choose|c3: Seq<u8>, c7: Seq<u8>|
        pairs_packed(chunk, false, c3) && pairs_packed(delta_encoded(chunk), true, c7) && record
            == record_of(key, chunk, shortest(#[trigger] candidates(chunk, c3, c7)));
    let cands = candidates(chunk, c3, c7);
    let j = lemma_shortest(cands);
    let packed = shortest(cands);
    lemma_candidates_unpack(chunk, c3, c7, j);
    lemma_auto_spec_u32_to_from_le_bytes();
    let n = chunk.len();
    assert(cands[0].len() == n + 1) by {
        assert((3 + 8 * n + 7) / 8 == n + 1) by (nonlinear_arith);
    }
    let l4 = spec_u32_to_le_bytes(packed.len() as u32);
    let c4 = spec_u32_to_le_bytes(adler32_of(chunk));
    let plain = l4 + c4 + packed;
    lemma_mask_involution(key, plain);
    assert(masked(key, record) == plain);
    assert(plain.take(4) =~= l4);
    assert(plain.subrange(4, 8) =~= c4);
    assert(plain.skip(8) =~= packed);
}

/// Read with a key other than the one it was packed with, a record never shows the header
/// it was written with: the eight header bytes unmask differently under different keys.
pub proof fn lemma_wrong_key_header(key: u64, other: u64, record: Seq<u8>)
    requires
        key != other,
        record.len() >= 8,
    ensures
        masked(other, record).take(8) != masked(key, record).take(8),
{
    lemma_keys_differ_in_first_eight(key, other);
    let i = choose|i: int| 0 <= i < 8 && #[trigger] keystream_byte(key, i) != keystream_byte(other, i);
    let x = record[i];
    let a = keystream_byte(key, i);
    let b = keystream_byte(other, i);
    assert((x ^ a) != (x ^ b)) by (bit_vector)
        requires
            a != b,
    ;
    assert(masked(other, record).take(8)[i] != masked(key, record).take(8)[i]);
}

/// Masking is position by position: the mask of a prefix is the prefix of the mask.
pub proof fn lemma_masked_prefix(key: u64, s: Seq<u8>, n: int)
    requires
        0 <= n <= s.len(),
    ensures
        masked(key, s.take(n)) == masked(key, s).take(n),
{
    assert(masked(key, s.take(n)) =~= masked(key, s).take(n));
}

/// The shortest of the candidates is the first one of the least length: no candidate is
/// shorter, and every one before it is longer.
pub proof fn lemma_shortest_first(cands: Seq<Seq<u8>>)
    requires
        cands.len() >= 1,
    ensures
        exists|j: int|
            0 <= j < cands.len() && shortest(cands) == cands[j] && (forall|k: int|
                0 <= k < cands.len() ==> cands[j].len() <= #[trigger] cands[k].len()) && (forall|k: int|
                0 <= k < j ==> #[trigger] cands[k].len() > cands[j].len()),
    decreases cands.len(),
{
    lemma_shortest_min(cands);
    if cands.len() == 1 {
        assert(shortest(cands) == cands[0]);
    } else {
        let init = cands.drop_last();
        lemma_shortest_first(init);
        let j0 = choose|j: int|
            0 <= j < init.len() && shortest(init) == init[j] && (forall|k: int|
                0 <= k < init.len() ==> init[j].len() <= #[trigger] init[k].len()) && (forall|k: int|
                0 <= k < j ==> #[trigger] init[k].len() > init[j].len());
        if cands.last().len() < shortest(init).len() {
            let j = cands.len() - 1;
            assert forall|k: int| 0 <= k < j implies #[trigger] cands[k].len() > cands[j].len() by {
                assert(cands[k] == init[k]);
            }
        } else {
            assert(cands[j0] == init[j0]);
            assert forall|k: int| 0 <= k < j0 implies #[trigger] cands[k].len() > cands[j0].len() by {
                assert(cands[k] == init[k]);
            }
        }
    }
}

/// A record never carries more than the shortest encoding: whatever record the packer
/// may write for `chunk`, its packed part is no longer than the raw, Fibonacci and LZ
/// encodings of the chunk and of its delta filter, nor than some pair encoding of each.
#[verifier::spinoff_prover]
#[verifier::rlimit(40)]
pub proof fn lemma_record_shortest(key: u64, chunk: Seq<u8>, record: Seq<u8>)
    requires
        chunk_packed(key, chunk, record),
    ensures
        record.len() >= 8,
        record.len() - 8 <= pack_bits(header_bits(false, false, false) + bytes_to_bits(chunk)).len(),
        record.len() - 8 <= pack_bits(header_bits(false, false, true) + fib_stream(chunk)).len(),
        record.len() - 8 <= pack_bits(header_bits(false, true, false) + tokens_bits(lz_tokens(chunk))).len(),
        record.len() - 8 <= pack_bits(header_bits(true, false, false) + bytes_to_bits(delta_encoded(chunk))).len(),
        record.len() - 8 <= pack_bits(header_bits(true, false, true) + fib_stream(delta_encoded(chunk))).len(),
        record.len() - 8 <= pack_bits(
            header_bits(true, true, false) + tokens_bits(lz_tokens(delta_encoded(chunk))),
        ).len(),
        exists|c3: Seq<u8>, c7: Seq<u8>|
            pairs_packed(chunk, false, c3) && pairs_packed(delta_encoded(chunk), true, c7) && record.len()
                - 8 <= c3.len() && record.len() - 8 <= c7.len(),
{
    let (c3, c7) = choose|c3: Seq<u8>, c7: Seq<u8>|
        pairs_packed(chunk, false, c3) && pairs_packed(delta_encoded(chunk), true, c7) && record
            == record_of(key, chunk, shortest(#[trigger] candidates(chunk, c3, c7)));
    let cands = candidates(chunk, c3, c7);
    lemma_shortest_min(cands);
    let packed = shortest(cands);
    assert(record.len() == 8 + packed.len()) by {
        lemma_auto_spec_u32_to_from_le_bytes();
    }
    assert(packed.len() <= cands[0].len());
    assert(packed.len() <= cands[1].len());
    assert(packed.len() <= cands[2].len());
    assert(packed.len() <= cands[3].len());
    assert(packed.len() <= cands[4].len());
    assert(packed.len() <= cands[5].len());
    assert(packed.len() <= cands[6].len());
    assert(packed.len() <= cands[7].len());
    assert(pairs_packed(chunk, false, c3) && pairs_packed(delta_encoded(chunk), true, c7)
        && record.len() - 8 <= c3.len() && record.len() - 8 <= c7.len());
}

proof fn lemma_shortest_min(cands: Seq<Seq<u8>>)
    requires
        cands.len() >= 1,
    ensures
        forall|k: int| 0 <= k < cands.len() ==> shortest(cands).len() <= #[trigger] cands[k].len(),
    decreases cands.len(),
{
    if cands.len() > 1 {
        lemma_shortest_min(cands.drop_last());
        assert forall|k: int| 0 <= k < cands.len() implies shortest(cands).len() <= #[trigger] cands[k].len() by {
            if k < cands.len() - 1 {
                assert(cands[k] == cands.drop_last()[k]);
            }
        }
    }
}

fn keep_shorter(best: Vec<u8>, cand: Vec<u8>) -> (r: Vec<u8>)
    ensures
        r@ == if cand@.len() < best@.len() { cand@ } else { best@ },
        r@.len() <= best@.len(),
        r@.len() <= cand@.len(),
{
    if cand.len() < best.len() {
        cand
    } else {
        best
    }
}

impl CodecCore {
    /// The record of one chunk: all eight candidate encodings are built, the shortest is
    /// masked with the keystream and written behind its length and the chunk's checksum.
    #[verifier::spinoff_prover]
    #[verifier::rlimit(40)]
    pub fn pack_chunk(&self, chunk: &[u8]) -> (record: Vec<u8>)
        requires
            self.wf(),
            chunk@.len() < u32::MAX,
        ensures
            chunk_packed(self.key(), chunk@, record@),
            record@.len() <= chunk@.len() + 9,
            record@.len() >= 8,
            // the packed part is no longer than any of the eight encodings
            record@.len() - 8 <= pack_bits(header_bits(false, false, false) + bytes_to_bits(chunk@)).len(),
            record@.len() - 8 <= pack_bits(header_bits(false, false, true) + fib_stream(chunk@)).len(),
            record@.len() - 8 <= pack_bits(
                header_bits(false, true, false) + tokens_bits(lz_tokens(chunk@)),
            ).len(),
            record@.len() - 8 <= pack_bits(
                header_bits(true, false, false) + bytes_to_bits(delta_encoded(chunk@)),
            ).len(),
            record@.len() - 8 <= pack_bits(
                header_bits(true, false, true) + fib_stream(delta_encoded(chunk@)),
            ).len(),
            record@.len() - 8 <= pack_bits(
                header_bits(true, true, false) + tokens_bits(lz_tokens(delta_encoded(chunk@))),
            ).len(),
            exists|c3: Seq<u8>, c7: Seq<u8>|
                pairs_packed(chunk@, false, c3) && pairs_packed(delta_encoded(chunk@), true, c7)
                    && record@.len() - 8 <= c3.len() && record@.len() - 8 <= c7.len(),
    {
        let checksum = adler32(chunk);
        let delta_chunk = Self::apply_delta(chunk);
        let p0 = self.compress_path0(chunk, false);
        let p1 = self.compress_path1(chunk, false);
        let p2 = self.compress_path2(chunk, false);
        let p3 = self.compress_path3(chunk, false);
        let d0 = self.compress_path0(delta_chunk.as_slice(), true);
        let d1 = self.compress_path1(delta_chunk.as_slice(), true);
        let d2 = self.compress_path2(delta_chunk.as_slice(), true);
        let d3 = self.compress_path3(delta_chunk.as_slice(), true);
        let ghost cands = candidates(chunk@, p3@, d3@);
        let ghost lens = seq![p0@.len(), p1@.len(), p2@.len(), p3@.len(), d0@.len(), d1@.len(), d2@.len(), d3@.len()];
        let ghost s0 = p0@;
        let mut best = p0;
        proof {
            reveal_with_fuel(shortest, 2);
            assert(best@ == shortest(cands.take(1)));
        }
        best = keep_shorter(best, p1);
        assert(cands.take(2).drop_last() =~= cands.take(1));
        assert(best@ == shortest(cands.take(2)));
        best = keep_shorter(best, p2);
        assert(cands.take(3).drop_last() =~= cands.take(2));
        assert(best@ == shortest(cands.take(3)));
        best = keep_shorter(best, p3);
        assert(cands.take(4).drop_last() =~= cands.take(3));
        assert(best@ == shortest(cands.take(4)));
        best = keep_shorter(best, d0);
        assert(cands.take(5).drop_last() =~= cands.take(4));
        assert(best@ == shortest(cands.take(5)));
        best = keep_shorter(best, d1);
        assert(cands.take(6).drop_last() =~= cands.take(5));
        assert(best@ == shortest(cands.take(6)));
        best = keep_shorter(best, d2);
        assert(cands.take(7).drop_last() =~= cands.take(6));
        assert(best@ == shortest(cands.take(7)));
        best = keep_shorter(best, d3);
        assert(cands.take(8).drop_last() =~= cands.take(7));
        assert(best@ == shortest(cands.take(8)));
        assert(cands.take(8) =~= cands);
        proof {
            let _ = lemma_shortest(cands);
            let n = chunk@.len();
            assert((3 + 8 * n + 7) / 8 == n + 1) by (nonlinear_arith);
        }
        assert(forall|k: int| 0 <= k < 8 ==> best@.len() <= #[trigger] lens[k]);
        assert(pairs_packed(chunk@, false, cands[3]) && pairs_packed(delta_encoded(chunk@), true, cands[7]));
        let mut plain = u32_to_le_bytes(best.len() as u32);
        let mut chk = u32_to_le_bytes(checksum);
        let mut body = best;
        plain.append(&mut chk);
        plain.append(&mut body);
        let record = self.encrypt_chunk(plain.as_slice());
        assert(plain@ =~= spec_u32_to_le_bytes(shortest(cands).len() as u32) + spec_u32_to_le_bytes(
            adler32_of(chunk@),
        ) + shortest(cands));
        record
    }

    /// The length and checksum fields of a record, from its first eight bytes.
    pub fn parse_record_header(&self, header: &[u8]) -> (r: (u32, u32))
        requires
            header@.len() == 8,
        ensures
            r.0 == spec_u32_from_le_bytes(masked(self.key(), header@).take(4)),
            r.1 == spec_u32_from_le_bytes(masked(self.key(), header@).subrange(4, 8)),
    {
        let plain = self.encrypt_chunk(header);
        let len_part = vstd::slice::slice_subrange(plain.as_slice(), 0, 4);
        let chk_part = vstd::slice::slice_subrange(plain.as_slice(), 4, 8);
        assert(len_part@ =~= plain@.take(4));
        (u32_from_le_bytes(len_part), u32_from_le_bytes(chk_part))
    }

    /// Unpacks a packed chunk: reads the three header bits (a missing bit reads as 0),
    /// unpacks the named format and undoes the delta filter when flagged.
    fn unpack_body(&self, packed_chunk: &[u8]) -> (r: Result<Vec<u8>, StreamFault>)
        requires
            self.wf(),
            packed_chunk@.len() <= usize::MAX / 8,
        ensures
            match unpack_packed(packed_chunk@) {
                Some(d) => r matches Ok(v) && v@ == d,
                None => r is Err,
            },
    {
        let mut reader = BitReader::new(packed_chunk);
        let ghost bits = reader@;
        let is_delta = match reader.read_bit() {
            Some(b) => b,
            None => 0,
        } == 1;
        let bit1 = match reader.read_bit() {
            Some(b) => b,
            None => 0,
        };
        let bit2 = match reader.read_bit() {
            Some(b) => b,
            None => 0,
        };
        proof {
            if bits.len() >= 3 {
                assert(reader@ =~= bits.skip(3));
            } else {
                assert(reader@.len() == 0);
                assert(reader@ =~= Seq::<bool>::empty());
            }
        }
        let decompressed = if bit1 == 0 && bit2 == 0 {
            Ok(self.decompress_path0(&mut reader))
        } else if bit1 == 0 && bit2 == 1 {
            self.decompress_path1(&mut reader)
        } else if bit1 == 1 && bit2 == 0 {
            self.decompress_path2(&mut reader)
        } else if bit1 == 1 && bit2 == 1 {
            self.decompress_path3(&mut reader)
        } else {
            Ok(self.decompress_path0(&mut reader))
        };
        let mut decompressed_chunk = match decompressed {
            Ok(v) => v,
            Err(e) => {
                return Err(e);
            },
        };
        if is_delta {
            decompressed_chunk = Self::remove_delta(decompressed_chunk.as_slice());
        }
        Ok(decompressed_chunk)
    }

    /// Reads back a whole record: unmasks it, unpacks the packed chunk after the eight
    /// header bytes, and gives the chunk back only when its checksum is the one in the
    /// record.
    pub fn unpack_record(&self, record: &[u8]) -> (r: Result<Vec<u8>, RecordError>)
        requires
            self.wf(),
            8 <= record@.len() <= usize::MAX / 8,
        ensures
            match record_unpacked(self.key(), record@) {
                Ok(d) => r matches Ok(v) && v@ == d,
                Err(e) => r == Err::<Vec<u8>, RecordError>(e),
            },
    {
        let plain = self.encrypt_chunk(record);
        let chk_part = vstd::slice::slice_subrange(plain.as_slice(), 4, 8);
        let stored_checksum = u32_from_le_bytes(chk_part);
        let body = vstd::slice::slice_subrange(plain.as_slice(), 8, plain.len());
        assert(body@ =~= masked(self.key(), record@).skip(8));
        let chunk = match self.unpack_body(body) {
            Ok(v) => v,
            Err(_) => {
                return Err(RecordError::Corrupt);
            },
        };
        if adler32(chunk.as_slice()) == stored_checksum {
            Ok(chunk)
        } else {
            Err(RecordError::ChecksumMismatch)
        }
    }
}

} // verus!
