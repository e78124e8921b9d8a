//! Keys and the chunk cipher: the password hash, the keystream that masks each byte, and
//! the password that the command-line tool proposes.
use vstd::prelude::*;
use vstd::wrapping::u64_specs::wrapping_mul;
use vstd::string::StringSliceAdditionalSpecFns;
use crate::codec::CodecCore;

verus! {

/// The 64-bit golden ratio constant.
pub const GOLDEN_RATIO_MAGIC: u64 = 0x9E3779B97F4A7C15;

/// `b` with its bits in reverse order.
pub open spec fn reverse_byte_of(b: u8) -> u8 {
    ((b & 1u8) << 7u8) | ((b & 2u8) << 5u8) | ((b & 4u8) << 3u8) | ((b & 8u8) << 1u8) | ((b
        & 16u8) >> 1u8) | ((b & 32u8) >> 3u8) | ((b & 64u8) >> 5u8) | ((b & 128u8) >> 7u8)
}

/// Number of 1 bits of `b`.
pub open spec fn ones_of(b: u8) -> u32 {
    ((b & 1u8) + ((b >> 1u8) & 1u8) + ((b >> 2u8) & 1u8) + ((b >> 3u8) & 1u8) + ((b >> 4u8) & 1u8)
        + ((b >> 5u8) & 1u8) + ((b >> 6u8) & 1u8) + ((b >> 7u8) & 1u8)) as u32
}

/// `x` rotated left by `r` bits (`r < 64`).
pub open spec fn rotl64(x: u64, r: u32) -> u64 {
    if r == 0 { x } else { (x << r) | (x >> ((64 - r) as u32)) }
}

/// `x` rotated right by `r` bits (`r < 64`).
pub open spec fn rotr64(x: u64, r: u32) -> u64 {
    if r == 0 { x } else { (x >> r) | (x << ((64 - r) as u32)) }
}

/// Bit `j` of `reverse_byte_of(b)` is bit `7 - j` of `b`.
pub proof fn lemma_reverse_byte(b: u8, j: u8)
    requires
        j < 8,
    ensures
        (reverse_byte_of(b) >> j) & 1u8 == (b >> ((7 - j) as u8)) & 1u8,
{
    assert((reverse_byte_of(b) >> j) & 1u8 == (b >> ((7 - j) as u8)) & 1u8) by (bit_vector)
        requires
            j < 8,
    ;
}

fn reverse_byte(b: u8) -> (r: u8)
    ensures
        r == reverse_byte_of(b),
{
    ((b & 1) << 7) | ((b & 2) << 5) | ((b & 4) << 3) | ((b & 8) << 1) | ((b & 16) >> 1) | ((b & 32)
        >> 3) | ((b & 64) >> 5) | ((b & 128) >> 7)
}

fn count_ones_byte(b: u8) -> (r: u32)
    ensures
        r == ones_of(b),
        r <= 8,
{
    assert(((b & 1u8) + ((b >> 1u8) & 1u8) + ((b >> 2u8) & 1u8) + ((b >> 3u8) & 1u8) + ((b >> 4u8)
        & 1u8) + ((b >> 5u8) & 1u8) + ((b >> 6u8) & 1u8) + ((b >> 7u8) & 1u8)) <= 8) by (bit_vector);
    ((b & 1) as u32) + (((b >> 1) & 1) as u32) + (((b >> 2) & 1) as u32) + (((b >> 3) & 1) as u32)
        + (((b >> 4) & 1) as u32) + (((b >> 5) & 1) as u32) + (((b >> 6) & 1) as u32) + (((b >> 7)
        & 1) as u32)
}

fn rotate_left_u64(x: u64, r: u32) -> (y: u64)
    requires
        r < 64,
    ensures
        y == rotl64(x, r),
{
    if r == 0 {
        x
    } else {
        (x << r) | (x >> (64 - r))
    }
}

fn rotate_right_u64(x: u64, r: u32) -> (y: u64)
    requires
        r < 64,
    ensures
        y == rotr64(x, r),
{
    if r == 0 {
        x
    } else {
        (x >> r) | (x << (64 - r))
    }
}

/// One step of the password hash: byte `byte` at position `i`.
pub open spec fn mirror_step(state: u64, byte: u8, i: int) -> u64 {
    let mirror = reverse_byte_of(byte) as u64;
    let s1 = state ^ rotl64(mirror, (i % 64) as u32);
    let s2 = wrapping_mul(s1, GOLDEN_RATIO_MAGIC);
    let s3 = rotr64(s2, (ones_of(byte) + 1) as u32);
    s3 ^ !mirror
}

/// The password hash state after the bytes `s`, starting from the golden ratio constant.
pub open spec fn mirror_hash_of(s: Seq<u8>) -> u64
    decreases s.len(),
{
    if s.len() == 0 {
        GOLDEN_RATIO_MAGIC
    } else {
        mirror_step(mirror_hash_of(s.drop_last()), s.last(), s.len() - 1)
    }
}

/// Rotating left by `r` moves bit `j` of `x` to bit `(j + r) mod 64`; rotating right by
/// `r` moves it to bit `(j + 64 - r) mod 64`.
pub proof fn lemma_rotations(x: u64, r: u32, j: u64)
    requires
        r < 64,
        j < 64,
    ensures
        (rotl64(x, r) >> (((j + r as u64) % 64) as u64)) & 1 == (x >> j) & 1,
        (rotr64(x, r) >> (((j + 64 - r as u64) % 64) as u64)) & 1 == (x >> j) & 1,
{
    assert((rotl64(x, r) >> (((j + r as u64) % 64) as u64)) & 1 == (x >> j) & 1) by (bit_vector)
        requires
            r < 64,
            j < 64,
    ;
    assert((rotr64(x, r) >> (((j + 64 - r as u64) % 64) as u64)) & 1 == (x >> j) & 1) by (bit_vector)
        requires
            r < 64,
            j < 64,
    ;
}

/// `ones_of(b)` counts the 1 bits of `b`: adding a bit below the top ones of a smaller
/// byte counts it once.
pub proof fn lemma_ones(b: u8)
    ensures
        ones_of(b) <= 8,
        ones_of(b) == ones_of(b >> 1u8) + (b & 1u8) as u32,
        ones_of(0) == 0,
{
    assert(ones_of(b) == ones_of(b >> 1u8) + (b & 1u8) as u32) by (bit_vector);
    assert(ones_of(b) <= 8) by (bit_vector);
    assert(ones_of(0) == 0) by (bit_vector);
}

/// The password hash, as a fold over the bytes: the state starts at
/// 0x9E3779B97F4A7C15, and byte `b` at position `i` (any position, however long the
/// password) XORs in its bit mirror rotated left by `i mod 64`, multiplies by
/// 0x9E3779B97F4A7C15 (wrapping), rotates right by one more than the number of 1 bits of
/// `b`, and XORs in the complement of the mirror.
pub proof fn lemma_mirror_hash_step(s: Seq<u8>, b: u8)
    ensures
        mirror_hash_of(Seq::empty()) == 0x9E3779B97F4A7C15u64,
        ({
            let m = reverse_byte_of(b) as u64;
            let x1 = mirror_hash_of(s) ^ rotl64(m, (s.len() % 64) as u32);
            let x2 = wrapping_mul(x1, 0x9E3779B97F4A7C15u64);
            let x3 = rotr64(x2, (ones_of(b) + 1) as u32);
            mirror_hash_of(s.push(b)) == x3 ^ !m
        }),
{
    assert(s.push(b).drop_last() =~= s);
}

/// The key of the command-line tool: the hash of the password's UTF-8 bytes.
pub fn fractal_mirror_hash(password: &str) -> (r: u64)
    ensures
        r == mirror_hash_of(password.spec_bytes()),
{
    let bytes = password.as_bytes();
    let mut state: u64 = GOLDEN_RATIO_MAGIC;
    let mut i: usize = 0;
    while i < bytes.len()
        invariant
            i <= bytes@.len(),
            state == mirror_hash_of(bytes@.take(i as int)),
        decreases bytes@.len() - i,
    {
        let byte = bytes[i];
        assert(bytes@.take(i + 1).drop_last() =~= bytes@.take(i as int));
        let mirror_byte = reverse_byte(byte) as u64;
        state = state ^ rotate_left_u64(mirror_byte, (i % 64) as u32);
        state = state.wrapping_mul(GOLDEN_RATIO_MAGIC);
        let shift = count_ones_byte(byte) + 1;
        state = rotate_right_u64(state, shift);
        state = state ^ !mirror_byte;
        i += 1;
    }
    assert(bytes@.take(bytes@.len() as int) =~= bytes@);
    state
}

/// The mask byte that the keystream puts on byte `i` of a chunk under `key`: byte
/// `i % 8` (counted from the low end) of the golden-ratio multiple of `i + 1` mixed with
/// the key, so that every byte of the key masks every eighth byte.
pub open spec fn keystream_byte(key: u64, i: int) -> u8 {
    (((wrapping_mul(GOLDEN_RATIO_MAGIC, (i + 1) as u64) ^ key) >> (((i % 8) * 8) as u64)) & 0xFFu64) as u8
}

/// Each byte of `s` masked with the keystream of `key`.
pub open spec fn masked(key: u64, s: Seq<u8>) -> Seq<u8> {
    Seq::new(s.len(), |i: int| s[i] ^ keystream_byte(key, i))
}

/// Masking twice with the same key gives the bytes back.
pub proof fn lemma_mask_involution(key: u64, s: Seq<u8>)
    ensures
        masked(key, masked(key, s)) == s,
{
    assert forall|i: int| 0 <= i < s.len() implies #[trigger] masked(key, masked(key, s))[i] == s[i] by {
        let k = keystream_byte(key, i);
        let x = s[i];
        assert((x ^ k) ^ k == x) by (bit_vector);
    }
    assert(masked(key, masked(key, s)) =~= s);
}

proof fn lemma_mask_byte_eq(x: u64, k1: u64, k2: u64, sh: u64)
    requires
        sh < 64,
    ensures
        ((((x ^ k1) >> sh) & 0xFFu64) as u8 == (((x ^ k2) >> sh) & 0xFFu64) as u8) == (((k1 ^ k2)
            >> sh) & 0xFFu64 == 0),
{
    assert(((((x ^ k1) >> sh) & 0xFFu64) as u8 == (((x ^ k2) >> sh) & 0xFFu64) as u8) == (((k1
        ^ k2) >> sh) & 0xFFu64 == 0)) by (bit_vector)
        requires
            sh < 64,
    ;
}

/// Two different keys put different masks on at least one of the first eight bytes of a
/// chunk: every byte of the key counts.
pub proof fn lemma_keys_differ_in_first_eight(k1: u64, k2: u64)
    requires
        k1 != k2,
    ensures
        exists|i: int| 0 <= i < 8 && #[trigger] keystream_byte(k1, i) != keystream_byte(k2, i),
{
    let d = k1 ^ k2;
    assert(d != 0) by (bit_vector)
        requires
            k1 != k2,
            d == k1 ^ k2,
    ;
    assert(d & 0xFF != 0 || (d >> 8u64) & 0xFF != 0 || (d >> 16u64) & 0xFF != 0 || (d >> 24u64)
        & 0xFF != 0 || (d >> 32u64) & 0xFF != 0 || (d >> 40u64) & 0xFF != 0 || (d >> 48u64) & 0xFF
        != 0 || (d >> 56u64) & 0xFF != 0) by (bit_vector)
        requires
            d != 0,
    ;
    assert(d >> 0u64 == d) by (bit_vector);
    lemma_mask_byte_at(k1, k2, 0);
    lemma_mask_byte_at(k1, k2, 1);
    lemma_mask_byte_at(k1, k2, 2);
    lemma_mask_byte_at(k1, k2, 3);
    lemma_mask_byte_at(k1, k2, 4);
    lemma_mask_byte_at(k1, k2, 5);
    lemma_mask_byte_at(k1, k2, 6);
    lemma_mask_byte_at(k1, k2, 7);
}

/// Keys that differ in their byte `i` put different masks on byte `i` of a chunk.
proof fn lemma_mask_byte_at(k1: u64, k2: u64, i: int)
    requires
        0 <= i < 8,
    ensures
        ((k1 ^ k2) >> ((i * 8) as u64)) & 0xFF != 0 ==> keystream_byte(k1, i) != keystream_byte(k2, i),
{
    let x = wrapping_mul(GOLDEN_RATIO_MAGIC, (i + 1) as u64);
    assert(i % 8 == i);
    lemma_mask_byte_eq(x, k1, k2, ((i % 8) * 8) as u64);
}

impl CodecCore {
    /// Masks each byte of `chunk` with the keystream of the codec's key; the same call
    /// unmasks.
    pub fn encrypt_chunk(&self, chunk: &[u8]) -> (out: Vec<u8>)
        ensures
            out@ == masked(self.key(), chunk@),
    {
        proof {
            self.lemma_unfold();
        }
        let mut encrypted: Vec<u8> = Vec::with_capacity(chunk.len());
        let mut i: usize = 0;
        while i < chunk.len()
            invariant
                i <= chunk@.len(),
                self.key() == self.ktime,
                encrypted@ == masked(self.key(), chunk@).take(i as int),
            decreases chunk@.len() - i,
        {
            let byte = chunk[i];
            let i_u64 = i as u64;
            let magic_val = GOLDEN_RATIO_MAGIC.wrapping_mul(i_u64 + 1) ^ self.ktime;
            let shift: u64 = (i_u64 % 8) * 8;
            let mask = ((magic_val >> shift) & 0xFF) as u8;
            encrypted.push(byte ^ mask);
            assert(encrypted@ =~= masked(self.key(), chunk@).take(i + 1));
            i += 1;
        }
        assert(encrypted@ =~= masked(self.key(), chunk@));
        encrypted
    }
}


/// The upper-case hexadecimal digit of `d` (`0 <= d < 16`).
pub open spec fn hex_char(d: int) -> char {
    seq!['0', '1', '2', '3', '4', '5', '6', '7', '8', '9', 'A', 'B', 'C', 'D', 'E', 'F'][d]
}

/// The upper-case hexadecimal digits of `v`, most significant first, without leading zeros
/// ("0" for zero).
pub open spec fn hex_digits(v: u64) -> Seq<char>
    decreases v,
{
    if v < 16 {
        seq![hex_char(v as int)]
    } else {
        hex_digits(v / 16).push(hex_char((v % 16) as int))
    }
}

/// Number of characters of the password that the command-line tool proposes.
pub const GENERATED_PASSWORD_LEN: usize = 12;

fn hex_digit_str(d: u8) -> (r: &'static str)
    requires
        d < 16,
    ensures
        r@ == seq![hex_char(d as int)],
{
    proof {
        reveal_strlit("0");
        reveal_strlit("1");
        reveal_strlit("2");
        reveal_strlit("3");
        reveal_strlit("4");
        reveal_strlit("5");
        reveal_strlit("6");
        reveal_strlit("7");
        reveal_strlit("8");
        reveal_strlit("9");
        reveal_strlit("A");
        reveal_strlit("B");
        reveal_strlit("C");
        reveal_strlit("D");
        reveal_strlit("E");
        reveal_strlit("F");
    }
    let r = if d == 0 {
        "0"
    } else if d == 1 {
        "1"
    } else if d == 2 {
        "2"
    } else if d == 3 {
        "3"
    } else if d == 4 {
        "4"
    } else if d == 5 {
        "5"
    } else if d == 6 {
        "6"
    } else if d == 7 {
        "7"
    } else if d == 8 {
        "8"
    } else if d == 9 {
        "9"
    } else if d == 10 {
        "A"
    } else if d == 11 {
        "B"
    } else if d == 12 {
        "C"
    } else if d == 13 {
        "D"
    } else if d == 14 {
        "E"
    } else {
        "F"
    };
    assert(r@ =~= seq![hex_char(d as int)]);
    r
}

/// The password that the command-line tool proposes when none is given: the upper-case
/// hexadecimal digits of `random_val` times the golden ratio constant (modulo 2^64), cut
/// to their first twelve characters.
pub fn generated_password(random_val: u64) -> (r: String)
    ensures
        r@ == hex_digits(wrapping_mul(random_val, GOLDEN_RATIO_MAGIC)).take(
            if hex_digits(wrapping_mul(random_val, GOLDEN_RATIO_MAGIC)).len() < 12 {
                hex_digits(wrapping_mul(random_val, GOLDEN_RATIO_MAGIC)).len() as int
            } else {
                12
            },
        ),
{
    let v = random_val.wrapping_mul(GOLDEN_RATIO_MAGIC);
    let ghost hd = hex_digits(v);
    // Digits, least significant first.
    let mut digits: Vec<u8> = Vec::new();
    let mut x: u64 = v;
    let ghost mut tail: Seq<char> = Seq::empty();
    while x >= 16
        invariant
            hd == hex_digits(x) + tail,
            digits@.len() == tail.len(),
            forall|j: int| 0 <= j < digits@.len() ==> #[trigger] digits@[j] < 16 && tail[tail.len() - 1 - j] == hex_char(digits@[j] as int),
        decreases x,
    {
        let d = (x % 16) as u8;
        proof {
            assert(hex_digits(x) == hex_digits(x / 16).push(hex_char((x % 16) as int)));
            assert(hex_digits(x / 16) + seq![hex_char((x % 16) as int)] + tail =~= hex_digits(x / 16) + (seq![hex_char((x % 16) as int)] + tail));
            tail = seq![hex_char((x % 16) as int)] + tail;
        }
        digits.push(d);
        x = x / 16;
    }
    digits.push(x as u8);
    proof {
        assert(hex_digits(x) == seq![hex_char(x as int)]);
        tail = seq![hex_char(x as int)] + tail;
        assert(hd =~= tail);
    }
    let n = digits.len();
    let limit: usize = if n < GENERATED_PASSWORD_LEN { n } else { GENERATED_PASSWORD_LEN };
    let mut out = String::new();
    let mut i: usize = 0;
    while i < limit
        invariant
            n == digits@.len(),
            n == hd.len(),
            limit <= n,
            i <= limit,
            forall|j: int| 0 <= j < digits@.len() ==> #[trigger] digits@[j] < 16 && hd[hd.len() - 1 - j] == hex_char(digits@[j] as int),
            out@ == hd.take(i as int),
        decreases limit - i,
    {
        let d = digits[n - 1 - i];
        let s = hex_digit_str(d);
        out.append(s);
        assert(out@ =~= hd.take(i + 1));
        i += 1;
    }
    out
}

} // verus!
