//! Bit-level writer and reader, most significant bit of each byte first.
use vstd::prelude::*;

verus! {

/// Bit `j` (0 = most significant) of byte `b`.
pub open spec fn byte_bit(b: u8, j: int) -> bool {
    ((b >> ((7 - j) as u8)) & 1u8) == 1u8
}

/// The bits of a byte string, each byte most significant bit first.
pub open spec fn bytes_to_bits(bytes: Seq<u8>) -> Seq<bool> {
    Seq::new(8 * bytes.len(), |i: int| byte_bit(bytes[i / 8], i % 8))
}

/// The byte whose leading bits are `s` (at most eight of them) and whose other bits are zero.
pub open spec fn bits_to_byte(s: Seq<bool>) -> u8
    decreases s.len(),
{
    if s.len() == 0 {
        0u8
    } else {
        let high = bits_to_byte(s.drop_last());
        if s.last() {
            high | (1u8 << ((8 - s.len()) as u8))
        } else {
            high
        }
    }
}

/// The bytes that hold the bit string `s`, the last one filled up with zero bits.
pub open spec fn pack_bits(s: Seq<bool>) -> Seq<u8> {
    Seq::new(
        ((s.len() + 7) / 8) as nat,
        |t: int|
            bits_to_byte(s.subrange(8 * t, if 8 * t + 8 <= s.len() { 8 * t + 8 } else { s.len() as int })),
    )
}

/// `n` zero bits.
pub open spec fn zero_bits(n: nat) -> Seq<bool> {
    Seq::new(n, |i: int| false)
}

/// Number of zero bits that fill up the last byte of a string of `len` bits.
pub open spec fn padding_of(len: nat) -> nat {
    if len % 8 == 0 { 0 } else { (8 - len % 8) as nat }
}

/// Collects bits into bytes.
pub struct BitWriter {
    buffer: Vec<u8>,
    current_byte: u8,
    bit_count: u8,
    bits: Ghost<Seq<bool>>,
}

impl View for BitWriter {
    type V = Seq<bool>;

    /// All bits written so far.
    closed spec fn view(&self) -> Seq<bool> {
        self.bits@
    }
}

impl BitWriter {
    pub closed spec fn wf(&self) -> bool {
        &&& self.bit_count < 8
        &&& self.bits@.len() == 8 * self.buffer@.len() + self.bit_count
        &&& forall|t: int|
            0 <= t < self.buffer@.len() ==> #[trigger] self.buffer@[t] == bits_to_byte(
                self.bits@.subrange(8 * t, 8 * t + 8),
            )
        &&& self.current_byte == bits_to_byte(
            self.bits@.subrange(8 * self.buffer@.len() as int, self.bits@.len() as int),
        )
    }

    pub fn new(capacity: usize) -> (w: Self)
        ensures
            w.wf(),
            w@ == Seq::<bool>::empty(),
    {
        BitWriter {
            buffer: Vec::with_capacity(capacity),
            current_byte: 0,
            bit_count: 0,
            bits: Ghost(Seq::empty()),
        }
    }

    /// Appends one bit (`bit` is 0 or 1).
    pub fn write_bit(&mut self, bit: u8)
        requires
            old(self).wf(),
            bit <= 1,
        ensures
            final(self).wf(),
            final(self)@ == old(self)@.push(bit == 1),
    {
        let ghost old_bits = self.bits@;
        let ghost len: int = self.buffer@.len() as int;
        let ghost pending = old_bits.subrange(8 * len, old_bits.len() as int);
        let count = self.bit_count;
        let c = self.current_byte;
        let nc = c | (bit << (7 - count));
        proof {
            let new_bits = old_bits.push(bit == 1);
            assert(new_bits.subrange(8 * len, new_bits.len() as int) =~= pending.push(bit == 1));
            assert(pending.push(bit == 1).drop_last() =~= pending);
            if bit == 0 {
                assert(c | (0u8 << (7 - count) as u8) == c) by (bit_vector);
            }
            assert(nc == bits_to_byte(pending.push(bit == 1)));
        }
        self.current_byte = nc;
        self.bit_count = count + 1;
        self.bits = Ghost(old_bits.push(bit == 1));
        if self.bit_count == 8 {
            self.buffer.push(nc);
            self.current_byte = 0;
            self.bit_count = 0;
            proof {
                let new_bits = self.bits@;
                assert(new_bits.subrange(8 * (len + 1), new_bits.len() as int) =~= Seq::<bool>::empty());
                assert forall|t: int| 0 <= t < len + 1 implies #[trigger] self.buffer@[t]
                    == bits_to_byte(new_bits.subrange(8 * t, 8 * t + 8)) by {
                    if t < len {
                        assert(new_bits.subrange(8 * t, 8 * t + 8) =~= old_bits.subrange(8 * t, 8 * t + 8));
                    }
                }
            }
        } else {
            proof {
                let new_bits = self.bits@;
                assert forall|t: int| 0 <= t < len implies #[trigger] self.buffer@[t]
                    == bits_to_byte(new_bits.subrange(8 * t, 8 * t + 8)) by {
                    assert(new_bits.subrange(8 * t, 8 * t + 8) =~= old_bits.subrange(8 * t, 8 * t + 8));
                }
            }
        }
    }

    /// The written bits as bytes, the last one filled up with zero bits, and the number of
    /// filler bits.
    pub fn finish(self) -> (r: (Vec<u8>, u8))
        requires
            self.wf(),
        ensures
            r.0@ == pack_bits(self@),
            r.1 == padding_of(self@.len()),
    {
        let mut buffer = self.buffer;
        let ghost bits = self.bits@;
        let ghost len: int = buffer@.len() as int;
        let padding = if self.bit_count > 0 {
            buffer.push(self.current_byte);
            8 - self.bit_count
        } else {
            0
        };
        proof {
            assert(bits.len() % 8 == self.bit_count as nat) by {
                assert(bits.len() == 8 * len + self.bit_count);
            }
            assert forall|t: int| 0 <= t < buffer@.len() implies #[trigger] buffer@[t]
                == pack_bits(bits)[t] by {
                if t < len {
                    assert(8 * t + 8 <= bits.len());
                }
            }
            assert(buffer@ =~= pack_bits(bits));
        }
        (buffer, padding)
    }
}

/// Reads the bits of a byte string one at a time.
pub struct BitReader<'a> {
    data: &'a [u8],
    byte_idx: usize,
    bit_idx: u8,
}

impl<'a> View for BitReader<'a> {
    type V = Seq<bool>;

    /// The bits not read yet.
    closed spec fn view(&self) -> Seq<bool> {
        bytes_to_bits(self.data@).skip(8 * self.byte_idx + self.bit_idx)
    }
}

impl<'a> BitReader<'a> {
    pub closed spec fn wf(&self) -> bool {
        &&& self.byte_idx <= self.data@.len()
        &&& self.bit_idx < 8
        &&& self.byte_idx == self.data@.len() ==> self.bit_idx == 0
        &&& self.data@.len() <= usize::MAX / 8
    }

    /// The number of bits left fits in a `usize`.
    pub proof fn lemma_remaining_fits(&self)
        requires
            self.wf(),
        ensures
            self@.len() <= usize::MAX,
    {
    }

    /// The bit positions of `data` fit in a `usize`.
    pub fn new(data: &'a [u8]) -> (r: Self)
        requires
            data@.len() <= usize::MAX / 8,
        ensures
            r.wf(),
            r@ == bytes_to_bits(data@),
    {
        let r = BitReader { data, byte_idx: 0, bit_idx: 0 };
        assert(r@ =~= bytes_to_bits(data@));
        r
    }

    /// The next bit (0 or 1), or `None` once every bit has been read.
    pub fn read_bit(&mut self) -> (r: Option<u8>)
        requires
            old(self).wf(),
        ensures
            final(self).wf(),
            final(self)@.len() <= usize::MAX,
            old(self)@.len() == 0 ==> r is None && final(self)@ == old(self)@,
            old(self)@.len() > 0 ==> r == Some(if old(self)@[0] { 1u8 } else { 0u8 })
                && final(self)@ == old(self)@.drop_first(),
    {
        let ghost all = bytes_to_bits(self.data@);
        let ghost pos = 8 * self.byte_idx + self.bit_idx;
        proof {
            assert(all.len() == 8 * self.data@.len());
        }
        if self.byte_idx >= self.data.len() {
            return None;
        }
        let byte = self.data[self.byte_idx];
        let bi = self.bit_idx;
        let bit = (byte >> (7 - bi)) & 1;
        proof {
            assert(pos / 8 == self.byte_idx && pos % 8 == self.bit_idx) by (nonlinear_arith)
                requires
                    pos == 8 * self.byte_idx + self.bit_idx,
                    self.bit_idx < 8,
            ;
            assert(bit <= 1) by (bit_vector)
                requires
                    bi < 8,
                    bit == (byte >> (7 - bi) as u8) & 1u8,
            ;
            assert(all.skip(pos)[0] == all[pos]);
            assert(all.skip(pos + 1) =~= all.skip(pos).drop_first());
        }
        self.bit_idx = self.bit_idx + 1;
        if self.bit_idx == 8 {
            self.byte_idx = self.byte_idx + 1;
            self.bit_idx = 0;
        }
        Some(bit)
    }
}


proof fn lemma_or_bit(x: u8, c: u8, j: u8)
    requires
        c < 8,
        j < 8,
    ensures
        (((x | (1u8 << c)) >> ((7 - j) as u8)) & 1u8 == 1u8) == (((x >> ((7 - j) as u8)) & 1u8
            == 1u8) || c == 7 - j),
{
    assert((((x | (1u8 << c)) >> ((7 - j) as u8)) & 1u8 == 1u8) == (((x >> ((7 - j) as u8)) & 1u8
        == 1u8) || c == 7 - j)) by (bit_vector)
        requires
            c < 8,
            j < 8,
    ;
}

/// Bit `j` of the byte built from `t` is `t[j]`, and zero past the end of `t`.
pub proof fn lemma_bits_to_byte_bit(t: Seq<bool>, j: int)
    requires
        t.len() <= 8,
        0 <= j < 8,
    ensures
        byte_bit(bits_to_byte(t), j) == (j < t.len() && t[j]),
    decreases t.len(),
{
    if t.len() == 0 {
        let jj = j as u8;
        assert(((0u8 >> ((7 - jj) as u8)) & 1u8) == 0u8) by (bit_vector);
    } else {
        lemma_bits_to_byte_bit(t.drop_last(), j);
        if t.last() {
            lemma_or_bit(bits_to_byte(t.drop_last()), (8 - t.len()) as u8, j as u8);
        }
    }
}

/// Reading back the bytes of a packed bit string gives the bits followed by the zero
/// filler of the last byte.
pub proof fn lemma_unpack_pack(s: Seq<bool>)
    ensures
        bytes_to_bits(pack_bits(s)) == s + zero_bits(padding_of(s.len())),
{
    let p = pack_bits(s);
    let u = bytes_to_bits(p);
    let r = s + zero_bits(padding_of(s.len()));
    let n = s.len();
    assert(8 * ((n + 7) / 8) == n + padding_of(n)) by (nonlinear_arith)
        requires
            padding_of(n) == (if n % 8 == 0 { 0 } else { (8 - n % 8) as nat }),
    ;
    assert forall|i: int| 0 <= i < u.len() implies #[trigger] u[i] == r[i] by {
        let t = i / 8;
        let j = i % 8;
        assert(0 <= t < p.len() && 0 <= j < 8 && i == 8 * t + j) by (nonlinear_arith)
            requires
                0 <= i < 8 * p.len(),
                t == i / 8,
                j == i % 8,
        ;
        let hi = if 8 * t + 8 <= n { 8 * t + 8 } else { n as int };
        let sub = s.subrange(8 * t, hi);
        assert(8 * t < n + 8) by (nonlinear_arith)
            requires
                t < (n + 7) / 8,
        ;
        if 8 * t <= n {
            lemma_bits_to_byte_bit(sub, j);
        } else {
            assert(false) by (nonlinear_arith)
                requires
                    8 * t > n,
                    t < (n + 7) / 8,
            ;
        }
    }
    assert(u =~= r);
}

} // verus!
