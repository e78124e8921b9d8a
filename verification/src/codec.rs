//! The codec state (its Fibonacci table and key) and the writers and readers of the
//! Fibonacci and Elias-gamma codes over bit streams.
use vstd::prelude::*;
use vstd::std_specs::bits::axiom_u32_leading_zeros;
use crate::bitio::{BitWriter, BitReader, zero_bits};
use crate::codes::{
    Decoded, fib_read, fib_scan, gamma_code, gamma_read, top_bit, msb_bits, zero_run, shift_in,
    lemma_zero_run_prefix, lemma_shift_in_push, FIB_TABLE_LEN, FIB_TABLE_LIMIT, fib,
    fibonacci_table, fib_top, zeck_bits, fib_code, lemma_fib_values, lemma_fib_table_bound,
    lemma_fib_pos,
};

verus! {

/// A stream that the decoder cannot follow: it names a table entry that does not exist,
/// a back-reference before the start of the output, a value that is missing, or a
/// counter or value out of its integer range.
#[derive(Debug, Clone, Copy, PartialEq, Eq)]
pub struct StreamFault;

/// The codec state: the Fibonacci table and the 64-bit key.
pub struct CodecCore {
    pub(crate) fib_table: Vec<u32>,
    pub(crate) ktime: u64,
}

impl CodecCore {
    /// The table holds the first `FIB_TABLE_LEN` Fibonacci numbers.
    pub closed spec fn wf(&self) -> bool {
        self.fib_table@ == fibonacci_table()
    }

    /// The key.
    pub closed spec fn key(&self) -> u64 {
        self.ktime
    }

    pub(crate) proof fn lemma_unfold(&self)
        ensures
            self.wf() == (self.fib_table@ == fibonacci_table()),
            self.key() == self.ktime,
    {
    }

    /// Builds the table 1, 2, 3, 5, ... of the Fibonacci numbers up to `FIB_TABLE_LIMIT`.
    pub fn new(ktime: u64) -> (r: Self)
        ensures
            r.wf(),
            r.key() == ktime,
    {
        let mut fib_table: Vec<u32> = Vec::new();
        fib_table.push(1);
        fib_table.push(2);
        proof {
            lemma_fib_values();
        }
        loop
            invariant
                2 <= fib_table@.len() <= FIB_TABLE_LEN,
                forall|k: int| 0 <= k < fib_table@.len() ==> #[trigger] fib_table@[k] == fib(k as nat),
            ensures
                fib_table@.len() == FIB_TABLE_LEN,
                forall|k: int| 0 <= k < fib_table@.len() ==> #[trigger] fib_table@[k] == fib(k as nat),
            decreases FIB_TABLE_LEN - fib_table@.len(),
        {
            let n: usize = fib_table.len();
            proof {
                lemma_fib_table_bound((n - 1) as nat);
                lemma_fib_table_bound((n - 2) as nat);
                lemma_fib_table_bound(n as nat);
            }
            let next_fib: u32 = fib_table[n - 1] + fib_table[n - 2];
            if next_fib > FIB_TABLE_LIMIT {
                break;
            }
            fib_table.push(next_fib);
        }
        proof {
            assert(fib_table@ =~= fibonacci_table());
        }
        CodecCore { fib_table, ktime }
    }
}


/// Bits `lo .. hi` of `mask`, lowest first.
pub open spec fn mask_bits(mask: u32, lo: int, hi: int) -> Seq<bool> {
    Seq::new((hi - lo) as nat, |t: int| ((mask >> ((lo + t) as u32)) & 1u32) == 1u32)
}

proof fn lemma_set_mask_bit(mask: u32, c: u32, j: u32)
    requires
        c < 32,
        j < 32,
    ensures
        (((mask | (1u32 << c)) >> j) & 1u32 == 1u32) == (j == c || ((mask >> j) & 1u32 == 1u32)),
{
    assert((((mask | (1u32 << c)) >> j) & 1u32 == 1u32) == (j == c || ((mask >> j) & 1u32
        == 1u32))) by (bit_vector)
        requires
            c < 32,
            j < 32,
    ;
}

impl CodecCore {
    /// Writes the Fibonacci code of `n`.
    pub fn fib_encode_number(&self, n: u32, writer: &mut BitWriter)
        requires
            self.wf(),
            old(writer).wf(),
            n < u32::MAX,
        ensures
            final(writer).wf(),
            final(writer)@ == old(writer)@ + fib_code(n),
    {
        proof {
            self.lemma_unfold();
        }
        let ghost m: nat = (n + 1) as nat;
        let mut n: u32 = n + 1;
        let mut i: usize = self.fib_table.len() - 1;
        while i > 0 && self.fib_table[i] > n
            invariant
                self.fib_table@ == fibonacci_table(),
                i < FIB_TABLE_LEN,
                n == m,
                fib_top(m, (FIB_TABLE_LEN - 1) as nat) == fib_top(m, i as nat),
            decreases i,
        {
            i -= 1;
        }
        proof {
            lemma_fib_table_bound(i as nat);
        }
        let top: usize = i;
        assert(fib_top(m, (FIB_TABLE_LEN - 1) as nat) == top);
        let mut bits_mask: u32 = 0;
        assert forall|j: u32| j < 32 implies !(#[trigger] ((bits_mask >> j) & 1u32) == 1u32) by {
            assert(!(((0u32 >> j) & 1u32) == 1u32)) by (bit_vector);
        }
        let mut k: usize = top + 1;
        while k > 0
            invariant
                self.fib_table@ == fibonacci_table(),
                top < FIB_TABLE_LEN,
                k <= top + 1,
                zeck_bits(m, (top + 1) as nat) == zeck_bits(n as nat, k as nat) + mask_bits(
                    bits_mask,
                    k as int,
                    top + 1,
                ),
                forall|j: u32| j < k ==> !(#[trigger] ((bits_mask >> j) & 1u32) == 1u32),
            decreases k,
        {
            let c: usize = k - 1;
            proof {
                lemma_fib_table_bound(c as nat);
            }
            let b = n >= self.fib_table[c];
            let ghost old_mask = bits_mask;
            let ghost old_n = n;
            if b {
                bits_mask = bits_mask | (1u32 << (c as u32));
                n = n - self.fib_table[c];
            }
            proof {
                let cc = c as u32;
                if b {
                    assert forall|j: u32| j < 32 implies (#[trigger] ((bits_mask >> j) & 1u32) == 1u32)
                        == (j == cc || ((old_mask >> j) & 1u32 == 1u32)) by {
                        lemma_set_mask_bit(old_mask, cc, j);
                    }
                }
                assert(zeck_bits(old_n as nat, k as nat) == zeck_bits(n as nat, c as nat).push(b));
                assert(mask_bits(bits_mask, c as int, top + 1) =~= seq![b] + mask_bits(
                    old_mask,
                    k as int,
                    top + 1,
                )) by {
                    assert forall|t: int| 0 <= t < top + 1 - c implies #[trigger] mask_bits(
                        bits_mask,
                        c as int,
                        top + 1,
                    )[t] == (seq![b] + mask_bits(old_mask, k as int, top + 1))[t] by {
                        let j = (c + t) as u32;
                        if !b {
                            assert(bits_mask == old_mask);
                        }
                        if t == 0 {
                            assert(j == cc);
                        }
                    }
                }
                assert(zeck_bits(n as nat, c as nat).push(b) + mask_bits(old_mask, k as int, top + 1)
                    =~= zeck_bits(n as nat, c as nat) + (seq![b] + mask_bits(old_mask, k as int, top + 1)));
            }
            k = c;
        }
        proof {
            assert(zeck_bits(n as nat, 0) =~= Seq::<bool>::empty());
            assert(zeck_bits(m, (top + 1) as nat) =~= mask_bits(bits_mask, 0, top + 1));
        }
        let ghost start = writer@;
        let mut k: usize = 0;
        while k <= top
            invariant
                writer.wf(),
                top < FIB_TABLE_LEN,
                k <= top + 1,
                writer@ == start + mask_bits(bits_mask, 0, k as int),
            decreases top + 1 - k,
        {
            let bit: u8 = ((bits_mask >> (k as u32)) & 1) as u8;
            proof {
                let kk = k as u32;
                assert(((bits_mask >> kk) & 1u32) <= 1u32) by (bit_vector);
            }
            writer.write_bit(bit);
            proof {
                assert(mask_bits(bits_mask, 0, k + 1) =~= mask_bits(bits_mask, 0, k as int).push(bit == 1));
                assert(start + mask_bits(bits_mask, 0, k + 1) =~= (start + mask_bits(bits_mask, 0, k as int)).push(bit == 1));
            }
            k += 1;
        }
        writer.write_bit(1);
        proof {
            assert(fib_code((m - 1) as u32) == zeck_bits(m, (top + 1) as nat).push(true));
            assert(start + mask_bits(bits_mask, 0, top + 1) + seq![true] =~= (start + mask_bits(bits_mask, 0, top + 1)).push(true));
            assert(writer@ =~= start + fib_code((m - 1) as u32));
        }
    }
}


impl CodecCore {
    /// Reads one Fibonacci code: `Ok(Some(value))`, or `Ok(None)` when the bits run out
    /// first (all of them are then consumed).
    pub fn fib_decode_number(&self, reader: &mut BitReader) -> (r: Result<Option<u32>, StreamFault>)
        requires
            self.wf(),
            old(reader).wf(),
        ensures
            final(reader).wf(),
            match fib_read(old(reader)@) {
                Decoded::Value(v, rest) => r == Ok::<Option<u32>, StreamFault>(Some(v))
                    && final(reader)@ == rest,
                Decoded::Exhausted => r == Ok::<Option<u32>, StreamFault>(None)
                    && final(reader)@.len() == 0,
                Decoded::Fault => r is Err,
            },
    {
        proof {
            self.lemma_unfold();
            reader.lemma_remaining_fits();
        }
        let ghost bits = reader@;
        let mut result: u32 = 0;
        let mut prev_bit: u8 = 0;
        let mut fib_idx: usize = 0;
        loop
            invariant
                self.fib_table@ == fibonacci_table(),
                reader.wf(),
                bits == old(reader)@,
                bits.len() <= usize::MAX,
                fib_idx <= bits.len(),
                reader@ == bits.skip(fib_idx as int),
                prev_bit <= 1,
                prev_bit == 1 ==> result >= 1,
                result <= 3000000 * (if fib_idx < 31 { fib_idx as int } else { 31 }),
                fib_read(bits) == fib_scan(bits, fib_idx as int, prev_bit == 1, result as int),
            decreases bits.len() - fib_idx,
        {
            let bit = match reader.read_bit() {
                Some(b) => b,
                None => {
                    assert(fib_idx == bits.len());
                    return Ok(None);
                },
            };
            proof {
                assert(bits[fib_idx as int] == (bit == 1));
                assert(bits.skip(fib_idx + 1) =~= bits.skip(fib_idx as int).drop_first());
            }
            if bit == 1 {
                if prev_bit == 1 {
                    return Ok(Some(result - 1));
                }
                if fib_idx >= self.fib_table.len() {
                    return Err(StreamFault);
                }
                proof {
                    lemma_fib_table_bound(fib_idx as nat);
                    lemma_fib_pos(fib_idx as nat);
                }
                result += self.fib_table[fib_idx];
                prev_bit = 1;
            } else {
                prev_bit = 0;
            }
            fib_idx += 1;
        }
    }
}


impl CodecCore {
    /// Writes the Elias-gamma code of `n`.
    pub fn elias_gamma_encode(&self, n: u32, writer: &mut BitWriter)
        requires
            old(writer).wf(),
            n < u32::MAX,
        ensures
            final(writer).wf(),
            final(writer)@ == old(writer)@ + gamma_code(n),
    {
        let ghost start = writer@;
        let m: u32 = n + 1;
        proof {
            axiom_u32_leading_zeros(m);
        }
        let k: u32 = 31 - m.leading_zeros();
        assert(k == top_bit(m));
        let mut j: u32 = 0;
        while j < k
            invariant
                writer.wf(),
                j <= k,
                writer@ == start + zero_bits(j as nat),
            decreases k - j,
        {
            writer.write_bit(0);
            assert(start + zero_bits((j + 1) as nat) =~= (start + zero_bits(j as nat)).push(false));
            j += 1;
        }
        writer.write_bit(1);
        let ghost mid = writer@;
        assert(mid =~= start + zero_bits(k as nat) + seq![true]);
        let mut i: u32 = k;
        while i > 0
            invariant
                writer.wf(),
                i <= k,
                k < 32,
                writer@ == mid + msb_bits(m, k as nat).take(k - i),
            decreases i,
        {
            i -= 1;
            let bit: u8 = ((m >> i) & 1) as u8;
            proof {
                assert(((m >> i) & 1u32) <= 1u32) by (bit_vector);
                assert(msb_bits(m, k as nat).take(k - i) =~= msb_bits(m, k as nat).take(k - i - 1).push(bit == 1));
            }
            writer.write_bit(bit);
        }
        assert(msb_bits(m, k as nat).take(k as int) =~= msb_bits(m, k as nat));
        assert(writer@ =~= start + gamma_code(n));
    }

    /// Reads one Elias-gamma code: `Ok(Some(value))`, or `Ok(None)` when the bits run
    /// out first (all of them are then consumed).
    pub fn elias_gamma_decode(&self, reader: &mut BitReader) -> (r: Result<Option<u32>, StreamFault>)
        requires
            old(reader).wf(),
        ensures
            final(reader).wf(),
            match gamma_read(old(reader)@) {
                Decoded::Value(v, rest) => r == Ok::<Option<u32>, StreamFault>(Some(v))
                    && final(reader)@ == rest,
                Decoded::Exhausted => r == Ok::<Option<u32>, StreamFault>(None)
                    && final(reader)@.len() == 0,
                Decoded::Fault => r is Err,
            },
    {
        let ghost bits = reader@;
        let mut k: i32 = 0;
        loop
            invariant_except_break
                reader@ == bits.skip(k as int),
            invariant
                reader.wf(),
                bits == old(reader)@,
                0 <= k <= bits.len(),
                forall|t: int| 0 <= t < k ==> !#[trigger] bits[t],
            ensures
                reader.wf(),
                0 <= k <= i32::MAX,
                k < bits.len(),
                bits[k as int],
                reader@ == bits.skip(k + 1),
                zero_run(bits) == k,
            decreases bits.len() - k,
        {
            proof {
                lemma_zero_run_prefix(bits, k as int);
            }
            match reader.read_bit() {
                None => {
                    proof {
                        assert(k == bits.len());
                        assert(zero_run(bits.skip(k as int)) == 0);
                    }
                    return Ok(None);
                },
                Some(0) => {
                    assert(!bits[k as int]);
                    if k == i32::MAX {
                        proof {
                            lemma_zero_run_prefix(bits, k + 1);
                        }
                        return Err(StreamFault);
                    }
                    assert(bits.skip(k + 1) =~= bits.skip(k as int).drop_first());
                    k += 1;
                },
                Some(1) => {
                    assert(bits[k as int]);
                    assert(bits.skip(k + 1) =~= bits.skip(k as int).drop_first());
                    assert(zero_run(bits.skip(k as int)) == 0);
                    break;
                },
                Some(_) => {
                    return Ok(None);
                },
            }
        }
        let mut n: u32 = 1;
        let mut j: i32 = 0;
        while j < k
            invariant
                reader.wf(),
                bits == old(reader)@,
                0 <= j <= k <= i32::MAX,
                k < bits.len(),
                zero_run(bits) == k,
                k + 1 + j <= bits.len(),
                reader@ == bits.skip(k + 1 + j),
                n == shift_in(1, bits.subrange(k + 1, k + 1 + j)),
            decreases k - j,
        {
            let bit: u32 = match reader.read_bit() {
                Some(b) => b as u32,
                None => {
                    assert(bits.len() == k + 1 + j);
                    return Ok(None);
                },
            };
            proof {
                let p = k + 1 + j;
                assert(bits[p] == (bit == 1));
                assert(bits.subrange(k + 1, p + 1) =~= bits.subrange(k + 1, p).push(bits[p]));
                lemma_shift_in_push(1, bits.subrange(k + 1, p), bits[p]);
                assert(bits.skip(p + 1) =~= bits.skip(p).drop_first());
            }
            n = (n << 1) | bit;
            j += 1;
        }
        Ok(Some(n.wrapping_sub(1)))
    }
}

} // verus!
