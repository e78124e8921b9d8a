//! The delta filter: each byte replaced by its difference to the one before, and back.
use vstd::prelude::*;
use vstd::wrapping::u8_specs::{wrapping_add, wrapping_sub};
use crate::codec::CodecCore;

verus! {

/// Each byte minus the byte before it (the first minus zero), modulo 256.
pub open spec fn delta_encoded(s: Seq<u8>) -> Seq<u8> {
    Seq::new(s.len(), |i: int| wrapping_sub(s[i], if i == 0 { 0u8 } else { s[i - 1] }))
}

/// Running sums modulo 256.
pub open spec fn delta_decoded(s: Seq<u8>) -> Seq<u8>
    decreases s.len(),
{
    if s.len() == 0 {
        Seq::empty()
    } else {
        let p = delta_decoded(s.drop_last());
        p.push(wrapping_add(s.last(), if p.len() == 0 { 0u8 } else { p.last() }))
    }
}

proof fn lemma_delta_decoded_len(s: Seq<u8>)
    ensures
        delta_decoded(s).len() == s.len(),
    decreases s.len(),
{
    if s.len() > 0 {
        lemma_delta_decoded_len(s.drop_last());
    }
}

/// Decoding undoes the delta filter.
pub proof fn lemma_delta_roundtrip(s: Seq<u8>)
    ensures
        delta_decoded(delta_encoded(s)) == s,
    decreases s.len(),
{
    if s.len() > 0 {
        let d = delta_encoded(s);
        assert(d.drop_last() =~= delta_encoded(s.drop_last()));
        lemma_delta_roundtrip(s.drop_last());
        lemma_delta_decoded_len(d.drop_last());
        assert(delta_decoded(d) =~= s);
    } else {
        assert(delta_decoded(delta_encoded(s)) =~= s);
    }
}

/// Applying the delta filter undoes a decoding.
pub proof fn lemma_delta_inverse(s: Seq<u8>)
    ensures
        delta_encoded(delta_decoded(s)) == s,
    decreases s.len(),
{
    if s.len() > 0 {
        lemma_delta_inverse(s.drop_last());
        lemma_delta_decoded_len(s);
        lemma_delta_decoded_len(s.drop_last());
        let p = delta_decoded(s.drop_last());
        let q = delta_decoded(s);
        assert(q.drop_last() =~= p);
        assert forall|i: int| 0 <= i < s.len() implies #[trigger] delta_encoded(q)[i] == s[i] by {
            if i < s.len() - 1 {
                assert(delta_encoded(q)[i] == delta_encoded(p)[i]);
            }
        }
        assert(delta_encoded(q) =~= s);
    } else {
        assert(delta_encoded(delta_decoded(s)) =~= s);
    }
}

impl CodecCore {
    /// The delta filter of `chunk`.
    pub fn apply_delta(chunk: &[u8]) -> (out: Vec<u8>)
        ensures
            out@ == delta_encoded(chunk@),
    {
        let mut out: Vec<u8> = Vec::with_capacity(chunk.len());
        let mut prev: u8 = 0;
        let mut i: usize = 0;
        while i < chunk.len()
            invariant
                i <= chunk@.len(),
                out@ == delta_encoded(chunk@).take(i as int),
                prev == (if i == 0 { 0u8 } else { chunk@[i - 1] }),
            decreases chunk@.len() - i,
        {
            let byte = chunk[i];
            out.push(byte.wrapping_sub(prev));
            assert(out@ =~= delta_encoded(chunk@).take(i + 1));
            prev = byte;
            i += 1;
        }
        assert(out@ =~= delta_encoded(chunk@));
        out
    }

    /// Undoes the delta filter: running sums of `chunk` modulo 256.
    pub fn remove_delta(chunk: &[u8]) -> (out: Vec<u8>)
        ensures
            out@ == delta_decoded(chunk@),
    {
        let mut out: Vec<u8> = Vec::with_capacity(chunk.len());
        let mut prev: u8 = 0;
        let mut i: usize = 0;
        while i < chunk.len()
            invariant
                i <= chunk@.len(),
                out@ == delta_decoded(chunk@.take(i as int)),
                out@.len() == i,
                prev == (if i == 0 { 0u8 } else { out@[i - 1] }),
            decreases chunk@.len() - i,
        {
            let byte = chunk[i];
            let val = byte.wrapping_add(prev);
            proof {
                assert(chunk@.take(i + 1).drop_last() =~= chunk@.take(i as int));
            }
            out.push(val);
            prev = val;
            i += 1;
        }
        assert(chunk@.take(chunk@.len() as int) =~= chunk@);
        out
    }
}

} // verus!
