//! A whole container: the file cut into chunks of `CHUNK_SIZE` bytes, each written as one
//! record, the records one after the other.
use vstd::prelude::*;
use crate::cipher::masked;
use crate::codec::CodecCore;
use crate::container::{
    CHUNK_SIZE, RecordError, chunk_packed, record_len_field, record_unpacked,
    lemma_record_roundtrip, lemma_masked_prefix,
};

verus! {

/// Chunk `j` of `data`: the bytes from `j * CHUNK_SIZE` up to the next multiple of
/// `CHUNK_SIZE` or the end of `data`.
pub open spec fn chunk_at(data: Seq<u8>, j: int) -> Seq<u8> {
    let end = if (j + 1) * CHUNK_SIZE < data.len() { (j + 1) * CHUNK_SIZE } else { data.len() as int };
    data.subrange(j * CHUNK_SIZE, end)
}

/// The records one after the other.
pub open spec fn joined(recs: Seq<Seq<u8>>) -> Seq<u8>
    decreases recs.len(),
{
    if recs.len() == 0 {
        Seq::empty()
    } else {
        joined(recs.drop_last()) + recs.last()
    }
}

/// `recs` are records of the chunks of `data` under `key`, one for each chunk.
pub open spec fn records_fit(key: u64, data: Seq<u8>, recs: Seq<Seq<u8>>) -> bool {
    &&& (recs.len() - 1) * CHUNK_SIZE < data.len() <= recs.len() * CHUNK_SIZE
    &&& forall|j: int| 0 <= j < recs.len() ==> chunk_packed(key, chunk_at(data, j), #[trigger] recs[j])
}

/// `out` is what the packer may write for `data` under `key`: a record of each chunk, in
/// order.
pub open spec fn container_packed(key: u64, data: Seq<u8>, out: Seq<u8>) -> bool {
    exists|recs: Seq<Seq<u8>>| records_fit(key, data, recs) && out == joined(recs)
}

/// Reading a container: record after record, each read through its header's length field;
/// a container that ends inside a header or a record is truncated, and the first refused
/// record refuses the whole.
#[verifier::opaque]
pub open spec fn container_unpacked(key: u64, enc: Seq<u8>) -> Result<Seq<u8>, RecordError>
    decreases enc.len(),
{
    if enc.len() == 0 {
        Ok(Seq::empty())
    } else if enc.len() < 8 {
        Err(RecordError::Truncated)
    } else {
        let n = record_len_field(key, enc) as int;
        if enc.len() - 8 < n {
            Err(RecordError::Truncated)
        } else {
            match record_unpacked(key, enc.take(8 + n)) {
                Err(e) => Err(e),
                Ok(d) => match container_unpacked(key, enc.skip(8 + n)) {
                    Ok(rest) => Ok(d + rest),
                    Err(e) => Err(e),
                },
            }
        }
    }
}

/// `r` with `front` put before its bytes.
pub open spec fn prepended(front: Seq<u8>, r: Result<Seq<u8>, RecordError>) -> Result<Seq<u8>, RecordError> {
    match r {
        Ok(d) => Ok(front + d),
        Err(e) => Err(e),
    }
}

/// The records joined: the first, then the others joined.
proof fn lemma_joined_front(recs: Seq<Seq<u8>>)
    requires
        recs.len() > 0,
    ensures
        joined(recs) == recs[0] + joined(recs.drop_first()),
    decreases recs.len(),
{
    if recs.len() == 1 {
        assert(recs.drop_last() =~= Seq::<Seq<u8>>::empty());
        assert(recs.drop_first() =~= Seq::<Seq<u8>>::empty());
        assert(joined(recs) =~= recs[0] + joined(recs.drop_first()));
    } else {
        lemma_joined_front(recs.drop_last());
        assert(recs.drop_last().drop_first() =~= recs.drop_first().drop_last());
        assert(recs.drop_first().last() == recs.last());
        assert(joined(recs) =~= recs[0] + joined(recs.drop_first()));
    }
}

/// The length field of a container's first record depends on its first four bytes only.
proof fn lemma_len_field_prefix(key: u64, enc: Seq<u8>, rec: Seq<u8>)
    requires
        8 <= rec.len() <= enc.len(),
        enc.take(rec.len() as int) == rec,
    ensures
        record_len_field(key, enc) == record_len_field(key, rec),
{
    assert(masked(key, enc).take(4) =~= masked(key, rec).take(4));
}

/// Lossless: a container reads back as the data it was packed from.
pub proof fn lemma_container_roundtrip(key: u64, data: Seq<u8>, out: Seq<u8>)
    requires
        container_packed(key, data, out),
    ensures
        container_unpacked(key, out) == Ok::<Seq<u8>, RecordError>(data),
{
    let recs = choose|recs: Seq<Seq<u8>>| records_fit(key, data, recs) && out == joined(recs);
    lemma_records_roundtrip(key, data, recs);
}

/// A record that reads back as `chunk`, put before `tail`, reads back as `chunk` before
/// what `tail` reads back as.
proof fn lemma_unpacked_front(key: u64, rec: Seq<u8>, chunk: Seq<u8>, tail: Seq<u8>)
    requires
        8 <= rec.len(),
        record_len_field(key, rec) == rec.len() - 8,
        record_unpacked(key, rec) == Ok::<Seq<u8>, RecordError>(chunk),
    ensures
        container_unpacked(key, rec + tail) == prepended(chunk, container_unpacked(key, tail)),
{
    reveal(container_unpacked);
    let enc = rec + tail;
    assert(enc.take(rec.len() as int) =~= rec);
    lemma_len_field_prefix(key, enc, rec);
    assert(enc.skip(rec.len() as int) =~= tail);
}

/// The first chunk and the records of the others.
proof fn lemma_records_fit_rest(key: u64, data: Seq<u8>, recs: Seq<Seq<u8>>)
    requires
        records_fit(key, data, recs),
        recs.len() > 0,
    ensures
        chunk_packed(key, chunk_at(data, 0), recs[0]),
        chunk_at(data, 0).len() < u32::MAX,
        records_fit(key, data.skip(chunk_at(data, 0).len() as int), recs.drop_first()),
        chunk_at(data, 0) + data.skip(chunk_at(data, 0).len() as int) == data,
{
    let chunk = chunk_at(data, 0);
    let rest = recs.drop_first();
    let data2 = data.skip(chunk.len() as int);
    assert(chunk_packed(key, chunk, recs[0]));
    assert forall|j: int| 0 <= j < rest.len() implies chunk_packed(key, chunk_at(data2, j), #[trigger] rest[j]) by {
        assert(chunk_at(data2, j) =~= chunk_at(data, j + 1));
        assert(rest[j] == recs[j + 1]);
    }
    assert(chunk + data2 =~= data);
}

proof fn lemma_records_roundtrip(key: u64, data: Seq<u8>, recs: Seq<Seq<u8>>)
    requires
        records_fit(key, data, recs),
    ensures
        container_unpacked(key, joined(recs)) == Ok::<Seq<u8>, RecordError>(data),
    decreases recs.len(),
{
    if recs.len() == 0 {
        reveal(container_unpacked);
        assert(data =~= Seq::<u8>::empty());
    } else {
        let rec = recs[0];
        let rest = recs.drop_first();
        let chunk = chunk_at(data, 0);
        let data2 = data.skip(chunk.len() as int);
        lemma_joined_front(recs);
        lemma_records_fit_rest(key, data, recs);
        lemma_record_roundtrip(key, chunk, rec);
        lemma_records_roundtrip(key, data2, rest);
        lemma_unpacked_front(key, rec, chunk, joined(rest));
    }
}

/// A container that starts with a record reading back as `d` reads back as `d` before
/// what follows the record.
proof fn lemma_unpacked_step(key: u64, before: Seq<u8>, cur: Seq<u8>, n: int, d: Seq<u8>)
    requires
        cur.len() >= 8,
        n == record_len_field(key, cur),
        cur.len() - 8 >= n,
        record_unpacked(key, cur.take(8 + n)) == Ok::<Seq<u8>, RecordError>(d),
    ensures
        prepended(before, container_unpacked(key, cur)) == prepended(
            before + d,
            container_unpacked(key, cur.skip(8 + n)),
        ),
{
    reveal(container_unpacked);
    match container_unpacked(key, cur.skip(8 + n)) {
        Ok(rest) => {
            assert(before + (d + rest) =~= (before + d) + rest);
        },
        Err(_) => {},
    }
}

/// How reading a container ends or stops: with nothing left, with a header or record cut
/// short, or at a refused record.
proof fn lemma_unpacked_stops(key: u64, cur: Seq<u8>)
    ensures
        cur.len() == 0 ==> container_unpacked(key, cur) == Ok::<Seq<u8>, RecordError>(Seq::empty()),
        0 < cur.len() < 8 ==> container_unpacked(key, cur) == Err::<Seq<u8>, RecordError>(RecordError::Truncated),
        cur.len() >= 8 && cur.len() - 8 < record_len_field(key, cur) ==> container_unpacked(key, cur)
            == Err::<Seq<u8>, RecordError>(RecordError::Truncated),
        cur.len() >= 8 && cur.len() - 8 >= record_len_field(key, cur) ==> (
        record_unpacked(key, cur.take(8 + record_len_field(key, cur))) matches Err(e)
            ==> container_unpacked(key, cur) == Err::<Seq<u8>, RecordError>(e)),
{
    reveal(container_unpacked);
}

impl CodecCore {
    /// Packs a whole file: cuts it into chunks of `CHUNK_SIZE` bytes (the last one
    /// shorter) and writes the record of each, in order.
    pub fn pack_container(&self, data: &[u8]) -> (out: Vec<u8>)
        requires
            self.wf(),
        ensures
            container_packed(self.key(), data@, out@),
    {
        let mut out: Vec<u8> = Vec::new();
        let mut pos: usize = 0;
        let ghost mut recs: Seq<Seq<u8>> = Seq::empty();
        while pos < data.len()
            invariant
                self.wf(),
                pos <= data@.len(),
                (recs.len() - 1) * CHUNK_SIZE < pos <= recs.len() * CHUNK_SIZE,
                pos < data@.len() ==> pos == recs.len() * CHUNK_SIZE,
                forall|j: int| 0 <= j < recs.len() ==> chunk_packed(self.key(), chunk_at(data@, j), #[trigger] recs[j]),
                out@ == joined(recs),
            decreases data@.len() - pos,
        {
            let end: usize = if data.len() - pos > CHUNK_SIZE {
                pos + CHUNK_SIZE
            } else {
                data.len()
            };
            let chunk = vstd::slice::slice_subrange(data, pos, end);
            assert(chunk@ == chunk_at(data@, recs.len() as int));
            let mut record = self.pack_chunk(chunk);
            proof {
                let old_recs = recs;
                recs = recs.push(record@);
                assert(recs.drop_last() =~= old_recs);
                assert forall|j: int| 0 <= j < recs.len() implies chunk_packed(self.key(), chunk_at(data@, j), #[trigger] recs[j]) by {
                    if j < old_recs.len() {
                        assert(recs[j] == old_recs[j]);
                    }
                }
            }
            out.append(&mut record);
            pos = end;
        }
        proof {
            assert(records_fit(self.key(), data@, recs));
        }
        out
    }

    /// Unpacks a whole container, record after record; refuses it when it ends inside a
    /// record or a record is refused.
    #[verifier::spinoff_prover]
    pub fn unpack_container(&self, enc: &[u8]) -> (r: Result<Vec<u8>, RecordError>)
        requires
            self.wf(),
            enc@.len() <= usize::MAX / 8,
        ensures
            match container_unpacked(self.key(), enc@) {
                Ok(d) => r matches Ok(v) && v@ == d,
                Err(e) => r == Err::<Vec<u8>, RecordError>(e),
            },
    {
        let mut out: Vec<u8> = Vec::new();
        let mut pos: usize = 0;
        proof {
            assert(enc@.skip(0) =~= enc@);
            match container_unpacked(self.key(), enc@) {
                Ok(d) => {
                    assert(Seq::<u8>::empty() + d =~= d);
                },
                Err(_) => {},
            }
        }
        while pos < enc.len()
            invariant
                self.wf(),
                enc@.len() <= usize::MAX / 8,
                pos <= enc@.len(),
                container_unpacked(self.key(), enc@) == prepended(
                    out@,
                    container_unpacked(self.key(), enc@.skip(pos as int)),
                ),
            decreases enc@.len() - pos,
        {
            let ghost cur = enc@.skip(pos as int);
            proof {
                lemma_unpacked_stops(self.key(), cur);
            }
            if enc.len() - pos < 8 {
                return Err(RecordError::Truncated);
            }
            let header = vstd::slice::slice_subrange(enc, pos, pos + 8);
            let (len32, _) = self.parse_record_header(header);
            proof {
                assert(header@ =~= cur.take(8));
                lemma_masked_prefix(self.key(), cur, 8);
                assert(masked(self.key(), cur).take(8).take(4) =~= masked(self.key(), cur).take(4));
            }
            let n = len32 as usize;
            if enc.len() - pos - 8 < n {
                return Err(RecordError::Truncated);
            }
            let record = vstd::slice::slice_subrange(enc, pos, pos + 8 + n);
            assert(record@ =~= cur.take(8 + n));
            match self.unpack_record(record) {
                Ok(mut chunk) => {
                    proof {
                        lemma_unpacked_step(self.key(), out@, cur, n as int, chunk@);
                        assert(enc@.skip(pos + 8 + n) =~= cur.skip(8 + n));
                    }
                    out.append(&mut chunk);
                },
                Err(e) => {
                    return Err(e);
                },
            }
            pos = pos + 8 + n;
        }
        proof {
            assert(enc@.skip(pos as int) =~= Seq::<u8>::empty());
            lemma_unpacked_stops(self.key(), enc@.skip(pos as int));
            assert(out@ + Seq::<u8>::empty() =~= out@);
        }
        Ok(out)
    }
}

} // verus!
