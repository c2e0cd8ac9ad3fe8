//! The record log: a byte sequence of records, each a four-byte little-endian
//! length followed by that many payload bytes. Records are only ever added at
//! the end, so an offset, once handed out, keeps naming the same record.

use vstd::prelude::*;
use vstd::slice::slice_subrange;
use crate::bytes::{le_u32, lemma_u32_round_trip, push_u32, read_u32, u32_of_le};
use crate::error::PTreeError;

verus! {

/// The bytes that store `payload` as one record.
pub open spec fn frame(payload: Seq<u8>) -> Seq<u8> {
    le_u32(payload.len() as u32) + payload
}

/// The payload of the record that starts at `offset`, when its length prefix
/// and its whole payload lie inside `data`.
pub open spec fn record_at(data: Seq<u8>, offset: int) -> Option<Seq<u8>> {
    if 0 <= offset && offset + 4 <= data.len() {
        let n = u32_of_le(data.skip(offset)) as int;
        if offset + 4 + n <= data.len() {
            Some(data.subrange(offset + 4, offset + 4 + n))
        } else {
            None
        }
    } else {
        None
    }
}

/// The bytes that store `payload` as one record.
pub fn frame_record(payload: &[u8]) -> (r: Vec<u8>)
    requires
        payload@.len() <= u32::MAX,
    ensures
        r@ == frame(payload@),
{
    let mut out: Vec<u8> = Vec::new();
    push_u32(&mut out, payload.len() as u32);
    let ghost start = out@;
    let mut i: usize = 0;
    while i < payload.len()
        invariant
            i <= payload@.len(),
            out@ == start + payload@.take(i as int),
        decreases payload@.len() - i,
    {
        out.push(payload[i]);
        i += 1;
        assert(out@ =~= start + payload@.take(i as int));
    }
    assert(payload@.take(i as int) =~= payload@);
    assert(start =~= le_u32(payload@.len() as u32));
    out
}

/// The payload of the record at `offset`, borrowed from `data`; `OutOfRange`
/// when the prefix or the payload would reach past the end of `data`.
pub fn read_record(data: &[u8], offset: u64) -> (r: Result<&[u8], PTreeError>)
    ensures
        match r {
            Ok(p) => record_at(data@, offset as int) == Some(p@),
            Err(e) => e == PTreeError::OutOfRange && record_at(data@, offset as int) is None,
        },
{
    if offset >= data.len() as u64 || data.len() - (offset as usize) < 4 {
        return Err(PTreeError::OutOfRange);
    }
    let start = offset as usize;
    let n = read_u32(data, start) as usize;
    if data.len() - start - 4 < n {
        return Err(PTreeError::OutOfRange);
    }
    let p = slice_subrange(data, start + 4, start + 4 + n);
    Ok(p)
}

/// A record appended at the end of the log is read back, whole, at the offset
/// where it was appended.
pub proof fn lemma_read_after_append(data: Seq<u8>, payload: Seq<u8>)
    requires
        payload.len() <= u32::MAX,
    ensures
        record_at(data + frame(payload), data.len() as int) == Some(payload),
{
    let all = data + frame(payload);
    let off = data.len() as int;
    lemma_u32_round_trip(payload.len() as u32);
    assert(all.skip(off).take(4) =~= le_u32(payload.len() as u32));
    assert(u32_of_le(all.skip(off)) == u32_of_le(all.skip(off).take(4)));
    assert(all.subrange(off + 4, off + 4 + payload.len()) =~= payload);
}

/// Appending a record leaves every record already in the log as it was.
pub proof fn lemma_append_keeps_records(data: Seq<u8>, more: Seq<u8>, offset: int)
    requires
        record_at(data, offset) is Some,
    ensures
        record_at(data + more, offset) == record_at(data, offset),
{
    let all = data + more;
    assert(all.skip(offset).take(4) =~= data.skip(offset).take(4));
    assert(u32_of_le(all.skip(offset)) == u32_of_le(all.skip(offset).take(4)));
    assert(u32_of_le(data.skip(offset)) == u32_of_le(data.skip(offset).take(4)));
    let n = u32_of_le(data.skip(offset)) as int;
    assert(all.subrange(offset + 4, offset + 4 + n) =~= data.subrange(offset + 4, offset + 4 + n));
}

/// The end of the record log: the offset at which the next record goes.
pub struct LogWriter {
    end: u64,
}

impl LogWriter {
    pub closed spec fn spec_end(&self) -> u64 {
        self.end
    }

    /// A writer for a log that already holds `end` bytes.
    pub fn new(end: u64) -> (r: LogWriter)
        ensures
            r.spec_end() == end,
    {
        LogWriter { end }
    }

    pub fn end(&self) -> (r: u64)
        ensures
            r == self.spec_end(),
    {
        self.end
    }

    /// Frames `payload` as the next record: the offset where it starts and the
    /// bytes to write there. `Serialization` when the payload does not fit a
    /// four-byte length, `OutOfRange` when the log would pass 2^64 bytes; the
    /// end is unchanged then.
    pub fn append(&mut self, payload: &[u8]) -> (r: Result<(u64, Vec<u8>), PTreeError>)
        ensures
            match r {
                Ok((offset, bytes)) => {
                    &&& payload@.len() <= u32::MAX
                    &&& offset == old(self).spec_end()
                    &&& bytes@ == frame(payload@)
                    &&& final(self).spec_end() == old(self).spec_end() + bytes@.len()
                },
                Err(e) => {
                    &&& final(self).spec_end() == old(self).spec_end()
                    &&& (e == PTreeError::Serialization(e->Serialization_0) && payload@.len() > u32::MAX
                        || e == PTreeError::OutOfRange && payload@.len() <= u32::MAX
                        && old(self).spec_end() + 4 + payload@.len() > u64::MAX)
                },
            },
    {
        if payload.len() > 0xffff_ffff {
            return Err(PTreeError::Serialization(String::from_str("record longer than 4 GiB")));
        }
        let n = payload.len() as u64;
        if self.end > u64::MAX - 4 - n {
            return Err(PTreeError::OutOfRange);
        }
        let bytes = frame_record(payload);
        let offset = self.end;
        self.end = self.end + 4 + n;
        Ok((offset, bytes))
    }
}

} // verus!
