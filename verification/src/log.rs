//! The log: the byte image of one segment's record file.
//!
//! On disk the file is preallocated to `max_size` bytes and holds the frames
//! of the segment's records from byte 0, followed by zero padding.  Here the
//! image lives in memory as a vector of exactly `max_size` bytes; the
//! embedding application mirrors it to its memory-mapped file.  `size` is the
//! append cursor — the persisted length of the file — and `current_offset`
//! is the next offset the log will assign.  A ghost sequence carries the
//! records the image encodes, tied to the bytes by the well-formedness
//! predicate.

use crate::record::{
    copy_range, lemma_parse_valid, parse_rec, rec_enc, rec_size, rec_valid, Record, RecordModel,
};
use crate::stream::{lemma_stream_push, parse_stream, pos_of, stream_enc, stream_wf};
use vstd::pervasive::VecAdditionalExecFns;
use vstd::prelude::*;

verus! {

/// A segment's on-disk state could not be accepted at load time.
#[derive(Clone, Copy, Debug, PartialEq, Eq)]
pub enum InitError {
    /// A file name in the log directory is not a 20-digit decimal stem.
    NameFormat,
    /// A log file is longer than the configured maximum, or its decodable
    /// prefix ends before its recorded length while the file is not
    /// preallocated in full: appends would no longer be contiguous.
    CorruptLog,
    /// An index file does not hold exactly the samples the log calls for.
    CorruptIndex,
    /// The segments on disk do not cover a contiguous offset range from 0.
    NonContiguous,
}

/// Whether the bytes of a log file can be accepted at load time: the file is
/// no longer than the preallocated region, its decodable prefix either spans
/// the whole file or the file is preallocated in full, and the recovered
/// offsets stay representable.
pub open spec fn log_ok(bytes: Seq<u8>, base_offset: u64, max_size: int) -> bool {
    &&& bytes.len() <= max_size
    &&& ({
        let rs = parse_stream(bytes, base_offset as int);
        &&& (stream_enc(rs).len() == bytes.len() || bytes.len() == max_size)
        &&& base_offset as int + rs.len() <= u64::MAX
    })
}

/// The in-memory image of one segment's log file.
pub struct Log {
    /// The full preallocated region, always exactly `max_size` bytes.
    pub data: Vec<u8>,
    /// Preallocated region size in bytes.
    pub max_size: usize,
    /// The persisted length: bytes `[0, size)` are on disk, and appends land
    /// at `size`.
    pub size: usize,
    /// Offset of the first record of the segment.
    pub base_offset: u64,
    /// The next offset to assign.
    pub current_offset: u64,
    /// The records the image encodes.
    pub records: Ghost<Seq<RecordModel>>,
}

impl Log {
    /// The number of bytes of `data` actually occupied by record frames.
    pub open spec fn used(&self) -> int {
        stream_enc(self.records@).len() as int
    }

    pub open spec fn wf(&self) -> bool {
        &&& self.data@.len() == self.max_size
        &&& self.max_size <= u32::MAX
        &&& self.used() <= self.size <= self.max_size
        &&& self.data@.subrange(0, self.used()) == stream_enc(self.records@)
        &&& stream_wf(self.records@, self.base_offset as int)
        &&& self.current_offset as int == self.base_offset as int + self.records@.len()
        &&& (self.size as int == self.used() || self.size == self.max_size)
    }

    /// A fresh, zero-filled log for a new segment.
    pub fn new(base_offset: u64, max_size: usize) -> (log: Log)
        requires
            max_size <= u32::MAX,
        ensures
            log.wf(),
            log.base_offset == base_offset,
            log.current_offset == base_offset,
            log.max_size == max_size,
            log.size == 0,
            log.records@ == Seq::<RecordModel>::empty(),
            log.data@ == Seq::new(max_size as nat, |i: int| 0u8),
    {
        let data = vec![0u8; max_size];
        let log = Log {
            data,
            max_size,
            size: 0,
            base_offset,
            current_offset: base_offset,
            records: Ghost(Seq::empty()),
        };
        proof {
            assert(log.data@ =~= Seq::new(max_size as nat, |i: int| 0u8));
            assert(log.data@.subrange(0, 0) =~= stream_enc(log.records@));
        }
        log
    }

    /// Whether `buffer_size` more bytes still fit in the region.
    pub fn can_fit(&self, buffer_size: usize) -> (r: bool)
        requires
            self.size <= self.max_size,
        ensures
            r == (self.max_size - self.size >= buffer_size),
    {
        (self.max_size - self.size) >= buffer_size
    }

    /// Writes one record's frame at the append cursor and returns the offset
    /// it was assigned and the byte position it starts at.
    pub fn append_record(&mut self, record_data: &Vec<u8>) -> (r: (u64, u32))
        requires
            old(self).wf(),
            old(self).size as int == old(self).used(),
            old(self).max_size - old(self).size >= record_data@.len(),
            old(self).current_offset < u64::MAX,
            ({
                let p = parse_rec(record_data@);
                &&& p is Some
                &&& p->Some_0.1 == record_data@.len()
                &&& p->Some_0.0.offset == old(self).current_offset
            }),
        ensures
            final(self).wf(),
            final(self).records@ == old(self).records@.push(parse_rec(record_data@)->Some_0.0),
            final(self).base_offset == old(self).base_offset,
            final(self).max_size == old(self).max_size,
            final(self).size == old(self).size + record_data@.len(),
            final(self).size as int == final(self).used(),
            final(self).current_offset == old(self).current_offset + 1,
            r == (old(self).current_offset, old(self).size as u32),
            forall|x: int|
                final(self).size <= x < final(self).data@.len() ==> final(self).data@[x] == old(
                    self,
                ).data@[x],
    {
        let ghost g = parse_rec(record_data@)->Some_0.0;
        proof {
            lemma_parse_valid(record_data@);
        }
        let data_size = record_data.len();
        let mut j: usize = 0;
        while j < data_size
            invariant
                j <= data_size,
                data_size == record_data@.len(),
                self.size + data_size <= self.max_size,
                self.data@.len() == self.max_size,
                forall|x: int| 0 <= x < self.size ==> self.data@[x] == old(self).data@[x],
                forall|x: int|
                    self.size <= x < self.size + j ==> self.data@[x] == record_data@[x
                        - self.size],
                forall|x: int|
                    self.size + j <= x < self.data@.len() ==> self.data@[x] == old(self).data@[x],
                self.size == old(self).size,
                self.max_size == old(self).max_size,
                self.base_offset == old(self).base_offset,
                self.current_offset == old(self).current_offset,
                self.records == old(self).records,
            decreases data_size - j,
        {
            self.data.set(self.size + j, record_data[j]);
            j = j + 1;
        }
        let assigned = self.current_offset;
        let position = self.size;
        self.size = self.size + data_size;
        self.current_offset = self.current_offset + 1;
        proof {
            let rs0 = old(self).records@;
            self.records@ = rs0.push(g);
            lemma_stream_push(rs0, g);
            assert(rec_enc(g) =~= record_data@);
            assert(self.data@.subrange(0, self.used()) =~= stream_enc(self.records@)) by {
                assert(stream_enc(self.records@) == stream_enc(rs0) + rec_enc(g));
                assert(old(self).data@.subrange(0, old(self).used()) == stream_enc(rs0));
                assert(forall|x: int|
                    0 <= x < old(self).size ==> old(self).data@[x] == stream_enc(rs0)[x]);
            }
            assert(stream_wf(self.records@, self.base_offset as int));
        }
        (assigned, position as u32)
    }

    /// A copy of the bytes `[begin, end)` of the region.
    pub fn read_at(&self, begin: usize, end: usize) -> (r: Vec<u8>)
        requires
            begin <= end <= self.data@.len(),
        ensures
            r@ == self.data@.subrange(begin as int, end as int),
    {
        copy_range(&self.data, begin, end - begin)
    }

    /// Rebuilds a log from the bytes of its file, as read from disk.
    ///
    /// The records are recovered by decoding frames from the start until one
    /// fails to decode or breaks the contiguous offset numbering; the file's
    /// length is kept as the append cursor, exactly as it was persisted.
    /// Returns the log and the byte position of each recovered record.
    /// Fails when the file is longer than the configured region, or when the
    /// decodable prefix ends before the persisted length while the file is
    /// not preallocated in full (such a log could no longer be appended to
    /// contiguously).
    pub fn load_from_disk(bytes: Vec<u8>, base_offset: u64, max_size: usize) -> (r: Result<
        (Log, Vec<u32>),
        InitError,
    >)
        requires
            max_size <= u32::MAX,
        ensures
            match r {
                Ok((log, positions)) => {
                    &&& log.wf()
                    &&& log.base_offset == base_offset
                    &&& log.max_size == max_size
                    &&& log.records@ == parse_stream(bytes@, base_offset as int)
                    &&& log.size == bytes@.len()
                    &&& bytes@.len() <= max_size
                    &&& log.data@.subrange(0, log.size as int) == bytes@
                    &&& forall|x: int|
                        log.size <= x < log.data@.len() ==> log.data@[x] == 0u8
                    &&& positions@.len() == log.records@.len()
                    &&& forall|i: int|
                        0 <= i < positions@.len() ==> positions@[i] as int == pos_of(
                            log.records@,
                            i,
                        )
                },
                Err(e) => {
                    &&& e == InitError::CorruptLog
                    &&& (bytes@.len() > max_size || ({
                        let rs = parse_stream(bytes@, base_offset as int);
                        ||| (stream_enc(rs).len() != bytes@.len() && bytes@.len() != max_size)
                        ||| base_offset as int + rs.len() > u64::MAX
                    }))
                },
            },
    {
        let bytes_len = bytes.len();
        if bytes_len > max_size {
            return Err(InitError::CorruptLog);
        }
        let mut cursor: usize = 0;
        let mut count: usize = 0;
        let mut positions: Vec<u32> = Vec::new();
        let ghost mut rs: Seq<RecordModel> = Seq::empty();
        let mut done = false;
        proof {
            assert(bytes@.subrange(0, 0) =~= stream_enc(rs));
            assert(bytes@.skip(0) =~= bytes@);
            assert(parse_stream(bytes@, base_offset as int) =~= rs + parse_stream(
                bytes@.skip(0),
                base_offset as int,
            ));
        }
        while !done
            invariant
                bytes@.len() == bytes_len <= max_size <= u32::MAX,
                cursor <= bytes_len,
                count == rs.len(),
                32 * count <= cursor,
                stream_wf(rs, base_offset as int),
                bytes@.subrange(0, cursor as int) == stream_enc(rs),
                cursor as int == stream_enc(rs).len(),
                parse_stream(bytes@, base_offset as int) == rs + parse_stream(
                    bytes@.skip(cursor as int),
                    base_offset as int + count,
                ),
                done ==> parse_stream(bytes@.skip(cursor as int), base_offset as int + count)
                    == Seq::<RecordModel>::empty(),
                positions@.len() == count,
                forall|i: int| 0 <= i < count ==> positions@[i] as int == pos_of(rs, i),
            decreases bytes@.len() - cursor, (if done {
                0int
            } else {
                1int
            }),
        {
            let ghost tail = bytes@.skip(cursor as int);
            if u64::MAX - base_offset < count as u64 {
                done = true;
                proof {
                    match parse_rec(tail) {
                        Some((g, n)) => {
                            assert(g.offset as int <= u64::MAX as int);
                            assert(parse_stream(tail, base_offset as int + count)
                                =~= Seq::<RecordModel>::empty());
                        },
                        None => {
                            assert(parse_stream(tail, base_offset as int + count)
                                =~= Seq::<RecordModel>::empty());
                        },
                    }
                }
            } else {
                let expected: u64 = base_offset + count as u64;
                match Record::from_binary(&bytes, cursor) {
                    Ok((rec, n)) => {
                        if rec.offset != expected {
                            done = true;
                            proof {
                                assert(parse_stream(tail, base_offset as int + count)
                                    =~= Seq::<RecordModel>::empty());
                            }
                        } else {
                            positions.push(cursor as u32);
                            proof {
                                lemma_parse_valid(tail);
                                let rs2 = rs.push(rec@);
                                lemma_stream_push(rs, rec@);
                                assert(rec_enc(rec@) =~= tail.subrange(0, n as int));
                                assert(bytes@.subrange(0, cursor + n) =~= stream_enc(rs2)) by {
                                    assert forall|x: int| 0 <= x < cursor + n implies bytes@
                                        .subrange(0, cursor + n)[x] == stream_enc(rs2)[x] by {
                                        if x < cursor {
                                            assert(bytes@[x] == stream_enc(rs)[x]);
                                        } else {
                                            assert(bytes@[x] == tail[x - cursor]);
                                        }
                                    }
                                }
                                assert(tail.skip(n as int) =~= bytes@.skip(cursor + n));
                                assert(parse_stream(tail, base_offset as int + count) == seq![rec@]
                                    + parse_stream(
                                    bytes@.skip(cursor + n),
                                    base_offset as int + count + 1,
                                ));
                                assert(rs + parse_stream(tail, base_offset as int + count) =~= rs2
                                    + parse_stream(
                                    bytes@.skip(cursor + n),
                                    base_offset as int + count + 1,
                                ));
                                assert(rs2.take(count as int) =~= rs);
                                assert forall|i: int|
                                    0 <= i < count + 1 implies positions@[i] as int == pos_of(
                                    rs2,
                                    i,
                                ) by {
                                    if i < count {
                                        assert(rs2.take(i) =~= rs.take(i));
                                        assert(positions@[i] as int == pos_of(rs, i));
                                    }
                                }
                                rs = rs2;
                            }
                            cursor = cursor + n;
                            count = count + 1;
                        }
                    },
                    Err(_) => {
                        done = true;
                        proof {
                            assert(parse_stream(tail, base_offset as int + count)
                                =~= Seq::<RecordModel>::empty());
                        }
                    },
                }
            }
        }
        proof {
            assert(rs + Seq::<RecordModel>::empty() =~= rs);
        }
        if !(cursor == bytes_len || bytes_len == max_size) {
            return Err(InitError::CorruptLog);
        }
        if u64::MAX - base_offset < count as u64 {
            return Err(InitError::CorruptLog);
        }
        let ghost orig = bytes@;
        let mut data = bytes;
        while data.len() < max_size
            invariant
                orig.len() <= data@.len() <= max_size,
                data@.subrange(0, orig.len() as int) == orig,
                forall|x: int| orig.len() <= x < data@.len() ==> data@[x] == 0u8,
            decreases max_size - data@.len(),
        {
            data.push(0u8);
            proof {
                assert(data@.subrange(0, orig.len() as int) =~= orig);
            }
        }
        let current_offset = base_offset + count as u64;
        let log = Log {
            data,
            max_size,
            size: bytes_len,
            base_offset,
            current_offset,
            records: Ghost(rs),
        };
        proof {
            assert(log.data@.subrange(0, log.size as int) =~= orig);
            assert(log.data@.subrange(0, log.used()) =~= stream_enc(rs)) by {
                assert(orig.subrange(0, cursor as int) == stream_enc(rs));
                assert forall|x: int| 0 <= x < cursor implies log.data@.subrange(0, log.used())[x]
                    == stream_enc(rs)[x] by {
                    assert(log.data@[x] == log.data@.subrange(0, log.size as int)[x]);
                    assert(orig[x] == orig.subrange(0, cursor as int)[x]);
                }
            }
        }
        Ok((log, positions))
    }
}

} // verus!
