//! The segment: one log image and its sparse index under a shared base
//! offset.
//!
//! The segment enforces capacity (a record that does not fit leaves the
//! segment untouched and signals the partition to roll over), samples the
//! index — one entry whenever the distance to the previously sampled offset
//! reaches `offset_interval` — and answers offset reads by an index lookup
//! followed by a bounded forward scan of the log.

use crate::index::{expected_entries, FindResult, Index, Position, index_enc};
use crate::log::{InitError, Log};
use crate::record::{
    key_len, lemma_parse_enc, opt_bytes, rec_enc, rec_size, rec_valid, Record, RecordModel,
};
use crate::stream::{
    lemma_parse_at, lemma_pos_bounds, lemma_pos_step, parse_stream, pos_of, stream_enc, stream_wf,
};
use vstd::arithmetic::div_mod::lemma_fundamental_div_mod;
use vstd::arithmetic::mul::{
    lemma_mul_basics, lemma_mul_inequality, lemma_mul_is_distributive_add_other_way,
};
use vstd::prelude::*;

verus! {

/// Errors of segment operations.
#[derive(Clone, Copy, Debug, PartialEq, Eq)]
pub enum SegmentError {
    /// The record does not fit in the remaining capacity; the partition
    /// rolls over to a fresh segment.
    FullSegment,
    /// A read names an offset the segment does not hold.
    OffsetOutOfRange,
}

/// One segment of the partition.
pub struct Segment {
    pub log: Log,
    pub index: Index,
    /// Offset of the first record; also the stem of both file names.
    pub base_offset: u64,
    /// The offset at which the most recent index entry was sampled, or
    /// `base_offset` when there is none.
    pub prev_offset: u64,
    /// One index entry is sampled per this many records.
    pub offset_interval: usize,
    /// Whether the segment is the partition's tail and accepts appends.
    pub active: bool,
}

proof fn lemma_step_mul(k: int, i: int)
    ensures
        (k + 1) * i == k * i + i,
{
    lemma_mul_is_distributive_add_other_way(i, k, 1);
    lemma_mul_basics(i);
}

impl Segment {
    /// The records the segment holds, oldest first.
    pub open spec fn records(&self) -> Seq<RecordModel> {
        self.log.records@
    }

    /// How many records the segment holds.
    pub open spec fn count(&self) -> int {
        self.log.records@.len() as int
    }

    /// The segment's index entries.
    pub open spec fn entries(&self) -> Seq<Position> {
        self.index.entries@
    }

    pub open spec fn wf(&self) -> bool {
        let kk = self.entries().len() as int;
        let i = self.offset_interval as int;
        &&& self.log.wf()
        &&& self.index.wf()
        &&& self.base_offset == self.log.base_offset
        &&& self.base_offset == self.index.base_offset
        &&& self.offset_interval == self.index.offset_interval
        &&& self.offset_interval >= 1
        &&& (self.count() == 0 ==> kk == 0)
        &&& (self.count() >= 1 ==> kk * i < self.count() && self.count() <= (kk + 1) * i)
        &&& forall|j: int|
            0 <= j < kk ==> {
                &&& (#[trigger] self.entries()[j]).relative_offset as int == (j + 1) * i
                &&& self.entries()[j].position as int == pos_of(self.records(), (j + 1) * i)
            }
        &&& self.prev_offset as int == self.base_offset as int + kk * i
    }

    /// Capacity, sampling stride and record count keep every relative offset
    /// and byte position of the segment inside the 32-bit entry fields.
    pub proof fn lemma_count_bound(&self)
        requires
            self.wf(),
        ensures
            32 * self.count() <= self.log.size <= u32::MAX,
            self.count() <= self.base_offset as int + self.count() <= u64::MAX,
    {
        lemma_pos_bounds(self.records(), 0, self.count());
    }

    /// A fresh, empty, zero-filled segment.
    pub fn new(base_offset: u64, offset_interval: usize, max_size: usize, active: bool) -> (s:
        Segment)
        requires
            offset_interval >= 1,
            max_size <= u32::MAX,
        ensures
            s.wf(),
            s.base_offset == base_offset,
            s.offset_interval == offset_interval,
            s.active == active,
            s.log.max_size == max_size,
            s.log.size == 0,
            s.count() == 0,
            s.records() == Seq::<RecordModel>::empty(),
            s.entries() == Seq::<Position>::empty(),
            forall|x: int| 0 <= x < s.log.data@.len() ==> s.log.data@[x] == 0u8,
    {
        let log = Log::new(base_offset, max_size);
        let index = Index::new(base_offset, offset_interval);
        proof {
            lemma_mul_basics(offset_interval as int);
        }
        Segment {
            log,
            index,
            base_offset,
            prev_offset: base_offset,
            offset_interval,
            active,
        }
    }

    /// The next offset the segment will assign.
    pub fn latest_offset(&self) -> (r: u64)
        ensures
            r == self.log.current_offset,
    {
        self.log.current_offset
    }

    /// The number of bytes written to the log.
    pub fn size(&self) -> (r: usize)
        ensures
            r == self.log.size,
    {
        self.log.size
    }

    /// Marks the segment sealed: the partition no longer appends to it.
    pub fn seal(&mut self)
        ensures
            *final(self) == (Segment { active: false, ..*old(self) }),
    {
        self.active = false;
    }

    /// Appends a record at the tail, assigning it the next offset, and
    /// samples the index when the sampling stride is reached.  When the
    /// record's frame does not fit the remaining capacity, the segment is
    /// left untouched and `FullSegment` asks the partition to roll over.
    pub fn append_record(&mut self, key: Option<Vec<u8>>, value: &[u8]) -> (r: Result<
        (),
        SegmentError,
    >)
        requires
            old(self).wf(),
            (key matches Some(k) ==> k@.len() >= 1),
            32 + key_len(opt_bytes(key)) + value@.len() <= u32::MAX,
            old(self).log.current_offset < u64::MAX,
        ensures
            final(self).wf(),
            final(self).base_offset == old(self).base_offset,
            final(self).offset_interval == old(self).offset_interval,
            final(self).active == old(self).active,
            final(self).log.max_size == old(self).log.max_size,
            match r {
                Ok(()) => {
                    let rs = final(self).records();
                    &&& old(self).log.max_size - old(self).log.size >= 32 + key_len(
                        opt_bytes(key),
                    ) + value@.len()
                    &&& rs.len() == old(self).count() + 1
                    &&& rs == old(self).records().push(rs.last())
                    &&& rs.last().offset == old(self).log.current_offset
                    &&& rs.last().key == opt_bytes(key)
                    &&& rs.last().value == value@
                    &&& final(self).log.current_offset == old(self).log.current_offset + 1
                    &&& final(self).log.size == old(self).log.size + 32 + key_len(opt_bytes(key))
                        + value@.len()
                },
                Err(SegmentError::FullSegment) => {
                    &&& old(self).log.max_size - old(self).log.size < 32 + key_len(opt_bytes(key))
                        + value@.len()
                    &&& *final(self) == *old(self)
                },
                Err(_) => false,
            },
    {
        proof {
            self.lemma_count_bound();
        }
        let value_vec = crate::record::slice_to_vec(value);
        let record = Record::new(self.log.current_offset, key, value_vec);
        let bs = record.binary_size();
        if !self.log.can_fit(bs) {
            return Err(SegmentError::FullSegment);
        }
        let mut buffer: Vec<u8> = Vec::new();
        record.write(&mut buffer);
        proof {
            lemma_parse_enc(record@, Seq::empty());
            crate::record::lemma_rec_enc_len(record@);
            assert(rec_enc(record@) + Seq::<u8>::empty() =~= rec_enc(record@));
            assert(buffer@ =~= rec_enc(record@));
            assert(self.log.size as int == self.log.used()) by {
                lemma_pos_bounds(self.records(), 0, self.count());
            }
        }
        let (last_offset, log_position) = self.log.append_record(&buffer);
        let ghost c = old(self).count();
        let ghost kk = old(self).entries().len() as int;
        let ghost i = self.offset_interval as int;
        let ghost rs2 = self.log.records@;
        proof {
            assert(rs2 =~= old(self).records().push(record@));
            assert(rs2.take(c) =~= old(self).records());
            assert forall|j: int| 0 <= j <= c implies #[trigger] pos_of(rs2, j) == pos_of(
                old(self).records(),
                j,
            ) by {
                assert(rs2.take(j) =~= old(self).records().take(j));
            }
            if c >= 1 {
                lemma_step_mul(kk, i);
            } else {
                lemma_mul_basics(i);
            }
        }
        if last_offset - self.prev_offset >= self.offset_interval as u64 {
            proof {
                // The sampling stride is reached exactly when the new count
                // lands on the next whole multiple of the interval.
                lemma_step_mul(kk, i);
                lemma_mul_basics(i);
                assert(c >= 1);
                assert(c == (kk + 1) * i);
                lemma_mul_inequality(1, i, kk + 1);
                vstd::arithmetic::mul::lemma_mul_is_commutative(1, kk + 1);
                vstd::arithmetic::mul::lemma_mul_is_commutative(i, kk + 1);
                lemma_mul_basics(kk + 1);
                assert(kk + 1 <= c);
                lemma_step_mul(kk, 8);
                lemma_mul_inequality(kk + 1, c, 8);
                lemma_mul_inequality(c, 4 * c, 8);
            }
            self.index.append_position(last_offset, log_position);
            self.prev_offset = last_offset;
            proof {
                lemma_step_mul(kk + 1, i);
                assert forall|j: int| 0 <= j < kk + 1 implies {
                    &&& (#[trigger] self.entries()[j]).relative_offset as int == (j + 1) * i
                    &&& self.entries()[j].position as int == pos_of(self.records(), (j + 1) * i)
                } by {
                    if j < kk {
                        assert(old(self).entries()[j] == self.entries()[j]);
                        lemma_mul_inequality(j + 1, kk, i);
                    } else {
                        assert(self.entries()[j].relative_offset as int == c);
                        assert(pos_of(rs2, c) == old(self).log.size) by {
                            assert(rs2.take(c) =~= old(self).records());
                        }
                    }
                }
                assert(self.index.wf()) by {
                    assert forall|j: int, k: int|
                        0 <= j < k < self.entries().len() implies (
                    #[trigger] self.entries()[j]).relative_offset < (
                    #[trigger] self.entries()[k]).relative_offset by {
                        vstd::arithmetic::mul::lemma_mul_strict_inequality(j + 1, k + 1, i);
                    }
                }
            }
            Ok(())
        } else {
            proof {
                if c >= 1 {
                    lemma_step_mul(kk, i);
                }
                assert forall|j: int| 0 <= j < kk implies {
                    &&& (#[trigger] self.entries()[j]).relative_offset as int == (j + 1) * i
                    &&& self.entries()[j].position as int == pos_of(self.records(), (j + 1) * i)
                } by {
                    assert(old(self).entries()[j] == self.entries()[j]);
                    lemma_mul_inequality(j + 1, kk, i);
                }
            }
            Ok(())
        }
    }

    /// Rebuilds a segment from the bytes of its two files, as read from
    /// disk.  The log's records are recovered by the scan of
    /// `Log::load_from_disk`, the index file is held against the samples
    /// those records call for, and the previously sampled offset is the one
    /// of the last index entry, or the base when there is none.
    pub fn load_from_disk(
        base_offset: u64,
        offset_interval: usize,
        max_size: usize,
        active: bool,
        log_bytes: Vec<u8>,
        index_bytes: &Vec<u8>,
    ) -> (r: Result<Segment, InitError>)
        requires
            offset_interval >= 1,
            max_size <= u32::MAX,
        ensures
            match r {
                Ok(s) => {
                    &&& s.wf()
                    &&& s.base_offset == base_offset
                    &&& s.offset_interval == offset_interval
                    &&& s.active == active
                    &&& s.log.max_size == max_size
                    &&& s.log.size == log_bytes@.len()
                    &&& s.records() == parse_stream(log_bytes@, base_offset as int)
                    &&& crate::log::log_ok(log_bytes@, base_offset, max_size as int)
                    &&& index_bytes@ == index_enc(
                        expected_entries(
                            crate::stream::spec_positions(s.records()),
                            offset_interval as int,
                        ),
                    )
                },
                Err(e) => {
                    ||| (e == InitError::CorruptLog && !crate::log::log_ok(
                        log_bytes@,
                        base_offset,
                        max_size as int,
                    ))
                    ||| (e == InitError::CorruptIndex && crate::log::log_ok(
                        log_bytes@,
                        base_offset,
                        max_size as int,
                    ) && index_bytes@ != index_enc(
                        expected_entries(
                            crate::stream::spec_positions(
                                parse_stream(log_bytes@, base_offset as int),
                            ),
                            offset_interval as int,
                        ),
                    ))
                },
            },
    {
        let ghost spec_rs = parse_stream(log_bytes@, base_offset as int);
        let (log, positions) = match Log::load_from_disk(log_bytes, base_offset, max_size) {
            Ok(p) => p,
            Err(e) => {
                return Err(e);
            },
        };
        let ghost rs = log.records@;
        let ghost c = rs.len() as int;
        let ghost i = offset_interval as int;
        proof {
            lemma_pos_bounds(rs, 0, c);
            assert forall|j: int| 0 <= j < c implies positions@[j]
                == crate::stream::spec_positions(rs)[j] by {
                lemma_pos_bounds(rs, j, c);
            }
            assert(positions@ =~= crate::stream::spec_positions(rs));
        }
        let index = match Index::load_from_disk(
            index_bytes,
            base_offset,
            offset_interval,
            &positions,
        ) {
            Ok(ix) => ix,
            Err(e) => {
                return Err(e);
            },
        };
        let kk = index.entries.len();
        proof {
            if c > 0 {
                lemma_fundamental_div_mod(c - 1, i);
                lemma_step_mul(kk as int, i);
                vstd::arithmetic::mul::lemma_mul_is_commutative(kk as int, i);
            } else {
                lemma_mul_basics(i);
            }
            assert forall|j: int| 0 <= j < kk implies {
                &&& ((#[trigger] index.entries@[j]).relative_offset as int) == (j + 1) * i
                &&& index.entries@[j].position as int == pos_of(rs, (j + 1) * i)
            } by {
                lemma_mul_inequality(j + 1, kk as int, i);
                assert((kk as int) * i <= c - 1);
                let x = (j + 1) * i;
                assert(0 <= x <= c - 1);
                assert(index.entries@[j] == expected_entries(positions@, i)[j]);
                assert(expected_entries(positions@, i)[j].relative_offset == (x as u32));
                assert(expected_entries(positions@, i)[j].position == positions@[x]);
                assert(positions@[x] as int == pos_of(rs, x));
                lemma_pos_bounds(rs, x, c);
            }
            if kk > 0 {
                lemma_mul_inequality(1, kk as int, i);
            }
        }
        let stride: usize = kk * offset_interval;
        let prev_offset: u64 = base_offset + stride as u64;
        Ok(Segment { log, index, base_offset, prev_offset, offset_interval, active })
    }

    /// Reads the record at absolute offset `offset`: an index lookup yields
    /// a sample at or before the target, and a forward scan of at most one
    /// sampling window decodes records up to the target.
    pub fn read_at(&self, offset: u64) -> (r: Result<Record, SegmentError>)
        requires
            self.wf(),
        ensures
            match r {
                Ok(rec) => {
                    &&& self.base_offset <= offset
                    &&& (offset as int) < self.base_offset as int + self.count()
                    &&& rec@ == self.records()[offset - self.base_offset]
                },
                Err(SegmentError::OffsetOutOfRange) => !(self.base_offset <= offset && (
                offset as int) < self.base_offset as int + self.count()),
                Err(_) => false,
            },
    {
        proof {
            self.lemma_count_bound();
        }
        if offset < self.base_offset || offset >= self.log.current_offset {
            return Err(SegmentError::OffsetOutOfRange);
        }
        let rel: u64 = offset - self.base_offset;
        let ghost rs = self.records();
        let ghost reli = rel as int;
        let ghost es = self.entries();
        let ghost i = self.offset_interval as int;
        let ghost kk = es.len() as int;
        let fr = self.index.find_offset(offset);
        let (begin_rel, begin_pos, end) = match fr {
            FindResult::Punctual(p) => (p.relative_offset, p.position, self.log.size),
            FindResult::Around(pair) => (
                pair.0.relative_offset,
                pair.0.position,
                pair.1.position as usize,
            ),
        };
        proof {
            lemma_pos_bounds(rs, 0, rs.len() as int);
            lemma_pos_bounds(rs, reli + 1, rs.len() as int);
            assert forall|j: int| 0 <= j < kk implies ((#[trigger] es[j]).relative_offset as int)
                < rs.len() by {
                lemma_mul_inequality(j + 1, kk, i);
            }
            if es.len() == 0 {
            } else if reli < es[0].relative_offset {
                lemma_pos_bounds(rs, reli + 1, es[0].relative_offset as int);
            } else {
                let s = crate::index::slot_of(es, reli);
                if s == kk - 1 {
                } else {
                    lemma_pos_bounds(rs, reli + 1, es[s + 1].relative_offset as int);
                }
            }
            assert(begin_rel as int <= reli);
            assert(begin_pos as int == pos_of(rs, begin_rel as int));
            assert(pos_of(rs, reli + 1) <= end <= self.log.data@.len());
            lemma_pos_bounds(rs, begin_rel as int, reli + 1);
        }
        let slice = self.log.read_at(begin_pos as usize, end);
        let cnt: u64 = rel - (begin_rel as u64) + 1;
        let mut k: u64 = 0;
        let mut cursor: usize = 0;
        let mut found: Option<Record> = None;
        while k < cnt
            invariant
                self.wf(),
                rs == self.records(),
                self.base_offset <= offset,
                rel == offset - self.base_offset,
                reli == rel as int,
                reli < rs.len(),
                begin_rel as int <= reli,
                begin_pos as int == pos_of(rs, begin_rel as int),
                slice@ == self.log.data@.subrange(begin_pos as int, end as int),
                pos_of(rs, reli + 1) <= end <= self.log.data@.len(),
                k <= cnt,
                cnt == reli - begin_rel + 1,
                cursor as int == pos_of(rs, begin_rel + k) - begin_pos,
                k >= 1 ==> (found matches Some(rec) && rec@ == rs[begin_rel + k - 1]),
                k == 0 ==> found is None,
            decreases cnt - k,
    {
            let ghost idx = begin_rel + k;
            proof {
                lemma_pos_bounds(rs, idx + 1, reli + 1);
                lemma_pos_bounds(rs, begin_rel as int, idx as int);
                lemma_pos_bounds(rs, idx as int, idx + 1);
                lemma_parse_at(rs, self.log.data@, self.base_offset as int, idx as int, end as int);
                assert(slice@.skip(cursor as int) =~= self.log.data@.subrange(
                    pos_of(rs, idx as int),
                    end as int,
                ));
            }
            match Record::from_binary(&slice, cursor) {
                Ok((rec, n)) => {
                    proof {
                        lemma_pos_step(rs, idx as int);
                    }
                    found = Some(rec);
                    cursor = cursor + n;
                    k = k + 1;
                },
                Err(_) => {
                    proof {
                        assert(false);
                    }
                    return Err(SegmentError::OffsetOutOfRange);
                },
            }
        }
        match found {
            Some(rec) => Ok(rec),
            None => {
                proof {
                    assert(false);
                }
                Err(SegmentError::OffsetOutOfRange)
            },
        }
    }
}

/// The relative offsets in a well-formed segment's index are strictly
/// increasing, and are exactly the whole multiples of the sampling interval:
/// each offset is sampled the first time its distance from the previously
/// sampled offset reaches the interval.
pub proof fn lemma_index_monotonicity(s: &Segment)
    requires
        s.wf(),
    ensures
        forall|j: int, k: int|
            0 <= j < k < s.entries().len() ==> (#[trigger] s.entries()[j]).relative_offset < (
            #[trigger] s.entries()[k]).relative_offset,
        forall|j: int|
            0 <= j < s.entries().len() ==> (#[trigger] s.entries()[j]).relative_offset as int == (j
                + 1) * s.offset_interval,
{
}

} // verus!
