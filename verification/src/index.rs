//! The sparse index.
//!
//! Per segment, an append-only array of fixed-width entries, one entry per
//! `offset_interval` records: a record's offset relative to the segment base
//! and the byte position of its frame in the log file, each a 4-byte
//! big-endian integer.  A lookup finds the sample with the greatest relative
//! offset at or below the target, so the segment only scans a bounded window
//! of the log.

use crate::codec::{be_enc, lemma_be_enc_len, lemma_pow256, read_be, write_be};
use crate::log::InitError;
use vstd::arithmetic::div_mod::lemma_fundamental_div_mod;
use vstd::arithmetic::mul::{lemma_mul_inequality, lemma_mul_strict_inequality};
use vstd::prelude::*;

verus! {

/// One index entry.
#[derive(Clone, Copy, Debug, PartialEq, Eq, Structural)]
pub struct Position {
    pub relative_offset: u32,
    pub position: u32,
}

/// The 8-byte encoding of one entry.
pub open spec fn position_enc(p: Position) -> Seq<u8> {
    be_enc(p.relative_offset as nat, 4) + be_enc(p.position as nat, 4)
}

/// The byte image of an index file: entries one after another.
pub open spec fn index_enc(es: Seq<Position>) -> Seq<u8>
    decreases es.len(),
{
    if es.len() == 0 {
        Seq::empty()
    } else {
        index_enc(es.drop_last()) + position_enc(es.last())
    }
}

pub proof fn lemma_position_enc_len(p: Position)
    ensures
        position_enc(p).len() == 8,
{
    lemma_be_enc_len(p.relative_offset as nat, 4);
    lemma_be_enc_len(p.position as nat, 4);
}

pub proof fn lemma_index_enc_push(es: Seq<Position>, p: Position)
    ensures
        index_enc(es.push(p)) == index_enc(es) + position_enc(p),
        index_enc(es.push(p)).len() == index_enc(es).len() + 8,
{
    assert(es.push(p).drop_last() =~= es);
    assert(es.push(p).last() == p);
    lemma_position_enc_len(p);
}

pub proof fn lemma_index_enc_len(es: Seq<Position>)
    ensures
        index_enc(es).len() == 8 * es.len(),
    decreases es.len(),
{
    if es.len() > 0 {
        lemma_index_enc_len(es.drop_last());
        lemma_position_enc_len(es.last());
    }
}

impl Position {
    pub fn new(relative_offset: u32, position: u32) -> (p: Position)
        ensures
            p == (Position { relative_offset, position }),
    {
        Position { relative_offset, position }
    }

    /// Appends the entry's 8-byte encoding to `out`.
    pub fn write(&self, out: &mut Vec<u8>)
        requires
            old(out).len() + 8 <= usize::MAX,
        ensures
            final(out)@ == old(out)@ + position_enc(*self),
    {
        proof {
            lemma_be_enc_len(self.relative_offset as nat, 4);
            lemma_be_enc_len(self.position as nat, 4);
        }
        write_be(out, self.relative_offset as u128, 4);
        write_be(out, self.position as u128, 4);
        proof {
            assert(out@ =~= old(out)@ + position_enc(*self));
        }
    }

    /// Decodes the entry whose encoding starts at `buf[start]`.
    pub fn from_binary(buf: &Vec<u8>, start: usize) -> (p: Position)
        requires
            start + 8 <= buf@.len(),
        ensures
            position_enc(p) == buf@.subrange(start as int, start + 8),
    {
        let buf_len: usize = buf.len();
        proof {
            lemma_pow256(4);
        }
        let relative_offset = read_be(buf, start, 4) as u32;
        let position = read_be(buf, start + 4, 4) as u32;
        let p = Position { relative_offset, position };
        proof {
            crate::codec::lemma_be_enc_dec(buf@.subrange(start as int, start + 4));
            crate::codec::lemma_be_enc_dec(buf@.subrange(start + 4, start + 8));
            assert(position_enc(p) =~= buf@.subrange(start as int, start + 8));
        }
        p
    }
}

/// Where an index lookup landed: a single sample at or before the target
/// (scan from there to the end of the written log), or two samples
/// bracketing it (scan within them).
#[derive(Clone, Copy, Debug, PartialEq, Eq)]
pub enum FindResult {
    Punctual(Position),
    Around((Position, Position)),
}

/// The greatest entry index whose relative offset is at or below `rel`,
/// or -1 when there is none.
pub open spec fn slot_of(es: Seq<Position>, rel: int) -> int
    decreases es.len(),
{
    if es.len() == 0 {
        -1
    } else if es.last().relative_offset <= rel {
        es.len() - 1
    } else {
        slot_of(es.drop_last(), rel)
    }
}

pub proof fn lemma_slot_of(es: Seq<Position>, rel: int)
    ensures
        -1 <= slot_of(es, rel) < es.len(),
        slot_of(es, rel) >= 0 ==> es[slot_of(es, rel)].relative_offset <= rel,
        forall|k: int| slot_of(es, rel) < k < es.len() ==> es[k].relative_offset > rel,
        es.len() > 0 && es[0].relative_offset <= rel ==> slot_of(es, rel) >= 0,
    decreases es.len(),
{
    if es.len() > 0 && es.last().relative_offset > rel {
        let d = es.drop_last();
        lemma_slot_of(d, rel);
        assert forall|k: int| slot_of(es, rel) < k < es.len() implies es[k].relative_offset
            > rel by {
            if k < es.len() - 1 {
                assert(d[k] == es[k]);
                assert(d[k].relative_offset > rel);
            } else {
                assert(es[k] == es.last());
            }
        }
    }
}

/// The sparse index of one segment.
pub struct Index {
    /// The decoded entries of the index file, in file order.
    pub entries: Vec<Position>,
    /// Size of the index file in bytes: 8 per entry.
    pub size: usize,
    /// Offset of the first record of the segment.
    pub base_offset: u64,
    /// One entry is sampled per this many records.
    pub offset_interval: usize,
}

/// The entries a log with the given record positions must carry: one sample
/// per `interval` records, at relative offsets `interval, 2 * interval, ...`,
/// each pointing at that record's byte position.
pub open spec fn expected_entries(positions: Seq<u32>, interval: int) -> Seq<Position> {
    let count = positions.len() as int;
    let k = if count == 0 {
        0int
    } else {
        (count - 1) / interval
    };
    Seq::new(
        k as nat,
        |j: int|
            Position {
                relative_offset: ((j + 1) * interval) as u32,
                position: positions[(j + 1) * interval],
            },
    )
}

impl Index {
    pub open spec fn wf(&self) -> bool {
        &&& self.size == self.entries@.len() * 8
        &&& self.offset_interval >= 1
        &&& forall|j: int, k: int|
            0 <= j < k < self.entries@.len() ==> (#[trigger] self.entries@[j]).relative_offset < (
            #[trigger] self.entries@[k]).relative_offset
    }

    /// A fresh, empty index.
    pub fn new(base_offset: u64, offset_interval: usize) -> (idx: Index)
        requires
            offset_interval >= 1,
        ensures
            idx.wf(),
            idx.base_offset == base_offset,
            idx.offset_interval == offset_interval,
            idx.size == 0,
            idx.entries@ == Seq::<Position>::empty(),
    {
        Index { entries: Vec::new(), size: 0, base_offset, offset_interval }
    }

    /// Appends the sample for the record at `offset`, whose frame starts at
    /// byte `log_position`.  The caller guarantees monotonic increase.
    pub fn append_position(&mut self, offset: u64, log_position: u32)
        requires
            old(self).wf(),
            old(self).base_offset <= offset,
            offset - old(self).base_offset <= u32::MAX,
            old(self).entries@.len() > 0 ==> (old(self).entries@.last().relative_offset as int) < offset - old(self).base_offset,
            old(self).size + 8 <= usize::MAX,
        ensures
            final(self).wf(),
            final(self).entries@ == old(self).entries@.push(
                Position {
                    relative_offset: (offset - old(self).base_offset) as u32,
                    position: log_position,
                },
            ),
            final(self).size == old(self).size + 8,
            final(self).base_offset == old(self).base_offset,
            final(self).offset_interval == old(self).offset_interval,
    {
        let relative_offset = (offset - self.base_offset) as u32;
        let new_row = Position { relative_offset, position: log_position };
        self.entries.push(new_row);
        self.size = self.size + 8;
    }

    /// Looks up the samples around the absolute offset `offset`.
    ///
    /// With no samples yet, the result is the sentinel sample `(0, 0)` —
    /// scan the log from its start.  When the target lies before the first
    /// sample, the sentinel and that sample bracket it.  Otherwise the
    /// greatest sample at or below the target begins the window, closed by
    /// its successor when one exists.
    pub fn find_offset(&self, offset: u64) -> (r: FindResult)
        requires
            self.wf(),
            self.base_offset <= offset,
            offset - self.base_offset <= u32::MAX,
        ensures
            ({
                let es = self.entries@;
                let rel = offset - self.base_offset;
                if es.len() == 0 {
                    r == FindResult::Punctual(Position { relative_offset: 0, position: 0 })
                } else if rel < es[0].relative_offset {
                    r == FindResult::Around(
                        (Position { relative_offset: 0, position: 0 }, es[0]),
                    )
                } else {
                    let i = slot_of(es, rel);
                    &&& 0 <= i < es.len()
                    &&& es[i].relative_offset <= rel
                    &&& (i < es.len() - 1 ==> rel < es[i + 1].relative_offset)
                    &&& if i == es.len() - 1 {
                        r == FindResult::Punctual(es[i])
                    } else {
                        r == FindResult::Around((es[i], es[i + 1]))
                    }
                }
            }),
    {
        let ghost es = self.entries@;
        let ghost rel_spec = offset - self.base_offset;
        let n = self.entries.len();
        if n == 0 {
            return FindResult::Punctual(Position::new(0, 0));
        }
        let rel: u64 = offset - self.base_offset;
        if rel < self.entries[0].relative_offset as u64 {
            return FindResult::Around((Position::new(0, 0), self.entries[0]));
        }
        let mut lo: usize = 0;
        let mut hi: usize = n;
        while lo + 1 < hi
            invariant
                0 <= lo < hi <= n,
                n == es.len(),
                es == self.entries@,
                self.wf(),
                es[lo as int].relative_offset <= rel,
                rel == rel_spec,
                hi < n ==> rel < es[hi as int].relative_offset,
            decreases hi - lo,
        {
            let mid = lo + (hi - lo) / 2;
            if self.entries[mid].relative_offset as u64 <= rel {
                lo = mid;
            } else {
                hi = mid;
            }
        }
        proof {
            lemma_slot_of(es, rel_spec as int);
            let s = slot_of(es, rel_spec as int);
            assert forall|k: int| lo < k < es.len() implies es[k].relative_offset > rel_spec by {
                if k > hi as int {
                    assert(es[hi as int].relative_offset < es[k].relative_offset);
                }
            }
            if s < lo {
                assert(es[lo as int].relative_offset > rel_spec);
                assert(false);
            }
            if s > lo {
                assert(es[s].relative_offset > rel_spec);
                assert(false);
            }
            assert(s == lo);
        }
        if hi == n {
            FindResult::Punctual(self.entries[lo])
        } else {
            FindResult::Around((self.entries[lo], self.entries[lo + 1]))
        }
    }

    /// The byte image of the index file.
    pub fn to_bytes(&self) -> (r: Vec<u8>)
        requires
            self.entries@.len() * 8 <= usize::MAX,
        ensures
            r@ == index_enc(self.entries@),
    {
        encode_entries(&self.entries)
    }

    /// Rebuilds an index from the bytes of its file, holding them against
    /// the samples the recovered log calls for: `positions` are the byte
    /// positions of the log's records.  Fails when the file differs from
    /// those samples in any way.
    pub fn load_from_disk(
        bytes: &Vec<u8>,
        base_offset: u64,
        offset_interval: usize,
        positions: &Vec<u32>,
    ) -> (r: Result<Index, InitError>)
        requires
            offset_interval >= 1,
            positions@.len() <= u32::MAX,
            positions@.len() * 8 <= usize::MAX,
        ensures
            match r {
                Ok(idx) => {
                    &&& bytes@ == index_enc(expected_entries(positions@, offset_interval as int))
                    &&& idx.wf()
                    &&& idx.entries@ == expected_entries(positions@, offset_interval as int)
                    &&& idx.base_offset == base_offset
                    &&& idx.offset_interval == offset_interval
                    &&& idx.size == bytes@.len()
                },
                Err(e) => {
                    &&& e == InitError::CorruptIndex
                    &&& bytes@ != index_enc(expected_entries(positions@, offset_interval as int))
                },
            },
    {
        let ghost expected = expected_entries(positions@, offset_interval as int);
        let count = positions.len();
        let k: usize = if count == 0 {
            0
        } else {
            (count - 1) / offset_interval
        };
        proof {
            if count > 0 {
                lemma_fundamental_div_mod((count - 1) as int, offset_interval as int);
            }
            assert(expected.len() == k);
        }
        let mut es: Vec<Position> = Vec::new();
        let mut j: usize = 0;
        while j < k
            invariant
                j <= k,
                k == expected.len(),
                expected == expected_entries(positions@, offset_interval as int),
                count == positions@.len() <= u32::MAX,
                offset_interval >= 1,
                count > 0 ==> k * offset_interval <= count - 1,
                es@ == expected.subrange(0, j as int),
            decreases k - j,
        {
            proof {
                lemma_mul_inequality(j + 1, k as int, offset_interval as int);
                lemma_mul_strict_inequality(j as int, j + 1, offset_interval as int);
            }
            let rel: usize = (j + 1) * offset_interval;
            es.push(Position { relative_offset: rel as u32, position: positions[rel] });
            proof {
                assert(es@ =~= expected.subrange(0, j + 1));
            }
            j = j + 1;
        }
        proof {
            assert(es@ =~= expected);
            lemma_index_enc_len(expected);
            if count > 0 {
                vstd::arithmetic::div_mod::lemma_div_nonincreasing(
                    (count - 1) as int,
                    offset_interval as int,
                );
                lemma_mul_inequality(k as int, count as int, 8);
            }
        }
        let expected_bytes = encode_entries(&es);
        if !bytes_equal(bytes, &expected_bytes) {
            return Err(InitError::CorruptIndex);
        }
        proof {
            lemma_expected_sorted(positions@, offset_interval as int);
        }
        Ok(
            Index {
                entries: es,
                size: bytes.len(),
                base_offset,
                offset_interval,
            },
        )
    }
}

/// The relative offsets of the expected samples are strictly increasing.
pub proof fn lemma_expected_sorted(positions: Seq<u32>, interval: int)
    requires
        interval >= 1,
        positions.len() <= u32::MAX,
    ensures
        ({
            let es = expected_entries(positions, interval);
            forall|j: int, k: int|
                0 <= j < k < es.len() ==> (#[trigger] es[j]).relative_offset < (
                #[trigger] es[k]).relative_offset
        }),
{
    let es = expected_entries(positions, interval);
    let count = positions.len() as int;
    if count > 0 {
        lemma_fundamental_div_mod(count - 1, interval);
    }
    assert forall|j: int, k: int|
        0 <= j < k < es.len() implies (#[trigger] es[j]).relative_offset < (
    #[trigger] es[k]).relative_offset by {
        lemma_mul_strict_inequality(j + 1, k + 1, interval);
        lemma_mul_inequality(k + 1, es.len() as int, interval);
        assert(es.len() * interval <= count - 1) by {
            lemma_mul_inequality(es.len() as int, (count - 1) / interval, interval);
            vstd::arithmetic::mul::lemma_mul_is_commutative(es.len() as int, interval);
            vstd::arithmetic::mul::lemma_mul_is_commutative((count - 1) / interval, interval);
        }
    }
}

/// Serializes index entries into the index file's byte image.
pub fn encode_entries(es: &Vec<Position>) -> (r: Vec<u8>)
    requires
        es@.len() * 8 <= usize::MAX,
    ensures
        r@ == index_enc(es@),
{
    let n = es.len();
    let mut out: Vec<u8> = Vec::new();
    let mut j: usize = 0;
    proof {
        assert(out@ =~= index_enc(es@.subrange(0, 0)));
    }
    while j < n
        invariant
            j <= n,
            n == es@.len(),
            n * 8 <= usize::MAX,
            out@ == index_enc(es@.subrange(0, j as int)),
            out@.len() == 8 * j,
        decreases n - j,
    {
        proof {
            lemma_mul_inequality(j + 1, n as int, 8);
            vstd::arithmetic::mul::lemma_mul_is_commutative(j + 1, 8);
            vstd::arithmetic::mul::lemma_mul_is_commutative(n as int, 8);
            lemma_index_enc_push(es@.subrange(0, j as int), es@[j as int]);
            assert(es@.subrange(0, j as int).push(es@[j as int]) =~= es@.subrange(0, j + 1));
        }
        let e = es[j];
        e.write(&mut out);
        j = j + 1;
    }
    proof {
        assert(es@.subrange(0, n as int) =~= es@);
    }
    out
}

/// Whether two byte vectors hold the same bytes.
pub fn bytes_equal(a: &Vec<u8>, b: &Vec<u8>) -> (r: bool)
    ensures
        r == (a@ == b@),
{
    if a.len() != b.len() {
        proof {
            assert(a@.len() != b@.len());
        }
        return false;
    }
    let n = a.len();
    let mut j: usize = 0;
    while j < n
        invariant
            j <= n,
            n == a@.len() == b@.len(),
            forall|x: int| 0 <= x < j ==> a@[x] == b@[x],
        decreases n - j,
    {
        if a[j] != b[j] {
            return false;
        }
        j = j + 1;
    }
    proof {
        assert(a@ =~= b@);
    }
    true
}

} // verus!
