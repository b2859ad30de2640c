//! Record streams: the byte image of a sequence of records.
//!
//! A segment's log file holds the frames of its records one after another,
//! starting at byte 0.  `stream_enc` is that concatenation, `pos_of` gives
//! each record's byte position in it, and `parse_stream` recovers the records
//! from raw bytes, stopping at the first frame that does not decode or whose
//! offset breaks the contiguous numbering — the recovery scan run at load
//! time.

use crate::codec::lemma_be_dec_zero;
use crate::record::{
    lemma_parse_enc, lemma_parse_valid, lemma_rec_enc_len, parse_rec, rec_enc, rec_size, rec_valid,
    RecordModel,
};
use vstd::prelude::*;

verus! {

/// The concatenated frames of `rs`.
pub open spec fn stream_enc(rs: Seq<RecordModel>) -> Seq<u8>
    decreases rs.len(),
{
    if rs.len() == 0 {
        Seq::empty()
    } else {
        stream_enc(rs.drop_last()) + rec_enc(rs.last())
    }
}

/// The byte position where record `i`'s frame starts within the stream.
pub open spec fn pos_of(rs: Seq<RecordModel>, i: int) -> int {
    stream_enc(rs.take(i)).len() as int
}

/// Every record is valid and carries offset `next + i` at index `i`.
pub open spec fn stream_wf(rs: Seq<RecordModel>, next: int) -> bool {
    forall|i: int|
        0 <= i < rs.len() ==> rec_valid(#[trigger] rs[i]) && rs[i].offset == next + i
}

pub proof fn lemma_stream_push(rs: Seq<RecordModel>, r: RecordModel)
    ensures
        stream_enc(rs.push(r)) == stream_enc(rs) + rec_enc(r),
{
    assert(rs.push(r).drop_last() =~= rs);
    assert(rs.push(r).last() == r);
}

pub proof fn lemma_stream_cons(rs: Seq<RecordModel>)
    requires
        rs.len() >= 1,
    ensures
        stream_enc(rs) == rec_enc(rs[0]) + stream_enc(rs.skip(1)),
    decreases rs.len(),
{
    if rs.len() == 1 {
        assert(rs.drop_last() =~= Seq::<RecordModel>::empty());
        assert(rs.skip(1) =~= Seq::<RecordModel>::empty());
        assert(rec_enc(rs[0]) + stream_enc(rs.skip(1)) =~= rec_enc(rs.last()));
        assert(stream_enc(rs) =~= Seq::<u8>::empty() + rec_enc(rs.last()));
    } else {
        let d = rs.drop_last();
        lemma_stream_cons(d);
        assert(d.skip(1) =~= rs.skip(1).drop_last());
        assert(rs.skip(1).last() == rs.last());
        assert(stream_enc(rs.skip(1)) == stream_enc(d.skip(1)) + rec_enc(rs.last()));
        assert(stream_enc(rs) =~= rec_enc(rs[0]) + stream_enc(rs.skip(1)));
    }
}

/// The stream of a prefix is a prefix of the stream.
pub proof fn lemma_stream_prefix(rs: Seq<RecordModel>, j: int)
    requires
        0 <= j <= rs.len(),
    ensures
        0 <= pos_of(rs, j) <= stream_enc(rs).len(),
        stream_enc(rs).subrange(0, pos_of(rs, j)) == stream_enc(rs.take(j)),
    decreases rs.len(),
{
    if j == rs.len() {
        assert(rs.take(j) =~= rs);
        assert(stream_enc(rs).subrange(0, stream_enc(rs).len() as int) =~= stream_enc(rs));
    } else {
        let d = rs.drop_last();
        assert(rs.take(j) =~= d.take(j));
        lemma_stream_prefix(d, j);
        assert(stream_enc(rs).subrange(0, pos_of(rs, j)) =~= stream_enc(d).subrange(
            0,
            pos_of(d, j),
        ));
    }
}

/// Successive record positions differ by exactly one frame.
pub proof fn lemma_pos_step(rs: Seq<RecordModel>, i: int)
    requires
        0 <= i < rs.len(),
    ensures
        pos_of(rs, i + 1) == pos_of(rs, i) + rec_size(rs[i]),
        stream_enc(rs.take(i + 1)) == stream_enc(rs.take(i)) + rec_enc(rs[i]),
{
    assert(rs.take(i + 1).drop_last() =~= rs.take(i));
    assert(rs.take(i + 1).last() == rs[i]);
    lemma_rec_enc_len(rs[i]);
}

/// Record positions are monotone, start at zero, and end at the stream's
/// length; a valid record's frame takes at least 32 bytes.
pub proof fn lemma_pos_bounds(rs: Seq<RecordModel>, i: int, j: int)
    requires
        0 <= i <= j <= rs.len(),
    ensures
        0 <= pos_of(rs, i) <= pos_of(rs, j) <= stream_enc(rs).len(),
        pos_of(rs, 0) == 0,
        pos_of(rs, rs.len() as int) == stream_enc(rs).len(),
        pos_of(rs, j) - pos_of(rs, i) >= 32 * (j - i),
    decreases j - i,
{
    assert(rs.take(0) =~= Seq::<RecordModel>::empty());
    assert(rs.take(rs.len() as int) =~= rs);
    lemma_stream_prefix(rs, i);
    lemma_stream_prefix(rs, j);
    if i < j {
        lemma_pos_step(rs, i);
        lemma_rec_enc_len(rs[i]);
        lemma_pos_bounds(rs, i + 1, j);
    }
}

/// The bytes of the stream at record `i`'s position are its frame, and a
/// parse there, in any buffer that carries the stream as a prefix and up to
/// any end at or past the frame, yields exactly record `i`.
pub proof fn lemma_parse_at(rs: Seq<RecordModel>, d: Seq<u8>, next: int, i: int, end: int)
    requires
        stream_wf(rs, next),
        stream_enc(rs).len() <= d.len(),
        d.subrange(0, stream_enc(rs).len() as int) == stream_enc(rs),
        0 <= i < rs.len(),
        pos_of(rs, i + 1) <= end <= d.len(),
    ensures
        parse_rec(d.subrange(pos_of(rs, i), end)) == Some((rs[i], rec_size(rs[i]) as int)),
{
    let p = pos_of(rs, i);
    let q = pos_of(rs, i + 1);
    lemma_pos_step(rs, i);
    lemma_pos_bounds(rs, i + 1, rs.len() as int);
    lemma_pos_bounds(rs, 0, i);
    lemma_stream_prefix(rs, i);
    lemma_stream_prefix(rs, i + 1);
    lemma_rec_enc_len(rs[i]);
    let s = stream_enc(rs);
    assert(s.subrange(p, q) =~= rec_enc(rs[i])) by {
        assert(s.subrange(0, q) == stream_enc(rs.take(i + 1)));
        assert(s.subrange(0, p) == stream_enc(rs.take(i)));
        assert(stream_enc(rs.take(i + 1)) == stream_enc(rs.take(i)) + rec_enc(rs[i]));
        assert forall|x: int| 0 <= x < q - p implies s.subrange(p, q)[x] == rec_enc(rs[i])[x] by {
            assert(s[p + x] == s.subrange(0, q)[p + x]);
        }
    }
    let tail = d.subrange(q, end);
    assert(d.subrange(p, end) =~= rec_enc(rs[i]) + tail) by {
        assert forall|x: int| 0 <= x < end - p implies d.subrange(p, end)[x] == (rec_enc(rs[i])
            + tail)[x] by {
            if x < q - p {
                assert(d[p + x] == s[p + x]);
                assert(s[p + x] == s.subrange(p, q)[x]);
            }
        }
    }
    lemma_parse_enc(rs[i], tail);
}

/// The byte position of every record of the stream, as the 32-bit values the
/// index stores.
pub open spec fn spec_positions(rs: Seq<RecordModel>) -> Seq<u32> {
    Seq::new(rs.len(), |i: int| pos_of(rs, i) as u32)
}

/// The records recovered from raw bytes, starting at expected offset `next`:
/// frames are decoded one after another for as long as they decode and their
/// offsets continue the numbering.
pub open spec fn parse_stream(b: Seq<u8>, next: int) -> Seq<RecordModel>
    decreases b.len(),
{
    match parse_rec(b) {
        Some((g, n)) => {
            if g.offset == next && 0 < n <= b.len() {
                seq![g] + parse_stream(b.skip(n), next + 1)
            } else {
                Seq::empty()
            }
        },
        None => Seq::empty(),
    }
}

/// What recovery promises of any source: the records are valid, their
/// offsets continue `next`, and their frames are exactly a prefix of the
/// source.
pub proof fn lemma_parse_stream_props(b: Seq<u8>, next: int)
    requires
        b.len() <= u32::MAX,
    ensures
        ({
            let rs = parse_stream(b, next);
            &&& stream_wf(rs, next)
            &&& stream_enc(rs).len() <= b.len()
            &&& b.subrange(0, stream_enc(rs).len() as int) == stream_enc(rs)
        }),
    decreases b.len(),
{
    let rs = parse_stream(b, next);
    match parse_rec(b) {
        Some((g, n)) => {
            lemma_parse_valid(b);
            if g.offset == next && 0 < n <= b.len() {
                let rest = parse_stream(b.skip(n), next + 1);
                lemma_parse_stream_props(b.skip(n), next + 1);
                assert(rs == seq![g] + rest);
                assert(rs.skip(1) =~= rest);
                assert(rs[0] == g);
                lemma_stream_cons(rs);
                lemma_rec_enc_len(g);
                let lr = stream_enc(rest).len() as int;
                assert(b.skip(n).subrange(0, lr) == stream_enc(rest));
                assert(b.subrange(0, n + lr) =~= rec_enc(g) + stream_enc(rest)) by {
                    assert(rec_enc(g) =~= b.subrange(0, n));
                    assert forall|x: int| 0 <= x < n + lr implies b.subrange(0, n + lr)[x] == (
                    rec_enc(g) + stream_enc(rest))[x] by {
                        if x >= n {
                            assert(b.skip(n)[x - n] == b[x]);
                            assert(stream_enc(rest)[x - n] == b.skip(n).subrange(0, lr)[x - n]);
                        }
                    }
                }
                assert(stream_enc(rs) == rec_enc(g) + stream_enc(rest));
            }
        },
        None => {},
    }
}

/// Recovery is exact: scanning the stream of a contiguously numbered record
/// sequence, however much zero padding follows it, yields that sequence.
/// The one exception is an empty stream expected to start at offset zero,
/// where 32 or more bytes of padding themselves decode as a record 0.
pub proof fn lemma_stream_recovery(rs: Seq<RecordModel>, next: int, pad: Seq<u8>)
    requires
        stream_wf(rs, next),
        !(rs.len() == 0 && next == 0),
        forall|i: int| 0 <= i < pad.len() ==> pad[i] == 0u8,
    ensures
        parse_stream(stream_enc(rs) + pad, next) == rs,
    decreases rs.len(),
{
    let b = stream_enc(rs) + pad;
    if rs.len() == 0 {
        assert(b =~= pad);
        if pad.len() < 28 {
            assert(parse_rec(pad) is None);
        } else {
            assert(forall|i: int| 0 <= i < 4 ==> pad.subrange(24, 28)[i] == 0u8);
            lemma_be_dec_zero(pad.subrange(24, 28));
            if pad.len() < 32 {
                assert(parse_rec(pad) is None);
            } else {
                assert(forall|i: int| 0 <= i < 8 ==> pad.subrange(0, 8)[i] == 0u8);
                lemma_be_dec_zero(pad.subrange(0, 8));
                assert(forall|i: int| 0 <= i < 4 ==> pad.subrange(28, 32)[i] == 0u8);
                lemma_be_dec_zero(pad.subrange(28, 32));
                let (g, n) = parse_rec(pad)->Some_0;
                assert(g.offset == 0);
                assert(g.offset != next);
            }
        }
        assert(parse_stream(b, next) =~= rs);
    } else {
        let head = rs[0];
        let rest_rs = rs.skip(1);
        lemma_stream_cons(rs);
        lemma_rec_enc_len(head);
        let tail = stream_enc(rest_rs) + pad;
        assert(b =~= rec_enc(head) + tail);
        lemma_parse_enc(head, tail);
        let n = rec_size(head) as int;
        assert(head.offset == next);
        assert(0 < n <= b.len());
        assert(b.skip(n) =~= tail);
        assert(stream_wf(rest_rs, next + 1));
        lemma_stream_recovery(rest_rs, next + 1, pad);
        assert(parse_stream(b, next) == seq![head] + rest_rs);
        assert(seq![head] + rest_rs =~= rs);
    }
}

} // verus!
