//! The record codec.
//!
//! A record is an immutable event: an offset assigned at append time, a
//! wall-clock timestamp in milliseconds, an optional key and a value.  Its
//! frame is fixed big-endian: 8 offset bytes, 16 timestamp bytes, a 4-byte
//! key length (0 exactly when the key is absent) followed by the key bytes,
//! then a 4-byte value length followed by the value bytes.  `rec_enc` defines
//! the frame, `parse_rec` its deterministic inverse on arbitrary bytes, and
//! the executable writer and reader are proved against them.

use crate::codec::{
    be_dec, be_enc, lemma_be_dec_bound, lemma_be_dec_enc, lemma_be_enc_dec, lemma_be_enc_len,
    lemma_pow256, read_be, write_be,
};
use vstd::prelude::*;

verus! {

/// The mathematical content of a record, with byte strings as sequences.
pub struct RecordModel {
    pub offset: u64,
    pub timestamp: u128,
    pub key: Option<Seq<u8>>,
    pub value: Seq<u8>,
}

/// The view of an optional byte string.
pub open spec fn opt_bytes(k: Option<Vec<u8>>) -> Option<Seq<u8>> {
    match k {
        Some(v) => Some(v@),
        None => None,
    }
}

pub open spec fn key_len(k: Option<Seq<u8>>) -> nat {
    match k {
        Some(s) => s.len(),
        None => 0,
    }
}

/// The number of bytes of the record's frame.
pub open spec fn rec_size(r: RecordModel) -> nat {
    32 + key_len(r.key) + r.value.len()
}

/// A record the frame can represent faithfully: a present key is nonempty
/// (a zero key length means "absent"), and the frame fits the 32-bit
/// positions used by the segment files.
pub open spec fn rec_valid(r: RecordModel) -> bool {
    &&& (r.key matches Some(k) ==> k.len() >= 1)
    &&& rec_size(r) <= u32::MAX
}

pub open spec fn key_enc(k: Option<Seq<u8>>) -> Seq<u8> {
    match k {
        Some(s) => be_enc(s.len(), 4) + s,
        None => be_enc(0, 4),
    }
}

/// The frame of a record.
pub open spec fn rec_enc(r: RecordModel) -> Seq<u8> {
    be_enc(r.offset as nat, 8) + be_enc(r.timestamp as nat, 16) + key_enc(r.key) + be_enc(
        r.value.len(),
        4,
    ) + r.value
}

/// Decodes one record from the front of `b`: the record and the number of
/// bytes its frame occupies, or `None` when `b` ends before a complete frame.
pub open spec fn parse_rec(b: Seq<u8>) -> Option<(RecordModel, int)> {
    if b.len() < 28 {
        None
    } else {
        let off = be_dec(b.subrange(0, 8));
        let ts = be_dec(b.subrange(8, 24));
        let klen = be_dec(b.subrange(24, 28)) as int;
        if b.len() < 32 + klen {
            None
        } else {
            let key = if klen == 0 {
                Option::<Seq<u8>>::None
            } else {
                Some(b.subrange(28, 28 + klen))
            };
            let vlen = be_dec(b.subrange(28 + klen, 32 + klen)) as int;
            if b.len() < 32 + klen + vlen {
                None
            } else {
                Some(
                    (
                        RecordModel {
                            offset: off as u64,
                            timestamp: ts as u128,
                            key,
                            value: b.subrange(32 + klen, 32 + klen + vlen),
                        },
                        32 + klen + vlen,
                    ),
                )
            }
        }
    }
}

pub proof fn lemma_rec_enc_len(r: RecordModel)
    ensures
        rec_enc(r).len() == rec_size(r),
{
    lemma_be_enc_len(r.offset as nat, 8);
    lemma_be_enc_len(r.timestamp as nat, 16);
    lemma_be_enc_len(key_len(r.key), 4);
    lemma_be_enc_len(0, 4);
    lemma_be_enc_len(r.value.len(), 4);
}

/// Round trip: parsing a valid record's frame, whatever follows it, yields
/// exactly that record and consumes exactly its frame.
pub proof fn lemma_parse_enc(r: RecordModel, t: Seq<u8>)
    requires
        rec_valid(r),
    ensures
        parse_rec(rec_enc(r) + t) == Some((r, rec_size(r) as int)),
{
    let b = rec_enc(r) + t;
    let kl = key_len(r.key) as int;
    let vl = r.value.len() as int;
    lemma_rec_enc_len(r);
    lemma_be_enc_len(r.offset as nat, 8);
    lemma_be_enc_len(r.timestamp as nat, 16);
    lemma_be_enc_len(kl as nat, 4);
    lemma_be_enc_len(0, 4);
    lemma_be_enc_len(vl as nat, 4);
    lemma_pow256(8);
    lemma_pow256(16);
    lemma_pow256(4);

    assert(b.subrange(0, 8) =~= be_enc(r.offset as nat, 8));
    lemma_be_dec_enc(r.offset as nat, 8);
    assert(b.subrange(8, 24) =~= be_enc(r.timestamp as nat, 16));
    lemma_be_dec_enc(r.timestamp as nat, 16);
    assert(b.subrange(24, 28) =~= be_enc(kl as nat, 4));
    lemma_be_dec_enc(kl as nat, 4);
    assert(b.len() >= 32 + kl + vl);
    let parsed_key = if kl == 0 {
        Option::<Seq<u8>>::None
    } else {
        Some(b.subrange(28, 28 + kl))
    };
    if kl == 0 {
        assert(r.key is None);
        assert(parsed_key == r.key);
    } else {
        let k = r.key->Some_0;
        assert(b.subrange(28, 28 + kl) =~= k);
        assert(parsed_key == r.key);
    }
    assert(b.subrange(28 + kl, 32 + kl) =~= be_enc(vl as nat, 4));
    lemma_be_dec_enc(vl as nat, 4);
    assert(b.subrange(32 + kl, 32 + kl + vl) =~= r.value);
    let m = parse_rec(b)->Some_0.0;
    assert(m.offset == r.offset);
    assert(m.timestamp == r.timestamp);
    assert(m.key == r.key);
    assert(m.value == r.value);
    assert(m == r);
}

/// Round trip: decoding an encoded record yields the record itself, whole.
pub proof fn lemma_record_round_trip(r: RecordModel)
    requires
        rec_valid(r),
    ensures
        parse_rec(rec_enc(r)) == Some((r, rec_size(r) as int)),
{
    assert(rec_enc(r) + Seq::<u8>::empty() =~= rec_enc(r));
    lemma_parse_enc(r, Seq::empty());
}

/// Whatever `parse_rec` accepts is a valid record whose frame is exactly the
/// bytes consumed — provided the source is no longer than the 32-bit range
/// the segment files can address.
pub proof fn lemma_parse_valid(b: Seq<u8>)
    requires
        parse_rec(b) is Some,
        b.len() <= u32::MAX,
    ensures
        ({
            let (r, n) = parse_rec(b)->Some_0;
            &&& rec_valid(r)
            &&& n == rec_size(r)
            &&& 32 <= n <= b.len()
            &&& rec_enc(r) =~= b.subrange(0, n)
        }),
{
    let (r, n) = parse_rec(b)->Some_0;
    let klen = be_dec(b.subrange(24, 28)) as int;
    let vlen = be_dec(b.subrange(28 + klen, 32 + klen)) as int;
    assert(r.value.len() == vlen);
    assert(key_len(r.key) == klen);
    assert(n == rec_size(r));
    lemma_rec_enc_len(r);
    lemma_pow256(8);
    lemma_pow256(16);
    lemma_be_dec_bound(b.subrange(0, 8));
    lemma_be_dec_bound(b.subrange(8, 24));
    assert(r.offset as nat == be_dec(b.subrange(0, 8)));
    assert(r.timestamp as nat == be_dec(b.subrange(8, 24)));
    lemma_be_enc_dec(b.subrange(0, 8));
    assert(be_enc(r.offset as nat, 8) =~= b.subrange(0, 8));
    lemma_be_enc_dec(b.subrange(8, 24));
    assert(be_enc(r.timestamp as nat, 16) =~= b.subrange(8, 24));
    lemma_be_enc_dec(b.subrange(24, 28));
    assert(be_enc(klen as nat, 4) =~= b.subrange(24, 28));
    lemma_be_enc_dec(b.subrange(28 + klen, 32 + klen));
    assert(be_enc(vlen as nat, 4) =~= b.subrange(28 + klen, 32 + klen));
    if klen == 0 {
        assert(key_enc(r.key) =~= b.subrange(24, 28));
    } else {
        assert(key_enc(r.key) =~= b.subrange(24, 28 + klen));
    }
    assert(rec_enc(r) =~= b.subrange(0, n));
}

/// An event record.  `offset` is its position in the partition, `timestamp`
/// is wall-clock milliseconds since the Unix epoch, captured at construction.
#[derive(Clone, Debug, PartialEq)]
pub struct Record {
    pub offset: u64,
    pub timestamp: u128,
    pub key: Option<Vec<u8>>,
    pub value: Vec<u8>,
}

impl View for Record {
    type V = RecordModel;

    open spec fn view(&self) -> RecordModel {
        RecordModel {
            offset: self.offset,
            timestamp: self.timestamp,
            key: opt_bytes(self.key),
            value: self.value@,
        }
    }
}

/// The codec cannot complete a read: the source ends before a full frame.
#[derive(Clone, Copy, Debug, PartialEq, Eq)]
pub enum DecodeError {
    Truncated,
}

/// Relies on `std::time::SystemTime`: wall-clock milliseconds since the Unix
/// epoch.  Nothing is assumed of the value; callers treat it as arbitrary.
#[verifier::external_body]
fn now_millis() -> u128 {
    match std::time::SystemTime::now().duration_since(std::time::UNIX_EPOCH) {
        Ok(d) => d.as_millis(),
        Err(_) => 0,
    }
}

/// Appends all of `src` to `out`.
pub fn append_bytes(out: &mut Vec<u8>, src: &Vec<u8>)
    requires
        old(out).len() + src.len() <= usize::MAX,
    ensures
        final(out)@ == old(out)@ + src@,
{
    let n = src.len();
    let mut j: usize = 0;
    while j < n
        invariant
            j <= n,
            n == src@.len(),
            out@ == old(out)@ + src@.subrange(0, j as int),
            old(out).len() + src.len() <= usize::MAX,
        decreases n - j,
    {
        out.push(src[j]);
        proof {
            assert(out@ =~= old(out)@ + src@.subrange(0, j + 1));
        }
        j = j + 1;
    }
    proof {
        assert(out@ =~= old(out)@ + src@);
    }
}

/// Copies a byte slice into a fresh vector.
pub fn slice_to_vec(s: &[u8]) -> (r: Vec<u8>)
    ensures
        r@ == s@,
{
    let n = s.len();
    let mut out: Vec<u8> = Vec::new();
    let mut j: usize = 0;
    proof {
        assert(out@ =~= s@.subrange(0, 0));
    }
    while j < n
        invariant
            j <= n,
            n == s@.len(),
            out@ == s@.subrange(0, j as int),
        decreases n - j,
    {
        out.push(s[j]);
        proof {
            assert(out@ =~= s@.subrange(0, j + 1));
        }
        j = j + 1;
    }
    proof {
        assert(out@ =~= s@);
    }
    out
}

/// Copies `buf[from .. from + len]` into a fresh vector.
pub fn copy_range(buf: &Vec<u8>, from: usize, len: usize) -> (r: Vec<u8>)
    requires
        from + len <= buf@.len(),
    ensures
        r@ == buf@.subrange(from as int, from + len),
{
    let buf_len: usize = buf.len();
    let mut out: Vec<u8> = Vec::new();
    let mut j: usize = 0;
    proof {
        assert(out@ =~= buf@.subrange(from as int, from as int));
    }
    while j < len
        invariant
            j <= len,
            buf_len == buf@.len(),
            from + len <= buf@.len(),
            out@ == buf@.subrange(from as int, from + j),
        decreases len - j,
    {
        out.push(buf[from + j]);
        proof {
            assert(out@ =~= buf@.subrange(from as int, from + j + 1));
        }
        j = j + 1;
    }
    out
}

impl Record {
    /// Builds a record stamped with the current wall-clock time.
    pub fn new(offset: u64, key: Option<Vec<u8>>, value: Vec<u8>) -> (r: Record)
        requires
            (key matches Some(k) ==> k@.len() >= 1),
            32 + key_len(opt_bytes(key)) + value@.len() <= u32::MAX,
        ensures
            r.offset == offset,
            r@.key == opt_bytes(key),
            r@.value == value@,
            rec_valid(r@),
    {
        Record { offset, timestamp: now_millis(), key, value }
    }

    /// The number of bytes `write` produces for this record.
    pub fn binary_size(&self) -> (n: usize)
        requires
            rec_valid(self@),
        ensures
            n == rec_size(self@),
    {
        let kl = match &self.key {
            Some(k) => k.len(),
            None => 0,
        };
        8 + 16 + 4 + kl + 4 + self.value.len()
    }

    /// Appends the record's frame to `out` and returns the frame's size.
    pub fn write(&self, out: &mut Vec<u8>) -> (n: usize)
        requires
            rec_valid(self@),
            old(out).len() + rec_size(self@) <= usize::MAX,
        ensures
            final(out)@ == old(out)@ + rec_enc(self@),
            n == rec_size(self@),
    {
        proof {
            lemma_be_enc_len(self@.offset as nat, 8);
            lemma_be_enc_len(self@.timestamp as nat, 16);
            lemma_be_enc_len(key_len(self@.key), 4);
            lemma_be_enc_len(0, 4);
            lemma_be_enc_len(self@.value.len(), 4);
        }
        write_be(out, self.offset as u128, 8);
        write_be(out, self.timestamp, 16);
        match &self.key {
            Some(k) => {
                write_be(out, k.len() as u128, 4);
                append_bytes(out, k);
            },
            None => {
                write_be(out, 0, 4);
            },
        }
        write_be(out, self.value.len() as u128, 4);
        append_bytes(out, &self.value);
        proof {
            assert(out@ =~= old(out)@ + rec_enc(self@));
        }
        self.binary_size()
    }

    /// Decodes the record whose frame starts at `buf[start]`, returning it
    /// with the frame's size; fails exactly when no complete frame is there.
    pub fn from_binary(buf: &Vec<u8>, start: usize) -> (r: Result<(Record, usize), DecodeError>)
        requires
            start <= buf@.len(),
        ensures
            match r {
                Ok((rec, n)) => {
                    &&& parse_rec(buf@.skip(start as int)) == Some((rec@, n as int))
                    &&& start + n <= buf@.len()
                    &&& n >= 32
                },
                Err(_) => parse_rec(buf@.skip(start as int)) is None,
            },
    {
        let buf_len = buf.len();
        let ghost s = buf@.skip(start as int);
        let rem = buf_len - start;
        if rem < 28 {
            return Err(DecodeError::Truncated);
        }
        proof {
            assert(s.subrange(0, 8) =~= buf@.subrange(start as int, start + 8));
            assert(s.subrange(8, 24) =~= buf@.subrange(start + 8, start + 24));
            assert(s.subrange(24, 28) =~= buf@.subrange(start + 24, start + 28));
            lemma_pow256(8);
            lemma_pow256(4);
        }
        let offset = read_be(buf, start, 8) as u64;
        let timestamp = read_be(buf, start + 8, 16);
        let klen = read_be(buf, start + 24, 4) as usize;
        if rem - 28 < klen || rem - 28 - klen < 4 {
            return Err(DecodeError::Truncated);
        }
        let key = if klen == 0 {
            None
        } else {
            Some(copy_range(buf, start + 28, klen))
        };
        proof {
            if klen > 0 {
                assert(buf@.subrange(start + 28, start + 28 + klen) =~= s.subrange(
                    28,
                    28 + klen as int,
                ));
            }
            assert(s.subrange(28 + klen as int, 32 + klen as int) =~= buf@.subrange(
                start + 28 + klen,
                start + 32 + klen,
            ));
        }
        let vlen = read_be(buf, start + 28 + klen, 4) as usize;
        if rem - 32 - klen < vlen {
            return Err(DecodeError::Truncated);
        }
        let value = copy_range(buf, start + 32 + klen, vlen);
        proof {
            assert(buf@.subrange(start + 32 + klen, start + 32 + klen + vlen) =~= s.subrange(
                32 + klen as int,
                32 + klen as int + vlen as int,
            ));
        }
        let rec = Record { offset, timestamp, key, value };
        let n = 32 + klen + vlen;
        proof {
            let (m, sn) = parse_rec(s)->Some_0;
            assert(m.key == rec@.key);
            assert(m == rec@);
        }
        Ok((rec, n))
    }
}

} // verus!
