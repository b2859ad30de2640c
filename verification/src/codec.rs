//! Fixed-width big-endian integer encoding.
//!
//! Every multi-byte integer in the on-disk formats (record header fields and
//! index entries) is stored most-significant byte first.  The encoding and
//! its inverse are defined as spec functions and the executable readers and
//! writers are proved against them.

use vstd::arithmetic::div_mod::{lemma_fundamental_div_mod, lemma_fundamental_div_mod_converse};
use vstd::arithmetic::mul::{lemma_mul_inequality, lemma_mul_is_commutative};
use vstd::arithmetic::power::pow;
use vstd::prelude::*;

verus! {

/// The `n`-byte big-endian encoding of `x` (most significant byte first).
pub open spec fn be_enc(x: nat, n: nat) -> Seq<u8>
    decreases n,
{
    if n == 0 {
        Seq::empty()
    } else {
        be_enc(x / 256, (n - 1) as nat).push((x % 256) as u8)
    }
}

/// The value of a big-endian byte sequence.
pub open spec fn be_dec(s: Seq<u8>) -> nat
    decreases s.len(),
{
    if s.len() == 0 {
        0
    } else {
        be_dec(s.drop_last()) * 256 + s.last() as nat
    }
}

pub proof fn lemma_be_enc_len(x: nat, n: nat)
    ensures
        be_enc(x, n).len() == n,
    decreases n,
{
    if n > 0 {
        lemma_be_enc_len(x / 256, (n - 1) as nat);
    }
}

/// `pow(256, n)` for the widths used by the formats, as literals.
pub proof fn lemma_pow256(n: nat)
    requires
        n <= 16,
    ensures
        n == 4 ==> pow(256, n) == 0x1_0000_0000,
        n == 8 ==> pow(256, n) == 0x1_0000_0000_0000_0000,
        n == 16 ==> pow(256, n) == 0x1_0000_0000_0000_0000_0000_0000_0000_0000,
        pow(256, n) >= 1,
        pow(256, n) <= pow(256, 16),
{
    reveal(pow);
    assert(pow(256, 0) == 1);
    assert(pow(256, 1) == 256 * pow(256, 0));
    assert(pow(256, 2) == 256 * pow(256, 1));
    assert(pow(256, 3) == 256 * pow(256, 2));
    assert(pow(256, 4) == 256 * pow(256, 3));
    assert(pow(256, 5) == 256 * pow(256, 4));
    assert(pow(256, 6) == 256 * pow(256, 5));
    assert(pow(256, 7) == 256 * pow(256, 6));
    assert(pow(256, 8) == 256 * pow(256, 7));
    assert(pow(256, 9) == 256 * pow(256, 8));
    assert(pow(256, 10) == 256 * pow(256, 9));
    assert(pow(256, 11) == 256 * pow(256, 10));
    assert(pow(256, 12) == 256 * pow(256, 11));
    assert(pow(256, 13) == 256 * pow(256, 12));
    assert(pow(256, 14) == 256 * pow(256, 13));
    assert(pow(256, 15) == 256 * pow(256, 14));
    assert(pow(256, 16) == 256 * pow(256, 15));
    if n <= 16 {
        vstd::arithmetic::power::lemma_pow_increases(256, n, 16);
    }
}

/// Decoding is the inverse of encoding, for values that fit in `n` bytes.
pub proof fn lemma_be_dec_enc(x: nat, n: nat)
    requires
        x < pow(256, n),
    ensures
        be_dec(be_enc(x, n)) == x,
    decreases n,
{
    reveal(pow);
    if n == 0 {
    } else {
        let m = (n - 1) as nat;
        lemma_be_enc_len(x / 256, m);
        let e = be_enc(x, n);
        assert(e.drop_last() =~= be_enc(x / 256, m));
        assert(pow(256, n) == 256 * pow(256, m));
        assert(x / 256 < pow(256, m)) by {
            lemma_fundamental_div_mod(x as int, 256);
            assert(x == 256 * (x as int / 256) + x as int % 256);
            if x / 256 >= pow(256, m) {
                lemma_mul_inequality(pow(256, m), x as int / 256, 256);
                lemma_mul_is_commutative(x as int / 256, 256);
            }
        }
        lemma_be_dec_enc(x / 256, m);
        lemma_fundamental_div_mod(x as int, 256);
    }
}

/// A big-endian sequence of `n` bytes decodes to a value below `pow(256, n)`.
pub proof fn lemma_be_dec_bound(s: Seq<u8>)
    ensures
        be_dec(s) < pow(256, s.len()),
    decreases s.len(),
{
    reveal(pow);
    if s.len() == 0 {
    } else {
        let d = s.drop_last();
        lemma_be_dec_bound(d);
        assert(pow(256, s.len()) == 256 * pow(256, d.len()));
        assert(be_dec(d) * 256 <= (pow(256, d.len()) - 1) * 256) by {
            lemma_mul_inequality(be_dec(d) as int, pow(256, d.len()) - 1, 256);
        }
    }
}

/// Encoding is the inverse of decoding: the bytes are recovered exactly.
pub proof fn lemma_be_enc_dec(s: Seq<u8>)
    ensures
        be_enc(be_dec(s), s.len()) == s,
    decreases s.len(),
{
    if s.len() == 0 {
        assert(be_enc(be_dec(s), 0) =~= s);
    } else {
        let d = s.drop_last();
        let x = be_dec(s);
        lemma_be_enc_dec(d);
        assert(x == be_dec(d) * 256 + s.last());
        lemma_fundamental_div_mod_converse(x as int, 256, be_dec(d) as int, s.last() as int);
        assert(x / 256 == be_dec(d));
        assert(x % 256 == s.last());
        assert(be_enc(x, s.len()) =~= s);
    }
}

/// An all-zero byte sequence decodes to zero.
pub proof fn lemma_be_dec_zero(s: Seq<u8>)
    requires
        forall|i: int| 0 <= i < s.len() ==> s[i] == 0u8,
    ensures
        be_dec(s) == 0,
    decreases s.len(),
{
    if s.len() > 0 {
        lemma_be_dec_zero(s.drop_last());
    }
}

/// Appends the `width`-byte big-endian encoding of `x` to `out`.
pub fn write_be(out: &mut Vec<u8>, x: u128, width: usize)
    requires
        width <= 16,
        old(out).len() + width <= usize::MAX,
    ensures
        final(out)@ == old(out)@ + be_enc(x as nat, width as nat),
    decreases width,
{
    if width == 0 {
        proof {
            assert(out@ =~= out@ + be_enc(x as nat, 0));
        }
    } else {
        write_be(out, x / 256, width - 1);
        let b: u8 = (x % 256) as u8;
        out.push(b);
        proof {
            assert(out@ =~= old(out)@ + be_enc(x as nat, width as nat));
        }
    }
}

/// Reads the `width`-byte big-endian integer starting at `buf[start]`.
pub fn read_be(buf: &Vec<u8>, start: usize, width: usize) -> (r: u128)
    requires
        width <= 16,
        start + width <= buf@.len(),
    ensures
        r as nat == be_dec(buf@.subrange(start as int, start + width)),
        (r as nat) < pow(256, width as nat),
{
    let buf_len: usize = buf.len();
    let mut acc: u128 = 0;
    let mut i: usize = 0;
    proof {
        assert(buf@.subrange(start as int, start as int) =~= Seq::<u8>::empty());
        lemma_pow256(0);
    }
    while i < width
        invariant
            i <= width,
            width <= 16,
            start + width <= buf@.len(),
            buf_len == buf@.len(),
            acc as nat == be_dec(buf@.subrange(start as int, start + i)),
            (acc as nat) < pow(256, i as nat),
        decreases width - i,
    {
        proof {
            reveal(pow);
            let cur = buf@.subrange(start as int, start + i);
            let next = buf@.subrange(start as int, start + i + 1);
            assert(next.drop_last() =~= cur);
            assert(next.last() == buf@[start + i]);
            assert(pow(256, (i + 1) as nat) == 256 * pow(256, i as nat));
            lemma_pow256((i + 1) as nat);
            lemma_pow256(16);
            assert(acc as nat * 256 <= (pow(256, i as nat) - 1) * 256) by {
                lemma_mul_inequality(acc as int, pow(256, i as nat) - 1, 256);
            }
            if (i + 1) as nat <= 16 {
                vstd::arithmetic::power::lemma_pow_increases(256, (i + 1) as nat, 16);
            }
        }
        acc = acc * 256 + (buf[start + i] as u128);
        i = i + 1;
    }
    proof {
        lemma_be_dec_bound(buf@.subrange(start as int, start + width));
    }
    acc
}

} // verus!
