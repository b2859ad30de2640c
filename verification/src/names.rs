//! Segment file name stems.
//!
//! A segment's two files are named by the 20-digit zero-padded decimal of
//! its base offset (`{base:020}.log` and `{base:020}.index`).  Discovery
//! parses the stems back; any stem of another shape makes initialization
//! fail with `NameFormat`.

use vstd::arithmetic::power::pow;
use vstd::prelude::*;
use vstd::std_specs::iter::IteratorSpec;
use vstd::string::StringExecFns;

verus! {

/// A decimal digit character.
pub open spec fn is_digit(c: char) -> bool {
    48 <= (c as u32) && (c as u32) <= 57
}

pub open spec fn all_digits(s: Seq<char>) -> bool {
    forall|i: int| 0 <= i < s.len() ==> is_digit(#[trigger] s[i])
}

/// The value of a sequence of decimal digit characters.
pub open spec fn digits_val(s: Seq<char>) -> int
    decreases s.len(),
{
    if s.len() == 0 {
        0
    } else {
        digits_val(s.drop_last()) * 10 + ((s.last() as u32) as int - 48)
    }
}

pub open spec fn digit_char(d: int) -> char {
    if d == 0 {
        '0'
    } else if d == 1 {
        '1'
    } else if d == 2 {
        '2'
    } else if d == 3 {
        '3'
    } else if d == 4 {
        '4'
    } else if d == 5 {
        '5'
    } else if d == 6 {
        '6'
    } else if d == 7 {
        '7'
    } else if d == 8 {
        '8'
    } else {
        '9'
    }
}

/// The `n`-digit zero-padded decimal stem of `v`.
pub open spec fn stem_of(v: nat, n: nat) -> Seq<char>
    decreases n,
{
    if n == 0 {
        Seq::empty()
    } else {
        stem_of(v / 10, (n - 1) as nat).push(digit_char((v % 10) as int))
    }
}

/// `pow(10, n)` for stem widths, as literals.
pub proof fn lemma_pow10(n: nat)
    requires
        n <= 20,
    ensures
        n == 20 ==> pow(10, n) == 100_000_000_000_000_000_000,
        pow(10, n) >= 1,
        pow(10, n) <= pow(10, 20),
{
    reveal(pow);
    assert(pow(10, 0) == 1);
    assert(pow(10, 1) == 10 * pow(10, 0));
    assert(pow(10, 2) == 10 * pow(10, 1));
    assert(pow(10, 3) == 10 * pow(10, 2));
    assert(pow(10, 4) == 10 * pow(10, 3));
    assert(pow(10, 5) == 10 * pow(10, 4));
    assert(pow(10, 6) == 10 * pow(10, 5));
    assert(pow(10, 7) == 10 * pow(10, 6));
    assert(pow(10, 8) == 10 * pow(10, 7));
    assert(pow(10, 9) == 10 * pow(10, 8));
    assert(pow(10, 10) == 10 * pow(10, 9));
    assert(pow(10, 11) == 10 * pow(10, 10));
    assert(pow(10, 12) == 10 * pow(10, 11));
    assert(pow(10, 13) == 10 * pow(10, 12));
    assert(pow(10, 14) == 10 * pow(10, 13));
    assert(pow(10, 15) == 10 * pow(10, 14));
    assert(pow(10, 16) == 10 * pow(10, 15));
    assert(pow(10, 17) == 10 * pow(10, 16));
    assert(pow(10, 18) == 10 * pow(10, 17));
    assert(pow(10, 19) == 10 * pow(10, 18));
    assert(pow(10, 20) == 10 * pow(10, 19));
    if n <= 20 {
        vstd::arithmetic::power::lemma_pow_increases(10, n, 20);
    }
}

/// The stem is `n` digit characters, and reading them back gives the value.
pub proof fn lemma_stem_val(v: nat, n: nat)
    requires
        v < pow(10, n),
    ensures
        stem_of(v, n).len() == n,
        all_digits(stem_of(v, n)),
        digits_val(stem_of(v, n)) == v,
    decreases n,
{
    reveal(pow);
    if n == 0 {
    } else {
        let m = (n - 1) as nat;
        assert(pow(10, n) == 10 * pow(10, m));
        assert(v / 10 < pow(10, m)) by {
            vstd::arithmetic::div_mod::lemma_fundamental_div_mod(v as int, 10);
            if v / 10 >= pow(10, m) {
                vstd::arithmetic::mul::lemma_mul_inequality(pow(10, m), v as int / 10, 10);
                vstd::arithmetic::mul::lemma_mul_is_commutative(v as int / 10, 10);
            }
        }
        lemma_stem_val(v / 10, m);
        let s = stem_of(v, n);
        assert(s.drop_last() =~= stem_of(v / 10, m));
        vstd::arithmetic::div_mod::lemma_fundamental_div_mod(v as int, 10);
        assert(s.last() == digit_char((v % 10) as int));
        assert((s.last() as u32) as int - 48 == v % 10);
        assert(forall|i: int| 0 <= i < s.len() ==> is_digit(#[trigger] s[i]));
    }
}

/// Appends the `width`-digit zero-padded decimal of `v` to `out`.
fn push_stem(out: &mut String, v: u64, width: usize)
    ensures
        final(out)@ == old(out)@ + stem_of(v as nat, width as nat),
    decreases width,
{
    if width == 0 {
        proof {
            assert(out@ =~= out@ + stem_of(v as nat, 0));
        }
    } else {
        push_stem(out, v / 10, width - 1);
        let d = v % 10;
        if d == 0 {
            out.append("0");
            proof {
                reveal_strlit("0");
                assert(out@ =~= old(out)@ + stem_of(v as nat, width as nat));
            }
        } else if d == 1 {
            out.append("1");
            proof {
                reveal_strlit("1");
                assert(out@ =~= old(out)@ + stem_of(v as nat, width as nat));
            }
        } else if d == 2 {
            out.append("2");
            proof {
                reveal_strlit("2");
                assert(out@ =~= old(out)@ + stem_of(v as nat, width as nat));
            }
        } else if d == 3 {
            out.append("3");
            proof {
                reveal_strlit("3");
                assert(out@ =~= old(out)@ + stem_of(v as nat, width as nat));
            }
        } else if d == 4 {
            out.append("4");
            proof {
                reveal_strlit("4");
                assert(out@ =~= old(out)@ + stem_of(v as nat, width as nat));
            }
        } else if d == 5 {
            out.append("5");
            proof {
                reveal_strlit("5");
                assert(out@ =~= old(out)@ + stem_of(v as nat, width as nat));
            }
        } else if d == 6 {
            out.append("6");
            proof {
                reveal_strlit("6");
                assert(out@ =~= old(out)@ + stem_of(v as nat, width as nat));
            }
        } else if d == 7 {
            out.append("7");
            proof {
                reveal_strlit("7");
                assert(out@ =~= old(out)@ + stem_of(v as nat, width as nat));
            }
        } else if d == 8 {
            out.append("8");
            proof {
                reveal_strlit("8");
                assert(out@ =~= old(out)@ + stem_of(v as nat, width as nat));
            }
        } else {
            out.append("9");
            proof {
                reveal_strlit("9");
                assert(out@ =~= old(out)@ + stem_of(v as nat, width as nat));
            }
        }
    }
}

/// The 20-digit zero-padded decimal stem of a base offset.
pub fn format_base_offset(base_offset: u64) -> (r: String)
    ensures
        r@ == stem_of(base_offset as nat, 20),
        r@.len() == 20,
        all_digits(r@),
        digits_val(r@) == base_offset,
{
    let mut out = String::new();
    push_stem(&mut out, base_offset, 20);
    proof {
        lemma_pow10(20);
        lemma_stem_val(base_offset as nat, 20);
        assert(Seq::<char>::empty() + stem_of(base_offset as nat, 20) =~= stem_of(
            base_offset as nat,
            20,
        ));
    }
    out
}

/// The base offset a file name stem denotes: defined exactly when the stem
/// is twenty decimal digits whose value fits an offset.
pub open spec fn spec_parse_stem(s: Seq<char>) -> Option<u64> {
    if s.len() == 20 && all_digits(s) && digits_val(s) <= u64::MAX {
        Some(digits_val(s) as u64)
    } else {
        None
    }
}

/// Parses a file name stem.
pub fn parse_base_offset(name: &str) -> (r: Option<u64>)
    ensures
        r == spec_parse_stem(name@),
{
    let mut it = name.chars();
    let mut acc: u128 = 0;
    let mut cnt: usize = 0;
    proof {
        assert(name@.take(0) =~= Seq::<char>::empty());
        lemma_pow10(0);
    }
    loop
        invariant_except_break
            it.obeys_prophetic_iter_laws(),
            it.remaining() =~= name@.skip(cnt as int),
        invariant
            cnt <= 20,
            cnt <= name@.len(),
            all_digits(name@.take(cnt as int)),
            acc as int == digits_val(name@.take(cnt as int)),
            (acc as int) < pow(10, cnt as nat),
        ensures
            cnt == name@.len(),
        decreases name@.len() - cnt,
    {
        match it.next() {
            Some(c) => {
                proof {
                    assert(name@.skip(cnt as int)[0] == name@[cnt as int]);
                    assert(name@[cnt as int] == c);
                }
                let cu = c as u32;
                if cu < 48 || cu > 57 {
                    proof {
                        assert(!is_digit(c));
                    }
                    return None;
                }
                if cnt == 20 {
                    proof {
                        assert(name@.len() > 20);
                    }
                    return None;
                }
                proof {
                    let pre = name@.take(cnt as int);
                    let nxt = name@.take(cnt + 1);
                    assert(nxt.drop_last() =~= pre);
                    assert(nxt.last() == name@[cnt as int]);
                    assert(is_digit(c));
                    assert(all_digits(nxt)) by {
                        assert forall|i: int| 0 <= i < nxt.len() implies is_digit(
                            #[trigger] nxt[i],
                        ) by {
                            if i < cnt {
                                assert(nxt[i] == pre[i]);
                            }
                        }
                    }
                    assert(digits_val(nxt) == digits_val(pre) * 10 + ((c as u32) as int - 48));
                    reveal(pow);
                    lemma_pow10((cnt + 1) as nat);
                    lemma_pow10(20);
                    assert(acc as int * 10 <= (pow(10, cnt as nat) - 1) * 10) by {
                        vstd::arithmetic::mul::lemma_mul_inequality(
                            acc as int,
                            pow(10, cnt as nat) - 1,
                            10,
                        );
                    }
                }
                acc = acc * 10 + ((cu - 48) as u128);
                cnt = cnt + 1;
                proof {
                    assert(it.remaining() =~= name@.skip(cnt as int));
                }
            },
            None => {
                proof {
                    assert(name@.skip(cnt as int).len() == 0);
                    assert(name@.len() == cnt);
                }
                break ;
            },
        }
    }
    proof {
        assert(name@.take(cnt as int) =~= name@);
    }
    if cnt != 20 {
        return None;
    }
    if acc > u64::MAX as u128 {
        return None;
    }
    Some(acc as u64)
}

/// Formatting a base offset and parsing the stem back returns the offset.
pub proof fn lemma_stem_round_trip(base_offset: u64)
    ensures
        stem_of(base_offset as nat, 20).len() == 20,
        all_digits(stem_of(base_offset as nat, 20)),
        digits_val(stem_of(base_offset as nat, 20)) == base_offset,
{
    lemma_pow10(20);
    lemma_stem_val(base_offset as nat, 20);
}

} // verus!
