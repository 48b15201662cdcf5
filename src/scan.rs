//! Scanning bytes: line ends, number fields, double spellings.

use vstd::prelude::*;
use crate::model::{digits_end, is_digit, is_double_text, lower_bytes, sign_end};
use crate::wire::{all_digits, crlf_from, digits_value, parse_i64};

verus! {

/// The first CRLF in `s` at or after `from`.
pub fn find_crlf(s: &[u8], from: usize) -> (r: Option<usize>)
    ensures
        match r {
            Some(e) => crlf_from(s@, from as int) == Some(e as int),
            None => crlf_from(s@, from as int) is None,
        },
{
    let mut i = from;
    while s.len() > 1 && i < s.len() - 1
        invariant
            from <= i,
            crlf_from(s@, from as int) == crlf_from(s@, i as int),
        decreases s.len() - i,
    {
        if s[i] == 13u8 && s[i + 1] == 10u8 {
            return Some(i);
        }
        i = i + 1;
    }
    None
}

proof fn lemma_digits_value_step(d: Seq<u8>, j: int)
    requires
        0 <= j < d.len(),
    ensures
        digits_value(d.subrange(0, j + 1)) == digits_value(d.subrange(0, j)) * 10 + (d[j] - 48),
{
    assert(d.subrange(0, j + 1).drop_last() =~= d.subrange(0, j));
}

proof fn lemma_digits_value_nonneg(d: Seq<u8>)
    requires
        all_digits(d),
    ensures
        0 <= digits_value(d),
    decreases d.len(),
{
    if d.len() > 0 {
        assert(is_digit(d[d.len() - 1]));
        lemma_digits_value_nonneg(d.drop_last());
    }
}

/// The 64-bit signed integer that a number field holds.
pub fn parse_number(line: &[u8]) -> (r: Option<i64>)
    ensures
        match r {
            Some(v) => parse_i64(line@) == Some(v as int),
            None => parse_i64(line@) is None,
        },
{
    let neg = line.len() > 0 && line[0] == 45u8;
    let start: usize = if neg {
        1
    } else {
        0
    };
    let ghost d = line@.subrange(start as int, line@.len() as int);
    if start == line.len() {
        return None;
    }
    let limit: u64 = 9223372036854775808u64;
    let mut acc: u64 = 0;
    let mut too_big = false;
    let mut i = start;
    while i < line.len()
        invariant
            start <= i <= line.len(),
            start < line.len(),
            neg ==> start == 1,
            !neg ==> start == 0,
            neg == (line@.len() > 0 && line@[0] == 45u8),
            d == line@.subrange(start as int, line@.len() as int),
            all_digits(line@.subrange(start as int, i as int)),
            too_big ==> digits_value(line@.subrange(start as int, i as int)) > limit,
            !too_big ==> acc == digits_value(line@.subrange(start as int, i as int)),
            acc <= limit,
            limit == 9223372036854775808u64,
        decreases line.len() - i,
    {
        let b = line[i];
        if !(48u8 <= b && b <= 57u8) {
            proof {
                assert(d[i - start] == b);
                assert(!all_digits(d));
                if neg {
                    assert(line@.subrange(1, line@.len() as int) =~= d);
                } else {
                    assert(line@ =~= d);
                }
            }
            return None;
        }
        proof {
            assert(line@.subrange(start as int, i + 1) =~= d.subrange(0, i - start + 1));
            assert(line@.subrange(start as int, i as int) =~= d.subrange(0, i - start));
            lemma_digits_value_step(d, i - start);
            assert(all_digits(line@.subrange(start as int, i + 1)));
        }
        let digit = (b - 48u8) as u64;
        assert(digit <= 9);
        proof {
            lemma_digits_value_nonneg(line@.subrange(start as int, i as int));
        }
        if !too_big {
            if acc > (limit - digit) / 10 {
                assert(acc * 10 + digit > limit) by (nonlinear_arith)
                    requires
                        acc > (limit - digit) / 10,
                        digit <= 9,
                        limit == 9223372036854775808u64,
                ;
                too_big = true;
            } else {
                assert(acc * 10 + digit <= limit) by (nonlinear_arith)
                    requires
                        acc <= (limit - digit) / 10,
                        digit <= 9,
                        limit == 9223372036854775808u64,
                ;
                acc = acc * 10 + digit;
            }
        }
        i = i + 1;
    }
    proof {
        assert(line@.subrange(start as int, line.len() as int) =~= d);
        if neg {
            assert(line@.subrange(1, line@.len() as int) =~= d);
        } else {
            assert(line@ =~= d);
        }
    }
    if too_big {
        None
    } else if neg {
        if acc == limit {
            Some(-9223372036854775807i64 - 1)
        } else {
            Some(-(acc as i64))
        }
    } else if acc > 9223372036854775807u64 {
        None
    } else {
        Some(acc as i64)
    }
}

/// Where the run of ASCII digits that starts at `i` ends.
fn skip_digits(t: &[u8], i: usize) -> (r: usize)
    requires
        i <= t.len(),
    ensures
        r as int == digits_end(t@, i as int),
        i <= r <= t.len(),
{
    let mut j = i;
    while j < t.len() && 48u8 <= t[j] && t[j] <= 57u8
        invariant
            i <= j <= t.len(),
            digits_end(t@, i as int) == digits_end(t@, j as int),
        decreases t.len() - j,
    {
        j = j + 1;
    }
    j
}

/// Where an optional sign at `i` ends.
fn skip_sign(t: &[u8], i: usize) -> (r: usize)
    requires
        i <= t.len(),
    ensures
        r as int == sign_end(t@, i as int),
        r <= t.len(),
{
    if i < t.len() && (t[i] == 43u8 || t[i] == 45u8) {
        i + 1
    } else {
        i
    }
}

/// Whether `t`, from `from` on, is `word` in ASCII lower case.
fn lower_matches_from(t: &[u8], from: usize, word: &[u8]) -> (r: bool)
    requires
        from <= t.len(),
    ensures
        r == (lower_bytes(t@.subrange(from as int, t@.len() as int)) == word@),
{
    let ghost w = lower_bytes(t@.subrange(from as int, t@.len() as int));
    if t.len() - from != word.len() {
        proof {
            if w == word@ {
                assert(w.len() == word@.len());
            }
        }
        return false;
    }
    let mut i: usize = 0;
    while i < word.len()
        invariant
            i <= word.len(),
            from <= t.len(),
            t.len() - from == word.len(),
            w == lower_bytes(t@.subrange(from as int, t@.len() as int)),
            forall|j: int| 0 <= j < i ==> #[trigger] w[j] == word@[j],
        decreases word.len() - i,
    {
        let b = t[from + i];
        let c = if 65u8 <= b && b <= 90u8 {
            b + 32
        } else {
            b
        };
        assert(w[i as int] == c);
        if c != word[i] {
            return false;
        }
        i = i + 1;
    }
    assert(w =~= word@);
    true
}

/// Whether `t` spells a double.
pub fn is_double(t: &[u8]) -> (r: bool)
    ensures
        r == is_double_text(t@),
{
    let i0 = skip_sign(t, 0);
    let inf: [u8; 3] = [105u8, 110u8, 102u8];
    let infinity: [u8; 8] = [105u8, 110u8, 102u8, 105u8, 110u8, 105u8, 116u8, 121u8];
    let nan: [u8; 3] = [110u8, 97u8, 110u8];
    let is_word = lower_matches_from(t, i0, inf.as_slice()) || lower_matches_from(
        t,
        i0,
        infinity.as_slice(),
    ) || lower_matches_from(t, i0, nan.as_slice());
    proof {
        assert(inf@ =~= seq![105u8, 110u8, 102u8]);
        assert(infinity@ =~= seq![105u8, 110u8, 102u8, 105u8, 110u8, 105u8, 116u8, 121u8]);
        assert(nan@ =~= seq![110u8, 97u8, 110u8]);
    }
    if is_word {
        return true;
    }
    let i1 = skip_digits(t, i0);
    let dot = i1 < t.len() && t[i1] == 46u8;
    let i2 = if dot {
        skip_digits(t, i1 + 1)
    } else {
        i1
    };
    let has_digits = i1 > i0 || (dot && i2 > i1 + 1);
    let exp_ok = if i2 == t.len() {
        true
    } else if t[i2] == 101u8 || t[i2] == 69u8 {
        let i3 = skip_sign(t, i2 + 1);
        let i4 = skip_digits(t, i3);
        i4 > i3 && i4 == t.len()
    } else {
        false
    };
    has_digits && exp_ok
}

} // verus!
