//! The grammar of the wire form: how long the frame at the front of some
//! bytes is, and which frame a complete one is.

use vstd::prelude::*;
use crate::frame::RespError;
use crate::model::{is_digit, is_double_text, map_from_pairs, RespValue};
use crate::text::text_of;

verus! {

pub open spec fn is_cr_lf(s: Seq<u8>, i: int) -> bool {
    0 <= i && i + 1 < s.len() && s[i] == 13u8 && s[i + 1] == 10u8
}

/// The first CRLF at or after `i`.
pub open spec fn crlf_from(s: Seq<u8>, i: int) -> Option<int>
    decreases s.len() - i,
{
    if i < 0 || i + 1 >= s.len() {
        None
    } else if is_cr_lf(s, i) {
        Some(i)
    } else {
        crlf_from(s, i + 1)
    }
}

pub open spec fn all_digits(d: Seq<u8>) -> bool {
    forall|i: int| 0 <= i < d.len() ==> is_digit(#[trigger] d[i])
}

/// The number that decimal digits stand for.
pub open spec fn digits_value(d: Seq<u8>) -> int
    decreases d.len(),
{
    if d.len() == 0 {
        0
    } else {
        digits_value(d.drop_last()) * 10 + (d.last() - 48)
    }
}

/// An optional `-` and one or more ASCII digits, as an integer.
pub open spec fn parse_int(line: Seq<u8>) -> Option<int> {
    if line.len() > 0 && line[0] == 45u8 {
        let d = line.subrange(1, line.len() as int);
        if d.len() > 0 && all_digits(d) {
            Some(-digits_value(d))
        } else {
            None
        }
    } else if line.len() > 0 && all_digits(line) {
        Some(digits_value(line))
    } else {
        None
    }
}

/// A number field that holds a 64-bit signed integer.
pub open spec fn parse_i64(line: Seq<u8>) -> Option<int> {
    match parse_int(line) {
        Some(v) => if i64::MIN <= v <= i64::MAX {
            Some(v)
        } else {
            None
        },
        None => None,
    }
}

/// Where the first CRLF at or after `i` stands.
pub proof fn lemma_crlf_from(s: Seq<u8>, i: int)
    requires
        0 <= i,
    ensures
        match crlf_from(s, i) {
            Some(e) => i <= e && is_cr_lf(s, e) && forall|j: int|
                i <= j < e ==> !is_cr_lf(s, j),
            None => forall|j: int| i <= j ==> !is_cr_lf(s, j),
        },
    decreases s.len() - i,
{
    if i + 1 >= s.len() {
    } else if is_cr_lf(s, i) {
    } else {
        lemma_crlf_from(s, i + 1);
    }
}

/// Tags of the frames that end at their first CRLF.
pub open spec fn is_line_tag(t: u8) -> bool {
    t == 43u8 || t == 45u8 || t == 95u8 || t == 58u8 || t == 35u8 || t == 44u8
}

/// Tags of the frames with a length or count field: `$`, `*`, `%`.
pub open spec fn is_sized_tag(t: u8) -> bool {
    t == 36u8 || t == 42u8 || t == 37u8
}

/// The length of the frame at the front of `s`, `NotComplete` where `s` is
/// too short to tell, or the breach of the grammar that rules it out.
pub open spec fn frame_len(s: Seq<u8>) -> Result<int, RespError>
    decreases s.len(), 0int,
    via frame_len_decreases
{
    if s.len() == 0 {
        Err(RespError::NotComplete)
    } else if is_line_tag(s[0]) {
        match crlf_from(s, 1) {
            Some(e) => Ok(e + 2),
            None => Err(RespError::NotComplete),
        }
    } else if is_sized_tag(s[0]) {
        match crlf_from(s, 1) {
            None => Err(RespError::NotComplete),
            Some(e) => match parse_i64(s.subrange(1, e)) {
                None => Err(RespError::InvalidFrame),
                Some(n) => if n == -1 && s[0] != 37u8 {
                    Ok(e + 2)
                } else if n < 0 {
                    Err(RespError::InvalidFrameLength(n as i64))
                } else if s[0] == 36u8 {
                    if s.len() < e + n + 4 {
                        Err(RespError::NotComplete)
                    } else if is_cr_lf(s, e + n + 2) {
                        Ok(e + n + 4)
                    } else {
                        Err(RespError::InvalidFrame)
                    }
                } else {
                    let k = if s[0] == 42u8 {
                        n
                    } else {
                        2 * n
                    };
                    match items_len(s.subrange(e + 2, s.len() as int), k) {
                        Ok(m) => Ok(e + 2 + m),
                        Err(x) => Err(x),
                    }
                }
            },
        }
    } else {
        Err(RespError::InvalidFrameType(s[0]))
    }
}

#[via_fn]
proof fn frame_len_decreases(s: Seq<u8>) {
    lemma_crlf_from(s, 1);
}

/// The length of `k` frames one after another at the front of `s`.
pub open spec fn items_len(s: Seq<u8>, k: int) -> Result<int, RespError>
    decreases s.len(), k + 1,
{
    if k <= 0 {
        Ok(0)
    } else {
        match frame_len(s) {
            Err(x) => Err(x),
            Ok(m) => if 0 < m <= s.len() {
                match items_len(s.subrange(m, s.len() as int), k - 1) {
                    Ok(r) => Ok(m + r),
                    Err(x) => Err(x),
                }
            } else {
                Err(RespError::InvalidFrame)
            },
        }
    }
}

/// A measured frame takes at least three bytes and no more than there are.
pub proof fn lemma_frame_len_bounds(s: Seq<u8>)
    ensures
        frame_len(s) is Ok ==> 3 <= frame_len(s)->Ok_0 <= s.len(),
    decreases s.len(), 0int,
{
    if s.len() > 0 && (is_line_tag(s[0]) || is_sized_tag(s[0])) {
        lemma_crlf_from(s, 1);
        if is_sized_tag(s[0]) {
            if let Some(e) = crlf_from(s, 1) {
                if let Some(n) = parse_i64(s.subrange(1, e)) {
                    if n >= 0 && s[0] != 36u8 {
                        let k = if s[0] == 42u8 {
                            n
                        } else {
                            2 * n
                        };
                        lemma_items_len_bounds(s.subrange(e + 2, s.len() as int), k);
                    }
                }
            }
        }
    }
}

/// Measured frames one after another take no more bytes than there are.
pub proof fn lemma_items_len_bounds(s: Seq<u8>, k: int)
    ensures
        items_len(s, k) is Ok ==> 0 <= items_len(s, k)->Ok_0 <= s.len(),
    decreases s.len(), k + 1,
{
    if k > 0 {
        if let Ok(m) = frame_len(s) {
            if 0 < m <= s.len() {
                lemma_items_len_bounds(s.subrange(m, s.len() as int), k - 1);
            }
        }
    }
}

/// Pairs of neighbours: the first with the second, the third with the fourth.
pub open spec fn pair_up(items: Seq<RespValue>) -> Seq<(RespValue, RespValue)> {
    Seq::new(items.len() / 2, |i: int| (items[2 * i], items[2 * i + 1]))
}

/// The frame that the complete frame `s` stands for.
pub open spec fn decode_value(s: Seq<u8>) -> Result<RespValue, RespError>
    decreases s.len(), 1int,
{
    if s.len() < 3 {
        Err(RespError::InvalidFrame)
    } else {
        let body = s.subrange(1, s.len() - 2);
        let tag = s[0];
        if tag == 43u8 {
            Ok(RespValue::Simple(text_of(body)))
        } else if tag == 45u8 {
            Ok(RespValue::Error(text_of(body)))
        } else if tag == 58u8 {
            match parse_i64(body) {
                Some(i) => Ok(RespValue::Integer(i)),
                None => Err(RespError::InvalidFrame),
            }
        } else if tag == 35u8 {
            if body == seq![116u8] {
                Ok(RespValue::Boolean(true))
            } else if body == seq![102u8] {
                Ok(RespValue::Boolean(false))
            } else {
                Err(RespError::InvalidFrame)
            }
        } else if tag == 95u8 {
            if body.len() == 0 {
                Ok(RespValue::Null)
            } else {
                Err(RespError::InvalidFrame)
            }
        } else if tag == 44u8 {
            if is_double_text(body) {
                Ok(RespValue::Double(body))
            } else {
                Err(RespError::InvalidFrame)
            }
        } else if is_sized_tag(tag) {
            decode_sized(s)
        } else {
            Err(RespError::InvalidFrameType(tag))
        }
    }
}

/// The frame that the complete frame `s`, a bulk string, an array or a map,
/// stands for.
pub open spec fn decode_sized(s: Seq<u8>) -> Result<RespValue, RespError>
    decreases s.len(), 0int,
    via decode_sized_decreases
{
    let tag = s[0];
    match crlf_from(s, 1) {
        None => Err(RespError::InvalidFrame),
        Some(e) => match parse_i64(s.subrange(1, e)) {
            None => Err(RespError::InvalidFrame),
            Some(n) => if n == -1 && tag == 36u8 {
                Ok(RespValue::Bulk(None))
            } else if n == -1 && tag == 42u8 {
                Ok(RespValue::Array(None))
            } else if n < 0 {
                Err(RespError::InvalidFrame)
            } else if tag == 36u8 {
                if e + n + 2 > s.len() {
                    Err(RespError::InvalidFrame)
                } else {
                    Ok(RespValue::Bulk(Some(s.subrange(e + 2, e + 2 + n))))
                }
            } else {
                let k = if tag == 42u8 {
                    n
                } else {
                    2 * n
                };
                match decode_items(s.subrange(e + 2, s.len() as int), k) {
                    Err(x) => Err(x),
                    Ok(items) => if tag == 42u8 {
                        Ok(RespValue::Array(Some(items)))
                    } else {
                        Ok(RespValue::Dict(map_from_pairs(pair_up(items))))
                    },
                }
            },
        },
    }
}

#[via_fn]
proof fn decode_sized_decreases(s: Seq<u8>) {
    lemma_crlf_from(s, 1);
}

/// The `k` frames one after another at the front of `s`.
pub open spec fn decode_items(s: Seq<u8>, k: int) -> Result<Seq<RespValue>, RespError>
    decreases s.len(), k + 2,
{
    if k <= 0 {
        Ok(Seq::empty())
    } else {
        match frame_len(s) {
            Ok(m) => if 0 < m <= s.len() {
                match decode_value(s.subrange(0, m)) {
                    Err(x) => Err(x),
                    Ok(v) => match decode_items(s.subrange(m, s.len() as int), k - 1) {
                        Err(x) => Err(x),
                        Ok(rest) => Ok(seq![v] + rest),
                    },
                }
            } else {
                Err(RespError::InvalidFrame)
            },
            Err(x) => Err(x),
        }
    }
}

} // verus!
