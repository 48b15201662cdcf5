//! The structural decoder: the frame that a complete frame's bytes stand for.

use vstd::prelude::*;
use crate::encode::push_bytes;
use crate::frame::{
    frame_values, lemma_frame_values, BulkString, Double, RespArray, RespError, RespFrame,
    RespMap, RespNull, SimpleError, SimpleString,
};
use crate::model::{map_from_pairs, RespValue};
use crate::scan::{find_crlf, is_double, parse_number};
use crate::text::text_from_bytes;
use crate::wire::{
    decode_items, decode_value, frame_len, is_sized_tag, lemma_crlf_from, lemma_frame_len_bounds,
    pair_up,
};

verus! {

/// A decoded frame as a mathematical one.
pub open spec fn frame_result(r: Result<RespFrame, RespError>) -> Result<RespValue, RespError> {
    match r {
        Ok(f) => Ok(f@),
        Err(e) => Err(e),
    }
}

fn copy_bytes(b: &[u8]) -> (r: Vec<u8>)
    ensures
        r@ == b@,
{
    let mut out: Vec<u8> = Vec::new();
    push_bytes(&mut out, b);
    assert(out@ =~= b@);
    out
}

/// The `k` frames one after another at the front of `s`.
fn decode_frames(s: &[u8], k: u64) -> (r: Result<Vec<RespFrame>, RespError>)
    ensures
        match r {
            Ok(v) => decode_items(s@, k as int) == Ok::<Seq<RespValue>, RespError>(
                frame_values(v@),
            ) && v@.len() == k,
            Err(e) => decode_items(s@, k as int) == Err::<Seq<RespValue>, RespError>(e),
        },
    decreases s@.len(), k + 2,
{
    let mut out: Vec<RespFrame> = Vec::new();
    let mut off: usize = 0;
    let mut j: u64 = 0;
    assert(s@.subrange(0, s@.len() as int) =~= s@);
    proof {
        lemma_frame_values(out@);
        assert(frame_values(out@) + Seq::<RespValue>::empty() =~= Seq::<RespValue>::empty());
    }
    while j < k
        invariant
            off <= s.len(),
            j <= k,
            out@.len() == j,
            decode_items(s@, k as int) == match decode_items(
                s@.subrange(off as int, s@.len() as int),
                k - j,
            ) {
                Ok(rest) => Ok(frame_values(out@) + rest),
                Err(x) => Err(x),
            },
        decreases k - j,
    {
        let ghost rest = s@.subrange(off as int, s@.len() as int);
        let sub = &s[off..s.len()];
        let m = match RespFrame::expect_length(sub) {
            Err(x) => {
                return Err(x);
            },
            Ok(m) => m,
        };
        proof {
            lemma_frame_len_bounds(rest);
        }
        let one = &s[off..off + m];
        assert(one@ =~= rest.subrange(0, m as int));
        let v = match decode_exact_slice(one) {
            Err(x) => {
                return Err(x);
            },
            Ok(v) => v,
        };
        let ghost before = out@;
        out.push(v);
        proof {
            assert(rest.subrange(m as int, rest.len() as int) =~= s@.subrange(
                off + m,
                s@.len() as int,
            ));
            lemma_frame_values(before);
            lemma_frame_values(out@);
            assert(frame_values(out@) =~= frame_values(before) + seq![v@]);
            match decode_items(s@.subrange(off + m, s@.len() as int), k - j - 1) {
                Ok(r2) => {
                    assert(frame_values(before) + (seq![v@] + r2) =~= frame_values(out@) + r2);
                },
                Err(_) => {},
            }
        }
        off = off + m;
        j = j + 1;
    }
    proof {
        let rest = s@.subrange(off as int, s@.len() as int);
        assert(frame_values(out@) + Seq::<RespValue>::empty() =~= frame_values(out@));
    }
    Ok(out)
}

/// Builds a map by inserting neighbouring frames as key and value, in order.
fn build_map(items: Vec<RespFrame>) -> (r: RespMap)
    requires
        items@.len() % 2 == 0,
    ensures
        r@ == map_from_pairs(pair_up(frame_values(items@))),
{
    let ghost all = frame_values(items@);
    proof {
        lemma_frame_values(items@);
    }
    let mut items = items;
    let mut map = RespMap::new();
    let ghost taken: int = 0;
    proof {
        assert(pair_up(all.subrange(0, 0)) =~= Seq::<(RespValue, RespValue)>::empty());
    }
    while items.len() >= 2
        invariant
            0 <= taken <= all.len(),
            taken % 2 == 0,
            items@.len() == all.len() - taken,
            forall|i: int| 0 <= i < items@.len() ==> #[trigger] items@[i]@ == all[taken + i],
            map@ == map_from_pairs(pair_up(all.subrange(0, taken))),
        decreases items@.len(),
    {
        let ghost before = items@;
        let key = items.remove(0);
        assert(key@ == all[taken]);
        assert(forall|i: int| 0 <= i < items@.len() ==> #[trigger] items@[i] == before[i + 1]);
        let ghost mid = items@;
        let value = items.remove(0);
        assert(value@ == all[taken + 1]);
        assert(forall|i: int| 0 <= i < items@.len() ==> #[trigger] items@[i] == mid[i + 1]);
        map.insert(key, value);
        proof {
            let p = pair_up(all.subrange(0, taken + 2));
            assert(p.drop_last() =~= pair_up(all.subrange(0, taken)));
            assert(p.last() == (all[taken], all[taken + 1]));
            taken = taken + 2;
        }
    }
    proof {
        assert(taken == all.len());
        assert(all.subrange(0, taken) =~= all);
    }
    map
}

/// The frame that the complete frame `s` stands for.
pub(crate) fn decode_exact_slice(s: &[u8]) -> (r: Result<RespFrame, RespError>)
    ensures
        frame_result(r) == decode_value(s@),
    decreases s@.len(), 1int,
{
    if s.len() < 3 {
        return Err(RespError::InvalidFrame);
    }
    let tag = s[0];
    let body = &s[1..s.len() - 2];
    if tag == 43u8 {
        return Ok(RespFrame::SimpleString(SimpleString(text_from_bytes(body))));
    }
    if tag == 45u8 {
        return Ok(RespFrame::Error(SimpleError(text_from_bytes(body))));
    }
    if tag == 58u8 {
        return match parse_number(body) {
            Some(i) => Ok(RespFrame::Integer(i)),
            None => Err(RespError::InvalidFrame),
        };
    }
    if tag == 35u8 {
        if body.len() == 1 && body[0] == 116u8 {
            assert(body@ =~= seq![116u8]);
            return Ok(RespFrame::Boolean(true));
        }
        if body.len() == 1 && body[0] == 102u8 {
            assert(body@ =~= seq![102u8]);
            return Ok(RespFrame::Boolean(false));
        }
        proof {
            if body@ == seq![116u8] || body@ == seq![102u8] {
                assert(body@[0] == body@[0]);
            }
        }
        return Err(RespError::InvalidFrame);
    }
    if tag == 95u8 {
        if body.len() == 0 {
            return Ok(RespFrame::Null(RespNull));
        }
        return Err(RespError::InvalidFrame);
    }
    if tag == 44u8 {
        if is_double(body) {
            return Ok(RespFrame::Double(Double(copy_bytes(body))));
        }
        return Err(RespError::InvalidFrame);
    }
    if !(tag == 36u8 || tag == 42u8 || tag == 37u8) {
        return Err(RespError::InvalidFrameType(tag));
    }
    proof {
        lemma_crlf_from(s@, 1);
    }
    let e = match find_crlf(s, 1) {
        None => {
            return Err(RespError::InvalidFrame);
        },
        Some(e) => e,
    };
    let n = match parse_number(&s[1..e]) {
        None => {
            return Err(RespError::InvalidFrame);
        },
        Some(n) => n,
    };
    if n == -1 && tag == 36u8 {
        return Ok(RespFrame::BulkString(None));
    }
    if n == -1 && tag == 42u8 {
        return Ok(RespFrame::Array(None));
    }
    if n < 0 {
        return Err(RespError::InvalidFrame);
    }
    if tag == 36u8 {
        if (n as u64) > ((s.len() - (e + 2)) as u64) {
            return Err(RespError::InvalidFrame);
        }
        let data = copy_bytes(&s[e + 2..e + 2 + (n as usize)]);
        return Ok(RespFrame::BulkString(Some(BulkString(data))));
    }
    let k: u64 = if tag == 42u8 {
        n as u64
    } else {
        2 * (n as u64)
    };
    let rest = &s[e + 2..s.len()];
    match decode_frames(rest, k) {
        Err(x) => Err(x),
        Ok(items) => {
            if tag == 42u8 {
                Ok(RespFrame::Array(Some(RespArray(items))))
            } else {
                Ok(RespFrame::Dict(build_map(items)))
            }
        },
    }
}

impl RespFrame {
    /// The frame that `buf`, exactly one complete frame, stands for. Bytes
    /// that the probe does not measure as one whole frame are refused: with
    /// the probe's error, or `InvalidFrame` where bytes follow the frame.
    /// A breach of the grammar in a text, number or marker is an error; the
    /// text of strings and errors is taken leniently, invalid UTF-8 being
    /// replaced.
    pub fn decode_exact(buf: &[u8]) -> (r: Result<RespFrame, RespError>)
        ensures
            match frame_len(buf@) {
                Err(e) => r == Err::<RespFrame, RespError>(e),
                Ok(n) => if n == buf@.len() {
                    frame_result(r) == decode_value(buf@)
                } else {
                    r == Err::<RespFrame, RespError>(RespError::InvalidFrame)
                },
            },
    {
        match RespFrame::expect_length(buf) {
            Err(e) => Err(e),
            Ok(n) => if n == buf.len() {
                decode_exact_slice(buf)
            } else {
                Err(RespError::InvalidFrame)
            },
        }
    }
}

} // verus!
