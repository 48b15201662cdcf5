//! The length probe: how many bytes the frame at the front of a buffer
//! takes, without building it.

use vstd::prelude::*;
use crate::frame::{RespError, RespFrame};
use crate::scan::{find_crlf, parse_number};
use crate::wire::{
    frame_len, is_line_tag, is_sized_tag, items_len, lemma_crlf_from, lemma_frame_len_bounds,
    lemma_items_len_bounds,
};

verus! {

/// A measured length as a mathematical one.
pub open spec fn len_result(r: Result<usize, RespError>) -> Result<int, RespError> {
    match r {
        Ok(n) => Ok(n as int),
        Err(e) => Err(e),
    }
}

pub(crate) fn line_tag(t: u8) -> (r: bool)
    ensures
        r == is_line_tag(t),
{
    t == 43u8 || t == 45u8 || t == 95u8 || t == 58u8 || t == 35u8 || t == 44u8
}

pub(crate) fn sized_tag(t: u8) -> (r: bool)
    ensures
        r == is_sized_tag(t),
{
    t == 36u8 || t == 42u8 || t == 37u8
}

/// The length of `k` frames one after another at the front of `s`.
fn items_length(s: &[u8], k: u64) -> (r: Result<usize, RespError>)
    ensures
        len_result(r) == items_len(s@, k as int),
    decreases s@.len(), k + 1,
{
    let mut off: usize = 0;
    let mut j: u64 = 0;
    assert(s@.subrange(0, s@.len() as int) =~= s@);
    while j < k
        invariant
            off <= s.len(),
            j <= k,
            items_len(s@, k as int) == match items_len(
                s@.subrange(off as int, s@.len() as int),
                k - j,
            ) {
                Ok(m) => Ok(m + off),
                Err(x) => Err(x),
            },
        decreases k - j,
    {
        let ghost rest = s@.subrange(off as int, s@.len() as int);
        let sub = &s[off..s.len()];
        match RespFrame::expect_length(sub) {
            Err(x) => {
                return Err(x);
            },
            Ok(m) => {
                proof {
                    lemma_frame_len_bounds(rest);
                    assert(rest.subrange(m as int, rest.len() as int) =~= s@.subrange(
                        off + m,
                        s@.len() as int,
                    ));
                }
                off = off + m;
                j = j + 1;
            },
        }
    }
    Ok(off)
}

impl RespFrame {
    /// How many bytes the frame at the front of `buf` takes. `NotComplete`
    /// where more bytes could still complete it; another error where none can.
    pub fn expect_length(buf: &[u8]) -> (r: Result<usize, RespError>)
        ensures
            len_result(r) == frame_len(buf@),
        decreases buf@.len(), 0int,
    {
        if buf.len() == 0 {
            return Err(RespError::NotComplete);
        }
        let tag = buf[0];
        proof {
            lemma_crlf_from(buf@, 1);
        }
        if line_tag(tag) {
            return match find_crlf(buf, 1) {
                Some(e) => Ok(e + 2),
                None => Err(RespError::NotComplete),
            };
        }
        if !sized_tag(tag) {
            return Err(RespError::InvalidFrameType(tag));
        }
        let e = match find_crlf(buf, 1) {
            None => {
                return Err(RespError::NotComplete);
            },
            Some(e) => e,
        };
        let n = match parse_number(&buf[1..e]) {
            None => {
                return Err(RespError::InvalidFrame);
            },
            Some(n) => n,
        };
        if n == -1 && tag != 37u8 {
            return Ok(e + 2);
        }
        if n < 0 {
            return Err(RespError::InvalidFrameLength(n));
        }
        let rem: u64 = (buf.len() - (e + 2)) as u64;
        if tag == 36u8 {
            if rem < (n as u64) + 2 {
                return Err(RespError::NotComplete);
            }
            let end = e + 2 + (n as usize);
            if buf[end] == 13u8 && buf[end + 1] == 10u8 {
                return Ok(end + 2);
            }
            return Err(RespError::InvalidFrame);
        }
        let k: u64 = if tag == 42u8 {
            n as u64
        } else {
            2 * (n as u64)
        };
        let body = &buf[e + 2..buf.len()];
        proof {
            lemma_items_len_bounds(body@, k as int);
        }
        match items_length(body, k) {
            Ok(m) => Ok(e + 2 + m),
            Err(x) => Err(x),
        }
    }
}

} // verus!
