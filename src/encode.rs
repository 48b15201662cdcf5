//! Encoding frames into their wire form.

use vstd::prelude::*;
use crate::frame::{lemma_frame_values, lemma_pair_values, RespFrame};
use crate::model::{crlf, decimal, encoding, encoding_all, encoding_pairs, int_text};

verus! {

/// Appends `bytes` to `out`.
pub(crate) fn push_bytes(out: &mut Vec<u8>, bytes: &[u8])
    ensures
        final(out)@ == old(out)@ + bytes@,
{
    let mut i: usize = 0;
    while i < bytes.len()
        invariant
            i <= bytes.len(),
            out@ == old(out)@ + bytes@.subrange(0, i as int),
        decreases bytes.len() - i,
    {
        out.push(bytes[i]);
        i = i + 1;
        assert(out@ =~= old(out)@ + bytes@.subrange(0, i as int));
    }
    assert(bytes@.subrange(0, i as int) =~= bytes@);
}

fn push_crlf(out: &mut Vec<u8>)
    ensures
        final(out)@ == old(out)@ + crlf(),
{
    out.push(13u8);
    out.push(10u8);
    assert(out@ =~= old(out)@ + crlf());
}

/// Appends the decimal digits of `n`.
pub(crate) fn push_decimal(out: &mut Vec<u8>, n: u64)
    ensures
        final(out)@ == old(out)@ + decimal(n as nat),
    decreases n,
{
    if n >= 10 {
        push_decimal(out, n / 10);
    }
    out.push((48 + n % 10) as u8);
    assert(out@ =~= old(out)@ + decimal(n as nat));
}

/// Appends the decimal text of `i`.
fn push_integer(out: &mut Vec<u8>, i: i64)
    ensures
        final(out)@ == old(out)@ + int_text(i as int),
{
    if i < 0 {
        out.push(45u8);
        let m: u64 = if i == -9223372036854775807i64 - 1 {
            9223372036854775808u64
        } else {
            (-i) as u64
        };
        push_decimal(out, m);
        assert(out@ =~= old(out)@ + int_text(i as int));
    } else {
        push_decimal(out, i as u64);
    }
}

/// Appends the wire form of `f`.
pub(crate) fn write_frame(f: &RespFrame, out: &mut Vec<u8>)
    ensures
        final(out)@ == old(out)@ + encoding(f@),
    decreases f@,
{
    match f {
        RespFrame::Null(_) => {
            out.push(95u8);
            push_crlf(out);
        },
        RespFrame::SimpleString(s) => {
            out.push(43u8);
            push_bytes(out, s.0.as_str().as_bytes());
            push_crlf(out);
        },
        RespFrame::Error(s) => {
            out.push(45u8);
            push_bytes(out, s.0.as_str().as_bytes());
            push_crlf(out);
        },
        RespFrame::Integer(i) => {
            out.push(58u8);
            push_integer(out, *i);
            push_crlf(out);
        },
        RespFrame::Boolean(b) => {
            out.push(35u8);
            out.push(
                if *b {
                    116u8
                } else {
                    102u8
                },
            );
            push_crlf(out);
        },
        RespFrame::BulkString(None) => {
            out.push(36u8);
            out.push(45u8);
            out.push(49u8);
            push_crlf(out);
        },
        RespFrame::BulkString(Some(b)) => {
            out.push(36u8);
            push_decimal(out, b.0.len() as u64);
            push_crlf(out);
            push_bytes(out, b.0.as_slice());
            push_crlf(out);
        },
        RespFrame::Array(None) => {
            out.push(42u8);
            out.push(45u8);
            out.push(49u8);
            push_crlf(out);
        },
        RespFrame::Array(Some(a)) => {
            out.push(42u8);
            push_decimal(out, a.0.len() as u64);
            push_crlf(out);
            let ghost head = out@;
            let ghost items = crate::frame::frame_values(a.0@);
            proof {
                lemma_frame_values(a.0@);
                assert(items.subrange(0, 0) =~= Seq::<crate::model::RespValue>::empty());
            }
            let mut i: usize = 0;
            while i < a.0.len()
                invariant
                    i <= a.0.len(),
                    items == crate::frame::frame_values(a.0@),
                    f@ == crate::model::RespValue::Array(Some(items)),
                    items.len() == a.0.len(),
                    forall|j: int| 0 <= j < a.0.len() ==> #[trigger] items[j] == a.0@[j]@,
                    out@ == head + encoding_all(items.subrange(0, i as int)),
                decreases a.0.len() - i,
            {
                proof {
                    assert(f@ == crate::model::RespValue::Array(Some(items)));
                    assert(decreases_to!(f@ => f@->Array_0));
                    assert(decreases_to!(f@->Array_0 => f@->Array_0->Some_0));
                    assert(decreases_to!(items => items[i as int]));
                }
                write_frame(&a.0[i], out);
                proof {
                    let p = items.subrange(0, i + 1);
                    assert(p.drop_last() =~= items.subrange(0, i as int));
                }
                i = i + 1;
            }
            assert(items.subrange(0, i as int) =~= items);
            assert(out@ =~= old(out)@ + encoding(f@));
        },
        RespFrame::Double(d) => {
            out.push(44u8);
            push_bytes(out, d.0.as_slice());
            push_crlf(out);
        },
        RespFrame::Dict(m) => {
            out.push(37u8);
            push_decimal(out, m.0.len() as u64);
            push_crlf(out);
            let ghost head = out@;
            let ghost entries = crate::frame::pair_values(m.0@);
            proof {
                lemma_pair_values(m.0@);
            }
            let mut i: usize = 0;
            while i < m.0.len()
                invariant
                    i <= m.0.len(),
                    entries == crate::frame::pair_values(m.0@),
                    f@ == crate::model::RespValue::Dict(entries),
                    entries.len() == m.0.len(),
                    forall|j: int|
                        0 <= j < m.0.len() ==> #[trigger] entries[j] == (
                            m.0@[j].0@,
                            m.0@[j].1@,
                        ),
                    out@ == head + encoding_pairs(entries.subrange(0, i as int)),
                decreases m.0.len() - i,
            {
                proof {
                    assert(f@ == crate::model::RespValue::Dict(entries));
                    assert(decreases_to!(f@ => f@->Dict_0));
                    assert(decreases_to!(entries => entries[i as int]));
                    assert(decreases_to!(entries[i as int] => entries[i as int].0));
                    assert(decreases_to!(entries[i as int] => entries[i as int].1));
                }
                write_frame(&m.0[i].0, out);
                write_frame(&m.0[i].1, out);
                proof {
                    let p = entries.subrange(0, i + 1);
                    assert(p.drop_last() =~= entries.subrange(0, i as int));
                }
                i = i + 1;
            }
            assert(entries.subrange(0, i as int) =~= entries);
            assert(out@ =~= old(out)@ + encoding(f@));
        },
    }
    assert(out@ =~= old(out)@ + encoding(f@));
}

impl RespFrame {
    /// The wire form of this frame.
    pub fn encode(&self) -> (r: Vec<u8>)
        ensures
            r@ == encoding(self@),
    {
        let mut out: Vec<u8> = Vec::new();
        write_frame(self, &mut out);
        assert(out@ =~= encoding(self@));
        out
    }
}

} // verus!
