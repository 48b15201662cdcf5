//! The mathematical model of frames and of their wire form.

use vstd::prelude::*;
use vstd::utf8::encode_utf8;

verus! {

/// A frame as a mathematical value.
pub enum RespValue {
    Null,
    Simple(Seq<char>),
    Error(Seq<char>),
    Integer(int),
    Boolean(bool),
    Bulk(Option<Seq<u8>>),
    Array(Option<Seq<RespValue>>),
    Double(Seq<u8>),
    Dict(Seq<(RespValue, RespValue)>),
}

pub open spec fn crlf() -> Seq<u8> {
    seq![13u8, 10u8]
}

/// The decimal digits of a natural number, most significant first.
pub open spec fn decimal(n: nat) -> Seq<u8>
    decreases n,
{
    if n < 10 {
        seq![(48 + n) as u8]
    } else {
        decimal(n / 10) + seq![(48 + n % 10) as u8]
    }
}

/// The decimal text of an integer, with a leading `-` when negative.
pub open spec fn int_text(i: int) -> Seq<u8> {
    if i < 0 {
        seq![45u8] + decimal((-i) as nat)
    } else {
        decimal(i as nat)
    }
}

/// The wire form of a frame.
pub open spec fn encoding(v: RespValue) -> Seq<u8>
    decreases v,
{
    match v {
        RespValue::Null => seq![95u8] + crlf(),
        RespValue::Simple(t) => seq![43u8] + encode_utf8(t) + crlf(),
        RespValue::Error(t) => seq![45u8] + encode_utf8(t) + crlf(),
        RespValue::Integer(i) => seq![58u8] + int_text(i) + crlf(),
        RespValue::Boolean(b) => seq![35u8, if b { 116u8 } else { 102u8 }] + crlf(),
        RespValue::Bulk(None) => seq![36u8, 45u8, 49u8] + crlf(),
        RespValue::Bulk(Some(d)) => seq![36u8] + decimal(d.len()) + crlf() + d + crlf(),
        RespValue::Array(None) => seq![42u8, 45u8, 49u8] + crlf(),
        RespValue::Array(Some(items)) => seq![42u8] + decimal(items.len()) + crlf()
            + encoding_all(items),
        RespValue::Double(t) => seq![44u8] + t + crlf(),
        RespValue::Dict(entries) => seq![37u8] + decimal(entries.len()) + crlf()
            + encoding_pairs(entries),
    }
}

/// The wire forms of a sequence of frames, one after another.
pub open spec fn encoding_all(items: Seq<RespValue>) -> Seq<u8>
    decreases items,
{
    if items.len() == 0 {
        Seq::empty()
    } else {
        encoding_all(items.drop_last()) + encoding(items.last())
    }
}

/// The wire forms of key-value pairs, each key followed by its value.
pub open spec fn encoding_pairs(entries: Seq<(RespValue, RespValue)>) -> Seq<u8>
    decreases entries,
{
    if entries.len() == 0 {
        Seq::empty()
    } else {
        encoding_pairs(entries.drop_last()) + encoding(entries.last().0) + encoding(
            entries.last().1,
        )
    }
}

} // verus!

verus! {

pub open spec fn is_digit(b: u8) -> bool {
    48 <= b <= 57
}

/// Where the run of ASCII digits that starts at `i` ends.
pub open spec fn digits_end(t: Seq<u8>, i: int) -> int
    recommends
        0 <= i <= t.len(),
    decreases t.len() - i,
{
    if 0 <= i < t.len() && is_digit(t[i]) {
        digits_end(t, i + 1)
    } else {
        i
    }
}

/// Where an optional `+` or `-` at `i` ends.
pub open spec fn sign_end(t: Seq<u8>, i: int) -> int {
    if 0 <= i < t.len() && (t[i] == 43u8 || t[i] == 45u8) {
        i + 1
    } else {
        i
    }
}

/// A byte in ASCII lower case.
pub open spec fn lower_byte(b: u8) -> u8 {
    if 65 <= b <= 90 {
        (b + 32) as u8
    } else {
        b
    }
}

/// Bytes in ASCII lower case.
pub open spec fn lower_bytes(t: Seq<u8>) -> Seq<u8> {
    Seq::new(t.len(), |i: int| lower_byte(t[i]))
}

/// The words for the infinite and not-a-number doubles: `inf`, `infinity`,
/// `nan`.
pub open spec fn is_double_word(w: Seq<u8>) -> bool {
    w == seq![105u8, 110u8, 102u8] || w == seq![
        105u8,
        110u8,
        102u8,
        105u8,
        110u8,
        105u8,
        116u8,
        121u8,
    ] || w == seq![110u8, 97u8, 110u8]
}

/// An optional `+` or `-`, then either `inf`, `infinity` or `nan` in any
/// case, or a decimal `<digits>[.<digits>]` with at least one digit on
/// either side of the point (`1.`, `.5`), and an optional exponent
/// `(e|E)[+|-]<digits>`.
pub open spec fn is_double_text(t: Seq<u8>) -> bool {
    let i0 = sign_end(t, 0);
    if is_double_word(lower_bytes(t.subrange(i0, t.len() as int))) {
        true
    } else {
        let i1 = digits_end(t, i0);
        let dot = i1 < t.len() && t[i1] == 46u8;
        let i2 = if dot {
            digits_end(t, i1 + 1)
        } else {
            i1
        };
        let n_digits = (i1 - i0) + if dot {
            i2 - i1 - 1
        } else {
            0
        };
        let exp_ok = if i2 == t.len() {
            true
        } else if t[i2] == 101u8 || t[i2] == 69u8 {
            let i3 = sign_end(t, i2 + 1);
            let i4 = digits_end(t, i3);
            i4 > i3 && i4 == t.len()
        } else {
            false
        };
        n_digits > 0 && exp_ok
    }
}

/// No carriage return in `b` is directly followed by a line feed.
pub open spec fn no_crlf(b: Seq<u8>) -> bool {
    forall|i: int| 0 <= i < b.len() - 1 ==> !(#[trigger] b[i] == 13u8 && b[i + 1] == 10u8)
}

/// The rank of a frame's kind in the order of frames.
pub open spec fn kind(v: RespValue) -> int {
    match v {
        RespValue::Null => 0,
        RespValue::Simple(_) => 1,
        RespValue::Error(_) => 2,
        RespValue::Integer(_) => 3,
        RespValue::Boolean(_) => 4,
        RespValue::Bulk(_) => 5,
        RespValue::Array(_) => 6,
        RespValue::Double(_) => 7,
        RespValue::Dict(_) => 8,
    }
}

/// Lexicographic order of byte strings; a proper prefix comes first.
pub open spec fn lex_lt(a: Seq<u8>, b: Seq<u8>) -> bool
    decreases a.len(),
{
    if a.len() == 0 {
        b.len() > 0
    } else if b.len() == 0 {
        false
    } else if a[0] != b[0] {
        a[0] < b[0]
    } else {
        lex_lt(a.subrange(1, a.len() as int), b.subrange(1, b.len() as int))
    }
}

/// The order of frames: by kind first, then by value within a kind. Texts
/// go by their UTF-8 bytes, which orders them by character; integers by
/// number; `false` before `true`; bulk strings and arrays with the null one
/// first, then by bytes or element by element; doubles by their spelling;
/// maps entry by entry, key before value.
pub open spec fn value_lt(a: RespValue, b: RespValue) -> bool
    decreases a,
{
    if kind(a) != kind(b) {
        kind(a) < kind(b)
    } else {
        match a {
            RespValue::Null => false,
            RespValue::Simple(x) => lex_lt(encode_utf8(x), encode_utf8(b->Simple_0)),
            RespValue::Error(x) => lex_lt(encode_utf8(x), encode_utf8(b->Error_0)),
            RespValue::Integer(x) => x < b->Integer_0,
            RespValue::Boolean(x) => !x && b->Boolean_0,
            RespValue::Bulk(x) => match x {
                None => b->Bulk_0 is Some,
                Some(p) => match b->Bulk_0 {
                    None => false,
                    Some(q) => lex_lt(p, q),
                },
            },
            RespValue::Array(x) => match x {
                None => b->Array_0 is Some,
                Some(p) => match b->Array_0 {
                    None => false,
                    Some(q) => seq_lt(p, q),
                },
            },
            RespValue::Double(x) => lex_lt(x, b->Double_0),
            RespValue::Dict(x) => pairs_lt(x, b->Dict_0),
        }
    }
}

/// Sequences of frames, element by element; a proper prefix comes first.
pub open spec fn seq_lt(x: Seq<RespValue>, y: Seq<RespValue>) -> bool
    decreases x,
{
    if x.len() == 0 {
        y.len() > 0
    } else if y.len() == 0 {
        false
    } else if x[0] != y[0] {
        value_lt(x[0], y[0])
    } else {
        seq_lt(x.subrange(1, x.len() as int), y.subrange(1, y.len() as int))
    }
}

/// Map entries, entry by entry and key before value; a proper prefix comes
/// first.
pub open spec fn pairs_lt(x: Seq<(RespValue, RespValue)>, y: Seq<(RespValue, RespValue)>) -> bool
    decreases x,
{
    if x.len() == 0 {
        y.len() > 0
    } else if y.len() == 0 {
        false
    } else if x[0].0 != y[0].0 {
        value_lt(x[0].0, y[0].0)
    } else if x[0].1 != y[0].1 {
        value_lt(x[0].1, y[0].1)
    } else {
        pairs_lt(x.subrange(1, x.len() as int), y.subrange(1, y.len() as int))
    }
}

/// Inserting a pair into a map held as a sequence sorted by key: a key that
/// is neither below nor above an existing key takes that entry's place, the
/// existing key is kept and the value replaced.
pub open spec fn map_insert(
    m: Seq<(RespValue, RespValue)>,
    k: RespValue,
    v: RespValue,
) -> Seq<(RespValue, RespValue)>
    decreases m.len(),
{
    if m.len() == 0 {
        seq![(k, v)]
    } else if value_lt(k, m[0].0) {
        seq![(k, v)] + m
    } else if value_lt(m[0].0, k) {
        seq![m[0]] + map_insert(m.subrange(1, m.len() as int), k, v)
    } else {
        seq![(m[0].0, v)] + m.subrange(1, m.len() as int)
    }
}

/// The map built by inserting the pairs in order into an empty map.
pub open spec fn map_from_pairs(pairs: Seq<(RespValue, RespValue)>) -> Seq<(RespValue, RespValue)>
    decreases pairs.len(),
{
    if pairs.len() == 0 {
        Seq::empty()
    } else {
        let last = pairs.last();
        map_insert(map_from_pairs(pairs.drop_last()), last.0, last.1)
    }
}

pub open spec fn keys_sorted(m: Seq<(RespValue, RespValue)>) -> bool {
    forall|i: int, j: int| 0 <= i < j < m.len() ==> value_lt(#[trigger] m[i].0, #[trigger] m[j].0)
}

/// A frame whose wire form decodes back to it: integers and lengths fit in
/// 64-bit signed integers, texts hold no CRLF, doubles are well spelled, and
/// map keys are sorted; the same for nested frames.
pub open spec fn well_formed(v: RespValue) -> bool
    decreases v,
{
    match v {
        RespValue::Simple(t) => no_crlf(encode_utf8(t)),
        RespValue::Error(t) => no_crlf(encode_utf8(t)),
        RespValue::Integer(i) => i64::MIN <= i <= i64::MAX,
        RespValue::Bulk(Some(d)) => d.len() <= i64::MAX,
        RespValue::Double(t) => is_double_text(t),
        RespValue::Array(Some(items)) => items.len() <= i64::MAX && forall|i: int|
            0 <= i < items.len() ==> well_formed(#[trigger] items[i]),
        RespValue::Dict(m) => m.len() <= i64::MAX && keys_sorted(m) && forall|i: int|
            0 <= i < m.len() ==> well_formed(#[trigger] m[i].0) && well_formed(m[i].1),
        _ => true,
    }
}

} // verus!
