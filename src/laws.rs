//! What holds of the codec as a whole: decoding undoes encoding, and a
//! frame cut short is reported as such.

use vstd::prelude::*;
use vstd::utf8::{encode_utf8, encode_utf8_decode_utf8, encode_utf8_valid_utf8};
use crate::model::{
    crlf, decimal, digits_end, encoding, encoding_all, encoding_pairs, int_text, is_digit,
    is_double_text, is_double_word, keys_sorted, lower_byte, lower_bytes, lex_lt, map_from_pairs, map_insert, no_crlf, pairs_lt, seq_lt, sign_end, value_lt,
    well_formed, RespValue,
};
use crate::frame::{RespError, RespFrame};
use crate::wire::{
    all_digits, crlf_from, decode_items, decode_value, digits_value, frame_len, is_cr_lf,
    items_len, lemma_crlf_from, pair_up, parse_i64, parse_int,
};

verus! {

/// A CRLF at `end` with none from `start` on before it is the first one.
proof fn lemma_crlf_at(s: Seq<u8>, start: int, end: int)
    requires
        0 <= start <= end,
        is_cr_lf(s, end),
        forall|j: int| start <= j < end ==> !is_cr_lf(s, j),
    ensures
        crlf_from(s, start) == Some(end),
    decreases end - start,
{
    if start < end {
        lemma_crlf_at(s, start + 1, end);
    }
}

/// In a line `tag p CRLF t` whose `p` holds no CRLF, the first CRLF after the
/// tag ends `p`.
proof fn lemma_line(tag: u8, p: Seq<u8>, t: Seq<u8>)
    requires
        no_crlf(p),
    ensures
        crlf_from(seq![tag] + p + crlf() + t, 1) == Some(1 + p.len() as int),
        (seq![tag] + p + crlf() + t).subrange(1, 1 + p.len() as int) == p,
{
    let s = seq![tag] + p + crlf() + t;
    assert forall|j: int| 1 <= j < 1 + p.len() as int implies !is_cr_lf(s, j) by {
        if j < p.len() {
            assert(s[j] == p[j - 1] && s[j + 1] == p[j]);
        } else {
            assert(s[j + 1] == 13u8);
        }
    }
    assert(s[1 + p.len() as int] == 13u8 && s[2 + p.len() as int] == 10u8);
    lemma_crlf_at(s, 1, 1 + p.len() as int);
    assert(s.subrange(1, 1 + p.len() as int) =~= p);
}

proof fn lemma_digits_no_crlf(p: Seq<u8>)
    requires
        all_digits(p),
    ensures
        no_crlf(p),
{
    assert forall|i: int| 0 <= i < p.len() - 1 implies !(#[trigger] p[i] == 13u8 && p[i + 1]
        == 10u8) by {
        assert(is_digit(p[i]));
    }
}

proof fn lemma_decimal(n: nat)
    ensures
        decimal(n).len() > 0,
        all_digits(decimal(n)),
        digits_value(decimal(n)) == n,
    decreases n,
{
    let d = decimal(n);
    if n >= 10 {
        lemma_decimal(n / 10);
        assert(d.drop_last() =~= decimal(n / 10));
        assert(forall|i: int| 0 <= i < d.len() - 1 ==> d[i] == decimal(n / 10)[i]);
        assert(d.last() == (48 + n % 10) as u8);
        assert((n / 10) * 10 + n % 10 == n) by (nonlinear_arith);
        assert(digits_value(d) == digits_value(d.drop_last()) * 10 + (d.last() - 48));
    } else {
        assert(d.drop_last() =~= Seq::<u8>::empty());
        assert(digits_value(d) == digits_value(d.drop_last()) * 10 + (d.last() - 48));
    }
}

proof fn lemma_int_text(i: int)
    requires
        i64::MIN <= i <= i64::MAX,
    ensures
        parse_i64(int_text(i)) == Some(i),
        no_crlf(int_text(i)),
{
    if i < 0 {
        let d = decimal((-i) as nat);
        lemma_decimal((-i) as nat);
        let line = int_text(i);
        assert(line.subrange(1, line.len() as int) =~= d);
        assert forall|j: int| 0 <= j < line.len() - 1 implies !(#[trigger] line[j] == 13u8 && line[j
            + 1] == 10u8) by {
            assert(is_digit(d[j]));
        }
    } else {
        lemma_decimal(i as nat);
        lemma_digits_no_crlf(decimal(i as nat));
        assert(is_digit(int_text(i)[0]));
    }
}

/// The wire form of a count: its digits parse back to it.
proof fn lemma_count_line(tag: u8, n: nat, t: Seq<u8>)
    requires
        n <= i64::MAX,
    ensures
        crlf_from(seq![tag] + decimal(n) + crlf() + t, 1) == Some(1 + decimal(n).len() as int),
        parse_i64((seq![tag] + decimal(n) + crlf() + t).subrange(1, 1 + decimal(n).len() as int)) == Some(
            n as int,
        ),
{
    lemma_decimal(n);
    lemma_digits_no_crlf(decimal(n));
    lemma_line(tag, decimal(n), t);
    assert(!(decimal(n)[0] == 45u8)) by {
        assert(is_digit(decimal(n)[0]));
    }
}

proof fn lemma_encoding_all_front(items: Seq<RespValue>)
    requires
        items.len() > 0,
    ensures
        encoding_all(items) == encoding(items[0]) + encoding_all(items.subrange(1, items.len() as int)),
    decreases items.len(),
{
    let rest = items.subrange(1, items.len() as int);
    if items.len() == 1 {
        assert(items.drop_last() =~= Seq::<RespValue>::empty());
        assert(rest =~= Seq::<RespValue>::empty());
        assert(encoding_all(items) =~= encoding(items[0]) + encoding_all(rest));
    } else {
        let d = items.drop_last();
        lemma_encoding_all_front(d);
        assert(d.subrange(1, d.len() as int) =~= rest.drop_last());
        assert(rest.last() == items.last());
        assert(encoding_all(items) =~= encoding(items[0]) + encoding_all(rest));
    }
}

proof fn lemma_encoding_pairs_front(entries: Seq<(RespValue, RespValue)>)
    requires
        entries.len() > 0,
    ensures
        encoding_pairs(entries) == encoding(entries[0].0) + encoding(entries[0].1) + encoding_pairs(
            entries.subrange(1, entries.len() as int),
        ),
    decreases entries.len(),
{
    let rest = entries.subrange(1, entries.len() as int);
    if entries.len() == 1 {
        assert(entries.drop_last() =~= Seq::<(RespValue, RespValue)>::empty());
        assert(rest =~= Seq::<(RespValue, RespValue)>::empty());
        assert(encoding_pairs(entries) =~= encoding(entries[0].0) + encoding(entries[0].1)
            + encoding_pairs(rest));
    } else {
        let d = entries.drop_last();
        lemma_encoding_pairs_front(d);
        assert(d.subrange(1, d.len() as int) =~= rest.drop_last());
        assert(rest.last() == entries.last());
        assert(encoding_pairs(entries) =~= encoding(entries[0].0) + encoding(entries[0].1)
            + encoding_pairs(rest));
    }
}

proof fn lemma_digits_end(t: Seq<u8>, i: int)
    requires
        0 <= i <= t.len(),
    ensures
        i <= digits_end(t, i) <= t.len(),
        forall|j: int| i <= j < digits_end(t, i) ==> is_digit(#[trigger] t[j]),
    decreases t.len() - i,
{
    if i < t.len() && is_digit(t[i]) {
        lemma_digits_end(t, i + 1);
    }
}

/// A spelled double holds no carriage return, so no CRLF.
proof fn lemma_double_no_crlf(t: Seq<u8>)
    requires
        is_double_text(t),
    ensures
        no_crlf(t),
{
    let i0 = sign_end(t, 0);
    let w = lower_bytes(t.subrange(i0, t.len() as int));
    if is_double_word(w) {
        assert forall|j: int| 0 <= j < t.len() implies t[j] != 13u8 by {
            if j < i0 {
                assert(t[0] == 43u8 || t[0] == 45u8);
            } else {
                let k = j - i0;
                assert(i0 <= t.len());
                assert(w.len() == t.len() - i0);
                assert(t.subrange(i0, t.len() as int)[k] == t[j]);
                assert(w[k] == lower_byte(t[j]));
                let inf = seq![105u8, 110u8, 102u8];
                let infinity = seq![105u8, 110u8, 102u8, 105u8, 110u8, 105u8, 116u8, 121u8];
                let nan = seq![110u8, 97u8, 110u8];
                if t[j] == 13u8 {
                    assert(lower_byte(t[j]) == 13u8);
                }
                if w == inf {
                    assert(w[k] == inf[k]);
                } else if w == infinity {
                    assert(w[k] == infinity[k]);
                } else {
                    assert(w[k] == nan[k]);
                }
            }
        }
    } else {
        let i1 = digits_end(t, i0);
        lemma_digits_end(t, i0);
        let dot = i1 < t.len() && t[i1] == 46u8;
        let i2 = if dot {
            digits_end(t, i1 + 1)
        } else {
            i1
        };
        if dot {
            lemma_digits_end(t, i1 + 1);
        }
        if i2 < t.len() {
            lemma_digits_end(t, sign_end(t, i2 + 1));
        }
        assert forall|j: int| 0 <= j < t.len() implies t[j] != 13u8 by {
            if j < i0 {
            } else if j < i1 {
                assert(is_digit(t[j]));
            } else if j < i2 {
                if j > i1 {
                    assert(is_digit(t[j]));
                }
            } else if j == i2 {
            } else {
                let i3 = sign_end(t, i2 + 1);
                if j >= i3 {
                    assert(is_digit(t[j]));
                }
            }
        }
    }
}

/// The order of byte strings is asymmetric.
pub proof fn lemma_lex_asymmetric(a: Seq<u8>, b: Seq<u8>)
    requires
        lex_lt(a, b),
    ensures
        !lex_lt(b, a),
    decreases a.len(),
{
    if a.len() > 0 && b.len() > 0 && a[0] == b[0] {
        lemma_lex_asymmetric(a.subrange(1, a.len() as int), b.subrange(1, b.len() as int));
    }
}

/// Inserting a key above every key of the map appends it.
proof fn lemma_insert_last(m: Seq<(RespValue, RespValue)>, k: RespValue, v: RespValue)
    requires
        forall|j: int| 0 <= j < m.len() ==> value_lt(#[trigger] m[j].0, k),
    ensures
        map_insert(m, k, v) == m.push((k, v)),
    decreases m.len(),
{
    if m.len() > 0 {
        lemma_value_lt_asymmetric(m[0].0, k);
        let rest = m.subrange(1, m.len() as int);
        lemma_insert_last(rest, k, v);
        assert(seq![m[0]] + rest.push((k, v)) =~= m.push((k, v)));
    }
}

/// Inserting the entries of a sorted map one by one rebuilds it.
proof fn lemma_map_from_sorted(m: Seq<(RespValue, RespValue)>)
    requires
        keys_sorted(m),
    ensures
        map_from_pairs(m) == m,
    decreases m.len(),
{
    if m.len() > 0 {
        let d = m.drop_last();
        assert(keys_sorted(d));
        lemma_map_from_sorted(d);
        lemma_insert_last(d, m.last().0, m.last().1);
        assert(d.push(m.last()) =~= m);
    }
}

/// The probe measures a well-formed frame exactly, whatever follows it.
pub proof fn lemma_measure(v: RespValue, t: Seq<u8>)
    requires
        well_formed(v),
    ensures
        frame_len(encoding(v) + t) == Ok::<int, RespError>(encoding(v).len() as int),
    decreases v,
{
    let s = encoding(v) + t;
    match v {
        RespValue::Null => {
            assert(s =~= seq![95u8] + Seq::<u8>::empty() + crlf() + t);
            lemma_line(95u8, Seq::<u8>::empty(), t);
            assert(s[0] == 95u8);
            assert(crlf_from(s, 1) == Some(1int));
            assert(frame_len(s) == Ok::<int, RespError>(3));
            assert(encoding(v).len() == 3);
            assert(frame_len(s) == Ok::<int, RespError>(encoding(v).len() as int));
        },
        RespValue::Simple(x) => {
            assert(s =~= seq![43u8] + encode_utf8(x) + crlf() + t);
            lemma_line(43u8, encode_utf8(x), t);
            assert(frame_len(s) == Ok::<int, RespError>(encoding(v).len() as int));
        },
        RespValue::Error(x) => {
            assert(s =~= seq![45u8] + encode_utf8(x) + crlf() + t);
            lemma_line(45u8, encode_utf8(x), t);
            assert(frame_len(s) == Ok::<int, RespError>(encoding(v).len() as int));
        },
        RespValue::Integer(i) => {
            lemma_int_text(i);
            assert(s =~= seq![58u8] + int_text(i) + crlf() + t);
            lemma_line(58u8, int_text(i), t);
            assert(frame_len(s) == Ok::<int, RespError>(encoding(v).len() as int));
        },
        RespValue::Boolean(b) => {
            let p = seq![if b { 116u8 } else { 102u8 }];
            assert(no_crlf(p));
            assert(s =~= seq![35u8] + p + crlf() + t);
            lemma_line(35u8, p, t);
            assert(frame_len(s) == Ok::<int, RespError>(encoding(v).len() as int));
        },
        RespValue::Double(x) => {
            lemma_double_no_crlf(x);
            assert(s =~= seq![44u8] + x + crlf() + t);
            lemma_line(44u8, x, t);
            assert(frame_len(s) == Ok::<int, RespError>(encoding(v).len() as int));
        },
        RespValue::Bulk(None) => {
            let p = seq![45u8, 49u8];
            assert(no_crlf(p));
            assert(s =~= seq![36u8] + p + crlf() + t);
            lemma_line(36u8, p, t);
            assert(s.subrange(1, 3) =~= seq![45u8]+ seq![49u8]);
            assert(s.subrange(1, 3).subrange(1, 2) =~= seq![49u8]);
            assert(seq![49u8].drop_last() =~= Seq::<u8>::empty());
            assert(all_digits(seq![49u8]));
            lemma_decimal(1);
            assert(decimal(1) =~= seq![49u8]);
            assert(s.subrange(1, 3)[0] == 45u8);
            assert(parse_int(s.subrange(1, 3)) == Some(-1int));
            assert(frame_len(s) == Ok::<int, RespError>(encoding(v).len() as int));
        },
        RespValue::Array(None) => {
            let p = seq![45u8, 49u8];
            assert(no_crlf(p));
            assert(s =~= seq![42u8] + p + crlf() + t);
            lemma_line(42u8, p, t);
            assert(s.subrange(1, 3).subrange(1, 2) =~= seq![49u8]);
            assert(seq![49u8].drop_last() =~= Seq::<u8>::empty());
            assert(all_digits(seq![49u8]));
            lemma_decimal(1);
            assert(decimal(1) =~= seq![49u8]);
            assert(s.subrange(1, 3)[0] == 45u8);
            assert(parse_int(s.subrange(1, 3)) == Some(-1int));
            assert(frame_len(s) == Ok::<int, RespError>(encoding(v).len() as int));
        },
        RespValue::Bulk(Some(d)) => {
            let n = d.len();
            let rest = d + crlf() + t;
            assert(s =~= seq![36u8] + decimal(n) + crlf() + rest);
            lemma_count_line(36u8, n, rest);
            let e = 1 + decimal(n).len() as int;
            assert(s[e + n as int + 2] == 13u8 && s[e + n as int + 3] == 10u8);
            assert(frame_len(s) == Ok::<int, RespError>(encoding(v).len() as int));
        },
        RespValue::Array(Some(items)) => {
            let n = items.len();
            let rest = encoding_all(items) + t;
            assert(s =~= seq![42u8] + decimal(n) + crlf() + rest);
            lemma_count_line(42u8, n, rest);
            let e = 1 + decimal(n).len() as int;
            assert(s.subrange(e + 2, s.len() as int) =~= rest);
            assert(decreases_to!(v => v->Array_0));
            assert(decreases_to!(v->Array_0 => v->Array_0->Some_0));
            lemma_measure_all(items, t);
            assert(frame_len(s) == Ok::<int, RespError>(encoding(v).len() as int));
        },
        RespValue::Dict(m) => {
            let n = m.len();
            let rest = encoding_pairs(m) + t;
            assert(s =~= seq![37u8] + decimal(n) + crlf() + rest);
            lemma_count_line(37u8, n, rest);
            let e = 1 + decimal(n).len() as int;
            assert(s.subrange(e + 2, s.len() as int) =~= rest);
            assert(decreases_to!(v => v->Dict_0));
            lemma_measure_pairs(m, t);
            assert(frame_len(s) == Ok::<int, RespError>(encoding(v).len() as int));
        },
    }
}

/// The probe measures well-formed frames one after another exactly.
proof fn lemma_measure_all(items: Seq<RespValue>, t: Seq<u8>)
    requires
        forall|i: int| 0 <= i < items.len() ==> well_formed(#[trigger] items[i]),
    ensures
        items_len(encoding_all(items) + t, items.len() as int) == Ok::<
            int,
            RespError,
        >(encoding_all(items).len() as int),
    decreases items,
{
    if items.len() > 0 {
        lemma_encoding_all_front(items);
        let rest = items.subrange(1, items.len() as int);
        let tail = encoding_all(rest) + t;
        let s = encoding_all(items) + t;
        assert(s =~= encoding(items[0]) + tail);
        lemma_measure(items[0], tail);
        let m = encoding(items[0]).len() as int;
        crate::wire::lemma_frame_len_bounds(s);
        assert(s.subrange(m, s.len() as int) =~= tail);
        assert(forall|i: int| 0 <= i < rest.len() ==> rest[i] == items[i + 1]);
        lemma_measure_all(rest, t);
    } else {
        assert(encoding_all(items) =~= Seq::<u8>::empty());
    }
}

/// The probe measures the keys and values of well-formed entries exactly.
proof fn lemma_measure_pairs(m: Seq<(RespValue, RespValue)>, t: Seq<u8>)
    requires
        forall|i: int| 0 <= i < m.len() ==> well_formed(#[trigger] m[i].0) && well_formed(m[i].1),
    ensures
        items_len(encoding_pairs(m) + t, 2 * m.len() as int) == Ok::<int, RespError>(
            encoding_pairs(m).len() as int,
        ),
    decreases m,
{
    if m.len() > 0 {
        lemma_encoding_pairs_front(m);
        let rest = m.subrange(1, m.len() as int);
        let tail = encoding_pairs(rest) + t;
        let s = encoding_pairs(m) + t;
        let s1 = encoding(m[0].1) + tail;
        assert(s =~= encoding(m[0].0) + s1);
        assert(decreases_to!(m => m[0]));
        assert(decreases_to!(m[0] => m[0].0));
        assert(decreases_to!(m[0] => m[0].1));
        lemma_measure(m[0].0, s1);
        lemma_measure(m[0].1, tail);
        let a = encoding(m[0].0).len() as int;
        let b = encoding(m[0].1).len() as int;
        crate::wire::lemma_frame_len_bounds(s);
        crate::wire::lemma_frame_len_bounds(s1);
        assert(s.subrange(a, s.len() as int) =~= s1);
        assert(s1.subrange(b, s1.len() as int) =~= tail);
        assert(forall|i: int| 0 <= i < rest.len() ==> rest[i] == m[i + 1]);
        lemma_measure_pairs(rest, t);
        assert(items_len(s1, 2 * m.len() - 1) == Ok::<int, RespError>(
            b + encoding_pairs(rest).len(),
        ));
    } else {
        assert(encoding_pairs(m) =~= Seq::<u8>::empty());
    }
}

/// The keys and values of entries, one after another.
pub open spec fn flatten(m: Seq<(RespValue, RespValue)>) -> Seq<RespValue> {
    Seq::new(2 * m.len(), |i: int| if i % 2 == 0 { m[i / 2].0 } else { m[i / 2].1 })
}

proof fn lemma_text_round_trip(x: Seq<char>)
    ensures
        crate::text::text_of(encode_utf8(x)) == x,
{
    encode_utf8_valid_utf8(x);
    encode_utf8_decode_utf8(x);
}

proof fn lemma_decode_line(v: RespValue)
    requires
        well_formed(v),
        v is Null || v is Simple || v is Error || v is Integer || v is Boolean || v is Double,
    ensures
        decode_value(encoding(v)) == Ok::<RespValue, RespError>(v),
{
    let s = encoding(v);
    match v {
        RespValue::Null => {
            assert(s.subrange(1, 1) =~= Seq::<u8>::empty());
        },
        RespValue::Simple(x) => {
            assert(s.subrange(1, s.len() - 2) =~= encode_utf8(x));
            lemma_text_round_trip(x);
        },
        RespValue::Error(x) => {
            assert(s.subrange(1, s.len() - 2) =~= encode_utf8(x));
            lemma_text_round_trip(x);
        },
        RespValue::Integer(i) => {
            assert(s.subrange(1, s.len() - 2) =~= int_text(i));
            lemma_int_text(i);
        },
        RespValue::Boolean(b) => {
            assert(s.subrange(1, s.len() - 2) =~= seq![if b { 116u8 } else { 102u8 }]);
        },
        RespValue::Double(x) => {
            assert(s.subrange(1, s.len() - 2) =~= x);
        },
        _ => {},
    }
}

proof fn lemma_decode_null_marker(v: RespValue)
    requires
        v == RespValue::Bulk(None) || v == RespValue::Array(None),
    ensures
        decode_value(encoding(v)) == Ok::<RespValue, RespError>(v),
{
    let s = encoding(v);
    let e = Seq::<u8>::empty();
    let tag = if v is Bulk { 36u8 } else { 42u8 };
    lemma_line(tag, seq![45u8, 49u8], e);
    assert(s =~= seq![tag] + seq![45u8, 49u8] + crlf() + e);
    lemma_decimal(1);
    assert(decimal(1) =~= seq![49u8]);
    assert(s.subrange(1, 3).subrange(1, 2) =~= seq![49u8]);
    assert(parse_int(s.subrange(1, 3)) == Some(-1int));
}

proof fn lemma_decode_bulk(d: Seq<u8>)
    requires
        d.len() <= i64::MAX,
    ensures
        decode_value(encoding(RespValue::Bulk(Some(d)))) == Ok::<RespValue, RespError>(
            RespValue::Bulk(Some(d)),
        ),
{
    let s = encoding(RespValue::Bulk(Some(d)));
    let n = d.len();
    let rest = d + crlf();
    assert(s =~= seq![36u8] + decimal(n) + crlf() + rest);
    lemma_count_line(36u8, n, rest);
    let k = 1 + decimal(n).len() as int;
    assert(s.subrange(k + 2, k + 2 + n) =~= d);
}

proof fn lemma_decode_array(items: Seq<RespValue>)
    requires
        items.len() <= i64::MAX,
        decode_items(encoding_all(items), items.len() as int) == Ok::<Seq<RespValue>, RespError>(
            items,
        ),
    ensures
        decode_value(encoding(RespValue::Array(Some(items)))) == Ok::<RespValue, RespError>(
            RespValue::Array(Some(items)),
        ),
{
    let s = encoding(RespValue::Array(Some(items)));
    let n = items.len();
    let rest = encoding_all(items);
    assert(s =~= seq![42u8] + decimal(n) + crlf() + rest);
    lemma_count_line(42u8, n, rest);
    let k = 1 + decimal(n).len() as int;
    assert(s.subrange(k + 2, s.len() as int) =~= rest);
    assert(s[0] == 42u8);
}

#[verifier::rlimit(60)]
proof fn lemma_decode_dict(m: Seq<(RespValue, RespValue)>)
    requires
        m.len() <= i64::MAX,
        keys_sorted(m),
        decode_items(encoding_pairs(m), 2 * m.len() as int) == Ok::<Seq<RespValue>, RespError>(
            flatten(m),
        ),
    ensures
        decode_value(encoding(RespValue::Dict(m))) == Ok::<RespValue, RespError>(
            RespValue::Dict(m),
        ),
{
    let s = encoding(RespValue::Dict(m));
    let n = m.len();
    let rest = encoding_pairs(m);
    assert(s =~= seq![37u8] + decimal(n) + crlf() + rest);
    lemma_count_line(37u8, n, rest);
    let k = 1 + decimal(n).len() as int;
    assert(s.subrange(k + 2, s.len() as int) =~= rest);
    assert(s[0] == 37u8);
    assert(pair_up(flatten(m)) =~= m);
    lemma_map_from_sorted(m);
}

/// Decoding the wire form of a well-formed frame gives it back.
pub proof fn lemma_decode(v: RespValue)
    requires
        well_formed(v),
    ensures
        decode_value(encoding(v)) == Ok::<RespValue, RespError>(v),
    decreases v,
{
    match v {
        RespValue::Bulk(None) => lemma_decode_null_marker(v),
        RespValue::Array(None) => lemma_decode_null_marker(v),
        RespValue::Bulk(Some(d)) => lemma_decode_bulk(d),
        RespValue::Array(Some(items)) => {
            assert(decreases_to!(v => v->Array_0));
            assert(decreases_to!(v->Array_0 => v->Array_0->Some_0));
            lemma_decode_all(items);
            lemma_decode_array(items);
        },
        RespValue::Dict(m) => {
            assert(decreases_to!(v => v->Dict_0));
            lemma_decode_pairs(m);
            lemma_decode_dict(m);
        },
        _ => lemma_decode_line(v),
    }
}

/// Decoding well-formed frames one after another gives them back.
proof fn lemma_decode_all(items: Seq<RespValue>)
    requires
        forall|i: int| 0 <= i < items.len() ==> well_formed(#[trigger] items[i]),
    ensures
        decode_items(encoding_all(items), items.len() as int) == Ok::<
            Seq<RespValue>,
            RespError,
        >(items),
    decreases items,
{
    if items.len() > 0 {
        lemma_encoding_all_front(items);
        let rest = items.subrange(1, items.len() as int);
        let tail = encoding_all(rest);
        let s = encoding_all(items);
        assert(s =~= encoding(items[0]) + tail);
        lemma_measure(items[0], tail);
        let m = encoding(items[0]).len() as int;
        crate::wire::lemma_frame_len_bounds(s);
        assert(s.subrange(0, m) =~= encoding(items[0]));
        assert(s.subrange(m, s.len() as int) =~= tail);
        lemma_decode(items[0]);
        assert(forall|i: int| 0 <= i < rest.len() ==> rest[i] == items[i + 1]);
        lemma_decode_all(rest);
        assert(seq![items[0]] + rest =~= items);
    } else {
        assert(encoding_all(items) =~= Seq::<u8>::empty());
        assert(items =~= Seq::<RespValue>::empty());
    }
}

/// Decoding the keys and values of well-formed entries gives them back.
#[verifier::rlimit(100)]
proof fn lemma_decode_pairs(m: Seq<(RespValue, RespValue)>)
    requires
        forall|i: int| 0 <= i < m.len() ==> well_formed(#[trigger] m[i].0) && well_formed(m[i].1),
    ensures
        decode_items(encoding_pairs(m), 2 * m.len() as int) == Ok::<
            Seq<RespValue>,
            RespError,
        >(flatten(m)),
    decreases m,
{
    if m.len() > 0 {
        lemma_encoding_pairs_front(m);
        let rest = m.subrange(1, m.len() as int);
        let tail = encoding_pairs(rest);
        let s = encoding_pairs(m);
        let s1 = encoding(m[0].1) + tail;
        assert(s =~= encoding(m[0].0) + s1);
        assert(decreases_to!(m => m[0]));
        assert(decreases_to!(m[0] => m[0].0));
        assert(decreases_to!(m[0] => m[0].1));
        lemma_measure(m[0].0, s1);
        lemma_measure(m[0].1, tail);
        lemma_decode(m[0].0);
        lemma_decode(m[0].1);
        let a = encoding(m[0].0).len() as int;
        let b = encoding(m[0].1).len() as int;
        crate::wire::lemma_frame_len_bounds(s);
        crate::wire::lemma_frame_len_bounds(s1);
        assert(s.subrange(0, a) =~= encoding(m[0].0));
        assert(s.subrange(a, s.len() as int) =~= s1);
        assert(s1.subrange(0, b) =~= encoding(m[0].1));
        assert(s1.subrange(b, s1.len() as int) =~= tail);
        assert forall|i: int| 0 <= i < rest.len() implies well_formed(#[trigger] rest[i].0)
            && well_formed(rest[i].1) by {
            assert(rest[i] == m[i + 1]);
        }
        lemma_decode_pairs(rest);
        assert(seq![m[0].1] + flatten(rest) =~= flatten(m).subrange(1, flatten(m).len() as int));
        assert(decode_items(s1, 2 * m.len() - 1) == Ok::<Seq<RespValue>, RespError>(
            seq![m[0].1] + flatten(rest),
        ));
        assert(seq![m[0].0] + (seq![m[0].1] + flatten(rest)) =~= flatten(m));
    } else {
        assert(encoding_pairs(m) =~= Seq::<u8>::empty());
        assert(flatten(m) =~= Seq::<RespValue>::empty());
    }
}

/// Encoding a well-formed frame and decoding the bytes gives the frame back,
/// and the probe measures those bytes exactly; for maps, what comes back is
/// the map with its entries in key order, which is how a well-formed map
/// holds them.
pub proof fn law_round_trip(f: RespFrame)
    requires
        well_formed(f@),
    ensures
        frame_len(encoding(f@)) == Ok::<int, RespError>(encoding(f@).len() as int),
        decode_value(encoding(f@)) == Ok::<RespValue, RespError>(f@),
{
    let e = Seq::<u8>::empty();
    assert(encoding(f@) + e =~= encoding(f@));
    lemma_measure(f@, e);
    lemma_decode(f@);
}

/// A prefix of `s` holds the CRLFs of `s` that end within it.
proof fn lemma_crlf_prefix(s: Seq<u8>, j: int)
    requires
        0 <= j <= s.len(),
    ensures
        match crlf_from(s, 1) {
            Some(e) => if e + 2 <= j {
                crlf_from(s.subrange(0, j), 1) == Some(e)
            } else {
                crlf_from(s.subrange(0, j), 1) is None
            },
            None => crlf_from(s.subrange(0, j), 1) is None,
        },
{
    let q = s.subrange(0, j);
    lemma_crlf_from(s, 1);
    lemma_crlf_from(q, 1);
    assert(forall|i: int| #[trigger] is_cr_lf(q, i) ==> is_cr_lf(s, i) && i + 1 < j);
    match crlf_from(s, 1) {
        Some(e) => if e + 2 <= j {
            assert(is_cr_lf(q, e));
            assert(forall|i: int| 1 <= i < e ==> !is_cr_lf(q, i));
            lemma_crlf_at(q, 1, e);
        },
        None => {},
    }
}

/// The wire form of a line frame ends at its first CRLF.
proof fn lemma_line_form(v: RespValue)
    requires
        well_formed(v),
        v is Null || v is Simple || v is Error || v is Integer || v is Boolean || v is Double,
    ensures
        crlf_from(encoding(v), 1) == Some(encoding(v).len() - 2),
        crate::wire::is_line_tag(encoding(v)[0]),
{
    let e = Seq::<u8>::empty();
    let s = encoding(v);
    match v {
        RespValue::Null => {
            assert(s =~= seq![95u8] + e + crlf() + e);
            lemma_line(95u8, e, e);
        },
        RespValue::Simple(x) => {
            assert(s =~= seq![43u8] + encode_utf8(x) + crlf() + e);
            lemma_line(43u8, encode_utf8(x), e);
        },
        RespValue::Error(x) => {
            assert(s =~= seq![45u8] + encode_utf8(x) + crlf() + e);
            lemma_line(45u8, encode_utf8(x), e);
        },
        RespValue::Integer(i) => {
            lemma_int_text(i);
            assert(s =~= seq![58u8] + int_text(i) + crlf() + e);
            lemma_line(58u8, int_text(i), e);
        },
        RespValue::Boolean(b) => {
            let p = seq![if b { 116u8 } else { 102u8 }];
            assert(s =~= seq![35u8] + p + crlf() + e);
            lemma_line(35u8, p, e);
        },
        RespValue::Double(x) => {
            lemma_double_no_crlf(x);
            assert(s =~= seq![44u8] + x + crlf() + e);
            lemma_line(44u8, x, e);
        },
        _ => {},
    }
}

/// The header of a frame with a count or length: where its CRLF is, and
/// the number it holds.
proof fn lemma_sized_form(v: RespValue)
    requires
        well_formed(v),
        v is Bulk || v is Array || v is Dict,
    ensures
        crate::wire::is_sized_tag(encoding(v)[0]),
        ({
            let s = encoding(v);
            let e = crlf_from(s, 1)->Some_0;
            &&& crlf_from(s, 1) is Some
            &&& parse_i64(s.subrange(1, e)) == Some(
                match v {
                    RespValue::Bulk(Some(d)) => d.len() as int,
                    RespValue::Array(Some(items)) => items.len() as int,
                    RespValue::Dict(m) => m.len() as int,
                    _ => -1,
                },
            )
            &&& match v {
                RespValue::Bulk(Some(d)) => s == s.subrange(0, e + 2) + d + crlf(),
                RespValue::Array(Some(items)) => s == s.subrange(0, e + 2) + encoding_all(items),
                RespValue::Dict(m) => s == s.subrange(0, e + 2) + encoding_pairs(m),
                _ => s.len() == e + 2,
            }
        }),
{
    let s = encoding(v);
    let z = Seq::<u8>::empty();
    match v {
        RespValue::Bulk(Some(d)) => {
            let n = d.len();
            assert(s =~= seq![36u8] + decimal(n) + crlf() + (d + crlf()));
            lemma_count_line(36u8, n, d + crlf());
            let e = 1 + decimal(n).len() as int;
            assert(s =~= s.subrange(0, e + 2) + d + crlf());
        },
        RespValue::Array(Some(items)) => {
            let n = items.len();
            assert(s =~= seq![42u8] + decimal(n) + crlf() + encoding_all(items));
            lemma_count_line(42u8, n, encoding_all(items));
            let e = 1 + decimal(n).len() as int;
            assert(s =~= s.subrange(0, e + 2) + encoding_all(items));
        },
        RespValue::Dict(m) => {
            let n = m.len();
            assert(s =~= seq![37u8] + decimal(n) + crlf() + encoding_pairs(m));
            lemma_count_line(37u8, n, encoding_pairs(m));
            let e = 1 + decimal(n).len() as int;
            assert(s =~= s.subrange(0, e + 2) + encoding_pairs(m));
        },
        _ => {
            let tag = if v is Bulk { 36u8 } else { 42u8 };
            lemma_line(tag, seq![45u8, 49u8], z);
            assert(s =~= seq![tag] + seq![45u8, 49u8] + crlf() + z);
            lemma_decimal(1);
            assert(decimal(1) =~= seq![49u8]);
            assert(s.subrange(1, 3).subrange(1, 2) =~= seq![49u8]);
            assert(parse_int(s.subrange(1, 3)) == Some(-1int));
        },
    }
}

/// Every proper prefix of the wire form of a well-formed frame is reported
/// as cut short.
pub proof fn lemma_prefix(v: RespValue, j: int)
    requires
        well_formed(v),
        0 <= j < encoding(v).len(),
    ensures
        frame_len(encoding(v).subrange(0, j)) == Err::<int, RespError>(RespError::NotComplete),
    decreases v,
{
    let s = encoding(v);
    let q = s.subrange(0, j);
    lemma_crlf_prefix(s, j);
    if j == 0 {
    } else if v is Null || v is Simple || v is Error || v is Integer || v is Boolean || v is Double {
        lemma_line_form(v);
        assert(q[0] == s[0]);
    } else {
        lemma_sized_form(v);
        lemma_crlf_from(s, 1);
        assert(q[0] == s[0]);
        let e = crlf_from(s, 1)->Some_0;
        if e + 2 <= j {
            assert(s.subrange(0, e + 2).len() == e + 2);
            assert(q.subrange(1, e) =~= s.subrange(1, e));
            match v {
                RespValue::Array(Some(items)) => {
                    let body = encoding_all(items);
                    assert(q.subrange(e + 2, q.len() as int) =~= body.subrange(0, j - e - 2));
                    assert(decreases_to!(v => v->Array_0));
                    assert(decreases_to!(v->Array_0 => v->Array_0->Some_0));
                    lemma_prefix_all(items, j - e - 2);
                },
                RespValue::Dict(m) => {
                    let body = encoding_pairs(m);
                    assert(q.subrange(e + 2, q.len() as int) =~= body.subrange(0, j - e - 2));
                    assert(decreases_to!(v => v->Dict_0));
                    lemma_prefix_pairs(m, j - e - 2);
                },
                _ => {},
            }
        }
    }
}

proof fn lemma_prefix_all(items: Seq<RespValue>, j: int)
    requires
        forall|i: int| 0 <= i < items.len() ==> well_formed(#[trigger] items[i]),
        0 <= j < encoding_all(items).len(),
    ensures
        items_len(encoding_all(items).subrange(0, j), items.len() as int) == Err::<int, RespError>(
            RespError::NotComplete,
        ),
    decreases items,
{
    if items.len() == 0 {
        assert(encoding_all(items) =~= Seq::<u8>::empty());
    } else {
        lemma_encoding_all_front(items);
        let rest = items.subrange(1, items.len() as int);
        let first = encoding(items[0]);
        let tail = encoding_all(rest);
        let q = encoding_all(items).subrange(0, j);
        let a = first.len() as int;
        if j < a {
            assert(q =~= first.subrange(0, j));
            lemma_prefix(items[0], j);
        } else {
            let t = tail.subrange(0, j - a);
            assert(q =~= first + t);
            lemma_measure(items[0], t);
            assert(q.subrange(a, q.len() as int) =~= t);
            assert(forall|i: int| 0 <= i < rest.len() ==> rest[i] == items[i + 1]);
            lemma_prefix_all(rest, j - a);
        }
    }
}

#[verifier::rlimit(60)]
proof fn lemma_prefix_pairs(m: Seq<(RespValue, RespValue)>, j: int)
    requires
        forall|i: int| 0 <= i < m.len() ==> well_formed(#[trigger] m[i].0) && well_formed(m[i].1),
        0 <= j < encoding_pairs(m).len(),
    ensures
        items_len(encoding_pairs(m).subrange(0, j), 2 * m.len() as int) == Err::<int, RespError>(
            RespError::NotComplete,
        ),
    decreases m,
{
    if m.len() == 0 {
        assert(encoding_pairs(m) =~= Seq::<u8>::empty());
    } else {
        lemma_encoding_pairs_front(m);
        let rest = m.subrange(1, m.len() as int);
        let k0 = encoding(m[0].0);
        let v0 = encoding(m[0].1);
        let tail = encoding_pairs(rest);
        let q = encoding_pairs(m).subrange(0, j);
        let a = k0.len() as int;
        let b = v0.len() as int;
        assert(decreases_to!(m => m[0]));
        assert(decreases_to!(m[0] => m[0].0));
        assert(decreases_to!(m[0] => m[0].1));
        if j < a {
            assert(q =~= k0.subrange(0, j));
            lemma_prefix(m[0].0, j);
        } else if j < a + b {
            let q1 = v0.subrange(0, j - a);
            assert(q =~= k0 + q1);
            lemma_measure(m[0].0, q1);
            crate::wire::lemma_frame_len_bounds(q);
            assert(q.subrange(a, q.len() as int) =~= q1);
            lemma_prefix(m[0].1, j - a);
            assert(items_len(q1, 2 * m.len() - 1) == Err::<int, RespError>(RespError::NotComplete));
        } else {
            let t = tail.subrange(0, j - a - b);
            let q1 = v0 + t;
            assert(q =~= k0 + q1);
            lemma_measure(m[0].0, q1);
            lemma_measure(m[0].1, t);
            crate::wire::lemma_frame_len_bounds(q);
            crate::wire::lemma_frame_len_bounds(q1);
            assert(q.subrange(a, q.len() as int) =~= q1);
            assert(q1.subrange(b, q1.len() as int) =~= t);
            assert(forall|i: int| 0 <= i < rest.len() ==> rest[i] == m[i + 1]);
            lemma_prefix_pairs(rest, j - a - b);
            assert(items_len(q1, 2 * m.len() - 1) == Err::<int, RespError>(RespError::NotComplete));
        }
    }
}

/// A frame that arrives a few bytes at a time: while only a proper prefix of
/// its wire form is buffered, the probe reports it cut short, never broken;
/// once all of it is there, the probe measures it exactly.
pub proof fn law_starved_probe(f: RespFrame, j: int)
    requires
        well_formed(f@),
        0 <= j <= encoding(f@).len(),
    ensures
        j < encoding(f@).len() ==> frame_len(encoding(f@).subrange(0, j)) == Err::<int, RespError>(
            RespError::NotComplete,
        ),
        j == encoding(f@).len() ==> frame_len(encoding(f@).subrange(0, j)) == Ok::<int, RespError>(
            j,
        ),
{
    if j < encoding(f@).len() {
        lemma_prefix(f@, j);
    } else {
        assert(encoding(f@).subrange(0, j) =~= encoding(f@));
        law_round_trip(f);
    }
}

proof fn lemma_lex_transitive(a: Seq<u8>, b: Seq<u8>, c: Seq<u8>)
    requires
        lex_lt(a, b),
        lex_lt(b, c),
    ensures
        lex_lt(a, c),
    decreases a.len(),
{
    if a.len() > 0 && b.len() > 0 && c.len() > 0 && a[0] == b[0] && b[0] == c[0] {
        lemma_lex_transitive(
            a.subrange(1, a.len() as int),
            b.subrange(1, b.len() as int),
            c.subrange(1, c.len() as int),
        );
    }
}

pub proof fn lemma_lex_total(a: Seq<u8>, b: Seq<u8>)
    requires
        a != b,
    ensures
        lex_lt(a, b) || lex_lt(b, a),
    decreases a.len(),
{
    if a.len() > 0 && b.len() > 0 && a[0] == b[0] {
        let a1 = a.subrange(1, a.len() as int);
        let b1 = b.subrange(1, b.len() as int);
        if a1 == b1 {
            assert(a =~= seq![a[0]] + a1);
            assert(b =~= seq![b[0]] + b1);
            assert(a == b);
        } else {
            lemma_lex_total(a1, b1);
            assert(lex_lt(a, b) == lex_lt(a1, b1));
            assert(lex_lt(b, a) == lex_lt(b1, a1));
        }
    } else if a.len() == 0 && b.len() == 0 {
        assert(a =~= b);
    }
}

/// A frame below every key of a map and below the new key stays below every
/// key after the insertion.
proof fn lemma_insert_below(
    m: Seq<(RespValue, RespValue)>,
    k: RespValue,
    v: RespValue,
    x: RespValue,
)
    requires
        forall|j: int| 0 <= j < m.len() ==> value_lt(x, #[trigger] m[j].0),
        value_lt(x, k),
    ensures
        forall|i: int|
            0 <= i < map_insert(m, k, v).len() ==> value_lt(x, #[trigger] map_insert(m, k, v)[i].0),
    decreases m.len(),
{
    if m.len() > 0 && !value_lt(k, m[0].0) && value_lt(m[0].0, k) {
        let rest = m.subrange(1, m.len() as int);
        assert(forall|j: int| 0 <= j < rest.len() ==> rest[j] == m[j + 1]);
        lemma_insert_below(rest, k, v, x);
        let r = map_insert(m, k, v);
        assert(forall|i: int| 1 <= i < r.len() ==> r[i] == map_insert(rest, k, v)[i - 1]);
    } else if m.len() > 0 && !value_lt(k, m[0].0) {
        let r = map_insert(m, k, v);
        assert(forall|i: int| 1 <= i < r.len() ==> r[i] == m[i]);
    } else if m.len() > 0 {
        let r = map_insert(m, k, v);
        assert(forall|i: int| 1 <= i < r.len() ==> r[i] == m[i - 1]);
    }
}

/// Inserting into a map whose keys are sorted keeps them sorted.
pub proof fn law_insert_keeps_keys_sorted(
    m: Seq<(RespValue, RespValue)>,
    k: RespValue,
    v: RespValue,
)
    requires
        keys_sorted(m),
    ensures
        keys_sorted(map_insert(m, k, v)),
    decreases m.len(),
{
    let r = map_insert(m, k, v);
    if m.len() == 0 {
    } else if value_lt(k, m[0].0) {
        assert forall|i: int, j: int| 0 <= i < j < r.len() implies value_lt(
            #[trigger] r[i].0,
            #[trigger] r[j].0,
        ) by {
            if i == 0 {
                if j > 1 {
                    lemma_value_lt_transitive(k, m[0].0, m[j - 1].0);
                }
            } else {
                assert(r[i] == m[i - 1] && r[j] == m[j - 1]);
            }
        }
    } else if value_lt(m[0].0, k) {
        let rest = m.subrange(1, m.len() as int);
        assert(forall|j: int| 0 <= j < rest.len() ==> rest[j] == m[j + 1]);
        law_insert_keeps_keys_sorted(rest, k, v);
        lemma_insert_below(rest, k, v, m[0].0);
        let ri = map_insert(rest, k, v);
        assert(r == seq![m[0]] + ri);
        assert forall|i: int, j: int| 0 <= i < j < r.len() implies value_lt(
            #[trigger] r[i].0,
            #[trigger] r[j].0,
        ) by {
            if i == 0 {
                assert(r[j] == ri[j - 1]);
            } else {
                assert(r[i] == ri[i - 1] && r[j] == ri[j - 1]);
            }
        }
    } else {
        assert forall|i: int, j: int| 0 <= i < j < r.len() implies value_lt(
            #[trigger] r[i].0,
            #[trigger] r[j].0,
        ) by {
            assert(r[i].0 == m[i].0 && r[j].0 == m[j].0);
        }
    }
}

/// However the pairs of a map frame are ordered on the wire, the decoded map
/// holds its entries sorted by key, so its wire form lists them in key order.
pub proof fn law_map_sorted_whatever_wire_order(pairs: Seq<(RespValue, RespValue)>)
    ensures
        keys_sorted(map_from_pairs(pairs)),
    decreases pairs.len(),
{
    if pairs.len() > 0 {
        law_map_sorted_whatever_wire_order(pairs.drop_last());
        law_insert_keeps_keys_sorted(
            map_from_pairs(pairs.drop_last()),
            pairs.last().0,
            pairs.last().1,
        );
    }
}

/// Texts with the same UTF-8 bytes are the same text.
pub proof fn lemma_utf8_injective(x: Seq<char>, y: Seq<char>)
    requires
        encode_utf8(x) == encode_utf8(y),
    ensures
        x == y,
{
    encode_utf8_decode_utf8(x);
    encode_utf8_decode_utf8(y);
}

/// A frame below another is of a kind no later than the other's.
proof fn lemma_value_lt_kind(a: RespValue, b: RespValue)
    requires
        value_lt(a, b),
    ensures
        crate::model::kind(a) <= crate::model::kind(b),
{
}

/// The order of frames is asymmetric.
pub proof fn lemma_value_lt_asymmetric(a: RespValue, b: RespValue)
    requires
        value_lt(a, b),
    ensures
        !value_lt(b, a),
    decreases a,
{
    if crate::model::kind(a) == crate::model::kind(b) {
        match a {
            RespValue::Simple(x) => lemma_lex_asymmetric(encode_utf8(x), encode_utf8(b->Simple_0)),
            RespValue::Error(x) => lemma_lex_asymmetric(encode_utf8(x), encode_utf8(b->Error_0)),
            RespValue::Bulk(Some(p)) => if let Some(q) = b->Bulk_0 {
                lemma_lex_asymmetric(p, q);
            },
            RespValue::Array(Some(p)) => if let Some(q) = b->Array_0 {
                lemma_seq_lt_asymmetric(p, q);
            },
            RespValue::Double(x) => lemma_lex_asymmetric(x, b->Double_0),
            RespValue::Dict(x) => lemma_pairs_lt_asymmetric(x, b->Dict_0),
            _ => {},
        }
    }
}

proof fn lemma_seq_lt_asymmetric(x: Seq<RespValue>, y: Seq<RespValue>)
    requires
        seq_lt(x, y),
    ensures
        !seq_lt(y, x),
    decreases x,
{
    if x.len() > 0 && y.len() > 0 {
        if x[0] != y[0] {
            lemma_value_lt_asymmetric(x[0], y[0]);
        } else {
            lemma_seq_lt_asymmetric(x.subrange(1, x.len() as int), y.subrange(1, y.len() as int));
        }
    }
}

proof fn lemma_pairs_lt_asymmetric(x: Seq<(RespValue, RespValue)>, y: Seq<(RespValue, RespValue)>)
    requires
        pairs_lt(x, y),
    ensures
        !pairs_lt(y, x),
    decreases x,
{
    if x.len() > 0 && y.len() > 0 {
        assert(decreases_to!(x => x[0]));
        if x[0].0 != y[0].0 {
            lemma_value_lt_asymmetric(x[0].0, y[0].0);
        } else if x[0].1 != y[0].1 {
            lemma_value_lt_asymmetric(x[0].1, y[0].1);
        } else {
            lemma_pairs_lt_asymmetric(x.subrange(1, x.len() as int), y.subrange(1, y.len() as int));
        }
    }
}

/// The order of frames is transitive.
pub proof fn lemma_value_lt_transitive(a: RespValue, b: RespValue, c: RespValue)
    requires
        value_lt(a, b),
        value_lt(b, c),
    ensures
        value_lt(a, c),
    decreases a,
{
    lemma_value_lt_kind(a, b);
    lemma_value_lt_kind(b, c);
    if crate::model::kind(a) == crate::model::kind(b) && crate::model::kind(b)
        == crate::model::kind(c) {
        match a {
            RespValue::Simple(x) => lemma_lex_transitive(
                encode_utf8(x),
                encode_utf8(b->Simple_0),
                encode_utf8(c->Simple_0),
            ),
            RespValue::Error(x) => lemma_lex_transitive(
                encode_utf8(x),
                encode_utf8(b->Error_0),
                encode_utf8(c->Error_0),
            ),
            RespValue::Bulk(Some(p)) => {
                lemma_lex_transitive(p, b->Bulk_0->Some_0, c->Bulk_0->Some_0);
            },
            RespValue::Array(Some(p)) => {
                lemma_seq_lt_transitive(p, b->Array_0->Some_0, c->Array_0->Some_0);
            },
            RespValue::Double(x) => lemma_lex_transitive(x, b->Double_0, c->Double_0),
            RespValue::Dict(x) => lemma_pairs_lt_transitive(x, b->Dict_0, c->Dict_0),
            _ => {},
        }
    }
}

proof fn lemma_seq_lt_transitive(x: Seq<RespValue>, y: Seq<RespValue>, z: Seq<RespValue>)
    requires
        seq_lt(x, y),
        seq_lt(y, z),
    ensures
        seq_lt(x, z),
    decreases x,
{
    if x.len() > 0 {
        if x[0] != y[0] && y[0] != z[0] {
            lemma_value_lt_transitive(x[0], y[0], z[0]);
            if x[0] == z[0] {
                lemma_value_lt_asymmetric(y[0], z[0]);
            }
        } else if x[0] == y[0] && y[0] == z[0] {
            lemma_seq_lt_transitive(
                x.subrange(1, x.len() as int),
                y.subrange(1, y.len() as int),
                z.subrange(1, z.len() as int),
            );
        }
    }
}

proof fn lemma_pairs_lt_transitive(
    x: Seq<(RespValue, RespValue)>,
    y: Seq<(RespValue, RespValue)>,
    z: Seq<(RespValue, RespValue)>,
)
    requires
        pairs_lt(x, y),
        pairs_lt(y, z),
    ensures
        pairs_lt(x, z),
    decreases x,
{
    if x.len() > 0 {
        assert(decreases_to!(x => x[0]));
        let (xk, xv) = (x[0].0, x[0].1);
        let (yk, yv) = (y[0].0, y[0].1);
        let (zk, zv) = (z[0].0, z[0].1);
        if xk != yk && yk != zk {
            lemma_value_lt_transitive(xk, yk, zk);
            if xk == zk {
                lemma_value_lt_asymmetric(yk, zk);
            }
        } else if xk != yk || yk != zk {
        } else if xv != yv && yv != zv {
            lemma_value_lt_transitive(xv, yv, zv);
            if xv == zv {
                lemma_value_lt_asymmetric(yv, zv);
            }
        } else if xv != yv || yv != zv {
        } else {
            lemma_pairs_lt_transitive(
                x.subrange(1, x.len() as int),
                y.subrange(1, y.len() as int),
                z.subrange(1, z.len() as int),
            );
        }
    }
}

/// Two frames that are not the same are ordered one way or the other.
pub proof fn lemma_value_lt_total(a: RespValue, b: RespValue)
    requires
        a != b,
    ensures
        value_lt(a, b) || value_lt(b, a),
    decreases a,
{
    if crate::model::kind(a) == crate::model::kind(b) {
        match a {
            RespValue::Simple(x) => {
                if encode_utf8(x) == encode_utf8(b->Simple_0) {
                    lemma_utf8_injective(x, b->Simple_0);
                }
                lemma_lex_total(encode_utf8(x), encode_utf8(b->Simple_0));
            },
            RespValue::Error(x) => {
                if encode_utf8(x) == encode_utf8(b->Error_0) {
                    lemma_utf8_injective(x, b->Error_0);
                }
                lemma_lex_total(encode_utf8(x), encode_utf8(b->Error_0));
            },
            RespValue::Bulk(Some(p)) => if let Some(q) = b->Bulk_0 {
                lemma_lex_total(p, q);
            },
            RespValue::Array(Some(p)) => if let Some(q) = b->Array_0 {
                lemma_seq_lt_total(p, q);
            },
            RespValue::Double(x) => lemma_lex_total(x, b->Double_0),
            RespValue::Dict(x) => lemma_pairs_lt_total(x, b->Dict_0),
            _ => {},
        }
    }
}

proof fn lemma_seq_lt_total(x: Seq<RespValue>, y: Seq<RespValue>)
    requires
        x != y,
    ensures
        seq_lt(x, y) || seq_lt(y, x),
    decreases x,
{
    if x.len() == 0 && y.len() == 0 {
        assert(x =~= y);
    } else if x.len() > 0 && y.len() > 0 {
        if x[0] != y[0] {
            lemma_value_lt_total(x[0], y[0]);
        } else {
            let x1 = x.subrange(1, x.len() as int);
            let y1 = y.subrange(1, y.len() as int);
            if x1 == y1 {
                assert(x =~= seq![x[0]] + x1);
                assert(y =~= seq![y[0]] + y1);
            } else {
                lemma_seq_lt_total(x1, y1);
            }
        }
    }
}

proof fn lemma_pairs_lt_total(x: Seq<(RespValue, RespValue)>, y: Seq<(RespValue, RespValue)>)
    requires
        x != y,
    ensures
        pairs_lt(x, y) || pairs_lt(y, x),
    decreases x,
{
    if x.len() == 0 && y.len() == 0 {
        assert(x =~= y);
    } else if x.len() > 0 && y.len() > 0 {
        assert(decreases_to!(x => x[0]));
        if x[0].0 != y[0].0 {
            lemma_value_lt_total(x[0].0, y[0].0);
        } else if x[0].1 != y[0].1 {
            lemma_value_lt_total(x[0].1, y[0].1);
        } else {
            let x1 = x.subrange(1, x.len() as int);
            let y1 = y.subrange(1, y.len() as int);
            if x1 == y1 {
                assert(x[0] == y[0]);
                assert(x =~= seq![x[0]] + x1);
                assert(y =~= seq![y[0]] + y1);
            } else {
                lemma_pairs_lt_total(x1, y1);
            }
        }
    }
}

} // verus!
