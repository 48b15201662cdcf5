//! The order of frames, and maps kept sorted by it.

use vstd::prelude::*;
use core::cmp::Ordering;
use crate::frame::{
    frame_values, lemma_frame_values, lemma_pair_values, pair_values, RespFrame, RespMap,
};
use crate::laws::{law_insert_keeps_keys_sorted, lemma_utf8_injective};
use vstd::utf8::encode_utf8;
use crate::model::{keys_sorted, kind, lex_lt, map_insert, pairs_lt, seq_lt, value_lt, RespValue};

verus! {

/// Byte strings compared in the lexicographic order.
pub fn lex_cmp(a: &[u8], b: &[u8]) -> (r: Ordering)
    ensures
        (r == Ordering::Less) == lex_lt(a@, b@),
        (r == Ordering::Greater) == lex_lt(b@, a@),
        (r == Ordering::Equal) == (a@ == b@),
{
    let mut i: usize = 0;
    assert(a@.subrange(0, a@.len() as int) =~= a@);
    assert(b@.subrange(0, b@.len() as int) =~= b@);
    while i < a.len() && i < b.len() && a[i] == b[i]
        invariant
            i <= a.len(),
            i <= b.len(),
            a@.subrange(0, i as int) == b@.subrange(0, i as int),
            lex_lt(a@, b@) == lex_lt(
                a@.subrange(i as int, a@.len() as int),
                b@.subrange(i as int, b@.len() as int),
            ),
            lex_lt(b@, a@) == lex_lt(
                b@.subrange(i as int, b@.len() as int),
                a@.subrange(i as int, a@.len() as int),
            ),
        decreases a.len() - i,
    {
        proof {
            let sa = a@.subrange(i as int, a@.len() as int);
            let sb = b@.subrange(i as int, b@.len() as int);
            assert(sa.subrange(1, sa.len() as int) =~= a@.subrange(i + 1, a@.len() as int));
            assert(sb.subrange(1, sb.len() as int) =~= b@.subrange(i + 1, b@.len() as int));
            assert(a@.subrange(0, i + 1) =~= a@.subrange(0, i as int).push(a@[i as int]));
            assert(b@.subrange(0, i + 1) =~= b@.subrange(0, i as int).push(b@[i as int]));
        }
        i = i + 1;
    }
    if i == a.len() && i == b.len() {
        assert(a@ =~= a@.subrange(0, i as int));
        assert(b@ =~= b@.subrange(0, i as int));
        Ordering::Equal
    } else if i == a.len() {
        proof {
            if a@ == b@ {
                assert(a@.len() == b@.len());
            }
        }
        Ordering::Less
    } else if i == b.len() {
        proof {
            if a@ == b@ {
                assert(a@.len() == b@.len());
            }
        }
        Ordering::Greater
    } else if a[i] < b[i] {
        assert(a@[i as int] != b@[i as int]);
        Ordering::Less
    } else {
        assert(a@[i as int] != b@[i as int]);
        Ordering::Greater
    }
}

/// The rank of a frame's kind.
pub fn kind_rank(f: &RespFrame) -> (r: u8)
    ensures
        r as int == kind(f@),
{
    match f {
        RespFrame::Null(_) => 0,
        RespFrame::SimpleString(_) => 1,
        RespFrame::Error(_) => 2,
        RespFrame::Integer(_) => 3,
        RespFrame::Boolean(_) => 4,
        RespFrame::BulkString(_) => 5,
        RespFrame::Array(_) => 6,
        RespFrame::Double(_) => 7,
        RespFrame::Dict(_) => 8,
    }
}

/// Two texts compared by their UTF-8 bytes.
fn text_cmp(x: &String, y: &String) -> (r: Ordering)
    ensures
        (r == Ordering::Less) == lex_lt(encode_utf8(x@), encode_utf8(y@)),
        (r == Ordering::Greater) == lex_lt(encode_utf8(y@), encode_utf8(x@)),
        (r == Ordering::Equal) == (x@ == y@),
{
    let r = lex_cmp(x.as_str().as_bytes(), y.as_str().as_bytes());
    proof {
        if encode_utf8(x@) == encode_utf8(y@) {
            lemma_utf8_injective(x@, y@);
        }
    }
    r
}

/// Two frames compared in the order of frames.
pub fn frame_cmp(a: &RespFrame, b: &RespFrame) -> (r: Ordering)
    ensures
        (r == Ordering::Less) == value_lt(a@, b@),
        (r == Ordering::Greater) == value_lt(b@, a@),
        (r == Ordering::Equal) == (a@ == b@),
    decreases a@,
{
    let ka = kind_rank(a);
    let kb = kind_rank(b);
    if ka < kb {
        return Ordering::Less;
    }
    if ka > kb {
        return Ordering::Greater;
    }
    match a {
        RespFrame::Null(_) => Ordering::Equal,
        RespFrame::SimpleString(x) => match b {
            RespFrame::SimpleString(y) => text_cmp(&x.0, &y.0),
            _ => Ordering::Equal,
        },
        RespFrame::Error(x) => match b {
            RespFrame::Error(y) => text_cmp(&x.0, &y.0),
            _ => Ordering::Equal,
        },
        RespFrame::Integer(x) => match b {
            RespFrame::Integer(y) => if *x < *y {
                Ordering::Less
            } else if *x > *y {
                Ordering::Greater
            } else {
                Ordering::Equal
            },
            _ => Ordering::Equal,
        },
        RespFrame::Boolean(x) => match b {
            RespFrame::Boolean(y) => if !*x && *y {
                Ordering::Less
            } else if *x && !*y {
                Ordering::Greater
            } else {
                Ordering::Equal
            },
            _ => Ordering::Equal,
        },
        RespFrame::BulkString(x) => match b {
            RespFrame::BulkString(y) => match (x, y) {
                (None, None) => Ordering::Equal,
                (None, Some(_)) => Ordering::Less,
                (Some(_), None) => Ordering::Greater,
                (Some(p), Some(q)) => lex_cmp(p.0.as_slice(), q.0.as_slice()),
            },
            _ => Ordering::Equal,
        },
        RespFrame::Double(x) => match b {
            RespFrame::Double(y) => lex_cmp(x.0.as_slice(), y.0.as_slice()),
            _ => Ordering::Equal,
        },
        RespFrame::Array(x) => match b {
            RespFrame::Array(y) => match (x, y) {
                (None, None) => Ordering::Equal,
                (None, Some(_)) => Ordering::Less,
                (Some(_), None) => Ordering::Greater,
                (Some(p), Some(q)) => {
                    let ghost xs = frame_values(p.0@);
                    let ghost ys = frame_values(q.0@);
                    proof {
                        lemma_frame_values(p.0@);
                        lemma_frame_values(q.0@);
                        assert(xs.subrange(0, xs.len() as int) =~= xs);
                        assert(ys.subrange(0, ys.len() as int) =~= ys);
                    }
                    let mut i: usize = 0;
                    while i < p.0.len() && i < q.0.len()
                        invariant
                            i <= p.0.len(),
                            i <= q.0.len(),
                            xs == frame_values(p.0@),
                            ys == frame_values(q.0@),
                            xs.len() == p.0.len(),
                            ys.len() == q.0.len(),
                            a@ == RespValue::Array(Some(xs)),
                            b@ == RespValue::Array(Some(ys)),
                            forall|j: int| 0 <= j < p.0.len() ==> #[trigger] xs[j] == p.0@[j]@,
                            forall|j: int| 0 <= j < q.0.len() ==> #[trigger] ys[j] == q.0@[j]@,
                            xs.subrange(0, i as int) == ys.subrange(0, i as int),
                            seq_lt(xs, ys) == seq_lt(
                                xs.subrange(i as int, xs.len() as int),
                                ys.subrange(i as int, ys.len() as int),
                            ),
                            seq_lt(ys, xs) == seq_lt(
                                ys.subrange(i as int, ys.len() as int),
                                xs.subrange(i as int, xs.len() as int),
                            ),
                        decreases p.0.len() - i,
                    {
                        let ghost sx = xs.subrange(i as int, xs.len() as int);
                        let ghost sy = ys.subrange(i as int, ys.len() as int);
                        proof {
                            assert(decreases_to!(a@ => a@->Array_0));
                            assert(decreases_to!(a@->Array_0 => a@->Array_0->Some_0));
                            assert(decreases_to!(xs => xs[i as int]));
                            assert(sx[0] == xs[i as int] && sy[0] == ys[i as int]);
                        }
                        let c = frame_cmp(&p.0[i], &q.0[i]);
                        match c {
                            Ordering::Less => {
                                assert(xs[i as int] != ys[i as int]);
                                return Ordering::Less;
                            },
                            Ordering::Greater => {
                                assert(xs[i as int] != ys[i as int]);
                                return Ordering::Greater;
                            },
                            Ordering::Equal => {},
                        }
                        proof {
                            assert(sx.subrange(1, sx.len() as int) =~= xs.subrange(
                                i + 1,
                                xs.len() as int,
                            ));
                            assert(sy.subrange(1, sy.len() as int) =~= ys.subrange(
                                i + 1,
                                ys.len() as int,
                            ));
                            assert(xs.subrange(0, i + 1) =~= xs.subrange(0, i as int).push(
                                xs[i as int],
                            ));
                            assert(ys.subrange(0, i + 1) =~= ys.subrange(0, i as int).push(
                                ys[i as int],
                            ));
                        }
                        i = i + 1;
                    }
                    if i == p.0.len() && i == q.0.len() {
                        assert(xs =~= xs.subrange(0, i as int));
                        assert(ys =~= ys.subrange(0, i as int));
                        Ordering::Equal
                    } else if i == p.0.len() {
                        assert(xs.len() != ys.len());
                        Ordering::Less
                    } else {
                        assert(xs.len() != ys.len());
                        Ordering::Greater
                    }
                },
            },
            _ => Ordering::Equal,
        },
        RespFrame::Dict(x) => match b {
            RespFrame::Dict(y) => {
                let ghost xs = pair_values(x.0@);
                let ghost ys = pair_values(y.0@);
                proof {
                    lemma_pair_values(x.0@);
                    lemma_pair_values(y.0@);
                    assert(xs.subrange(0, xs.len() as int) =~= xs);
                    assert(ys.subrange(0, ys.len() as int) =~= ys);
                }
                let mut i: usize = 0;
                while i < x.0.len() && i < y.0.len()
                    invariant
                        i <= x.0.len(),
                        i <= y.0.len(),
                        xs == pair_values(x.0@),
                        ys == pair_values(y.0@),
                        xs.len() == x.0.len(),
                        ys.len() == y.0.len(),
                        a@ == RespValue::Dict(xs),
                        b@ == RespValue::Dict(ys),
                        forall|j: int|
                            0 <= j < x.0.len() ==> #[trigger] xs[j] == (x.0@[j].0@, x.0@[j].1@),
                        forall|j: int|
                            0 <= j < y.0.len() ==> #[trigger] ys[j] == (y.0@[j].0@, y.0@[j].1@),
                        xs.subrange(0, i as int) == ys.subrange(0, i as int),
                        pairs_lt(xs, ys) == pairs_lt(
                            xs.subrange(i as int, xs.len() as int),
                            ys.subrange(i as int, ys.len() as int),
                        ),
                        pairs_lt(ys, xs) == pairs_lt(
                            ys.subrange(i as int, ys.len() as int),
                            xs.subrange(i as int, xs.len() as int),
                        ),
                    decreases x.0.len() - i,
                {
                    let ghost sx = xs.subrange(i as int, xs.len() as int);
                    let ghost sy = ys.subrange(i as int, ys.len() as int);
                    proof {
                        assert(decreases_to!(a@ => a@->Dict_0));
                        assert(decreases_to!(xs => xs[i as int]));
                        assert(decreases_to!(xs[i as int] => xs[i as int].0));
                        assert(decreases_to!(xs[i as int] => xs[i as int].1));
                        assert(sx[0] == xs[i as int] && sy[0] == ys[i as int]);
                    }
                    let ck = frame_cmp(&x.0[i].0, &y.0[i].0);
                    match ck {
                        Ordering::Less => {
                            return Ordering::Less;
                        },
                        Ordering::Greater => {
                            return Ordering::Greater;
                        },
                        Ordering::Equal => {},
                    }
                    let cv = frame_cmp(&x.0[i].1, &y.0[i].1);
                    match cv {
                        Ordering::Less => {
                            assert(xs[i as int] != ys[i as int]);
                            return Ordering::Less;
                        },
                        Ordering::Greater => {
                            assert(xs[i as int] != ys[i as int]);
                            return Ordering::Greater;
                        },
                        Ordering::Equal => {},
                    }
                    proof {
                        assert(xs[i as int] == ys[i as int]);
                        assert(sx.subrange(1, sx.len() as int) =~= xs.subrange(
                            i + 1,
                            xs.len() as int,
                        ));
                        assert(sy.subrange(1, sy.len() as int) =~= ys.subrange(
                            i + 1,
                            ys.len() as int,
                        ));
                        assert(xs.subrange(0, i + 1) =~= xs.subrange(0, i as int).push(
                            xs[i as int],
                        ));
                        assert(ys.subrange(0, i + 1) =~= ys.subrange(0, i as int).push(
                            ys[i as int],
                        ));
                    }
                    i = i + 1;
                }
                if i == x.0.len() && i == y.0.len() {
                    assert(xs =~= xs.subrange(0, i as int));
                    assert(ys =~= ys.subrange(0, i as int));
                    Ordering::Equal
                } else if i == x.0.len() {
                    assert(xs.len() != ys.len());
                    Ordering::Less
                } else {
                    assert(xs.len() != ys.len());
                    Ordering::Greater
                }
            },
            _ => Ordering::Equal,
        },
    }
}

impl View for RespMap {
    type V = Seq<(RespValue, RespValue)>;

    open(crate) spec fn view(&self) -> Seq<(RespValue, RespValue)> {
        pair_values(self.0@)
    }
}

impl RespMap {
    /// An empty map.
    pub fn new() -> (r: RespMap)
        ensures
            r@ == Seq::<(RespValue, RespValue)>::empty(),
            keys_sorted(r@),
    {
        let v: Vec<(RespFrame, RespFrame)> = Vec::new();
        proof {
            lemma_pair_values(v@);
        }
        RespMap(v)
    }

    /// The number of entries.
    pub fn len(&self) -> (r: usize)
        ensures
            r == self@.len(),
    {
        proof {
            lemma_pair_values(self.0@);
        }
        self.0.len()
    }

    /// Puts `value` under `key`: a new key goes where the order places it;
    /// for a key already there, the value is replaced.
    pub fn insert(&mut self, key: RespFrame, value: RespFrame)
        ensures
            final(self)@ == map_insert(old(self)@, key@, value@),
            keys_sorted(final(self)@),
    {
        let ghost ov = old(self)@;
        proof {
            use_type_invariant(&*self);
            law_insert_keeps_keys_sorted(ov, key@, value@);
        }
        let mut entries: Vec<(RespFrame, RespFrame)> = Vec::new();
        proof {
            lemma_pair_values(entries@);
        }
        core::mem::swap(&mut entries, &mut self.0);
        proof {
            lemma_pair_values(entries@);
            assert(ov.subrange(0, 0) + ov.subrange(0, ov.len() as int) =~= ov);
        }
        let mut i: usize = 0;
        let mut found: u8 = 0;
        while i < entries.len() && found == 0
            invariant
                i <= entries.len(),
                entries@ == old(self).0@,
                ov == pair_values(entries@),
                ov.len() == entries.len(),
                forall|j: int|
                    0 <= j < entries.len() ==> #[trigger] ov[j] == (
                        entries@[j].0@,
                        entries@[j].1@,
                    ),
                map_insert(ov, key@, value@) == ov.subrange(0, i as int) + map_insert(
                    ov.subrange(i as int, ov.len() as int),
                    key@,
                    value@,
                ),
                found <= 2,
                found != 0 ==> i < entries.len(),
                found == 1 ==> value_lt(key@, ov[i as int].0),
                found == 2 ==> !value_lt(key@, ov[i as int].0) && key@ == ov[i as int].0,
            decreases entries.len() - i + (if found == 0 { 1int } else { 0int }),
        {
            let ghost rest = ov.subrange(i as int, ov.len() as int);
            assert(rest[0] == ov[i as int]);
            let c = frame_cmp(&key, &entries[i].0);
            if matches!(c, Ordering::Less) {
                found = 1;
            } else if matches!(c, Ordering::Equal) {
                found = 2;
            } else {
                proof {
                    assert(rest.subrange(1, rest.len() as int) =~= ov.subrange(
                        i + 1,
                        ov.len() as int,
                    ));
                    assert(ov.subrange(0, i as int) + seq![ov[i as int]] =~= ov.subrange(0, i + 1));
                    assert(ov.subrange(0, i as int) + (seq![ov[i as int]] + map_insert(
                        rest.subrange(1, rest.len() as int),
                        key@,
                        value@,
                    )) =~= ov.subrange(0, i + 1) + map_insert(
                        ov.subrange(i + 1, ov.len() as int),
                        key@,
                        value@,
                    ));
                }
                i = i + 1;
            }
        }
        let ghost rest = ov.subrange(i as int, ov.len() as int);
        if found == 1 {
            assert(rest[0] == ov[i as int]);
            entries.insert(i, (key, value));
            proof {
                lemma_pair_values(entries@);
                assert(pair_values(entries@) =~= ov.subrange(0, i as int) + (seq![(key@, value@)]
                    + rest));
            }
        } else if found == 2 {
            assert(rest[0] == ov[i as int]);
            proof {
                if value_lt(ov[i as int].0, key@) {
                    crate::laws::lemma_value_lt_asymmetric(ov[i as int].0, key@);
                }
            }
            let (k0, _old_value) = entries.remove(i);
            entries.insert(i, (k0, value));
            proof {
                lemma_pair_values(entries@);
                assert(pair_values(entries@) =~= ov.subrange(0, i as int) + (seq![
                    (ov[i as int].0, value@),
                ] + rest.subrange(1, rest.len() as int)));
            }
        } else {
            assert(i == ov.len());
            assert(rest =~= Seq::<(RespValue, RespValue)>::empty());
            entries.push((key, value));
            proof {
                lemma_pair_values(entries@);
                assert(pair_values(entries@) =~= ov.subrange(0, i as int) + seq![(key@, value@)]);
            }
        }
        self.0 = entries;
    }
}

} // verus!
