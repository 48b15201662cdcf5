//! Copying frames.

use vstd::prelude::*;
use crate::frame::{
    frame_values, lemma_frame_values, lemma_pair_values, pair_values, BulkString, Double,
    RespArray, RespFrame, RespMap, RespNull, SimpleError, SimpleString,
};
use crate::model::RespValue;

verus! {

impl RespFrame {
    /// A copy of this frame.
    pub fn duplicate(&self) -> (r: RespFrame)
        ensures
            r@ == self@,
        decreases self@,
    {
        match self {
            RespFrame::Null(_) => RespFrame::Null(RespNull),
            RespFrame::SimpleString(s) => RespFrame::SimpleString(SimpleString(s.0.clone())),
            RespFrame::Error(e) => RespFrame::Error(SimpleError(e.0.clone())),
            RespFrame::Integer(i) => RespFrame::Integer(*i),
            RespFrame::Boolean(b) => RespFrame::Boolean(*b),
            RespFrame::BulkString(None) => RespFrame::BulkString(None),
            RespFrame::BulkString(Some(b)) => RespFrame::BulkString(
                Some(BulkString::new(b.0.as_slice())),
            ),
            RespFrame::Double(d) => {
                let copy = BulkString::new(d.0.as_slice());
                RespFrame::Double(Double(copy.0))
            },
            RespFrame::Array(None) => RespFrame::Array(None),
            RespFrame::Array(Some(a)) => {
                let ghost items = frame_values(a.0@);
                proof {
                    lemma_frame_values(a.0@);
                }
                let mut out: Vec<RespFrame> = Vec::new();
                let mut i: usize = 0;
                while i < a.0.len()
                    invariant
                        i <= a.0.len(),
                        out@.len() == i,
                        items == frame_values(a.0@),
                        items.len() == a.0.len(),
                        self@ == RespValue::Array(Some(items)),
                        forall|j: int| 0 <= j < a.0.len() ==> #[trigger] items[j] == a.0@[j]@,
                        forall|j: int| 0 <= j < i ==> #[trigger] out@[j]@ == a.0@[j]@,
                    decreases a.0.len() - i,
                {
                    proof {
                        assert(decreases_to!(self@ => self@->Array_0));
                        assert(decreases_to!(self@->Array_0 => self@->Array_0->Some_0));
                        assert(decreases_to!(items => items[i as int]));
                    }
                    let c = a.0[i].duplicate();
                    out.push(c);
                    i = i + 1;
                }
                proof {
                    lemma_frame_values(out@);
                    assert(i == a.0.len());
                    assert forall|j: int| 0 <= j < items.len() implies frame_values(out@)[j]
                        == items[j] by {
                        assert(out@[j]@ == a.0@[j]@);
                    }
                    assert(frame_values(out@) =~= items);
                }
                RespFrame::Array(Some(RespArray(out)))
            },
            RespFrame::Dict(m) => {
                proof {
                    assert(decreases_to!(self@ => self@->Dict_0));
                }
                RespFrame::Dict(m.duplicate())
            },
        }
    }
}

impl RespMap {
    /// A copy of this map.
    pub fn duplicate(&self) -> (r: RespMap)
        ensures
            r@ == self@,
        decreases self@,
    {
        let ghost entries = pair_values(self.0@);
        proof {
            lemma_pair_values(self.0@);
            use_type_invariant(self);
        }
        let mut out: Vec<(RespFrame, RespFrame)> = Vec::new();
        let mut i: usize = 0;
        while i < self.0.len()
            invariant
                i <= self.0.len(),
                out@.len() == i,
                entries == pair_values(self.0@),
                entries.len() == self.0.len(),
                self@ == entries,
                crate::model::keys_sorted(entries),
                forall|j: int|
                    0 <= j < self.0.len() ==> #[trigger] entries[j] == (
                        self.0@[j].0@,
                        self.0@[j].1@,
                    ),
                forall|j: int|
                    0 <= j < i ==> #[trigger] out@[j].0@ == self.0@[j].0@ && out@[j].1@
                        == self.0@[j].1@,
            decreases self.0.len() - i,
        {
            proof {
                assert(decreases_to!(entries => entries[i as int]));
                assert(decreases_to!(entries[i as int] => entries[i as int].0));
                assert(decreases_to!(entries[i as int] => entries[i as int].1));
            }
            let k = self.0[i].0.duplicate();
            let v = self.0[i].1.duplicate();
            out.push((k, v));
            i = i + 1;
        }
        proof {
            lemma_pair_values(out@);
            assert(i == self.0.len());
            assert forall|j: int| 0 <= j < entries.len() implies pair_values(out@)[j]
                == entries[j] by {
                assert(out@[j].0@ == self.0@[j].0@ && out@[j].1@ == self.0@[j].1@);
            }
            assert(pair_values(out@) =~= entries);
        }
        RespMap(out)
    }
}

impl Clone for RespMap {
    fn clone(&self) -> RespMap {
        self.duplicate()
    }
}

impl Clone for RespFrame {
    fn clone(&self) -> RespFrame {
        self.duplicate()
    }
}

} // verus!
