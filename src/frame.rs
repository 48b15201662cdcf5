//! The frame types, and the view of each as a [`RespValue`].

use vstd::prelude::*;
use crate::model::{is_double_text, keys_sorted, RespValue};
use vstd::string::StringSliceAdditionalSpecFns;

verus! {

/// The null frame, `_\r\n`.
#[derive(Debug, Clone, Copy, PartialEq, Eq, Hash, Structural)]
pub struct RespNull;

/// A line of text: `+<text>\r\n`.
#[derive(Debug, Clone, PartialEq, Eq, Hash)]
pub struct SimpleString(pub String);

/// An error line: `-<text>\r\n`.
#[derive(Debug, Clone, PartialEq, Eq, Hash)]
pub struct SimpleError(pub String);

/// The bytes of a length-prefixed string.
#[derive(Debug, Clone, PartialEq, Eq, Hash)]
pub struct BulkString(pub Vec<u8>);

/// The elements of an array frame.
#[derive(Debug, Clone, PartialEq, Eq, Hash)]
pub struct RespArray(pub Vec<RespFrame>);

/// A double, held in its decimal spelling (see [`is_double_text`]). Two
/// doubles are the same frame when they are spelled alike; a float written
/// out the same way each time, `nan` for every NaN, keeps `0` apart from `-0`
/// and `nan` equal to itself.
#[derive(Debug, Clone, PartialEq, Eq, Hash)]
pub struct Double(pub Vec<u8>);

/// The entries of a map frame, sorted by key in the order of frames (see
/// `value_lt`), so with no two keys alike. The order is kept as an invariant
/// of the type: a map is built with `new` and `insert`, or decoded.
#[derive(Debug, PartialEq, Eq, Hash)]
pub struct RespMap(pub(crate) Vec<(RespFrame, RespFrame)>);

/// One frame of the protocol.
#[derive(Debug, PartialEq, Eq, Hash)]
pub enum RespFrame {
    Null(RespNull),
    SimpleString(SimpleString),
    Error(SimpleError),
    Integer(i64),
    Boolean(bool),
    BulkString(Option<BulkString>),
    Array(Option<RespArray>),
    Double(Double),
    Dict(RespMap),
}

/// Why bytes do not yield a frame.
#[derive(Debug, Clone, Copy, PartialEq, Eq, Structural)]
pub enum RespError {
    /// The bytes are a frame cut short: more may complete it.
    NotComplete,
    /// The first byte names no kind of frame.
    InvalidFrameType(u8),
    /// A declared length or count below `-1`, or `-1` for a map.
    InvalidFrameLength(i64),
    /// Any other breach of the grammar.
    InvalidFrame,
}

/// The mathematical value of a frame.
pub open(crate) spec fn frame_value(f: RespFrame) -> RespValue
    decreases f,
{
    match f {
        RespFrame::Null(_) => RespValue::Null,
        RespFrame::SimpleString(s) => RespValue::Simple(s.0@),
        RespFrame::Error(e) => RespValue::Error(e.0@),
        RespFrame::Integer(i) => RespValue::Integer(i as int),
        RespFrame::Boolean(b) => RespValue::Boolean(b),
        RespFrame::BulkString(None) => RespValue::Bulk(None),
        RespFrame::BulkString(Some(b)) => RespValue::Bulk(Some(b.0@)),
        RespFrame::Array(None) => RespValue::Array(None),
        RespFrame::Array(Some(a)) => RespValue::Array(Some(frame_values(a.0@))),
        RespFrame::Double(d) => RespValue::Double(d.0@),
        RespFrame::Dict(m) => RespValue::Dict(pair_values(m.0@)),
    }
}

pub open spec fn frame_values(s: Seq<RespFrame>) -> Seq<RespValue>
    decreases s,
{
    if s.len() == 0 {
        Seq::empty()
    } else {
        seq![frame_value(s[0])] + frame_values(s.subrange(1, s.len() as int))
    }
}

pub open spec fn pair_values(s: Seq<(RespFrame, RespFrame)>) -> Seq<(RespValue, RespValue)>
    decreases s,
{
    if s.len() == 0 {
        Seq::empty()
    } else {
        seq![(frame_value(s[0].0), frame_value(s[0].1))] + pair_values(
            s.subrange(1, s.len() as int),
        )
    }
}

impl View for RespFrame {
    type V = RespValue;

    open spec fn view(&self) -> RespValue {
        frame_value(*self)
    }
}

} // verus!

verus! {

pub proof fn lemma_frame_values(s: Seq<RespFrame>)
    ensures
        frame_values(s).len() == s.len(),
        forall|i: int| 0 <= i < s.len() ==> #[trigger] frame_values(s)[i] == frame_value(s[i]),
    decreases s.len(),
{
    if s.len() > 0 {
        let rest = s.subrange(1, s.len() as int);
        lemma_frame_values(rest);
        assert forall|i: int| 0 <= i < s.len() implies #[trigger] frame_values(s)[i] == frame_value(
            s[i],
        ) by {
            if i > 0 {
                assert(rest[i - 1] == s[i]);
            }
        }
    }
}

pub proof fn lemma_pair_values(s: Seq<(RespFrame, RespFrame)>)
    ensures
        pair_values(s).len() == s.len(),
        forall|i: int|
            0 <= i < s.len() ==> #[trigger] pair_values(s)[i] == (
                frame_value(s[i].0),
                frame_value(s[i].1),
            ),
    decreases s.len(),
{
    if s.len() > 0 {
        let rest = s.subrange(1, s.len() as int);
        lemma_pair_values(rest);
        assert forall|i: int| 0 <= i < s.len() implies #[trigger] pair_values(s)[i] == (
            frame_value(s[i].0),
            frame_value(s[i].1),
        ) by {
            if i > 0 {
                assert(rest[i - 1] == s[i]);
            }
        }
    }
}

} // verus!

verus! {

impl SimpleString {
    pub fn new(s: &str) -> (r: SimpleString)
        ensures
            r.0@ == s@,
    {
        SimpleString(s.to_owned())
    }
}

impl SimpleError {
    pub fn new(s: &str) -> (r: SimpleError)
        ensures
            r.0@ == s@,
    {
        SimpleError(s.to_owned())
    }
}

impl BulkString {
    pub fn new(s: &[u8]) -> (r: BulkString)
        ensures
            r.0@ == s@,
    {
        let mut v: Vec<u8> = Vec::new();
        crate::encode::push_bytes(&mut v, s);
        assert(v@ =~= s@);
        BulkString(v)
    }
}

impl RespArray {
    pub fn new(items: Vec<RespFrame>) -> (r: RespArray)
        ensures
            r.0@ == items@,
    {
        RespArray(items)
    }
}

impl Double {
    /// The double spelled `text`, where `text` spells one.
    pub fn new(text: &str) -> (r: Option<Double>)
        ensures
            r is Some <==> is_double_text(text.spec_bytes()),
            r is Some ==> r->Some_0.0@ == text.spec_bytes(),
    {
        let b = text.as_bytes();
        if crate::scan::is_double(b) {
            let mut v: Vec<u8> = Vec::new();
            crate::encode::push_bytes(&mut v, b);
            assert(v@ =~= b@);
            Some(Double(v))
        } else {
            None
        }
    }
}

impl From<SimpleString> for RespFrame {
    fn from(s: SimpleString) -> RespFrame {
        RespFrame::SimpleString(s)
    }
}

impl vstd::std_specs::convert::FromSpecImpl<SimpleString> for RespFrame {
    open spec fn obeys_from_spec() -> bool {
        true
    }

    open spec fn from_spec(v: SimpleString) -> RespFrame {
        RespFrame::SimpleString(v)
    }
}

impl From<SimpleError> for RespFrame {
    fn from(e: SimpleError) -> RespFrame {
        RespFrame::Error(e)
    }
}

impl vstd::std_specs::convert::FromSpecImpl<SimpleError> for RespFrame {
    open spec fn obeys_from_spec() -> bool {
        true
    }

    open spec fn from_spec(v: SimpleError) -> RespFrame {
        RespFrame::Error(v)
    }
}

impl From<Option<BulkString>> for RespFrame {
    fn from(b: Option<BulkString>) -> RespFrame {
        RespFrame::BulkString(b)
    }
}

impl vstd::std_specs::convert::FromSpecImpl<Option<BulkString>> for RespFrame {
    open spec fn obeys_from_spec() -> bool {
        true
    }

    open spec fn from_spec(v: Option<BulkString>) -> RespFrame {
        RespFrame::BulkString(v)
    }
}

impl From<Option<RespArray>> for RespFrame {
    fn from(a: Option<RespArray>) -> RespFrame {
        RespFrame::Array(a)
    }
}

impl vstd::std_specs::convert::FromSpecImpl<Option<RespArray>> for RespFrame {
    open spec fn obeys_from_spec() -> bool {
        true
    }

    open spec fn from_spec(v: Option<RespArray>) -> RespFrame {
        RespFrame::Array(v)
    }
}

impl From<i64> for RespFrame {
    fn from(i: i64) -> RespFrame {
        RespFrame::Integer(i)
    }
}

impl vstd::std_specs::convert::FromSpecImpl<i64> for RespFrame {
    open spec fn obeys_from_spec() -> bool {
        true
    }

    open spec fn from_spec(v: i64) -> RespFrame {
        RespFrame::Integer(v)
    }
}

impl From<RespMap> for RespFrame {
    fn from(m: RespMap) -> RespFrame {
        RespFrame::Dict(m)
    }
}

impl vstd::std_specs::convert::FromSpecImpl<RespMap> for RespFrame {
    open spec fn obeys_from_spec() -> bool {
        true
    }

    open spec fn from_spec(v: RespMap) -> RespFrame {
        RespFrame::Dict(v)
    }
}

impl From<Double> for RespFrame {
    fn from(d: Double) -> RespFrame {
        RespFrame::Double(d)
    }
}

impl vstd::std_specs::convert::FromSpecImpl<Double> for RespFrame {
    open spec fn obeys_from_spec() -> bool {
        true
    }

    open spec fn from_spec(v: Double) -> RespFrame {
        RespFrame::Double(v)
    }
}

impl RespMap {
    /// The keys are sorted in the order of frames.
    #[verifier::type_invariant]
    pub(crate) open spec fn keys_in_order(self) -> bool {
        keys_sorted(pair_values(self.0@))
    }
}

} // verus!
