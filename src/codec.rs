//! Decoding frames off the front of a growing byte buffer, and encoding
//! frames onto its end.

use vstd::prelude::*;
use bytes::BytesMut;
use crate::decode::{decode_exact_slice, frame_result};
use crate::frame::{RespError, RespFrame};
use crate::model::{encoding, RespValue};
use crate::wire::{decode_value, frame_len, lemma_frame_len_bounds};

verus! {

#[verifier::external_type_specification]
#[verifier::external_body]
pub struct ExBytesMut(bytes::BytesMut);

/// The bytes that a buffer holds.
pub uninterp spec fn buffered(b: BytesMut) -> Seq<u8>;

/// Relies on `BytesMut`'s `Deref` to `[u8]`: the bytes the buffer holds.
#[verifier::external_body]
fn held(b: &BytesMut) -> (r: &[u8])
    ensures
        r@ == buffered(*b),
{
    &b[..]
}

/// Relies on `BytesMut::split_to`: the first `at` bytes leave the buffer and
/// come back as a buffer of their own; it panics only where `at` exceeds the
/// length.
#[verifier::external_body]
fn split_front(b: &mut BytesMut, at: usize) -> (r: BytesMut)
    requires
        at <= buffered(*old(b)).len(),
    ensures
        buffered(r) == buffered(*old(b)).subrange(0, at as int),
        buffered(*final(b)) == buffered(*old(b)).subrange(at as int, buffered(*old(b)).len() as int),
{
    b.split_to(at)
}

/// Relies on `BytesMut::extend_from_slice`: the bytes are appended.
#[verifier::external_body]
fn append(b: &mut BytesMut, s: &[u8])
    ensures
        buffered(*final(b)) == buffered(*old(b)) + s@,
{
    b.extend_from_slice(s)
}

impl RespFrame {
    /// Takes one frame off the front of `buf`. Where the frame is complete
    /// and well formed, its bytes leave the buffer; otherwise the buffer is
    /// left as it was, and the error says whether more bytes could help.
    pub fn decode(buf: &mut BytesMut) -> (r: Result<RespFrame, RespError>)
        ensures
            match frame_len(buffered(*old(buf))) {
                Err(e) => r == Err::<RespFrame, RespError>(e),
                Ok(n) => frame_result(r) == decode_value(
                    buffered(*old(buf)).subrange(0, n),
                ),
            },
            r is Ok ==> buffered(*final(buf)) == buffered(*old(buf)).subrange(
                frame_len(buffered(*old(buf)))->Ok_0,
                buffered(*old(buf)).len() as int,
            ),
            r is Err ==> buffered(*final(buf)) == buffered(*old(buf)),
    {
        let bytes = held(buf);
        let n = match RespFrame::expect_length(bytes) {
            Err(e) => {
                return Err(e);
            },
            Ok(n) => n,
        };
        proof {
            lemma_frame_len_bounds(bytes@);
        }
        let frame = match decode_exact_slice(&bytes[0..n]) {
            Err(e) => {
                return Err(e);
            },
            Ok(f) => f,
        };
        let _taken = split_front(buf, n);
        Ok(frame)
    }
}

/// A codec of frames over a byte buffer.
#[derive(Debug)]
pub struct RespFrameCodec;

impl RespFrameCodec {
    /// The next frame off the front of `src`; `None` where the buffer holds
    /// only part of one, and then the buffer is left as it was.
    pub fn decode(&mut self, src: &mut BytesMut) -> (r: Result<Option<RespFrame>, RespError>)
        ensures
            match frame_len(buffered(*old(src))) {
                Err(RespError::NotComplete) => r == Ok::<Option<RespFrame>, RespError>(None),
                Err(e) => r == Err::<Option<RespFrame>, RespError>(e),
                Ok(n) => match r {
                    Ok(Some(f)) => decode_value(buffered(*old(src)).subrange(0, n)) == Ok::<
                        _,
                        RespError,
                    >(f@) && buffered(*final(src)) == buffered(*old(src)).subrange(
                        n,
                        buffered(*old(src)).len() as int,
                    ),
                    Ok(None) => decode_value(buffered(*old(src)).subrange(0, n)) == Err::<
                        RespValue,
                        RespError,
                    >(RespError::NotComplete),
                    Err(e) => decode_value(buffered(*old(src)).subrange(0, n)) == Err::<
                        RespValue,
                        RespError,
                    >(e),
                },
            },
            !(r matches Ok(Some(_))) ==> buffered(*final(src)) == buffered(*old(src)),
            r != Err::<Option<RespFrame>, RespError>(RespError::NotComplete),
    {
        match RespFrame::decode(src) {
            Ok(frame) => Ok(Some(frame)),
            Err(RespError::NotComplete) => Ok(None),
            Err(e) => Err(e),
        }
    }

    /// Appends the wire form of `item` to `dst`.
    pub fn encode(&mut self, item: RespFrame, dst: &mut BytesMut)
        ensures
            buffered(*final(dst)) == buffered(*old(dst)) + encoding(item@),
    {
        let bytes = item.encode();
        append(dst, bytes.as_slice());
    }
}

} // verus!
