//! A verified codec for the RESP wire protocol, with a small command layer.
//!
//! Frames are probed for completeness, decoded from exactly one complete
//! frame, and encoded back; each step is stated against the byte-level model
//! in [`model`].

use vstd::prelude::*;

pub mod laws;
pub mod map;
pub mod model;
pub mod cmd;
pub mod codec;
pub mod copy;
pub mod decode;
pub mod encode;
pub mod frame;
pub mod probe;
pub mod scan;
pub mod text;
pub mod wire;

pub use frame::{
    BulkString, Double, RespArray, RespError, RespFrame, RespMap, RespNull, SimpleError,
    SimpleString,
};
pub use codec::RespFrameCodec;
pub use cmd::{
    ArgsCheckRule, Command, CommandError, Echo, HSet, HmGet, Info, SAdd, SisMember, Unrecognized,
};
