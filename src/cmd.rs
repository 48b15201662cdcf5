//! The commands: reading a command out of a request frame, and the replies
//! that do not need the store.

use vstd::prelude::*;
use vstd::utf8::{decode_utf8, encode_utf8, valid_utf8};
use crate::frame::{
    frame_values, lemma_frame_values, BulkString, RespArray, RespError, RespFrame, SimpleError,
    SimpleString,
};
use crate::model::RespValue;
use vstd::string::StringSliceAdditionalSpecFns;
use crate::text::{text_from_bytes, text_of, utf8_text};

verus! {

/// Why a frame is not a command that can run.
#[derive(Debug, Clone, Copy, PartialEq, Eq, Structural)]
pub enum CommandError {
    /// Not an array headed by a bulk string that names the command.
    InvalidCommand,
    /// The arguments do not fit the command.
    InvalidArgument,
    /// The request did not decode.
    RespError(RespError),
    /// A key or field is not UTF-8.
    Utf8Error,
}

pub open spec fn ascii_lower(b: Seq<u8>) -> Seq<u8> {
    Seq::new(
        b.len(),
        |i: int|
            if 65 <= b[i] <= 90 {
                (b[i] + 32) as u8
            } else {
                b[i]
            },
    )
}

/// The bulk string that heads a request, in ASCII lower case, is `name`.
pub open spec fn is_named(v: RespValue, name: Seq<u8>) -> bool {
    match v {
        RespValue::Bulk(Some(b)) => ascii_lower(b) == name,
        _ => false,
    }
}

/// How the number of arguments of a command is checked.
#[derive(Debug, Clone, Copy, PartialEq, Eq, Structural)]
pub enum ArgsCheckRule {
    /// Exactly so many.
    Equal,
    /// At least so many.
    EqualOrGreater,
}

/// What checking the count and the name of a request gives.
pub open spec fn validation(
    items: Seq<RespValue>,
    name: Seq<u8>,
    n_args: int,
    rule: ArgsCheckRule,
) -> Result<(), CommandError> {
    let exact = rule == ArgsCheckRule::Equal;
    if (exact && items.len() != n_args + 1) || (!exact && items.len() < n_args + 1) {
        Err(CommandError::InvalidArgument)
    } else if !is_named(items[0], name) {
        Err(CommandError::InvalidCommand)
    } else {
        Ok(())
    }
}

fn lower_matches(b: &[u8], name: &[u8]) -> (r: bool)
    ensures
        r == (ascii_lower(b@) == name@),
{
    if b.len() != name.len() {
        proof {
            if ascii_lower(b@) == name@ {
                assert(ascii_lower(b@).len() == b@.len());
            }
        }
        return false;
    }
    let mut i: usize = 0;
    while i < b.len()
        invariant
            i <= b.len(),
            b.len() == name.len(),
            forall|j: int| 0 <= j < i ==> #[trigger] ascii_lower(b@)[j] == name@[j],
        decreases b.len() - i,
    {
        let c = if 65u8 <= b[i] && b[i] <= 90u8 {
            b[i] + 32
        } else {
            b[i]
        };
        if c != name[i] {
            assert(ascii_lower(b@)[i as int] != name@[i as int]);
            return false;
        }
        i = i + 1;
    }
    assert(ascii_lower(b@) =~= name@);
    true
}

/// Checks that `value` holds the command `name` and `n_args` arguments,
/// exactly so many or at least so many.
pub fn validate_command(value: &RespArray, name: &str, n_args: usize, rule: ArgsCheckRule) -> (r:
    Result<(), CommandError>)
    ensures
        r == validation(frame_values(value.0@), name.spec_bytes(), n_args as int, rule),
{
    let exact = match rule {
        ArgsCheckRule::Equal => true,
        ArgsCheckRule::EqualOrGreater => false,
    };
    proof {
        lemma_frame_values(value.0@);
    }
    let len = value.0.len();
    if (exact && len as u128 != n_args as u128 + 1) || (!exact && (len as u128) < n_args as u128
        + 1) {
        return Err(CommandError::InvalidArgument);
    }
    match &value.0[0] {
        RespFrame::BulkString(Some(b)) => {
            if lower_matches(b.0.as_slice(), name.as_bytes()) {
                Ok(())
            } else {
                Err(CommandError::InvalidCommand)
            }
        },
        _ => Err(CommandError::InvalidCommand),
    }
}

/// The elements of `value` from `start` on.
pub fn extract_args(value: RespArray, start: usize) -> (r: Result<Vec<RespFrame>, CommandError>)
    ensures
        r is Ok,
        start <= value.0@.len() ==> r->Ok_0@ == value.0@.subrange(
            start as int,
            value.0@.len() as int,
        ),
        start > value.0@.len() ==> r->Ok_0@.len() == 0,
{
    let mut v = value.0;
    if start > v.len() {
        return Ok(Vec::new());
    }
    let tail = v.split_off(start);
    Ok(tail)
}

/// The arguments of a request that has passed [`validate_command`].
fn arguments(value: RespArray) -> (r: Vec<RespFrame>)
    requires
        value.0@.len() >= 1,
    ensures
        r@ == value.0@.subrange(1, value.0@.len() as int),
{
    match extract_args(value, 1) {
        Ok(v) => v,
        Err(_) => Vec::new(),
    }
}

/// Takes the first frame out of `v`.
fn take_first(v: &mut Vec<RespFrame>) -> (r: RespFrame)
    requires
        old(v)@.len() > 0,
    ensures
        r == old(v)@[0],
        final(v)@ == old(v)@.subrange(1, old(v)@.len() as int),
{
    v.remove(0)
}

/// `ECHO message`: replies with its argument.
#[derive(Debug)]
pub struct Echo {
    pub echo: RespFrame,
}

/// `HMGET key field...`: the values of fields of a hash.
#[derive(Debug)]
pub struct HmGet {
    pub key: String,
    pub members: Vec<String>,
}

/// `HSET key field value`: sets a field of a hash.
#[derive(Debug)]
pub struct HSet {
    pub key: String,
    pub field: String,
    pub value: RespFrame,
}

/// `INFO`.
#[derive(Debug)]
pub struct Info();

/// `SADD key member...`: adds members to a set.
#[derive(Debug)]
pub struct SAdd {
    pub key: String,
    pub members: RespArray,
}

/// `SISMEMBER key member`: whether a set holds a member.
#[derive(Debug)]
pub struct SisMember {
    pub key: String,
    pub member: RespFrame,
}

/// A command this server does not know, by the name it was given.
#[derive(Debug)]
pub struct Unrecognized(pub BulkString);

/// A command read from a request.
#[derive(Debug)]
pub enum Command {
    Echo(Echo),
    HmGet(HmGet),
    HSet(HSet),
    Info(Info),
    SAdd(SAdd),
    SisMember(SisMember),
    Unrecognized(Unrecognized),
}

/// A command as a mathematical value.
pub enum CommandValue {
    Echo(RespValue),
    HmGet(Seq<char>, Seq<Seq<char>>),
    HSet(Seq<char>, Seq<char>, RespValue),
    Info,
    SAdd(Seq<char>, Seq<RespValue>),
    SisMember(Seq<char>, RespValue),
    Unrecognized(Seq<u8>),
}

/// A key or field argument: a bulk string of UTF-8.
pub open spec fn key_of(v: RespValue) -> Result<Seq<char>, CommandError> {
    match v {
        RespValue::Bulk(Some(b)) => if valid_utf8(b) {
            Ok(decode_utf8(b))
        } else {
            Err(CommandError::Utf8Error)
        },
        _ => Err(CommandError::InvalidArgument),
    }
}

pub open spec fn is_bulk(v: RespValue) -> bool {
    v matches RespValue::Bulk(Some(_))
}

/// The texts of the arguments that are bulk strings of UTF-8; the others
/// are passed over.
pub open spec fn member_texts(args: Seq<RespValue>) -> Seq<Seq<char>>
    decreases args.len(),
{
    if args.len() == 0 {
        Seq::empty()
    } else {
        let before = member_texts(args.drop_last());
        match key_of(args.last()) {
            Ok(t) => before.push(t),
            Err(_) => before,
        }
    }
}

pub open spec fn parse_echo(items: Seq<RespValue>) -> Result<CommandValue, CommandError> {
    match validation(items, "echo".spec_bytes(), 1, ArgsCheckRule::Equal) {
        Err(x) => Err(x),
        Ok(_) => Ok(CommandValue::Echo(items[1])),
    }
}

pub open spec fn parse_hmget(items: Seq<RespValue>) -> Result<CommandValue, CommandError> {
    match validation(items, "hmget".spec_bytes(), 2, ArgsCheckRule::EqualOrGreater) {
        Err(x) => Err(x),
        Ok(_) => match key_of(items[1]) {
            Err(x) => Err(x),
            Ok(key) => {
                let members = member_texts(items.subrange(2, items.len() as int));
                if members.len() == 0 {
                    Err(CommandError::InvalidArgument)
                } else {
                    Ok(CommandValue::HmGet(key, members))
                }
            },
        },
    }
}

pub open spec fn parse_hset(items: Seq<RespValue>) -> Result<CommandValue, CommandError> {
    match validation(items, "hset".spec_bytes(), 3, ArgsCheckRule::Equal) {
        Err(x) => Err(x),
        Ok(_) => if is_bulk(items[1]) && is_bulk(items[2]) {
            match (key_of(items[1]), key_of(items[2])) {
                (Ok(k), Ok(f)) => Ok(CommandValue::HSet(k, f, items[3])),
                _ => Err(CommandError::Utf8Error),
            }
        } else {
            Err(CommandError::InvalidArgument)
        },
    }
}

pub open spec fn parse_info(items: Seq<RespValue>) -> Result<CommandValue, CommandError> {
    match validation(items, "info".spec_bytes(), 0, ArgsCheckRule::Equal) {
        Err(x) => Err(x),
        Ok(_) => Ok(CommandValue::Info),
    }
}

pub open spec fn parse_sadd(items: Seq<RespValue>) -> Result<CommandValue, CommandError> {
    match validation(items, "sadd".spec_bytes(), 2, ArgsCheckRule::EqualOrGreater) {
        Err(x) => Err(x),
        Ok(_) => match key_of(items[1]) {
            Err(x) => Err(x),
            Ok(key) => Ok(CommandValue::SAdd(key, items.subrange(2, items.len() as int))),
        },
    }
}

pub open spec fn parse_sismember(items: Seq<RespValue>) -> Result<CommandValue, CommandError> {
    match validation(items, "sismember".spec_bytes(), 2, ArgsCheckRule::EqualOrGreater) {
        Err(x) => Err(x),
        Ok(_) => if is_bulk(items[1]) {
            match key_of(items[1]) {
                Err(x) => Err(x),
                Ok(key) => Ok(CommandValue::SisMember(key, items[2])),
            }
        } else {
            Err(CommandError::InvalidArgument)
        },
    }
}

/// The command that a request frame holds. The name is matched exactly.
pub open spec fn parse_command(v: RespValue) -> Result<CommandValue, CommandError> {
    match v {
        RespValue::Array(Some(items)) => if items.len() > 0 && is_bulk(items[0]) {
            let name = items[0]->Bulk_0->Some_0;
            if name == "echo".spec_bytes() {
                parse_echo(items)
            } else if name == "hmget".spec_bytes() {
                parse_hmget(items)
            } else if name == "hset".spec_bytes() {
                parse_hset(items)
            } else if name == "info".spec_bytes() {
                parse_info(items)
            } else if name == "sadd".spec_bytes() {
                parse_sadd(items)
            } else if name == "sismember".spec_bytes() {
                parse_sismember(items)
            } else {
                Ok(CommandValue::Unrecognized(name))
            }
        } else {
            Err(CommandError::InvalidCommand)
        },
        _ => Err(CommandError::InvalidCommand),
    }
}

pub open spec fn texts(v: Seq<String>) -> Seq<Seq<char>> {
    v.map_values(|s: String| s@)
}

impl View for Command {
    type V = CommandValue;

    open spec fn view(&self) -> CommandValue {
        match self {
            Command::Echo(e) => CommandValue::Echo(e.echo@),
            Command::HmGet(h) => CommandValue::HmGet(h.key@, texts(h.members@)),
            Command::HSet(h) => CommandValue::HSet(h.key@, h.field@, h.value@),
            Command::Info(_) => CommandValue::Info,
            Command::SAdd(a) => CommandValue::SAdd(a.key@, frame_values(a.members.0@)),
            Command::SisMember(m) => CommandValue::SisMember(m.key@, m.member@),
            Command::Unrecognized(u) => CommandValue::Unrecognized(u.0.0@),
        }
    }
}

/// A parsed command as a mathematical one.
pub open spec fn command_result(r: Result<Command, CommandError>) -> Result<CommandValue, CommandError> {
    match r {
        Ok(c) => Ok(c@),
        Err(e) => Err(e),
    }
}

/// Reads a key or field argument.
fn take_key(arg: RespFrame) -> (r: Result<String, CommandError>)
    ensures
        match r {
            Ok(s) => key_of(arg@) == Ok::<Seq<char>, CommandError>(s@),
            Err(e) => key_of(arg@) == Err::<Seq<char>, CommandError>(e),
        },
{
    match arg {
        RespFrame::BulkString(Some(b)) => match utf8_text(b.0) {
            Some(s) => Ok(s),
            None => Err(CommandError::Utf8Error),
        },
        _ => Err(CommandError::InvalidArgument),
    }
}

impl Echo {
    pub fn try_from(value: RespArray) -> (r: Result<Echo, CommandError>)
        ensures
            match r {
                Ok(c) => parse_echo(frame_values(value.0@)) == Ok::<CommandValue, CommandError>(
                    Command::Echo(c)@,
                ),
                Err(x) => parse_echo(frame_values(value.0@)) == Err::<CommandValue, CommandError>(
                    x,
                ),
            },
    {
        proof {
            lemma_frame_values(value.0@);
        }
        match validate_command(&value, "echo", 1, ArgsCheckRule::Equal) {
            Err(x) => {
                return Err(x);
            },
            Ok(_) => {},
        }
        let mut args = arguments(value);
        let echo = take_first(&mut args);
        Ok(Echo { echo })
    }

    /// The reply: the argument itself.
    pub fn execute(self) -> (r: RespFrame)
        ensures
            r == self.echo,
    {
        self.echo
    }
}

impl HmGet {
    pub fn try_from(value: RespArray) -> (r: Result<HmGet, CommandError>)
        ensures
            match r {
                Ok(c) => parse_hmget(frame_values(value.0@)) == Ok::<CommandValue, CommandError>(
                    Command::HmGet(c)@,
                ),
                Err(x) => parse_hmget(frame_values(value.0@)) == Err::<CommandValue, CommandError>(
                    x,
                ),
            },
    {
        let ghost items = frame_values(value.0@);
        proof {
            lemma_frame_values(value.0@);
        }
        match validate_command(&value, "hmget", 2, ArgsCheckRule::EqualOrGreater) {
            Err(x) => {
                return Err(x);
            },
            Ok(_) => {},
        }
        let mut args = arguments(value);
        let first = take_first(&mut args);
        let key = match take_key(first) {
            Err(x) => {
                return Err(x);
            },
            Ok(k) => k,
        };
        let ghost all = items.subrange(2, items.len() as int);
        let ghost done: int = 0;
        let mut members: Vec<String> = Vec::new();
        proof {
            assert(all.subrange(0, 0) =~= Seq::<RespValue>::empty());
            assert(texts(members@) =~= Seq::<Seq<char>>::empty());
        }
        while args.len() > 0
            invariant
                0 <= done <= all.len(),
                args@.len() == all.len() - done,
                forall|i: int| 0 <= i < args@.len() ==> #[trigger] args@[i]@ == all[done + i],
                texts(members@) == member_texts(all.subrange(0, done)),
            decreases args@.len(),
        {
            let ghost before = args@;
            let a = take_first(&mut args);
            assert(a@ == all[done]);
            assert(forall|i: int| 0 <= i < args@.len() ==> #[trigger] args@[i] == before[i + 1]);
            let ghost old_members = members@;
            match take_key(a) {
                Ok(t) => {
                    members.push(t);
                    assert(texts(members@) =~= texts(old_members).push(t@));
                },
                Err(_) => {},
            }
            proof {
                let p = all.subrange(0, done + 1);
                assert(p.drop_last() =~= all.subrange(0, done));
                done = done + 1;
            }
        }
        proof {
            assert(all.subrange(0, done) =~= all);
            assert(texts(members@).len() == members@.len());
        }
        if members.len() == 0 {
            return Err(CommandError::InvalidArgument);
        }
        Ok(HmGet { key, members })
    }
}

impl HSet {
    pub fn try_from(value: RespArray) -> (r: Result<HSet, CommandError>)
        ensures
            match r {
                Ok(c) => parse_hset(frame_values(value.0@)) == Ok::<CommandValue, CommandError>(
                    Command::HSet(c)@,
                ),
                Err(x) => parse_hset(frame_values(value.0@)) == Err::<CommandValue, CommandError>(
                    x,
                ),
            },
    {
        proof {
            lemma_frame_values(value.0@);
        }
        match validate_command(&value, "hset", 3, ArgsCheckRule::Equal) {
            Err(x) => {
                return Err(x);
            },
            Ok(_) => {},
        }
        let mut args = arguments(value);
        let k = take_first(&mut args);
        let f = take_first(&mut args);
        let v = take_first(&mut args);
        match (k, f) {
            (RespFrame::BulkString(Some(kb)), RespFrame::BulkString(Some(fb))) => {
                let key = match utf8_text(kb.0) {
                    None => {
                        return Err(CommandError::Utf8Error);
                    },
                    Some(t) => t,
                };
                let field = match utf8_text(fb.0) {
                    None => {
                        return Err(CommandError::Utf8Error);
                    },
                    Some(t) => t,
                };
                Ok(HSet { key, field, value: v })
            },
            _ => Err(CommandError::InvalidArgument),
        }
    }

    /// The reply to a set: `1` where the field is new, `0` where it existed.
    pub fn reply(existed: bool) -> (r: RespFrame)
        ensures
            r == RespFrame::Integer(if existed {
                0
            } else {
                1
            }),
    {
        if existed {
            RespFrame::Integer(0)
        } else {
            RespFrame::Integer(1)
        }
    }
}

impl Info {
    pub fn new() -> Info {
        Info()
    }

    pub fn try_from(value: RespArray) -> (r: Result<Info, CommandError>)
        ensures
            match r {
                Ok(c) => parse_info(frame_values(value.0@)) == Ok::<CommandValue, CommandError>(
                    Command::Info(c)@,
                ),
                Err(x) => parse_info(frame_values(value.0@)) == Err::<CommandValue, CommandError>(
                    x,
                ),
            },
    {
        proof {
            lemma_frame_values(value.0@);
        }
        match validate_command(&value, "info", 0, ArgsCheckRule::Equal) {
            Err(x) => Err(x),
            Ok(_) => Ok(Info::new()),
        }
    }

    /// The reply: the simple string `Ok`.
    pub fn execute(self) -> (r: RespFrame)
        ensures
            r matches RespFrame::SimpleString(s) && s.0@ == "Ok"@,
    {
        RespFrame::SimpleString(SimpleString::new("Ok"))
    }
}

impl SAdd {
    pub fn try_from(value: RespArray) -> (r: Result<SAdd, CommandError>)
        ensures
            match r {
                Ok(c) => parse_sadd(frame_values(value.0@)) == Ok::<CommandValue, CommandError>(
                    Command::SAdd(c)@,
                ),
                Err(x) => parse_sadd(frame_values(value.0@)) == Err::<CommandValue, CommandError>(
                    x,
                ),
            },
    {
        let ghost items = frame_values(value.0@);
        proof {
            lemma_frame_values(value.0@);
        }
        match validate_command(&value, "sadd", 2, ArgsCheckRule::EqualOrGreater) {
            Err(x) => {
                return Err(x);
            },
            Ok(_) => {},
        }
        let mut args = arguments(value);
        let first = take_first(&mut args);
        let key = match take_key(first) {
            Err(x) => {
                return Err(x);
            },
            Ok(k) => k,
        };
        proof {
            lemma_frame_values(args@);
            assert(frame_values(args@) =~= items.subrange(2, items.len() as int));
        }
        Ok(SAdd { key, members: RespArray::new(args) })
    }

    /// The reply: how many members were given.
    pub fn execute(self) -> (r: RespFrame)
        requires
            self.members.0@.len() <= i64::MAX,
        ensures
            r == RespFrame::Integer(self.members.0@.len() as i64),
    {
        RespFrame::Integer(self.members.0.len() as i64)
    }
}

impl SisMember {
    pub fn try_from(value: RespArray) -> (r: Result<SisMember, CommandError>)
        ensures
            match r {
                Ok(c) => parse_sismember(frame_values(value.0@)) == Ok::<CommandValue, CommandError>(
                    Command::SisMember(c)@,
                ),
                Err(x) => parse_sismember(frame_values(value.0@)) == Err::<CommandValue, CommandError>(
                    x,
                ),
            },
    {
        proof {
            lemma_frame_values(value.0@);
        }
        match validate_command(&value, "sismember", 2, ArgsCheckRule::EqualOrGreater) {
            Err(x) => {
                return Err(x);
            },
            Ok(_) => {},
        }
        let mut args = arguments(value);
        let k = take_first(&mut args);
        let member = take_first(&mut args);
        match k {
            RespFrame::BulkString(Some(kb)) => match utf8_text(kb.0) {
                None => Err(CommandError::Utf8Error),
                Some(key) => Ok(SisMember { key, member }),
            },
            _ => Err(CommandError::InvalidArgument),
        }
    }

    /// The reply: `1` where the set holds the member, else `0`.
    pub fn reply(found: bool) -> (r: RespFrame)
        ensures
            r == RespFrame::Integer(if found {
                1
            } else {
                0
            }),
    {
        if found {
            RespFrame::Integer(1)
        } else {
            RespFrame::Integer(0)
        }
    }
}

/// Whether two byte strings are the same.
fn same_bytes(a: &[u8], b: &[u8]) -> (r: bool)
    ensures
        r == (a@ == b@),
{
    if a.len() != b.len() {
        return false;
    }
    let mut i: usize = 0;
    while i < a.len()
        invariant
            i <= a.len(),
            a.len() == b.len(),
            forall|j: int| 0 <= j < i ==> a@[j] == b@[j],
        decreases a.len() - i,
    {
        if a[i] != b[i] {
            return false;
        }
        i = i + 1;
    }
    assert(a@ =~= b@);
    true
}

/// Appends `bytes` to `out`.
fn append_bytes(out: &mut Vec<u8>, bytes: &[u8])
    ensures
        final(out)@ == old(out)@ + bytes@,
{
    crate::encode::push_bytes(out, bytes);
}

impl Command {
    /// The command that a request frame holds: an array headed by a bulk
    /// string that names it.
    pub fn try_from(frame: RespFrame) -> (r: Result<Command, CommandError>)
        ensures
            command_result(r) == parse_command(frame@),
    {
        let a = match frame {
            RespFrame::Array(Some(a)) => a,
            _ => {
                return Err(CommandError::InvalidCommand);
            },
        };
        proof {
            lemma_frame_values(a.0@);
        }
        if a.0.len() == 0 {
            return Err(CommandError::InvalidCommand);
        }
        let (is_echo, is_hmget, is_hset, is_info, is_sadd, is_sismember) = match &a.0[0] {
            RespFrame::BulkString(Some(b)) => {
                let n = b.0.as_slice();
                (
                    same_bytes(n, "echo".as_bytes()),
                    same_bytes(n, "hmget".as_bytes()),
                    same_bytes(n, "hset".as_bytes()),
                    same_bytes(n, "info".as_bytes()),
                    same_bytes(n, "sadd".as_bytes()),
                    same_bytes(n, "sismember".as_bytes()),
                )
            },
            _ => {
                return Err(CommandError::InvalidCommand);
            },
        };
        if is_echo {
            match Echo::try_from(a) {
                Ok(c) => Ok(Command::Echo(c)),
                Err(x) => Err(x),
            }
        } else if is_hmget {
            match HmGet::try_from(a) {
                Ok(c) => Ok(Command::HmGet(c)),
                Err(x) => Err(x),
            }
        } else if is_hset {
            match HSet::try_from(a) {
                Ok(c) => Ok(Command::HSet(c)),
                Err(x) => Err(x),
            }
        } else if is_info {
            match Info::try_from(a) {
                Ok(c) => Ok(Command::Info(c)),
                Err(x) => Err(x),
            }
        } else if is_sadd {
            match SAdd::try_from(a) {
                Ok(c) => Ok(Command::SAdd(c)),
                Err(x) => Err(x),
            }
        } else if is_sismember {
            match SisMember::try_from(a) {
                Ok(c) => Ok(Command::SisMember(c)),
                Err(x) => Err(x),
            }
        } else {
            let mut items = a.0;
            let head = take_first(&mut items);
            match head {
                RespFrame::BulkString(Some(b)) => Ok(Command::Unrecognized(Unrecognized::new(b))),
                _ => Err(CommandError::InvalidCommand),
            }
        }
    }
}

/// The text of the reply to an unknown command.
pub open spec fn unknown_reply(name: Seq<u8>) -> Seq<char> {
    text_of(
        "ERR unknown command '".spec_bytes() + (if valid_utf8(name) {
            name
        } else {
            "Invalid UTF-8 sequence".spec_bytes()
        }) + "', with args beginning with:".spec_bytes(),
    )
}

impl Unrecognized {
    pub fn new(cmd: BulkString) -> (r: Unrecognized)
        ensures
            r.0 == cmd,
    {
        Unrecognized(cmd)
    }

    /// The reply: an error that names the command.
    pub fn execute(self) -> (r: RespFrame)
        ensures
            r matches RespFrame::Error(e) && e.0@ == unknown_reply(self.0.0@),
    {
        let ghost name = self.0.0@;
        let mut out: Vec<u8> = Vec::new();
        append_bytes(&mut out, "ERR unknown command '".as_bytes());
        match utf8_text(self.0.0) {
            Some(t) => {
                proof {
                    vstd::utf8::decode_utf8_encode_utf8(name);
                }
                append_bytes(&mut out, t.as_str().as_bytes());
            },
            None => {
                append_bytes(&mut out, "Invalid UTF-8 sequence".as_bytes());
            },
        }
        append_bytes(&mut out, "', with args beginning with:".as_bytes());
        RespFrame::Error(SimpleError(text_from_bytes(out.as_slice())))
    }
}

/// The text of the reply to a read of a hash that does not exist.
pub open spec fn missing_key_reply(key: Seq<char>) -> Seq<char> {
    text_of("key ".spec_bytes() + encode_utf8(key) + " is not exist".spec_bytes())
}

/// The reply to a read of fields: one element per field asked for, the null
/// bulk string where the field is not set.
pub open spec fn field_values(values: Seq<Option<RespFrame>>) -> Seq<RespValue> {
    Seq::new(
        values.len(),
        |i: int|
            match values[i] {
                Some(f) => f@,
                None => RespValue::Bulk(None),
            },
    )
}

impl HmGet {
    /// The reply to a read of fields, given the values found for them in the
    /// hash, or `None` where the hash does not exist.
    pub fn reply(key: &str, found: Option<Vec<Option<RespFrame>>>) -> (r: RespFrame)
        ensures
            match found {
                None => r matches RespFrame::Error(e) && e.0@ == missing_key_reply(key@),
                Some(vs) => r@ == RespValue::Array(Some(field_values(vs@))),
            },
    {
        match found {
            None => {
                let mut out: Vec<u8> = Vec::new();
                append_bytes(&mut out, "key ".as_bytes());
                append_bytes(&mut out, key.as_bytes());
                append_bytes(&mut out, " is not exist".as_bytes());
                RespFrame::Error(SimpleError(text_from_bytes(out.as_slice())))
            },
            Some(vs) => {
                let ghost all = vs@;
                let mut vs = vs;
                let mut result: Vec<RespFrame> = Vec::new();
                let ghost done: int = 0;
                while vs.len() > 0
                    invariant
                        0 <= done <= all.len(),
                        vs@.len() == all.len() - done,
                        forall|i: int| 0 <= i < vs@.len() ==> #[trigger] vs@[i] == all[done + i],
                        result@.len() == done,
                        forall|i: int|
                            0 <= i < done ==> #[trigger] result@[i]@ == field_values(all)[i],
                    decreases vs@.len(),
                {
                    let ghost before = vs@;
                    let v = vs.remove(0);
                    assert(forall|i: int| 0 <= i < vs@.len() ==> #[trigger] vs@[i] == before[i + 1]);
                    let f = match v {
                        Some(f) => f,
                        None => RespFrame::BulkString(None),
                    };
                    result.push(f);
                    proof {
                        done = done + 1;
                    }
                }
                proof {
                    lemma_frame_values(result@);
                    assert(done == all.len());
                    assert forall|i: int| 0 <= i < all.len() implies frame_values(result@)[i]
                        == field_values(all)[i] by {
                        assert(result@[i]@ == field_values(all)[i]);
                    }
                    assert(frame_values(result@) =~= field_values(all));
                }
                RespFrame::Array(Some(RespArray(result)))
            },
        }
    }
}

} // verus!
