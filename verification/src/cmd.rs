//! The command layer: turns a decoded frame into a typed command and
//! validates its shape. A command frame is an array of bulk strings whose
//! first element, matched case-insensitively, selects the command; any
//! other shape is a protocol-level command error, never a codec error.
use vstd::prelude::*;

verus! {

use vstd::string::StrSliceExecFns;
use vstd::string::StringExecFns;
use vstd::utf8::decode_utf8;
use vstd::utf8::valid_utf8;

use crate::backend::Backend;
use crate::error::RespError;
use crate::frame::BulkString;
use crate::frame::FrameV;
use crate::frame::RespArray;
use crate::frame::RespFrame;
use crate::frame::SimpleString;
use crate::frame::frame_view;
use crate::frame::frames_view;
use crate::frame::lemma_frames_view_index;
use crate::textfmt::string_from_bytes;
use crate::wire::ascii_lower;

/// What can go wrong while turning a frame into a command.
#[derive(Debug, PartialEq)]
pub enum CommandError {
    /// The frame does not have the shape of a command.
    InvalidCommand(String),
    /// The command's arguments are wrong in number or kind.
    InvalidArgument(String),
    /// A codec error, carried through.
    RespError(RespError),
    /// An argument that must be text held invalid bytes.
    FromUtf8Error(String),
}

impl CommandError {
    /// A human-readable description of the error.
    pub fn message(&self) -> String {
        match self {
            CommandError::InvalidCommand(m) => String::from_str("Invalid command: ").concat(
                m.as_str(),
            ),
            CommandError::InvalidArgument(m) => String::from_str("Invalid argument: ").concat(
                m.as_str(),
            ),
            CommandError::RespError(e) => e.message(),
            CommandError::FromUtf8Error(m) => String::from_str("Invalid utf8 value: ").concat(
                m.as_str(),
            ),
        }
    }
}

/// Echoes its single argument back as a bulk string.
#[derive(Debug, PartialEq)]
pub struct Echo {
    pub message: String,
}

/// Reads one key from the scalar store.
#[derive(Debug, PartialEq)]
pub struct Get {
    pub key: String,
}

/// Writes one key into the scalar store.
#[derive(Debug, PartialEq)]
pub struct SetCmd {
    pub key: String,
    pub value: RespFrame,
}

/// Reads one field of a keyed hash.
#[derive(Debug, PartialEq)]
pub struct HGet {
    pub key: String,
    pub field: String,
}

/// Reads several fields of a keyed hash.
#[derive(Debug, PartialEq)]
pub struct Hmget {
    pub key: String,
    pub fields: Vec<String>,
}

/// Writes field/value pairs into a keyed hash.
#[derive(Debug, PartialEq)]
pub struct HSet {
    pub key: String,
    pub fields: Vec<String>,
    pub values: Vec<RespFrame>,
}

/// Reads a whole keyed hash.
#[derive(Debug, PartialEq)]
pub struct HGetAll {
    pub key: String,
}

/// Adds members to a keyed set.
#[derive(Debug, PartialEq)]
pub struct Sadd {
    pub key: String,
    pub fields: Vec<String>,
}

/// Asks whether a member is in a keyed set.
#[derive(Debug, PartialEq)]
pub struct Sismember {
    pub key: String,
    pub field: String,
}

/// A structurally valid command frame naming no known command.
#[derive(Debug, PartialEq)]
pub struct Unrecognized;

/// One typed command.
#[derive(Debug, PartialEq)]
pub enum Command {
    Get(Get),
    SetCmd(SetCmd),
    HGet(HGet),
    Hmget(Hmget),
    HSet(HSet),
    HGetAll(HGetAll),
    Sadd(Sadd),
    Sismember(Sismember),
    Echo(Echo),
    Unrecognized(Unrecognized),
}

/// Executes a command against the shared store, yielding the reply frame.
/// What a reply can be promised to be is stated per command: some replies
/// are fixed (an echo, an acknowledgement), others depend on what the
/// shared store holds and only their shape is fixed.
pub trait CommandExecutor {
    /// What the reply is guaranteed to be, whatever the store holds.
    spec fn reply_ok(&self, reply: RespFrame) -> bool;

    /// Runs the command.
    fn execute(self, backend: &Backend) -> (r: RespFrame)
        ensures
            self.reply_ok(r),
    ;
}

/// The acknowledgement reply: the simple string `OK`.
pub open spec fn ok_reply(reply: RespFrame) -> bool {
    frame_view(reply) == FrameV::SimpleString(vstd::utf8::encode_utf8("OK"@))
}

/// Is this frame a non-null bulk string?
pub open spec fn is_bulk_arg(f: RespFrame) -> bool {
    frame_view(f) matches FrameV::BulkString(Some(_))
}

/// The payload bytes of a non-null bulk string frame.
pub open spec fn bulk_bytes(f: RespFrame) -> Seq<u8> {
    frame_view(f)->BulkString_0->0
}

/// A command frame's shape: a non-null, nonempty array of non-null bulk
/// strings.
pub open spec fn command_shape(value: RespArray) -> bool {
    &&& value.0 is Some
    &&& value.0->0@.len() >= 1
    &&& forall|i: int| 0 <= i < value.0->0@.len() ==> is_bulk_arg(#[trigger] value.0->0@[i])
}

/// A text argument: a non-null bulk string holding valid UTF-8.
pub open spec fn arg_ok(f: RespFrame) -> bool {
    is_bulk_arg(f) && valid_utf8(bulk_bytes(f))
}

/// This string is the decoded text of that argument frame.
pub open spec fn is_str_of(s: String, f: RespFrame) -> bool {
    arg_ok(f) && s@ == decode_utf8(bulk_bytes(f))
}

/// These strings are, pairwise in order, the decoded texts of those
/// argument frames.
pub open spec fn strings_of(ss: Seq<String>, fs: Seq<RespFrame>) -> bool {
    ss.len() == fs.len() && forall|i: int| 0 <= i < fs.len() ==> is_str_of(ss[i], #[trigger] fs[i])
}

/// The argument frames of a command array: everything after the name.
pub open spec fn rest_of(value: RespArray) -> Seq<RespFrame> {
    value.0->0@.drop_first()
}

pub open spec fn name_get() -> Seq<u8> {
    seq![0x67u8, 0x65u8, 0x74u8]
}

pub open spec fn name_set() -> Seq<u8> {
    seq![0x73u8, 0x65u8, 0x74u8]
}

pub open spec fn name_hget() -> Seq<u8> {
    seq![0x68u8, 0x67u8, 0x65u8, 0x74u8]
}

pub open spec fn name_hmget() -> Seq<u8> {
    seq![0x68u8, 0x6du8, 0x67u8, 0x65u8, 0x74u8]
}

pub open spec fn name_hset() -> Seq<u8> {
    seq![0x68u8, 0x73u8, 0x65u8, 0x74u8]
}

pub open spec fn name_hgetall() -> Seq<u8> {
    seq![0x68u8, 0x67u8, 0x65u8, 0x74u8, 0x61u8, 0x6cu8, 0x6cu8]
}

pub open spec fn name_sadd() -> Seq<u8> {
    seq![0x73u8, 0x61u8, 0x64u8, 0x64u8]
}

pub open spec fn name_sismember() -> Seq<u8> {
    seq![0x73u8, 0x69u8, 0x73u8, 0x6du8, 0x65u8, 0x6du8, 0x62u8, 0x65u8, 0x72u8]
}

pub open spec fn name_echo() -> Seq<u8> {
    seq![0x65u8, 0x63u8, 0x68u8, 0x6fu8]
}

/// Is the (lowercased) name one that selects a command?
pub open spec fn known_name(n: Seq<u8>) -> bool {
    ||| n == name_get()
    ||| n == name_set()
    ||| n == name_hget()
    ||| n == name_hmget()
    ||| n == name_hset()
    ||| n == name_hgetall()
    ||| n == name_sadd()
    ||| n == name_sismember()
    ||| n == name_echo()
}

/// One text argument.
pub open spec fn one_string_args(rest: Seq<RespFrame>) -> bool {
    rest.len() == 1 && arg_ok(rest[0])
}

/// Two text arguments.
pub open spec fn two_string_args(rest: Seq<RespFrame>) -> bool {
    rest.len() == 2 && arg_ok(rest[0]) && arg_ok(rest[1])
}

/// A text key and at least one further text argument.
pub open spec fn key_and_strings_args(rest: Seq<RespFrame>) -> bool {
    rest.len() >= 2 && forall|i: int| 0 <= i < rest.len() ==> arg_ok(#[trigger] rest[i])
}

/// A text key, then field/value pairs: fields (the odd positions) are
/// text, values are any frames.
pub open spec fn key_and_pairs_args(rest: Seq<RespFrame>) -> bool {
    &&& rest.len() >= 3
    &&& (rest.len() - 1) % 2 == 0
    &&& arg_ok(rest[0])
    &&& forall|i: int| 0 <= i < (rest.len() - 1) / 2 ==> arg_ok(#[trigger] rest[2 * i + 1])
}

/// Do the arguments fit the command the name selects? A name that selects
/// no command takes anything.
pub open spec fn command_args_ok(value: RespArray) -> bool {
    let n = command_name(value);
    let rest = rest_of(value);
    if n == name_get() || n == name_hgetall() || n == name_echo() {
        one_string_args(rest)
    } else if n == name_set() {
        rest.len() == 2 && arg_ok(rest[0])
    } else if n == name_hget() || n == name_sismember() {
        two_string_args(rest)
    } else if n == name_hmget() || n == name_sadd() {
        key_and_strings_args(rest)
    } else if n == name_hset() {
        key_and_pairs_args(rest)
    } else {
        true
    }
}

/// The parsed command is the one its name selects, with its payload drawn
/// from the argument frames.
pub open spec fn command_selected(value: RespArray, c: Command) -> bool {
    let n = command_name(value);
    let rest = rest_of(value);
    match c {
        Command::Get(g) => n == name_get() && is_str_of(g.key, rest[0]),
        Command::SetCmd(sc) => n == name_set() && is_str_of(sc.key, rest[0]) && sc.value
            == rest[1],
        Command::HGet(h) => n == name_hget() && is_str_of(h.key, rest[0]) && is_str_of(
            h.field,
            rest[1],
        ),
        Command::Hmget(h) => n == name_hmget() && is_str_of(h.key, rest[0]) && strings_of(
            h.fields@,
            rest.skip(1),
        ),
        Command::HSet(h) => n == name_hset() && is_str_of(h.key, rest[0]) && hset_payload(
            h.fields@,
            h.values@,
            rest,
        ),
        Command::HGetAll(h) => n == name_hgetall() && is_str_of(h.key, rest[0]),
        Command::Sadd(sa) => n == name_sadd() && is_str_of(sa.key, rest[0]) && strings_of(
            sa.fields@,
            rest.skip(1),
        ),
        Command::Sismember(si) => n == name_sismember() && is_str_of(si.key, rest[0])
            && is_str_of(si.field, rest[1]),
        Command::Echo(e) => n == name_echo() && is_str_of(e.message, rest[0]),
        Command::Unrecognized(_) => !known_name(n),
    }
}

/// The field/value payload of a hash write: fields are the decoded texts
/// of the odd positions, values the frames at the even positions past the
/// key, pairwise in order.
pub open spec fn hset_payload(
    fields: Seq<String>,
    values: Seq<RespFrame>,
    rest: Seq<RespFrame>,
) -> bool {
    &&& fields.len() == (rest.len() - 1) / 2
    &&& values.len() == (rest.len() - 1) / 2
    &&& forall|i: int|
        0 <= i < fields.len() ==> is_str_of(#[trigger] fields[i], rest[2 * i + 1])
    &&& forall|i: int| 0 <= i < values.len() ==> #[trigger] values[i] == rest[2 * i + 2]
}

/// Checks the command shape: a null array, an empty array, or any element
/// that is not a non-null bulk string is rejected.
pub fn validate_command(resp_array: &RespArray) -> (r: Result<(), CommandError>)
    ensures
        r is Ok <==> command_shape(*resp_array),
        r matches Err(e) ==> e is InvalidCommand,
{
    let frames = match &resp_array.0 {
        Some(frames) => frames,
        None => {
            return Err(
                CommandError::InvalidCommand(String::from_str("This array is null array!")),
            );
        },
    };
    if frames.len() == 0 {
        return Err(
            CommandError::InvalidCommand(
                String::from_str("Command must have at least one argument!"),
            ),
        );
    }
    let mut i: usize = 0;
    while i < frames.len()
        invariant
            i <= frames@.len(),
            frames@.len() >= 1,
            resp_array.0 is Some,
            resp_array.0->0@ == frames@,
            forall|x: int| 0 <= x < i ==> is_bulk_arg(#[trigger] frames@[x]),
        decreases frames@.len() - i,
    {
        match &frames[i] {
            RespFrame::BulkString(BulkString(Some(_))) => {},
            _ => {
                proof {
                    assert(!is_bulk_arg(frames@[i as int]));
                    assert(resp_array.0->0@ == frames@);
                    assert(!is_bulk_arg(resp_array.0->0@[i as int]));
                    assert(!command_shape(*resp_array));
                }
                return Err(
                    CommandError::InvalidCommand(
                        String::from_str("Command must have a BulkString as the first argument"),
                    ),
                );
            },
        }
        i = i + 1;
    }
    Ok(())
}

/// ASCII lowercasing, bytewise.
pub open spec fn lower_bytes(s: Seq<u8>) -> Seq<u8> {
    Seq::new(s.len(), |i: int| ascii_lower(s[i]))
}

/// Lowercases a byte string.
fn to_lower(v: &Vec<u8>) -> (r: Vec<u8>)
    ensures
        r@ == lower_bytes(v@),
{
    let mut out: Vec<u8> = Vec::new();
    let mut i: usize = 0;
    while i < v.len()
        invariant
            i <= v@.len(),
            out@.len() == i,
            forall|x: int| 0 <= x < i ==> out@[x] == ascii_lower(#[trigger] v@[x]),
        decreases v@.len() - i,
    {
        let c = v[i];
        if c >= 0x41 && c <= 0x5a {
            out.push(c + 0x20);
        } else {
            out.push(c);
        }
        i = i + 1;
    }
    proof {
        assert(out@ =~= lower_bytes(v@));
    }
    out
}

/// Splits a shape-checked command frame into the lowercased command name
/// and the argument frames.
pub fn extract_cmd_and_argument(array: RespArray) -> (r: (Vec<u8>, Vec<RespFrame>))
    requires
        command_shape(array),
    ensures
        r.0@ == lower_bytes(bulk_bytes(array.0->0@[0])),
        r.1@ == array.0->0@.drop_first(),
        frames_view(r.1@) == frames_view(array.0->0@).drop_first(),
{
    let mut frames = match array.0 {
        Some(frames) => frames,
        None => {
            proof {
                assert(false);
            }
            Vec::new()
        },
    };
    let ghost orig = frames@;
    let first = frames.remove(0);
    proof {
        assert(frames@ =~= orig.drop_first());
        lemma_frames_view_index(orig);
        lemma_frames_view_index(orig.drop_first());
        assert forall|x: int| 0 <= x < frames_view(orig).drop_first().len() implies #[trigger] frames_view(
            orig.drop_first(),
        )[x] == frames_view(orig).drop_first()[x] by {
            assert(orig.drop_first()[x] == orig[x + 1]);
        }
        assert(frames_view(orig.drop_first()) =~= frames_view(orig).drop_first());
    }
    let cmd = match first {
        RespFrame::BulkString(BulkString(Some(cmd))) => cmd,
        _ => {
            proof {
                assert(is_bulk_arg(orig[0]));
                assert(false);
            }
            Vec::new()
        },
    };
    (to_lower(&cmd), frames)
}

/// Takes the next argument as text: it must be a non-null bulk string of
/// valid UTF-8.
pub fn extract_string(frame: Option<RespFrame>) -> (r: Result<String, CommandError>)
    ensures
        r is Ok <==> (frame matches Some(f) && is_bulk_arg(f) && valid_utf8(bulk_bytes(f))),
        r matches Ok(s) ==> s@ == decode_utf8(bulk_bytes(frame->0)),
{
    match frame {
        Some(RespFrame::BulkString(BulkString(Some(key)))) => match string_from_bytes(key) {
            Some(s) => Ok(s),
            None => Err(CommandError::InvalidCommand(String::from_str("None"))),
        },
        _ => Err(CommandError::InvalidCommand(String::from_str("None"))),
    }
}

/// Takes the next argument as a frame.
pub fn extract_frame(frame: Option<RespFrame>) -> (r: Result<RespFrame, CommandError>)
    ensures
        match frame {
            Some(f) => r == Ok::<RespFrame, CommandError>(f),
            None => r is Err,
        },
{
    match frame {
        Some(f) => Ok(f),
        None => Err(CommandError::InvalidCommand(String::from_str("None"))),
    }
}

/// Checks an argument count: at least `min_num` and exactly `expect_num`.
pub fn validate_nums_of_argument(
    frames: &Vec<RespFrame>,
    validate_type: &str,
    expect_num: usize,
    min_num: usize,
) -> (r: Result<(), CommandError>)
    ensures
        r is Ok <==> (frames@.len() >= min_num && frames@.len() == expect_num),
        r matches Err(e) ==> e is InvalidArgument,
{
    if frames.len() < min_num {
        return Err(
            CommandError::InvalidArgument(
                String::from_str("wrong number of arguments for '").concat(validate_type).concat(
                    "' command",
                ),
            ),
        );
    }
    if frames.len() != expect_num {
        return Err(
            CommandError::InvalidArgument(
                String::from_str("wrong number of arguments for '").concat(validate_type).concat(
                    "' command",
                ),
            ),
        );
    }
    Ok(())
}

impl Echo {
    /// An echo of this text.
    pub fn new(message: String) -> (r: Self)
        ensures
            r.message == message,
    {
        Echo { message }
    }

    /// Parses `echo <message>`.
    pub fn try_from(value: Vec<RespFrame>) -> (r: Result<Self, CommandError>)
        ensures
            r is Ok <==> (value@.len() == 1 && is_bulk_arg(value@[0]) && valid_utf8(
                bulk_bytes(value@[0]),
            )),
            r matches Ok(c) ==> c.message@ == decode_utf8(bulk_bytes(value@[0])),
    {
        match validate_nums_of_argument(&value, "echo", 1, 1) {
            Err(e) => Err(e),
            Ok(()) => {
                let mut value = value;
                let first = value.remove(0);
                match extract_string(Some(first)) {
                    Ok(s) => Ok(Echo::new(s)),
                    Err(e) => Err(e),
                }
            },
        }
    }
}

impl CommandExecutor for Echo {
    /// The reply is exactly the message, as a bulk string.
    open spec fn reply_ok(&self, reply: RespFrame) -> bool {
        frame_view(reply) == FrameV::BulkString(Some(vstd::utf8::encode_utf8(self.message@)))
    }

    fn execute(self, _backend: &Backend) -> (r: RespFrame) {
        RespFrame::BulkString(BulkString(Some(self.message.as_str().as_bytes_vec())))
    }
}

impl Get {
    /// A read of this key.
    pub fn new(key: String) -> (r: Self)
        ensures
            r.key == key,
    {
        Get { key }
    }

    /// Parses `get <key>`.
    pub fn try_from(value: Vec<RespFrame>) -> (r: Result<Self, CommandError>)
        ensures
            r is Ok <==> (value@.len() == 1 && is_bulk_arg(value@[0]) && valid_utf8(
                bulk_bytes(value@[0]),
            )),
            r matches Ok(c) ==> c.key@ == decode_utf8(bulk_bytes(value@[0])),
    {
        match validate_nums_of_argument(&value, "get", 1, 1) {
            Err(e) => Err(e),
            Ok(()) => {
                let mut value = value;
                let first = value.remove(0);
                match extract_string(Some(first)) {
                    Ok(s) => Ok(Get::new(s)),
                    Err(e) => Err(e),
                }
            },
        }
    }
}

impl CommandExecutor for Get {
    /// The reply is whatever the store holds for the key (or the null
    /// bulk string): store-decided, so nothing narrower can be promised.
    open spec fn reply_ok(&self, reply: RespFrame) -> bool {
        true
    }

    fn execute(self, backend: &Backend) -> (r: RespFrame) {
        match backend.get(self.key.as_str()) {
            Some(val) => val,
            None => RespFrame::BulkString(BulkString(None)),
        }
    }
}

impl SetCmd {
    /// A write of this key.
    pub fn new(key: String, value: RespFrame) -> (r: Self)
        ensures
            r.key == key && r.value == value,
    {
        SetCmd { key, value }
    }

    /// Parses `set <key> <value>`.
    pub fn try_from(value: Vec<RespFrame>) -> (r: Result<Self, CommandError>)
        ensures
            r is Ok <==> (value@.len() == 2 && is_bulk_arg(value@[0]) && valid_utf8(
                bulk_bytes(value@[0]),
            )),
            r matches Ok(c) ==> c.key@ == decode_utf8(bulk_bytes(value@[0])) && c.value
                == value@[1],
    {
        match validate_nums_of_argument(&value, "set", 2, 2) {
            Err(e) => Err(e),
            Ok(()) => {
                let mut value = value;
                let first = value.remove(0);
                let second = value.remove(0);
                let key = match extract_string(Some(first)) {
                    Ok(s) => s,
                    Err(e) => {
                        return Err(e);
                    },
                };
                match extract_frame(Some(second)) {
                    Ok(f) => Ok(SetCmd::new(key, f)),
                    Err(e) => Err(e),
                }
            },
        }
    }
}

impl CommandExecutor for SetCmd {
    /// The reply acknowledges the write.
    open spec fn reply_ok(&self, reply: RespFrame) -> bool {
        ok_reply(reply)
    }

    fn execute(self, backend: &Backend) -> (r: RespFrame) {
        let _ = backend.set(self.key, self.value);
        RespFrame::SimpleString(SimpleString::new("OK"))
    }
}

impl HGet {
    /// A read of one field of this key's hash.
    pub fn new(key: String, field: String) -> (r: Self)
        ensures
            r.key == key && r.field == field,
    {
        HGet { key, field }
    }

    /// Parses `hget <key> <field>`.
    pub fn try_from(value: Vec<RespFrame>) -> (r: Result<Self, CommandError>)
        ensures
            r is Ok <==> (value@.len() == 2 && is_bulk_arg(value@[0]) && valid_utf8(
                bulk_bytes(value@[0]),
            ) && is_bulk_arg(value@[1]) && valid_utf8(bulk_bytes(value@[1]))),
            r matches Ok(c) ==> c.key@ == decode_utf8(bulk_bytes(value@[0])) && c.field@
                == decode_utf8(bulk_bytes(value@[1])),
    {
        match validate_nums_of_argument(&value, "hget", 2, 2) {
            Err(e) => Err(e),
            Ok(()) => {
                let mut value = value;
                let first = value.remove(0);
                let second = value.remove(0);
                let key = match extract_string(Some(first)) {
                    Ok(s) => s,
                    Err(e) => {
                        return Err(e);
                    },
                };
                match extract_string(Some(second)) {
                    Ok(f) => Ok(HGet::new(key, f)),
                    Err(e) => Err(e),
                }
            },
        }
    }
}

impl CommandExecutor for HGet {
    /// The reply is whatever the store holds for the field (or the null
    /// bulk string): store-decided.
    open spec fn reply_ok(&self, reply: RespFrame) -> bool {
        true
    }

    fn execute(self, backend: &Backend) -> (r: RespFrame) {
        match backend.hget(self.key.as_str(), self.field.as_str()) {
            Some(val) => val,
            None => RespFrame::BulkString(BulkString(None)),
        }
    }
}

impl HGetAll {
    /// A read of this key's whole hash.
    pub fn new(key: String) -> (r: Self)
        ensures
            r.key == key,
    {
        HGetAll { key }
    }

    /// Parses `hgetall <key>`.
    pub fn try_from(value: Vec<RespFrame>) -> (r: Result<Self, CommandError>)
        ensures
            r is Ok <==> (value@.len() == 1 && is_bulk_arg(value@[0]) && valid_utf8(
                bulk_bytes(value@[0]),
            )),
            r matches Ok(c) ==> c.key@ == decode_utf8(bulk_bytes(value@[0])),
    {
        match validate_nums_of_argument(&value, "hgetall", 1, 1) {
            Err(e) => Err(e),
            Ok(()) => {
                let mut value = value;
                let first = value.remove(0);
                match extract_string(Some(first)) {
                    Ok(s) => Ok(HGetAll::new(s)),
                    Err(e) => Err(e),
                }
            },
        }
    }
}

impl CommandExecutor for HGetAll {
    /// The reply is an array of field/value pairs, fields in byte order;
    /// which pairs it holds is store-decided.
    open spec fn reply_ok(&self, reply: RespFrame) -> bool {
        match frame_view(reply) {
            FrameV::Array(Some(els)) => crate::backend::hgetall_shape(els),
            _ => false,
        }
    }

    fn execute(self, backend: &Backend) -> (r: RespFrame) {
        match backend.hgetall(self.key.as_str()) {
            Some(val) => val,
            None => {
                let empty: Vec<RespFrame> = Vec::new();
                proof {
                    assert(frames_view(empty@) =~= Seq::<FrameV>::empty());
                }
                RespFrame::Array(RespArray(Some(empty)))
            },
        }
    }
}

impl Hmget {
    /// A read of several fields of this key's hash.
    pub fn new(key: String, fields: Vec<String>) -> (r: Self)
        ensures
            r.key == key && r.fields == fields,
    {
        Hmget { key, fields }
    }

    /// Parses `hmget <key> <field> [<field> ...]`.
    pub fn try_from(value: Vec<RespFrame>) -> (r: Result<Self, CommandError>)
        ensures
            r is Ok <==> key_and_strings_args(value@),
            r matches Ok(c) ==> is_str_of(c.key, value@[0]) && strings_of(
                c.fields@,
                value@.skip(1),
            ),
    {
        if value.len() < 2 {
            return Err(
                CommandError::InvalidArgument(
                    String::from_str("wrong number of arguments for 'hmget' command"),
                ),
            );
        }
        let key = match extract_string(Some(crate::frame::clone_frame(&value[0]))) {
            Ok(s) => s,
            Err(e) => {
                return Err(e);
            },
        };
        let mut fields: Vec<String> = Vec::new();
        let mut i: usize = 1;
        while i < value.len()
            invariant
                1 <= i <= value@.len(),
                value@.len() >= 2,
                fields@.len() == i - 1,
                forall|x: int| 1 <= x < i ==> arg_ok(#[trigger] value@[x]),
                forall|x: int| 0 <= x < fields@.len() ==> is_str_of(
                    #[trigger] fields@[x],
                    value@[x + 1],
                ),
            decreases value@.len() - i,
        {
            let f = match extract_string(Some(crate::frame::clone_frame(&value[i]))) {
                Ok(s) => s,
                Err(e) => {
                    return Err(e);
                },
            };
            fields.push(f);
            i = i + 1;
        }
        proof {
            assert forall|x: int| 0 <= x < value@.skip(1).len() implies is_str_of(
                fields@[x],
                #[trigger] value@.skip(1)[x],
            ) by {
                assert(value@.skip(1)[x] == value@[x + 1]);
            }
        }
        Ok(Hmget::new(key, fields))
    }
}

impl CommandExecutor for Hmget {
    /// The reply is an array with one element per field asked for; the
    /// elements themselves are store-decided.
    open spec fn reply_ok(&self, reply: RespFrame) -> bool {
        match frame_view(reply) {
            FrameV::Array(Some(els)) => els.len() == self.fields@.len(),
            _ => false,
        }
    }

    fn execute(self, backend: &Backend) -> (r: RespFrame) {
        let ghost want = self.fields@.len();
        match backend.hmget(self.key.as_str(), self.fields.as_slice()) {
            Some(values) => {
                let mut values = values;
                let mut array: Vec<RespFrame> = Vec::new();
                let mut i: usize = 0;
                let n = values.len();
                while i < n
                    invariant
                        i <= n,
                        values@.len() + i == n,
                        array@.len() == i,
                        frames_view(array@).len() == i,
                    decreases n - i,
                {
                    let v = if values.len() > 0 {
                        match values.remove(0) {
                            Some(f) => f,
                            None => RespFrame::BulkString(BulkString(None)),
                        }
                    } else {
                        RespFrame::BulkString(BulkString(None))
                    };
                    proof {
                        crate::frame::lemma_frames_view_push(array@, v);
                    }
                    array.push(v);
                    i = i + 1;
                }
                RespFrame::Array(RespArray(Some(array)))
            },
            None => {
                let mut array: Vec<RespFrame> = Vec::new();
                let mut i: usize = 0;
                while i < self.fields.len()
                    invariant
                        i <= self.fields@.len(),
                        array@.len() == i,
                        frames_view(array@).len() == i,
                    decreases self.fields@.len() - i,
                {
                    let v = RespFrame::BulkString(BulkString(None));
                    proof {
                        crate::frame::lemma_frames_view_push(array@, v);
                    }
                    array.push(v);
                    i = i + 1;
                }
                RespFrame::Array(RespArray(Some(array)))
            },
        }
    }
}

impl HSet {
    /// A write of field/value pairs into this key's hash.
    pub fn new(key: String, fields: Vec<String>, values: Vec<RespFrame>) -> (r: Self)
        ensures
            r.key == key && r.fields == fields && r.values == values,
    {
        HSet { key, fields, values }
    }

    /// Parses `hset <key> <field> <value> [<field> <value> ...]`.
    #[verifier::loop_isolation(false)]
    pub fn try_from(value: Vec<RespFrame>) -> (r: Result<Self, CommandError>)
        ensures
            r is Ok <==> key_and_pairs_args(value@),
            r matches Ok(c) ==> is_str_of(c.key, value@[0]) && hset_payload(
                c.fields@,
                c.values@,
                value@,
            ),
    {
        if value.len() < 3 {
            return Err(
                CommandError::InvalidArgument(
                    String::from_str("wrong number of arguments for 'hset' command"),
                ),
            );
        }
        if (value.len() - 1) % 2 == 1 {
            return Err(
                CommandError::InvalidArgument(
                    String::from_str("wrong number of arguments for 'hset' command"),
                ),
            );
        }
        let ghost orig = value@;
        let mut value = value;
        let first = value.remove(0);
        let key = match extract_string(Some(first)) {
            Ok(s) => s,
            Err(e) => {
                proof {
                    assert(!arg_ok(orig[0]));
                }
                return Err(e);
            },
        };
        let mut fields: Vec<String> = Vec::new();
        let mut values: Vec<RespFrame> = Vec::new();
        while value.len() >= 2
            invariant
                orig.len() >= 3,
                (orig.len() - 1) % 2 == 0,
                fields@.len() == values@.len(),
                2 * fields@.len() + 1 <= orig.len(),
                value@ == orig.skip(1 + 2 * fields@.len() as int),
                forall|x: int| 0 <= x < fields@.len() ==> arg_ok(#[trigger] orig[2 * x + 1]),
                forall|x: int| 0 <= x < fields@.len() ==> is_str_of(
                    #[trigger] fields@[x],
                    orig[2 * x + 1],
                ),
                forall|x: int| 0 <= x < values@.len() ==> #[trigger] values@[x] == orig[2 * x
                    + 2],
            decreases value@.len(),
        {
            let ghost k = fields@.len() as int;
            proof {
                assert(value@[0] == orig[1 + 2 * k]);
                assert(value@[1] == orig[2 + 2 * k]);
            }
            let f = value.remove(0);
            let v = value.remove(0);
            let field = match extract_string(Some(f)) {
                Ok(s) => s,
                Err(e) => {
                    proof {
                        assert(2 * k + 2 <= orig.len() - 1);
                        assert(k < (orig.len() - 1) / 2);
                        assert(!arg_ok(orig[2 * k + 1]));
                        assert(!key_and_pairs_args(orig));
                    }
                    return Err(e);
                },
            };
            fields.push(field);
            values.push(v);
            proof {
                assert(value@ =~= orig.skip(1 + 2 * (k + 1)));
            }
        }
        proof {
            assert(value@.len() == orig.len() - 1 - 2 * fields@.len());
            assert(value@.len() < 2);
            assert((orig.len() - 1 - 2 * fields@.len()) % 2 == 0);
            assert(value@.len() == 0);
            assert(fields@.len() == (orig.len() - 1) / 2);
        }
        Ok(HSet::new(key, fields, values))
    }
}

impl CommandExecutor for HSet {
    /// The reply counts newly written fields: an integer no greater than
    /// the number of fields asked for.
    open spec fn reply_ok(&self, reply: RespFrame) -> bool {
        match reply {
            RespFrame::Integer(c) => 0 <= c <= self.fields@.len(),
            _ => false,
        }
    }

    fn execute(self, backend: &Backend) -> (r: RespFrame) {
        backend.hmset(self.key, self.fields, self.values)
    }
}

impl Sadd {
    /// An insertion of members into this key's set.
    pub fn new(key: String, fields: Vec<String>) -> (r: Self)
        ensures
            r.key == key && r.fields == fields,
    {
        Sadd { key, fields }
    }

    /// Parses `sadd <key> <member> [<member> ...]`.
    pub fn try_from(value: Vec<RespFrame>) -> (r: Result<Self, CommandError>)
        ensures
            r is Ok <==> key_and_strings_args(value@),
            r matches Ok(c) ==> is_str_of(c.key, value@[0]) && strings_of(
                c.fields@,
                value@.skip(1),
            ),
    {
        if value.len() < 2 {
            return Err(
                CommandError::InvalidArgument(
                    String::from_str("wrong number of arguments for 'sadd' command"),
                ),
            );
        }
        let key = match extract_string(Some(crate::frame::clone_frame(&value[0]))) {
            Ok(s) => s,
            Err(e) => {
                return Err(e);
            },
        };
        let mut fields: Vec<String> = Vec::new();
        let mut i: usize = 1;
        while i < value.len()
            invariant
                1 <= i <= value@.len(),
                value@.len() >= 2,
                fields@.len() == i - 1,
                forall|x: int| 1 <= x < i ==> arg_ok(#[trigger] value@[x]),
                forall|x: int| 0 <= x < fields@.len() ==> is_str_of(
                    #[trigger] fields@[x],
                    value@[x + 1],
                ),
            decreases value@.len() - i,
        {
            let f = match extract_string(Some(crate::frame::clone_frame(&value[i]))) {
                Ok(s) => s,
                Err(e) => {
                    return Err(e);
                },
            };
            fields.push(f);
            i = i + 1;
        }
        proof {
            assert forall|x: int| 0 <= x < value@.skip(1).len() implies is_str_of(
                fields@[x],
                #[trigger] value@.skip(1)[x],
            ) by {
                assert(value@.skip(1)[x] == value@[x + 1]);
            }
        }
        Ok(Sadd::new(key, fields))
    }
}

impl CommandExecutor for Sadd {
    /// The reply counts newly added members: an integer no greater than
    /// the number of members asked for.
    open spec fn reply_ok(&self, reply: RespFrame) -> bool {
        match reply {
            RespFrame::Integer(c) => 0 <= c <= self.fields@.len(),
            _ => false,
        }
    }

    fn execute(self, backend: &Backend) -> (r: RespFrame) {
        backend.sadd(self.key, self.fields)
    }
}

impl Sismember {
    /// A membership test in this key's set.
    pub fn new(key: String, field: String) -> (r: Self)
        ensures
            r.key == key && r.field == field,
    {
        Sismember { key, field }
    }

    /// Parses `sismember <key> <member>`.
    pub fn try_from(value: Vec<RespFrame>) -> (r: Result<Self, CommandError>)
        ensures
            r is Ok <==> (value@.len() == 2 && is_bulk_arg(value@[0]) && valid_utf8(
                bulk_bytes(value@[0]),
            ) && is_bulk_arg(value@[1]) && valid_utf8(bulk_bytes(value@[1]))),
            r matches Ok(c) ==> c.key@ == decode_utf8(bulk_bytes(value@[0])) && c.field@
                == decode_utf8(bulk_bytes(value@[1])),
    {
        match validate_nums_of_argument(&value, "sismember", 2, 2) {
            Err(e) => Err(e),
            Ok(()) => {
                let mut value = value;
                let first = value.remove(0);
                let second = value.remove(0);
                let key = match extract_string(Some(first)) {
                    Ok(s) => s,
                    Err(e) => {
                        return Err(e);
                    },
                };
                match extract_string(Some(second)) {
                    Ok(f) => Ok(Sismember::new(key, f)),
                    Err(e) => Err(e),
                }
            },
        }
    }
}

impl CommandExecutor for Sismember {
    /// The reply is the integer one or zero.
    open spec fn reply_ok(&self, reply: RespFrame) -> bool {
        reply == RespFrame::Integer(1) || reply == RespFrame::Integer(0)
    }

    fn execute(self, backend: &Backend) -> (r: RespFrame) {
        backend.sismember(self.key.as_str(), self.field.as_str())
    }
}

impl CommandExecutor for Unrecognized {
    /// The reply acknowledges without acting.
    open spec fn reply_ok(&self, reply: RespFrame) -> bool {
        ok_reply(reply)
    }

    fn execute(self, _backend: &Backend) -> (r: RespFrame) {
        RespFrame::SimpleString(SimpleString::new("OK"))
    }
}

impl CommandExecutor for Command {
    /// The selected command's own reply guarantee.
    open spec fn reply_ok(&self, reply: RespFrame) -> bool {
        match self {
            Command::Get(c) => c.reply_ok(reply),
            Command::SetCmd(c) => c.reply_ok(reply),
            Command::HGet(c) => c.reply_ok(reply),
            Command::Hmget(c) => c.reply_ok(reply),
            Command::HSet(c) => c.reply_ok(reply),
            Command::HGetAll(c) => c.reply_ok(reply),
            Command::Sadd(c) => c.reply_ok(reply),
            Command::Sismember(c) => c.reply_ok(reply),
            Command::Echo(c) => c.reply_ok(reply),
            Command::Unrecognized(c) => c.reply_ok(reply),
        }
    }

    fn execute(self, backend: &Backend) -> (r: RespFrame) {
        match self {
            Command::Get(c) => c.execute(backend),
            Command::SetCmd(c) => c.execute(backend),
            Command::HGet(c) => c.execute(backend),
            Command::Hmget(c) => c.execute(backend),
            Command::HSet(c) => c.execute(backend),
            Command::HGetAll(c) => c.execute(backend),
            Command::Sadd(c) => c.execute(backend),
            Command::Sismember(c) => c.execute(backend),
            Command::Echo(c) => c.execute(backend),
            Command::Unrecognized(c) => c.execute(backend),
        }
    }
}

/// The lowercased command name of a shape-checked command frame.
pub open spec fn command_name(value: RespArray) -> Seq<u8> {
    lower_bytes(bulk_bytes(value.0->0@[0]))
}

/// Does this name (already lowercased) select the given command word?
fn name_is(cmd: &Vec<u8>, word: &[u8]) -> (r: bool)
    ensures
        r == (cmd@ == word@),
{
    crate::order::bytes_eq(cmd.as_slice(), word)
}

/// The nine command names are pairwise distinct.
pub proof fn lemma_names_distinct()
    ensures
        name_get() != name_set() && name_get() != name_hget() && name_get() != name_hmget()
            && name_get() != name_hset() && name_get() != name_hgetall() && name_get()
            != name_sadd() && name_get() != name_sismember() && name_get() != name_echo(),
        name_set() != name_hget() && name_set() != name_hmget() && name_set() != name_hset()
            && name_set() != name_hgetall() && name_set() != name_sadd() && name_set()
            != name_sismember() && name_set() != name_echo(),
        name_hget() != name_hmget() && name_hget() != name_hset() && name_hget()
            != name_hgetall() && name_hget() != name_sadd() && name_hget() != name_sismember()
            && name_hget() != name_echo(),
        name_hmget() != name_hset() && name_hmget() != name_hgetall() && name_hmget()
            != name_sadd() && name_hmget() != name_sismember() && name_hmget() != name_echo(),
        name_hset() != name_hgetall() && name_hset() != name_sadd() && name_hset()
            != name_sismember() && name_hset() != name_echo(),
        name_hgetall() != name_sadd() && name_hgetall() != name_sismember() && name_hgetall()
            != name_echo(),
        name_sadd() != name_sismember() && name_sadd() != name_echo(),
        name_sismember() != name_echo(),
{
    assert(name_get().len() == 3 && name_set().len() == 3 && name_hget().len() == 4
        && name_hmget().len() == 5 && name_hset().len() == 4 && name_hgetall().len() == 7
        && name_sadd().len() == 4 && name_sismember().len() == 9 && name_echo().len() == 4);
    assert(name_get()[0] != name_set()[0]);
    assert(name_get()[0] != name_hget()[0]);
    assert(name_get()[0] != name_echo()[0]);
    assert(name_set()[0] != name_hget()[0]);
    assert(name_set()[0] != name_echo()[0]);
    assert(name_hget()[1] != name_hset()[1]);
    assert(name_hget()[0] != name_sadd()[0]);
    assert(name_hget()[0] != name_echo()[0]);
    assert(name_hset()[0] != name_sadd()[0]);
    assert(name_hset()[0] != name_echo()[0]);
    assert(name_sadd()[0] != name_echo()[0]);
}

impl Command {
    /// Turns a shape-checked array frame into a typed command: the first
    /// element's lowercased text selects the command, the rest are its
    /// arguments; an unrecognized name parses as `Unrecognized`.
    pub fn try_from(value: RespArray) -> (r: Result<Command, CommandError>)
        ensures
            r is Ok <==> command_shape(value) && command_args_ok(value),
            r matches Ok(c) ==> command_selected(value, c),
    {
        proof {
            lemma_names_distinct();
        }
        match validate_command(&value) {
            Err(e) => {
                return Err(e);
            },
            Ok(()) => {},
        }
        let (cmd, frames) = extract_cmd_and_argument(value);
        let w_get: [u8; 3] = [0x67, 0x65, 0x74];
        let w_set: [u8; 3] = [0x73, 0x65, 0x74];
        let w_hget: [u8; 4] = [0x68, 0x67, 0x65, 0x74];
        let w_hmget: [u8; 5] = [0x68, 0x6d, 0x67, 0x65, 0x74];
        let w_hset: [u8; 4] = [0x68, 0x73, 0x65, 0x74];
        let w_hgetall: [u8; 7] = [0x68, 0x67, 0x65, 0x74, 0x61, 0x6c, 0x6c];
        let w_sadd: [u8; 4] = [0x73, 0x61, 0x64, 0x64];
        let w_sismember: [u8; 9] = [0x73, 0x69, 0x73, 0x6d, 0x65, 0x6d, 0x62, 0x65, 0x72];
        let w_echo: [u8; 4] = [0x65, 0x63, 0x68, 0x6f];
        proof {
            assert(w_get@ =~= name_get());
            assert(w_set@ =~= name_set());
            assert(w_hget@ =~= name_hget());
            assert(w_hmget@ =~= name_hmget());
            assert(w_hset@ =~= name_hset());
            assert(w_hgetall@ =~= name_hgetall());
            assert(w_sadd@ =~= name_sadd());
            assert(w_sismember@ =~= name_sismember());
            assert(w_echo@ =~= name_echo());
        }
        if name_is(&cmd, w_get.as_slice()) {
            match Get::try_from(frames) {
                Ok(c) => Ok(Command::Get(c)),
                Err(e) => Err(e),
            }
        } else if name_is(&cmd, w_set.as_slice()) {
            match SetCmd::try_from(frames) {
                Ok(c) => Ok(Command::SetCmd(c)),
                Err(e) => Err(e),
            }
        } else if name_is(&cmd, w_hget.as_slice()) {
            match HGet::try_from(frames) {
                Ok(c) => Ok(Command::HGet(c)),
                Err(e) => Err(e),
            }
        } else if name_is(&cmd, w_hmget.as_slice()) {
            match Hmget::try_from(frames) {
                Ok(c) => Ok(Command::Hmget(c)),
                Err(e) => Err(e),
            }
        } else if name_is(&cmd, w_hset.as_slice()) {
            match HSet::try_from(frames) {
                Ok(c) => Ok(Command::HSet(c)),
                Err(e) => Err(e),
            }
        } else if name_is(&cmd, w_hgetall.as_slice()) {
            match HGetAll::try_from(frames) {
                Ok(c) => Ok(Command::HGetAll(c)),
                Err(e) => Err(e),
            }
        } else if name_is(&cmd, w_sadd.as_slice()) {
            match Sadd::try_from(frames) {
                Ok(c) => Ok(Command::Sadd(c)),
                Err(e) => Err(e),
            }
        } else if name_is(&cmd, w_sismember.as_slice()) {
            match Sismember::try_from(frames) {
                Ok(c) => Ok(Command::Sismember(c)),
                Err(e) => Err(e),
            }
        } else if name_is(&cmd, w_echo.as_slice()) {
            match Echo::try_from(frames) {
                Ok(c) => Ok(Command::Echo(c)),
                Err(e) => Err(e),
            }
        } else {
            Ok(Command::Unrecognized(Unrecognized))
        }
    }

    /// Turns a decoded top-level frame into a typed command: only array
    /// frames can be commands, and the array parses as `Command::try_from`
    /// says.
    pub fn try_from_frame(value: RespFrame) -> (r: Result<Command, CommandError>)
        ensures
            !(value is Array) ==> (match r {
                Ok(_) => false,
                Err(e) => e is InvalidCommand,
            }),
            value matches RespFrame::Array(a) ==> {
                &&& (r is Ok <==> command_shape(a) && command_args_ok(a))
                &&& (match r {
                    Ok(c) => command_selected(a, c),
                    Err(_) => true,
                })
            },
    {
        match value {
            RespFrame::Array(array) => Command::try_from(array),
            _ => Err(
                CommandError::InvalidCommand(String::from_str("unsupported frame type")),
            ),
        }
    }
}

} // verus!
