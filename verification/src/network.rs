//! The request/reply step of one connection: a decoded frame is turned
//! into a command and run; a command error becomes a simple error reply
//! and the connection stays open. The transport loop around this lives
//! with the caller.
use vstd::prelude::*;

verus! {

use crate::backend::Backend;
use crate::cmd::Command;
use crate::cmd::CommandExecutor;
use crate::cmd::command_args_ok;
use crate::cmd::command_name;
use crate::cmd::command_selected;
use crate::cmd::command_shape;
use crate::cmd::known_name;
use crate::cmd::lemma_names_distinct;
use crate::cmd::name_echo;
use crate::cmd::name_hgetall;
use crate::cmd::name_hmget;
use crate::cmd::name_hset;
use crate::cmd::name_sadd;
use crate::cmd::name_set;
use crate::cmd::name_sismember;
use crate::cmd::ok_reply;
use crate::cmd::bulk_bytes;
use crate::cmd::rest_of;
use crate::frame::FrameV;
use crate::frame::RespFrame;
use crate::frame::SimpleError;
use crate::frame::frame_view;

/// One decoded inbound frame, with the store it acts on.
pub struct RedisRequest {
    pub frame: RespFrame,
    pub backend: Backend,
}

/// The reply frame for one request.
pub struct RedisResponse {
    pub frame: RespFrame,
}

/// Does this frame parse as a command: an array of the command shape whose
/// arguments fit the command its name selects?
pub open spec fn request_parses(frame: RespFrame) -> bool {
    match frame {
        RespFrame::Array(a) => command_shape(a) && command_args_ok(a),
        _ => false,
    }
}

/// What the reply to a parsed command is guaranteed to be, by the name the
/// command frame carries: an echo returns its argument; a scalar write and
/// an unrecognized name are acknowledged; counting commands return bounded
/// integers; multi-reads return arrays of the right shape; plain reads are
/// store-decided.
pub open spec fn handled_reply_ok(frame: RespFrame, reply: RespFrame) -> bool {
    match frame {
        RespFrame::Array(a) => {
            let n = command_name(a);
            let rest = rest_of(a);
            if n == name_echo() {
                frame_view(reply) == FrameV::BulkString(Some(bulk_bytes(rest[0])))
            } else if n == name_set() || !known_name(n) {
                ok_reply(reply)
            } else if n == name_sismember() {
                reply == RespFrame::Integer(1) || reply == RespFrame::Integer(0)
            } else if n == name_hset() {
                match reply {
                    RespFrame::Integer(c) => 0 <= c <= (rest.len() - 1) / 2,
                    _ => false,
                }
            } else if n == name_sadd() {
                match reply {
                    RespFrame::Integer(c) => 0 <= c <= rest.len() - 1,
                    _ => false,
                }
            } else if n == name_hmget() {
                match frame_view(reply) {
                    FrameV::Array(Some(els)) => els.len() == rest.len() - 1,
                    _ => false,
                }
            } else if n == name_hgetall() {
                match frame_view(reply) {
                    FrameV::Array(Some(els)) => crate::backend::hgetall_shape(els),
                    _ => false,
                }
            } else {
                true
            }
        },
        _ => false,
    }
}

/// Runs one request: a frame that parses as a command executes against the
/// store and its reply carries the selected command's guarantee; anything
/// else is answered in-band with a simple error reply, never by closing.
pub fn redis_request_handler(request: RedisRequest) -> (r: RedisResponse)
    ensures
        !request_parses(request.frame) ==> r.frame is SimpleError,
        request_parses(request.frame) ==> handled_reply_ok(request.frame, r.frame),
{
    proof {
        lemma_names_distinct();
    }
    let ghost in_frame = request.frame;
    let RedisRequest { frame, backend } = request;
    let reply = match Command::try_from_frame(frame) {
        Ok(cmd) => {
            let ghost c = cmd;
            let out = cmd.execute(&backend);
            proof {
                lemma_selected_reply(in_frame, c, out);
            }
            out
        },
        Err(e) => RespFrame::SimpleError(SimpleError::new(e.message().as_str())),
    };
    RedisResponse { frame: reply }
}

/// A parsed command's own reply guarantee gives the name-indexed guarantee
/// of the request frame it was parsed from.
proof fn lemma_selected_reply(frame: RespFrame, c: Command, reply: RespFrame)
    requires
        frame matches RespFrame::Array(a) && command_shape(a) && command_args_ok(a)
            && command_selected(a, c),
        c.reply_ok(reply),
    ensures
        handled_reply_ok(frame, reply),
{
    lemma_names_distinct();
    let a = frame->Array_0;
    let n = command_name(a);
    let rest = rest_of(a);
    match c {
        Command::Get(_) => {},
        Command::SetCmd(_) => {},
        Command::HGet(_) => {},
        Command::Hmget(h) => {
            assert(h.fields@.len() == rest.skip(1).len());
        },
        Command::HSet(h) => {
            assert(h.fields@.len() == (rest.len() - 1) / 2);
        },
        Command::HGetAll(_) => {},
        Command::Sadd(sa) => {
            assert(sa.fields@.len() == rest.skip(1).len());
        },
        Command::Sismember(_) => {},
        Command::Echo(e) => {
            assert(e.message@ == vstd::utf8::decode_utf8(bulk_bytes(rest[0])));
            assert(vstd::utf8::valid_utf8(bulk_bytes(rest[0])));
            vstd::utf8::decode_utf8_encode_utf8(bulk_bytes(rest[0]));
        },
        Command::Unrecognized(_) => {},
    }
}

} // verus!
