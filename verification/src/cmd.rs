//! The command model: the typed errors every operation can surface, one
//! struct per supported command with its parser, and the dispatch that
//! lifts a decoded request frame into a command and runs it against the
//! keyspace.

use vstd::prelude::*;

mod decr;
mod del;
mod echo;
mod exists_cmd;
mod get;
mod incr;
mod lpush;
mod lrange;
mod ping;
mod rpush;
mod set;

pub use decr::{spec_parse_decr, Decr};
pub use del::{spec_parse_del, Del};
pub use echo::{spec_parse_echo, Echo};
pub use exists_cmd::{spec_parse_exists, Exists};
pub use get::{spec_parse_get, Get};
pub use incr::{spec_parse_incr, Incr};
pub use lpush::{spec_parse_lpush, Lpush};
pub use lrange::{spec_parse_lrange, Lrange};
pub use ping::{opt_bytes_model, spec_parse_ping, Ping};
pub use rpush::{spec_parse_rpush, Rpush};
pub use set::{set_model, spec_parse_set, SetCmd, SetModel};

use crate::data_store::{
    clamp_i64, spec_adjust, spec_del, spec_exists, spec_get, spec_lrange, spec_push,
    spec_set, DataStore, ValueModel,
};
use crate::protocol_handler::{
    find_crlf, frame_model, frame_wf, lemma_find_crlf_none, FrameModel, RESPType,
};
use crate::text::{
    append_bytes, ascii, blank_crlf, bytes_seq, clone_bytes, lit_bytes, spec_blank_crlf,
    spec_lower, to_lower,
};

verus! {

/// A typed error raised while parsing or executing a command. Each
/// variant carries the exact text that travels to the client in an error
/// frame.
#[derive(Debug, PartialEq)]
pub enum ParseError {
    SyntaxError(Vec<u8>),
    ConditionNotMet(Vec<u8>),
    UnrecognizedCmd(Vec<u8>),
    ExpectedArrayType(Vec<u8>),
    ExpectedStringType(Vec<u8>),
}

/// The mathematical shape of a typed error.
pub enum ErrorModel {
    Syntax(Seq<u8>),
    CondNotMet(Seq<u8>),
    Unrecognized(Seq<u8>),
    ExpectedArray(Seq<u8>),
    ExpectedString(Seq<u8>),
}

/// The model of a concrete error value.
pub open spec fn err_model(e: ParseError) -> ErrorModel {
    match e {
        ParseError::SyntaxError(m) => ErrorModel::Syntax(m@),
        ParseError::ConditionNotMet(m) => ErrorModel::CondNotMet(m@),
        ParseError::UnrecognizedCmd(m) => ErrorModel::Unrecognized(m@),
        ParseError::ExpectedArrayType(m) => ErrorModel::ExpectedArray(m@),
        ParseError::ExpectedStringType(m) => ErrorModel::ExpectedString(m@),
    }
}

/// The text an error model carries.
pub open spec fn err_model_text(e: ErrorModel) -> Seq<u8> {
    match e {
        ErrorModel::Syntax(m) => m,
        ErrorModel::CondNotMet(m) => m,
        ErrorModel::Unrecognized(m) => m,
        ErrorModel::ExpectedArray(m) => m,
        ErrorModel::ExpectedString(m) => m,
    }
}

impl ParseError {
    /// The text this error carries, as shown to the client.
    pub fn into_message(self) -> (r: Vec<u8>)
        ensures
            r@ == err_model_text(err_model(self)),
    {
        match self {
            ParseError::SyntaxError(m) => m,
            ParseError::ConditionNotMet(m) => m,
            ParseError::UnrecognizedCmd(m) => m,
            ParseError::ExpectedArrayType(m) => m,
            ParseError::ExpectedStringType(m) => m,
        }
    }
}

/// The reply PING shapes: the fixed greeting, or the quoted message with
/// line breaks blanked so it fits one protocol line.
pub open spec fn spec_ping_reply(msg: Option<Seq<u8>>) -> FrameModel {
    match msg {
        None => FrameModel::Simple(ascii("\"PONG\""@)),
        Some(m) => FrameModel::Simple(seq![34u8] + spec_blank_crlf(m) + seq![34u8]),
    }
}

/// The reply ECHO shapes: the quoted message with line breaks blanked.
pub open spec fn spec_echo_reply(m: Seq<u8>) -> FrameModel {
    FrameModel::Simple(seq![34u8] + spec_blank_crlf(m) + seq![34u8])
}

/// The reply GET shapes: the stored string as a bulk, else the null
/// bulk.
pub open spec fn spec_get_reply(v: Option<ValueModel>) -> FrameModel {
    match v {
        Some(ValueModel::Str(s)) => FrameModel::Bulk(Some(s)),
        _ => FrameModel::Bulk(None),
    }
}

/// The reply SET shapes: a quoted confirmation, or with the `GET` flag
/// the prior string value quoted in a bulk, the null bulk when there was
/// none, and the confirmation when the prior value was not a string.
pub open spec fn spec_set_reply(get: bool, prior: Option<ValueModel>) -> FrameModel {
    if get {
        match prior {
            None => FrameModel::Bulk(None),
            Some(ValueModel::Str(s)) => FrameModel::Bulk(Some(seq![34u8] + s + seq![34u8])),
            Some(ValueModel::List(_)) => FrameModel::Simple(ascii("\"OK\""@)),
        }
    } else {
        FrameModel::Simple(ascii("\"OK\""@))
    }
}

/// The reply LRANGE shapes: one bulk string per element, in order.
pub open spec fn spec_lrange_reply(items: Seq<Seq<u8>>) -> FrameModel {
    FrameModel::Array(items.map_values(|s: Seq<u8>| FrameModel::Bulk(Some(s))))
}

/// The quoted greeting line.
pub(crate) fn msg_pong() -> (r: Vec<u8>)
    ensures
        r@ == ascii("\"PONG\""@),
        find_crlf(r@) is None,
{
    proof {
        reveal_strlit("\"PONG\"");
    }
    let r = lit_bytes("\"PONG\"");
    proof {
        assert(forall|q: int|
            0 <= q && q + 2 <= r@.len() ==> !(#[trigger] r@[q] == 13 && r@[q + 1] == 10));
        lemma_find_crlf_none(r@);
    }
    r
}

/// The quoted confirmation line.
pub(crate) fn msg_ok() -> (r: Vec<u8>)
    ensures
        r@ == ascii("\"OK\""@),
        find_crlf(r@) is None,
{
    proof {
        reveal_strlit("\"OK\"");
    }
    let r = lit_bytes("\"OK\"");
    proof {
        assert(forall|q: int|
            0 <= q && q + 2 <= r@.len() ==> !(#[trigger] r@[q] == 13 && r@[q + 1] == 10));
        lemma_find_crlf_none(r@);
    }
    r
}

/// Quotes a message for a simple-string reply, blanking line breaks so
/// the result sits on one protocol line.
pub(crate) fn quoted(m: &Vec<u8>) -> (r: Vec<u8>)
    ensures
        r@ == seq![34u8] + spec_blank_crlf(m@) + seq![34u8],
        find_crlf(r@) is None,
{
    let b = blank_crlf(m);
    let mut out: Vec<u8> = Vec::new();
    out.push(34);
    append_bytes(&mut out, &b);
    out.push(34);
    proof {
        assert(out@ =~= seq![34u8] + spec_blank_crlf(m@) + seq![34u8]);
        assert(forall|q: int| 0 <= q < out@.len() ==> #[trigger] out@[q] != 13);
        lemma_find_crlf_none(out@);
    }
    out
}

/// Turns a typed error into the error frame that travels to the client,
/// blanking line breaks so the text sits on one protocol line.
pub(crate) fn error_frame(e: ParseError) -> (r: RESPType)
    ensures
        frame_model(r) == FrameModel::Error(spec_blank_crlf(err_model_text(err_model(e)))),
        frame_wf(r),
{
    let ghost em = err_model(e);
    let m = e.into_message();
    let b = blank_crlf(&m);
    proof {
        assert(forall|q: int| 0 <= q < b@.len() ==> #[trigger] b@[q] != 13);
        lemma_find_crlf_none(b@);
    }
    RESPType::Error(b)
}

/// Clamps an unsigned count into a signed 64-bit reply value.
pub(crate) fn clamp_count(n: u64) -> (r: i64)
    ensures
        r as int == clamp_i64(n as int),
{
    if n > 9223372036854775807u64 {
        i64::MAX
    } else {
        n as i64
    }
}

/// The mathematical shape of a parsed command.
pub enum CommandModel {
    Ping(Option<Seq<u8>>),
    Echo(Seq<u8>),
    SetCmd(SetModel),
    Get(Seq<u8>),
    Exists(Seq<Seq<u8>>),
    Del(Seq<Seq<u8>>),
    Incr(Seq<u8>),
    Decr(Seq<u8>),
    Lpush(Seq<u8>, Seq<Seq<u8>>),
    Lrange(Seq<u8>, int, int),
    Rpush(Seq<u8>, Seq<Seq<u8>>),
}

/// One parsed command, ready to run against the keyspace.
#[derive(Debug)]
pub enum Command {
    Ping(Ping),
    Echo(Echo),
    SetCmd(SetCmd),
    Get(Get),
    Exists(Exists),
    Del(Del),
    Incr(Incr),
    Decr(Decr),
    Lpush(Lpush),
    Lrange(Lrange),
    Rpush(Rpush),
}

/// The model of a concrete command value.
pub open spec fn command_model(c: Command) -> CommandModel {
    match c {
        Command::Ping(p) => CommandModel::Ping(opt_bytes_model(p.msg)),
        Command::Echo(e) => CommandModel::Echo(e.msg@),
        Command::SetCmd(s) => CommandModel::SetCmd(set_model(s)),
        Command::Get(g) => CommandModel::Get(g.key@),
        Command::Exists(x) => CommandModel::Exists(bytes_seq(x.keys@)),
        Command::Del(d) => CommandModel::Del(bytes_seq(d.keys@)),
        Command::Incr(i) => CommandModel::Incr(i.key@),
        Command::Decr(d) => CommandModel::Decr(d.key@),
        Command::Lpush(l) => CommandModel::Lpush(l.key@, bytes_seq(l.elements@)),
        Command::Lrange(l) => CommandModel::Lrange(l.key@, l.start as int, l.stop as int),
        Command::Rpush(l) => CommandModel::Rpush(l.key@, bytes_seq(l.elements@)),
    }
}

/// The byte string a request-array element denotes, if it is
/// string-bearing: a simple string or a non-null bulk string.
pub open spec fn string_of_frame(f: FrameModel) -> Option<Seq<u8>> {
    match f {
        FrameModel::Simple(s) => Some(s),
        FrameModel::Bulk(o) => match o {
            Some(t) => Some(t),
            None => None,
        },
        _ => None,
    }
}

/// The byte strings of a request array, if every element is
/// string-bearing.
pub open spec fn spec_strings_of(elems: Seq<FrameModel>) -> Option<Seq<Seq<u8>>>
    decreases elems.len(),
{
    if elems.len() == 0 {
        Some(Seq::empty())
    } else {
        match string_of_frame(elems.first()) {
            None => None,
            Some(s) => match spec_strings_of(elems.drop_first()) {
                None => None,
                Some(rest) => Some(seq![s] + rest),
            },
        }
    }
}

/// What parsing a request frame at time `now` yields: the frame must be
/// an array of string-bearing frames; the first string names the
/// command, matched after ASCII lower-casing; the rest are its
/// arguments.
pub open spec fn spec_parse_command(fm: FrameModel, now: int) -> Result<CommandModel, ErrorModel> {
    match fm {
        FrameModel::Array(elems) => match spec_strings_of(elems) {
            None => Err(ErrorModel::ExpectedString(ascii("ERR expected a string frame"@))),
            Some(args) => if args.len() == 0 {
                Err(ErrorModel::Unrecognized(ascii("unknown command ''"@)))
            } else {
                let name = spec_lower(args[0]);
                if name == ascii("ping"@) {
                    match spec_parse_ping(args) {
                        Ok(m) => Ok(CommandModel::Ping(m)),
                        Err(e) => Err(e),
                    }
                } else if name == ascii("echo"@) {
                    match spec_parse_echo(args) {
                        Ok(m) => Ok(CommandModel::Echo(m)),
                        Err(e) => Err(e),
                    }
                } else if name == ascii("set"@) {
                    match spec_parse_set(args, now) {
                        Ok(m) => Ok(CommandModel::SetCmd(m)),
                        Err(e) => Err(e),
                    }
                } else if name == ascii("get"@) {
                    match spec_parse_get(args) {
                        Ok(m) => Ok(CommandModel::Get(m)),
                        Err(e) => Err(e),
                    }
                } else if name == ascii("exists"@) {
                    match spec_parse_exists(args) {
                        Ok(m) => Ok(CommandModel::Exists(m)),
                        Err(e) => Err(e),
                    }
                } else if name == ascii("del"@) {
                    match spec_parse_del(args) {
                        Ok(m) => Ok(CommandModel::Del(m)),
                        Err(e) => Err(e),
                    }
                } else if name == ascii("incr"@) {
                    match spec_parse_incr(args) {
                        Ok(m) => Ok(CommandModel::Incr(m)),
                        Err(e) => Err(e),
                    }
                } else if name == ascii("decr"@) {
                    match spec_parse_decr(args) {
                        Ok(m) => Ok(CommandModel::Decr(m)),
                        Err(e) => Err(e),
                    }
                } else if name == ascii("lpush"@) {
                    match spec_parse_lpush(args) {
                        Ok(m) => Ok(CommandModel::Lpush(m.0, m.1)),
                        Err(e) => Err(e),
                    }
                } else if name == ascii("lrange"@) {
                    match spec_parse_lrange(args) {
                        Ok(m) => Ok(CommandModel::Lrange(m.0, m.1, m.2)),
                        Err(e) => Err(e),
                    }
                } else if name == ascii("rpush"@) {
                    match spec_parse_rpush(args) {
                        Ok(m) => Ok(CommandModel::Rpush(m.0, m.1)),
                        Err(e) => Err(e),
                    }
                } else {
                    Err(
                        ErrorModel::Unrecognized(
                            ascii("unknown command '"@) + args[0] + ascii("'"@),
                        ),
                    )
                }
            },
        },
        _ => Err(ErrorModel::ExpectedArray(ascii("ERR expected an array frame"@))),
    }
}

/// What running a command at time `now` does to the keyspace and which
/// reply it shapes.
pub open spec fn spec_apply(m: Map<Seq<u8>, crate::data_store::EntryModel>, c: CommandModel, now: int) -> (
    Map<Seq<u8>, crate::data_store::EntryModel>,
    FrameModel,
) {
    match c {
        CommandModel::Ping(msg) => (m, spec_ping_reply(msg)),
        CommandModel::Echo(msg) => (m, spec_echo_reply(msg)),
        CommandModel::SetCmd(sm) => match spec_set(m, sm.key, sm.value, sm.duration, sm.nx, sm.xx, now) {
            Ok(pair) => (pair.0, spec_set_reply(sm.get, pair.1)),
            Err(e) => (m, FrameModel::Error(spec_blank_crlf(err_model_text(e)))),
        },
        CommandModel::Get(k) => (spec_get(m, k, now).0, spec_get_reply(spec_get(m, k, now).1)),
        CommandModel::Exists(keys) => (m, FrameModel::Integer(clamp_i64(spec_exists(m, keys)))),
        CommandModel::Del(keys) => (
            spec_del(m, keys).0,
            FrameModel::Integer(clamp_i64(spec_del(m, keys).1)),
        ),
        CommandModel::Incr(k) => match spec_adjust(m, k, 1) {
            Ok(pair) => (pair.0, FrameModel::Integer(pair.1)),
            Err(e) => (m, FrameModel::Error(spec_blank_crlf(err_model_text(e)))),
        },
        CommandModel::Decr(k) => match spec_adjust(m, k, -1) {
            Ok(pair) => (pair.0, FrameModel::Integer(pair.1)),
            Err(e) => (m, FrameModel::Error(spec_blank_crlf(err_model_text(e)))),
        },
        CommandModel::Lpush(k, es) => match spec_push(m, k, es, true) {
            Ok(pair) => (pair.0, FrameModel::Integer(pair.1)),
            Err(e) => (m, FrameModel::Error(spec_blank_crlf(err_model_text(e)))),
        },
        CommandModel::Lrange(k, a, b) => match spec_lrange(m, k, a, b) {
            Ok(items) => (m, spec_lrange_reply(items)),
            Err(e) => (m, FrameModel::Error(spec_blank_crlf(err_model_text(e)))),
        },
        CommandModel::Rpush(k, es) => match spec_push(m, k, es, false) {
            Ok(pair) => (pair.0, FrameModel::Integer(pair.1)),
            Err(e) => (m, FrameModel::Error(spec_blank_crlf(err_model_text(e)))),
        },
    }
}

/// What serving one request frame at time `now` does: parse it into a
/// command and run it, or shape the parse error as an error frame.
pub open spec fn spec_handle(m: Map<Seq<u8>, crate::data_store::EntryModel>, fm: FrameModel, now: int) -> (
    Map<Seq<u8>, crate::data_store::EntryModel>,
    FrameModel,
) {
    match spec_parse_command(fm, now) {
        Err(e) => (m, FrameModel::Error(spec_blank_crlf(err_model_text(e)))),
        Ok(c) => spec_apply(m, c, now),
    }
}

/// How a served request relates store and reply after the call to the
/// store before it, at time `now`.
pub open spec fn handle_post(
    m0: Map<Seq<u8>, crate::data_store::EntryModel>,
    fm: FrameModel,
    now: int,
    m1: Map<Seq<u8>, crate::data_store::EntryModel>,
    reply: FrameModel,
) -> bool {
    m1 == spec_handle(m0, fm, now).0 && reply == spec_handle(m0, fm, now).1
}

impl Command {
    /// The byte string a request-array element carries, or a typed error
    /// for a frame that is not string-bearing.
    pub fn extract_string(frame: RESPType) -> (r: Result<Vec<u8>, ParseError>)
        ensures
            match string_of_frame(frame_model(frame)) {
                Some(s) => r matches Ok(b) && b@ == s,
                None => r matches Err(e) && err_model(e) == ErrorModel::ExpectedString(
                    ascii("ERR expected a string frame"@),
                ),
            },
    {
        match frame {
            RESPType::SimpleString(s) => Ok(s),
            RESPType::BulkString(o) => match o {
                Some(b) => Ok(b.text),
                None => {
                    proof {
                        reveal_strlit("ERR expected a string frame");
                    }
                    Err(ParseError::ExpectedStringType(lit_bytes("ERR expected a string frame")))
                },
            },
            _ => {
                proof {
                    reveal_strlit("ERR expected a string frame");
                }
                Err(ParseError::ExpectedStringType(lit_bytes("ERR expected a string frame")))
            },
        }
    }

    /// Parses a request frame into a command at time `now_ms`. The frame
    /// must be an array of string-bearing frames whose first element
    /// names the command, case-insensitively.
    #[verifier::loop_isolation(false)]
    pub fn infer_command_at(frame: RESPType, now_ms: i64) -> (r: Result<Command, ParseError>)
        ensures
            match r {
                Ok(c) => spec_parse_command(frame_model(frame), now_ms as int) == Ok::<
                    CommandModel,
                    ErrorModel,
                >(command_model(c)),
                Err(e) => spec_parse_command(frame_model(frame), now_ms as int) == Err::<
                    CommandModel,
                    ErrorModel,
                >(err_model(e)),
            },
    {
        let arr = match frame {
            RESPType::Array(a) => a,
            _ => {
                proof {
                    reveal_strlit("ERR expected an array frame");
                }
                return Err(
                    ParseError::ExpectedArrayType(lit_bytes("ERR expected an array frame")),
                );
            },
        };
        let ghost ms = crate::protocol_handler::frame_models(arr@);
        proof {
            crate::protocol_handler::lemma_frame_models_index(arr@);
        }
        let n = arr.len();
        let mut strings: Vec<Vec<u8>> = Vec::new();
        let mut i: usize = 0;
        proof {
            assert(ms.skip(0) =~= ms);
            match spec_strings_of(ms) {
                Some(rest) => {
                    assert(bytes_seq(strings@) + rest =~= rest);
                },
                None => {},
            }
        }
        while i < n
            invariant
                0 <= i <= n,
                n == arr@.len(),
                ms == crate::protocol_handler::frame_models(arr@),
                ms.len() == n,
                forall|q: int|
                    0 <= q < n ==> ms[q] == crate::protocol_handler::frame_model(
                        #[trigger] arr@[q],
                    ),
                strings@.len() == i,
                match spec_strings_of(ms.skip(i as int)) {
                    Some(rest) => spec_strings_of(ms) == Some(bytes_seq(strings@) + rest),
                    None => spec_strings_of(ms) is None,
                },
            decreases n - i,
        {
            let ghost tail = ms.skip(i as int);
            proof {
                assert(tail.first() == ms[i as int]);
                assert(tail.drop_first() =~= ms.skip(i + 1));
            }
            let b = match &arr[i] {
                RESPType::SimpleString(s) => clone_bytes(s),
                RESPType::BulkString(o) => match o {
                    Some(bd) => clone_bytes(&bd.text),
                    None => {
                        proof {
                            reveal_strlit("ERR expected a string frame");
                            assert(string_of_frame(ms[i as int]) is None);
                            assert(spec_strings_of(tail) is None);
                        }
                        return Err(
                            ParseError::ExpectedStringType(
                                lit_bytes("ERR expected a string frame"),
                            ),
                        );
                    },
                },
                _ => {
                    proof {
                        reveal_strlit("ERR expected a string frame");
                        assert(string_of_frame(ms[i as int]) is None);
                        assert(spec_strings_of(tail) is None);
                    }
                    return Err(
                        ParseError::ExpectedStringType(lit_bytes("ERR expected a string frame")),
                    );
                },
            };
            proof {
                assert(string_of_frame(ms[i as int]) == Some(b@));
                match spec_strings_of(ms.skip(i + 1)) {
                    Some(rest) => {
                        assert(spec_strings_of(tail) == Some(seq![b@] + rest));
                        assert(bytes_seq(strings@.push(b)) =~= bytes_seq(strings@).push(b@));
                        assert(bytes_seq(strings@) + (seq![b@] + rest) =~= bytes_seq(
                            strings@.push(b),
                        ) + rest);
                    },
                    None => {},
                }
            }
            strings.push(b);
            i = i + 1;
        }
        proof {
            assert(ms.skip(n as int) =~= Seq::<FrameModel>::empty());
            assert(bytes_seq(strings@) + Seq::<Seq<u8>>::empty() =~= bytes_seq(strings@));
        }
        let ghost args = bytes_seq(strings@);
        if strings.len() == 0 {
            proof {
                reveal_strlit("unknown command ''");
            }
            return Err(ParseError::UnrecognizedCmd(lit_bytes("unknown command ''")));
        }
        let lowered = to_lower(&strings[0]);
        proof {
            reveal_strlit("ping");
            reveal_strlit("echo");
            reveal_strlit("set");
            reveal_strlit("get");
            reveal_strlit("exists");
            reveal_strlit("del");
            reveal_strlit("incr");
            reveal_strlit("decr");
            reveal_strlit("lpush");
            reveal_strlit("lrange");
            reveal_strlit("rpush");
        }
        if crate::numbers::bytes_eq(&lowered, &lit_bytes("ping")) {
            match Ping::parse(strings) {
                Ok(c) => Ok(Command::Ping(c)),
                Err(e) => Err(e),
            }
        } else if crate::numbers::bytes_eq(&lowered, &lit_bytes("echo")) {
            match Echo::parse(strings) {
                Ok(c) => Ok(Command::Echo(c)),
                Err(e) => Err(e),
            }
        } else if crate::numbers::bytes_eq(&lowered, &lit_bytes("set")) {
            match SetCmd::parse_at(strings, now_ms) {
                Ok(c) => Ok(Command::SetCmd(c)),
                Err(e) => Err(e),
            }
        } else if crate::numbers::bytes_eq(&lowered, &lit_bytes("get")) {
            match Get::parse(strings) {
                Ok(c) => Ok(Command::Get(c)),
                Err(e) => Err(e),
            }
        } else if crate::numbers::bytes_eq(&lowered, &lit_bytes("exists")) {
            match Exists::parse(strings) {
                Ok(c) => Ok(Command::Exists(c)),
                Err(e) => Err(e),
            }
        } else if crate::numbers::bytes_eq(&lowered, &lit_bytes("del")) {
            match Del::parse(strings) {
                Ok(c) => Ok(Command::Del(c)),
                Err(e) => Err(e),
            }
        } else if crate::numbers::bytes_eq(&lowered, &lit_bytes("incr")) {
            match Incr::parse(strings) {
                Ok(c) => Ok(Command::Incr(c)),
                Err(e) => Err(e),
            }
        } else if crate::numbers::bytes_eq(&lowered, &lit_bytes("decr")) {
            match Decr::parse(strings) {
                Ok(c) => Ok(Command::Decr(c)),
                Err(e) => Err(e),
            }
        } else if crate::numbers::bytes_eq(&lowered, &lit_bytes("lpush")) {
            match Lpush::parse(strings) {
                Ok(c) => Ok(Command::Lpush(c)),
                Err(e) => Err(e),
            }
        } else if crate::numbers::bytes_eq(&lowered, &lit_bytes("lrange")) {
            match Lrange::parse(strings) {
                Ok(c) => Ok(Command::Lrange(c)),
                Err(e) => Err(e),
            }
        } else if crate::numbers::bytes_eq(&lowered, &lit_bytes("rpush")) {
            match Rpush::parse(strings) {
                Ok(c) => Ok(Command::Rpush(c)),
                Err(e) => Err(e),
            }
        } else {
            proof {
                reveal_strlit("unknown command '");
                reveal_strlit("'");
            }
            let mut m = lit_bytes("unknown command '");
            append_bytes(&mut m, &strings[0]);
            m.push(39);
            proof {
                assert(m@ =~= ascii("unknown command '"@) + args[0] + ascii("'"@));
            }
            Err(ParseError::UnrecognizedCmd(m))
        }
    }

    /// Parses a request frame into a command against the present
    /// instant, which only the expiry options of SET consult. The clock
    /// is read once.
    pub fn infer_command(frame: RESPType) -> (r: Result<Command, ParseError>)
        ensures
            exists|now: int|
                #[trigger] infer_post(frame_model(frame), now, infer_model(r)),
    {
        let now = crate::data_store::now_millis();
        let r = Command::infer_command_at(frame, now);
        proof {
            assert(infer_post(frame_model(frame), now as int, infer_model(r)));
        }
        r
    }

    /// Runs the command against the keyspace at time `now_ms` and shapes
    /// its reply frame.
    pub fn apply_at(self, store: &mut DataStore, now_ms: i64) -> (r: RESPType)
        requires
            old(store).wf(),
        ensures
            final(store).wf(),
            frame_wf(r),
            final(store)@ == spec_apply(old(store)@, command_model(self), now_ms as int).0,
            frame_model(r) == spec_apply(old(store)@, command_model(self), now_ms as int).1,
    {
        match self {
            Command::Ping(c) => c.apply(),
            Command::Echo(c) => c.apply(),
            Command::SetCmd(c) => c.apply(store, now_ms),
            Command::Get(c) => c.apply(store, now_ms),
            Command::Exists(c) => c.apply(store),
            Command::Del(c) => c.apply(store),
            Command::Incr(c) => c.apply(store),
            Command::Decr(c) => c.apply(store),
            Command::Lpush(c) => c.apply(store),
            Command::Lrange(c) => c.apply(store),
            Command::Rpush(c) => c.apply(store),
        }
    }
}

/// The model of a command parse outcome.
pub open spec fn infer_model(r: Result<Command, ParseError>) -> Result<CommandModel, ErrorModel> {
    match r {
        Ok(c) => Ok(command_model(c)),
        Err(e) => Err(err_model(e)),
    }
}

/// How a command parse outcome relates to the request frame at time
/// `now`.
pub open spec fn infer_post(
    fm: FrameModel,
    now: int,
    r: Result<CommandModel, ErrorModel>,
) -> bool {
    spec_parse_command(fm, now) == r
}

/// Serves one request frame against the keyspace at time `now_ms`:
/// parses it, runs the command, and shapes the reply, turning a parse
/// error into an error frame.
pub fn handle_frame_at(store: &mut DataStore, frame: RESPType, now_ms: i64) -> (r: RESPType)
    requires
        old(store).wf(),
    ensures
        final(store).wf(),
        frame_wf(r),
        final(store)@ == spec_handle(old(store)@, frame_model(frame), now_ms as int).0,
        frame_model(r) == spec_handle(old(store)@, frame_model(frame), now_ms as int).1,
{
    match Command::infer_command_at(frame, now_ms) {
        Ok(c) => c.apply_at(store, now_ms),
        Err(e) => error_frame(e),
    }
}

/// Serves one request frame against the present instant. The clock is
/// read once, so the whole request is served at a single instant.
pub fn handle_frame(store: &mut DataStore, frame: RESPType) -> (r: RESPType)
    requires
        old(store).wf(),
    ensures
        final(store).wf(),
        frame_wf(r),
        exists|now: int|
            #[trigger] handle_post(
                old(store)@,
                frame_model(frame),
                now,
                final(store)@,
                frame_model(r),
            ),
{
    let now = crate::data_store::now_millis();
    let r = handle_frame_at(store, frame, now);
    proof {
        assert(handle_post(old(store)@, frame_model(frame), now as int, store@, frame_model(r)));
    }
    r
}

} // verus!
