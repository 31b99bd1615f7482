//! The PING command: a liveness check, optionally echoing a message.

use vstd::prelude::*;

use crate::cmd::{err_model, msg_pong, quoted, spec_ping_reply, ErrorModel, ParseError};
use crate::protocol_handler::{frame_model, frame_wf, RESPType};
use crate::text::{ascii, bytes_seq, lit_bytes};

verus! {

/// `PING [message]`.
#[derive(Debug)]
pub struct Ping {
    pub msg: Option<Vec<u8>>,
}

/// The model of the optional message.
pub open spec fn opt_bytes_model(v: Option<Vec<u8>>) -> Option<Seq<u8>> {
    match v {
        None => None,
        Some(b) => Some(b@),
    }
}

/// What parsing PING accepts: at most one argument, which becomes the
/// message to echo.
pub open spec fn spec_parse_ping(args: Seq<Seq<u8>>) -> Result<Option<Seq<u8>>, ErrorModel> {
    if args.len() > 2 {
        Err(ErrorModel::Syntax(ascii("wrong number of arguments for 'ping' command"@)))
    } else if args.len() == 2 {
        Ok(Some(args[1]))
    } else {
        Ok(None)
    }
}

impl Ping {
    /// Creates the command.
    pub fn new(msg: Option<Vec<u8>>) -> (r: Ping)
        ensures
            opt_bytes_model(r.msg) == opt_bytes_model(msg),
    {
        Ping { msg }
    }

    /// Parses `PING [message]`.
    pub fn parse(cmd_strings: Vec<Vec<u8>>) -> (r: Result<Ping, ParseError>)
        ensures
            match r {
                Ok(c) => spec_parse_ping(bytes_seq(cmd_strings@)) == Ok::<
                    Option<Seq<u8>>,
                    ErrorModel,
                >(opt_bytes_model(c.msg)),
                Err(e) => spec_parse_ping(bytes_seq(cmd_strings@)) == Err::<
                    Option<Seq<u8>>,
                    ErrorModel,
                >(err_model(e)),
            },
    {
        if cmd_strings.len() > 2 {
            proof {
                reveal_strlit("wrong number of arguments for 'ping' command");
            }
            return Err(
                ParseError::SyntaxError(lit_bytes("wrong number of arguments for 'ping' command")),
            );
        }
        if cmd_strings.len() == 2 {
            let mut v = cmd_strings;
            let m = v.remove(1);
            Ok(Ping { msg: Some(m) })
        } else {
            Ok(Ping { msg: None })
        }
    }

    /// Shapes the PING reply: the fixed greeting, or the quoted message.
    pub fn apply(self) -> (r: RESPType)
        ensures
            frame_model(r) == spec_ping_reply(opt_bytes_model(self.msg)),
            frame_wf(r),
    {
        match self.msg {
            None => RESPType::SimpleString(msg_pong()),
            Some(m) => RESPType::SimpleString(quoted(&m)),
        }
    }
}

} // verus!
