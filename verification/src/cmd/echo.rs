//! The ECHO command: returns its argument.

use vstd::prelude::*;

use crate::cmd::{err_model, quoted, spec_echo_reply, ErrorModel, ParseError};
use crate::protocol_handler::{frame_model, frame_wf, RESPType};
use crate::text::{ascii, bytes_seq, lit_bytes};

verus! {

/// `ECHO message`.
#[derive(Debug)]
pub struct Echo {
    pub msg: Vec<u8>,
}

/// What parsing ECHO accepts: exactly one argument.
pub open spec fn spec_parse_echo(args: Seq<Seq<u8>>) -> Result<Seq<u8>, ErrorModel> {
    if args.len() == 2 {
        Ok(args[1])
    } else {
        Err(ErrorModel::Syntax(ascii("ERR wrong number of arguments for 'echo' command"@)))
    }
}

impl Echo {
    /// Creates the command.
    pub fn new(msg: Vec<u8>) -> (r: Echo)
        ensures
            r.msg@ == msg@,
    {
        Echo { msg }
    }

    /// Parses `ECHO message`.
    pub fn parse(cmd_strings: Vec<Vec<u8>>) -> (r: Result<Echo, ParseError>)
        ensures
            match r {
                Ok(c) => spec_parse_echo(bytes_seq(cmd_strings@)) == Ok::<Seq<u8>, ErrorModel>(
                    c.msg@,
                ),
                Err(e) => spec_parse_echo(bytes_seq(cmd_strings@)) == Err::<Seq<u8>, ErrorModel>(
                    err_model(e),
                ),
            },
    {
        if cmd_strings.len() != 2 {
            proof {
                reveal_strlit("ERR wrong number of arguments for 'echo' command");
            }
            return Err(
                ParseError::SyntaxError(
                    lit_bytes("ERR wrong number of arguments for 'echo' command"),
                ),
            );
        }
        let mut v = cmd_strings;
        let m = v.remove(1);
        Ok(Echo { msg: m })
    }

    /// Shapes the ECHO reply: the quoted message.
    pub fn apply(self) -> (r: RESPType)
        ensures
            frame_model(r) == spec_echo_reply(self.msg@),
            frame_wf(r),
    {
        RESPType::SimpleString(quoted(&self.msg))
    }
}

} // verus!
