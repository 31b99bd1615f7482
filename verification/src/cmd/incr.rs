//! The INCR command: add one to the counter at a key.

use vstd::prelude::*;

use crate::cmd::{error_frame, err_model, ErrorModel, ParseError};
use crate::data_store::{spec_adjust, DataStore};
use crate::protocol_handler::{frame_model, frame_wf, FrameModel, RESPType};
use crate::text::{ascii, bytes_seq, lit_bytes, spec_blank_crlf};

verus! {

/// `INCR key`.
#[derive(Debug)]
pub struct Incr {
    pub key: Vec<u8>,
}

/// What parsing INCR accepts: exactly one key.
pub open spec fn spec_parse_incr(args: Seq<Seq<u8>>) -> Result<Seq<u8>, ErrorModel> {
    if args.len() != 2 {
        Err(ErrorModel::Syntax(ascii("ERR wrong number of arguments for 'incr' command"@)))
    } else {
        Ok(args[1])
    }
}

impl Incr {
    /// Creates the command.
    pub fn new(key: Vec<u8>) -> (r: Incr)
        ensures
            r.key@ == key@,
    {
        Incr { key }
    }

    /// Parses `INCR key`.
    pub fn parse(cmd_strings: Vec<Vec<u8>>) -> (r: Result<Incr, ParseError>)
        ensures
            match r {
                Ok(c) => spec_parse_incr(bytes_seq(cmd_strings@)) == Ok::<Seq<u8>, ErrorModel>(
                    c.key@,
                ),
                Err(e) => spec_parse_incr(bytes_seq(cmd_strings@)) == Err::<Seq<u8>, ErrorModel>(
                    err_model(e),
                ),
            },
    {
        if cmd_strings.len() != 2 {
            proof {
                reveal_strlit("ERR wrong number of arguments for 'incr' command");
            }
            return Err(
                ParseError::SyntaxError(
                    lit_bytes("ERR wrong number of arguments for 'incr' command"),
                ),
            );
        }
        let mut v = cmd_strings;
        let key = v.remove(1);
        Ok(Incr { key })
    }

    /// Increments the counter and shapes the reply: the new value as an
    /// integer, or the typed error.
    pub fn apply(self, store: &mut DataStore) -> (r: RESPType)
        requires
            old(store).wf(),
        ensures
            final(store).wf(),
            frame_wf(r),
            ({
                match spec_adjust(old(store)@, self.key@, 1) {
                    Ok(pair) => final(store)@ == pair.0 && frame_model(r) == FrameModel::Integer(
                        pair.1,
                    ),
                    Err(e) => final(store)@ == old(store)@ && frame_model(r) == FrameModel::Error(
                        spec_blank_crlf(crate::cmd::err_model_text(e)),
                    ),
                }
            }),
    {
        match store.incr(self.key) {
            Ok(v) => RESPType::Integer(v),
            Err(e) => error_frame(e),
        }
    }
}

} // verus!
