//! The RPUSH command: append elements to the back of the list at a key.

use vstd::prelude::*;

use crate::cmd::{error_frame, err_model, ErrorModel, ParseError};
use crate::data_store::{spec_push, DataStore};
use crate::protocol_handler::{frame_model, frame_wf, FrameModel, RESPType};
use crate::text::{ascii, bytes_seq, lit_bytes, spec_blank_crlf};

verus! {

/// `RPUSH key element [element ...]`.
#[derive(Debug)]
pub struct Rpush {
    pub key: Vec<u8>,
    pub elements: Vec<Vec<u8>>,
}

/// What parsing RPUSH accepts: a key and at least one element.
pub open spec fn spec_parse_rpush(args: Seq<Seq<u8>>) -> Result<
    (Seq<u8>, Seq<Seq<u8>>),
    ErrorModel,
> {
    if args.len() < 3 {
        Err(ErrorModel::Syntax(ascii("ERR wrong number of arguments for 'rpush' command"@)))
    } else {
        Ok((args[1], args.skip(2)))
    }
}

impl Rpush {
    /// Creates the command.
    pub fn new(key: Vec<u8>, elements: Vec<Vec<u8>>) -> (r: Rpush)
        ensures
            r.key@ == key@,
            bytes_seq(r.elements@) == bytes_seq(elements@),
    {
        Rpush { key, elements }
    }

    /// Parses `RPUSH key element [element ...]`.
    pub fn parse(cmd_strings: Vec<Vec<u8>>) -> (r: Result<Rpush, ParseError>)
        ensures
            match r {
                Ok(c) => spec_parse_rpush(bytes_seq(cmd_strings@)) == Ok::<
                    (Seq<u8>, Seq<Seq<u8>>),
                    ErrorModel,
                >((c.key@, bytes_seq(c.elements@))),
                Err(e) => spec_parse_rpush(bytes_seq(cmd_strings@)) == Err::<
                    (Seq<u8>, Seq<Seq<u8>>),
                    ErrorModel,
                >(err_model(e)),
            },
    {
        if cmd_strings.len() < 3 {
            proof {
                reveal_strlit("ERR wrong number of arguments for 'rpush' command");
            }
            return Err(
                ParseError::SyntaxError(
                    lit_bytes("ERR wrong number of arguments for 'rpush' command"),
                ),
            );
        }
        let ghost args0 = bytes_seq(cmd_strings@);
        let mut v = cmd_strings;
        v.remove(0);
        let key = v.remove(0);
        proof {
            assert(bytes_seq(v@) =~= args0.skip(2));
        }
        Ok(Rpush { key, elements: v })
    }

    /// Appends the elements to the back of the list in order and shapes
    /// the reply: the new list length, or the typed error.
    pub fn apply(self, store: &mut DataStore) -> (r: RESPType)
        requires
            old(store).wf(),
        ensures
            final(store).wf(),
            frame_wf(r),
            ({
                match spec_push(old(store)@, self.key@, bytes_seq(self.elements@), false) {
                    Ok(pair) => final(store)@ == pair.0 && frame_model(r) == FrameModel::Integer(
                        pair.1,
                    ),
                    Err(e) => final(store)@ == old(store)@ && frame_model(r) == FrameModel::Error(
                        spec_blank_crlf(crate::cmd::err_model_text(e)),
                    ),
                }
            }),
    {
        match store.rpush(self.key, self.elements) {
            Ok(v) => RESPType::Integer(v),
            Err(e) => error_frame(e),
        }
    }
}

} // verus!
