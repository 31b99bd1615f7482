//! The EXISTS command: count how many of the named keys are present.

use vstd::prelude::*;

use crate::cmd::{clamp_count, err_model, ErrorModel, ParseError};
use crate::data_store::{clamp_i64, spec_exists, DataStore};
use crate::protocol_handler::{frame_model, frame_wf, FrameModel, RESPType};
use crate::text::{ascii, bytes_seq, lit_bytes};

verus! {

/// `EXISTS key [key ...]`.
#[derive(Debug)]
pub struct Exists {
    pub keys: Vec<Vec<u8>>,
}

/// What parsing EXISTS accepts: at least one key; all arguments after
/// the command name are keys.
pub open spec fn spec_parse_exists(args: Seq<Seq<u8>>) -> Result<Seq<Seq<u8>>, ErrorModel> {
    if args.len() < 2 {
        Err(ErrorModel::Syntax(ascii("ERR wrong number of arguments for 'exists' command"@)))
    } else {
        Ok(args.skip(1))
    }
}

impl Exists {
    /// Creates the command.
    pub fn new(keys: Vec<Vec<u8>>) -> (r: Exists)
        ensures
            bytes_seq(r.keys@) == bytes_seq(keys@),
    {
        Exists { keys }
    }

    /// Parses `EXISTS key [key ...]`.
    pub fn parse(cmd_strings: Vec<Vec<u8>>) -> (r: Result<Exists, ParseError>)
        ensures
            match r {
                Ok(c) => spec_parse_exists(bytes_seq(cmd_strings@)) == Ok::<
                    Seq<Seq<u8>>,
                    ErrorModel,
                >(bytes_seq(c.keys@)),
                Err(e) => spec_parse_exists(bytes_seq(cmd_strings@)) == Err::<
                    Seq<Seq<u8>>,
                    ErrorModel,
                >(err_model(e)),
            },
    {
        if cmd_strings.len() < 2 {
            proof {
                reveal_strlit("ERR wrong number of arguments for 'exists' command");
            }
            return Err(
                ParseError::SyntaxError(
                    lit_bytes("ERR wrong number of arguments for 'exists' command"),
                ),
            );
        }
        let ghost args0 = bytes_seq(cmd_strings@);
        let mut v = cmd_strings;
        v.remove(0);
        proof {
            assert(bytes_seq(v@) =~= args0.skip(1));
        }
        Ok(Exists { keys: v })
    }

    /// Counts the present keys and shapes the integer reply.
    pub fn apply(self, store: &DataStore) -> (r: RESPType)
        requires
            store.wf(),
        ensures
            frame_model(r) == FrameModel::Integer(
                clamp_i64(spec_exists(store@, bytes_seq(self.keys@))),
            ),
            frame_wf(r),
    {
        let n = store.exists_count(self.keys);
        RESPType::Integer(clamp_count(n))
    }
}

} // verus!
