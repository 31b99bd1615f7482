//! The DEL command: remove the named keys.

use vstd::prelude::*;

use crate::cmd::{clamp_count, err_model, ErrorModel, ParseError};
use crate::data_store::{clamp_i64, spec_del, DataStore};
use crate::protocol_handler::{frame_model, frame_wf, FrameModel, RESPType};
use crate::text::{ascii, bytes_seq, lit_bytes};

verus! {

/// `DEL key [key ...]`.
#[derive(Debug)]
pub struct Del {
    pub keys: Vec<Vec<u8>>,
}

/// What parsing DEL accepts: at least one key; all arguments after the
/// command name are keys.
pub open spec fn spec_parse_del(args: Seq<Seq<u8>>) -> Result<Seq<Seq<u8>>, ErrorModel> {
    if args.len() < 2 {
        Err(ErrorModel::Syntax(ascii("ERR wrong number of arguments for 'del' command"@)))
    } else {
        Ok(args.skip(1))
    }
}

impl Del {
    /// Creates the command.
    pub fn new(keys: Vec<Vec<u8>>) -> (r: Del)
        ensures
            bytes_seq(r.keys@) == bytes_seq(keys@),
    {
        Del { keys }
    }

    /// Parses `DEL key [key ...]`.
    pub fn parse(cmd_strings: Vec<Vec<u8>>) -> (r: Result<Del, ParseError>)
        ensures
            match r {
                Ok(c) => spec_parse_del(bytes_seq(cmd_strings@)) == Ok::<Seq<Seq<u8>>, ErrorModel>(
                    bytes_seq(c.keys@),
                ),
                Err(e) => spec_parse_del(bytes_seq(cmd_strings@)) == Err::<
                    Seq<Seq<u8>>,
                    ErrorModel,
                >(err_model(e)),
            },
    {
        if cmd_strings.len() < 2 {
            proof {
                reveal_strlit("ERR wrong number of arguments for 'del' command");
            }
            return Err(
                ParseError::SyntaxError(
                    lit_bytes("ERR wrong number of arguments for 'del' command"),
                ),
            );
        }
        let ghost args0 = bytes_seq(cmd_strings@);
        let mut v = cmd_strings;
        v.remove(0);
        proof {
            assert(bytes_seq(v@) =~= args0.skip(1));
        }
        Ok(Del { keys: v })
    }

    /// Removes the keys and shapes the integer reply with the count of
    /// keys that were present.
    pub fn apply(self, store: &mut DataStore) -> (r: RESPType)
        requires
            old(store).wf(),
        ensures
            final(store).wf(),
            final(store)@ == spec_del(old(store)@, bytes_seq(self.keys@)).0,
            frame_model(r) == FrameModel::Integer(
                clamp_i64(spec_del(old(store)@, bytes_seq(self.keys@)).1),
            ),
            frame_wf(r),
    {
        let n = store.del(self.keys);
        RESPType::Integer(clamp_count(n))
    }
}

} // verus!
