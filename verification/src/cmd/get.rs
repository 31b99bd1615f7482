//! The GET command: fetch the string value stored at a key.

use vstd::prelude::*;

use crate::cmd::{err_model, spec_get_reply, ErrorModel, ParseError};
use crate::data_store::{opt_value_model, spec_get, DataStore, DataType};
use crate::protocol_handler::{frame_model, frame_wf, BulkStringData, RESPType};
use crate::text::{ascii, bytes_seq, lit_bytes};

verus! {

/// `GET key`.
#[derive(Debug)]
pub struct Get {
    pub key: Vec<u8>,
}

/// What parsing GET accepts: exactly one key.
pub open spec fn spec_parse_get(args: Seq<Seq<u8>>) -> Result<Seq<u8>, ErrorModel> {
    if args.len() != 2 {
        Err(ErrorModel::Syntax(ascii("wrong number of arguments for 'get' command"@)))
    } else {
        Ok(args[1])
    }
}

impl Get {
    /// Creates the command.
    pub fn new(key: Vec<u8>) -> (r: Get)
        ensures
            r.key@ == key@,
    {
        Get { key }
    }

    /// Parses `GET key`.
    pub fn parse(cmd_strings: Vec<Vec<u8>>) -> (r: Result<Get, ParseError>)
        ensures
            match r {
                Ok(c) => spec_parse_get(bytes_seq(cmd_strings@)) == Ok::<Seq<u8>, ErrorModel>(
                    c.key@,
                ),
                Err(e) => spec_parse_get(bytes_seq(cmd_strings@)) == Err::<Seq<u8>, ErrorModel>(
                    err_model(e),
                ),
            },
    {
        if cmd_strings.len() != 2 {
            proof {
                reveal_strlit("wrong number of arguments for 'get' command");
            }
            return Err(
                ParseError::SyntaxError(lit_bytes("wrong number of arguments for 'get' command")),
            );
        }
        let mut v = cmd_strings;
        let key = v.remove(1);
        Ok(Get { key })
    }

    /// Runs GET against the keyspace at `now_ms` (reaping the key if its
    /// expiry has passed) and shapes the reply: the stored string as a
    /// bulk, or the null bulk when the key is absent, expired, or holds a
    /// non-string value.
    pub fn apply(self, store: &mut DataStore, now_ms: i64) -> (r: RESPType)
        requires
            old(store).wf(),
        ensures
            final(store).wf(),
            final(store)@ == spec_get(old(store)@, self.key@, now_ms as int).0,
            frame_model(r) == spec_get_reply(spec_get(old(store)@, self.key@, now_ms as int).1),
            frame_wf(r),
    {
        let result = store.get_at(self.key, now_ms);
        match result {
            Some(v) => match v {
                DataType::String(s) => {
                    let n = s.len();
                    RESPType::BulkString(Some(BulkStringData { text: s, prefix_length: n }))
                },
                DataType::List(_) => RESPType::BulkString(None),
            },
            None => RESPType::BulkString(None),
        }
    }
}

} // verus!
