//! The LRANGE command: read a slice of the list at a key.

use vstd::prelude::*;

use crate::cmd::{error_frame, err_model, spec_lrange_reply, ErrorModel, ParseError};
use crate::data_store::{spec_lrange, DataStore};
use crate::numbers::{parse_i64, spec_parse_i64};
use crate::protocol_handler::{frame_model, frame_wf, BulkStringData, FrameModel, RESPType};
use crate::text::{ascii, bytes_seq, lit_bytes, spec_blank_crlf};

verus! {

/// `LRANGE key start stop`.
#[derive(Debug)]
pub struct Lrange {
    pub key: Vec<u8>,
    pub start: i64,
    pub stop: i64,
}

/// What parsing LRANGE accepts: a key and two indices that read as
/// signed 64-bit decimal integers.
pub open spec fn spec_parse_lrange(args: Seq<Seq<u8>>) -> Result<(Seq<u8>, int, int), ErrorModel> {
    if args.len() != 4 {
        Err(ErrorModel::Syntax(ascii("ERR wrong number of arguments for 'lrange' command"@)))
    } else {
        match spec_parse_i64(args[2]) {
            None => Err(ErrorModel::Syntax(ascii("ERR start index is not an integer"@))),
            Some(start) => match spec_parse_i64(args[3]) {
                None => Err(ErrorModel::Syntax(ascii("ERR stop index is not an integer"@))),
                Some(stop) => Ok((args[1], start, stop)),
            },
        }
    }
}

impl Lrange {
    /// Creates the command.
    pub fn new(key: Vec<u8>, start: i64, stop: i64) -> (r: Lrange)
        ensures
            r.key@ == key@,
            r.start == start,
            r.stop == stop,
    {
        Lrange { key, start, stop }
    }

    /// Parses `LRANGE key start stop`.
    pub fn parse(cmd_strings: Vec<Vec<u8>>) -> (r: Result<Lrange, ParseError>)
        ensures
            match r {
                Ok(c) => spec_parse_lrange(bytes_seq(cmd_strings@)) == Ok::<
                    (Seq<u8>, int, int),
                    ErrorModel,
                >((c.key@, c.start as int, c.stop as int)),
                Err(e) => spec_parse_lrange(bytes_seq(cmd_strings@)) == Err::<
                    (Seq<u8>, int, int),
                    ErrorModel,
                >(err_model(e)),
            },
    {
        if cmd_strings.len() != 4 {
            proof {
                reveal_strlit("ERR wrong number of arguments for 'lrange' command");
            }
            return Err(
                ParseError::SyntaxError(
                    lit_bytes("ERR wrong number of arguments for 'lrange' command"),
                ),
            );
        }
        let start = match parse_i64(cmd_strings[2].as_slice()) {
            Some(v) => v,
            None => {
                proof {
                    reveal_strlit("ERR start index is not an integer");
                }
                return Err(
                    ParseError::SyntaxError(lit_bytes("ERR start index is not an integer")),
                );
            },
        };
        let stop = match parse_i64(cmd_strings[3].as_slice()) {
            Some(v) => v,
            None => {
                proof {
                    reveal_strlit("ERR stop index is not an integer");
                }
                return Err(
                    ParseError::SyntaxError(lit_bytes("ERR stop index is not an integer")),
                );
            },
        };
        let mut v = cmd_strings;
        let key = v.remove(1);
        Ok(Lrange { key, start, stop })
    }

    /// Reads the requested slice and shapes the reply: an array of bulk
    /// strings, or the typed error.
    pub fn apply(self, store: &DataStore) -> (r: RESPType)
        requires
            store.wf(),
        ensures
            frame_wf(r),
            ({
                match spec_lrange(store@, self.key@, self.start as int, self.stop as int) {
                    Ok(items) => frame_model(r) == spec_lrange_reply(items),
                    Err(e) => frame_model(r) == FrameModel::Error(
                        spec_blank_crlf(crate::cmd::err_model_text(e)),
                    ),
                }
            }),
    {
        match store.lrange(self.key, self.start, self.stop) {
            Err(e) => error_frame(e),
            Ok(items) => {
                let ghost items_model = crate::text::bytes_seq(items@);
                let mut out: Vec<RESPType> = Vec::new();
                let src = items;
                let n = src.len();
                let mut i: usize = 0;
                while i < n
                    invariant
                        0 <= i <= n,
                        n == src@.len(),
                        items_model == crate::text::bytes_seq(src@),
                        out@.len() == i,
                        forall|q: int|
                            0 <= q < i ==> #[trigger] frame_model(out@[q]) == FrameModel::Bulk(
                                Some(items_model[q]),
                            ) && frame_wf(out@[q]),
                    decreases n - i,
                {
                    let b = crate::text::clone_bytes(&src[i]);
                    let len = b.len();
                    out.push(
                        RESPType::BulkString(Some(BulkStringData { text: b, prefix_length: len })),
                    );
                    i = i + 1;
                }
                proof {
                    crate::protocol_handler::lemma_frame_models_index(out@);
                    let mapped = items_model.map_values(|s: Seq<u8>| FrameModel::Bulk(Some(s)));
                    assert(crate::protocol_handler::frame_models(out@).len() == mapped.len());
                    assert forall|q: int|
                        0 <= q < out@.len() implies crate::protocol_handler::frame_models(out@)[q]
                        == mapped[q] by {
                        assert(crate::protocol_handler::frame_model(out@[q]) == FrameModel::Bulk(
                            Some(items_model[q]),
                        ));
                    }
                    assert(crate::protocol_handler::frame_models(out@) =~= mapped);
                }
                RESPType::Array(out)
            },
        }
    }
}

} // verus!
