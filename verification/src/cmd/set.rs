//! The SET command: store a string value under a key, with conditional
//! flags, an optional fetch of the prior value, and an optional expiry.

use vstd::prelude::*;

use crate::cmd::{err_model, error_frame, msg_ok, spec_set_reply, ErrorModel, ParseError};
use crate::data_store::{
    clamp_i64, dur_model, spec_set, value_model, DataStore, DataType, ValueModel,
};
use crate::numbers::{parse_i64, spec_parse_i64};
use crate::protocol_handler::{frame_model, frame_wf, BulkStringData, FrameModel, RESPType};
use crate::text::{
    append_bytes, ascii, bytes_seq, clone_bytes, lit_bytes, spec_blank_crlf,
};

verus! {

/// `SET key value [NX | XX] [GET] [EX s | PX ms | EXAT s | PXAT ms]`.
#[derive(Debug)]
pub struct SetCmd {
    pub key: Vec<u8>,
    pub value: DataType,
    /// Expiry duration in milliseconds from the moment of parsing, if an
    /// expiry option was given.
    pub duration: Option<i64>,
    pub nx: bool,
    pub xx: bool,
    pub get: bool,
}

/// The model of a SET command.
pub struct SetModel {
    pub key: Seq<u8>,
    pub value: ValueModel,
    pub duration: Option<int>,
    pub nx: bool,
    pub xx: bool,
    pub get: bool,
}

/// The model of a concrete SET command.
pub open spec fn set_model(c: SetCmd) -> SetModel {
    SetModel {
        key: c.key@,
        value: value_model(c.value),
        duration: dur_model(c.duration),
        nx: c.nx,
        xx: c.xx,
        get: c.get,
    }
}

/// The state the option scan carries.
pub struct SetOpts {
    pub duration: Option<int>,
    pub nx: bool,
    pub xx: bool,
    pub get: bool,
}

/// The expiry duration in milliseconds an expiry option denotes at time
/// `now`: `EX` counts seconds from now, `PX` milliseconds from now,
/// `EXAT` an absolute instant in seconds, `PXAT` an absolute instant in
/// milliseconds; out-of-range results saturate.
pub open spec fn spec_duration_ms(opt: Seq<u8>, t: int, now: int) -> int {
    if opt == ascii("EX"@) {
        clamp_i64(t * 1000)
    } else if opt == ascii("PX"@) {
        t
    } else if opt == ascii("EXAT"@) {
        clamp_i64(t * 1000 - now)
    } else {
        clamp_i64(t - now)
    }
}

/// The option scan over the arguments after `SET key value`: `NX` and
/// `XX` exclude one another and repetition, `GET` may appear once, one
/// expiry option may appear with a following integer, and unknown
/// tokens are ignored.
pub open spec fn spec_set_opts(args: Seq<Seq<u8>>, i: int, st: SetOpts, now: int) -> Result<
    SetOpts,
    ErrorModel,
>
    decreases args.len() - i,
{
    if i >= args.len() {
        Ok(st)
    } else {
        let a = args[i];
        if a == ascii("NX"@) || a == ascii("XX"@) {
            if st.nx || st.xx {
                Err(ErrorModel::Syntax(ascii("NX/XX syntax error"@)))
            } else {
                spec_set_opts(
                    args,
                    i + 1,
                    SetOpts {
                        duration: st.duration,
                        nx: st.nx || a == ascii("NX"@),
                        xx: st.xx || a == ascii("XX"@),
                        get: st.get,
                    },
                    now,
                )
            }
        } else if a == ascii("GET"@) {
            if st.get {
                Err(ErrorModel::Syntax(ascii("syntax error"@)))
            } else {
                spec_set_opts(
                    args,
                    i + 1,
                    SetOpts { duration: st.duration, nx: st.nx, xx: st.xx, get: true },
                    now,
                )
            }
        } else if a == ascii("EX"@) || a == ascii("PX"@) || a == ascii("EXAT"@) || a == ascii(
            "PXAT"@,
        ) {
            if i + 1 >= args.len() {
                Err(ErrorModel::Syntax(ascii("syntax error"@)))
            } else if st.duration is Some {
                Err(ErrorModel::Syntax(a + ascii(" syntax error"@)))
            } else {
                match spec_parse_i64(args[i + 1]) {
                    None => Err(ErrorModel::Syntax(a + ascii(" syntax error"@))),
                    Some(t) => spec_set_opts(
                        args,
                        i + 2,
                        SetOpts {
                            duration: Some(spec_duration_ms(a, t, now)),
                            nx: st.nx,
                            xx: st.xx,
                            get: st.get,
                        },
                        now,
                    ),
                }
            }
        } else {
            spec_set_opts(args, i + 1, st, now)
        }
    }
}

/// What parsing SET at time `now` accepts: a key, a value, then the
/// option scan.
pub open spec fn spec_parse_set(args: Seq<Seq<u8>>, now: int) -> Result<SetModel, ErrorModel> {
    if args.len() < 3 {
        Err(ErrorModel::Syntax(ascii("ERR wrong number of arguments for 'set' command"@)))
    } else {
        match spec_set_opts(
            args,
            3,
            SetOpts { duration: None, nx: false, xx: false, get: false },
            now,
        ) {
            Err(e) => Err(e),
            Ok(st) => Ok(
                SetModel {
                    key: args[1],
                    value: ValueModel::Str(args[2]),
                    duration: st.duration,
                    nx: st.nx,
                    xx: st.xx,
                    get: st.get,
                },
            ),
        }
    }
}

/// Clamps a wide intermediate value into the signed 64-bit range.
fn clamp128(v: i128) -> (r: i64)
    ensures
        r as int == clamp_i64(v as int),
{
    if v < -9223372036854775808i128 {
        i64::MIN
    } else if v > 9223372036854775807i128 {
        i64::MAX
    } else {
        v as i64
    }
}

impl SetCmd {
    /// Creates the command.
    pub fn new(
        key: Vec<u8>,
        value: DataType,
        duration: Option<i64>,
        nx: bool,
        xx: bool,
        get: bool,
    ) -> (r: SetCmd)
        ensures
            r.key@ == key@,
            value_model(r.value) == value_model(value),
            r.duration == duration,
            r.nx == nx,
            r.xx == xx,
            r.get == get,
    {
        SetCmd { key, value, duration, nx, xx, get }
    }

    /// Parses `SET key value [options]`, resolving expiry options
    /// against the instant `now_ms`.
    #[verifier::loop_isolation(false)]
    pub fn parse_at(cmd_strings: Vec<Vec<u8>>, now_ms: i64) -> (r: Result<SetCmd, ParseError>)
        ensures
            match r {
                Ok(c) => spec_parse_set(bytes_seq(cmd_strings@), now_ms as int) == Ok::<
                    SetModel,
                    ErrorModel,
                >(set_model(c)),
                Err(e) => spec_parse_set(bytes_seq(cmd_strings@), now_ms as int) == Err::<
                    SetModel,
                    ErrorModel,
                >(err_model(e)),
            },
    {
        let n = cmd_strings.len();
        if n < 3 {
            proof {
                reveal_strlit("ERR wrong number of arguments for 'set' command");
            }
            return Err(
                ParseError::SyntaxError(
                    lit_bytes("ERR wrong number of arguments for 'set' command"),
                ),
            );
        }
        let ghost args = bytes_seq(cmd_strings@);
        let mut duration: Option<i64> = None;
        let mut nx: bool = false;
        let mut xx: bool = false;
        let mut getf: bool = false;
        let mut i: usize = 3;
        proof {
            reveal_strlit("NX");
            reveal_strlit("XX");
            reveal_strlit("GET");
            reveal_strlit("EX");
            reveal_strlit("PX");
            reveal_strlit("EXAT");
            reveal_strlit("PXAT");
            reveal_strlit("NX/XX syntax error");
            reveal_strlit("syntax error");
            reveal_strlit(" syntax error");
        }
        while i < n
            invariant
                3 <= i,
                i <= n + 1,
                n == args.len(),
                n == cmd_strings@.len(),
                args == bytes_seq(cmd_strings@),
                spec_set_opts(
                    args,
                    3,
                    SetOpts { duration: None, nx: false, xx: false, get: false },
                    now_ms as int,
                ) == spec_set_opts(
                    args,
                    i as int,
                    SetOpts { duration: dur_model(duration), nx, xx, get: getf },
                    now_ms as int,
                ),
            decreases n - i,
        {
            proof {
                reveal_strlit("NX");
                reveal_strlit("XX");
                reveal_strlit("GET");
                reveal_strlit("EX");
                reveal_strlit("PX");
                reveal_strlit("EXAT");
                reveal_strlit("PXAT");
                reveal_strlit("NX/XX syntax error");
                reveal_strlit("syntax error");
                reveal_strlit(" syntax error");
                assert(args[i as int] == cmd_strings@[i as int]@);
                if i + 1 < n {
                    assert(args[i + 1] == cmd_strings@[i + 1]@);
                }
            }
            let ghost st0 = SetOpts { duration: dur_model(duration), nx, xx, get: getf };
            let ghost i0 = i as int;
            let is_nx = crate::numbers::bytes_eq(&cmd_strings[i], &lit_bytes("NX"));
            let is_xx = crate::numbers::bytes_eq(&cmd_strings[i], &lit_bytes("XX"));
            let is_get = crate::numbers::bytes_eq(&cmd_strings[i], &lit_bytes("GET"));
            let is_ex = crate::numbers::bytes_eq(&cmd_strings[i], &lit_bytes("EX"));
            let is_px = crate::numbers::bytes_eq(&cmd_strings[i], &lit_bytes("PX"));
            let is_exat = crate::numbers::bytes_eq(&cmd_strings[i], &lit_bytes("EXAT"));
            let is_pxat = crate::numbers::bytes_eq(&cmd_strings[i], &lit_bytes("PXAT"));
            if is_nx || is_xx {
                if nx || xx {
                    return Err(ParseError::SyntaxError(lit_bytes("NX/XX syntax error")));
                }
                if is_nx {
                    nx = true;
                } else {
                    xx = true;
                }
                i = i + 1;
                proof {
                    reveal_strlit("NX");
                    reveal_strlit("XX");
                    assert(ascii("NX"@)[0] == 78);
                    assert(ascii("XX"@)[0] == 88);
                    assert(ascii("NX"@) != ascii("XX"@));
                    assert(spec_set_opts(args, i0, st0, now_ms as int) == spec_set_opts(
                        args,
                        i as int,
                        SetOpts { duration: dur_model(duration), nx, xx, get: getf },
                        now_ms as int,
                    ));
                }
            } else if is_get {
                if getf {
                    return Err(ParseError::SyntaxError(lit_bytes("syntax error")));
                }
                getf = true;
                i = i + 1;
                proof {
                    assert(spec_set_opts(args, i0, st0, now_ms as int) == spec_set_opts(
                        args,
                        i as int,
                        SetOpts { duration: dur_model(duration), nx, xx, get: getf },
                        now_ms as int,
                    ));
                }
            } else if is_ex || is_px || is_exat || is_pxat {
                if i + 1 >= n {
                    return Err(ParseError::SyntaxError(lit_bytes("syntax error")));
                }
                let dup = match duration {
                    Some(_) => true,
                    None => false,
                };
                if dup {
                    let mut m = clone_bytes(&cmd_strings[i]);
                    let suffix = lit_bytes(" syntax error");
                    append_bytes(&mut m, &suffix);
                    return Err(ParseError::SyntaxError(m));
                }
                match parse_i64(cmd_strings[i + 1].as_slice()) {
                    None => {
                        let mut m = clone_bytes(&cmd_strings[i]);
                        let suffix = lit_bytes(" syntax error");
                        append_bytes(&mut m, &suffix);
                        return Err(ParseError::SyntaxError(m));
                    },
                    Some(t) => {
                        let d: i64 = if is_ex {
                            clamp128((t as i128) * 1000)
                        } else if is_px {
                            t
                        } else if is_exat {
                            clamp128((t as i128) * 1000 - (now_ms as i128))
                        } else {
                            clamp128((t as i128) - (now_ms as i128))
                        };
                        proof {
                            assert(d as int == spec_duration_ms(
                                args[i as int],
                                t as int,
                                now_ms as int,
                            ));
                        }
                        duration = Some(d);
                        i = i + 2;
                        proof {
                            assert(spec_set_opts(args, i0, st0, now_ms as int) == spec_set_opts(
                                args,
                                i as int,
                                SetOpts { duration: dur_model(duration), nx, xx, get: getf },
                                now_ms as int,
                            ));
                        }
                    },
                }
            } else {
                i = i + 1;
                proof {
                    assert(spec_set_opts(args, i0, st0, now_ms as int) == spec_set_opts(
                        args,
                        i as int,
                        SetOpts { duration: dur_model(duration), nx, xx, get: getf },
                        now_ms as int,
                    ));
                }
            }
        }
        let mut v = cmd_strings;
        v.remove(0);
        let key = v.remove(0);
        let valb = v.remove(0);
        Ok(SetCmd { key, value: DataType::String(valb), duration, nx, xx, get: getf })
    }

    /// Parses `SET key value [options]` against the present instant. The
    /// clock is read once, so the outcome is that of `parse_at` at some
    /// single instant.
    pub fn parse(cmd_strings: Vec<Vec<u8>>) -> (r: Result<SetCmd, ParseError>)
        ensures
            exists|now: int|
                #[trigger] set_parse_post(bytes_seq(cmd_strings@), now, set_parse_model(r)),
    {
        let now = crate::data_store::now_millis();
        let r = SetCmd::parse_at(cmd_strings, now);
        proof {
            assert(set_parse_post(bytes_seq(cmd_strings@), now as int, set_parse_model(r)));
        }
        r
    }

    /// Runs SET against the keyspace at `now_ms` and shapes the reply:
    /// a confirmation, the prior value when `GET` was asked, or the
    /// typed error.
    pub fn apply(self, store: &mut DataStore, now_ms: i64) -> (r: RESPType)
        requires
            old(store).wf(),
        ensures
            final(store).wf(),
            frame_wf(r),
            ({
                match spec_set(
                    old(store)@,
                    self.key@,
                    value_model(self.value),
                    dur_model(self.duration),
                    self.nx,
                    self.xx,
                    now_ms as int,
                ) {
                    Ok(pair) => final(store)@ == pair.0 && frame_model(r) == spec_set_reply(
                        self.get,
                        pair.1,
                    ),
                    Err(e) => final(store)@ == old(store)@ && frame_model(r) == FrameModel::Error(
                        spec_blank_crlf(crate::cmd::err_model_text(e)),
                    ),
                }
            }),
    {
        let get_flag = self.get;
        match store.set_at(self.key, self.value, self.duration, self.nx, self.xx, now_ms) {
            Err(e) => error_frame(e),
            Ok(prior) => {
                if !get_flag {
                    RESPType::SimpleString(msg_ok())
                } else {
                    match prior {
                        None => RESPType::BulkString(None),
                        Some(v) => match v {
                            DataType::String(s) => {
                                let mut t: Vec<u8> = Vec::new();
                                t.push(34);
                                append_bytes(&mut t, &s);
                                t.push(34);
                                let len = t.len();
                                proof {
                                    assert(t@ =~= seq![34u8] + s@ + seq![34u8]);
                                }
                                RESPType::BulkString(
                                    Some(BulkStringData { text: t, prefix_length: len }),
                                )
                            },
                            DataType::List(_) => RESPType::SimpleString(msg_ok()),
                        },
                    }
                }
            },
        }
    }
}

/// The model of a SET parse outcome.
pub open spec fn set_parse_model(r: Result<SetCmd, ParseError>) -> Result<SetModel, ErrorModel> {
    match r {
        Ok(c) => Ok(set_model(c)),
        Err(e) => Err(err_model(e)),
    }
}

/// How a SET parse outcome relates to the arguments at time `now`.
pub open spec fn set_parse_post(
    args: Seq<Seq<u8>>,
    now: int,
    r: Result<SetModel, ErrorModel>,
) -> bool {
    spec_parse_set(args, now) == r
}

} // verus!
