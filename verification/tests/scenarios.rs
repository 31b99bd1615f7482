//! End-to-end scenarios: request bytes in, reply bytes out, through the
//! codec, the command parser, the keyspace, and the reply shaping.

use redust::cmd::handle_frame_at;
use redust::data_store::DataStore;
use redust::protocol_handler::{deserialize_buffer, serialize_data};

/// Serves one request from wire bytes at the given instant and returns
/// the reply's wire bytes.
fn serve(store: &mut DataStore, request: &[u8], now_ms: i64) -> Vec<u8> {
    let (frame, used) = deserialize_buffer(request);
    assert_eq!(used, request.len());
    let reply = handle_frame_at(store, frame.unwrap(), now_ms);
    serialize_data(&reply).unwrap()
}

#[test]
fn test_ping_round() {
    let mut store = DataStore::new();
    let reply = serve(&mut store, b"*1\r\n$4\r\nPING\r\n", 0);
    assert_eq!(reply, b"+\"PONG\"\r\n".to_vec());
}

#[test]
fn test_echo_round() {
    let mut store = DataStore::new();
    let reply = serve(&mut store, b"*2\r\n$4\r\nECHO\r\n$5\r\nhello\r\n", 0);
    assert_eq!(reply, b"+\"hello\"\r\n".to_vec());
}

#[test]
fn test_set_then_get_round() {
    let mut store = DataStore::new();
    let reply = serve(&mut store, b"*3\r\n$3\r\nSET\r\n$1\r\nk\r\n$1\r\nv\r\n", 0);
    assert_eq!(reply, b"+\"OK\"\r\n".to_vec());
    let reply = serve(&mut store, b"*2\r\n$3\r\nGET\r\n$1\r\nk\r\n", 0);
    assert_eq!(reply, b"$1\r\nv\r\n".to_vec());
}

#[test]
fn test_set_nx_xx_conflict_round() {
    let mut store = DataStore::new();
    let reply = serve(
        &mut store,
        b"*5\r\n$3\r\nSET\r\n$1\r\nk\r\n$1\r\nv\r\n$2\r\nNX\r\n$2\r\nXX\r\n",
        0,
    );
    assert_eq!(reply, b"-NX/XX syntax error\r\n".to_vec());
}

#[test]
fn test_lpush_then_lrange_round() {
    let mut store = DataStore::new();
    let reply = serve(
        &mut store,
        b"*4\r\n$5\r\nLPUSH\r\n$1\r\nL\r\n$1\r\na\r\n$1\r\nb\r\n",
        0,
    );
    assert_eq!(reply, b":2\r\n".to_vec());
    let reply = serve(
        &mut store,
        b"*4\r\n$6\r\nLRANGE\r\n$1\r\nL\r\n$1\r\n0\r\n$2\r\n-1\r\n",
        0,
    );
    assert_eq!(reply, b"*2\r\n$1\r\nb\r\n$1\r\na\r\n".to_vec());
}

#[test]
fn test_set_then_incr_after_delay_round() {
    let mut store = DataStore::new();
    let reply = serve(&mut store, b"*3\r\n$3\r\nSET\r\n$1\r\nk\r\n$1\r\n5\r\n", 0);
    assert_eq!(reply, b"+\"OK\"\r\n".to_vec());
    let reply = serve(&mut store, b"*2\r\n$4\r\nINCR\r\n$1\r\nk\r\n", 100);
    assert_eq!(reply, b":6\r\n".to_vec());
}

#[test]
fn test_pipelined_requests_round() {
    let mut store = DataStore::new();
    let pipelined = b"*1\r\n$4\r\nPING\r\n*2\r\n$4\r\nECHO\r\n$2\r\nhi\r\n";
    let (first, used1) = deserialize_buffer(pipelined);
    let first_reply = handle_frame_at(&mut store, first.unwrap(), 0);
    assert_eq!(serialize_data(&first_reply).unwrap(), b"+\"PONG\"\r\n".to_vec());
    let (second, used2) = deserialize_buffer(&pipelined[used1..]);
    let second_reply = handle_frame_at(&mut store, second.unwrap(), 0);
    assert_eq!(serialize_data(&second_reply).unwrap(), b"+\"hi\"\r\n".to_vec());
    assert_eq!(used1 + used2, pipelined.len());
}

#[test]
fn test_command_name_case_insensitive_round() {
    let mut store = DataStore::new();
    let reply = serve(&mut store, b"*1\r\n$4\r\npInG\r\n", 0);
    assert_eq!(reply, b"+\"PONG\"\r\n".to_vec());
}

#[test]
fn test_set_with_get_flag_round() {
    let mut store = DataStore::new();
    // GET flag with no prior value answers the null bulk
    let reply = serve(
        &mut store,
        b"*4\r\n$3\r\nSET\r\n$1\r\nk\r\n$1\r\nv\r\n$3\r\nGET\r\n",
        0,
    );
    assert_eq!(reply, b"$-1\r\n".to_vec());
    // GET flag with a prior value answers it, quoted
    let reply = serve(
        &mut store,
        b"*4\r\n$3\r\nSET\r\n$1\r\nk\r\n$1\r\nw\r\n$3\r\nGET\r\n",
        0,
    );
    assert_eq!(reply, b"$3\r\n\"v\"\r\n".to_vec());
}

#[test]
fn test_set_with_expiry_rounds() {
    let mut store = DataStore::new();
    // PX 50: live before the deadline, gone at it
    let reply = serve(
        &mut store,
        b"*5\r\n$3\r\nSET\r\n$1\r\nk\r\n$1\r\nv\r\n$2\r\nPX\r\n$2\r\n50\r\n",
        1000,
    );
    assert_eq!(reply, b"+\"OK\"\r\n".to_vec());
    let reply = serve(&mut store, b"*2\r\n$3\r\nGET\r\n$1\r\nk\r\n", 1049);
    assert_eq!(reply, b"$1\r\nv\r\n".to_vec());
    let reply = serve(&mut store, b"*2\r\n$3\r\nGET\r\n$1\r\nk\r\n", 1050);
    assert_eq!(reply, b"$-1\r\n".to_vec());
    // EX 1: one second in milliseconds
    let reply = serve(
        &mut store,
        b"*5\r\n$3\r\nSET\r\n$1\r\ne\r\n$1\r\nv\r\n$2\r\nEX\r\n$1\r\n1\r\n",
        0,
    );
    assert_eq!(reply, b"+\"OK\"\r\n".to_vec());
    let reply = serve(&mut store, b"*2\r\n$3\r\nGET\r\n$1\r\ne\r\n", 999);
    assert_eq!(reply, b"$1\r\nv\r\n".to_vec());
    let reply = serve(&mut store, b"*2\r\n$3\r\nGET\r\n$1\r\ne\r\n", 1000);
    assert_eq!(reply, b"$-1\r\n".to_vec());
}

#[test]
fn test_error_replies_round() {
    let mut store = DataStore::new();
    // unknown command
    let reply = serve(&mut store, b"*1\r\n$3\r\nFOO\r\n", 0);
    assert_eq!(reply, b"-unknown command 'FOO'\r\n".to_vec());
    // not an array
    let (frame, _) = deserialize_buffer(b"+PING\r\n");
    let reply = handle_frame_at(&mut store, frame.unwrap(), 0);
    assert_eq!(
        serialize_data(&reply).unwrap(),
        b"-ERR expected an array frame\r\n".to_vec()
    );
    // an element that bears no string
    let reply = serve(&mut store, b"*2\r\n$4\r\nECHO\r\n:5\r\n", 0);
    assert_eq!(reply, b"-ERR expected a string frame\r\n".to_vec());
    // wrong arity
    let reply = serve(&mut store, b"*2\r\n$3\r\nSET\r\n$1\r\nk\r\n", 0);
    assert_eq!(
        reply,
        b"-ERR wrong number of arguments for 'set' command\r\n".to_vec()
    );
    // NX against an existing key
    serve(&mut store, b"*3\r\n$3\r\nSET\r\n$1\r\nk\r\n$1\r\nv\r\n", 0);
    let reply = serve(
        &mut store,
        b"*4\r\n$3\r\nSET\r\n$1\r\nk\r\n$1\r\nw\r\n$2\r\nNX\r\n",
        0,
    );
    assert_eq!(reply, b"-NX condition not met\r\n".to_vec());
    // XX against an absent key
    let reply = serve(
        &mut store,
        b"*4\r\n$3\r\nSET\r\n$1\r\nz\r\n$1\r\nw\r\n$2\r\nXX\r\n",
        0,
    );
    assert_eq!(reply, b"-XX condition not met\r\n".to_vec());
    // INCR against a non-numeric string
    let reply = serve(&mut store, b"*2\r\n$4\r\nINCR\r\n$1\r\nk\r\n", 0);
    assert_eq!(
        reply,
        b"-ERR value is not an integer or out of range\r\n".to_vec()
    );
    // LRANGE against a string key
    let reply = serve(
        &mut store,
        b"*4\r\n$6\r\nLRANGE\r\n$1\r\nk\r\n$1\r\n0\r\n$2\r\n-1\r\n",
        0,
    );
    assert_eq!(
        reply,
        b"-WRONGTYPE Operation against a key holding the wrong kind of value\r\n".to_vec()
    );
    // LPUSH against a string key
    let reply = serve(&mut store, b"*3\r\n$5\r\nLPUSH\r\n$1\r\nk\r\n$1\r\na\r\n", 0);
    assert_eq!(reply, b"-ERR value type is not list\r\n".to_vec());
    // INCR against a list key
    serve(&mut store, b"*3\r\n$5\r\nLPUSH\r\n$1\r\nL\r\n$1\r\na\r\n", 0);
    let reply = serve(&mut store, b"*2\r\n$4\r\nINCR\r\n$1\r\nL\r\n", 0);
    assert_eq!(reply, b"-ERR value type is not string\r\n".to_vec());
    // GET flag repeated
    let reply = serve(
        &mut store,
        b"*5\r\n$3\r\nSET\r\n$1\r\nk\r\n$1\r\nv\r\n$3\r\nGET\r\n$3\r\nGET\r\n",
        0,
    );
    assert_eq!(reply, b"-syntax error\r\n".to_vec());
    // expiry option missing its argument
    let reply = serve(
        &mut store,
        b"*4\r\n$3\r\nSET\r\n$1\r\nk\r\n$1\r\nv\r\n$2\r\nEX\r\n",
        0,
    );
    assert_eq!(reply, b"-syntax error\r\n".to_vec());
    // expiry option with a non-numeric argument
    let reply = serve(
        &mut store,
        b"*5\r\n$3\r\nSET\r\n$1\r\nk\r\n$1\r\nv\r\n$2\r\nPX\r\n$1\r\nx\r\n",
        0,
    );
    assert_eq!(reply, b"-PX syntax error\r\n".to_vec());
    // LRANGE with a bad index
    let reply = serve(
        &mut store,
        b"*4\r\n$6\r\nLRANGE\r\n$1\r\nL\r\n$1\r\nx\r\n$2\r\n-1\r\n",
        0,
    );
    assert_eq!(reply, b"-ERR start index is not an integer\r\n".to_vec());
}

#[test]
fn test_unknown_set_options_are_ignored_round() {
    let mut store = DataStore::new();
    let reply = serve(
        &mut store,
        b"*4\r\n$3\r\nSET\r\n$1\r\nk\r\n$1\r\nv\r\n$4\r\nBLAH\r\n",
        0,
    );
    assert_eq!(reply, b"+\"OK\"\r\n".to_vec());
    let reply = serve(&mut store, b"*2\r\n$3\r\nGET\r\n$1\r\nk\r\n", 0);
    assert_eq!(reply, b"$1\r\nv\r\n".to_vec());
}
