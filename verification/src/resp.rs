//! RESP2 command handling against the cache facade.
//!
//! The wire codec (framing bytes into RESP values and back) lives outside
//! the library; what is verified here is the command logic itself, over a
//! frame value of the library's own. Command names are matched
//! ASCII-case-insensitively on the raw bulk bytes, and keys pass through a
//! lossy UTF-8 decoding whose result is named, not described.

use vstd::prelude::*;

use vstd::string::StringExecFns;

use crate::cache_layer::CacheLayer;
use crate::cache_layer::LayerModel;
use crate::cache_layer::bytes_eq;
use crate::cache_layer::layer_step_get;
use crate::cache_layer::layer_step_insert;
use crate::cache_layer::layer_step_remove;
use crate::cache_layer::parse_u64;
use crate::cache_layer::parse_u64_bytes;
use crate::config::secs_to_ms;
use crate::config::spec_secs_to_ms;
use crate::traits::RespView;
use crate::traits::bytes_view;
use crate::traits::spec_remaining_ttl;

verus! {

/// One RESP2 value.
pub enum RespFrame {
    Simple(String),
    Error(String),
    Integer(i64),
    Bulk(bytes::Bytes),
    Array(Vec<RespFrame>),
    Null,
}

/// What `String::from_utf8_lossy` decodes a byte sequence to. The result
/// depends on the bytes alone; it is named, not described.
pub uninterp spec fn utf8_lossy(bytes: Seq<u8>) -> Seq<char>;

/// Relies on `bytes::Bytes` dereferencing to its byte slice: the copy holds
/// exactly the buffer's bytes.
#[verifier::external_body]
fn bytes_of(b: &bytes::Bytes) -> (r: Vec<u8>)
    ensures
        r@ == bytes_view(*b),
{
    b.as_ref().to_vec()
}

/// Relies on `String::from_utf8_lossy`: the decoding is a function of the
/// bytes alone.
#[verifier::external_body]
fn lossy_string(b: &[u8]) -> (r: String)
    ensures
        r@ == utf8_lossy(b@),
{
    String::from_utf8_lossy(b).into_owned()
}

/// ASCII uppercase of one byte.
pub open spec fn upper_byte(b: u8) -> u8 {
    if 97 <= b <= 122 {
        (b - 32) as u8
    } else {
        b
    }
}

/// ASCII uppercase of a byte sequence.
pub open spec fn upper_bytes(s: Seq<u8>) -> Seq<u8> {
    Seq::new(s.len(), |i: int| upper_byte(s[i]))
}

/// Executable ASCII uppercase.
fn upper_vec(s: &Vec<u8>) -> (r: Vec<u8>)
    ensures
        r@ == upper_bytes(s@),
{
    let mut out: Vec<u8> = Vec::new();
    let mut i: usize = 0;
    while i < s.len()
        invariant
            i <= s@.len(),
            out@.len() == i as int,
            forall|j: int| 0 <= j < i ==> out@[j] == upper_byte(s@[j]),
        decreases s@.len() - i,
    {
        let b = s[i];
        let ub = if 97 <= b && b <= 122 { b - 32 } else { b };
        out.push(ub);
        i = i + 1;
    }
    proof {
        assert(out@ =~= upper_bytes(s@));
    }
    out
}

/// The key or text a bulk frame carries, decoded lossily; other frames read
/// as the empty string.
pub open spec fn bulk_str_spec(f: RespFrame) -> Seq<char> {
    match f {
        RespFrame::Bulk(b) => utf8_lossy(bytes_view(b)),
        _ => Seq::empty(),
    }
}

/// The bytes a bulk frame carries; other frames read as empty.
pub open spec fn bulk_bytes_spec(f: RespFrame) -> Seq<u8> {
    match f {
        RespFrame::Bulk(b) => bytes_view(b),
        _ => Seq::empty(),
    }
}

/// The frame is an error carrying exactly this message.
pub open spec fn is_error_frame(r: RespFrame, msg: Seq<char>) -> bool {
    match r {
        RespFrame::Error(s) => s@ == msg,
        _ => false,
    }
}

/// The frame is a simple string carrying exactly this text.
pub open spec fn is_simple_frame(r: RespFrame, msg: Seq<char>) -> bool {
    match r {
        RespFrame::Simple(s) => s@ == msg,
        _ => false,
    }
}

/// SET options scanned left to right: the first `EX` followed by a parsable
/// seconds value wins; anything else is skipped.
pub open spec fn spec_set_options(args: Seq<RespFrame>, i: int) -> Option<u64>
    decreases args.len() - i,
{
    if i < 0 || i >= args.len() {
        None
    } else if upper_bytes(bulk_bytes_spec(args[i])) == ex_bytes() && i + 1 < args.len()
        && parse_u64(bulk_bytes_spec(args[i + 1])) is Some {
        parse_u64(bulk_bytes_spec(args[i + 1]))
    } else {
        spec_set_options(args, i + 1)
    }
}

/// The bytes of `EX`.
pub open spec fn ex_bytes() -> Seq<u8> {
    seq![69u8, 88]
}

/// The bytes of `PING`.
pub open spec fn ping_bytes() -> Seq<u8> {
    seq![80u8, 73, 78, 71]
}

/// The bytes of `COMMAND`.
pub open spec fn command_bytes() -> Seq<u8> {
    seq![67u8, 79, 77, 77, 65, 78, 68]
}

/// The bytes of `GET`.
pub open spec fn get_bytes() -> Seq<u8> {
    seq![71u8, 69, 84]
}

/// The bytes of `SET`.
pub open spec fn set_bytes() -> Seq<u8> {
    seq![83u8, 69, 84]
}

/// The bytes of `DEL`.
pub open spec fn del_bytes() -> Seq<u8> {
    seq![68u8, 69, 76]
}

/// The bytes of `EXPIRE`.
pub open spec fn expire_bytes() -> Seq<u8> {
    seq![69u8, 88, 80, 73, 82, 69]
}

/// The bytes of `TTL`.
pub open spec fn ttl_bytes() -> Seq<u8> {
    seq![84u8, 84, 76]
}

/// Saturating increment of the removal tally.
pub open spec fn bump_i64(c: i64) -> i64 {
    if c == i64::MAX {
        c
    } else {
        (c + 1) as i64
    }
}

/// The DEL command folded over its keys: each present key is removed and
/// tallied.
pub open spec fn spec_del_steps(m: LayerModel, args: Seq<RespFrame>, i: int, count: i64) -> (LayerModel, i64)
    decreases args.len() - i,
{
    if i < 0 || i >= args.len() {
        (m, count)
    } else {
        let (m2, removed) = layer_step_remove(m, bulk_str_spec(args[i]));
        let c2 = if removed {
            bump_i64(count)
        } else {
            count
        };
        spec_del_steps(m2, args, i + 1, c2)
    }
}

/// The exact effect of one dispatched command on the cache facade and the
/// reply it produces.
pub open spec fn dispatch_post(frame: RespFrame, m0: LayerModel, m1: LayerModel, out: RespFrame, now_ms: u64) -> bool {
    match frame {
        RespFrame::Array(args) => {
            if args@.len() == 0 {
                m1 == m0 && is_error_frame(out, "ERR empty command"@)
            } else {
                match args@[0] {
                    RespFrame::Bulk(b) => dispatch_cmd_post(upper_bytes(bytes_view(b)), args@, m0, m1, out, now_ms),
                    _ => m1 == m0 && is_error_frame(out, "ERR invalid command format"@),
                }
            }
        },
        _ => m1 == m0 && is_error_frame(out, "ERR expected array"@),
    }
}

/// The per-command case split behind [`dispatch_post`].
pub open spec fn dispatch_cmd_post(cmd: Seq<u8>, args: Seq<RespFrame>, m0: LayerModel, m1: LayerModel, out: RespFrame, now_ms: u64) -> bool {
    if cmd == ping_bytes() {
        m1 == m0 && is_simple_frame(out, "PONG"@)
    } else if cmd == command_bytes() {
        m1 == m0 && is_simple_frame(out, "OK"@)
    } else if cmd == get_bytes() {
        if args.len() < 2 {
            m1 == m0 && is_error_frame(out, "ERR wrong number of arguments for 'GET' command"@)
        } else {
            let (m2, v, _) = layer_step_get(m0, bulk_str_spec(args[1]), now_ms);
            m1 == m2 && (match out {
                RespFrame::Bulk(b) => v is Some && bytes_view(b) == v.unwrap().body,
                RespFrame::Null => v is None,
                _ => false,
            })
        }
    } else if cmd == set_bytes() {
        if args.len() < 3 {
            m1 == m0 && is_error_frame(out, "ERR wrong number of arguments for 'SET' command"@)
        } else {
            let ttl = spec_set_options(args, 3);
            m1 == layer_step_insert(m0, bulk_str_spec(args[1]), (RespView {
                status: 200,
                headers: Seq::empty(),
                body: bulk_bytes_spec(args[2]),
                inserted_at_ms: now_ms,
                ttl_ms: match ttl {
                    Some(secs) => spec_secs_to_ms(secs),
                    None => m0.default_ttl_ms,
                },
            }), now_ms) && is_simple_frame(out, "OK"@)
        }
    } else if cmd == del_bytes() {
        if args.len() < 2 {
            m1 == m0 && is_error_frame(out, "ERR wrong number of arguments for 'DEL' command"@)
        } else {
            let (m2, count) = spec_del_steps(m0, args, 1, 0);
            m1 == m2 && out == RespFrame::Integer(count)
        }
    } else if cmd == expire_bytes() {
        m1 == m0 && out == RespFrame::Integer(0i64)
    } else if cmd == ttl_bytes() {
        if args.len() < 2 {
            m1 == m0 && is_error_frame(out, "ERR wrong number of arguments for 'TTL' command"@)
        } else {
            let (m2, v, _) = layer_step_get(m0, bulk_str_spec(args[1]), now_ms);
            m1 == m2 && (match v {
                Some(vv) => out == RespFrame::Integer((spec_remaining_ttl(vv, now_ms) / 1000) as i64),
                None => out == RespFrame::Integer(-2i64),
            })
        }
    } else {
        m1 == m0 && is_error_frame(out, "ERR unknown command '"@ + utf8_lossy(cmd) + "'"@)
    }
}

/// An error reply carrying the given message.
fn error_frame(msg: &str) -> (r: RespFrame)
    ensures
        is_error_frame(r, msg@),
{
    RespFrame::Error(msg.to_owned())
}

/// The text a bulk frame carries, decoded lossily; other frames read empty.
pub fn bulk_to_string(frame: &RespFrame) -> (r: String)
    ensures
        r@ == bulk_str_spec(*frame),
{
    match frame {
        RespFrame::Bulk(b) => {
            let v = bytes_of(b);
            lossy_string(v.as_slice())
        },
        _ => String::new(),
    }
}

/// The bytes a bulk frame carries; other frames read empty.
pub fn bulk_to_bytes(frame: &RespFrame) -> (r: bytes::Bytes)
    ensures
        bytes_view(r) == bulk_bytes_spec(*frame),
{
    match frame {
        RespFrame::Bulk(b) => b.clone(),
        _ => crate::traits::empty_bytes(),
    }
}

/// Scan `SET` options from position `from`: `EX <seconds>` sets the TTL.
pub fn parse_set_options(args: &Vec<RespFrame>, from: usize) -> (r: Option<u64>)
    ensures
        r == spec_set_options(args@, from as int),
{
    let mut i: usize = from;
    while i < args.len()
        invariant
            from as int <= i as int,
            spec_set_options(args@, from as int) == spec_set_options(args@, i as int),
        decreases args@.len() - i,
    {
        let opt_bytes = match &args[i] {
            RespFrame::Bulk(b) => bytes_of(b),
            _ => Vec::new(),
        };
        proof {
            assert(opt_bytes@ =~= bulk_bytes_spec(args@[i as int]));
        }
        let opt = upper_vec(&opt_bytes);
        let ex: [u8; 2] = [69, 88];
        proof {
            assert(ex@ =~= ex_bytes());
        }
        if bytes_eq(opt.as_slice(), &ex) && i + 1 < args.len() {
            let val_bytes = match &args[i + 1] {
                RespFrame::Bulk(b) => bytes_of(b),
                _ => Vec::new(),
            };
            proof {
                assert(val_bytes@ =~= bulk_bytes_spec(args@[i + 1]));
            }
            match parse_u64_bytes(val_bytes.as_slice()) {
                Some(secs) => {
                    return Some(secs);
                },
                None => {},
            }
        }
        i = i + 1;
    }
    None
}

/// Dispatch one RESP2 frame (an array of bulk strings) against the cache.
pub fn dispatch(frame: &RespFrame, cache: &mut CacheLayer, now_ms: u64) -> (out: RespFrame)
    requires
        old(cache).inv(),
    ensures
        final(cache).inv(),
        dispatch_post(*frame, old(cache)@, final(cache)@, out, now_ms),
{
    let args = match frame {
        RespFrame::Array(a) => a,
        _ => {
            return error_frame("ERR expected array");
        },
    };
    if args.len() == 0 {
        return error_frame("ERR empty command");
    }
    let cmd: Vec<u8> = match &args[0] {
        RespFrame::Bulk(b) => {
            let raw = bytes_of(b);
            upper_vec(&raw)
        },
        _ => {
            return error_frame("ERR invalid command format");
        },
    };
    let ping: [u8; 4] = [80, 73, 78, 71];
    let command_word: [u8; 7] = [67, 79, 77, 77, 65, 78, 68];
    let get_word: [u8; 3] = [71, 69, 84];
    let set_word: [u8; 3] = [83, 69, 84];
    let del_word: [u8; 3] = [68, 69, 76];
    let expire_word: [u8; 6] = [69, 88, 80, 73, 82, 69];
    let ttl_word: [u8; 3] = [84, 84, 76];
    proof {
        assert(ping@ =~= ping_bytes());
        assert(command_word@ =~= command_bytes());
        assert(get_word@ =~= get_bytes());
        assert(set_word@ =~= set_bytes());
        assert(del_word@ =~= del_bytes());
        assert(expire_word@ =~= expire_bytes());
        assert(ttl_word@ =~= ttl_bytes());
    }
    if bytes_eq(cmd.as_slice(), &ping) {
        return RespFrame::Simple("PONG".to_owned());
    }
    if bytes_eq(cmd.as_slice(), &command_word) {
        return RespFrame::Simple("OK".to_owned());
    }
    if bytes_eq(cmd.as_slice(), &get_word) {
        if args.len() < 2 {
            return error_frame("ERR wrong number of arguments for 'GET' command");
        }
        let key = bulk_to_string(&args[1]);
        let lookup = cache.get(key.as_str(), now_ms);
        return match lookup.value {
            Some(cached) => RespFrame::Bulk(cached.body_bytes()),
            None => RespFrame::Null,
        };
    }
    if bytes_eq(cmd.as_slice(), &set_word) {
        if args.len() < 3 {
            return error_frame("ERR wrong number of arguments for 'SET' command");
        }
        let key = bulk_to_string(&args[1]);
        let value = bulk_to_bytes(&args[2]);
        let ttl_secs = parse_set_options(args, 3);
        let ttl_ms = match ttl_secs {
            Some(secs) => Some(secs_to_ms(secs)),
            None => None,
        };
        cache.insert_raw(key, value, ttl_ms, now_ms);
        return RespFrame::Simple("OK".to_owned());
    }
    if bytes_eq(cmd.as_slice(), &del_word) {
        if args.len() < 2 {
            return error_frame("ERR wrong number of arguments for 'DEL' command");
        }
        let mut count: i64 = 0;
        let mut i: usize = 1;
        let ghost m0 = old(cache)@;
        while i < args.len()
            invariant
                1 <= i as int,
                cache.inv(),
                spec_del_steps(m0, args@, 1, 0) == spec_del_steps(cache@, args@, i as int, count),
            decreases args@.len() - i,
        {
            let ghost pre_m = cache@;
            let ghost pre_count = count;
            let key = bulk_to_string(&args[i]);
            let removed = cache.remove(key.as_str());
            if removed {
                if count < i64::MAX {
                    count = count + 1;
                }
            }
            proof {
                assert(spec_del_steps(pre_m, args@, i as int, pre_count)
                    == spec_del_steps(cache@, args@, i + 1, count));
            }
            i = i + 1;
        }
        proof {
            assert(spec_del_steps(cache@, args@, args@.len() as int, count) == (cache@, count));
        }
        return RespFrame::Integer(count);
    }
    if bytes_eq(cmd.as_slice(), &expire_word) {
        return RespFrame::Integer(0);
    }
    if bytes_eq(cmd.as_slice(), &ttl_word) {
        if args.len() < 2 {
            return error_frame("ERR wrong number of arguments for 'TTL' command");
        }
        let key = bulk_to_string(&args[1]);
        let remaining = cache.ttl_remaining(key.as_str(), now_ms);
        return match remaining {
            Some(ms) => RespFrame::Integer((ms / 1000) as i64),
            None => RespFrame::Integer(-2),
        };
    }
    let shown = lossy_string(cmd.as_slice());
    let msg = "ERR unknown command '".to_owned().concat(shown.as_str()).concat("'");
    RespFrame::Error(msg)
}

} // verus!
