use bytes::Bytes;
use colander_cache::cache_layer::CacheLayer;
use colander_cache::resp::{RespFrame, bulk_to_bytes, bulk_to_string, dispatch, parse_set_options};

const NOW_MS: u64 = 200_000;

fn layer() -> CacheLayer {
    CacheLayer::new("sieve", None, 1024, 60_000, 1_048_576)
}

fn bulk(s: &'static [u8]) -> RespFrame {
    RespFrame::Bulk(Bytes::from_static(s))
}

fn cmd(parts: Vec<RespFrame>) -> RespFrame {
    RespFrame::Array(parts)
}

#[test]
fn ping_pongs() {
    let mut cache = layer();
    let out = dispatch(&cmd(vec![bulk(b"PING")]), &mut cache, NOW_MS);
    assert!(matches!(out, RespFrame::Simple(s) if s == "PONG"));

    let out = dispatch(&cmd(vec![bulk(b"ping")]), &mut cache, NOW_MS);
    assert!(matches!(out, RespFrame::Simple(s) if s == "PONG"));
}

#[test]
fn non_array_is_rejected() {
    let mut cache = layer();
    let out = dispatch(&RespFrame::Integer(5), &mut cache, NOW_MS);
    assert!(matches!(out, RespFrame::Error(s) if s == "ERR expected array"));

    let out = dispatch(&cmd(vec![]), &mut cache, NOW_MS);
    assert!(matches!(out, RespFrame::Error(s) if s == "ERR empty command"));

    let out = dispatch(&cmd(vec![RespFrame::Integer(1)]), &mut cache, NOW_MS);
    assert!(matches!(out, RespFrame::Error(s) if s == "ERR invalid command format"));
}

#[test]
fn set_then_get_round_trip() {
    let mut cache = layer();
    let out = dispatch(&cmd(vec![bulk(b"SET"), bulk(b"k"), bulk(b"hello")]), &mut cache, NOW_MS);
    assert!(matches!(out, RespFrame::Simple(s) if s == "OK"));

    let out = dispatch(&cmd(vec![bulk(b"GET"), bulk(b"k")]), &mut cache, NOW_MS);
    match out {
        RespFrame::Bulk(b) => assert_eq!(&b[..], b"hello"),
        _ => panic!("expected a bulk reply"),
    }

    let out = dispatch(&cmd(vec![bulk(b"GET"), bulk(b"absent")]), &mut cache, NOW_MS);
    assert!(matches!(out, RespFrame::Null));
}

#[test]
fn set_with_ex_and_ttl() {
    let mut cache = layer();
    let out = dispatch(
        &cmd(vec![bulk(b"SET"), bulk(b"k"), bulk(b"v"), bulk(b"EX"), bulk(b"30")]),
        &mut cache,
        NOW_MS,
    );
    assert!(matches!(out, RespFrame::Simple(s) if s == "OK"));

    let out = dispatch(&cmd(vec![bulk(b"TTL"), bulk(b"k")]), &mut cache, NOW_MS + 10_000);
    assert!(matches!(out, RespFrame::Integer(20)));

    // Expired thirty-one seconds in: the entry reads as gone.
    let out = dispatch(&cmd(vec![bulk(b"TTL"), bulk(b"k")]), &mut cache, NOW_MS + 31_000);
    assert!(matches!(out, RespFrame::Integer(-2)));
}

#[test]
fn del_counts_removals() {
    let mut cache = layer();
    dispatch(&cmd(vec![bulk(b"SET"), bulk(b"a"), bulk(b"1")]), &mut cache, NOW_MS);
    dispatch(&cmd(vec![bulk(b"SET"), bulk(b"b"), bulk(b"2")]), &mut cache, NOW_MS);

    let out = dispatch(
        &cmd(vec![bulk(b"DEL"), bulk(b"a"), bulk(b"missing"), bulk(b"b")]),
        &mut cache,
        NOW_MS,
    );
    assert!(matches!(out, RespFrame::Integer(2)));

    let out = dispatch(&cmd(vec![bulk(b"DEL"), bulk(b"a")]), &mut cache, NOW_MS);
    assert!(matches!(out, RespFrame::Integer(0)));
}

#[test]
fn expire_is_unsupported() {
    let mut cache = layer();
    let out = dispatch(&cmd(vec![bulk(b"EXPIRE"), bulk(b"k"), bulk(b"9")]), &mut cache, NOW_MS);
    assert!(matches!(out, RespFrame::Integer(0)));
}

#[test]
fn arity_errors() {
    let mut cache = layer();
    let out = dispatch(&cmd(vec![bulk(b"GET")]), &mut cache, NOW_MS);
    assert!(matches!(out, RespFrame::Error(s) if s == "ERR wrong number of arguments for 'GET' command"));

    let out = dispatch(&cmd(vec![bulk(b"SET"), bulk(b"k")]), &mut cache, NOW_MS);
    assert!(matches!(out, RespFrame::Error(s) if s == "ERR wrong number of arguments for 'SET' command"));

    let out = dispatch(&cmd(vec![bulk(b"DEL")]), &mut cache, NOW_MS);
    assert!(matches!(out, RespFrame::Error(s) if s == "ERR wrong number of arguments for 'DEL' command"));

    let out = dispatch(&cmd(vec![bulk(b"TTL")]), &mut cache, NOW_MS);
    assert!(matches!(out, RespFrame::Error(s) if s == "ERR wrong number of arguments for 'TTL' command"));
}

#[test]
fn unknown_command_reports_name() {
    let mut cache = layer();
    let out = dispatch(&cmd(vec![bulk(b"flush")]), &mut cache, NOW_MS);
    assert!(matches!(out, RespFrame::Error(s) if s == "ERR unknown command 'FLUSH'"));
}

#[test]
fn bulk_helpers() {
    assert_eq!(bulk_to_string(&bulk(b"abc")), "abc");
    assert_eq!(bulk_to_string(&RespFrame::Integer(1)), "");
    assert_eq!(&bulk_to_bytes(&bulk(b"xyz"))[..], b"xyz");
    assert_eq!(bulk_to_bytes(&RespFrame::Null).len(), 0);
}

#[test]
fn set_options_scanning() {
    let args = vec![bulk(b"SET"), bulk(b"k"), bulk(b"v"), bulk(b"NX"), bulk(b"ex"), bulk(b"45")];
    assert_eq!(parse_set_options(&args, 3), Some(45));

    let args = vec![bulk(b"SET"), bulk(b"k"), bulk(b"v")];
    assert_eq!(parse_set_options(&args, 3), None);

    let args = vec![bulk(b"SET"), bulk(b"k"), bulk(b"v"), bulk(b"EX"), bulk(b"nan")];
    assert_eq!(parse_set_options(&args, 3), None);

    let args = vec![bulk(b"SET"), bulk(b"k"), bulk(b"v"), bulk(b"EX")];
    assert_eq!(parse_set_options(&args, 3), None);
}
