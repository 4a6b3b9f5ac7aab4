use swindon::message::{validate, Args, Auth, AuthData, Call, DecodeError, Kind, Meta, MetaWithExtra};
use swindon::parse::parse_text;
use swindon::ser::to_json;
use swindon::value::{Num, Obj, Value};

fn text(s: &str) -> Value {
    Value::Text(s.to_string())
}

fn uint(u: u64) -> Value {
    Value::Num(Num::Unsigned(u))
}

fn decode(s: &str) -> Result<(String, Meta, Args, Meta), DecodeError> {
    swindon::message::decode_message(s)
}

fn active_of(meta: &Meta) -> Option<u64> {
    swindon::message::get_active(meta)
}

#[test]
fn decode_message_errors() {
    assert!(matches!(decode(""), Err(DecodeError::Parse)));
    assert!(matches!(decode("[invalid json"), Err(DecodeError::Parse)));
    assert!(matches!(
        decode("{}"),
        Err(DecodeError::Type { position: 0, expected: Kind::List, actual: Kind::Object })
    ));
    assert!(matches!(decode("[]"), Err(DecodeError::Arity { found: 0 })));
    assert!(matches!(decode("[1, 2, 3, 4, 5]"), Err(DecodeError::Arity { found: 5 })));
    assert!(matches!(
        decode("[1, 2, 3, 4]"),
        Err(DecodeError::Type { position: 0, expected: Kind::Text, actual: Kind::Number })
    ));
    assert!(matches!(
        decode("[null, null, null, 4]"),
        Err(DecodeError::Type { position: 0, expected: Kind::Text, actual: Kind::Null })
    ));
    assert!(matches!(
        decode("[\"1\", 2, 3, 4]"),
        Err(DecodeError::Type { position: 1, expected: Kind::Object, actual: Kind::Number })
    ));
    assert!(matches!(
        decode("[\"1\", {}, 3, 4]"),
        Err(DecodeError::Type { position: 2, expected: Kind::List, actual: Kind::Number })
    ));
    assert!(matches!(
        decode("[\"1\", {}, [], 4]"),
        Err(DecodeError::Type { position: 3, expected: Kind::Object, actual: Kind::Number })
    ));
    assert!(matches!(
        decode("[\"1\", {}, [], {}]"),
        Err(DecodeError::InvalidRequestId)
    ));
    assert!(matches!(
        decode("[\"1\", {\"request_id\": null}, [], {}]"),
        Err(DecodeError::InvalidRequestId)
    ));
    assert!(matches!(
        decode("[\"foo\", {\"request_id\": []}, [], {}]"),
        Err(DecodeError::InvalidRequestId)
    ));
    assert!(matches!(
        decode("[\"foo\", {\"request_id\": {}}, [], {}]"),
        Err(DecodeError::InvalidRequestId)
    ));
    assert!(matches!(
        decode("[\"foo\", {\"request_id\": \"\"}, [], {}]"),
        Err(DecodeError::InvalidRequestId)
    ));
    assert!(matches!(
        decode("[\"\", {\"request_id\": 123}, [], {}]"),
        Err(DecodeError::InvalidMethod)
    ));
    assert!(matches!(
        decode("[\"bad/method\", {\"request_id\": 123}, [], {}]"),
        Err(DecodeError::InvalidMethod)
    ));
    assert!(matches!(
        decode("[\"very bad method\", {\"request_id\": 123}, [], {}]"),
        Err(DecodeError::InvalidMethod)
    ));
    assert!(matches!(
        decode("[\"tangle.auth\", {\"request_id\": 123}, [], {}]"),
        Err(DecodeError::InvalidMethod)
    ));
    assert!(matches!(
        decode("[\"   tangle.auth\", {\"request_id\": 123}, [], {}]"),
        Err(DecodeError::InvalidMethod)
    ));
    assert!(matches!(
        decode("[\"   bad.method   \", {\"request_id\": 123}, [], {}]"),
        Err(DecodeError::InvalidMethod)
    ));
}

#[test]
fn decode_message() {
    let res = decode(
        "
            [\"some.method\", {\"request_id\": \"123\"}, [\"Hello\"], {\"world!\": \"!\"}]
            ",
    )
    .unwrap();
    let (method, meta, args, kwargs) = res;
    assert_eq!(method, "some.method".to_string());
    match meta.get(&"request_id".to_string()).unwrap() {
        Value::Text(s) => assert_eq!(s, &"123".to_string()),
        _ => unreachable!(),
    }
    assert_eq!(args.len(), 1);
    match kwargs.get(&"world!".to_string()).unwrap() {
        Value::Text(s) => assert_eq!(s, &"!".to_string()),
        _ => unreachable!(),
    }
}

#[test]
fn encode_auth() {
    let res = Auth(
        "conn:1".to_string(),
        AuthData {
            http_cookie: None,
            http_authorization: None,
            url_querystring: "".to_string(),
        },
    )
    .encode();
    assert_eq!(
        res,
        "[{\"connection_id\":\"conn:1\"},[],{\"http_cookie\":null,\"http_authorization\":null,\"url_querystring\":\"\"}]"
    );

    let kw = AuthData {
        http_cookie: Some("auth=ok".to_string()),
        http_authorization: None,
        url_querystring: "".to_string(),
    };
    let res = Auth("conn:2".to_string(), kw).encode();
    assert_eq!(
        res,
        "[{\"connection_id\":\"conn:2\"},[],{\"http_cookie\":\"auth=ok\",\"http_authorization\":null,\"url_querystring\":\"\"}]"
    );
}

#[test]
fn encode_call() {
    let mut meta = Meta::new();
    let mut args = Vec::new();
    let mut kw = Obj::new();
    let cid = "123".to_string();

    let res = Call(meta, cid, args, kw).encode();
    assert_eq!(res, "[{\"connection_id\":\"123\"},[],{}]");

    meta = Meta::new();
    args = Vec::new();
    kw = Obj::new();
    meta.insert("request_id".to_string(), text("123"));
    args.push(text("Hello"));
    args.push(text("World!"));
    kw.insert("room".to_string(), uint(123));

    let call = Call(meta, "123".to_string(), args, kw);
    let res = call.encode();
    assert_eq!(
        res,
        "[{\"connection_id\":\"123\",\"request_id\":\"123\"},[\"Hello\",\"World!\"],{\"room\":123}]"
    );

    let Call(mut meta, cid, args, kw) = call;
    meta.insert("connection_id".to_string(), text("321"));
    let res = Call(meta, cid, args, kw).encode();
    assert_eq!(
        res,
        "[{\"connection_id\":\"123\",\"request_id\":\"123\"},[\"Hello\",\"World!\"],{\"room\":123}]"
    );
}

#[test]
fn get_active() {
    let mut meta = Meta::new();

    assert!(active_of(&meta).is_none());

    meta.insert("active".to_string(), text(""));
    assert!(active_of(&meta).is_none());

    meta.insert("active".to_string(), Value::Bool(true));
    assert!(active_of(&meta).is_none());

    meta.insert("active".to_string(), uint(123));
    assert_eq!(active_of(&meta).unwrap(), 123u64);

    meta.insert("active".to_string(), Value::Num(Num::Negative(-123)));
    assert!(active_of(&meta).is_none());

    meta.insert("active".to_string(), Value::Num(Num::Decimal("123.0".to_string())));
    assert!(active_of(&meta).is_none());

    meta.insert("active".to_string(), uint(123));
    assert_eq!(active_of(&meta).unwrap(), 123u64);
}

#[test]
fn decode_accepts_valid_methods() {
    let ok = decode("[\"A-b_c.9\", {\"request_id\": 1}, [], {}]");
    let (method, _, args, _) = ok.unwrap();
    assert_eq!(method, "A-b_c.9");
    assert_eq!(args.len(), 0);

    // A numeric request id is as good as a non-empty string one.
    assert!(decode("[\"m\", {\"request_id\": -7}, [], {}]").is_ok());
    // "tangle" without the dot is not reserved.
    assert!(decode("[\"tangledance\", {\"request_id\": 1}, [], {}]").is_ok());
}

#[test]
fn validate_rules() {
    let mut meta = Meta::new();
    meta.insert("request_id".to_string(), uint(1));
    assert!(validate("chat.send", &meta).is_ok());
    assert!(matches!(validate("", &meta), Err(DecodeError::InvalidMethod)));
    assert!(matches!(validate("tangle.x", &meta), Err(DecodeError::InvalidMethod)));
    assert!(matches!(validate("a b", &meta), Err(DecodeError::InvalidMethod)));
    let empty = Meta::new();
    assert!(matches!(validate("chat.send", &empty), Err(DecodeError::InvalidRequestId)));
}

#[test]
fn parse_and_reencode() {
    // Escapes are resolved on the way in and re-escaped on the way out.
    let v = parse_text(" [1, \"a\\u0041\\n\", null, true, -5, {\"k\": []}] ").unwrap();
    assert_eq!(to_json(&v), "[1,\"aA\\n\",null,true,-5,{\"k\":[]}]");

    // A non-integral number keeps its literal text.
    let v = parse_text("[1.5e3]").unwrap();
    assert_eq!(to_json(&v), "[1.5e3]");

    // Trailing garbage is rejected.
    assert!(parse_text("[] x").is_none());
    assert!(parse_text("[1,]").is_none());
    assert!(parse_text("{\"a\":}").is_none());
}

#[test]
fn map_insert_order() {
    // Insertion order is kept; overwriting keeps the position.
    let mut o = Obj::new();
    o.insert("a".to_string(), uint(1));
    o.insert("b".to_string(), uint(2));
    o.insert("a".to_string(), uint(3));
    assert_eq!(to_json(&Value::Object(o)), "{\"a\":3,\"b\":2}");
}

#[test]
fn meta_with_extra_merge() {
    let mut meta = Meta::new();
    meta.insert("request_id".to_string(), text("9"));
    meta.insert("connection_id".to_string(), text("stale"));
    let mut ex = Obj::new();
    ex.insert("connection_id".to_string(), text("fresh"));
    let m = MetaWithExtra { meta, extra: Value::Object(ex) };
    assert_eq!(m.encode(), "{\"connection_id\":\"fresh\",\"request_id\":\"9\"}");

    // A non-map override leaves the metadata untouched.
    let mut meta = Meta::new();
    meta.insert("request_id".to_string(), text("9"));
    let m = MetaWithExtra { meta, extra: Value::Null };
    assert_eq!(m.encode(), "{\"request_id\":\"9\"}");
}

#[test]
fn encode_auth_escapes() {
    // The querystring is escaped by the serializer, not passed raw.
    let res = Auth(
        "c".to_string(),
        AuthData {
            http_cookie: Some("a\"b\\".to_string()),
            http_authorization: None,
            url_querystring: "x=1&y=\t".to_string(),
        },
    )
    .encode();
    assert_eq!(
        res,
        "[{\"connection_id\":\"c\"},[],{\"http_cookie\":\"a\\\"b\\\\\",\"http_authorization\":null,\"url_querystring\":\"x=1&y=\\t\"}]"
    );
}

#[test]
fn number_edges() {
    // Every unsigned value up to u64::MAX decodes exactly; one past it
    // stays literal text.
    let v = parse_text("[9999999999999999999, 18446744073709551615]").unwrap();
    assert_eq!(to_json(&v), "[9999999999999999999,18446744073709551615]");
    let (_, meta, _, _) = decode(
        "[\"m\", {\"request_id\": 1, \"active\": 18446744073709551615}, [], {}]",
    )
    .unwrap();
    assert_eq!(active_of(&meta), Some(u64::MAX));
    let (_, meta, _, _) = decode(
        "[\"m\", {\"request_id\": 1, \"active\": 18446744073709551616}, [], {}]",
    )
    .unwrap();
    assert_eq!(active_of(&meta), None);
    let v = parse_text("[18446744073709551616, 184467440737095516150000]").unwrap();
    assert_eq!(to_json(&v), "[18446744073709551616,184467440737095516150000]");

    // i64::MIN round-trips; one less stays text.
    let v = parse_text("[-9223372036854775808]").unwrap();
    assert_eq!(to_json(&v), "[-9223372036854775808]");
    let v = parse_text("[-9223372036854775809]").unwrap();
    assert_eq!(to_json(&v), "[-9223372036854775809]");

    // "-0" is not treated as an unsigned integer.
    let hint = decode("[\"m\", {\"request_id\": 1, \"active\": -0}, [], {}]");
    let (_, meta, _, _) = hint.unwrap();
    assert!(active_of(&meta).is_none());
}

#[test]
fn string_escape_edges() {
    // A surrogate pair decodes to one astral character.
    let v = parse_text("[\"\\uD83D\\uDE00\"]").unwrap();
    match &v {
        Value::List(xs) => match &xs[0] {
            Value::Text(s) => {
                assert_eq!(s.chars().count(), 1);
                assert_eq!(s.chars().next().unwrap() as u32, 0x1F600);
            }
            _ => unreachable!(),
        },
        _ => unreachable!(),
    }

    // A lone surrogate is rejected.
    assert!(parse_text("[\"\\uD83D\"]").is_none());

    // Control characters are emitted as short or numeric escapes.
    let v = Value::Text("\u{1f}\u{08}".to_string());
    assert_eq!(to_json(&v), "\"\\u001f\\b\"");

    // An unescaped control character in the input is rejected.
    assert!(parse_text("[\"a\u{01}b\"]").is_none());
}

#[test]
fn duplicate_keys_fold() {
    // A repeated key keeps its first position and takes its last value.
    let v = parse_text("{\"a\":1,\"b\":2,\"a\":3}").unwrap();
    assert_eq!(to_json(&v), "{\"a\":3,\"b\":2}");

    // The later request_id wins, so the frame is accepted.
    let res = decode("[\"m\", {\"request_id\": \"\", \"request_id\": \"1\"}, [], {}]");
    let (_, meta, _, _) = res.unwrap();
    match meta.get(&"request_id".to_string()).unwrap() {
        Value::Text(s) => assert_eq!(s, &"1".to_string()),
        _ => unreachable!(),
    }
}
