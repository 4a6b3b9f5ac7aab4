//! The wire-message codec: request decoding with validation, the
//! active-hint extractor, and the outbound auth/call frame encoders.

use vstd::prelude::*;

use crate::ser::{
    chars_to_string, emit_entries, emit_items, emit_str, lemma_ser_entries_push, ser_entries,
    ser_entry, ser_items, ser_str, ser_value,
};
use crate::parse::{parse_text, parsed};
use crate::value::{
    has_key_v, insert_v, items_view, lemma_merge_ignores_overridden_key, lookup_v, merged,
    value_view, EntriesV, Num, NumV, Obj, Value, ValueV,
};

verus! {

/// Per-request metadata: an order-preserving string-keyed map.
pub type Meta = Obj;

/// Positional call arguments.
pub type Args = Vec<Value>;

/// Named call arguments: an order-preserving string-keyed map.
pub type Kwargs = Obj;

/// The kind of a value, as reported in type errors.
#[derive(PartialEq, Eq, Structural, Clone, Copy, Debug)]
pub enum Kind {
    Null,
    Bool,
    Number,
    Text,
    List,
    Object,
}

/// Why a decode failed.  `Type` with position `p` says that element `p`
/// of the frame (or, with expected kind `List`, the document itself)
/// had the wrong kind.
#[derive(PartialEq, Eq, Structural, Clone, Copy, Debug)]
pub enum DecodeError {
    Parse,
    Arity { found: usize },
    Type { position: usize, expected: Kind, actual: Kind },
    InvalidMethod,
    InvalidRequestId,
}

/// The kind of a value.
pub open spec fn kind_of(v: ValueV) -> Kind {
    match v {
        ValueV::Null => Kind::Null,
        ValueV::Bool(_) => Kind::Bool,
        ValueV::Num(_) => Kind::Number,
        ValueV::Text(_) => Kind::Text,
        ValueV::List(_) => Kind::List,
        ValueV::Object(_) => Kind::Object,
    }
}

/// The kind of a value, computed.
pub fn kind_of_value(v: &Value) -> (k: Kind)
    ensures
        k == kind_of(v@),
{
    match v {
        Value::Null => Kind::Null,
        Value::Bool(_) => Kind::Bool,
        Value::Num(_) => Kind::Number,
        Value::Text(_) => Kind::Text,
        Value::List(_) => Kind::List,
        Value::Object(_) => Kind::Object,
    }
}

/// Whether `c` may occur in a method name: ASCII letters, digits,
/// `-`, `_` and `.`.
pub open spec fn method_char_ok(c: char) -> bool {
    let n = c as u32;
    (48 <= n && n <= 57)  // '0' to '9'
     || (65 <= n && n <= 90)  // 'A' to 'Z'
     || (97 <= n && n <= 122)  // 'a' to 'z'
     || n == 45  // '-'
     || n == 95  // '_'
     || n == 46  // '.'

}

/// Whether `m` begins with the reserved prefix `tangle.`.
pub open spec fn reserved_method(m: Seq<char>) -> bool {
    m.len() >= 7 && m.subrange(0, 7) == seq!['t', 'a', 'n', 'g', 'l', 'e', '.']
}

/// A valid method name: non-empty, not in the reserved namespace, and
/// made only of permitted characters.
pub open spec fn method_ok(m: Seq<char>) -> bool {
    &&& m.len() > 0
    &&& !reserved_method(m)
    &&& forall|i: int| 0 <= i < m.len() ==> method_char_ok(#[trigger] m[i])
}

/// A valid correlation id in `meta`: the key `request_id` holds a
/// number or a non-empty string.
pub open spec fn request_id_ok(meta: EntriesV) -> bool {
    match lookup_v(meta, "request_id"@) {
        Some(ValueV::Num(_)) => true,
        Some(ValueV::Text(s)) => s.len() > 0,
        _ => false,
    }
}

/// What decoding an already-parsed document yields: the 4-tuple on
/// success, and the first applicable error otherwise.  Checks run in
/// order: document shape, arity, element kinds by position, method
/// grammar, request id.
pub open spec fn decode_of(v: ValueV) -> Result<
    (Seq<char>, EntriesV, Seq<ValueV>, EntriesV),
    DecodeError,
> {
    match v {
        ValueV::List(items) => if items.len() != 4 {
            Err(DecodeError::Arity { found: items.len() as usize })
        } else {
            match (items[0], items[1], items[2], items[3]) {
                (ValueV::Text(m), ValueV::Object(meta), ValueV::List(args), ValueV::Object(kw)) => {
                    if !method_ok(m) {
                        Err(DecodeError::InvalidMethod)
                    } else if !request_id_ok(meta) {
                        Err(DecodeError::InvalidRequestId)
                    } else {
                        Ok((m, meta, args, kw))
                    }
                },
                _ => {
                    if !(items[0] is Text) {
                        Err(
                            DecodeError::Type {
                                position: 0,
                                expected: Kind::Text,
                                actual: kind_of(items[0]),
                            },
                        )
                    } else if !(items[1] is Object) {
                        Err(
                            DecodeError::Type {
                                position: 1,
                                expected: Kind::Object,
                                actual: kind_of(items[1]),
                            },
                        )
                    } else if !(items[2] is List) {
                        Err(
                            DecodeError::Type {
                                position: 2,
                                expected: Kind::List,
                                actual: kind_of(items[2]),
                            },
                        )
                    } else {
                        Err(
                            DecodeError::Type {
                                position: 3,
                                expected: Kind::Object,
                                actual: kind_of(items[3]),
                            },
                        )
                    }
                },
            }
        },
        _ => Err(DecodeError::Type { position: 0, expected: Kind::List, actual: kind_of(v) }),
    }
}

/// Validate a method name and the metadata's correlation id, in that
/// order.
pub fn validate(method: &str, meta: &Meta) -> (r: Result<(), DecodeError>)
    ensures
        r is Ok <==> method_ok(method@) && request_id_ok(meta@),
        !method_ok(method@) ==> r == Err::<(), DecodeError>(DecodeError::InvalidMethod),
        method_ok(method@) && !request_id_ok(meta@) ==> r == Err::<(), DecodeError>(
            DecodeError::InvalidRequestId,
        ),
{
    let n = method.unicode_len();
    if n == 0 {
        return Err(DecodeError::InvalidMethod);
    }
    if n >= 7 {
        if method.get_char(0) == 't' && method.get_char(1) == 'a' && method.get_char(2) == 'n'
            && method.get_char(3) == 'g' && method.get_char(4) == 'l' && method.get_char(5) == 'e'
            && method.get_char(6) == '.' {
            proof {
                assert(method@.subrange(0, 7) =~= seq!['t', 'a', 'n', 'g', 'l', 'e', '.']);
            }
            return Err(DecodeError::InvalidMethod);
        }
        proof {
            assert(!reserved_method(method@)) by {
                if reserved_method(method@) {
                    assert(method@.subrange(0, 7)[0] == method@[0]);
                    assert(method@.subrange(0, 7)[1] == method@[1]);
                    assert(method@.subrange(0, 7)[2] == method@[2]);
                    assert(method@.subrange(0, 7)[3] == method@[3]);
                    assert(method@.subrange(0, 7)[4] == method@[4]);
                    assert(method@.subrange(0, 7)[5] == method@[5]);
                    assert(method@.subrange(0, 7)[6] == method@[6]);
                }
            }
        }
    }
    let mut i: usize = 0;
    while i < n
        invariant
            n == method@.len(),
            0 <= i <= n,
            forall|j: int| 0 <= j < i ==> method_char_ok(#[trigger] method@[j]),
        decreases n - i,
    {
        let c = method.get_char(i);
        let u = c as u32;
        let ok = (48 <= u && u <= 57) || (65 <= u && u <= 90) || (97 <= u && u <= 122) || u == 45
            || u == 95 || u == 46;
        if !ok {
            return Err(DecodeError::InvalidMethod);
        }
        i += 1;
    }
    let key = String::from_str("request_id");
    match meta.get(&key) {
        Some(v) => match v {
            Value::Num(_) => Ok(()),
            Value::Text(s) => {
                if s.as_str().unicode_len() > 0 {
                    Ok(())
                } else {
                    Err(DecodeError::InvalidRequestId)
                }
            },
            _ => Err(DecodeError::InvalidRequestId),
        },
        None => Err(DecodeError::InvalidRequestId),
    }
}

/// Decode an already-parsed document into the validated request tuple
/// `(method, meta, args, kwargs)`.
pub fn decode_value(v: Value) -> (r: Result<(String, Meta, Args, Kwargs), DecodeError>)
    ensures
        match r {
            Ok(t) => decode_of(v@) == Ok::<_, DecodeError>((t.0@, t.1@, items_view(t.2@), t.3@)),
            Err(e) => decode_of(v@) == Err::<(Seq<char>, EntriesV, Seq<ValueV>, EntriesV), _>(e),
        },
{
    let mut items: Vec<Value> = match v {
        Value::List(items) => items,
        other => {
            return Err(
                DecodeError::Type {
                    position: 0,
                    expected: Kind::List,
                    actual: kind_of_value(&other),
                },
            );
        },
    };
    let ghost vl = v@->List_0;
    proof {
        assert(vl =~= items_view(items@));
    }
    if items.len() != 4 {
        return Err(DecodeError::Arity { found: items.len() });
    }
    let e0 = items.remove(0);
    let e1 = items.remove(0);
    let e2 = items.remove(0);
    let e3 = items.remove(0);
    proof {
        assert(vl[0] == e0@ && vl[1] == e1@ && vl[2] == e2@ && vl[3] == e3@);
    }
    let method: String = match e0 {
        Value::Text(s) => s,
        other => {
            return Err(
                DecodeError::Type {
                    position: 0,
                    expected: Kind::Text,
                    actual: kind_of_value(&other),
                },
            );
        },
    };
    let meta: Meta = match e1 {
        Value::Object(o) => o,
        other => {
            return Err(
                DecodeError::Type {
                    position: 1,
                    expected: Kind::Object,
                    actual: kind_of_value(&other),
                },
            );
        },
    };
    let args: Args = match e2 {
        Value::List(xs) => xs,
        other => {
            return Err(
                DecodeError::Type {
                    position: 2,
                    expected: Kind::List,
                    actual: kind_of_value(&other),
                },
            );
        },
    };
    let kwargs: Kwargs = match e3 {
        Value::Object(o) => o,
        other => {
            return Err(
                DecodeError::Type {
                    position: 3,
                    expected: Kind::Object,
                    actual: kind_of_value(&other),
                },
            );
        },
    };
    proof {
        assert(vl[0] == ValueV::Text(method@));
        assert(e1 == Value::Object(meta));
        assert(e1@->Object_0 =~= meta@);
        assert(vl[1] =~~= ValueV::Object(meta@));
        assert(e2 == Value::List(args));
        assert(e2@->List_0 =~= items_view(args@));
        assert(vl[2] =~~= ValueV::List(items_view(args@)));
        assert(e3 == Value::Object(kwargs));
        assert(e3@->Object_0 =~= kwargs@);
        assert(vl[3] =~~= ValueV::Object(kwargs@));
    }
    match validate(method.as_str(), &meta) {
        Ok(_) => Ok((method, meta, args, kwargs)),
        Err(e) => Err(e),
    }
}

/// Decode one inbound frame: parse the text as a document, then check
/// its shape and validate it.  A caller never receives a partially
/// valid tuple: any failure yields only the error.
pub fn decode_message(s: &str) -> (r: Result<(String, Meta, Args, Kwargs), DecodeError>)
    ensures
        match parsed(s@) {
            None => r == Err::<(String, Meta, Args, Kwargs), DecodeError>(DecodeError::Parse),
            Some(d) => match r {
                Ok(t) => decode_of(d) == Ok::<_, DecodeError>((t.0@, t.1@, items_view(t.2@), t.3@)),
                Err(e) => decode_of(d) == Err::<(Seq<char>, EntriesV, Seq<ValueV>, EntriesV), _>(e),
            },
        },
{
    match parse_text(s) {
        None => Err(DecodeError::Parse),
        Some(v) => decode_value(v),
    }
}

/// Every well-formed frame decodes to exactly its own components: for
/// any method satisfying the grammar and any metadata carrying a valid
/// `request_id`, decoding `[method, meta, args, kwargs]` succeeds and
/// returns those exact values.
pub proof fn lemma_decode_accepts_valid(
    method: Seq<char>,
    meta: EntriesV,
    args: Seq<ValueV>,
    kwargs: EntriesV,
)
    requires
        method_ok(method),
        request_id_ok(meta),
    ensures
        decode_of(
            ValueV::List(
                seq![
                    ValueV::Text(method),
                    ValueV::Object(meta),
                    ValueV::List(args),
                    ValueV::Object(kwargs),
                ],
            ),
        ) == Ok::<_, DecodeError>((method, meta, args, kwargs)),
{
}

/// The keep-alive hint of a metadata map: the value of `active`, if it
/// is a non-negative 64-bit integer; anything else is no hint.
pub open spec fn active_hint_of(meta: EntriesV) -> Option<u64> {
    match lookup_v(meta, "active"@) {
        Some(ValueV::Num(NumV::Unsigned(u))) => Some(u),
        _ => None,
    }
}

/// Extract the keep-alive hint from a metadata map.
pub fn get_active(meta: &Meta) -> (r: Option<u64>)
    ensures
        r == active_hint_of(meta@),
{
    let key = String::from_str("active");
    match meta.get(&key) {
        Some(v) => match v {
            Value::Num(n) => match n {
                Num::Unsigned(u) => Some(*u),
                _ => None,
            },
            _ => None,
        },
        None => None,
    }
}

/// Forwarded connection credentials for the outbound auth frame.
pub struct AuthData {
    pub http_cookie: Option<String>,
    pub http_authorization: Option<String>,
    pub url_querystring: String,
}

/// The wire text of an optional string: a string literal, or `null`.
pub open spec fn opt_str_text(o: Option<String>) -> Seq<char> {
    match o {
        Some(s) => ser_str(s@),
        None => seq!['n', 'u', 'l', 'l'],
    }
}

/// The wire text of the credential object, fields in declared order.
pub open spec fn auth_data_text(d: AuthData) -> Seq<char> {
    seq!['{'] + ser_str("http_cookie"@) + seq![':'] + opt_str_text(d.http_cookie) + seq![',']
        + ser_str("http_authorization"@) + seq![':'] + opt_str_text(d.http_authorization)
        + seq![','] + ser_str("url_querystring"@) + seq![':'] + ser_str(d.url_querystring@)
        + seq!['}']
}

/// The outbound auth frame: connection id object, empty argument list,
/// credential object.
pub open spec fn auth_frame_text(cid: Seq<char>, d: AuthData) -> Seq<char> {
    seq!['[', '{'] + ser_str("connection_id"@) + seq![':'] + ser_str(cid) + seq!['}', ',', '[', ']', ',']
        + auth_data_text(d) + seq![']']
}

/// The merged metadata object text: `extra`'s entries first, then the
/// entries of `base` whose keys `extra` does not override.
pub open spec fn merged_text(extra: EntriesV, base: EntriesV) -> Seq<char> {
    seq!['{'] + ser_entries(merged(extra, base)) + seq!['}']
}

/// The outbound call frame: merged metadata with the connection id
/// first, then the arguments, then the named arguments, all unchanged.
pub open spec fn call_frame_text(
    meta: EntriesV,
    cid: Seq<char>,
    args: Seq<ValueV>,
    kwargs: EntriesV,
) -> Seq<char> {
    seq!['['] + merged_text(seq![("connection_id"@, ValueV::Text(cid))], meta) + seq![',', '[']
        + ser_items(args) + seq![']', ',', '{'] + ser_entries(kwargs) + seq!['}', ']']
}

/// One more base entry extends the merge by that entry exactly when its
/// key is not overridden.
proof fn lemma_merged_take(extra: EntriesV, base: EntriesV, j: int)
    requires
        0 <= j < base.len(),
    ensures
        merged(extra, base.take(j + 1)) == if has_key_v(extra, base[j].0) {
            merged(extra, base.take(j))
        } else {
            merged(extra, base.take(j)).push(base[j])
        },
{
    assert(base.take(j + 1).drop_last() =~= base.take(j));
    assert(base.take(j + 1).last() == base[j]);
    if has_key_v(extra, base[j].0) {
        assert(merged(extra, base.take(j + 1)) =~= merged(extra, base.take(j)));
    } else {
        assert(merged(extra, base.take(j + 1)) =~= merged(extra, base.take(j)).push(base[j]));
    }
}

/// Emit the entries of the merge of `extra` over `base`.
fn emit_merged_entries(extra: &Obj, base: &Obj, out: &mut Vec<char>)
    ensures
        final(out)@ == old(out)@ + ser_entries(merged(extra@, base@)),
{
    let ghost pre = out@;
    let ne = extra.entries.len();
    let mut any: bool = false;
    let mut i: usize = 0;
    proof {
        assert(out@ =~= pre + ser_entries(extra@.take(0)));
    }
    while i < ne
        invariant
            ne == extra.entries@.len(),
            extra@.len() == ne,
            0 <= i <= ne,
            any <==> i > 0,
            out@ == pre + ser_entries(extra@.take(i as int)),
        decreases ne - i,
    {
        if any {
            out.push(',');
        }
        emit_str(extra.entries[i].0.as_str(), out);
        out.push(':');
        crate::ser::emit_value(&extra.entries[i].1, out);
        proof {
            assert(extra@.take(i + 1) =~= extra@.take(i as int).push(extra@[i as int]));
            lemma_ser_entries_push(extra@.take(i as int), extra@[i as int]);
            assert(extra@[i as int] == (
                extra.entries@[i as int].0@,
                value_view(extra.entries@[i as int].1),
            ));
            assert(out@ =~= pre + ser_entries(extra@.take(i + 1)));
        }
        i += 1;
        any = true;
    }
    proof {
        assert(extra@.take(ne as int) =~= extra@);
        assert(merged(extra@, base@.take(0)) == extra@) by {
            assert(base@.take(0).len() == 0);
        }
    }
    let nb = base.entries.len();
    let mut j: usize = 0;
    while j < nb
        invariant
            nb == base.entries@.len(),
            base@.len() == nb,
            ne == extra.entries@.len(),
            extra@.len() == ne,
            0 <= j <= nb,
            any <==> merged(extra@, base@.take(j as int)).len() > 0,
            out@ == pre + ser_entries(merged(extra@, base@.take(j as int))),
        decreases nb - j,
    {
        let ghost mprev = merged(extra@, base@.take(j as int));
        if !extra.contains_key(&base.entries[j].0) {
            proof {
                assert(base@[j as int].0 == base.entries@[j as int].0@);
                assert(!has_key_v(extra@, base@[j as int].0));
            }
            if any {
                out.push(',');
            }
            emit_str(base.entries[j].0.as_str(), out);
            out.push(':');
            crate::ser::emit_value(&base.entries[j].1, out);
            any = true;
            proof {
                lemma_merged_take(extra@, base@, j as int);
                lemma_ser_entries_push(mprev, base@[j as int]);
                assert(base@[j as int] == (
                    base.entries@[j as int].0@,
                    value_view(base.entries@[j as int].1),
                ));
                assert(out@ =~= pre + ser_entries(merged(extra@, base@.take(j + 1))));
            }
        } else {
            proof {
                assert(base@[j as int].0 == base.entries@[j as int].0@);
                lemma_merged_take(extra@, base@, j as int);
            }
        }
        j += 1;
    }
    proof {
        assert(base@.take(nb as int) =~= base@);
    }
}

/// An outbound auth frame: a connection id and the forwarded
/// credentials.
pub struct Auth(pub String, pub AuthData);

impl Auth {
    /// Encode the auth frame as wire text.
    #[verifier::rlimit(60)]
    pub fn encode(&self) -> (r: String)
        ensures
            r@ == auth_frame_text(self.0@, self.1),
    {
        let mut out: Vec<char> = Vec::new();
        out.push('[');
        out.push('{');
        emit_str("connection_id", &mut out);
        out.push(':');
        emit_str(self.0.as_str(), &mut out);
        out.push('}');
        out.push(',');
        out.push('[');
        out.push(']');
        out.push(',');
        out.push('{');
        emit_str("http_cookie", &mut out);
        out.push(':');
        emit_opt_str(&self.1.http_cookie, &mut out);
        out.push(',');
        emit_str("http_authorization", &mut out);
        out.push(':');
        emit_opt_str(&self.1.http_authorization, &mut out);
        out.push(',');
        emit_str("url_querystring", &mut out);
        out.push(':');
        emit_str(self.1.url_querystring.as_str(), &mut out);
        out.push('}');
        out.push(']');
        proof {
            assert(out@ =~= auth_frame_text(self.0@, self.1));
        }
        chars_to_string(&out)
    }
}

/// Emit an optional string: its literal, or `null`.
fn emit_opt_str(o: &Option<String>, out: &mut Vec<char>)
    ensures
        final(out)@ == old(out)@ + opt_str_text(*o),
{
    let ghost pre = out@;
    match o {
        Some(s) => {
            emit_str(s.as_str(), out);
        },
        None => {
            out.push('n');
            out.push('u');
            out.push('l');
            out.push('l');
            proof {
                assert(out@ =~= pre + opt_str_text(*o));
            }
        },
    }
}

/// An outbound call frame: metadata, a connection id, positional and
/// named arguments.
pub struct Call(pub Meta, pub String, pub Args, pub Kwargs);

impl Call {
    /// Encode the call frame as wire text.  The connection id always
    /// wins over any `connection_id` entry of the metadata.
    #[verifier::rlimit(60)]
    pub fn encode(&self) -> (r: String)
        ensures
            r@ == call_frame_text(self.0@, self.1@, items_view(self.2@), self.3@),
    {
        let mut extra = Obj::new();
        extra.insert(String::from_str("connection_id"), Value::Text(self.1.clone()));
        proof {
            assert(extra@ =~= seq![("connection_id"@, ValueV::Text(self.1@))]);
        }
        let mut out: Vec<char> = Vec::new();
        out.push('[');
        out.push('{');
        emit_merged_entries(&extra, &self.0, &mut out);
        out.push('}');
        out.push(',');
        out.push('[');
        emit_items(&self.2, &mut out);
        out.push(']');
        out.push(',');
        out.push('{');
        emit_entries(&self.3, &mut out);
        out.push('}');
        out.push(']');
        proof {
            assert(out@ =~= call_frame_text(self.0@, self.1@, items_view(self.2@), self.3@));
        }
        chars_to_string(&out)
    }
}

/// A metadata map together with an override value, encoded as one
/// object.
pub struct MetaWithExtra {
    pub meta: Meta,
    pub extra: Value,
}

/// The object text of a metadata map under an override value: a merge
/// when the override is a map, the metadata alone otherwise.
pub open spec fn meta_with_extra_text(meta: EntriesV, extra: ValueV) -> Seq<char> {
    match extra {
        ValueV::Object(ex) => merged_text(ex, meta),
        _ => seq!['{'] + ser_entries(meta) + seq!['}'],
    }
}

impl MetaWithExtra {
    /// Encode the merged metadata object as wire text.
    pub fn encode(&self) -> (r: String)
        ensures
            r@ == meta_with_extra_text(self.meta@, self.extra@),
    {
        let mut out: Vec<char> = Vec::new();
        out.push('{');
        match &self.extra {
            Value::Object(ex) => {
                emit_merged_entries(ex, &self.meta, &mut out);
                proof {
                    assert(self.extra@->Object_0 =~= ex@);
                }
            },
            _ => {
                emit_entries(&self.meta, &mut out);
            },
        }
        out.push('}');
        proof {
            assert(out@ =~= meta_with_extra_text(self.meta@, self.extra@));
        }
        chars_to_string(&out)
    }
}

/// The model of an optional credential string: a string, or null.
pub open spec fn opt_text_value(o: Option<String>) -> ValueV {
    match o {
        Some(s) => ValueV::Text(s@),
        None => ValueV::Null,
    }
}

/// The auth frame is exactly the serialization of the documented
/// 3-element frame value: the connection-id object, an empty list, and
/// the credential object with its fields in declared order.
#[verifier::rlimit(100)]
pub proof fn lemma_auth_frame_is_serialized(cid: String, d: AuthData)
    ensures
        auth_frame_text(cid@, d) == ser_value(
            ValueV::List(
                seq![
                    ValueV::Object(seq![("connection_id"@, ValueV::Text(cid@))]),
                    ValueV::List(Seq::empty()),
                    ValueV::Object(
                        seq![
                            ("http_cookie"@, opt_text_value(d.http_cookie)),
                            ("http_authorization"@, opt_text_value(d.http_authorization)),
                            ("url_querystring"@, ValueV::Text(d.url_querystring@)),
                        ],
                    ),
                ],
            ),
        ),
{
    let a = ValueV::Object(seq![("connection_id"@, ValueV::Text(cid@))]);
    let b = ValueV::List(Seq::<ValueV>::empty());
    let ck = ("http_cookie"@, opt_text_value(d.http_cookie));
    let au = ("http_authorization"@, opt_text_value(d.http_authorization));
    let qs = ("url_querystring"@, ValueV::Text(d.url_querystring@));
    let c = ValueV::Object(seq![ck, au, qs]);
    let items = seq![a, b, c];
    assert(items.drop_last() =~= seq![a, b]);
    assert(seq![a, b].drop_last() =~= seq![a]);
    assert(ser_items(seq![a]) == ser_value(a));
    assert(ser_items(seq![a, b]) == ser_value(a) + seq![','] + ser_value(b));
    assert(ser_items(items) == ser_value(a) + seq![','] + ser_value(b) + seq![','] + ser_value(c));
    assert(ser_entries(seq![("connection_id"@, ValueV::Text(cid@))]) == ser_entry(
        ("connection_id"@, ValueV::Text(cid@)),
    ));
    let entries = seq![ck, au, qs];
    assert(entries.drop_last() =~= seq![ck, au]);
    assert(seq![ck, au].drop_last() =~= seq![ck]);
    assert(ser_entries(seq![ck]) == ser_entry(ck));
    assert(ser_entries(seq![ck, au]) == ser_entry(ck) + seq![','] + ser_entry(au));
    assert(ser_entries(entries) == ser_entry(ck) + seq![','] + ser_entry(au) + seq![','] + ser_entry(
        qs,
    ));
    assert(ser_value(opt_text_value(d.http_cookie)) == opt_str_text(d.http_cookie));
    assert(ser_value(opt_text_value(d.http_authorization)) == opt_str_text(d.http_authorization));
    assert(auth_frame_text(cid@, d) =~= ser_value(ValueV::List(items)));
}

/// The call frame is exactly the serialization of the documented
/// 3-element frame value: the merged metadata object, the arguments,
/// and the named arguments.
pub proof fn lemma_call_frame_is_serialized(
    meta: EntriesV,
    cid: String,
    args: Seq<ValueV>,
    kwargs: EntriesV,
)
    ensures
        call_frame_text(meta, cid@, args, kwargs) == ser_value(
            ValueV::List(
                seq![
                    ValueV::Object(merged(seq![("connection_id"@, ValueV::Text(cid@))], meta)),
                    ValueV::List(args),
                    ValueV::Object(kwargs),
                ],
            ),
        ),
{
    let a = ValueV::Object(merged(seq![("connection_id"@, ValueV::Text(cid@))], meta));
    let b = ValueV::List(args);
    let c = ValueV::Object(kwargs);
    let items = seq![a, b, c];
    assert(items.drop_last() =~= seq![a, b]);
    assert(seq![a, b].drop_last() =~= seq![a]);
    assert(ser_items(seq![a]) == ser_value(a));
    assert(ser_items(seq![a, b]) == ser_value(a) + seq![','] + ser_value(b));
    assert(ser_items(items) == ser_value(a) + seq![','] + ser_value(b) + seq![','] + ser_value(c));
    assert(call_frame_text(meta, cid@, args, kwargs) =~= ser_value(ValueV::List(items)));
}

/// A caller cannot override the wire connection id: writing any value
/// under `connection_id` into the metadata leaves the encoded call
/// frame unchanged.
pub proof fn lemma_call_frame_ignores_meta_connection_id(
    meta: EntriesV,
    cid: Seq<char>,
    args: Seq<ValueV>,
    kwargs: EntriesV,
    v: ValueV,
)
    ensures
        call_frame_text(insert_v(meta, "connection_id"@, v), cid, args, kwargs) == call_frame_text(
            meta,
            cid,
            args,
            kwargs,
        ),
{
    let extra = seq![("connection_id"@, ValueV::Text(cid))];
    assert(extra[0].0 == "connection_id"@);
    assert(has_key_v(extra, "connection_id"@));
    lemma_merge_ignores_overridden_key(extra, meta, "connection_id"@, v);
}

} // verus!
