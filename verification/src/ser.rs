//! Serialization of values into wire text.  The exact character
//! sequence produced is specified by `ser_value` and its helpers; the
//! executable serializer is proved to emit exactly that sequence.

use vstd::prelude::*;

use crate::value::{items_view, value_view, EntriesV, Num, NumV, Obj, Value, ValueV};

verus! {

/// The decimal digit character for `n` (a single digit).
pub open spec fn dec_digit(n: nat) -> char {
    if n == 0 {
        '0'
    } else if n == 1 {
        '1'
    } else if n == 2 {
        '2'
    } else if n == 3 {
        '3'
    } else if n == 4 {
        '4'
    } else if n == 5 {
        '5'
    } else if n == 6 {
        '6'
    } else if n == 7 {
        '7'
    } else if n == 8 {
        '8'
    } else {
        '9'
    }
}

/// The decimal digit string of `n`, without sign and without leading
/// zeros (except for `n == 0` itself).
pub open spec fn dec_str(n: nat) -> Seq<char>
    decreases n,
{
    if n < 10 {
        seq![dec_digit(n)]
    } else {
        dec_str(n / 10) + seq![dec_digit(n % 10)]
    }
}

/// The lower-case hexadecimal digit character for `n` (a single digit).
pub open spec fn hex_digit(n: nat) -> char {
    if n < 10 {
        dec_digit(n)
    } else if n == 10 {
        'a'
    } else if n == 11 {
        'b'
    } else if n == 12 {
        'c'
    } else if n == 13 {
        'd'
    } else if n == 14 {
        'e'
    } else {
        'f'
    }
}

/// The escape of one character inside a string literal: quote and
/// backslash are escaped, the common control characters get their short
/// escapes, other control characters a `\u00..` escape, and every other
/// character stands for itself.
pub open spec fn esc_char(c: char) -> Seq<char> {
    if c == '"' {
        seq!['\\', '"']
    } else if c == '\\' {
        seq!['\\', '\\']
    } else if c == '\u{08}' {
        seq!['\\', 'b']
    } else if c == '\u{09}' {
        seq!['\\', 't']
    } else if c == '\u{0A}' {
        seq!['\\', 'n']
    } else if c == '\u{0C}' {
        seq!['\\', 'f']
    } else if c == '\u{0D}' {
        seq!['\\', 'r']
    } else if (c as u32) < 0x20 {
        seq!['\\', 'u', '0', '0', hex_digit((c as u32 / 16) as nat), hex_digit(
            (c as u32 % 16) as nat,
        )]
    } else {
        seq![c]
    }
}

/// The escaped form of a whole character sequence.
pub open spec fn esc_seq(s: Seq<char>) -> Seq<char>
    decreases s.len(),
{
    if s.len() == 0 {
        Seq::empty()
    } else {
        esc_seq(s.drop_last()) + esc_char(s.last())
    }
}

/// The string literal for `s`: the escaped characters between quotes.
pub open spec fn ser_str(s: Seq<char>) -> Seq<char> {
    seq!['"'] + esc_seq(s) + seq!['"']
}

/// The wire text of a number.
pub open spec fn ser_num(n: NumV) -> Seq<char> {
    match n {
        NumV::Unsigned(u) => dec_str(u as nat),
        NumV::Negative(i) => if i < 0 {
            seq!['-'] + dec_str((-(i as int)) as nat)
        } else {
            dec_str(i as nat)
        },
        NumV::Decimal(s) => s,
    }
}

/// The wire text of a value.
pub open spec fn ser_value(v: ValueV) -> Seq<char>
    decreases v, 1int,
{
    match v {
        ValueV::Null => seq!['n', 'u', 'l', 'l'],
        ValueV::Bool(b) => if b {
            seq!['t', 'r', 'u', 'e']
        } else {
            seq!['f', 'a', 'l', 's', 'e']
        },
        ValueV::Num(n) => ser_num(n),
        ValueV::Text(s) => ser_str(s),
        ValueV::List(xs) => seq!['['] + ser_items(xs) + seq![']'],
        ValueV::Object(m) => seq!['{'] + ser_entries(m) + seq!['}'],
    }
}

/// The comma-separated wire text of a sequence of values.
pub open spec fn ser_items(xs: Seq<ValueV>) -> Seq<char>
    decreases xs, 0int,
{
    if xs.len() == 0 {
        Seq::empty()
    } else if xs.len() == 1 {
        ser_value(xs[0])
    } else {
        ser_items(xs.drop_last()) + seq![','] + ser_value(xs.last())
    }
}

/// The wire text of one map entry: a key literal, a colon, a value.
pub open spec fn ser_entry(e: (Seq<char>, ValueV)) -> Seq<char>
    decreases e, 1int,
{
    ser_str(e.0) + seq![':'] + ser_value(e.1)
}

/// The comma-separated wire text of a map's entries.
pub open spec fn ser_entries(m: EntriesV) -> Seq<char>
    decreases m, 0int,
{
    if m.len() == 0 {
        Seq::empty()
    } else if m.len() == 1 {
        ser_entry(m[0])
    } else {
        ser_entries(m.drop_last()) + seq![','] + ser_entry(m.last())
    }
}

/// Relies on String's FromIterator implementation for char: collecting
/// characters yields the string of exactly those characters in order.
#[verifier::external_body]
pub(crate) fn chars_to_string(v: &Vec<char>) -> (s: String)
    ensures
        s@ == v@,
{
    v.iter().collect()
}

/// Emit the decimal digits of `u`.
fn emit_dec(u: u64, out: &mut Vec<char>)
    ensures
        final(out)@ == old(out)@ + dec_str(u as nat),
    decreases u,
{
    let ghost pre = out@;
    if u < 10 {
        let d: char = match u {
            0 => '0',
            1 => '1',
            2 => '2',
            3 => '3',
            4 => '4',
            5 => '5',
            6 => '6',
            7 => '7',
            8 => '8',
            _ => '9',
        };
        out.push(d);
        proof {
            assert(out@ =~= pre + dec_str(u as nat));
        }
    } else {
        emit_dec(u / 10, out);
        let r = u % 10;
        let d: char = match r {
            0 => '0',
            1 => '1',
            2 => '2',
            3 => '3',
            4 => '4',
            5 => '5',
            6 => '6',
            7 => '7',
            8 => '8',
            _ => '9',
        };
        out.push(d);
        proof {
            assert(out@ =~= pre + dec_str(u as nat));
        }
    }
}

/// Emit a lower-case hexadecimal digit for `d < 16`.
fn emit_hex_digit(d: u32, out: &mut Vec<char>)
    requires
        d < 16,
    ensures
        final(out)@ == old(out)@ + seq![hex_digit(d as nat)],
{
    let ghost pre = out@;
    let c: char = match d {
        0 => '0',
        1 => '1',
        2 => '2',
        3 => '3',
        4 => '4',
        5 => '5',
        6 => '6',
        7 => '7',
        8 => '8',
        9 => '9',
        10 => 'a',
        11 => 'b',
        12 => 'c',
        13 => 'd',
        14 => 'e',
        _ => 'f',
    };
    out.push(c);
    proof {
        assert(out@ =~= pre + seq![hex_digit(d as nat)]);
    }
}

/// Emit the escape of one character.
fn emit_esc_char(c: char, out: &mut Vec<char>)
    ensures
        final(out)@ == old(out)@ + esc_char(c),
{
    let ghost pre = out@;
    if c == '"' {
        out.push('\\');
        out.push('"');
    } else if c == '\\' {
        out.push('\\');
        out.push('\\');
    } else if c == '\u{08}' {
        out.push('\\');
        out.push('b');
    } else if c == '\u{09}' {
        out.push('\\');
        out.push('t');
    } else if c == '\u{0A}' {
        out.push('\\');
        out.push('n');
    } else if c == '\u{0C}' {
        out.push('\\');
        out.push('f');
    } else if c == '\u{0D}' {
        out.push('\\');
        out.push('r');
    } else if (c as u32) < 0x20 {
        out.push('\\');
        out.push('u');
        out.push('0');
        out.push('0');
        let n = c as u32;
        emit_hex_digit(n / 16, out);
        emit_hex_digit(n % 16, out);
    } else {
        out.push(c);
    }
    proof {
        assert(out@ =~= pre + esc_char(c));
    }
}

/// Emit the string literal for `s`.
pub fn emit_str(s: &str, out: &mut Vec<char>)
    ensures
        final(out)@ == old(out)@ + ser_str(s@),
{
    let ghost pre = out@;
    let n = s.unicode_len();
    out.push('"');
    proof {
        assert(out@ =~= pre + seq!['"'] + esc_seq(s@.take(0)));
    }
    let mut i: usize = 0;
    while i < n
        invariant
            n == s@.len(),
            0 <= i <= n,
            out@ == pre + seq!['"'] + esc_seq(s@.take(i as int)),
        decreases n - i,
    {
        let c = s.get_char(i);
        emit_esc_char(c, out);
        proof {
            assert(s@.take(i + 1).drop_last() =~= s@.take(i as int));
            assert(s@.take(i + 1).last() == s@[i as int]);
            assert(out@ =~= pre + seq!['"'] + esc_seq(s@.take(i + 1)));
        }
        i += 1;
    }
    out.push('"');
    proof {
        assert(s@.take(n as int) =~= s@);
        assert(out@ =~= pre + ser_str(s@));
    }
}

/// Emit the wire text of a number.
fn emit_num(n: &Num, out: &mut Vec<char>)
    ensures
        final(out)@ == old(out)@ + ser_num(n@),
{
    let ghost pre = out@;
    match n {
        Num::Unsigned(u) => {
            emit_dec(*u, out);
        },
        Num::Negative(i) => {
            if *i < 0 {
                out.push('-');
                let m: u64 = if *i == i64::MIN {
                    9223372036854775808u64
                } else {
                    (-*i) as u64
                };
                proof {
                    assert(m as nat == (-(*i as int)) as nat);
                }
                emit_dec(m, out);
                proof {
                    assert(out@ =~= pre + ser_num(n@));
                }
            } else {
                emit_dec(*i as u64, out);
            }
        },
        Num::Decimal(s) => {
            let k = s.unicode_len();
            proof {
                assert(out@ =~= pre + s@.take(0));
            }
            let mut i: usize = 0;
            while i < k
                invariant
                    k == s@.len(),
                    0 <= i <= k,
                    out@ == pre + s@.take(i as int),
                decreases k - i,
            {
                let c = s.as_str().get_char(i);
                out.push(c);
                proof {
                    assert(out@ =~= pre + s@.take(i + 1));
                }
                i += 1;
            }
            proof {
                assert(s@.take(k as int) =~= s@);
                assert(out@ =~= pre + ser_num(n@));
            }
        },
    }
}

/// Emit the wire text of a value.
pub fn emit_value(v: &Value, out: &mut Vec<char>)
    ensures
        final(out)@ == old(out)@ + ser_value(v@),
    decreases *v, 1int,
{
    let ghost pre = out@;
    match v {
        Value::Null => {
            out.push('n');
            out.push('u');
            out.push('l');
            out.push('l');
            proof {
                assert(out@ =~= pre + seq!['n', 'u', 'l', 'l']);
                assert(ser_value(v@) == seq!['n', 'u', 'l', 'l']);
                assert(out@ == pre + ser_value(v@));
            }
        },
        Value::Bool(b) => {
            if *b {
                out.push('t');
                out.push('r');
                out.push('u');
                out.push('e');
            } else {
                out.push('f');
                out.push('a');
                out.push('l');
                out.push('s');
                out.push('e');
            }
            proof {
                assert(out@ =~= pre + ser_value(v@));
            }
        },
        Value::Num(n) => {
            emit_num(n, out);
        },
        Value::Text(s) => {
            emit_str(s.as_str(), out);
        },
        Value::List(xs) => {
            out.push('[');
            emit_items(xs, out);
            out.push(']');
            proof {
                assert(v@->List_0 =~= items_view(xs@));
                assert(out@ =~= pre + seq!['['] + ser_items(items_view(xs@)) + seq![']']);
                assert(out@ == pre + ser_value(v@));
            }
        },
        Value::Object(o) => {
            out.push('{');
            emit_entries(o, out);
            out.push('}');
            proof {
                assert(v@->Object_0 =~= o@);
                assert(out@ =~= pre + seq!['{'] + ser_entries(o@) + seq!['}']);
                assert(out@ == pre + ser_value(v@));
            }
        },
    }
}

/// One more item extends the comma-separated item text.
proof fn lemma_ser_items_snoc(xs: Seq<ValueV>, n: int)
    requires
        0 <= n < xs.len(),
    ensures
        ser_items(xs.take(n + 1)) == if n == 0 {
            ser_value(xs[0])
        } else {
            ser_items(xs.take(n)) + seq![','] + ser_value(xs[n])
        },
{
    assert(xs.take(n + 1).drop_last() =~= xs.take(n));
    assert(xs.take(n + 1).last() == xs[n]);
    if n == 0 {
        assert(ser_items(xs.take(1)) == ser_value(xs.take(1)[0]));
    }
}

/// Emit the comma-separated wire text of the values of `xs`.
pub fn emit_items(xs: &Vec<Value>, out: &mut Vec<char>)
    ensures
        final(out)@ == old(out)@ + ser_items(items_view(xs@)),
    decreases *xs, 0int,
{
    let ghost pre = out@;
    let n = xs.len();
    let ghost view = items_view(xs@);
    proof {
        assert(out@ =~= pre + ser_items(view.take(0)));
    }
    let mut i: usize = 0;
    while i < n
        invariant
            n == xs@.len(),
            view == items_view(xs@),
            view.len() == n,
            0 <= i <= n,
            out@ == pre + ser_items(view.take(i as int)),
        decreases n - i,
    {
        if i > 0 {
            out.push(',');
        }
        proof {
            assert(decreases_to!(*xs => xs@[i as int]));
        }
        emit_value(&xs[i], out);
        proof {
            lemma_ser_items_snoc(view, i as int);
            assert(view[i as int] == value_view(xs@[i as int]));
            assert(out@ =~= pre + ser_items(view.take(i + 1)));
        }
        i += 1;
    }
    proof {
        assert(view.take(n as int) =~= view);
    }
}

/// One more entry appended to a map extends its comma-separated text.
pub proof fn lemma_ser_entries_push(m: EntriesV, p: (Seq<char>, ValueV))
    ensures
        ser_entries(m.push(p)) == if m.len() == 0 {
            ser_entry(p)
        } else {
            ser_entries(m) + seq![','] + ser_entry(p)
        },
{
    assert(m.push(p).drop_last() =~= m);
    assert(m.push(p).last() == p);
    if m.len() == 0 {
        assert(ser_entries(m.push(p)) == ser_entry(m.push(p)[0]));
    }
}

/// One more entry extends the comma-separated entry text.
proof fn lemma_ser_entries_snoc(m: EntriesV, n: int)
    requires
        0 <= n < m.len(),
    ensures
        ser_entries(m.take(n + 1)) == if n == 0 {
            ser_entry(m[0])
        } else {
            ser_entries(m.take(n)) + seq![','] + ser_entry(m[n])
        },
{
    assert(m.take(n + 1).drop_last() =~= m.take(n));
    assert(m.take(n + 1).last() == m[n]);
    if n == 0 {
        assert(ser_entries(m.take(1)) == ser_entry(m.take(1)[0]));
    }
}

/// Emit the comma-separated wire text of the entries of `o`.
pub fn emit_entries(o: &Obj, out: &mut Vec<char>)
    ensures
        final(out)@ == old(out)@ + ser_entries(o@),
    decreases *o, 0int,
{
    let ghost pre = out@;
    let n = o.entries.len();
    proof {
        assert(out@ =~= pre + ser_entries(o@.take(0)));
    }
    let mut i: usize = 0;
    while i < n
        invariant
            n == o.entries@.len(),
            o@.len() == n,
            0 <= i <= n,
            out@ == pre + ser_entries(o@.take(i as int)),
        decreases n - i,
    {
        if i > 0 {
            out.push(',');
        }
        emit_str(o.entries[i].0.as_str(), out);
        out.push(':');
        proof {
            assert(decreases_to!(*o => o.entries@[i as int].1));
        }
        emit_value(&o.entries[i].1, out);
        proof {
            lemma_ser_entries_snoc(o@, i as int);
            assert(o@[i as int] == (o.entries@[i as int].0@, value_view(o.entries@[i as int].1)));
            assert(out@ =~= pre + ser_entries(o@.take(i + 1)));
        }
        i += 1;
    }
    proof {
        assert(o@.take(n as int) =~= o@);
    }
}

/// The wire text of a value, as a string.
pub fn to_json(v: &Value) -> (s: String)
    ensures
        s@ == ser_value(v@),
{
    let mut out: Vec<char> = Vec::new();
    emit_value(v, &mut out);
    proof {
        assert(out@ =~= ser_value(v@));
    }
    chars_to_string(&out)
}

} // verus!
