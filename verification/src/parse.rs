//! Parsing of wire text into values.  The grammar is stated by the
//! spec functions (`parsed` and its helpers); the executable parser is
//! proved to return exactly what the grammar assigns to its input.

use vstd::prelude::*;

use crate::ser::chars_to_string;
use crate::value::{
    dedup_entries, entries_view, items_view, value_view, EntriesV, Num, NumV, Obj, Value, ValueV,
};

verus! {

/// Whitespace accepted between tokens.
pub open spec fn is_ws(c: char) -> bool {
    c == ' ' || c == '\t' || c == '\n' || c == '\r'
}

/// A decimal digit.
pub open spec fn is_digit(c: char) -> bool {
    48 <= (c as u32) && (c as u32) <= 57
}

/// The first index at or after `i` holding no whitespace.
pub open spec fn ws(s: Seq<char>, i: int) -> int
    decreases s.len() - i,
{
    if 0 <= i < s.len() && is_ws(s[i]) {
        ws(s, i + 1)
    } else {
        i
    }
}

/// The first index at or after `i` holding no digit.
pub open spec fn digrun(s: Seq<char>, i: int) -> int
    decreases s.len() - i,
{
    if 0 <= i < s.len() && is_digit(s[i]) {
        digrun(s, i + 1)
    } else {
        i
    }
}

/// An index forced into the range `[lo, s.len()]` (and to `s.len()`
/// when even `lo` lies beyond the end).  The parser's recursion is
/// measured by the remaining input, and this bound keeps every measure
/// well-founded; whenever the executable parser reaches such an index
/// it already lies in the range, so the bound changes nothing.
pub open spec fn cap(s: Seq<char>, lo: int, j: int) -> int {
    if s.len() < lo {
        s.len() as int
    } else if j < lo {
        lo
    } else if j > s.len() {
        s.len() as int
    } else {
        j
    }
}

/// The value of a hexadecimal digit, or a negative number if `c` is no
/// such digit.
pub open spec fn hexv(c: char) -> int {
    let n = c as u32;
    if 48 <= n && n <= 57 {
        n - 48
    } else if 97 <= n && n <= 102 {
        n - 87
    } else if 65 <= n && n <= 70 {
        n - 55
    } else {
        -1
    }
}

/// The value of the four hexadecimal digits at `i`, or a negative
/// number if they are not there.
pub open spec fn hex4(s: Seq<char>, i: int) -> int {
    if 0 <= i && i + 4 <= s.len() && hexv(s[i]) >= 0 && hexv(s[i + 1]) >= 0 && hexv(s[i + 2]) >= 0
        && hexv(s[i + 3]) >= 0 {
        0x1000 * hexv(s[i]) + 0x100 * hexv(s[i + 1]) + 0x10 * hexv(s[i + 2]) + hexv(s[i + 3])
    } else {
        -1
    }
}

/// Prepend a character to a string-body parse.
pub open spec fn cons_char(c: char, r: Option<(Seq<char>, int)>) -> Option<(Seq<char>, int)> {
    match r {
        Some((cs, j)) => Some((seq![c] + cs, j)),
        None => None,
    }
}

/// The body of a string literal starting at `i` (just after the opening
/// quote): the characters up to the closing quote, with escapes
/// resolved, and the index just after the closing quote.
pub open spec fn p_strchars(s: Seq<char>, i: int) -> Option<(Seq<char>, int)>
    decreases s.len() - i,
{
    if i < 0 || i >= s.len() {
        None
    } else if s[i] == '"' {
        Some((Seq::empty(), i + 1))
    } else if s[i] == '\\' {
        if i + 1 >= s.len() {
            None
        } else {
            let e = s[i + 1];
            if e == '"' || e == '\\' || e == '/' {
                cons_char(e, p_strchars(s, i + 2))
            } else if e == 'b' {
                cons_char('\u{08}', p_strchars(s, i + 2))
            } else if e == 'f' {
                cons_char('\u{0C}', p_strchars(s, i + 2))
            } else if e == 'n' {
                cons_char('\u{0A}', p_strchars(s, i + 2))
            } else if e == 'r' {
                cons_char('\u{0D}', p_strchars(s, i + 2))
            } else if e == 't' {
                cons_char('\u{09}', p_strchars(s, i + 2))
            } else if e == 'u' {
                let h = hex4(s, i + 2);
                if h < 0 {
                    None
                } else if 0xD800 <= h && h < 0xDC00 {
                    if i + 12 <= s.len() && s[i + 6] == '\\' && s[i + 7] == 'u' && 0xDC00 <= hex4(
                        s,
                        i + 8,
                    ) && hex4(s, i + 8) < 0xE000 {
                        let l = hex4(s, i + 8);
                        let code = 0x10000 + 0x400 * (h - 0xD800) + (l - 0xDC00);
                        cons_char((code as u32) as char, p_strchars(s, i + 12))
                    } else {
                        None
                    }
                } else if 0xDC00 <= h && h < 0xE000 {
                    None
                } else {
                    cons_char((h as u32) as char, p_strchars(s, i + 6))
                }
            } else {
                None
            }
        }
    } else if (s[i] as u32) < 0x20 {
        None
    } else {
        cons_char(s[i], p_strchars(s, i + 1))
    }
}

/// The end of the fraction part beginning at `d1`, `d1` itself if none
/// starts there, or a negative number if a fraction starts but has no
/// digits.
pub open spec fn frac_end(s: Seq<char>, d1: int) -> int {
    if 0 <= d1 < s.len() && s[d1] == '.' {
        let t = digrun(s, d1 + 1);
        if t == d1 + 1 {
            -1
        } else {
            t
        }
    } else {
        d1
    }
}

/// The end of the exponent part beginning at `f1`, `f1` itself if none
/// starts there, or a negative number if an exponent starts but has no
/// digits.
pub open spec fn exp_end(s: Seq<char>, f1: int) -> int {
    if 0 <= f1 < s.len() && (s[f1] == 'e' || s[f1] == 'E') {
        let e0 = if f1 + 1 < s.len() && (s[f1 + 1] == '+' || s[f1 + 1] == '-') {
            f1 + 2
        } else {
            f1 + 1
        };
        let t = digrun(s, e0);
        if t == e0 {
            -1
        } else {
            t
        }
    } else {
        f1
    }
}

/// The value of a string of decimal digits.
pub open spec fn digits_val(ds: Seq<char>) -> nat
    decreases ds.len(),
{
    if ds.len() == 0 {
        0
    } else {
        digits_val(ds.drop_last()) * 10 + ((ds.last() as u32) - 48) as nat
    }
}

/// Powers of ten.
pub open spec fn pow10(n: nat) -> nat
    decreases n,
{
    if n == 0 {
        1
    } else {
        10 * pow10((n - 1) as nat)
    }
}

/// The number token at `i`: sign, digits, optional fraction and
/// exponent.  An integral token whose value is exactly representable
/// becomes an exact integer (non-negative up to the largest unsigned
/// 64-bit value; negative down to the smallest signed one, and never
/// `-0`); everything else is kept as its literal text.
pub open spec fn p_number(s: Seq<char>, i: int) -> Option<(ValueV, int)> {
    let neg = 0 <= i < s.len() && s[i] == '-';
    let d0 = if neg {
        i + 1
    } else {
        i
    };
    let d1 = digrun(s, d0);
    if d1 == d0 {
        None
    } else if d1 > d0 + 1 && s[d0] == '0' {
        None
    } else {
        let f1 = frac_end(s, d1);
        if f1 < 0 {
            None
        } else {
            let e1 = exp_end(s, f1);
            if e1 < 0 {
                None
            } else if f1 == d1 && e1 == f1 {
                let m = digits_val(s.subrange(d0, d1));
                if neg {
                    if 1 <= m && m <= 0x8000000000000000 {
                        Some((ValueV::Num(NumV::Negative((0 - m) as i64)), e1))
                    } else {
                        Some((ValueV::Num(NumV::Decimal(s.subrange(i, e1))), e1))
                    }
                } else if m <= 0xFFFFFFFFFFFFFFFF {
                    Some((ValueV::Num(NumV::Unsigned(m as u64)), e1))
                } else {
                    Some((ValueV::Num(NumV::Decimal(s.subrange(i, e1))), e1))
                }
            } else {
                Some((ValueV::Num(NumV::Decimal(s.subrange(i, e1))), e1))
            }
        }
    }
}

/// The value starting exactly at `i`.
pub open spec fn p_value(s: Seq<char>, i: int) -> Option<(ValueV, int)>
    decreases s.len() - i, 0int,
{
    if i < 0 || i >= s.len() {
        None
    } else {
        let c = s[i];
        if c == '[' {
            let j = cap(s, i + 1, ws(s, i + 1));
            if j < s.len() && s[j] == ']' {
                Some((ValueV::List(Seq::empty()), j + 1))
            } else {
                match p_elems(s, j) {
                    Some((xs, e)) => Some((ValueV::List(xs), e)),
                    None => None,
                }
            }
        } else if c == '{' {
            let j = cap(s, i + 1, ws(s, i + 1));
            if j < s.len() && s[j] == '}' {
                Some((ValueV::Object(Seq::empty()), j + 1))
            } else {
                match p_members(s, j) {
                    Some((m, e)) => Some((ValueV::Object(dedup_entries(m)), e)),
                    None => None,
                }
            }
        } else if c == '"' {
            match p_strchars(s, i + 1) {
                Some((cs, j)) => Some((ValueV::Text(cs), j)),
                None => None,
            }
        } else if c == 't' {
            if i + 4 <= s.len() && s[i + 1] == 'r' && s[i + 2] == 'u' && s[i + 3] == 'e' {
                Some((ValueV::Bool(true), i + 4))
            } else {
                None
            }
        } else if c == 'f' {
            if i + 5 <= s.len() && s[i + 1] == 'a' && s[i + 2] == 'l' && s[i + 3] == 's' && s[i + 4]
                == 'e' {
                Some((ValueV::Bool(false), i + 5))
            } else {
                None
            }
        } else if c == 'n' {
            if i + 4 <= s.len() && s[i + 1] == 'u' && s[i + 2] == 'l' && s[i + 3] == 'l' {
                Some((ValueV::Null, i + 4))
            } else {
                None
            }
        } else if c == '-' || is_digit(c) {
            p_number(s, i)
        } else {
            None
        }
    }
}

/// The non-empty element list of a sequence, starting at the first
/// element, up to and including the closing bracket.
pub open spec fn p_elems(s: Seq<char>, i: int) -> Option<(Seq<ValueV>, int)>
    decreases s.len() - i, 1int,
{
    if i < 0 || i >= s.len() {
        None
    } else {
        match p_value(s, i) {
            None => None,
            Some((v, j0)) => {
                let j = cap(s, i + 1, j0);
                let k = cap(s, j, ws(s, j));
                if k < s.len() && s[k] == ',' {
                    let m = cap(s, k + 1, ws(s, k + 1));
                    match p_elems(s, m) {
                        Some((rest, e)) => Some((seq![v] + rest, e)),
                        None => None,
                    }
                } else if k < s.len() && s[k] == ']' {
                    Some((seq![v], k + 1))
                } else {
                    None
                }
            },
        }
    }
}

/// The non-empty member list of a map, starting at the first key's
/// quote, up to and including the closing brace: the raw key-value
/// pairs as written.  The value production folds them with last-wins
/// insertion, so a repeated key keeps its first position and takes its
/// last value.
pub open spec fn p_members(s: Seq<char>, i: int) -> Option<(EntriesV, int)>
    decreases s.len() - i, 1int,
{
    if i < 0 || i >= s.len() || s[i] != '"' {
        None
    } else {
        match p_strchars(s, i + 1) {
            None => None,
            Some((key, j0)) => {
                let j = cap(s, i + 1, j0);
                let c1 = cap(s, j, ws(s, j));
                if !(c1 < s.len() && s[c1] == ':') {
                    None
                } else {
                    let vs = cap(s, c1 + 1, ws(s, c1 + 1));
                    match p_value(s, vs) {
                        None => None,
                        Some((v, e0)) => {
                            let e = cap(s, vs + 1, e0);
                            let k = cap(s, e, ws(s, e));
                            if k < s.len() && s[k] == ',' {
                                let m = cap(s, k + 1, ws(s, k + 1));
                                match p_members(s, m) {
                                    Some((rest, e2)) => Some((seq![(key, v)] + rest, e2)),
                                    None => None,
                                }
                            } else if k < s.len() && s[k] == '}' {
                                Some((seq![(key, v)], k + 1))
                            } else {
                                None
                            }
                        },
                    }
                }
            },
        }
    }
}

/// The single document held by `s`: optional whitespace, one value,
/// optional whitespace, end of input.
pub open spec fn parsed(s: Seq<char>) -> Option<ValueV> {
    let st = cap(s, 0, ws(s, 0));
    match p_value(s, st) {
        None => None,
        Some((v, e0)) => {
            let e = cap(s, st, e0);
            if cap(s, e, ws(s, e)) == s.len() {
                Some(v)
            } else {
                None
            }
        },
    }
}

/// Powers of ten grow monotonically.
proof fn lemma_pow10_mono(a: nat, b: nat)
    requires
        a <= b,
    ensures
        pow10(a) <= pow10(b),
    decreases b,
{
    if a < b {
        lemma_pow10_mono(a, (b - 1) as nat);
    }
}

/// Some powers of ten, written out.
proof fn lemma_pow10_values()
    ensures
        pow10(18) == 1000000000000000000,
        pow10(19) == 10000000000000000000,
        pow10(20) == 100000000000000000000,
{
    assert(pow10(0) == 1);
    assert(pow10(1) == 10);
    assert(pow10(2) == 100);
    assert(pow10(3) == 1000);
    assert(pow10(4) == 10000);
    assert(pow10(5) == 100000);
    assert(pow10(6) == 1000000);
    assert(pow10(7) == 10000000);
    assert(pow10(8) == 100000000);
    assert(pow10(9) == 1000000000);
    assert(pow10(10) == 10000000000);
    assert(pow10(11) == 100000000000);
    assert(pow10(12) == 1000000000000);
    assert(pow10(13) == 10000000000000);
    assert(pow10(14) == 100000000000000);
    assert(pow10(15) == 1000000000000000);
    assert(pow10(16) == 10000000000000000);
    assert(pow10(17) == 100000000000000000);
    assert(pow10(18) == 1000000000000000000);
    assert(pow10(19) == 10000000000000000000);
    assert(pow10(20) == 100000000000000000000);
}

/// A prefix of a digit string is worth no more than the whole.
proof fn lemma_digits_val_prefix(ds: Seq<char>, j: int)
    requires
        0 <= j <= ds.len(),
    ensures
        digits_val(ds.take(j)) <= digits_val(ds),
    decreases ds.len(),
{
    if j < ds.len() {
        lemma_digits_val_prefix(ds.drop_last(), j);
        assert(ds.drop_last().take(j) =~= ds.take(j));
    } else {
        assert(ds.take(j) =~= ds);
    }
}

/// A digit string without a leading zero is worth at least the power
/// of ten of its length.
proof fn lemma_digits_lower_bound(ds: Seq<char>)
    requires
        ds.len() >= 1,
        is_digit(ds[0]),
        ds[0] != '0',
    ensures
        digits_val(ds) >= pow10((ds.len() - 1) as nat),
    decreases ds.len(),
{
    if ds.len() == 1 {
        assert(ds.drop_last().len() == 0);
        assert((ds[0] as u32) != 48) by {
            vstd::utf8::char_u32_cast(ds[0], ds[0] as u32);
            vstd::utf8::char_u32_cast('0', '0' as u32);
            if (ds[0] as u32) == 48 {
                assert(ds[0] == ((48 as u32) as char));
                assert('0' == ((48 as u32) as char));
            }
        }
    } else {
        assert(ds.drop_last()[0] == ds[0]);
        lemma_digits_lower_bound(ds.drop_last());
        assert(pow10((ds.len() - 1) as nat) == 10 * pow10((ds.len() - 2) as nat));
    }
}

/// Skip whitespace from `i`.
fn skip_ws(s: &str, i: usize) -> (r: usize)
    requires
        i <= s@.len(),
    ensures
        r == ws(s@, i as int),
        i <= r <= s@.len(),
{
    let n = s.unicode_len();
    let mut j = i;
    while j < n
        invariant
            n == s@.len(),
            i <= j <= n,
            ws(s@, i as int) == ws(s@, j as int),
        decreases n - j,
    {
        let c = s.get_char(j);
        if !(c == ' ' || c == '\t' || c == '\n' || c == '\r') {
            proof {
                assert(ws(s@, j as int) == j as int);
            }
            return j;
        }
        j += 1;
    }
    proof {
        assert(ws(s@, j as int) == j as int);
    }
    j
}

/// Scan the run of decimal digits from `i`.
fn digit_run(s: &str, i: usize) -> (r: usize)
    requires
        i <= s@.len(),
    ensures
        r == digrun(s@, i as int),
        i <= r <= s@.len(),
        forall|j: int| i <= j < r ==> is_digit(#[trigger] s@[j]),
{
    let n = s.unicode_len();
    let mut j = i;
    while j < n
        invariant
            n == s@.len(),
            i <= j <= n,
            digrun(s@, i as int) == digrun(s@, j as int),
            forall|k: int| i <= k < j ==> is_digit(#[trigger] s@[k]),
        decreases n - j,
    {
        let c = s.get_char(j);
        let u = c as u32;
        if !(48 <= u && u <= 57) {
            proof {
                assert(digrun(s@, j as int) == j as int);
            }
            return j;
        }
        j += 1;
    }
    proof {
        assert(digrun(s@, j as int) == j as int);
    }
    j
}

/// The value of one hexadecimal digit.
fn hex_digit_value(c: char) -> (r: Option<u32>)
    ensures
        match r {
            Some(v) => hexv(c) == v && v < 16,
            None => hexv(c) < 0,
        },
{
    let u = c as u32;
    if 48 <= u && u <= 57 {
        Some(u - 48)
    } else if 97 <= u && u <= 102 {
        Some(u - 87)
    } else if 65 <= u && u <= 70 {
        Some(u - 55)
    } else {
        None
    }
}

/// Read four hexadecimal digits at `a`.
fn read_hex4(s: &str, a: usize) -> (r: Option<u32>)
    requires
        a <= s@.len(),
    ensures
        match r {
            Some(h) => hex4(s@, a as int) == h && h < 0x10000,
            None => hex4(s@, a as int) < 0,
        },
{
    let n = s.unicode_len();
    if n < 4 || a > n - 4 {
        return None;
    }
    let r0 = hex_digit_value(s.get_char(a));
    let r1 = hex_digit_value(s.get_char(a + 1));
    let r2 = hex_digit_value(s.get_char(a + 2));
    let r3 = hex_digit_value(s.get_char(a + 3));
    match (r0, r1, r2, r3) {
        (Some(h0), Some(h1), Some(h2), Some(h3)) => Some(
            0x1000 * h0 + 0x100 * h1 + 0x10 * h2 + h3,
        ),
        _ => None,
    }
}

/// Relies on char::from_u32: for a code point below 0x110000 that is
/// not a surrogate, it returns the character with that scalar value.
#[verifier::external_body]
fn char_from_code(u: u32) -> (c: char)
    requires
        u < 0xD800 || (0xE000 <= u && u < 0x110000),
    ensures
        c == u as char,
{
    char::from_u32(u).unwrap()
}

/// Parse the body of a string literal, starting just after the opening
/// quote.
fn parse_string_body(s: &str, i0: usize) -> (r: Option<(Vec<char>, usize)>)
    requires
        i0 <= s@.len(),
    ensures
        match r {
            Some(p) => p_strchars(s@, i0 as int) == Some((p.0@, p.1 as int)) && i0 < p.1
                <= s@.len(),
            None => p_strchars(s@, i0 as int) is None,
        },
{
    let n = s.unicode_len();
    let mut acc: Vec<char> = Vec::new();
    let mut i = i0;
    proof {
        if let Some((cs, j)) = p_strchars(s@, i0 as int) {
            assert(acc@ + cs =~= cs);
        }
    }
    while i < n
        invariant
            n == s@.len(),
            i0 <= i <= n,
            match p_strchars(s@, i as int) {
                Some((cs, j)) => p_strchars(s@, i0 as int) == Some((acc@ + cs, j)),
                None => p_strchars(s@, i0 as int) is None,
            },
        decreases n - i,
    {
        let ghost accv = acc@;
        let ghost iold = i as int;
        let c = s.get_char(i);
        if c == '"' {
            proof {
                assert(p_strchars(s@, iold) == Some((Seq::<char>::empty(), iold + 1)));
                assert(accv + Seq::<char>::empty() =~= accv);
            }
            return Some((acc, i + 1));
        } else if c == '\\' {
            if n - i < 2 {
                return None;
            }
            let e = s.get_char(i + 1);
            if e == '"' || e == '\\' || e == '/' {
                acc.push(e);
                i += 2;
            } else if e == 'b' {
                acc.push('\u{08}');
                i += 2;
            } else if e == 'f' {
                acc.push('\u{0C}');
                i += 2;
            } else if e == 'n' {
                acc.push('\u{0A}');
                i += 2;
            } else if e == 'r' {
                acc.push('\u{0D}');
                i += 2;
            } else if e == 't' {
                acc.push('\u{09}');
                i += 2;
            } else if e == 'u' {
                match read_hex4(s, i + 2) {
                    None => {
                        return None;
                    },
                    Some(h) => {
                        if 0xD800 <= h && h < 0xDC00 {
                            if n - i >= 12 && s.get_char(i + 6) == '\\' && s.get_char(i + 7)
                                == 'u' {
                                match read_hex4(s, i + 8) {
                                    Some(l) if 0xDC00 <= l && l < 0xE000 => {
                                        let code = 0x10000 + 0x400 * (h - 0xD800) + (l - 0xDC00);
                                        acc.push(char_from_code(code));
                                        i += 12;
                                    },
                                    _ => {
                                        return None;
                                    },
                                }
                            } else {
                                return None;
                            }
                        } else if 0xDC00 <= h && h < 0xE000 {
                            return None;
                        } else {
                            acc.push(char_from_code(h));
                            i += 6;
                        }
                    },
                }
            } else {
                return None;
            }
        } else if (c as u32) < 0x20 {
            return None;
        } else {
            acc.push(c);
            i += 1;
        }
        proof {
            assert(p_strchars(s@, iold) == cons_char(acc@[accv.len() as int], p_strchars(s@, i as int)));
            if let Some((cs, j)) = p_strchars(s@, i as int) {
                assert(accv + (seq![acc@[accv.len() as int]] + cs) =~= acc@ + cs);
            }
        }
    }
    proof {
        assert(p_strchars(s@, i as int) is None);
    }
    None
}

/// Parse the number token at `i`.
fn parse_number(s: &str, i: usize) -> (r: Option<(Value, usize)>)
    requires
        i < s@.len(),
    ensures
        match r {
            Some(p) => p_number(s@, i as int) == Some((p.0@, p.1 as int)) && i < p.1 <= s@.len(),
            None => p_number(s@, i as int) is None,
        },
{
    let n = s.unicode_len();
    let neg = s.get_char(i) == '-';
    let d0 = if neg {
        i + 1
    } else {
        i
    };
    let d1 = digit_run(s, d0);
    if d1 == d0 {
        return None;
    }
    if d1 > d0 + 1 && s.get_char(d0) == '0' {
        return None;
    }
    let f1: usize;
    if d1 < n && s.get_char(d1) == '.' {
        let t = digit_run(s, d1 + 1);
        if t == d1 + 1 {
            proof {
                assert(frac_end(s@, d1 as int) == -1);
            }
            return None;
        }
        f1 = t;
    } else {
        f1 = d1;
    }
    proof {
        assert(frac_end(s@, d1 as int) == f1 as int);
    }
    let e1: usize;
    if f1 < n {
        let ec = s.get_char(f1);
        if ec == 'e' || ec == 'E' {
            let e0 = if f1 + 1 < n {
                let sc = s.get_char(f1 + 1);
                if sc == '+' || sc == '-' {
                    f1 + 2
                } else {
                    f1 + 1
                }
            } else {
                f1 + 1
            };
            let t = digit_run(s, e0);
            if t == e0 {
                proof {
                    assert(exp_end(s@, f1 as int) == -1);
                }
                return None;
            }
            e1 = t;
        } else {
            e1 = f1;
        }
    } else {
        e1 = f1;
    }
    proof {
        assert(exp_end(s@, f1 as int) == e1 as int);
    }
    if f1 == d1 && e1 == f1 {
        let ghost ds = s@.subrange(d0 as int, d1 as int);
        if d1 - d0 > 20 {
            // Over twenty significant digits (no leading zero is
            // possible here), so the value exceeds every 64-bit range.
            proof {
                assert(ds[0] == s@[d0 as int]);
                lemma_digits_lower_bound(ds);
                lemma_pow10_mono(20, (ds.len() - 1) as nat);
                lemma_pow10_values();
            }
            let txt = s.substring_char(i, e1).to_owned();
            return Some((Value::Num(Num::Decimal(txt)), e1));
        }
        let mut acc: u64 = 0;
        let mut k = d0;
        let mut over: bool = false;
        proof {
            assert(s@.subrange(d0 as int, d0 as int) =~= Seq::<char>::empty());
        }
        while k < d1 && !over
            invariant
                n == s@.len(),
                i <= d0 <= k <= d1 <= n,
                forall|j: int| d0 <= j < d1 ==> is_digit(#[trigger] s@[j]),
                !over ==> acc == digits_val(s@.subrange(d0 as int, k as int)),
                over ==> digits_val(s@.subrange(d0 as int, k as int)) > 0xFFFFFFFFFFFFFFFF,
            decreases d1 - k,
        {
            let c = s.get_char(k);
            let d = (c as u32) - 48;
            proof {
                assert(s@.subrange(d0 as int, k + 1).drop_last() =~= s@.subrange(
                    d0 as int,
                    k as int,
                ));
                assert(s@.subrange(d0 as int, k + 1).last() == s@[k as int]);
            }
            // Guard against overflow: u64::MAX is 18446744073709551615,
            // so another digit fits only below its first nineteen
            // digits, or at them with the digit at most five.
            if acc < 1844674407370955161 || (acc == 1844674407370955161 && d <= 5) {
                acc = acc * 10 + (d as u64);
            } else {
                over = true;
            }
            k += 1;
        }
        proof {
            if over {
                assert(s@.subrange(d0 as int, k as int) =~= ds.take(k as int - d0 as int));
                lemma_digits_val_prefix(ds, k as int - d0 as int);
                assert(digits_val(ds) > 0xFFFFFFFFFFFFFFFF);
            } else {
                assert(s@.subrange(d0 as int, d1 as int) == ds);
            }
        }
        if neg {
            if over || acc == 0 {
                let txt = s.substring_char(i, e1).to_owned();
                return Some((Value::Num(Num::Decimal(txt)), e1));
            } else if acc <= 9223372036854775807 {
                return Some((Value::Num(Num::Negative(-(acc as i64))), e1));
            } else if acc == 9223372036854775808 {
                proof {
                    assert((0 - digits_val(ds) as int) as i64 == i64::MIN);
                }
                return Some((Value::Num(Num::Negative(i64::MIN)), e1));
            } else {
                let txt = s.substring_char(i, e1).to_owned();
                return Some((Value::Num(Num::Decimal(txt)), e1));
            }
        } else if over {
            let txt = s.substring_char(i, e1).to_owned();
            return Some((Value::Num(Num::Decimal(txt)), e1));
        } else {
            return Some((Value::Num(Num::Unsigned(acc)), e1));
        }
    }
    let txt = s.substring_char(i, e1).to_owned();
    Some((Value::Num(Num::Decimal(txt)), e1))
}

/// Parse the value starting exactly at `i`.
fn parse_value(s: &str, i: usize) -> (r: Option<(Value, usize)>)
    requires
        i <= s@.len(),
    ensures
        match r {
            Some(p) => p_value(s@, i as int) == Some((p.0@, p.1 as int)) && i < p.1 <= s@.len(),
            None => p_value(s@, i as int) is None,
        },
    decreases s@.len() - i, 0int,
{
    let n = s.unicode_len();
    if i >= n {
        return None;
    }
    let c = s.get_char(i);
    if c == '[' {
        let j = skip_ws(s, i + 1);
        proof {
            assert(cap(s@, i + 1, ws(s@, i + 1)) == j as int);
        }
        if j < n && s.get_char(j) == ']' {
            let xs: Vec<Value> = Vec::new();
            proof {
                assert(value_view(Value::List(xs))->List_0 =~= Seq::<ValueV>::empty());
                assert(Value::List(xs)@ == ValueV::List(Seq::<ValueV>::empty()));
            }
            return Some((Value::List(xs), j + 1));
        }
        match parse_elements(s, j) {
            Some((xs, e)) => {
                proof {
                    assert(value_view(Value::List(xs))->List_0 =~= items_view(xs@));
                    assert(Value::List(xs)@ == ValueV::List(items_view(xs@)));
                }
                Some((Value::List(xs), e))
            },
            None => None,
        }
    } else if c == '{' {
        let j = skip_ws(s, i + 1);
        proof {
            assert(cap(s@, i + 1, ws(s@, i + 1)) == j as int);
        }
        if j < n && s.get_char(j) == '}' {
            let o = Obj::new();
            proof {
                assert(value_view(Value::Object(o))->Object_0 =~= Seq::<(Seq<char>, ValueV)>::empty());
                assert(Value::Object(o)@ == ValueV::Object(Seq::<(Seq<char>, ValueV)>::empty()));
            }
            return Some((Value::Object(o), j + 1));
        }
        match parse_members(s, j) {
            Some((pairs, e)) => {
                let ghost pv = entries_view(pairs@);
                let total = pairs.len();
                let mut rest = pairs;
                let mut o = Obj::new();
                let mut done: usize = 0;
                proof {
                    assert(entries_view(rest@) =~= pv.skip(0));
                    assert(o@ == dedup_entries(pv.take(0)));
                }
                while rest.len() > 0
                    invariant
                        pv.len() == total,
                        done <= total,
                        entries_view(rest@) == pv.skip(done as int),
                        o@ == dedup_entries(pv.take(done as int)),
                    decreases rest.len(),
                {
                    let ghost restv = rest@;
                    let (key, val) = rest.remove(0);
                    o.insert(key, val);
                    proof {
                        assert(entries_view(restv).len() > 0);
                        assert((done as int) < pv.len());
                        assert(entries_view(restv) == pv.skip(done as int));
                        assert(entries_view(restv)[0] == pv[done as int]);
                        assert(pv.take(done + 1).drop_last() =~= pv.take(done as int));
                        assert(pv.take(done + 1).last() == pv[done as int]);
                        assert(o@ == dedup_entries(pv.take(done + 1)));
                        assert(entries_view(rest@) =~= entries_view(restv).skip(1));
                        assert(pv.skip(done as int).skip(1) =~= pv.skip(done + 1));
                    }
                    done += 1;
                }
                proof {
                    assert(done == total) by {
                        assert(pv.skip(done as int).len() == 0);
                    }
                    assert(pv.take(total as int) =~= pv);
                    assert(value_view(Value::Object(o))->Object_0 =~= o@);
                    assert(Value::Object(o)@ == ValueV::Object(dedup_entries(pv)));
                }
                Some((Value::Object(o), e))
            },
            None => None,
        }
    } else if c == '"' {
        match parse_string_body(s, i + 1) {
            Some((cs, j)) => {
                let t = chars_to_string(&cs);
                Some((Value::Text(t), j))
            },
            None => None,
        }
    } else if c == 't' {
        if n - i >= 4 && s.get_char(i + 1) == 'r' && s.get_char(i + 2) == 'u' && s.get_char(i + 3)
            == 'e' {
            Some((Value::Bool(true), i + 4))
        } else {
            None
        }
    } else if c == 'f' {
        if n - i >= 5 && s.get_char(i + 1) == 'a' && s.get_char(i + 2) == 'l' && s.get_char(i + 3)
            == 's' && s.get_char(i + 4) == 'e' {
            Some((Value::Bool(false), i + 5))
        } else {
            None
        }
    } else if c == 'n' {
        if n - i >= 4 && s.get_char(i + 1) == 'u' && s.get_char(i + 2) == 'l' && s.get_char(i + 3)
            == 'l' {
            Some((Value::Null, i + 4))
        } else {
            None
        }
    } else {
        let u = c as u32;
        if c == '-' || (48 <= u && u <= 57) {
            parse_number(s, i)
        } else {
            None
        }
    }
}

/// Parse the element list of a sequence, starting at the first element.
fn parse_elements(s: &str, i: usize) -> (r: Option<(Vec<Value>, usize)>)
    requires
        i <= s@.len(),
    ensures
        match r {
            Some(p) => p_elems(s@, i as int) == Some((items_view(p.0@), p.1 as int)) && i < p.1
                <= s@.len(),
            None => p_elems(s@, i as int) is None,
        },
    decreases s@.len() - i, 1int,
{
    let n = s.unicode_len();
    if i >= n {
        return None;
    }
    match parse_value(s, i) {
        None => None,
        Some((v, j)) => {
            proof {
                assert(cap(s@, i + 1, j as int) == j as int);
            }
            let k = skip_ws(s, j);
            proof {
                assert(cap(s@, j as int, ws(s@, j as int)) == k as int);
            }
            if k < n && s.get_char(k) == ',' {
                let m = skip_ws(s, k + 1);
                proof {
                    assert(cap(s@, k + 1, ws(s@, k + 1)) == m as int);
                }
                match parse_elements(s, m) {
                    Some((mut rest, e)) => {
                        let ghost restv = rest@;
                        rest.insert(0, v);
                        proof {
                            assert(items_view(rest@) =~= seq![v@] + items_view(restv));
                        }
                        Some((rest, e))
                    },
                    None => None,
                }
            } else if k < n && s.get_char(k) == ']' {
                let mut xs: Vec<Value> = Vec::new();
                xs.push(v);
                proof {
                    assert(items_view(xs@) =~= seq![v@]);
                }
                Some((xs, k + 1))
            } else {
                None
            }
        },
    }
}

/// Parse the member list of a map, starting at the first key's quote.
fn parse_members(s: &str, i: usize) -> (r: Option<(Vec<(String, Value)>, usize)>)
    requires
        i <= s@.len(),
    ensures
        match r {
            Some(p) => p_members(s@, i as int) == Some((entries_view(p.0@), p.1 as int)) && i
                < p.1 <= s@.len(),
            None => p_members(s@, i as int) is None,
        },
    decreases s@.len() - i, 1int,
{
    let n = s.unicode_len();
    if i >= n || s.get_char(i) != '"' {
        return None;
    }
    match parse_string_body(s, i + 1) {
        None => None,
        Some((cs, j)) => {
            let key = chars_to_string(&cs);
            proof {
                assert(cap(s@, i + 1, j as int) == j as int);
            }
            let c1 = skip_ws(s, j);
            proof {
                assert(cap(s@, j as int, ws(s@, j as int)) == c1 as int);
            }
            if !(c1 < n && s.get_char(c1) == ':') {
                return None;
            }
            let vs = skip_ws(s, c1 + 1);
            proof {
                assert(cap(s@, c1 + 1, ws(s@, c1 + 1)) == vs as int);
            }
            match parse_value(s, vs) {
                None => None,
                Some((v, e)) => {
                    proof {
                        assert(cap(s@, vs + 1, e as int) == e as int);
                    }
                    let k = skip_ws(s, e);
                    proof {
                        assert(cap(s@, e as int, ws(s@, e as int)) == k as int);
                    }
                    if k < n && s.get_char(k) == ',' {
                        let m = skip_ws(s, k + 1);
                        proof {
                            assert(cap(s@, k + 1, ws(s@, k + 1)) == m as int);
                        }
                        match parse_members(s, m) {
                            Some((mut rest, e2)) => {
                                let ghost restv = rest@;
                                rest.insert(0, (key, v));
                                proof {
                                    assert(entries_view(rest@) =~= seq![(cs@, v@)]
                                        + entries_view(restv));
                                }
                                Some((rest, e2))
                            },
                            None => None,
                        }
                    } else if k < n && s.get_char(k) == '}' {
                        let mut ps: Vec<(String, Value)> = Vec::new();
                        ps.push((key, v));
                        proof {
                            assert(entries_view(ps@) =~= seq![(cs@, v@)]);
                        }
                        Some((ps, k + 1))
                    } else {
                        None
                    }
                },
            }
        },
    }
}

/// Parse one document: optional whitespace, one value, optional
/// whitespace, end of input.
pub fn parse_text(s: &str) -> (r: Option<Value>)
    ensures
        match r {
            Some(v) => parsed(s@) == Some(v@),
            None => parsed(s@) is None,
        },
{
    let n = s.unicode_len();
    let st = skip_ws(s, 0);
    proof {
        assert(cap(s@, 0, ws(s@, 0)) == st as int);
    }
    match parse_value(s, st) {
        None => None,
        Some((v, e)) => {
            proof {
                assert(cap(s@, st as int, e as int) == e as int);
            }
            let t = skip_ws(s, e);
            proof {
                assert(cap(s@, e as int, ws(s@, e as int)) == t as int);
            }
            if t == n {
                Some(v)
            } else {
                None
            }
        },
    }
}

} // verus!
