//! The line codec: serializing a message to one wire line and parsing one
//! wire line back into a message, together with the classification of inbound
//! lines into greeting, reply and event.
//!
//! The wire format is one JSON-like value per line, UTF-8, newline-terminated.
//! The codec covers the shapes the protocol uses: `null`, booleans, signed
//! integers of at most 18 decimal digits, strings whose bytes are free of raw
//! control characters (`"` and `\` travel escaped), arrays and objects.
//! Whitespace between tokens is accepted on input and never produced on
//! output.

use vstd::prelude::*;

use crate::msg::{
    Message, Val, view_msg, view_elems, view_fields, lemma_view_elems, lemma_view_fields,
    has_key, key_qmp, key_return, key_event, get_field,
};

verus! {

broadcast use vstd::std_specs::vec::group_vec_axioms;

/// Byte values of the ASCII characters the codec reads and writes.
pub const B_QUOTE: u8 = 34;
pub const B_BACKSLASH: u8 = 92;
pub const B_SLASH: u8 = 47;
pub const B_LBRACE: u8 = 123;
pub const B_RBRACE: u8 = 125;
pub const B_LBRACK: u8 = 91;
pub const B_RBRACK: u8 = 93;
pub const B_COMMA: u8 = 44;
pub const B_COLON: u8 = 58;
pub const B_MINUS: u8 = 45;
pub const B_ZERO: u8 = 48;
pub const B_NINE: u8 = 57;
pub const B_NL: u8 = 10;
pub const B_CR: u8 = 13;
pub const B_TAB: u8 = 9;
pub const B_SPACE: u8 = 32;
pub const B_LOW_A: u8 = 97;
pub const B_LOW_E: u8 = 101;
pub const B_LOW_F: u8 = 102;
pub const B_LOW_L: u8 = 108;
pub const B_LOW_N: u8 = 110;
pub const B_LOW_R: u8 = 114;
pub const B_LOW_S: u8 = 115;
pub const B_LOW_T: u8 = 116;
pub const B_LOW_U: u8 = 117;

/// Serialization of one value, without the trailing newline.
pub open spec fn ser_val(v: Val) -> Seq<u8>
    decreases v, 0int,
{
    match v {
        Val::Null => seq![B_LOW_N, B_LOW_U, B_LOW_L, B_LOW_L],
        Val::Bool(b) => if b {
            seq![B_LOW_T, B_LOW_R, B_LOW_U, B_LOW_E]
        } else {
            seq![B_LOW_F, B_LOW_A, B_LOW_L, B_LOW_S, B_LOW_E]
        },
        Val::Int(n) => ser_int(n),
        Val::Str(s) => ser_str(s),
        Val::Arr(es) => seq![B_LBRACK] + ser_elems_from(es, 0) + seq![B_RBRACK],
        Val::Obj(fs) => seq![B_LBRACE] + ser_fields_from(fs, 0) + seq![B_RBRACE],
    }
}

/// Serialization of the elements `es[i..]`, comma-separated.
pub open spec fn ser_elems_from(es: Seq<Val>, i: int) -> Seq<u8>
    decreases es, es.len() - i,
{
    if i < 0 || i >= es.len() {
        Seq::empty()
    } else if i == es.len() - 1 {
        ser_val(es[i])
    } else {
        ser_val(es[i]) + seq![B_COMMA] + ser_elems_from(es, i + 1)
    }
}

/// Serialization of the fields `fs[i..]`, comma-separated `key:value` pairs.
pub open spec fn ser_fields_from(fs: Seq<(Seq<u8>, Val)>, i: int) -> Seq<u8>
    decreases fs, fs.len() - i,
{
    if i < 0 || i >= fs.len() {
        Seq::empty()
    } else if i == fs.len() - 1 {
        ser_field(fs[i])
    } else {
        ser_field(fs[i]) + seq![B_COMMA] + ser_fields_from(fs, i + 1)
    }
}

/// Serialization of one object field.
pub open spec fn ser_field(f: (Seq<u8>, Val)) -> Seq<u8>
    decreases f, 0int,
{
    ser_str(f.0) + seq![B_COLON] + ser_val(f.1)
}

/// Serialization of an integer: an optional minus sign and decimal digits.
pub open spec fn ser_int(n: int) -> Seq<u8> {
    if n < 0 {
        seq![B_MINUS] + dec_digits((-n) as nat)
    } else {
        dec_digits(n as nat)
    }
}

/// Decimal digits of a magnitude, most significant first.
pub open spec fn dec_digits(m: nat) -> Seq<u8>
    decreases m,
{
    if m < 10 {
        seq![(B_ZERO + m) as u8]
    } else {
        dec_digits(m / 10) + seq![(B_ZERO + m % 10) as u8]
    }
}

/// Serialization of a string: quoted, with `"` and `\` escaped.
pub open spec fn ser_str(s: Seq<u8>) -> Seq<u8> {
    seq![B_QUOTE] + esc_from(s, 0) + seq![B_QUOTE]
}

/// Escaped form of the string bytes `s[i..]`.
pub open spec fn esc_from(s: Seq<u8>, i: int) -> Seq<u8>
    decreases s.len() - i,
{
    if i < 0 || i >= s.len() {
        Seq::empty()
    } else {
        esc_byte(s[i]) + esc_from(s, i + 1)
    }
}

/// Escaped form of one string byte.
pub open spec fn esc_byte(b: u8) -> Seq<u8> {
    if b == B_QUOTE || b == B_BACKSLASH {
        seq![B_BACKSLASH, b]
    } else {
        seq![b]
    }
}

/// One full outbound frame: the value followed by a newline.
pub open spec fn ser_line(v: Val) -> Seq<u8> {
    ser_val(v) + seq![B_NL]
}

/// Appends the decimal digits of `m` to `out`.
fn write_dec(m: u64, out: &mut Vec<u8>)
    ensures
        final(out)@ == old(out)@ + dec_digits(m as nat),
    decreases m,
{
    if m < 10 {
        out.push(B_ZERO + (m as u8));
        assert(out@ =~= old(out)@ + dec_digits(m as nat));
    } else {
        write_dec(m / 10, out);
        out.push(B_ZERO + ((m % 10) as u8));
        assert(out@ =~= old(out)@ + dec_digits(m as nat));
    }
}

/// Appends the serialization of one string to `out`.
fn write_str(s: &Vec<u8>, out: &mut Vec<u8>)
    ensures
        final(out)@ == old(out)@ + ser_str(s@),
{
    out.push(B_QUOTE);
    let n = s.len();
    let mut i: usize = 0;
    while i < n
        invariant
            n == s@.len(),
            i <= n,
            out@ + esc_from(s@, i as int) == old(out)@ + seq![B_QUOTE] + esc_from(s@, 0),
        decreases n - i,
    {
        let b = s[i];
        if b == B_QUOTE || b == B_BACKSLASH {
            out.push(B_BACKSLASH);
        }
        out.push(b);
        assert(esc_from(s@, i as int) == esc_byte(s@[i as int]) + esc_from(s@, i + 1));
        assert(out@ + esc_from(s@, i + 1) =~= old(out)@ + seq![B_QUOTE] + esc_from(s@, 0));
        i = i + 1;
    }
    out.push(B_QUOTE);
    assert(out@ =~= old(out)@ + ser_str(s@));
}

/// Appends the serialization of one value to `out`.
#[verifier::loop_isolation(false)]
pub fn write_value(m: &Message, out: &mut Vec<u8>)
    ensures
        final(out)@ == old(out)@ + ser_val(m@),
    decreases *m,
{
    match m {
        Message::Null => {
            out.push(B_LOW_N);
            out.push(B_LOW_U);
            out.push(B_LOW_L);
            out.push(B_LOW_L);
            assert(out@ =~= old(out)@ + ser_val(m@));
        },
        Message::Bool(b) => {
            if *b {
                out.push(B_LOW_T);
                out.push(B_LOW_R);
                out.push(B_LOW_U);
                out.push(B_LOW_E);
            } else {
                out.push(B_LOW_F);
                out.push(B_LOW_A);
                out.push(B_LOW_L);
                out.push(B_LOW_S);
                out.push(B_LOW_E);
            }
            assert(out@ =~= old(out)@ + ser_val(m@));
        },
        Message::Int(n) => {
            let n = *n;
            let mag: u64 = if n >= 0 {
                n as u64
            } else {
                out.push(B_MINUS);
                ((-(n + 1)) as u64) + 1
            };
            assert(mag as int == if n as int >= 0 { n as int } else { -(n as int) });
            write_dec(mag, out);
            assert(out@ =~= old(out)@ + ser_int(n as int));
        },
        Message::Str(s) => {
            write_str(s, out);
        },
        Message::Arr(elems) => {
            proof {
                lemma_view_elems(elems@);
            }
            let ghost es = view_elems(elems@);
            out.push(B_LBRACK);
            let n = elems.len();
            let mut i: usize = 0;
            while i < n
                invariant
                    n == elems@.len(),
                    es == view_elems(elems@),
                    es.len() == n,
                    forall|j: int| 0 <= j < n ==> #[trigger] es[j] == view_msg(elems@[j]),
                    i <= n,
                    out@ + ser_elems_from(es, i as int) == old(out)@ + seq![B_LBRACK]
                        + ser_elems_from(es, 0),
                decreases n - i,
            {
                write_value(&elems[i], out);
                if i + 1 < n {
                    out.push(B_COMMA);
                    assert(ser_elems_from(es, i as int) == ser_val(es[i as int]) + seq![B_COMMA]
                        + ser_elems_from(es, i + 1));
                } else {
                    assert(ser_elems_from(es, i as int) == ser_val(es[i as int]));
                    assert(ser_elems_from(es, i + 1) =~= Seq::<u8>::empty());
                }
                assert(out@ + ser_elems_from(es, i + 1) =~= old(out)@ + seq![B_LBRACK]
                    + ser_elems_from(es, 0));
                i = i + 1;
            }
            out.push(B_RBRACK);
            assert(out@ =~= old(out)@ + ser_val(m@));
        },
        Message::Obj(fields) => {
            proof {
                lemma_view_fields(fields@);
            }
            let ghost fs = view_fields(fields@);
            out.push(B_LBRACE);
            let n = fields.len();
            let mut i: usize = 0;
            while i < n
                invariant
                    n == fields@.len(),
                    fs == view_fields(fields@),
                    fs.len() == n,
                    forall|j: int| 0 <= j < n ==> #[trigger] fs[j] == (fields@[j].0@, view_msg(
                        fields@[j].1,
                    )),
                    i <= n,
                    out@ + ser_fields_from(fs, i as int) == old(out)@ + seq![B_LBRACE]
                        + ser_fields_from(fs, 0),
                decreases n - i,
            {
                write_str(&fields[i].0, out);
                out.push(B_COLON);
                write_value(&fields[i].1, out);
                if i + 1 < n {
                    out.push(B_COMMA);
                    assert(ser_fields_from(fs, i as int) == ser_field(fs[i as int]) + seq![B_COMMA]
                        + ser_fields_from(fs, i + 1));
                } else {
                    assert(ser_fields_from(fs, i as int) == ser_field(fs[i as int]));
                    assert(ser_fields_from(fs, i + 1) =~= Seq::<u8>::empty());
                }
                assert(ser_field(fs[i as int]) == ser_str(fields@[i as int].0@) + seq![B_COLON]
                    + ser_val(view_msg(fields@[i as int].1)));
                assert(out@ + ser_fields_from(fs, i + 1) =~= old(out)@ + seq![B_LBRACE]
                    + ser_fields_from(fs, 0));
                i = i + 1;
            }
            out.push(B_RBRACE);
            assert(out@ =~= old(out)@ + ser_val(m@));
        },
    }
}

/// Serializes one outbound frame: the value followed by a newline.
pub fn serialize_line(m: &Message) -> (r: Vec<u8>)
    ensures
        r@ == ser_line(m@),
{
    let mut out: Vec<u8> = Vec::new();
    write_value(m, &mut out);
    out.push(B_NL);
    assert(out@ =~= ser_line(m@));
    out
}

/// True of the bytes treated as whitespace between tokens.
pub open spec fn is_ws(b: u8) -> bool {
    b == B_SPACE || b == B_TAB || b == B_CR || b == B_NL
}

/// True of the decimal digit bytes.
pub open spec fn is_digit(b: u8) -> bool {
    B_ZERO <= b && b <= B_NINE
}

/// Numeric value of a digit byte.
pub open spec fn digit_val(b: u8) -> int {
    b - B_ZERO
}

/// Position of the first non-whitespace byte at or after `i`.
pub open spec fn skip_ws(s: Seq<u8>, i: int) -> int
    decreases s.len() - i,
{
    if 0 <= i < s.len() && is_ws(s[i]) {
        skip_ws(s, i + 1)
    } else {
        i
    }
}

/// End of the run of decimal digits starting at `i`.
pub open spec fn digits_end(s: Seq<u8>, i: int) -> int
    decreases s.len() - i,
{
    if 0 <= i < s.len() && is_digit(s[i]) {
        digits_end(s, i + 1)
    } else {
        i
    }
}

/// Value of the decimal digits in `s[i..j]`.
pub open spec fn digits_val(s: Seq<u8>, i: int, j: int) -> int
    decreases j - i,
{
    if j <= i {
        0
    } else {
        digits_val(s, i, j - 1) * 10 + digit_val(s[j - 1])
    }
}

/// True of the bytes accepted after a backslash.
pub open spec fn is_esc_code(b: u8) -> bool {
    b == B_QUOTE || b == B_BACKSLASH || b == B_SLASH || b == B_LOW_N || b == B_LOW_T || b
        == B_LOW_R
}

/// The byte an escape code stands for.
pub open spec fn unesc(b: u8) -> u8 {
    if b == B_LOW_N {
        B_NL
    } else if b == B_LOW_T {
        B_TAB
    } else if b == B_LOW_R {
        B_CR
    } else {
        b
    }
}

/// Parses a string body from `i` (just after the opening quote); returns the
/// bytes and the position after the closing quote.
pub open spec fn parse_str_body(s: Seq<u8>, i: int) -> Option<(Seq<u8>, int)>
    decreases s.len() - i,
{
    if !(0 <= i < s.len()) {
        None
    } else if s[i] == B_QUOTE {
        Some((Seq::empty(), i + 1))
    } else if s[i] == B_BACKSLASH {
        if i + 1 < s.len() && is_esc_code(s[i + 1]) {
            match parse_str_body(s, i + 2) {
                Some((t, e)) => Some((seq![unesc(s[i + 1])] + t, e)),
                None => None,
            }
        } else {
            None
        }
    } else if s[i] < B_SPACE {
        None
    } else {
        match parse_str_body(s, i + 1) {
            Some((t, e)) => Some((seq![s[i]] + t, e)),
            None => None,
        }
    }
}

/// Parses an integer at `i`: an optional minus sign and at most 18 digits.
pub open spec fn parse_int(s: Seq<u8>, i: int) -> Option<(Val, int)> {
    let neg = 0 <= i < s.len() && s[i] == B_MINUS;
    let d = if neg {
        i + 1
    } else {
        i
    };
    let e = digits_end(s, d);
    if e == d || e - d > 18 {
        None
    } else if neg {
        Some((Val::Int(-digits_val(s, d, e)), e))
    } else {
        Some((Val::Int(digits_val(s, d, e)), e))
    }
}

/// Parses one value at `i`, skipping leading whitespace.
///
/// In this and the following parsing functions, the bound checks against `i`
/// are there to keep the mutual recursion visibly decreasing; the skipped and
/// parsed-over positions never in fact move backwards.
pub open spec fn parse_value(s: Seq<u8>, i: int) -> Option<(Val, int)>
    decreases s.len() - i, 0int,
{
    let j = skip_ws(s, i);
    if !(i <= j < s.len()) {
        None
    } else if s[j] == B_LOW_N {
        if j + 4 <= s.len() && s[j + 1] == B_LOW_U && s[j + 2] == B_LOW_L && s[j + 3] == B_LOW_L {
            Some((Val::Null, j + 4))
        } else {
            None
        }
    } else if s[j] == B_LOW_T {
        if j + 4 <= s.len() && s[j + 1] == B_LOW_R && s[j + 2] == B_LOW_U && s[j + 3] == B_LOW_E {
            Some((Val::Bool(true), j + 4))
        } else {
            None
        }
    } else if s[j] == B_LOW_F {
        if j + 5 <= s.len() && s[j + 1] == B_LOW_A && s[j + 2] == B_LOW_L && s[j + 3] == B_LOW_S
            && s[j + 4] == B_LOW_E {
            Some((Val::Bool(false), j + 5))
        } else {
            None
        }
    } else if s[j] == B_QUOTE {
        match parse_str_body(s, j + 1) {
            Some((t, e)) => Some((Val::Str(t), e)),
            None => None,
        }
    } else if s[j] == B_LBRACE {
        match parse_fields(s, j + 1) {
            Some((fs, e)) => Some((Val::Obj(fs), e)),
            None => None,
        }
    } else if s[j] == B_LBRACK {
        match parse_elems(s, j + 1) {
            Some((es, e)) => Some((Val::Arr(es), e)),
            None => None,
        }
    } else if s[j] == B_MINUS || is_digit(s[j]) {
        parse_int(s, j)
    } else {
        None
    }
}

/// Parses the inside of an object from `i` (just after `{`) through `}`.
pub open spec fn parse_fields(s: Seq<u8>, i: int) -> Option<(Seq<(Seq<u8>, Val)>, int)>
    decreases s.len() - i, 2int,
{
    let j = skip_ws(s, i);
    if !(i <= j < s.len()) {
        None
    } else if s[j] == B_RBRACE {
        Some((Seq::empty(), j + 1))
    } else {
        parse_members(s, i)
    }
}

/// Parses one or more `"key":value` pairs from `i` through `}`.
pub open spec fn parse_members(s: Seq<u8>, i: int) -> Option<(Seq<(Seq<u8>, Val)>, int)>
    decreases s.len() - i, 1int,
{
    let j = skip_ws(s, i);
    if !(i <= j < s.len()) {
        None
    } else if s[j] == B_QUOTE {
        match parse_str_body(s, j + 1) {
            Some((key, k)) => {
                let j2 = skip_ws(s, k);
                if !(i <= j2 < s.len()) {
                    None
                } else if s[j2] != B_COLON {
                    None
                } else {
                    match parse_value(s, j2 + 1) {
                        Some((v, e)) => {
                            let j3 = skip_ws(s, e);
                            if !(i <= j3 < s.len()) {
                                None
                            } else if s[j3] == B_COMMA {
                                match parse_members(s, j3 + 1) {
                                    Some((fs, e2)) => Some((seq![(key, v)] + fs, e2)),
                                    None => None,
                                }
                            } else if s[j3] == B_RBRACE {
                                Some((seq![(key, v)], j3 + 1))
                            } else {
                                None
                            }
                        },
                        None => None,
                    }
                }
            },
            None => None,
        }
    } else {
        None
    }
}

/// Parses the inside of an array from `i` (just after `[`) through `]`.
pub open spec fn parse_elems(s: Seq<u8>, i: int) -> Option<(Seq<Val>, int)>
    decreases s.len() - i, 2int,
{
    let j = skip_ws(s, i);
    if !(i <= j < s.len()) {
        None
    } else if s[j] == B_RBRACK {
        Some((Seq::empty(), j + 1))
    } else {
        parse_items(s, i)
    }
}

/// Parses one or more comma-separated values from `i` through `]`.
pub open spec fn parse_items(s: Seq<u8>, i: int) -> Option<(Seq<Val>, int)>
    decreases s.len() - i, 1int,
{
    match parse_value(s, i) {
        Some((v, e)) => {
            let j = skip_ws(s, e);
            if !(i <= j < s.len()) {
                None
            } else if s[j] == B_COMMA {
                match parse_items(s, j + 1) {
                    Some((vs, e2)) => Some((seq![v] + vs, e2)),
                    None => None,
                }
            } else if s[j] == B_RBRACK {
                Some((seq![v], j + 1))
            } else {
                None
            }
        },
        None => None,
    }
}

/// Parses one full line: a single value surrounded only by whitespace.
pub open spec fn spec_parse_line(s: Seq<u8>) -> Option<Val> {
    match parse_value(s, 0) {
        Some((v, e)) => if skip_ws(s, e) == s.len() {
            Some(v)
        } else {
            None
        },
        None => None,
    }
}

/// Powers of ten, for bounding digit accumulation.
pub open spec fn pow10(k: nat) -> int
    decreases k,
{
    if k == 0 {
        1
    } else {
        10 * pow10((k - 1) as nat)
    }
}

/// Powers of ten are at least one.
proof fn lemma_pow10_pos(k: nat)
    ensures
        pow10(k) >= 1,
    decreases k,
{
    if k > 0 {
        lemma_pow10_pos((k - 1) as nat);
    }
}

/// Powers of ten grow with the exponent.
proof fn lemma_pow10_mono(a: nat, b: nat)
    requires
        a <= b,
    ensures
        pow10(a) <= pow10(b),
    decreases b,
{
    if a < b {
        lemma_pow10_mono(a, (b - 1) as nat);
        lemma_pow10_pos((b - 1) as nat);
    }
}

/// Position of the first non-whitespace byte at or after `i`.
fn ws_end(s: &Vec<u8>, i: usize) -> (r: usize)
    requires
        i <= s@.len(),
    ensures
        r as int == skip_ws(s@, i as int),
        i <= r <= s@.len(),
{
    let mut j = i;
    while j < s.len() && (s[j] == B_SPACE || s[j] == B_TAB || s[j] == B_CR || s[j] == B_NL)
        invariant
            i <= j <= s@.len(),
            skip_ws(s@, i as int) == skip_ws(s@, j as int),
        decreases s@.len() - j,
    {
        j = j + 1;
    }
    j
}

/// End of the run of decimal digits starting at `i`.
fn dig_end(s: &Vec<u8>, i: usize) -> (r: usize)
    requires
        i <= s@.len(),
    ensures
        r as int == digits_end(s@, i as int),
        i <= r <= s@.len(),
        forall|t: int| i <= t < r ==> is_digit(s@[t]),
{
    let mut j = i;
    while j < s.len() && s[j] >= B_ZERO && s[j] <= B_NINE
        invariant
            i <= j <= s@.len(),
            digits_end(s@, i as int) == digits_end(s@, j as int),
            forall|t: int| i <= t < j ==> is_digit(s@[t]),
        decreases s@.len() - j,
    {
        j = j + 1;
    }
    j
}

/// Parses a string body from `i`, just after the opening quote.
fn parse_str_at(s: &Vec<u8>, i: usize) -> (r: Option<(Vec<u8>, usize)>)
    requires
        i <= s@.len(),
    ensures
        match r {
            Some((t, e)) => parse_str_body(s@, i as int) == Some((t@, e as int)) && i < e
                <= s@.len(),
            None => parse_str_body(s@, i as int) is None,
        },
    decreases s@.len() - i,
{
    if i >= s.len() {
        return None;
    }
    let b = s[i];
    if b == B_QUOTE {
        let t: Vec<u8> = Vec::new();
        assert(t@ =~= Seq::<u8>::empty());
        Some((t, i + 1))
    } else if b == B_BACKSLASH {
        if s.len() - i >= 2 {
            let c = s[i + 1];
            if c == B_QUOTE || c == B_BACKSLASH || c == B_SLASH || c == B_LOW_N || c == B_LOW_T
                || c == B_LOW_R {
                let u = if c == B_LOW_N {
                    B_NL
                } else if c == B_LOW_T {
                    B_TAB
                } else if c == B_LOW_R {
                    B_CR
                } else {
                    c
                };
                assert(u == unesc(c));
                match parse_str_at(s, i + 2) {
                    Some((t, e)) => {
                        let mut t = t;
                        let ghost t0 = t@;
                        t.insert(0, u);
                        assert(t@ =~= seq![unesc(c)] + t0);
                        Some((t, e))
                    },
                    None => None,
                }
            } else {
                None
            }
        } else {
            None
        }
    } else if b < B_SPACE {
        None
    } else {
        match parse_str_at(s, i + 1) {
            Some((t, e)) => {
                let mut t = t;
                let ghost t0 = t@;
                t.insert(0, b);
                assert(t@ =~= seq![b] + t0);
                Some((t, e))
            },
            None => None,
        }
    }
}

/// Parses an integer at `i`, which holds a minus sign or a digit.
fn parse_int_at(s: &Vec<u8>, i: usize) -> (r: Option<(Message, usize)>)
    requires
        i < s@.len(),
    ensures
        match r {
            Some((m, e)) => parse_int(s@, i as int) == Some((m@, e as int)) && i < e <= s@.len(),
            None => parse_int(s@, i as int) is None,
        },
{
    // fixing the length as a usize grounds the index arithmetic below
    let n = s.len();
    let neg = s[i] == B_MINUS;
    let d = if neg {
        i + 1
    } else {
        i
    };
    let e = dig_end(s, d);
    if e == d {
        return None;
    }
    if e - d > 18 {
        return None;
    }
    let mut acc: u64 = 0;
    let mut k = d;
    while k < e
        invariant
            d <= k <= e,
            e <= s@.len(),
            e - d <= 18,
            forall|t: int| d <= t < e ==> is_digit(s@[t]),
            acc as int == digits_val(s@, d as int, k as int),
            (acc as int) < pow10((k - d) as nat),
        decreases e - k,
    {
        let dg = s[k] - B_ZERO;
        proof {
            lemma_pow10_mono((k - d) as nat, 17);
            assert(pow10(17) == 100_000_000_000_000_000) by {
                reveal_with_fuel(pow10, 18);
            }
            assert(pow10(((k + 1) - d) as nat) == 10 * pow10((k - d) as nat));
        }
        acc = acc * 10 + (dg as u64);
        k = k + 1;
    }
    proof {
        lemma_pow10_mono((e - d) as nat, 18);
        assert(pow10(18) == 1_000_000_000_000_000_000) by {
            reveal_with_fuel(pow10, 19);
        }
    }
    if neg {
        Some((Message::Int(-(acc as i64)), e))
    } else {
        Some((Message::Int(acc as i64), e))
    }
}

/// Parses one value at `i`, skipping leading whitespace.
fn parse_value_at(s: &Vec<u8>, i: usize) -> (r: Option<(Message, usize)>)
    requires
        i <= s@.len(),
    ensures
        match r {
            Some((m, e)) => parse_value(s@, i as int) == Some((m@, e as int)) && i < e
                <= s@.len(),
            None => parse_value(s@, i as int) is None,
        },
    decreases s@.len() - i, 0int,
{
    let j = ws_end(s, i);
    if j >= s.len() {
        return None;
    }
    let b = s[j];
    if b == B_LOW_N {
        if s.len() - j >= 4 && s[j + 1] == B_LOW_U && s[j + 2] == B_LOW_L && s[j + 3] == B_LOW_L {
            Some((Message::Null, j + 4))
        } else {
            None
        }
    } else if b == B_LOW_T {
        if s.len() - j >= 4 && s[j + 1] == B_LOW_R && s[j + 2] == B_LOW_U && s[j + 3] == B_LOW_E {
            Some((Message::Bool(true), j + 4))
        } else {
            None
        }
    } else if b == B_LOW_F {
        if s.len() - j >= 5 && s[j + 1] == B_LOW_A && s[j + 2] == B_LOW_L && s[j + 3] == B_LOW_S
            && s[j + 4] == B_LOW_E {
            Some((Message::Bool(false), j + 5))
        } else {
            None
        }
    } else if b == B_QUOTE {
        match parse_str_at(s, j + 1) {
            Some((t, e)) => Some((Message::Str(t), e)),
            None => None,
        }
    } else if b == B_LBRACE {
        match parse_fields_at(s, j + 1) {
            Some((fs, e)) => Some((Message::Obj(fs), e)),
            None => None,
        }
    } else if b == B_LBRACK {
        match parse_elems_at(s, j + 1) {
            Some((es, e)) => Some((Message::Arr(es), e)),
            None => None,
        }
    } else if b == B_MINUS || (b >= B_ZERO && b <= B_NINE) {
        parse_int_at(s, j)
    } else {
        None
    }
}

/// Parses the inside of an object from `i`, just after the opening brace.
fn parse_fields_at(s: &Vec<u8>, i: usize) -> (r: Option<(Vec<(Vec<u8>, Message)>, usize)>)
    requires
        i <= s@.len(),
    ensures
        match r {
            Some((fs, e)) => parse_fields(s@, i as int) == Some((view_fields(fs@), e as int)) && i
                < e <= s@.len(),
            None => parse_fields(s@, i as int) is None,
        },
    decreases s@.len() - i, 2int,
{
    let j = ws_end(s, i);
    if j >= s.len() {
        return None;
    }
    if s[j] == B_RBRACE {
        let fs: Vec<(Vec<u8>, Message)> = Vec::new();
        assert(view_fields(fs@) =~= Seq::<(Seq<u8>, Val)>::empty());
        Some((fs, j + 1))
    } else {
        parse_members_at(s, i)
    }
}

/// Parses one or more `"key":value` pairs from `i` through the closing brace.
fn parse_members_at(s: &Vec<u8>, i: usize) -> (r: Option<(Vec<(Vec<u8>, Message)>, usize)>)
    requires
        i <= s@.len(),
    ensures
        match r {
            Some((fs, e)) => parse_members(s@, i as int) == Some((view_fields(fs@), e as int))
                && i < e <= s@.len(),
            None => parse_members(s@, i as int) is None,
        },
    decreases s@.len() - i, 1int,
{
    let j = ws_end(s, i);
    if j >= s.len() {
        return None;
    }
    if s[j] != B_QUOTE {
        return None;
    }
    match parse_str_at(s, j + 1) {
        Some((key, k)) => {
            let j2 = ws_end(s, k);
            if j2 >= s.len() {
                return None;
            }
            if s[j2] != B_COLON {
                return None;
            }
            match parse_value_at(s, j2 + 1) {
                Some((v, e)) => {
                    let j3 = ws_end(s, e);
                    if j3 >= s.len() {
                        return None;
                    }
                    if s[j3] == B_COMMA {
                        match parse_members_at(s, j3 + 1) {
                            Some((fs, e2)) => {
                                let mut fs = fs;
                                let ghost fs0 = fs@;
                                fs.insert(0, (key, v));
                                proof {
                                    assert(fs@.drop_first() =~= fs0);
                                    assert(view_fields(fs@) =~= seq![(fs@[0].0@, view_msg(
                                        fs@[0].1,
                                    ))] + view_fields(fs0));
                                }
                                Some((fs, e2))
                            },
                            None => None,
                        }
                    } else if s[j3] == B_RBRACE {
                        let mut fs: Vec<(Vec<u8>, Message)> = Vec::new();
                        fs.push((key, v));
                        proof {
                            assert(fs@.drop_first() =~= Seq::<(Vec<u8>, Message)>::empty());
                            assert(view_fields(Seq::<(Vec<u8>, Message)>::empty())
                                =~= Seq::<(Seq<u8>, Val)>::empty());
                            assert(view_fields(fs@) =~= seq![(fs@[0].0@, view_msg(fs@[0].1))]);
                        }
                        Some((fs, j3 + 1))
                    } else {
                        None
                    }
                },
                None => None,
            }
        },
        None => None,
    }
}

/// Parses the inside of an array from `i`, just after the opening bracket.
fn parse_elems_at(s: &Vec<u8>, i: usize) -> (r: Option<(Vec<Message>, usize)>)
    requires
        i <= s@.len(),
    ensures
        match r {
            Some((es, e)) => parse_elems(s@, i as int) == Some((view_elems(es@), e as int)) && i
                < e <= s@.len(),
            None => parse_elems(s@, i as int) is None,
        },
    decreases s@.len() - i, 2int,
{
    let j = ws_end(s, i);
    if j >= s.len() {
        return None;
    }
    if s[j] == B_RBRACK {
        let es: Vec<Message> = Vec::new();
        assert(view_elems(es@) =~= Seq::<Val>::empty());
        Some((es, j + 1))
    } else {
        parse_items_at(s, i)
    }
}

/// Parses one or more comma-separated values from `i` through the closing
/// bracket.
fn parse_items_at(s: &Vec<u8>, i: usize) -> (r: Option<(Vec<Message>, usize)>)
    requires
        i <= s@.len(),
    ensures
        match r {
            Some((es, e)) => parse_items(s@, i as int) == Some((view_elems(es@), e as int)) && i
                < e <= s@.len(),
            None => parse_items(s@, i as int) is None,
        },
    decreases s@.len() - i, 1int,
{
    match parse_value_at(s, i) {
        Some((v, e)) => {
            let j = ws_end(s, e);
            if j >= s.len() {
                return None;
            }
            if s[j] == B_COMMA {
                match parse_items_at(s, j + 1) {
                    Some((es, e2)) => {
                        let mut es = es;
                        let ghost es0 = es@;
                        es.insert(0, v);
                        proof {
                            assert(es@.drop_first() =~= es0);
                            assert(view_elems(es@) =~= seq![view_msg(es@[0])] + view_elems(es0));
                        }
                        Some((es, e2))
                    },
                    None => None,
                }
            } else if s[j] == B_RBRACK {
                let mut es: Vec<Message> = Vec::new();
                es.push(v);
                proof {
                    assert(es@.drop_first() =~= Seq::<Message>::empty());
                    assert(view_elems(Seq::<Message>::empty()) =~= Seq::<Val>::empty());
                    assert(view_elems(es@) =~= seq![view_msg(es@[0])]);
                }
                Some((es, j + 1))
            } else {
                None
            }
        },
        None => None,
    }
}

/// Parses one full wire line into a message.
pub fn parse_line(s: &Vec<u8>) -> (r: Option<Message>)
    ensures
        match r {
            Some(m) => spec_parse_line(s@) == Some(m@),
            None => spec_parse_line(s@) is None,
        },
{
    match parse_value_at(s, 0) {
        Some((m, e)) => {
            let j = ws_end(s, e);
            if j == s.len() {
                Some(m)
            } else {
                None
            }
        },
        None => None,
    }
}

/// Well-formedness of a string's bytes: no raw control bytes, so that the
/// escaped form reads back exactly.
pub open spec fn wf_str(s: Seq<u8>) -> bool {
    forall|k: int| 0 <= k < s.len() ==> s[k] >= B_SPACE
}

/// Well-formedness of a value: strings free of raw control bytes and
/// integers of at most 18 decimal digits, throughout the tree.
pub open spec fn wf_val(v: Val) -> bool
    decreases v, 0int,
{
    match v {
        Val::Null => true,
        Val::Bool(_) => true,
        Val::Int(n) => -pow10(18) < n < pow10(18),
        Val::Str(s) => wf_str(s),
        Val::Arr(es) => wf_elems(es, 0),
        Val::Obj(fs) => wf_fields(fs, 0),
    }
}

/// Well-formedness of the elements `es[i..]`.
pub open spec fn wf_elems(es: Seq<Val>, i: int) -> bool
    decreases es, es.len() - i,
{
    if i < 0 || i >= es.len() {
        true
    } else {
        wf_val(es[i]) && wf_elems(es, i + 1)
    }
}

/// Well-formedness of the fields `fs[i..]`.
pub open spec fn wf_fields(fs: Seq<(Seq<u8>, Val)>, i: int) -> bool
    decreases fs, fs.len() - i,
{
    if i < 0 || i >= fs.len() {
        true
    } else {
        wf_str(fs[i].0) && wf_val(fs[i].1) && wf_fields(fs, i + 1)
    }
}


/// Bytes of an embedded piece: if `s[a..a+|w|] == w` then `s[a+k] == w[k]`.
proof fn lemma_sub_index(s: Seq<u8>, a: int, w: Seq<u8>, k: int)
    requires
        0 <= a,
        a + w.len() <= s.len(),
        s.subrange(a, a + w.len() as int) == w,
        0 <= k < w.len(),
    ensures
        s[a + k] == w[k],
{
    assert(s[a + k] == s.subrange(a, a + w.len() as int)[k]);
}

/// A piece of an embedded piece is itself embedded.
proof fn lemma_sub_range(s: Seq<u8>, a: int, w: Seq<u8>, o: int, n: int)
    requires
        0 <= a,
        a + w.len() <= s.len(),
        s.subrange(a, a + w.len() as int) == w,
        0 <= o,
        0 <= n,
        o + n <= w.len(),
    ensures
        s.subrange(a + o, a + o + n) == w.subrange(o, o + n),
{
    assert forall|t: int| 0 <= t < n implies #[trigger] s.subrange(a + o, a + o + n)[t]
        == w.subrange(o, o + n)[t] by {
        assert(s[a + o + t] == s.subrange(a, a + w.len() as int)[o + t]);
    }
    assert(s.subrange(a + o, a + o + n) =~= w.subrange(o, o + n));
}

/// Every byte of a decimal rendering is a digit, and there is at least one.
proof fn lemma_dec_digits_digits(m: nat)
    ensures
        dec_digits(m).len() >= 1,
        forall|k: int| 0 <= k < dec_digits(m).len() ==> is_digit(#[trigger] dec_digits(m)[k]),
    decreases m,
{
    if m >= 10 {
        lemma_dec_digits_digits(m / 10);
    }
}

/// A magnitude below `pow10(k)` renders in at most `k` digits.
proof fn lemma_dec_digits_len(m: nat, k: nat)
    requires
        k >= 1,
        m < pow10(k),
    ensures
        dec_digits(m).len() <= k,
    decreases m,
{
    if m >= 10 {
        assert(pow10(k) == 10 * pow10((k - 1) as nat));
        assert(m / 10 < pow10((k - 1) as nat));
        lemma_dec_digits_len(m / 10, (k - 1) as nat);
    }
}

/// A digit run bounded by a non-digit (or the end) stops exactly there.
proof fn lemma_digits_end_run(s: Seq<u8>, d: int, e: int)
    requires
        0 <= d <= e <= s.len(),
        forall|k: int| d <= k < e ==> is_digit(s[k]),
        e == s.len() || !is_digit(s[e]),
    ensures
        digits_end(s, d) == e,
    decreases e - d,
{
    if d < e {
        lemma_digits_end_run(s, d + 1, e);
    }
}

/// Reading back the decimal rendering of `m` gives `m`.
proof fn lemma_digits_val_of_dec(s: Seq<u8>, d: int, m: nat)
    requires
        0 <= d,
        d + dec_digits(m).len() <= s.len(),
        s.subrange(d, d + dec_digits(m).len()) == dec_digits(m),
    ensures
        digits_val(s, d, d + dec_digits(m).len()) == m,
    decreases m,
{
    let w = dec_digits(m);
    if m < 10 {
        lemma_sub_index(s, d, w, 0);
        assert(digits_val(s, d, d) == 0);
        assert(digits_val(s, d, d + 1) == digit_val(s[d]));
    } else {
        let p = dec_digits((m / 10) as nat);
        assert(w == p + seq![(B_ZERO + m % 10) as u8]);
        assert(w.subrange(0, p.len() as int) =~= p);
        lemma_sub_range(s, d, w, 0, p.len() as int);
        lemma_digits_val_of_dec(s, d, (m / 10) as nat);
        lemma_sub_index(s, d, w, w.len() - 1);
        assert(digit_val(s[d + w.len() - 1]) == m % 10);
    }
}

/// Parsing an escaped string body placed in `s`, followed by a quote, yields
/// the original bytes from `k` on.
proof fn lemma_rt_str(s: Seq<u8>, i: int, s0: Seq<u8>, k: int)
    requires
        0 <= k <= s0.len(),
        wf_str(s0),
        0 <= i,
        i + esc_from(s0, k).len() + 1 <= s.len(),
        s.subrange(i, i + esc_from(s0, k).len()) == esc_from(s0, k),
        s[i + esc_from(s0, k).len()] == B_QUOTE,
    ensures
        parse_str_body(s, i) == Some((s0.skip(k), i + esc_from(s0, k).len() + 1)),
    decreases s0.len() - k,
{
    let w = esc_from(s0, k);
    if k == s0.len() {
        assert(w =~= Seq::<u8>::empty());
        assert(s[i] == B_QUOTE);
        assert(s0.skip(k) =~= Seq::<u8>::empty());
    } else {
        let b = s0[k];
        let w1 = esc_byte(b);
        let w2 = esc_from(s0, k + 1);
        assert(w == w1 + w2);
        assert(w.subrange(w1.len() as int, w.len() as int) =~= w2);
        lemma_sub_range(s, i, w, w1.len() as int, w2.len() as int);
        assert(s[i + w1.len() + w2.len()] == B_QUOTE);
        lemma_rt_str(s, i + w1.len(), s0, k + 1);
        if b == B_QUOTE || b == B_BACKSLASH {
            lemma_sub_index(s, i, w, 0);
            assert(s[i] == B_BACKSLASH);
            lemma_sub_index(s, i, w, 1);
            assert(s[i + 1] == b);
            assert(is_esc_code(b));
            assert(unesc(b) == b);
            assert(seq![b] + s0.skip(k + 1) =~= s0.skip(k));
        } else {
            lemma_sub_index(s, i, w, 0);
            assert(s[i] == b);
            assert(b >= B_SPACE);
            assert(seq![b] + s0.skip(k + 1) =~= s0.skip(k));
        }
    }
}

/// Parsing the serialization of a well-formed value placed in `s` yields that
/// value, stopping exactly after it.
#[verifier::rlimit(100)]
#[verifier::spinoff_prover]
proof fn lemma_rt_value(s: Seq<u8>, i: int, v: Val)
    requires
        wf_val(v),
        0 <= i,
        i + ser_val(v).len() <= s.len(),
        s.subrange(i, i + ser_val(v).len()) == ser_val(v),
        i + ser_val(v).len() == s.len() || !is_digit(s[i + ser_val(v).len()]),
    ensures
        parse_value(s, i) == Some((v, i + ser_val(v).len())),
    decreases v, 0int,
{
    let w = ser_val(v);
    match v {
        Val::Null => {
            lemma_sub_index(s, i, w, 0);
            lemma_sub_index(s, i, w, 1);
            lemma_sub_index(s, i, w, 2);
            lemma_sub_index(s, i, w, 3);
            assert(skip_ws(s, i) == i);
        },
        Val::Bool(b) => {
            lemma_sub_index(s, i, w, 0);
            lemma_sub_index(s, i, w, 1);
            lemma_sub_index(s, i, w, 2);
            lemma_sub_index(s, i, w, 3);
            if !b {
                lemma_sub_index(s, i, w, 4);
            }
            assert(skip_ws(s, i) == i);
        },
        Val::Int(n) => {
            let neg = n < 0;
            let m = if neg {
                (-n) as nat
            } else {
                n as nat
            };
            let d = if neg {
                i + 1
            } else {
                i
            };
            let g = dec_digits(m);
            lemma_dec_digits_digits(m);
            lemma_dec_digits_len(m, 18);
            assert(w == if neg {
                seq![B_MINUS] + g
            } else {
                g
            });
            if neg {
                assert(w.subrange(1, w.len() as int) =~= g);
                lemma_sub_range(s, i, w, 1, g.len() as int);
                lemma_sub_index(s, i, w, 0);
                assert(s[i] == B_MINUS);
            } else {
                assert(w.subrange(0, w.len() as int) =~= g);
                lemma_sub_range(s, i, w, 0, g.len() as int);
            }
            assert(s.subrange(d, d + g.len() as int) == g);
            assert forall|k: int| d <= k < d + g.len() implies is_digit(s[k]) by {
                lemma_sub_index(s, d, g, k - d);
            }
            lemma_digits_end_run(s, d, d + g.len());
            lemma_digits_val_of_dec(s, d, m);
            if neg {
                assert(!is_ws(s[i]));
                assert(skip_ws(s, i) == i);
                assert(is_digit(s[i + 1]));
            } else {
                assert(is_digit(s[i]));
                assert(skip_ws(s, i) == i);
            }
        },
        Val::Str(s0) => {
            let body = esc_from(s0, 0);
            assert(w == seq![B_QUOTE] + body + seq![B_QUOTE]);
            lemma_sub_index(s, i, w, 0);
            assert(s[i] == B_QUOTE);
            assert(skip_ws(s, i) == i);
            assert(w.subrange(1, 1 + body.len() as int) =~= body);
            lemma_sub_range(s, i, w, 1, body.len() as int);
            lemma_sub_index(s, i, w, 1 + body.len() as int);
            assert(s[i + 1 + body.len()] == B_QUOTE);
            lemma_rt_str(s, i + 1, s0, 0);
            assert(s0.skip(0) =~= s0);
        },
        Val::Arr(es) => {
            let body = ser_elems_from(es, 0);
            assert(w == seq![B_LBRACK] + body + seq![B_RBRACK]);
            lemma_sub_index(s, i, w, 0);
            assert(s[i] == B_LBRACK);
            assert(skip_ws(s, i) == i);
            lemma_sub_index(s, i, w, 1 + body.len() as int);
            assert(s[i + 1 + body.len()] == B_RBRACK);
            if es.len() == 0 {
                assert(body =~= Seq::<u8>::empty());
                assert(skip_ws(s, i + 1) == i + 1);
                assert(parse_elems(s, i + 1) == Some((Seq::<Val>::empty(), i + 2)));
                assert(es =~= Seq::<Val>::empty());
            } else {
                assert(w.subrange(1, 1 + body.len() as int) =~= body);
                lemma_sub_range(s, i, w, 1, body.len() as int);
                lemma_rt_items(s, i + 1, es, 0);
                assert(es.skip(0) =~= es);
                lemma_ser_first_byte(es[0]);
                assert(body[0] == ser_val(es[0])[0]);
                lemma_sub_index(s, i + 1, body, 0);
                assert(s[i + 1] == body[0]);
                assert(s[i + 1] != B_RBRACK);
                assert(skip_ws(s, i + 1) == i + 1);
            }
        },
        Val::Obj(fs) => {
            let body = ser_fields_from(fs, 0);
            assert(w == seq![B_LBRACE] + body + seq![B_RBRACE]);
            lemma_sub_index(s, i, w, 0);
            assert(s[i] == B_LBRACE);
            assert(skip_ws(s, i) == i);
            lemma_sub_index(s, i, w, 1 + body.len() as int);
            assert(s[i + 1 + body.len()] == B_RBRACE);
            if fs.len() == 0 {
                assert(body =~= Seq::<u8>::empty());
                assert(skip_ws(s, i + 1) == i + 1);
                assert(parse_fields(s, i + 1) == Some((Seq::<(Seq<u8>, Val)>::empty(), i + 2)));
                assert(fs =~= Seq::<(Seq<u8>, Val)>::empty());
            } else {
                assert(w.subrange(1, 1 + body.len() as int) =~= body);
                lemma_sub_range(s, i, w, 1, body.len() as int);
                lemma_rt_members(s, i + 1, fs, 0);
                assert(fs.skip(0) =~= fs);
                assert(ser_field(fs[0]) == ser_str(fs[0].0) + seq![B_COLON] + ser_val(fs[0].1));
                assert(ser_str(fs[0].0) == seq![B_QUOTE] + esc_from(fs[0].0, 0) + seq![B_QUOTE]);
                assert(body[0] == ser_field(fs[0])[0]);
                lemma_sub_index(s, i + 1, body, 0);
                assert(s[i + 1] == B_QUOTE);
                assert(skip_ws(s, i + 1) == i + 1);
            }
        },
    }
}

/// The first byte of a serialized value is never a closing bracket and never
/// whitespace.
proof fn lemma_ser_first_byte(v: Val)
    ensures
        ser_val(v).len() >= 1,
        ser_val(v)[0] != B_RBRACK,
        ser_val(v)[0] != B_RBRACE,
        !is_ws(ser_val(v)[0]),
{
    match v {
        Val::Int(n) => {
            if n >= 0 {
                lemma_dec_digits_digits(n as nat);
            } else {
                lemma_dec_digits_digits((-n) as nat);
            }
        },
        _ => {},
    }
}

/// Parsing serialized `"key":value` pairs from `fs[k..]`, followed by a
/// closing brace, yields those pairs.
proof fn lemma_rt_members(s: Seq<u8>, i: int, fs: Seq<(Seq<u8>, Val)>, k: int)
    requires
        0 <= k < fs.len(),
        wf_fields(fs, k),
        0 <= i,
        i + ser_fields_from(fs, k).len() + 1 <= s.len(),
        s.subrange(i, i + ser_fields_from(fs, k).len()) == ser_fields_from(fs, k),
        s[i + ser_fields_from(fs, k).len()] == B_RBRACE,
    ensures
        parse_members(s, i) == Some((fs.skip(k), i + ser_fields_from(fs, k).len() + 1)),
    decreases fs, fs.len() - k,
{
    let w = ser_fields_from(fs, k);
    let key = fs[k].0;
    let v = fs[k].1;
    let f = ser_field(fs[k]);
    let kb = esc_from(key, 0);
    let vw = ser_val(v);
    assert(f == ser_str(key) + seq![B_COLON] + vw);
    assert(ser_str(key) == seq![B_QUOTE] + kb + seq![B_QUOTE]);
    let rest_comma: Seq<u8> = if k == fs.len() - 1 {
        Seq::empty()
    } else {
        seq![B_COMMA] + ser_fields_from(fs, k + 1)
    };
    assert(w == f + rest_comma);
    assert(w =~= seq![B_QUOTE] + kb + seq![B_QUOTE] + seq![B_COLON] + vw + rest_comma);
    lemma_sub_index(s, i, w, 0);
    assert(s[i] == B_QUOTE);
    assert(skip_ws(s, i) == i);
    // the key string
    assert(w.subrange(1, 1 + kb.len() as int) =~= kb);
    lemma_sub_range(s, i, w, 1, kb.len() as int);
    lemma_sub_index(s, i, w, 1 + kb.len() as int);
    assert(s[i + 1 + kb.len()] == B_QUOTE);
    lemma_rt_str(s, i + 1, key, 0);
    assert(key.skip(0) =~= key);
    let c = i + 2 + kb.len();
    assert(parse_str_body(s, i + 1) == Some((key, c)));
    // the colon
    lemma_sub_index(s, i, w, c - i);
    assert(s[c] == B_COLON);
    assert(skip_ws(s, c) == c);
    // the value
    assert(w.subrange(c + 1 - i, c + 1 - i + vw.len() as int) =~= vw);
    lemma_sub_range(s, i, w, c + 1 - i, vw.len() as int);
    let e = c + 1 + vw.len();
    assert(e == i + f.len());
    if k == fs.len() - 1 {
        assert(w =~= f);
        assert(e == i + w.len());
        assert(s[e] == B_RBRACE);
    } else {
        lemma_sub_index(s, i, w, f.len() as int);
        assert(w[f.len() as int] == B_COMMA);
        assert(s[e] == B_COMMA);
    }
    assert(!is_digit(s[e]));
    lemma_rt_value(s, c + 1, v);
    assert(parse_value(s, c + 1) == Some((v, e)));
    assert(skip_ws(s, e) == e);
    if k == fs.len() - 1 {
        assert(fs.skip(k) =~= seq![(key, v)]);
    } else {
        let w2 = ser_fields_from(fs, k + 1);
        assert(w.subrange(f.len() + 1 as int, w.len() as int) =~= w2);
        lemma_sub_range(s, i, w, f.len() + 1 as int, w2.len() as int);
        assert(e + 1 + w2.len() == i + w.len());
        lemma_rt_members(s, e + 1, fs, k + 1);
        assert(seq![(key, v)] + fs.skip(k + 1) =~= fs.skip(k));
    }
}

/// Parsing serialized values from `es[k..]`, followed by a closing bracket,
/// yields those values.
proof fn lemma_rt_items(s: Seq<u8>, i: int, es: Seq<Val>, k: int)
    requires
        0 <= k < es.len(),
        wf_elems(es, k),
        0 <= i,
        i + ser_elems_from(es, k).len() + 1 <= s.len(),
        s.subrange(i, i + ser_elems_from(es, k).len()) == ser_elems_from(es, k),
        s[i + ser_elems_from(es, k).len()] == B_RBRACK,
    ensures
        parse_items(s, i) == Some((es.skip(k), i + ser_elems_from(es, k).len() + 1)),
    decreases es, es.len() - k,
{
    let w = ser_elems_from(es, k);
    let v = es[k];
    let vw = ser_val(v);
    let rest_comma: Seq<u8> = if k == es.len() - 1 {
        Seq::empty()
    } else {
        seq![B_COMMA] + ser_elems_from(es, k + 1)
    };
    assert(w == vw + rest_comma);
    assert(w.subrange(0, vw.len() as int) =~= vw);
    lemma_sub_range(s, i, w, 0, vw.len() as int);
    let e = i + vw.len();
    if k == es.len() - 1 {
        assert(w =~= vw);
        assert(s[e] == B_RBRACK);
    } else {
        lemma_sub_index(s, i, w, vw.len() as int);
        assert(w[vw.len() as int] == B_COMMA);
        assert(s[e] == B_COMMA);
    }
    assert(!is_digit(s[e]));
    lemma_rt_value(s, i, v);
    assert(parse_value(s, i) == Some((v, e)));
    assert(skip_ws(s, e) == e);
    if k == es.len() - 1 {
        assert(es.skip(k) =~= seq![v]);
    } else {
        let w2 = ser_elems_from(es, k + 1);
        assert(w.subrange(vw.len() + 1 as int, w.len() as int) =~= w2);
        lemma_sub_range(s, i, w, vw.len() + 1 as int, w2.len() as int);
        assert(e + 1 + w2.len() == i + w.len());
        lemma_rt_items(s, e + 1, es, k + 1);
        assert(seq![v] + es.skip(k + 1) =~= es.skip(k));
    }
}

/// The codec round-trip law: parsing the exact bytes of a serialized
/// well-formed message yields that message back.
pub proof fn lemma_round_trip(v: Val)
    requires
        wf_val(v),
    ensures
        spec_parse_line(ser_line(v)) == Some(v),
{
    let s = ser_line(v);
    let w = ser_val(v);
    assert(s.subrange(0, w.len() as int) =~= w);
    assert(s[w.len() as int] == B_NL);
    lemma_rt_value(s, 0, v);
    assert(parse_value(s, 0) == Some((v, w.len() as int)));
    assert(skip_ws(s, w.len() + 1 as int) == s.len());
    assert(skip_ws(s, w.len() as int) == s.len());
}


/// The classification of one inbound message: exactly one of four shapes,
/// decided once at the boundary.
#[derive(Debug, PartialEq, Eq, Structural, Clone, Copy)]
pub enum Class {
    Greeting,
    Reply,
    Event,
    Malformed,
}

/// Classification of a message's model: a greeting carries the banner key, a
/// reply carries a payload under the reply key, an event carries its name
/// key. The fixed order of the tests makes the classification total and
/// mutually exclusive.
pub open spec fn classify_val(v: Val) -> Class {
    if has_key(v, key_qmp()) {
        Class::Greeting
    } else if has_key(v, key_return()) {
        Class::Reply
    } else if has_key(v, key_event()) {
        Class::Event
    } else {
        Class::Malformed
    }
}

/// Classification is total and mutually exclusive: every message falls in
/// exactly one class, each characterized by the keys it holds.
pub proof fn lemma_classification(v: Val)
    ensures
        (classify_val(v) == Class::Greeting) <==> has_key(v, key_qmp()),
        (classify_val(v) == Class::Reply) <==> (!has_key(v, key_qmp()) && has_key(
            v,
            key_return(),
        )),
        (classify_val(v) == Class::Event) <==> (!has_key(v, key_qmp()) && !has_key(
            v,
            key_return(),
        ) && has_key(v, key_event())),
        (classify_val(v) == Class::Malformed) <==> (!has_key(v, key_qmp()) && !has_key(
            v,
            key_return(),
        ) && !has_key(v, key_event())),
{
}

/// Classifies one inbound message.
pub fn classify(m: &Message) -> (r: Class)
    ensures
        r == classify_val(m@),
{
    if get_field(m, "QMP").is_some() {
        Class::Greeting
    } else if get_field(m, "return").is_some() {
        Class::Reply
    } else if get_field(m, "event").is_some() {
        Class::Event
    } else {
        Class::Malformed
    }
}

} // verus!
