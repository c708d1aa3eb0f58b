//! The JSON grammar, stated as a family of spec functions.
//!
//! Each production maps the input character sequence `s` and a start offset
//! `i` to either the parsed fragment together with the offset just past it,
//! or to the message and cursor offset of the first error.  The executable
//! routines in [`crate::parser`] are proved to agree with these functions
//! exactly, errors included.

use vstd::prelude::*;
use crate::scan::eof_msg;
use crate::value::SpecNumber;
use crate::value::SpecValue;
use crate::value::insert_pair;

verus! {

/// The first error of a parse: its bare message and the cursor offset at
/// which it was raised (the line and column of the full message are those
/// of this offset).
pub struct SpecErr {
    pub msg: Seq<char>,
    pub at: int,
}

/// Outcome of a production: the fragment and the offset just past it, or
/// the first error.
pub type SpecRes<T> = Result<(T, int), SpecErr>;

/// Whitespace accepted between tokens.
pub open spec fn is_ws(c: char) -> bool {
    c == ' ' || c == '\n' || c == '\r' || c == '\t'
}

/// An ASCII decimal digit.
pub open spec fn is_digit(c: char) -> bool {
    48 <= c as u32 <= 57
}

/// The value of a decimal digit character.
pub open spec fn digit_of(c: char) -> u8 {
    ((c as u32) - 48) as u8
}

/// The code point of a character.
pub open spec fn code_of(c: char) -> u32 {
    c as u32
}

/// The scalar value with code `n`.
pub open spec fn scalar(n: int) -> char {
    choose|c: char| #[trigger] code_of(c) == n
}

pub open spec fn msg_expected(c: char) -> Seq<char> {
    "expected '"@ + seq![c] + "'"@
}

pub open spec fn msg_hex() -> Seq<char> {
    "invalid hex digit"@
}

pub open spec fn msg_char() -> Seq<char> {
    "invalid character"@
}

pub open spec fn msg_escape() -> Seq<char> {
    "invalid character escape"@
}

pub open spec fn msg_number() -> Seq<char> {
    "expected '-' or '0'..'9'"@
}

pub open spec fn msg_literal() -> Seq<char> {
    "expected 'true', 'false', or 'null'"@
}

pub open spec fn msg_array() -> Seq<char> {
    "expected ']' or ','"@
}

pub open spec fn msg_object() -> Seq<char> {
    "expected '}' or ','"@
}

pub open spec fn msg_key() -> Seq<char> {
    "expected '\"' or '}'"@
}

/// `b` when it lies between `a` and `hi`, else `a`: a monotone floor that
/// keeps a derived offset from moving backwards.  Every offset the grammar
/// feeds through it in fact lies in range, so this is the identity there
/// (see [`lemma_ws_bounds`] and the offset bounds in [`crate::parser`]).
pub open spec fn lo(a: int, b: int, hi: int) -> int {
    if a <= b && b <= hi {
        b
    } else {
        a
    }
}

/// `b` when it lies strictly above `a` and at most `hi`, else `a + 1`: the
/// floor used after a production that always consumes at least one
/// character.
pub open spec fn adv(a: int, b: int, hi: int) -> int {
    if a < b && b <= hi {
        b
    } else {
        a + 1
    }
}

/// Offset of the first character at or after `i` that is not whitespace.
pub open spec fn sp_ws(s: Seq<char>, i: int) -> int
    decreases s.len() - i,
{
    if i < s.len() && is_ws(s[i]) {
        sp_ws(s, i + 1)
    } else {
        i
    }
}

pub proof fn lemma_ws_bounds(s: Seq<char>, i: int)
    requires
        0 <= i <= s.len(),
    ensures
        i <= sp_ws(s, i) <= s.len(),
    decreases s.len() - i,
{
    if i < s.len() && is_ws(s[i]) {
        lemma_ws_bounds(s, i + 1);
    }
}

/// One required character: consumed when it matches, otherwise the
/// mismatch error stands just past the consumed character.
pub open spec fn sp_char(s: Seq<char>, i: int, expected: char) -> Result<int, SpecErr> {
    if i >= s.len() {
        Err(SpecErr { msg: eof_msg(), at: i })
    } else if s[i] == expected {
        Ok(i + 1)
    } else {
        Err(SpecErr { msg: msg_expected(expected), at: i + 1 })
    }
}

/// The characters of `w` from index `k` on, each required in order.
pub open spec fn sp_word(s: Seq<char>, i: int, w: Seq<char>, k: int) -> Result<int, SpecErr>
    decreases w.len() - k,
{
    if k >= w.len() {
        Ok(i)
    } else {
        match sp_char(s, i, w[k]) {
            Ok(j) => sp_word(s, j, w, k + 1),
            Err(e) => Err(e),
        }
    }
}

/// The longest run of decimal digits from `i` on: their values and the
/// offset just past them.
pub open spec fn sp_digits(s: Seq<char>, i: int) -> (Seq<u8>, int)
    decreases s.len() - i,
{
    if i < s.len() && is_digit(s[i]) {
        let (d, j) = sp_digits(s, i + 1);
        (seq![digit_of(s[i])] + d, j)
    } else {
        (Seq::empty(), i)
    }
}

pub proof fn lemma_digits_bounds(s: Seq<char>, i: int)
    requires
        0 <= i <= s.len(),
    ensures
        i <= sp_digits(s, i).1 <= s.len(),
        sp_digits(s, i).1 - i == sp_digits(s, i).0.len(),
        forall|k: int| 0 <= k < sp_digits(s, i).0.len() ==> sp_digits(s, i).0[k] < 10,
    decreases s.len() - i,
{
    if i < s.len() && is_digit(s[i]) {
        lemma_digits_bounds(s, i + 1);
    }
}

/// The value of a hexadecimal digit character, if it is one.
pub open spec fn hex_val(c: char) -> Option<int> {
    let n = (c as u32) as int;
    if 48 <= n <= 57 {
        Some(n - 48)
    } else if 65 <= n <= 70 {
        Some(n - 55)
    } else if 97 <= n <= 102 {
        Some(n - 87)
    } else {
        None
    }
}

/// Exactly four hexadecimal digits forming one 16-bit code unit.
pub open spec fn sp_hex4(s: Seq<char>, i: int) -> SpecRes<int> {
    if i >= s.len() {
        Err(SpecErr { msg: eof_msg(), at: i })
    } else if hex_val(s[i]) is None {
        Err(SpecErr { msg: msg_hex(), at: i + 1 })
    } else if i + 1 >= s.len() {
        Err(SpecErr { msg: eof_msg(), at: i + 1 })
    } else if hex_val(s[i + 1]) is None {
        Err(SpecErr { msg: msg_hex(), at: i + 2 })
    } else if i + 2 >= s.len() {
        Err(SpecErr { msg: eof_msg(), at: i + 2 })
    } else if hex_val(s[i + 2]) is None {
        Err(SpecErr { msg: msg_hex(), at: i + 3 })
    } else if i + 3 >= s.len() {
        Err(SpecErr { msg: eof_msg(), at: i + 3 })
    } else if hex_val(s[i + 3]) is None {
        Err(SpecErr { msg: msg_hex(), at: i + 4 })
    } else {
        Ok(
            (
                hex_val(s[i]).unwrap() * 4096 + hex_val(s[i + 1]).unwrap() * 256 + hex_val(
                    s[i + 2],
                ).unwrap() * 16 + hex_val(s[i + 3]).unwrap(),
                i + 4,
            ),
        )
    }
}

/// Prepends one decoded character to the rest of a string body.
pub open spec fn sp_cons(c: char, r: SpecRes<Seq<char>>) -> SpecRes<Seq<char>> {
    match r {
        Ok((t, j)) => Ok((seq![c] + t, j)),
        Err(e) => Err(e),
    }
}

/// Prepends an already decoded prefix to the rest of a string body.
pub open spec fn sp_prepend(p: Seq<char>, r: SpecRes<Seq<char>>) -> SpecRes<Seq<char>> {
    match r {
        Ok((t, j)) => Ok((p + t, j)),
        Err(e) => Err(e),
    }
}

/// Consing one character and then prepending a prefix is prepending the
/// extended prefix.
pub proof fn lemma_prepend_cons(p: Seq<char>, c: char, r: SpecRes<Seq<char>>)
    ensures
        sp_prepend(p, sp_cons(c, r)) == sp_prepend(p.push(c), r),
{
    match r {
        Ok((t, j)) => {
            assert(p + (seq![c] + t) =~= p.push(c) + t);
        },
        Err(_) => {},
    }
}

/// Every character is the scalar value of its own code.
pub proof fn lemma_scalar_of(c: char)
    ensures
        scalar(code_of(c) as int) == c,
{
    broadcast use vstd::utf8::char_u32_cast;

    assert(code_of(c) == code_of(c) as int);
    let picked = scalar(code_of(c) as int);
    assert(code_of(picked) == code_of(c) as int);
    assert(((picked as u32) as char) == picked);
    assert(((c as u32) as char) == c);
}

/// A high surrogate code unit.
pub open spec fn is_high_surrogate(n: int) -> bool {
    0xD800 <= n <= 0xDBFF
}

/// A low surrogate code unit.
pub open spec fn is_low_surrogate(n: int) -> bool {
    0xDC00 <= n <= 0xDFFF
}

/// The scalar value encoded by a surrogate pair.
pub open spec fn combine_surrogates(n: int, m: int) -> int {
    0x10000 + (n - 0xD800) * 0x400 + (m - 0xDC00)
}

/// The body of a string literal, after the opening quote: decoded
/// characters up to and past the closing quote.  A `\u` escape denoting a
/// high surrogate must be followed at once by a `\u` escape denoting a low
/// surrogate, and the pair decodes to one scalar value; any lone surrogate
/// fails.
pub open spec fn sp_string_body(s: Seq<char>, i: int) -> SpecRes<Seq<char>>
    decreases s.len() - i,
{
    if i >= s.len() {
        Err(SpecErr { msg: eof_msg(), at: i })
    } else {
        let c = s[i];
        if c == '"' {
            Ok((Seq::empty(), i + 1))
        } else if c == '\\' {
            if i + 1 >= s.len() {
                Err(SpecErr { msg: eof_msg(), at: i + 1 })
            } else {
                let e = s[i + 1];
                if e == '"' {
                    sp_cons('"', sp_string_body(s, i + 2))
                } else if e == '\\' {
                    sp_cons('\\', sp_string_body(s, i + 2))
                } else if e == '/' {
                    sp_cons('/', sp_string_body(s, i + 2))
                } else if e == 'b' {
                    sp_cons('\u{8}', sp_string_body(s, i + 2))
                } else if e == 'f' {
                    sp_cons('\u{c}', sp_string_body(s, i + 2))
                } else if e == 'n' {
                    sp_cons('\n', sp_string_body(s, i + 2))
                } else if e == 'r' {
                    sp_cons('\r', sp_string_body(s, i + 2))
                } else if e == 't' {
                    sp_cons('\t', sp_string_body(s, i + 2))
                } else if e == 'u' {
                    match sp_hex4(s, i + 2) {
                        Err(er) => Err(er),
                        Ok((n, j)) => {
                            if is_high_surrogate(n) {
                                if j >= s.len() {
                                    Err(SpecErr { msg: eof_msg(), at: j })
                                } else if s[j] != '\\' {
                                    Err(SpecErr { msg: msg_char(), at: j + 1 })
                                } else if j + 1 >= s.len() {
                                    Err(SpecErr { msg: eof_msg(), at: j + 1 })
                                } else if s[j + 1] != 'u' {
                                    Err(SpecErr { msg: msg_char(), at: j + 2 })
                                } else {
                                    match sp_hex4(s, j + 2) {
                                        Err(er) => Err(er),
                                        Ok((m, j2)) => {
                                            if is_low_surrogate(m) {
                                                sp_cons(
                                                    scalar(combine_surrogates(n, m)),
                                                    sp_string_body(s, j2),
                                                )
                                            } else {
                                                Err(SpecErr { msg: msg_char(), at: j2 })
                                            }
                                        },
                                    }
                                }
                            } else if is_low_surrogate(n) {
                                Err(SpecErr { msg: msg_char(), at: j })
                            } else {
                                sp_cons(scalar(n), sp_string_body(s, j))
                            }
                        },
                    }
                } else {
                    Err(SpecErr { msg: msg_escape(), at: i + 2 })
                }
            }
        } else {
            sp_cons(c, sp_string_body(s, i + 1))
        }
    }
}

/// A string literal: opening quote, body, closing quote.
pub open spec fn sp_string(s: Seq<char>, i: int) -> SpecRes<Seq<char>> {
    match sp_char(s, i, '"') {
        Ok(j) => sp_string_body(s, j),
        Err(e) => Err(e),
    }
}

/// The error raised where a required digit run is missing: the
/// end-of-input message when the cursor stands at the end of the input,
/// else the digit message at the offending character.
pub open spec fn missing_digits_err(s: Seq<char>, j: int) -> SpecErr {
    if j >= s.len() {
        SpecErr { msg: eof_msg(), at: j }
    } else {
        SpecErr { msg: msg_number(), at: j }
    }
}

/// The optional exponent part and the finished number.
pub open spec fn sp_number_exp(
    s: Seq<char>,
    i: int,
    neg: bool,
    ints: Seq<u8>,
    fr: Seq<u8>,
) -> SpecRes<SpecNumber> {
    if i < s.len() && (s[i] == 'e' || s[i] == 'E') {
        let (eneg, i2) = if i + 1 < s.len() && s[i + 1] == '+' {
            (false, i + 2)
        } else if i + 1 < s.len() && s[i + 1] == '-' {
            (true, i + 2)
        } else {
            (false, i + 1)
        };
        let (ex, j) = sp_digits(s, i2);
        if ex.len() == 0 {
            Err(missing_digits_err(s, j))
        } else {
            Ok(
                (
                    SpecNumber {
                        neg,
                        int_digits: ints,
                        frac_digits: fr,
                        exp_neg: eneg,
                        exp_digits: ex,
                    },
                    j,
                ),
            )
        }
    } else {
        Ok(
            (
                SpecNumber {
                    neg,
                    int_digits: ints,
                    frac_digits: fr,
                    exp_neg: false,
                    exp_digits: Seq::empty(),
                },
                i,
            ),
        )
    }
}

/// A numeric literal: optional minus, required integer digits, optional
/// fraction (requiring digits) and optional signed exponent (requiring
/// digits).  Reaching the end of the input ends the literal; a digit run
/// still owed at the end of the input fails with the end-of-input message.
pub open spec fn sp_number(s: Seq<char>, i: int) -> SpecRes<SpecNumber> {
    let neg = i < s.len() && s[i] == '-';
    let i0 = if neg {
        i + 1
    } else {
        i
    };
    let (ints, j) = sp_digits(s, i0);
    if ints.len() == 0 {
        Err(missing_digits_err(s, j))
    } else if j < s.len() && s[j] == '.' {
        let (fr, jf) = sp_digits(s, j + 1);
        if fr.len() == 0 {
            Err(missing_digits_err(s, jf))
        } else {
            sp_number_exp(s, jf, neg, ints, fr)
        }
    } else {
        sp_number_exp(s, j, neg, ints, Seq::empty())
    }
}

/// One of the words `true`, `false` or `null`, dispatched on its first
/// character.
pub open spec fn sp_literal(s: Seq<char>, i: int) -> SpecRes<SpecValue> {
    if i >= s.len() {
        Err(SpecErr { msg: eof_msg(), at: i })
    } else if s[i] == 't' {
        match sp_word(s, i, "true"@, 0) {
            Ok(j) => Ok((SpecValue::True, j)),
            Err(e) => Err(e),
        }
    } else if s[i] == 'f' {
        match sp_word(s, i, "false"@, 0) {
            Ok(j) => Ok((SpecValue::False, j)),
            Err(e) => Err(e),
        }
    } else if s[i] == 'n' {
        match sp_word(s, i, "null"@, 0) {
            Ok(j) => Ok((SpecValue::Null, j)),
            Err(e) => Err(e),
        }
    } else {
        Err(SpecErr { msg: msg_literal(), at: i })
    }
}

/// A value: leading whitespace, then the production picked by the first
/// significant character.
pub open spec fn sp_value(s: Seq<char>, i: int) -> SpecRes<SpecValue>
    decreases s.len() - i, 1int,
{
    let j = lo(i, sp_ws(s, i), s.len() as int);
    if j >= s.len() {
        Err(SpecErr { msg: eof_msg(), at: j })
    } else {
        let c = s[j];
        if c == '{' {
            sp_object(s, j)
        } else if c == '"' {
            match sp_string(s, j) {
                Ok((t, j2)) => Ok((SpecValue::Str(t), j2)),
                Err(e) => Err(e),
            }
        } else if c == '[' {
            sp_array(s, j)
        } else if c == '-' || is_digit(c) {
            match sp_number(s, j) {
                Ok((n, j2)) => Ok((SpecValue::Num(n), j2)),
                Err(e) => Err(e),
            }
        } else {
            sp_literal(s, j)
        }
    }
}

/// An array: `[`, optional whitespace, an optional first `]`, else
/// elements separated by commas up to `]`.  A comma must be followed by
/// another element.
pub open spec fn sp_array(s: Seq<char>, i: int) -> SpecRes<SpecValue>
    decreases s.len() - i, 0int,
{
    match sp_char(s, i, '[') {
        Err(e) => Err(e),
        Ok(j0) => {
            let j = lo(j0, sp_ws(s, j0), s.len() as int);
            if j >= s.len() {
                Err(SpecErr { msg: eof_msg(), at: j })
            } else if s[j] == ']' {
                Ok((SpecValue::Array(Seq::empty()), j + 1))
            } else {
                sp_array_items(s, j, Seq::empty())
            }
        },
    }
}

/// The elements of a non-empty array, from the offset of the next element.
pub open spec fn sp_array_items(s: Seq<char>, i: int, acc: Seq<SpecValue>) -> SpecRes<SpecValue>
    decreases s.len() - i, 2int,
{
    match sp_value(s, i) {
        Err(e) => Err(e),
        Ok((v, jr)) => {
            let j = adv(i, jr, s.len() as int);
            let j2 = lo(j, sp_ws(s, j), s.len() as int);
            if j2 >= s.len() {
                Err(SpecErr { msg: eof_msg(), at: j2 })
            } else if s[j2] == ']' {
                Ok((SpecValue::Array(acc.push(v)), j2 + 1))
            } else if s[j2] == ',' {
                sp_array_items(s, j2 + 1, acc.push(v))
            } else {
                Err(SpecErr { msg: msg_array(), at: j2 + 1 })
            }
        },
    }
}

/// An object: `{`, optional whitespace, an optional first `}`, else members
/// separated by commas up to `}`.  A member key must be a string literal;
/// members gather in lexicographic key order and a duplicate key overwrites
/// the earlier value in place.
pub open spec fn sp_object(s: Seq<char>, i: int) -> SpecRes<SpecValue>
    decreases s.len() - i, 0int,
{
    match sp_char(s, i, '{') {
        Err(e) => Err(e),
        Ok(j0) => {
            let j = lo(j0, sp_ws(s, j0), s.len() as int);
            if j >= s.len() {
                Err(SpecErr { msg: eof_msg(), at: j })
            } else if s[j] == '}' {
                Ok((SpecValue::Object(Seq::empty()), j + 1))
            } else if s[j] == '"' {
                sp_object_items(s, j, Seq::empty())
            } else {
                Err(SpecErr { msg: msg_key(), at: j })
            }
        },
    }
}

/// The members of a non-empty object, from the offset of the next key.
pub open spec fn sp_object_items(
    s: Seq<char>,
    i: int,
    acc: Seq<(Seq<char>, SpecValue)>,
) -> SpecRes<SpecValue>
    decreases s.len() - i, 2int,
{
    match sp_string(s, i) {
        Err(e) => Err(e),
        Ok((key, jr)) => {
            let j = adv(i, jr, s.len() as int);
            let j2 = lo(j, sp_ws(s, j), s.len() as int);
            match sp_char(s, j2, ':') {
                Err(e) => Err(e),
                Ok(j3) => match sp_value(s, j3) {
                    Err(e) => Err(e),
                    Ok((v, kr)) => {
                        let k = adv(j3, kr, s.len() as int);
                        let acc2 = insert_pair(acc, key, v);
                        let k2 = lo(k, sp_ws(s, k), s.len() as int);
                        if k2 >= s.len() {
                            Err(SpecErr { msg: eof_msg(), at: k2 })
                        } else if s[k2] == '}' {
                            Ok((SpecValue::Object(acc2), k2 + 1))
                        } else if s[k2] == ',' {
                            let k3 = lo(k2 + 1, sp_ws(s, k2 + 1), s.len() as int);
                            sp_object_items(s, k3, acc2)
                        } else {
                            Err(SpecErr { msg: msg_object(), at: k2 + 1 })
                        }
                    },
                },
            }
        },
    }
}

} // verus!
