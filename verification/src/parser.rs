//! The production routines: one executable function per grammar rule, each
//! proved to agree exactly with its spec counterpart in [`crate::grammar`].

use vstd::prelude::*;
use vstd::string::StrSliceExecFns;
use vstd::string::StringExecFns;
use crate::grammar::adv;
use crate::grammar::code_of;
use crate::grammar::combine_surrogates;
use crate::grammar::hex_val;
use crate::grammar::lo;
use crate::grammar::msg_expected;
use crate::grammar::msg_hex;
use crate::grammar::missing_digits_err;
use crate::grammar::msg_number;
use crate::grammar::scalar;
use crate::grammar::sp_array;
use crate::grammar::sp_array_items;
use crate::grammar::sp_char;
use crate::grammar::sp_digits;
use crate::grammar::sp_hex4;
use crate::grammar::sp_literal;
use crate::grammar::sp_number;
use crate::grammar::sp_object;
use crate::grammar::sp_prepend;
use crate::grammar::sp_object_items;
use crate::grammar::sp_string;
use crate::grammar::sp_string_body;
use crate::grammar::sp_value;
use crate::grammar::sp_word;
use crate::grammar::sp_ws;
use crate::grammar::SpecErr;
use crate::scan::eof_msg;
use crate::scan::err_at;
use crate::scan::Context;
use crate::value::Number;
use crate::value::arr_view;
use crate::value::insert_pair;
use crate::value::obj_view;
use crate::value::SpecValue;
use crate::value::Value;

verus! {

broadcast use vstd::utf8::char_is_scalar, vstd::utf8::char_u32_cast, crate::scan::lemma_ctx_bounds;

/// Relies on `char::from_u32`: `Some` exactly for a valid Unicode scalar
/// value (not a surrogate code point and at most 0x10FFFF), and the
/// returned character carries that code.
pub assume_specification[ char::from_u32 ](n: u32) -> (r: Option<char>)
    ensures
        match r {
            Some(c) => (n < 0xD800 || (0xDFFF < n && n <= 0x10FFFF)) && c as u32 == n,
            None => !(n < 0xD800 || (0xDFFF < n && n <= 0x10FFFF)),
        },
;

/// Consumes whitespace characters up to the first significant character or
/// the end of the input; never fails.
pub fn parse_whitespace(ctx: &mut Context) -> (r: Result<(), String>)
    requires
        old(ctx).wf(),
    ensures
        final(ctx).wf(),
        final(ctx).input() == old(ctx).input(),
        r is Ok,
        final(ctx).pos() == sp_ws(old(ctx).input(), old(ctx).pos()),
        old(ctx).pos() <= final(ctx).pos(),
    decreases old(ctx).input().len() - old(ctx).pos(),
{
    loop
        invariant
            ctx.wf(),
            ctx.input() == old(ctx).input(),
            old(ctx).pos() <= ctx.pos(),
            sp_ws(ctx.input(), old(ctx).pos()) == sp_ws(ctx.input(), ctx.pos()),
        decreases ctx.input().len() - ctx.pos(),
    {
        if !ctx.is_next() {
            return Ok(());
        }
        let c = match ctx.peek() {
            Ok(c) => c,
            Err(e) => {
                return Err(e);
            },
        };
        if c == ' ' || c == '\n' || c == '\r' || c == '\t' {
            match ctx.consume() {
                Ok(u) => u,
                Err(e) => {
                    return Err(e);
                },
            };
        } else {
            return Ok(());
        }
    }
}

/// Consumes one character, which must equal `expected`.
pub fn parse_char(ctx: &mut Context, expected: char) -> (r: Result<(), String>)
    requires
        old(ctx).wf(),
    ensures
        final(ctx).wf(),
        final(ctx).input() == old(ctx).input(),
        match sp_char(old(ctx).input(), old(ctx).pos(), expected) {
            Ok(j) => r is Ok && final(ctx).pos() == j,
            Err(e) => {
                &&& (r matches Err(m) && m@ == err_at(old(ctx).input(), e.msg, e.at))
                &&& final(ctx).pos() == e.at
            },
        },
{
    let n = match ctx.next() {
        Ok(c) => c,
        Err(e) => {
            return Err(e);
        },
    };
    if n == expected {
        return Ok(());
    }
    let mut m = String::from_str("expected '");
    m.push(expected);
    m.push('\'');
    proof {
        reveal_strlit("'");
        assert(m@ =~= msg_expected(expected));
    }
    Err(ctx.error(m.as_str()))
}

/// Consumes the characters of `expected` in order.
pub fn parse_word(ctx: &mut Context, expected: &str) -> (r: Result<(), String>)
    requires
        old(ctx).wf(),
    ensures
        final(ctx).wf(),
        final(ctx).input() == old(ctx).input(),
        match sp_word(old(ctx).input(), old(ctx).pos(), expected@, 0) {
            Ok(j) => r is Ok && final(ctx).pos() == j,
            Err(e) => {
                &&& (r matches Err(m) && m@ == err_at(old(ctx).input(), e.msg, e.at))
                &&& final(ctx).pos() == e.at
            },
        },
        old(ctx).pos() <= final(ctx).pos(),
        r is Ok ==> final(ctx).pos() == old(ctx).pos() + expected@.len(),
{
    let n = expected.unicode_len();
    let mut k: usize = 0;
    while k < n
        invariant
            ctx.wf(),
            ctx.input() == old(ctx).input(),
            k <= n,
            n == expected@.len(),
            ctx.pos() == old(ctx).pos() + k,
            sp_word(ctx.input(), old(ctx).pos(), expected@, 0) == sp_word(
                ctx.input(),
                ctx.pos(),
                expected@,
                k as int,
            ),
        decreases n - k,
    {
        let c = expected.get_char(k);
        match parse_char(ctx, c) {
            Ok(u) => u,
            Err(e) => {
                return Err(e);
            },
        };
        k = k + 1;
    }
    Ok(())
}

/// Consumes the longest run of decimal digits and returns their values;
/// fails when there is none, with the end-of-input message when the input
/// ends where the run should stand.
pub fn parse_digits(ctx: &mut Context) -> (r: Result<Vec<u8>, String>)
    requires
        old(ctx).wf(),
    ensures
        final(ctx).wf(),
        final(ctx).input() == old(ctx).input(),
        ({
            let (ds, j) = sp_digits(old(ctx).input(), old(ctx).pos());
            if ds.len() == 0 {
                &&& (r matches Err(m) && m@ == err_at(
                    old(ctx).input(),
                    missing_digits_err(old(ctx).input(), j).msg,
                    j,
                ))
                &&& final(ctx).pos() == j
            } else {
                &&& (r matches Ok(v) && v@ == ds)
                &&& final(ctx).pos() == j
            }
        }),
        old(ctx).pos() <= final(ctx).pos(),
        r is Ok ==> old(ctx).pos() < final(ctx).pos(),
{
    let mut ds: Vec<u8> = Vec::new();
    loop
        invariant_except_break
            ctx.wf(),
            ctx.input() == old(ctx).input(),
            old(ctx).pos() <= ctx.pos(),
            ds@.len() == ctx.pos() - old(ctx).pos(),
            sp_digits(ctx.input(), old(ctx).pos()).0 == ds@ + sp_digits(
                ctx.input(),
                ctx.pos(),
            ).0,
            sp_digits(ctx.input(), old(ctx).pos()).1 == sp_digits(ctx.input(), ctx.pos()).1,
        ensures
            ctx.wf(),
            ctx.input() == old(ctx).input(),
            old(ctx).pos() <= ctx.pos(),
            ds@.len() == ctx.pos() - old(ctx).pos(),
            sp_digits(ctx.input(), old(ctx).pos()).0 == ds@,
            sp_digits(ctx.input(), old(ctx).pos()).1 == ctx.pos(),
        decreases ctx.input().len() - ctx.pos(),
    {
        let stop: bool;
        if !ctx.is_next() {
            stop = true;
        } else {
            let c = match ctx.peek() {
                Ok(c) => c,
                Err(e) => {
                    return Err(e);
                },
            };
            let cc = c as u32;
            if 48 <= cc && cc <= 57 {
                match ctx.consume() {
                    Ok(u) => u,
                    Err(e) => {
                        return Err(e);
                    },
                };
                let ghost prev = ds@;
                ds.push((cc - 48) as u8);
                proof {
                    assert(ds@ + sp_digits(ctx.input(), ctx.pos()).0 =~= prev + (seq![
                        crate::grammar::digit_of(c),
                    ] + sp_digits(ctx.input(), ctx.pos()).0));
                }
                stop = false;
            } else {
                stop = true;
            }
        }
        if stop {
            proof {
                assert(sp_digits(ctx.input(), old(ctx).pos()).0 =~= ds@);
            }
            break;
        }
    }
    if ds.len() == 0 {
        if !ctx.is_next() {
            Err(ctx.error("unexpected EOF"))
        } else {
            Err(ctx.error("expected '-' or '0'..'9'"))
        }
    } else {
        Ok(ds)
    }
}

/// Consumes one character, which must be a hexadecimal digit, and returns
/// its value.
fn hex_step(ctx: &mut Context) -> (r: Result<u32, String>)
    requires
        old(ctx).wf(),
    ensures
        final(ctx).wf(),
        final(ctx).input() == old(ctx).input(),
        old(ctx).pos() >= old(ctx).input().len() ==> {
            &&& (r matches Err(m) && m@ == err_at(old(ctx).input(), eof_msg(), old(ctx).pos()))
            &&& final(ctx).pos() == old(ctx).pos()
        },
        old(ctx).pos() < old(ctx).input().len() ==> final(ctx).pos() == old(ctx).pos() + 1,
        old(ctx).pos() < old(ctx).input().len() && hex_val(
            old(ctx).input()[old(ctx).pos()],
        ) is None ==> (r matches Err(m) && m@ == err_at(
            old(ctx).input(),
            msg_hex(),
            old(ctx).pos() + 1,
        )),
        old(ctx).pos() < old(ctx).input().len() && hex_val(
            old(ctx).input()[old(ctx).pos()],
        ) is Some ==> (r matches Ok(v) && v < 16 && v as int == hex_val(
            old(ctx).input()[old(ctx).pos()],
        ).unwrap()),
{
    let c = match ctx.next() {
        Ok(c) => c,
        Err(e) => {
            return Err(e);
        },
    };
    let d = c as u32;
    if 48 <= d && d <= 57 {
        Ok(d - 48)
    } else if 65 <= d && d <= 70 {
        Ok(d - 55)
    } else if 97 <= d && d <= 102 {
        Ok(d - 87)
    } else {
        Err(ctx.error("invalid hex digit"))
    }
}

/// Consumes exactly four hexadecimal digits forming one 16-bit code unit.
fn parse_hex4(ctx: &mut Context) -> (r: Result<u32, String>)
    requires
        old(ctx).wf(),
    ensures
        final(ctx).wf(),
        final(ctx).input() == old(ctx).input(),
        match sp_hex4(old(ctx).input(), old(ctx).pos()) {
            Ok((n, j)) => {
                &&& (r matches Ok(v) && v as int == n && v <= 0xFFFF)
                &&& final(ctx).pos() == j
            },
            Err(e) => {
                &&& (r matches Err(m) && m@ == err_at(old(ctx).input(), e.msg, e.at))
                &&& final(ctx).pos() == e.at
            },
        },
{
    let h0 = match hex_step(ctx) {
        Ok(v) => v,
        Err(e) => {
            return Err(e);
        },
    };
    let h1 = match hex_step(ctx) {
        Ok(v) => v,
        Err(e) => {
            return Err(e);
        },
    };
    let h2 = match hex_step(ctx) {
        Ok(v) => v,
        Err(e) => {
            return Err(e);
        },
    };
    let h3 = match hex_step(ctx) {
        Ok(v) => v,
        Err(e) => {
            return Err(e);
        },
    };
    Ok(h0 * 4096 + h1 * 256 + h2 * 16 + h3)
}

/// Consumes a string literal and returns its decoded characters.
pub fn parse_string(ctx: &mut Context) -> (r: Result<String, String>)
    requires
        old(ctx).wf(),
    ensures
        final(ctx).wf(),
        final(ctx).input() == old(ctx).input(),
        match sp_string(old(ctx).input(), old(ctx).pos()) {
            Ok((t, j)) => {
                &&& (r matches Ok(st) && st@ == t)
                &&& final(ctx).pos() == j
            },
            Err(e) => {
                &&& (r matches Err(m) && m@ == err_at(old(ctx).input(), e.msg, e.at))
                &&& final(ctx).pos() == e.at
            },
        },
        old(ctx).pos() <= final(ctx).pos(),
        r is Ok ==> old(ctx).pos() < final(ctx).pos(),
{
    match parse_char(ctx, '"') {
        Ok(u) => u,
        Err(e) => {
            return Err(e);
        },
    };
    let mut out = String::from_str("");
    proof {
        reveal_strlit("");
    }
    let ghost i1 = ctx.pos();
    proof {
        match sp_string_body(ctx.input(), i1) {
            Ok((t, j)) => {
                assert(out@ + t =~= t);
            },
            Err(_) => {},
        }
    }
    loop
        invariant_except_break
            ctx.wf(),
            ctx.input() == old(ctx).input(),
            old(ctx).pos() < i1 <= ctx.pos(),
            sp_string(ctx.input(), old(ctx).pos()) == sp_string_body(ctx.input(), i1),
            sp_string_body(ctx.input(), i1) == sp_prepend(
                out@,
                sp_string_body(ctx.input(), ctx.pos()),
            ),
        ensures
            ctx.wf(),
            ctx.input() == old(ctx).input(),
            old(ctx).pos() < i1 <= ctx.pos(),
            sp_string(ctx.input(), old(ctx).pos()) == sp_string_body(ctx.input(), i1),
            sp_string_body(ctx.input(), i1) == Ok::<(Seq<char>, int), SpecErr>(
                (out@, ctx.pos()),
            ),
        decreases ctx.input().len() - ctx.pos(),
    {
        let ghost p0 = ctx.pos();
        let ghost prev = out@;
        let c = match ctx.next() {
            Ok(c) => c,
            Err(e) => {
                return Err(e);
            },
        };
        if c == '"' {
            proof {
                assert(prev + Seq::<char>::empty() =~= prev);
            }
            break;
        }
        if c == '\\' {
            let e = match ctx.next() {
                Ok(c) => c,
                Err(e) => {
                    return Err(e);
                },
            };
            let d: char;
            if e == '"' {
                d = '"';
            } else if e == '\\' {
                d = '\\';
            } else if e == '/' {
                d = '/';
            } else if e == 'b' {
                d = '\u{8}';
            } else if e == 'f' {
                d = '\u{c}';
            } else if e == 'n' {
                d = '\n';
            } else if e == 'r' {
                d = '\r';
            } else if e == 't' {
                d = '\t';
            } else if e == 'u' {
                let n = match parse_hex4(ctx) {
                    Ok(v) => v,
                    Err(er) => {
                        return Err(er);
                    },
                };
                if 0xD800 <= n && n <= 0xDBFF {
                    let c1 = match ctx.next() {
                        Ok(c) => c,
                        Err(er) => {
                            return Err(er);
                        },
                    };
                    if c1 != '\\' {
                        return Err(ctx.error("invalid character"));
                    }
                    let c2 = match ctx.next() {
                        Ok(c) => c,
                        Err(er) => {
                            return Err(er);
                        },
                    };
                    if c2 != 'u' {
                        return Err(ctx.error("invalid character"));
                    }
                    let m = match parse_hex4(ctx) {
                        Ok(v) => v,
                        Err(er) => {
                            return Err(er);
                        },
                    };
                    if !(0xDC00 <= m && m <= 0xDFFF) {
                        return Err(ctx.error("invalid character"));
                    }
                    let code = 0x10000 + (n - 0xD800) * 0x400 + (m - 0xDC00);
                    match char::from_u32(code) {
                        Some(ch) => {
                            proof {
                                crate::grammar::lemma_scalar_of(ch);
                                assert(code_of(ch) == code);
                                assert(scalar(combine_surrogates(n as int, m as int)) == ch);
                            }
                            d = ch;
                        },
                        None => {
                            return Err(ctx.error("invalid character"));
                        },
                    }
                } else if 0xDC00 <= n && n <= 0xDFFF {
                    return Err(ctx.error("invalid character"));
                } else {
                    match char::from_u32(n) {
                        Some(ch) => {
                            proof {
                                crate::grammar::lemma_scalar_of(ch);
                                assert(code_of(ch) == n);
                                assert(scalar(n as int) == ch);
                            }
                            d = ch;
                        },
                        None => {
                            return Err(ctx.error("invalid character"));
                        },
                    }
                }
            } else {
                return Err(ctx.error("invalid character escape"));
            }
            out.push(d);
            proof {
                crate::grammar::lemma_prepend_cons(
                    prev,
                    d,
                    sp_string_body(ctx.input(), ctx.pos()),
                );
            }
        } else {
            out.push(c);
            proof {
                crate::grammar::lemma_prepend_cons(
                    prev,
                    c,
                    sp_string_body(ctx.input(), ctx.pos()),
                );
            }
        }
    }
    Ok(out)
}

/// Consumes a numeric literal and returns it as its decimal components.
pub fn parse_number(ctx: &mut Context) -> (r: Result<Value, String>)
    requires
        old(ctx).wf(),
    ensures
        final(ctx).wf(),
        final(ctx).input() == old(ctx).input(),
        match sp_number(old(ctx).input(), old(ctx).pos()) {
            Ok((n, j)) => {
                &&& (r matches Ok(v) && v@ == SpecValue::Num(n))
                &&& final(ctx).pos() == j
            },
            Err(e) => {
                &&& (r matches Err(m) && m@ == err_at(old(ctx).input(), e.msg, e.at))
                &&& final(ctx).pos() == e.at
            },
        },
        old(ctx).pos() <= final(ctx).pos(),
        r is Ok ==> old(ctx).pos() < final(ctx).pos(),
{
    let mut neg = false;
    if ctx.is_next() {
        let c = match ctx.peek() {
            Ok(c) => c,
            Err(e) => {
                return Err(e);
            },
        };
        if c == '-' {
            match ctx.consume() {
                Ok(u) => u,
                Err(e) => {
                    return Err(e);
                },
            };
            neg = true;
        }
    }
    let ints = match parse_digits(ctx) {
        Ok(v) => v,
        Err(e) => {
            return Err(e);
        },
    };
    let mut fr: Vec<u8> = Vec::new();
    let mut has_dot = false;
    if ctx.is_next() {
        let c = match ctx.peek() {
            Ok(c) => c,
            Err(e) => {
                return Err(e);
            },
        };
        if c == '.' {
            match ctx.consume() {
                Ok(u) => u,
                Err(e) => {
                    return Err(e);
                },
            };
            has_dot = true;
        }
    }
    if has_dot {
        fr = match parse_digits(ctx) {
            Ok(v) => v,
            Err(e) => {
                return Err(e);
            },
        };
    }
    let mut eneg = false;
    let mut ex: Vec<u8> = Vec::new();
    let mut has_e = false;
    if ctx.is_next() {
        let c = match ctx.peek() {
            Ok(c) => c,
            Err(e) => {
                return Err(e);
            },
        };
        if c == 'e' || c == 'E' {
            match ctx.consume() {
                Ok(u) => u,
                Err(e) => {
                    return Err(e);
                },
            };
            has_e = true;
            if ctx.is_next() {
                let c2 = match ctx.peek() {
                    Ok(c) => c,
                    Err(e) => {
                        return Err(e);
                    },
                };
                if c2 == '+' {
                    match ctx.consume() {
                        Ok(u) => u,
                        Err(e) => {
                            return Err(e);
                        },
                    };
                } else if c2 == '-' {
                    match ctx.consume() {
                        Ok(u) => u,
                        Err(e) => {
                            return Err(e);
                        },
                    };
                    eneg = true;
                }
            }
        }
    }
    if has_e {
        ex = match parse_digits(ctx) {
            Ok(v) => v,
            Err(e) => {
                return Err(e);
            },
        };
    }
    Ok(
        Value::Number(
            Number { neg, int_digits: ints, frac_digits: fr, exp_neg: eneg, exp_digits: ex },
        ),
    )
}

/// Consumes one of the words `true`, `false` or `null`.
pub fn parse_literal(ctx: &mut Context) -> (r: Result<Value, String>)
    requires
        old(ctx).wf(),
    ensures
        final(ctx).wf(),
        final(ctx).input() == old(ctx).input(),
        match sp_literal(old(ctx).input(), old(ctx).pos()) {
            Ok((v, j)) => {
                &&& (r matches Ok(val) && val@ == v)
                &&& final(ctx).pos() == j
            },
            Err(e) => {
                &&& (r matches Err(m) && m@ == err_at(old(ctx).input(), e.msg, e.at))
                &&& final(ctx).pos() == e.at
            },
        },
        old(ctx).pos() <= final(ctx).pos(),
        r is Ok ==> old(ctx).pos() < final(ctx).pos(),
{
    proof {
        reveal_strlit("true");
        reveal_strlit("false");
        reveal_strlit("null");
    }
    let c = match ctx.peek() {
        Ok(c) => c,
        Err(e) => {
            return Err(e);
        },
    };
    if c == 't' {
        match parse_word(ctx, "true") {
            Ok(u) => u,
            Err(e) => {
                return Err(e);
            },
        };
        Ok(Value::True)
    } else if c == 'f' {
        match parse_word(ctx, "false") {
            Ok(u) => u,
            Err(e) => {
                return Err(e);
            },
        };
        Ok(Value::False)
    } else if c == 'n' {
        match parse_word(ctx, "null") {
            Ok(u) => u,
            Err(e) => {
                return Err(e);
            },
        };
        Ok(Value::Null)
    } else {
        Err(ctx.error("expected 'true', 'false', or 'null'"))
    }
}

/// Lexicographic comparison of two string slices, by code point: the order
/// object keys are kept in.
fn str_lt(a: &str, b: &str) -> (r: bool)
    ensures
        r == crate::value::lex_lt(a@, b@),
{
    let la = a.unicode_len();
    let lb = b.unicode_len();
    let mut i: usize = 0;
    loop
        invariant
            i <= la,
            i <= lb,
            la == a@.len(),
            lb == b@.len(),
            crate::value::lex_lt_from(a@, b@, 0) == crate::value::lex_lt_from(a@, b@, i as int),
        decreases lb - i,
    {
        if i >= lb {
            return false;
        }
        if i >= la {
            return true;
        }
        let ca = a.get_char(i) as u32;
        let cb = b.get_char(i) as u32;
        if ca < cb {
            return true;
        }
        if cb < ca {
            return false;
        }
        i = i + 1;
    }
}

/// Inserts one member into the key-sorted member vector, with
/// last-write-wins: an existing key has its value replaced in place, a new
/// key enters at its lexicographic position.
fn insert_member(ps: &mut Vec<(String, Value)>, key: String, val: Value)
    ensures
        obj_view(final(ps)@) == insert_pair(obj_view(old(ps)@), key@, val@),
{
    let mut i: usize = 0;
    while i < ps.len()
        invariant
            i <= ps@.len(),
            ps@ == old(ps)@,
            forall|k: int| 0 <= k < i ==> crate::value::lex_lt(
                #[trigger] obj_view(ps@)[k].0,
                key@,
            ),
        decreases ps@.len() - i,
    {
        if ps[i].0 == key {
            let ghost before = ps@;
            ps.remove(i);
            ps.insert(i, (key, val));
            proof {
                assert(ps@ =~= before.update(i as int, (key, val)));
                assert(obj_view(ps@) =~= obj_view(before).update(i as int, (key@, val@)));
                crate::value::lemma_insert_pair_found(obj_view(before), i as int, key@, val@);
            }
            return;
        }
        if str_lt(key.as_str(), ps[i].0.as_str()) {
            let ghost before = ps@;
            ps.insert(i, (key, val));
            proof {
                assert(ps@ =~= before.subrange(0, i as int) + seq![(key, val)]
                    + before.subrange(i as int, before.len() as int));
                assert(obj_view(ps@) =~= obj_view(before).subrange(0, i as int) + seq![
                    (key@, val@),
                ] + obj_view(before).subrange(i as int, before.len() as int));
                crate::value::lemma_insert_pair_at(obj_view(before), i as int, key@, val@);
            }
            return;
        }
        proof {
            crate::value::lemma_lex_connex(obj_view(ps@)[i as int].0, key@);
        }
        i = i + 1;
    }
    let ghost before = ps@;
    ps.push((key, val));
    proof {
        assert(obj_view(ps@) =~= obj_view(before).subrange(0, before.len() as int) + seq![
            (key@, val@),
        ] + obj_view(before).subrange(before.len() as int, before.len() as int));
        crate::value::lemma_insert_pair_at(obj_view(before), before.len() as int, key@, val@);
    }
}

/// Consumes an array: `[`, optional whitespace, elements separated by
/// commas, `]`.
#[verifier::rlimit(100)]
pub fn parse_array(ctx: &mut Context) -> (r: Result<Value, String>)
    requires
        old(ctx).wf(),
    ensures
        final(ctx).wf(),
        final(ctx).input() == old(ctx).input(),
        match sp_array(old(ctx).input(), old(ctx).pos()) {
            Ok((v, j)) => {
                &&& (r matches Ok(val) && val@ == v)
                &&& final(ctx).pos() == j
            },
            Err(e) => {
                &&& (r matches Err(m) && m@ == err_at(old(ctx).input(), e.msg, e.at))
                &&& final(ctx).pos() == e.at
            },
        },
        old(ctx).pos() <= final(ctx).pos(),
        r is Ok ==> old(ctx).pos() < final(ctx).pos(),
    decreases old(ctx).input().len() - old(ctx).pos(), 0int,
{
    match parse_char(ctx, '[') {
        Ok(u) => u,
        Err(e) => {
            return Err(e);
        },
    };
    let ghost j0 = ctx.pos();
    match parse_whitespace(ctx) {
        Ok(u) => u,
        Err(e) => {
            return Err(e);
        },
    };
    proof {
        assert(lo(j0, sp_ws(ctx.input(), j0), ctx.input().len() as int) == ctx.pos());
    }
    let c0 = match ctx.peek() {
        Ok(c) => c,
        Err(e) => {
            return Err(e);
        },
    };
    if c0 == ']' {
        match ctx.consume() {
            Ok(u) => u,
            Err(e) => {
                return Err(e);
            },
        };
        let empty: Vec<Value> = Vec::new();
        proof {
            crate::value::lemma_array_view(empty);
            assert(arr_view(empty@) =~= Seq::<SpecValue>::empty());
        }
        return Ok(Value::Array(empty));
    }
    let mut vals: Vec<Value> = Vec::new();
    proof {
        assert(arr_view(vals@) =~= Seq::<SpecValue>::empty());
    }
    loop
        invariant
            ctx.wf(),
            ctx.input() == old(ctx).input(),
            old(ctx).pos() < ctx.pos(),
            sp_array(ctx.input(), old(ctx).pos()) == sp_array_items(
                ctx.input(),
                ctx.pos(),
                arr_view(vals@),
            ),
        decreases ctx.input().len() - ctx.pos(),
    {
        let ghost p0 = ctx.pos();
        let ghost acc0 = arr_view(vals@);
        let v = match parse_value(ctx) {
            Ok(v) => v,
            Err(e) => {
                return Err(e);
            },
        };
        let ghost jv = ctx.pos();
        vals.push(v);
        proof {
            assert(arr_view(vals@) =~= acc0.push(v@));
            assert(adv(p0, jv, ctx.input().len() as int) == jv);
        }
        match parse_whitespace(ctx) {
            Ok(u) => u,
            Err(e) => {
                return Err(e);
            },
        };
        let ghost jw = ctx.pos();
        proof {
            assert(lo(jv, sp_ws(ctx.input(), jv), ctx.input().len() as int) == jw);
        }
        let c = match ctx.next() {
            Ok(c) => c,
            Err(e) => {
                return Err(e);
            },
        };
        if c == ']' {
            proof {
                crate::value::lemma_array_view(vals);
                assert(sp_array_items(ctx.input(), p0, acc0) == Ok::<(SpecValue, int), SpecErr>(
                    (SpecValue::Array(acc0.push(v@)), jw + 1),
                ));
            }
            return Ok(Value::Array(vals));
        } else if c == ',' {
            proof {
                assert(sp_array_items(ctx.input(), p0, acc0) == sp_array_items(
                    ctx.input(),
                    jw + 1,
                    acc0.push(v@),
                ));
            }
        } else {
            return Err(ctx.error("expected ']' or ','"));
        }
    }
}

/// Consumes an object: `{`, members separated by commas, `}`.  Members are
/// kept in lexicographic key order; a duplicate key overwrites the earlier
/// value in place.
#[verifier::rlimit(100)]
pub fn parse_object(ctx: &mut Context) -> (r: Result<Value, String>)
    requires
        old(ctx).wf(),
    ensures
        final(ctx).wf(),
        final(ctx).input() == old(ctx).input(),
        match sp_object(old(ctx).input(), old(ctx).pos()) {
            Ok((v, j)) => {
                &&& (r matches Ok(val) && val@ == v)
                &&& final(ctx).pos() == j
            },
            Err(e) => {
                &&& (r matches Err(m) && m@ == err_at(old(ctx).input(), e.msg, e.at))
                &&& final(ctx).pos() == e.at
            },
        },
        old(ctx).pos() <= final(ctx).pos(),
        r is Ok ==> old(ctx).pos() < final(ctx).pos(),
    decreases old(ctx).input().len() - old(ctx).pos(), 0int,
{
    match parse_char(ctx, '{') {
        Ok(u) => u,
        Err(e) => {
            return Err(e);
        },
    };
    let ghost j0 = ctx.pos();
    match parse_whitespace(ctx) {
        Ok(u) => u,
        Err(e) => {
            return Err(e);
        },
    };
    proof {
        assert(lo(j0, sp_ws(ctx.input(), j0), ctx.input().len() as int) == ctx.pos());
    }
    let c0 = match ctx.peek() {
        Ok(c) => c,
        Err(e) => {
            return Err(e);
        },
    };
    if c0 == '}' {
        match ctx.consume() {
            Ok(u) => u,
            Err(e) => {
                return Err(e);
            },
        };
        let empty: Vec<(String, Value)> = Vec::new();
        proof {
            crate::value::lemma_object_view(empty);
            assert(obj_view(empty@) =~= Seq::<(Seq<char>, SpecValue)>::empty());
        }
        return Ok(Value::Object(empty));
    }
    if c0 != '"' {
        return Err(ctx.error("expected '\"' or '}'"));
    }
    let mut pairs: Vec<(String, Value)> = Vec::new();
    proof {
        assert(obj_view(pairs@) =~= Seq::<(Seq<char>, SpecValue)>::empty());
    }
    loop
        invariant
            ctx.wf(),
            ctx.input() == old(ctx).input(),
            old(ctx).pos() < ctx.pos(),
            sp_object(ctx.input(), old(ctx).pos()) == sp_object_items(
                ctx.input(),
                ctx.pos(),
                obj_view(pairs@),
            ),
        decreases ctx.input().len() - ctx.pos(),
    {
        let ghost p0 = ctx.pos();
        let ghost acc0 = obj_view(pairs@);
        let key = match parse_string(ctx) {
            Ok(k) => k,
            Err(e) => {
                return Err(e);
            },
        };
        let ghost jk = ctx.pos();
        proof {
            assert(adv(p0, jk, ctx.input().len() as int) == jk);
        }
        match parse_whitespace(ctx) {
            Ok(u) => u,
            Err(e) => {
                return Err(e);
            },
        };
        let ghost jw1 = ctx.pos();
        proof {
            assert(lo(jk, sp_ws(ctx.input(), jk), ctx.input().len() as int) == jw1);
        }
        match parse_char(ctx, ':') {
            Ok(u) => u,
            Err(e) => {
                return Err(e);
            },
        };
        let v = match parse_value(ctx) {
            Ok(v) => v,
            Err(e) => {
                return Err(e);
            },
        };
        let ghost jv = ctx.pos();
        let ghost key_view = key@;
        insert_member(&mut pairs, key, v);
        proof {
            assert(adv(jw1 + 1, jv, ctx.input().len() as int) == jv);
            assert(obj_view(pairs@) == insert_pair(acc0, key_view, v@));
        }
        match parse_whitespace(ctx) {
            Ok(u) => u,
            Err(e) => {
                return Err(e);
            },
        };
        let ghost jw2 = ctx.pos();
        proof {
            assert(lo(jv, sp_ws(ctx.input(), jv), ctx.input().len() as int) == jw2);
        }
        let c = match ctx.next() {
            Ok(c) => c,
            Err(e) => {
                return Err(e);
            },
        };
        if c == '}' {
            proof {
                crate::value::lemma_object_view(pairs);
                assert(sp_object_items(ctx.input(), p0, acc0) == Ok::<(SpecValue, int), SpecErr>(
                    (SpecValue::Object(insert_pair(acc0, key_view, v@)), jw2 + 1),
                ));
            }
            return Ok(Value::Object(pairs));
        } else if c == ',' {
            let ghost j3 = ctx.pos();
            match parse_whitespace(ctx) {
                Ok(u) => u,
                Err(e) => {
                    return Err(e);
                },
            };
            proof {
                assert(lo(j3, sp_ws(ctx.input(), j3), ctx.input().len() as int) == ctx.pos());
                assert(sp_object_items(ctx.input(), p0, acc0) == sp_object_items(
                    ctx.input(),
                    ctx.pos(),
                    insert_pair(acc0, key_view, v@),
                ));
            }
        } else {
            return Err(ctx.error("expected '}' or ','"));
        }
    }
}

/// Consumes one value: leading whitespace, then the production picked by
/// the first significant character.
#[verifier::rlimit(100)]
pub fn parse_value(ctx: &mut Context) -> (r: Result<Value, String>)
    requires
        old(ctx).wf(),
    ensures
        final(ctx).wf(),
        final(ctx).input() == old(ctx).input(),
        match sp_value(old(ctx).input(), old(ctx).pos()) {
            Ok((v, j)) => {
                &&& (r matches Ok(val) && val@ == v)
                &&& final(ctx).pos() == j
            },
            Err(e) => {
                &&& (r matches Err(m) && m@ == err_at(old(ctx).input(), e.msg, e.at))
                &&& final(ctx).pos() == e.at
            },
        },
        old(ctx).pos() <= final(ctx).pos(),
        r is Ok ==> old(ctx).pos() < final(ctx).pos(),
    decreases old(ctx).input().len() - old(ctx).pos(), 1int,
{
    match parse_whitespace(ctx) {
        Ok(u) => u,
        Err(e) => {
            return Err(e);
        },
    };
    proof {
        assert(lo(
            old(ctx).pos(),
            sp_ws(ctx.input(), old(ctx).pos()),
            ctx.input().len() as int,
        ) == ctx.pos());
    }
    let c = match ctx.peek() {
        Ok(c) => c,
        Err(e) => {
            return Err(e);
        },
    };
    if c == '{' {
        parse_object(ctx)
    } else if c == '"' {
        match parse_string(ctx) {
            Ok(st) => Ok(Value::String(st)),
            Err(e) => Err(e),
        }
    } else if c == '[' {
        parse_array(ctx)
    } else {
        let cc = c as u32;
        if c == '-' || (48 <= cc && cc <= 57) {
            parse_number(ctx)
        } else {
            parse_literal(ctx)
        }
    }
}

/// Parses `src` as one JSON value.  Leading whitespace is skipped; content
/// after the first complete value is ignored.  On failure the error message
/// reads `"{description} at {line}:{column}"` with 1-based line and column.
pub fn parse(src: &str) -> (r: Result<Value, String>)
    requires
        src@.len() < usize::MAX,
    ensures
        match sp_value(src@, 0) {
            Ok((v, j)) => r matches Ok(val) && val@ == v,
            Err(e) => r matches Err(m) && m@ == err_at(src@, e.msg, e.at),
        },
        r matches Ok(val) ==> val@.wf(),
{
    proof {
        crate::laws::lemma_wf_value(src@, 0);
    }
    let mut ctx = Context::new(src);
    parse_value(&mut ctx)
}

} // verus!
