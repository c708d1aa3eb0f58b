//! Laws proved of the grammar as a whole.
//!
//! Two families of results, both by induction over the mutually recursive
//! productions of [`crate::grammar`]:
//!
//! - well-formedness: every value the grammar yields keeps each object's
//!   members in strictly increasing lexicographic key order (so keys are
//!   unique) and has valid digits in each of its numbers
//!   ([`lemma_wf_value`], carried onto `parse` itself);
//! - truncation: cutting the input anywhere before the end of its
//!   top-level value makes the parse fail with its error standing exactly
//!   at the cut and carrying the end-of-input message
//!   ([`lemma_truncation_fails`]); a cut numeric literal may itself be a
//!   complete, shorter literal.  Bounds lemmas (`lemma_bounds_*`), showing
//!   that every production moves the cursor forward and that both results
//!   and errors stay within the input, support the induction.
//!
//! Alongside them stand round-trip results for the leaf productions:
//! a well-formed number, a literal word and a string of plain characters
//! each parse back exactly from their canonical text
//! ([`lemma_number_round_trip`], [`lemma_literal_round_trip`],
//! [`lemma_plain_string_round_trip`]), and leading whitespace never
//! changes a parse ([`lemma_leading_ws`]).

use vstd::prelude::*;
use crate::grammar::lemma_digits_bounds;
use crate::grammar::lemma_ws_bounds;
use crate::grammar::is_digit;
use crate::grammar::is_ws;
use crate::grammar::lo;
use crate::grammar::sp_char;
use crate::grammar::sp_digits;
use crate::grammar::sp_hex4;
use crate::grammar::sp_string_body;
use crate::grammar::SpecErr;
use crate::scan::eof_msg;
use crate::grammar::sp_array;
use crate::grammar::sp_array_items;
use crate::grammar::sp_literal;
use crate::grammar::sp_number;
use crate::grammar::sp_object;
use crate::grammar::sp_object_items;
use crate::grammar::sp_string;
use crate::grammar::sp_value;
use crate::grammar::sp_word;
use crate::grammar::sp_ws;
use crate::value::lemma_insert_pair_wf;
use crate::value::SpecValue;
use crate::value::sorted_keys;

verus! {

broadcast use vstd::seq::group_seq_axioms;

/// A successfully parsed number is well formed: its digit values lie below
/// ten, its integer part is not empty, and an absent exponent carries no
/// sign.
pub proof fn lemma_wf_number(s: Seq<char>, i: int)
    requires
        0 <= i <= s.len(),
    ensures
        sp_number(s, i) matches Ok((n, j)) ==> n.wf(),
{
    let neg = i < s.len() && s[i] == '-';
    let i0 = if neg { i + 1 } else { i };
    lemma_digits_bounds(s, i0);
    let (ints, j) = crate::grammar::sp_digits(s, i0);
    if ints.len() != 0 {
        if j < s.len() && s[j] == '.' {
            lemma_digits_bounds(s, j + 1);
            let (fr, jf) = crate::grammar::sp_digits(s, j + 1);
            if fr.len() != 0 {
                lemma_wf_number_exp(s, jf, neg, ints, fr);
            }
        } else {
            lemma_wf_number_exp(s, j, neg, ints, Seq::empty());
        }
    }
}

/// The exponent part of a successfully parsed number is well formed.
proof fn lemma_wf_number_exp(s: Seq<char>, i: int, neg: bool, ints: Seq<u8>, fr: Seq<u8>)
    requires
        0 <= i <= s.len(),
        ints.len() >= 1,
        forall|k: int| 0 <= k < ints.len() ==> ints[k] < 10,
        forall|k: int| 0 <= k < fr.len() ==> fr[k] < 10,
    ensures
        crate::grammar::sp_number_exp(s, i, neg, ints, fr) matches Ok((n, j)) ==> n.wf(),
{
    if i < s.len() && (s[i] == 'e' || s[i] == 'E') {
        let i2 = if i + 1 < s.len() && s[i + 1] == '+' {
            i + 2
        } else if i + 1 < s.len() && s[i + 1] == '-' {
            i + 2
        } else {
            i + 1
        };
        lemma_digits_bounds(s, i2);
    }
}

/// Every value the grammar yields is well formed: each object in it keeps
/// its members in lexicographic key order and each number in it is well
/// formed.
pub proof fn lemma_wf_value(s: Seq<char>, i: int)
    requires
        0 <= i <= s.len(),
    ensures
        sp_value(s, i) matches Ok((v, j)) ==> v.wf(),
    decreases s.len() - i, 1int,
{
    let j = lo(i, sp_ws(s, i), s.len() as int);
    lemma_ws_bounds(s, i);
    if j < s.len() {
        let c = s[j];
        if c == '{' {
            lemma_wf_object(s, j);
        } else if c == '"' {
        } else if c == '[' {
            lemma_wf_array(s, j);
        } else if c == '-' || crate::grammar::is_digit(c) {
            lemma_wf_number(s, j);
        }
    }
}

/// Every array the grammar yields is well formed.
pub proof fn lemma_wf_array(s: Seq<char>, i: int)
    requires
        0 <= i <= s.len(),
    ensures
        sp_array(s, i) matches Ok((v, j)) ==> v.wf(),
    decreases s.len() - i, 0int,
{
    if i < s.len() && s[i] == '[' {
        let j = lo(i + 1, sp_ws(s, i + 1), s.len() as int);
        lemma_ws_bounds(s, i + 1);
        if j < s.len() && s[j] != ']' {
            lemma_wf_array_items(s, j, Seq::empty());
        }
    }
}

/// Every object the grammar yields is well formed.
pub proof fn lemma_wf_object(s: Seq<char>, i: int)
    requires
        0 <= i <= s.len(),
    ensures
        sp_object(s, i) matches Ok((v, j)) ==> v.wf(),
    decreases s.len() - i, 0int,
{
    if i < s.len() && s[i] == '{' {
        let j = lo(i + 1, sp_ws(s, i + 1), s.len() as int);
        lemma_ws_bounds(s, i + 1);
        if j < s.len() && s[j] != '}' && s[j] == '"' {
            lemma_wf_object_items(s, j, Seq::empty());
        }
    }
}

/// Array elements accumulated so far stay well formed through the rest of
/// the elements.
pub proof fn lemma_wf_array_items(s: Seq<char>, i: int, acc: Seq<SpecValue>)
    requires
        0 <= i <= s.len(),
        forall|k: int| 0 <= k < acc.len() ==> #[trigger] acc[k].wf(),
    ensures
        sp_array_items(s, i, acc) matches Ok((v, j)) ==> v.wf(),
    decreases s.len() - i, 2int,
{
    lemma_wf_value(s, i);
    match sp_value(s, i) {
        Err(_) => {},
        Ok((v, jr)) => {
            let j = crate::grammar::adv(i, jr, s.len() as int);
            let j2 = lo(j, sp_ws(s, j), s.len() as int);
            let acc2 = acc.push(v);
            assert forall|k: int| 0 <= k < acc2.len() implies #[trigger] acc2[k].wf() by {
                if k < acc.len() {
                    assert(acc[k].wf());
                } else {
                    assert(acc2[k] == v);
                }
            }
            if j2 < s.len() {
                if s[j2] == ']' {
                    crate::value::lemma_array_wf(acc2);
                } else if s[j2] == ',' {
                    lemma_wf_array_items(s, j2 + 1, acc2);
                }
            }
        },
    }
}

/// Object members accumulated so far keep sorted keys and well-formed
/// values through the rest of the members.
pub proof fn lemma_wf_object_items(
    s: Seq<char>,
    i: int,
    acc: Seq<(Seq<char>, SpecValue)>,
)
    requires
        0 <= i <= s.len(),
        sorted_keys(acc),
        forall|k: int| 0 <= k < acc.len() ==> #[trigger] acc[k].1.wf(),
    ensures
        sp_object_items(s, i, acc) matches Ok((v, j)) ==> v.wf(),
    decreases s.len() - i, 2int,
{
    match sp_string(s, i) {
        Err(_) => {},
        Ok((key, jr)) => {
            let j = crate::grammar::adv(i, jr, s.len() as int);
            let j2 = lo(j, sp_ws(s, j), s.len() as int);
            match crate::grammar::sp_char(s, j2, ':') {
                Err(_) => {},
                Ok(j3) => {
                    lemma_wf_value(s, j3);
                    match sp_value(s, j3) {
                        Err(_) => {},
                        Ok((v, kr)) => {
                            let k = crate::grammar::adv(j3, kr, s.len() as int);
                            let acc2 = crate::value::insert_pair(acc, key, v);
                            lemma_insert_pair_wf(acc, key, v);
                            let k2 = lo(k, sp_ws(s, k), s.len() as int);
                            if k2 < s.len() {
                                if s[k2] == '}' {
                                    crate::value::lemma_object_wf(acc2);
                                } else if s[k2] == ',' {
                                    let k3 = lo(k2 + 1, sp_ws(s, k2 + 1), s.len() as int);
                                    lemma_ws_bounds(s, k2 + 1);
                                    lemma_wf_object_items(s, k3, acc2);
                                }
                            }
                        },
                    }
                },
            }
        },
    }
}

/// A word match that succeeds ends exactly one character past each matched
/// character, within the input.
pub proof fn lemma_bounds_word(s: Seq<char>, i: int, w: Seq<char>, kk: int)
    requires
        0 <= i <= s.len(),
        0 <= kk <= w.len(),
    ensures
        sp_word(s, i, w, kk) matches Ok(j) ==> i <= j <= s.len() && j - i == w.len() - kk,
        sp_word(s, i, w, kk) matches Err(e) ==> i <= e.at <= s.len(),
    decreases w.len() - kk,
{
    if kk < w.len() {
        match crate::grammar::sp_char(s, i, w[kk]) {
            Ok(j1) => {
                lemma_bounds_word(s, j1, w, kk + 1);
            },
            Err(_) => {},
        }
    }
}

/// A string body that succeeds consumes at least its closing quote and
/// stays within the input.
pub proof fn lemma_bounds_string_body(s: Seq<char>, i: int)
    requires
        0 <= i <= s.len(),
    ensures
        crate::grammar::sp_string_body(s, i) matches Ok((t, j)) ==> i < j <= s.len(),
        crate::grammar::sp_string_body(s, i) matches Err(e) ==> i <= e.at <= s.len(),
    decreases s.len() - i,
{
    if i < s.len() {
        let c = s[i];
        if c == '"' {
        } else if c == '\\' {
            if i + 1 < s.len() {
                let e = s[i + 1];
                if e == 'u' {
                    match crate::grammar::sp_hex4(s, i + 2) {
                        Err(_) => {},
                        Ok((n, j)) => {
                            if crate::grammar::is_high_surrogate(n) {
                                if j + 1 < s.len() && s[j] == '\\' && s[j + 1] == 'u' {
                                    match crate::grammar::sp_hex4(s, j + 2) {
                                        Err(_) => {},
                                        Ok((m, j2)) => {
                                            lemma_bounds_string_body(s, j2);
                                        },
                                    }
                                }
                            } else {
                                lemma_bounds_string_body(s, j);
                            }
                        },
                    }
                } else {
                    lemma_bounds_string_body(s, i + 2);
                }
            }
        } else {
            lemma_bounds_string_body(s, i + 1);
        }
    }
}

/// A string literal that succeeds consumes at least its two quotes.
pub proof fn lemma_bounds_string(s: Seq<char>, i: int)
    requires
        0 <= i <= s.len(),
    ensures
        sp_string(s, i) matches Ok((t, j)) ==> i < j <= s.len(),
        sp_string(s, i) matches Err(e) ==> i <= e.at <= s.len(),
{
    match crate::grammar::sp_char(s, i, '"') {
        Ok(j1) => {
            lemma_bounds_string_body(s, j1);
        },
        Err(_) => {},
    }
}

/// A number that succeeds consumes at least one digit and stays within the
/// input.
pub proof fn lemma_bounds_number(s: Seq<char>, i: int)
    requires
        0 <= i <= s.len(),
    ensures
        sp_number(s, i) matches Ok((n, j)) ==> i < j <= s.len(),
        sp_number(s, i) matches Err(e) ==> i <= e.at <= s.len(),
{
    let neg = i < s.len() && s[i] == '-';
    let i0 = if neg { i + 1 } else { i };
    lemma_digits_bounds(s, i0);
    let (ints, j) = crate::grammar::sp_digits(s, i0);
    if ints.len() != 0 {
        if j < s.len() && s[j] == '.' {
            lemma_digits_bounds(s, j + 1);
            let (fr, jf) = crate::grammar::sp_digits(s, j + 1);
            lemma_bounds_number_exp(s, jf);
        } else {
            lemma_bounds_number_exp(s, j);
        }
    }
}

/// The exponent part never moves backwards nor past the input end.
proof fn lemma_bounds_number_exp(s: Seq<char>, i: int)
    requires
        0 <= i <= s.len(),
    ensures
        forall|neg: bool, ints: Seq<u8>, fr: Seq<u8>|
            #[trigger] crate::grammar::sp_number_exp(s, i, neg, ints, fr) matches Ok((n, j))
                ==> i <= j <= s.len(),
        forall|neg: bool, ints: Seq<u8>, fr: Seq<u8>|
            #[trigger] crate::grammar::sp_number_exp(s, i, neg, ints, fr) matches Err(e)
                ==> i <= e.at <= s.len(),
{
    if i < s.len() && (s[i] == 'e' || s[i] == 'E') {
        let i2 = if i + 1 < s.len() && s[i + 1] == '+' {
            i + 2
        } else if i + 1 < s.len() && s[i + 1] == '-' {
            i + 2
        } else {
            i + 1
        };
        lemma_digits_bounds(s, i2);
    }
}

/// A literal word that succeeds consumes its whole word.
pub proof fn lemma_bounds_literal(s: Seq<char>, i: int)
    requires
        0 <= i <= s.len(),
    ensures
        sp_literal(s, i) matches Ok((v, j)) ==> i < j <= s.len(),
        sp_literal(s, i) matches Err(e) ==> i <= e.at <= s.len(),
{
    proof_strlits();
    if i < s.len() {
        lemma_bounds_word(s, i, "true"@, 0);
        lemma_bounds_word(s, i, "false"@, 0);
        lemma_bounds_word(s, i, "null"@, 0);
    }
}

/// The lengths of the three literal words.
proof fn proof_strlits()
    ensures
        "true"@.len() == 4,
        "false"@.len() == 5,
        "null"@.len() == 4,
{
    reveal_strlit("true");
    reveal_strlit("false");
    reveal_strlit("null");
}

/// A value that succeeds consumes at least one character and stays within
/// the input.
pub proof fn lemma_bounds_value(s: Seq<char>, i: int)
    requires
        0 <= i <= s.len(),
    ensures
        sp_value(s, i) matches Ok((v, j)) ==> i < j <= s.len(),
        sp_value(s, i) matches Err(e) ==> i <= e.at <= s.len(),
    decreases s.len() - i, 1int,
{
    let j0 = lo(i, sp_ws(s, i), s.len() as int);
    lemma_ws_bounds(s, i);
    if j0 < s.len() {
        let c = s[j0];
        if c == '{' {
            lemma_bounds_object(s, j0);
        } else if c == '"' {
            lemma_bounds_string(s, j0);
        } else if c == '[' {
            lemma_bounds_array(s, j0);
        } else if c == '-' || crate::grammar::is_digit(c) {
            lemma_bounds_number(s, j0);
        } else {
            lemma_bounds_literal(s, j0);
        }
    }
}

/// An array that succeeds consumes at least its brackets.
pub proof fn lemma_bounds_array(s: Seq<char>, i: int)
    requires
        0 <= i <= s.len(),
    ensures
        sp_array(s, i) matches Ok((v, j)) ==> i < j <= s.len(),
        sp_array(s, i) matches Err(e) ==> i <= e.at <= s.len(),
    decreases s.len() - i, 0int,
{
    if i < s.len() && s[i] == '[' {
        let j = lo(i + 1, sp_ws(s, i + 1), s.len() as int);
        lemma_ws_bounds(s, i + 1);
        if j < s.len() && s[j] != ']' {
            lemma_bounds_array_items(s, j, Seq::empty());
        }
    }
}

/// An object that succeeds consumes at least its braces.
pub proof fn lemma_bounds_object(s: Seq<char>, i: int)
    requires
        0 <= i <= s.len(),
    ensures
        sp_object(s, i) matches Ok((v, j)) ==> i < j <= s.len(),
        sp_object(s, i) matches Err(e) ==> i <= e.at <= s.len(),
    decreases s.len() - i, 0int,
{
    if i < s.len() && s[i] == '{' {
        let j = lo(i + 1, sp_ws(s, i + 1), s.len() as int);
        lemma_ws_bounds(s, i + 1);
        if j < s.len() && s[j] != '}' && s[j] == '"' {
            lemma_bounds_object_items(s, j, Seq::empty());
        }
    }
}

/// The remaining elements of an array stay within the input.
pub proof fn lemma_bounds_array_items(s: Seq<char>, i: int, acc: Seq<SpecValue>)
    requires
        0 <= i <= s.len(),
    ensures
        sp_array_items(s, i, acc) matches Ok((v, j)) ==> i < j <= s.len(),
        sp_array_items(s, i, acc) matches Err(e) ==> i <= e.at <= s.len(),
    decreases s.len() - i, 2int,
{
    lemma_bounds_value(s, i);
    match sp_value(s, i) {
        Err(_) => {},
        Ok((v, jr)) => {
            let j = crate::grammar::adv(i, jr, s.len() as int);
            let j2 = lo(j, sp_ws(s, j), s.len() as int);
            lemma_ws_bounds(s, if i <= j <= s.len() { j } else { i });
            if j2 < s.len() && s[j2] == ',' {
                lemma_bounds_array_items(s, j2 + 1, acc.push(v));
            }
        },
    }
}

/// The remaining members of an object stay within the input.
pub proof fn lemma_bounds_object_items(s: Seq<char>, i: int, acc: Seq<(Seq<char>, SpecValue)>)
    requires
        0 <= i <= s.len(),
    ensures
        sp_object_items(s, i, acc) matches Ok((v, j)) ==> i < j <= s.len(),
        sp_object_items(s, i, acc) matches Err(e) ==> i <= e.at <= s.len(),
    decreases s.len() - i, 2int,
{
    lemma_bounds_string(s, i);
    match sp_string(s, i) {
        Err(_) => {},
        Ok((key, jr)) => {
            let j = crate::grammar::adv(i, jr, s.len() as int);
            let j2 = lo(j, sp_ws(s, j), s.len() as int);
            match crate::grammar::sp_char(s, j2, ':') {
                Err(_) => {},
                Ok(j3) => {
                    lemma_bounds_value(s, j3);
                    match sp_value(s, j3) {
                        Err(_) => {},
                        Ok((v, kr)) => {
                            let k = crate::grammar::adv(j3, kr, s.len() as int);
                            let k2 = lo(k, sp_ws(s, k), s.len() as int);
                            if k2 < s.len() && s[k2] == ',' {
                                let k3 = lo(k2 + 1, sp_ws(s, k2 + 1), s.len() as int);
                                lemma_ws_bounds(s, k2 + 1);
                                lemma_bounds_object_items(
                                    s,
                                    k3,
                                    crate::value::insert_pair(acc, key, v),
                                );
                            }
                        },
                    }
                },
            }
        },
    }
}

/// Truncating the input at `k` leaves whitespace skipping unchanged up to
/// the truncation point and stops it there otherwise.
pub proof fn lemma_trunc_ws(s: Seq<char>, k: int, i: int)
    requires
        0 <= i <= k <= s.len(),
    ensures
        sp_ws(s, i) <= k ==> sp_ws(s.take(k), i) == sp_ws(s, i),
        sp_ws(s, i) > k ==> sp_ws(s.take(k), i) == k,
    decreases k - i,
{
    lemma_ws_bounds(s, i);
    if i < k && is_ws(s[i]) {
        lemma_trunc_ws(s, k, i + 1);
    }
}

/// Truncating the input at `k` leaves a digit run unchanged when it ends
/// by `k`, and cuts it exactly at `k` otherwise.
pub proof fn lemma_trunc_digits(s: Seq<char>, k: int, i: int)
    requires
        0 <= i <= k <= s.len(),
    ensures
        sp_digits(s, i).1 <= k ==> sp_digits(s.take(k), i) == sp_digits(s, i),
        sp_digits(s, i).1 > k ==> sp_digits(s.take(k), i).1 == k,
        i < k && i < s.len() && is_digit(s[i]) ==> sp_digits(s.take(k), i).0.len() > 0,
        !(i < k && i < s.len() && is_digit(s[i])) ==> sp_digits(s.take(k), i).0.len() == 0,
    decreases k - i,
{
    lemma_digits_bounds(s, i);
    lemma_digits_bounds(s.take(k), i);
    if i < k && i < s.len() && is_digit(s[i]) {
        lemma_trunc_digits(s, k, i + 1);
    }
}

/// Truncating the input at `k` leaves a four-digit hexadecimal code unit
/// unchanged when it ends by `k`, and turns it into the end-of-input error
/// at `k` otherwise.
pub proof fn lemma_trunc_hex4(s: Seq<char>, k: int, i: int)
    requires
        0 <= i <= k <= s.len(),
    ensures
        sp_hex4(s, i) matches Ok((n, j)) ==> {
            &&& (j <= k ==> sp_hex4(s.take(k), i) == sp_hex4(s, i))
            &&& (j > k ==> sp_hex4(s.take(k), i) == Err::<(int, int), SpecErr>(
                SpecErr { msg: eof_msg(), at: k },
            ))
        },
{
}

/// Truncating the input at `k` leaves a successful word match unchanged
/// when it ends by `k`, and turns it into the end-of-input error at `k`
/// otherwise.
pub proof fn lemma_trunc_word(s: Seq<char>, k: int, i: int, w: Seq<char>, kk: int)
    requires
        0 <= i <= k <= s.len(),
        0 <= kk <= w.len(),
    ensures
        sp_word(s, i, w, kk) matches Ok(j) ==> {
            &&& (j <= k ==> sp_word(s.take(k), i, w, kk) == sp_word(s, i, w, kk))
            &&& (j > k ==> sp_word(s.take(k), i, w, kk) == Err::<int, SpecErr>(
                SpecErr { msg: eof_msg(), at: k },
            ))
        },
    decreases w.len() - kk,
{
    lemma_bounds_word(s, i, w, kk);
    if kk < w.len() {
        match sp_char(s, i, w[kk]) {
            Ok(j1) => {
                lemma_bounds_word(s, j1, w, kk + 1);
                if i < k {
                    lemma_trunc_word(s, k, i + 1, w, kk + 1);
                }
            },
            Err(_) => {},
        }
    }
}

/// Truncating the input at `k` leaves a successful string body unchanged
/// when it ends by `k`, and turns it into the end-of-input error at `k`
/// otherwise.
pub proof fn lemma_trunc_string_body(s: Seq<char>, k: int, i: int)
    requires
        0 <= i <= k <= s.len(),
    ensures
        sp_string_body(s, i) matches Ok((c, j)) ==> {
            &&& (j <= k ==> sp_string_body(s.take(k), i) == sp_string_body(s, i))
            &&& (j > k ==> sp_string_body(s.take(k), i) == Err::<(Seq<char>, int), SpecErr>(
                SpecErr { msg: eof_msg(), at: k },
            ))
        },
    decreases s.len() - i, 1int,
{
    lemma_bounds_string_body(s, i);
    match sp_string_body(s, i) {
        Err(_) => {},
        Ok((c0, j0)) => {
            let ch = s[i];
            if i == k {
            } else if ch == '"' {
            } else if ch == '\\' {
                lemma_trunc_sb_escape(s, k, i);
            } else {
                lemma_bounds_string_body(s, i + 1);
                lemma_trunc_string_body(s, k, i + 1);
            }
        },
    }
}

/// The escape-sequence case of [`lemma_trunc_string_body`].
#[verifier::spinoff_prover]
proof fn lemma_trunc_sb_escape(s: Seq<char>, k: int, i: int)
    requires
        0 <= i < k <= s.len(),
        i < s.len(),
        s[i] == '\\',
        sp_string_body(s, i) is Ok,
    ensures
        sp_string_body(s, i) matches Ok((c, j)) ==> {
            &&& (j <= k ==> sp_string_body(s.take(k), i) == sp_string_body(s, i))
            &&& (j > k ==> sp_string_body(s.take(k), i) == Err::<(Seq<char>, int), SpecErr>(
                SpecErr { msg: eof_msg(), at: k },
            ))
        },
    decreases s.len() - i, 0int,
{
    lemma_bounds_string_body(s, i);
    let e = s[i + 1];
    if i + 1 == k {
        if e == 'u' {
            match sp_hex4(s, i + 2) {
                Err(_) => {},
                Ok((n, j4)) => {
                    if crate::grammar::is_high_surrogate(n) {
                        match sp_hex4(s, j4 + 2) {
                            Err(_) => {},
                            Ok((m, j12)) => {
                                lemma_bounds_string_body(s, j12);
                            },
                        }
                    } else {
                        lemma_bounds_string_body(s, j4);
                    }
                },
            }
        } else {
            lemma_bounds_string_body(s, i + 2);
        }
    } else if e == 'u' {
        match sp_hex4(s, i + 2) {
            Err(_) => {},
            Ok((n, j4)) => {
                lemma_trunc_hex4(s, k, i + 2);
                if crate::grammar::is_high_surrogate(n) {
                    match sp_hex4(s, j4 + 2) {
                        Err(_) => {},
                        Ok((m, j12)) => {
                            lemma_bounds_string_body(s, j12);
                            if j4 + 1 < k {
                                lemma_trunc_hex4(s, k, j4 + 2);
                                if j12 <= k {
                                    lemma_trunc_string_body(s, k, j12);
                                }
                            }
                        },
                    }
                } else {
                    lemma_bounds_string_body(s, j4);
                    if j4 <= k {
                        lemma_trunc_string_body(s, k, j4);
                    }
                }
            },
        }
    } else {
        lemma_bounds_string_body(s, i + 2);
        lemma_trunc_string_body(s, k, i + 2);
    }
}

/// Truncating the input at `k` leaves a successful string literal
/// unchanged when it ends by `k`, and turns it into the end-of-input error
/// at `k` otherwise.
pub proof fn lemma_trunc_string(s: Seq<char>, k: int, i: int)
    requires
        0 <= i <= k <= s.len(),
    ensures
        sp_string(s, i) matches Ok((c, j)) ==> {
            &&& (j <= k ==> sp_string(s.take(k), i) == sp_string(s, i))
            &&& (j > k ==> sp_string(s.take(k), i) == Err::<(Seq<char>, int), SpecErr>(
                SpecErr { msg: eof_msg(), at: k },
            ))
        },
{
    match sp_char(s, i, '"') {
        Ok(j1) => {
            lemma_bounds_string_body(s, j1);
            if i < k {
                lemma_trunc_string_body(s, k, j1);
            } else {
                lemma_bounds_string_body(s, j1);
            }
        },
        Err(_) => {},
    }
}

/// Truncating the input at `k` leaves a successful number unchanged when
/// it ends by `k`; a number cut by the truncation either still succeeds,
/// ending exactly at `k`, or fails at `k` with the end-of-input message.
pub proof fn lemma_trunc_number(s: Seq<char>, k: int, i: int)
    requires
        0 <= i <= k <= s.len(),
    ensures
        sp_number(s, i) matches Ok((n, j)) ==> {
            &&& (j <= k ==> sp_number(s.take(k), i) == sp_number(s, i))
            &&& (j > k ==> ((sp_number(s.take(k), i) matches Ok((n2, j2)) && j2 == k) || (
            sp_number(s.take(k), i) matches Err(e) && e.at == k && e.msg == eof_msg())))
        },
{
    let t = s.take(k);
    match sp_number(s, i) {
        Err(_) => {},
        Ok((n, j)) => {
            if i == k {
                lemma_digits_bounds(t, i);
                lemma_bounds_number(s, i);
            } else {
                let neg = s[i] == '-';
                let i0 = if neg {
                    i + 1
                } else {
                    i
                };
                lemma_trunc_digits(s, k, i0);
                lemma_digits_bounds(s, i0);
                lemma_digits_bounds(t, i0);
                let (ints, j1) = sp_digits(s, i0);
                if j1 > k {
                    if j1 < s.len() && s[j1] == '.' {
                        lemma_digits_bounds(s, j1 + 1);
                        lemma_bounds_number_exp(s, sp_digits(s, j1 + 1).1);
                    } else {
                        lemma_bounds_number_exp(s, j1);
                    }
                } else if j1 == k {
                    if j1 < s.len() && s[j1] == '.' {
                        lemma_digits_bounds(s, j1 + 1);
                        lemma_bounds_number_exp(s, sp_digits(s, j1 + 1).1);
                        lemma_trunc_number_exp(s, k, j1);
                    } else {
                        lemma_trunc_number_exp(s, k, j1);
                    }
                } else {
                    if s[j1] == '.' {
                        lemma_trunc_digits(s, k, j1 + 1);
                        lemma_digits_bounds(s, j1 + 1);
                        lemma_digits_bounds(t, j1 + 1);
                        let (fr, jf) = sp_digits(s, j1 + 1);
                        if jf > k {
                            lemma_bounds_number_exp(s, jf);
                        } else {
                            lemma_trunc_number_exp(s, k, jf);
                        }
                    } else {
                        lemma_trunc_number_exp(s, k, j1);
                    }
                }
            }
        },
    }
}

/// The exponent-part case of [`lemma_trunc_number`].
proof fn lemma_trunc_number_exp(s: Seq<char>, k: int, i: int)
    requires
        0 <= i <= k <= s.len(),
    ensures
        forall|neg: bool, ints: Seq<u8>, fr: Seq<u8>|
            #[trigger] crate::grammar::sp_number_exp(s, i, neg, ints, fr) matches Ok((n, j))
                ==> {
                &&& (j <= k ==> crate::grammar::sp_number_exp(s.take(k), i, neg, ints, fr)
                    == crate::grammar::sp_number_exp(s, i, neg, ints, fr))
                &&& (j > k ==> ((crate::grammar::sp_number_exp(s.take(k), i, neg, ints, fr)
                    matches Ok((n2, j2)) && j2 == k) || (crate::grammar::sp_number_exp(
                    s.take(k),
                    i,
                    neg,
                    ints,
                    fr,
                ) matches Err(e) && e.at == k && e.msg == eof_msg())))
            },
{
    let t = s.take(k);
    if i < s.len() && (s[i] == 'e' || s[i] == 'E') {
        let i2 = if i + 1 < s.len() && s[i + 1] == '+' {
            i + 2
        } else if i + 1 < s.len() && s[i + 1] == '-' {
            i + 2
        } else {
            i + 1
        };
        lemma_digits_bounds(s, i2);
        if i == k {
        } else if i + 1 < k {
            lemma_trunc_digits(s, k, i2);
            lemma_digits_bounds(t, i2);
        } else {
            lemma_digits_bounds(t, i + 1);
        }
    }
}

/// Truncating the input at `k` leaves a successful literal word unchanged
/// when it ends by `k`, and turns it into the end-of-input error at `k`
/// otherwise.
pub proof fn lemma_trunc_literal(s: Seq<char>, k: int, i: int)
    requires
        0 <= i <= k <= s.len(),
    ensures
        sp_literal(s, i) matches Ok((v, j)) ==> {
            &&& (j <= k ==> sp_literal(s.take(k), i) == sp_literal(s, i))
            &&& (j > k ==> sp_literal(s.take(k), i) == Err::<(SpecValue, int), SpecErr>(
                SpecErr { msg: eof_msg(), at: k },
            ))
        },
{
    proof_strlits();
    if i < s.len() {
        lemma_trunc_word(s, k, i, "true"@, 0);
        lemma_trunc_word(s, k, i, "false"@, 0);
        lemma_trunc_word(s, k, i, "null"@, 0);
        lemma_bounds_word(s, i, "true"@, 0);
        lemma_bounds_word(s, i, "false"@, 0);
        lemma_bounds_word(s, i, "null"@, 0);
    }
}

/// Truncating the input at `k` leaves a successful value unchanged when it
/// ends by `k`.  A value cut by the truncation fails with its error at the
/// truncated end, except that a cut numeric literal may instead succeed
/// and end exactly there.
#[verifier::rlimit(100)]
#[verifier::spinoff_prover]
pub proof fn lemma_trunc_value(s: Seq<char>, k: int, i: int)
    requires
        0 <= i <= k <= s.len(),
    ensures
        sp_value(s, i) matches Ok((v, j)) ==> {
            &&& (j <= k ==> sp_value(s.take(k), i) == sp_value(s, i))
            &&& (j > k ==> ((v is Num && (sp_value(s.take(k), i) matches Ok((v2, j2)) && j2
                == k)) || (sp_value(s.take(k), i) matches Err(e) && e.at == k && e.msg
                == eof_msg())))
        },
    decreases s.len() - i, 1int,
{
    lemma_bounds_value(s, i);
    match sp_value(s, i) {
        Err(_) => {},
        Ok((v, j)) => {
            let j0 = lo(i, sp_ws(s, i), s.len() as int);
            lemma_ws_bounds(s, i);
            lemma_trunc_ws(s, k, i);
            if j0 < s.len() {
                let c = s[j0];
                if c == '{' {
                    lemma_bounds_object(s, j0);
                } else if c == '"' {
                    lemma_bounds_string(s, j0);
                } else if c == '[' {
                    lemma_bounds_array(s, j0);
                } else if c == '-' || is_digit(c) {
                    lemma_bounds_number(s, j0);
                } else {
                    lemma_bounds_literal(s, j0);
                }
                if j0 < k {
                    if c == '{' {
                        lemma_trunc_object(s, k, j0);
                    } else if c == '"' {
                        lemma_trunc_string(s, k, j0);
                    } else if c == '[' {
                        lemma_trunc_array(s, k, j0);
                    } else if c == '-' || is_digit(c) {
                        lemma_trunc_number(s, k, j0);
                    } else {
                        lemma_trunc_literal(s, k, j0);
                    }
                }
            }
        },
    }
}

/// Truncating the input at `k` leaves a successful array unchanged when it
/// ends by `k`, and makes it fail with its error at `k` otherwise.
pub proof fn lemma_trunc_array(s: Seq<char>, k: int, i: int)
    requires
        0 <= i <= k <= s.len(),
    ensures
        sp_array(s, i) matches Ok((v, j)) ==> {
            &&& (j <= k ==> sp_array(s.take(k), i) == sp_array(s, i))
            &&& (j > k ==> (sp_array(s.take(k), i) matches Err(e) && e.at == k && e.msg
                == eof_msg()))
        },
    decreases s.len() - i, 0int,
{
    lemma_bounds_array(s, i);
    match sp_array(s, i) {
        Err(_) => {},
        Ok((v, j)) => {
            if i < k {
                let jw = lo(i + 1, sp_ws(s, i + 1), s.len() as int);
                lemma_ws_bounds(s, i + 1);
                lemma_trunc_ws(s, k, i + 1);
                if jw < k {
                    if s[jw] != ']' {
                        lemma_trunc_array_items(s, k, jw, Seq::empty());
                        lemma_bounds_array_items(s, jw, Seq::empty());
                    }
                } else {
                    if jw < s.len() && s[jw] != ']' {
                        lemma_bounds_array_items(s, jw, Seq::empty());
                    }
                }
            }
        },
    }
}

/// Truncating the input at `k` leaves the remaining array elements
/// unchanged when they end by `k`, and makes them fail with the error at
/// `k` otherwise.
#[verifier::rlimit(100)]
#[verifier::spinoff_prover]
pub proof fn lemma_trunc_array_items(s: Seq<char>, k: int, i: int, acc: Seq<SpecValue>)
    requires
        0 <= i <= k <= s.len(),
    ensures
        sp_array_items(s, i, acc) matches Ok((v, j)) ==> {
            &&& (j <= k ==> sp_array_items(s.take(k), i, acc) == sp_array_items(s, i, acc))
            &&& (j > k ==> (sp_array_items(s.take(k), i, acc) matches Err(e) && e.at == k
                && e.msg == eof_msg()))
        },
    decreases s.len() - i, 2int,
{
    lemma_bounds_array_items(s, i, acc);
    match sp_array_items(s, i, acc) {
        Err(_) => {},
        Ok((v, j)) => {
            match sp_value(s, i) {
                Err(_) => {},
                Ok((v1, jr)) => {
                    lemma_bounds_value(s, i);
                    lemma_trunc_value(s, k, i);
                    let j2 = lo(jr, sp_ws(s, jr), s.len() as int);
                    lemma_ws_bounds(s, jr);
                    if j2 < s.len() && s[j2] == ',' {
                        lemma_bounds_array_items(s, j2 + 1, acc.push(v1));
                    }
                    if jr <= k {
                        lemma_trunc_ws(s, k, jr);
                        if j2 < k {
                            if s[j2] == ',' {
                                lemma_trunc_array_items(s, k, j2 + 1, acc.push(v1));
                            }
                        }
                    }
                },
            }
        },
    }
}

/// Truncating the input at `k` leaves a successful object unchanged when
/// it ends by `k`, and makes it fail with its error at `k` otherwise.
pub proof fn lemma_trunc_object(s: Seq<char>, k: int, i: int)
    requires
        0 <= i <= k <= s.len(),
    ensures
        sp_object(s, i) matches Ok((v, j)) ==> {
            &&& (j <= k ==> sp_object(s.take(k), i) == sp_object(s, i))
            &&& (j > k ==> (sp_object(s.take(k), i) matches Err(e) && e.at == k && e.msg
                == eof_msg()))
        },
    decreases s.len() - i, 0int,
{
    lemma_bounds_object(s, i);
    match sp_object(s, i) {
        Err(_) => {},
        Ok((v, j)) => {
            if i < k {
                let jw = lo(i + 1, sp_ws(s, i + 1), s.len() as int);
                lemma_ws_bounds(s, i + 1);
                lemma_trunc_ws(s, k, i + 1);
                if jw < k {
                    if s[jw] == '}' {
                    } else if s[jw] == '"' {
                        lemma_trunc_object_items(s, k, jw, Seq::empty());
                        lemma_bounds_object_items(s, jw, Seq::empty());
                    }
                } else {
                    if jw < s.len() && s[jw] != '}' && s[jw] == '"' {
                        lemma_bounds_object_items(s, jw, Seq::empty());
                    }
                }
            }
        },
    }
}

/// Looking for a further object member at the end of the input fails there
/// with the end-of-input error.
proof fn lemma_object_items_eof(s: Seq<char>, acc: Seq<(Seq<char>, SpecValue)>)
    ensures
        sp_object_items(s, s.len() as int, acc) matches Err(e) && e.at == s.len() && e.msg
            == eof_msg(),
{
}

/// Truncating the input at `k` leaves the remaining object members
/// unchanged when they end by `k`, and makes them fail with the error at
/// `k` otherwise.
#[verifier::rlimit(100)]
#[verifier::spinoff_prover]
pub proof fn lemma_trunc_object_items(
    s: Seq<char>,
    k: int,
    i: int,
    acc: Seq<(Seq<char>, SpecValue)>,
)
    requires
        0 <= i <= k <= s.len(),
    ensures
        sp_object_items(s, i, acc) matches Ok((v, j)) ==> {
            &&& (j <= k ==> sp_object_items(s.take(k), i, acc) == sp_object_items(s, i, acc))
            &&& (j > k ==> (sp_object_items(s.take(k), i, acc) matches Err(e) && e.at == k
                && e.msg == eof_msg()))
        },
    decreases s.len() - i, 2int,
{
    lemma_bounds_object_items(s, i, acc);
    match sp_object_items(s, i, acc) {
        Err(_) => {},
        Ok((v, j)) => {
            match sp_string(s, i) {
                Err(_) => {},
                Ok((key, jr)) => {
                    lemma_bounds_string(s, i);
                    lemma_trunc_string(s, k, i);
                    let j2 = lo(jr, sp_ws(s, jr), s.len() as int);
                    lemma_ws_bounds(s, jr);
                    match crate::grammar::sp_char(s, j2, ':') {
                        Err(_) => {},
                        Ok(j3) => {
                            lemma_bounds_value(s, j3);
                            match sp_value(s, j3) {
                                Err(_) => {},
                                Ok((v1, kr)) => {
                                    let acc2 = crate::value::insert_pair(acc, key, v1);
                                    let k2 = lo(kr, sp_ws(s, kr), s.len() as int);
                                    lemma_ws_bounds(s, kr);
                                    if k2 < s.len() && s[k2] == ',' {
                                        let k3 = lo(k2 + 1, sp_ws(s, k2 + 1), s.len() as int);
                                        lemma_ws_bounds(s, k2 + 1);
                                        lemma_bounds_object_items(s, k3, acc2);
                                    }
                                    if jr <= k {
                                        lemma_trunc_ws(s, k, jr);
                                        if j2 < k {
                                            lemma_trunc_value(s, k, j3);
                                            if kr <= k {
                                                lemma_trunc_ws(s, k, kr);
                                                if k2 < k && s[k2] == ',' {
                                                    let k3 = lo(
                                                        k2 + 1,
                                                        sp_ws(s, k2 + 1),
                                                        s.len() as int,
                                                    );
                                                    lemma_trunc_ws(s, k, k2 + 1);
                                                    if k3 <= k {
                                                        lemma_trunc_object_items(
                                                            s,
                                                            k,
                                                            k3,
                                                            acc2,
                                                        );
                                                    } else {
                                                        lemma_object_items_eof(
                                                            s.take(k),
                                                            acc2,
                                                        );
                                                    }
                                                }
                                            }
                                        }
                                    }
                                },
                            }
                        },
                    }
                },
            }
        },
    }
}

/// Truncating a parsed text anywhere before the end of its top-level
/// value makes the parse fail, with its error standing exactly at the
/// truncated end and carrying the end-of-input message.  The top-level
/// value must not itself be a bare numeric literal (a cut numeric literal
/// can be a complete, shorter literal).
pub proof fn lemma_truncation_fails(s: Seq<char>, k: int)
    requires
        sp_value(s, 0) matches Ok((v, j)) && !(v is Num) && 0 <= k < j,
    ensures
        sp_value(s.take(k), 0) matches Err(e) && e.at == k && e.msg == eof_msg(),
{
    lemma_bounds_value(s, 0);
    lemma_trunc_value(s, k, 0);
}

/// Whitespace skipping is idempotent.
pub proof fn lemma_ws_idempotent(s: Seq<char>, i: int)
    ensures
        sp_ws(s, sp_ws(s, i)) == sp_ws(s, i),
    decreases s.len() - i,
{
    if i < s.len() && is_ws(s[i]) {
        lemma_ws_idempotent(s, i + 1);
    }
}

/// Leading whitespace does not affect a parsed value: parsing from `i`
/// and parsing from the first significant character at or after `i` give
/// the same outcome.
pub proof fn lemma_leading_ws(s: Seq<char>, i: int)
    requires
        0 <= i <= s.len(),
    ensures
        sp_value(s, i) == sp_value(s, sp_ws(s, i)),
{
    lemma_ws_bounds(s, i);
    lemma_ws_idempotent(s, i);
}

/// The canonical text of a digit run.
pub open spec fn render_digits(ds: Seq<u8>) -> Seq<char>
    decreases ds.len(),
{
    if ds.len() == 0 {
        Seq::empty()
    } else {
        seq![crate::scan::digit_char(ds[0] as int)] + render_digits(ds.drop_first())
    }
}

/// The canonical text of a numeric literal: sign, integer digits, then
/// fraction and exponent exactly when they have digits.
pub open spec fn render_number(n: crate::value::SpecNumber) -> Seq<char> {
    (if n.neg {
        seq!['-']
    } else {
        Seq::empty()
    }) + render_digits(n.int_digits) + (if n.frac_digits.len() > 0 {
        seq!['.'] + render_digits(n.frac_digits)
    } else {
        Seq::empty()
    }) + (if n.exp_digits.len() > 0 {
        seq!['e'] + (if n.exp_neg {
            seq!['-']
        } else {
            Seq::empty()
        }) + render_digits(n.exp_digits)
    } else {
        Seq::empty()
    })
}

/// A character that could extend a numeric literal.
pub open spec fn extends_number(c: char) -> bool {
    is_digit(c) || c == '.' || c == 'e' || c == 'E'
}

/// Reading digits where the canonical text of `ds` stands, followed by
/// nothing that is a digit, gives back exactly `ds`.
proof fn lemma_digits_render(s: Seq<char>, i: int, ds: Seq<u8>)
    requires
        0 <= i,
        i + ds.len() <= s.len(),
        forall|k: int| 0 <= k < ds.len() ==> ds[k] < 10,
        s.subrange(i, i + ds.len()) == render_digits(ds),
        i + ds.len() == s.len() || !is_digit(s[i + ds.len()]),
    ensures
        sp_digits(s, i) == (ds, i + ds.len()),
    decreases ds.len(),
{
    if ds.len() == 0 {
    } else {
        assert(s[i] == render_digits(ds)[0]);
        assert(s[i] == crate::scan::digit_char(ds[0] as int));
        assert(is_digit(s[i]) && crate::grammar::digit_of(s[i]) == ds[0]);
        assert(s.subrange(i + 1, i + ds.len()) =~= render_digits(ds.drop_first())) by {
            assert forall|k: int| 0 <= k < ds.len() - 1 implies s.subrange(
                i + 1,
                i + ds.len(),
            )[k] == render_digits(ds.drop_first())[k] by {
                assert(s.subrange(i, i + ds.len())[k + 1] == render_digits(ds)[k + 1]);
                lemma_render_digits_index(ds, k + 1);
                lemma_render_digits_index(ds.drop_first(), k);
            }
            lemma_render_digits_len(ds);
            lemma_render_digits_len(ds.drop_first());
        }
        lemma_render_digits_len(ds.drop_first());
        lemma_digits_render(s, i + 1, ds.drop_first());
        assert(sp_digits(s, i).0 =~= ds);
    }
}

/// The canonical text of a digit run has one character per digit.
proof fn lemma_render_digits_len(ds: Seq<u8>)
    ensures
        render_digits(ds).len() == ds.len(),
    decreases ds.len(),
{
    if ds.len() > 0 {
        lemma_render_digits_len(ds.drop_first());
    }
}

/// Each character of the canonical text of a digit run is its digit.
proof fn lemma_render_digits_index(ds: Seq<u8>, k: int)
    requires
        0 <= k < ds.len(),
    ensures
        render_digits(ds).len() == ds.len(),
        render_digits(ds)[k] == crate::scan::digit_char(ds[k] as int),
    decreases k,
{
    lemma_render_digits_len(ds);
    lemma_render_digits_len(ds.drop_first());
    if k > 0 {
        lemma_render_digits_index(ds.drop_first(), k - 1);
    }
}

/// A well-formed number parses back from its canonical text: wherever that
/// text stands, followed by nothing that could extend the literal, reading
/// a number yields exactly the original components.
#[verifier::rlimit(100)]
#[verifier::spinoff_prover]
pub proof fn lemma_number_round_trip(s: Seq<char>, i: int, n: crate::value::SpecNumber)
    requires
        0 <= i,
        n.wf(),
        i + render_number(n).len() <= s.len(),
        s.subrange(i, i + render_number(n).len() as int) == render_number(n),
        i + render_number(n).len() == s.len() || !extends_number(
            s[i + render_number(n).len()],
        ),
    ensures
        sp_number(s, i) == Ok::<(crate::value::SpecNumber, int), SpecErr>(
            (n, i + render_number(n).len()),
        ),
{
    lemma_render_digits_len(n.int_digits);
    lemma_render_digits_len(n.frac_digits);
    lemma_render_digits_len(n.exp_digits);
    let ln: int = if n.neg {
        1
    } else {
        0
    };
    let li = n.int_digits.len() as int;
    let lf: int = if n.frac_digits.len() > 0 {
        1 + n.frac_digits.len() as int
    } else {
        0
    };
    let le: int = if n.exp_digits.len() > 0 {
        1 + (if n.exp_neg {
            1int
        } else {
            0int
        }) + n.exp_digits.len() as int
    } else {
        0
    };
    let r = render_number(n);
    assert(r.len() == ln + li + lf + le);
    let p1 = i + ln;
    let p2 = p1 + li;
    let p3 = p2 + lf;
    let p4 = p3 + le;
    assert forall|k: int| 0 <= k < r.len() implies s[i + k] == r[k] by {
        assert(s.subrange(i, i + r.len() as int)[k] == r[k]);
    }
    if n.neg {
        assert(s[i] == r[0]);
        assert(r[0] == '-');
    } else {
        lemma_render_digits_index(n.int_digits, 0);
        assert(s[i] == r[0]);
        assert(r[0] == crate::scan::digit_char(n.int_digits[0] as int));
        assert(s[i] != '-');
    }
    assert(s.subrange(p1, p2) =~= render_digits(n.int_digits)) by {
        assert forall|k: int| 0 <= k < li implies s.subrange(p1, p2)[k] == render_digits(
            n.int_digits,
        )[k] by {
            assert(s[i + (ln + k)] == r[ln + k]);
            lemma_render_digits_index(n.int_digits, k);
        }
    }
    if lf > 0 {
        assert(s[p2] == r[ln + li]);
        assert(r[ln + li] == '.');
        assert(!is_digit('.'));
        lemma_digits_render(s, p1, n.int_digits);
        assert(s.subrange(p2 + 1, p3) =~= render_digits(n.frac_digits)) by {
            assert forall|k: int| 0 <= k < n.frac_digits.len() implies s.subrange(
                p2 + 1,
                p3,
            )[k] == render_digits(n.frac_digits)[k] by {
                assert(s[i + (ln + li + 1 + k)] == r[ln + li + 1 + k]);
                lemma_render_digits_index(n.frac_digits, k);
            }
        }
        if le > 0 {
            assert(s[p3] == r[ln + li + lf]);
            assert(r[ln + li + lf] == 'e');
            assert(!is_digit('e'));
        }
        lemma_digits_render(s, p2 + 1, n.frac_digits);
    } else {
        if le > 0 {
            assert(s[p2] == r[ln + li]);
            assert(r[ln + li] == 'e');
            assert(!is_digit('e'));
        }
        lemma_digits_render(s, p1, n.int_digits);
    }
    if le > 0 {
        let ps: int = p3 + 1 + (if n.exp_neg {
            1int
        } else {
            0int
        });
        if n.exp_neg {
            assert(s[p3 + 1] == r[ln + li + lf + 1]);
            assert(r[ln + li + lf + 1] == '-');
        } else {
            lemma_render_digits_index(n.exp_digits, 0);
            assert(s[p3 + 1] == r[ln + li + lf + 1]);
            assert(r[ln + li + lf + 1] == crate::scan::digit_char(n.exp_digits[0] as int));
            assert(s[p3 + 1] != '+' && s[p3 + 1] != '-');
        }
        assert(s.subrange(ps, p4) =~= render_digits(n.exp_digits)) by {
            assert forall|k: int| 0 <= k < n.exp_digits.len() implies s.subrange(ps, p4)[k]
                == render_digits(n.exp_digits)[k] by {
                assert(s[i + (ps - i + k)] == r[ps - i + k]);
                lemma_render_digits_index(n.exp_digits, k);
            }
        }
        lemma_digits_render(s, ps, n.exp_digits);
    }
    assert(sp_number(s, i) matches Ok((n2, j2)) && j2 == p4 && n2.neg == n.neg && n2.int_digits
        == n.int_digits && n2.frac_digits =~= n.frac_digits && n2.exp_neg == n.exp_neg
        && n2.exp_digits =~= n.exp_digits);
}

/// A word parses wherever its characters stand.
proof fn lemma_word_parse(s: Seq<char>, i: int, w: Seq<char>, kk: int)
    requires
        0 <= kk <= w.len(),
        0 <= i,
        i + (w.len() - kk) <= s.len(),
        forall|m: int| 0 <= m < w.len() - kk ==> #[trigger] s[i + m] == w[kk + m],
    ensures
        sp_word(s, i, w, kk) == Ok::<int, SpecErr>(i + (w.len() - kk)),
    decreases w.len() - kk,
{
    if kk < w.len() {
        assert(s[i + 0] == w[kk + 0]);
        assert forall|m2: int| 0 <= m2 < w.len() - (kk + 1) implies #[trigger] s[(i + 1) + m2]
            == w[(kk + 1) + m2] by {
            assert(s[i + (m2 + 1)] == w[kk + (m2 + 1)]);
        }
        lemma_word_parse(s, i + 1, w, kk + 1);
    }
}

/// Each literal word parses back from its own text: wherever `true`,
/// `false` or `null` stands, reading a literal yields that value and ends
/// just past the word.
pub proof fn lemma_literal_round_trip(s: Seq<char>, i: int, v: SpecValue)
    requires
        0 <= i,
        v is True || v is False || v is Null,
        i + render_literal(v).len() <= s.len(),
        s.subrange(i, i + render_literal(v).len() as int) == render_literal(v),
    ensures
        sp_literal(s, i) == Ok::<(SpecValue, int), SpecErr>(
            (v, i + render_literal(v).len()),
        ),
{
    proof_strlits();
    reveal_strlit("true");
    reveal_strlit("false");
    reveal_strlit("null");
    let w = render_literal(v);
    assert forall|m: int| 0 <= m < w.len() implies s[i + m] == w[m] by {
        assert(s.subrange(i, i + w.len() as int)[m] == w[m]);
    }
    lemma_word_parse(s, i, w, 0);
}

/// The text of a literal word.
pub open spec fn render_literal(v: SpecValue) -> Seq<char> {
    match v {
        SpecValue::True => "true"@,
        SpecValue::False => "false"@,
        SpecValue::Null => "null"@,
        _ => Seq::empty(),
    }
}

/// A character that stands for itself inside a string literal.
pub open spec fn plain_char(c: char) -> bool {
    c != '"' && c != '\\'
}

/// The rest of a string body made only of plain characters, closed by a
/// quote, parses back to exactly those characters.
proof fn lemma_plain_body(s: Seq<char>, i: int, t: Seq<char>)
    requires
        0 <= i,
        i + t.len() + 1 <= s.len(),
        forall|m: int| 0 <= m < t.len() ==> #[trigger] s[i + m] == t[m],
        forall|m: int| 0 <= m < t.len() ==> plain_char(t[m]),
        s[i + t.len()] == '"',
    ensures
        sp_string_body(s, i) == Ok::<(Seq<char>, int), SpecErr>((t, i + t.len() + 1)),
    decreases t.len(),
{
    if t.len() == 0 {
        assert(t =~= Seq::<char>::empty());
        assert(s[i + 0] == '"');
    } else {
        assert(s[i + 0] == t[0]);
        assert(plain_char(t[0]));
        assert forall|m2: int| 0 <= m2 < t.len() - 1 implies #[trigger] s[(i + 1) + m2]
            == t.drop_first()[m2] by {
            assert(s[i + (m2 + 1)] == t[m2 + 1]);
        }
        assert(s[(i + 1) + (t.len() - 1)] == '"');
        lemma_plain_body(s, i + 1, t.drop_first());
        assert(seq![t[0]] + t.drop_first() =~= t);
    }
}

/// A string of plain characters parses back from its quoted text: wherever
/// `"` then those characters then `"` stand, reading a string literal
/// yields exactly those characters.
pub proof fn lemma_plain_string_round_trip(s: Seq<char>, i: int, t: Seq<char>)
    requires
        0 <= i,
        i + t.len() + 2 <= s.len(),
        s[i] == '"',
        forall|m: int| 0 <= m < t.len() ==> #[trigger] s[i + 1 + m] == t[m],
        forall|m: int| 0 <= m < t.len() ==> plain_char(t[m]),
        s[i + 1 + t.len()] == '"',
    ensures
        sp_string(s, i) == Ok::<(Seq<char>, int), SpecErr>((t, i + t.len() + 2)),
{
    assert forall|m2: int| 0 <= m2 < t.len() implies #[trigger] s[(i + 1) + m2] == t[m2] by {
        assert(s[i + 1 + m2] == t[m2]);
    }
    lemma_plain_body(s, i + 1, t);
}

} // verus!
