//! The scan context: a cursor over the input characters that tracks the
//! current offset together with a 1-based line and column, and formats
//! positioned error messages.

use vstd::prelude::*;
use vstd::string::StrSliceExecFns;
use vstd::string::StringExecFns;

verus! {

/// Relies on `String::push`: appends one character at the end of the string.
pub assume_specification[ std::string::String::push ](s: &mut String, c: char)
    ensures
        final(s)@ == old(s)@.push(c),
;

/// 1-based line number of the cursor standing at offset `i` of `s`: one more
/// than the number of line feeds among the first `i` characters.
pub open spec fn line_at(s: Seq<char>, i: int) -> int
    decreases i,
{
    if i <= 0 {
        1
    } else {
        line_at(s, i - 1) + if s[i - 1] == '\n' {
            1int
        } else {
            0int
        }
    }
}

/// 1-based column of the cursor standing at offset `i` of `s`: reset by each
/// line feed, advanced by every other character.
pub open spec fn col_at(s: Seq<char>, i: int) -> int
    decreases i,
{
    if i <= 0 {
        1
    } else if s[i - 1] == '\n' {
        1
    } else {
        col_at(s, i - 1) + 1
    }
}

/// Line and column never exceed the offset by more than one.
pub proof fn lemma_pos_bounds(s: Seq<char>, i: int)
    requires
        0 <= i,
    ensures
        1 <= line_at(s, i) <= i + 1,
        1 <= col_at(s, i) <= i + 1,
    decreases i,
{
    if i > 0 {
        lemma_pos_bounds(s, i - 1);
    }
}

/// The decimal digit character for `d` (0 to 9).
pub open spec fn digit_char(d: int) -> char {
    if d == 0 {
        '0'
    } else if d == 1 {
        '1'
    } else if d == 2 {
        '2'
    } else if d == 3 {
        '3'
    } else if d == 4 {
        '4'
    } else if d == 5 {
        '5'
    } else if d == 6 {
        '6'
    } else if d == 7 {
        '7'
    } else if d == 8 {
        '8'
    } else {
        '9'
    }
}

/// Decimal rendering of a nonnegative integer, most significant digit first.
pub open spec fn dec_str(n: int) -> Seq<char>
    decreases n,
{
    if n < 10 {
        seq![digit_char(n)]
    } else {
        dec_str(n / 10).push(digit_char(n % 10))
    }
}

/// `"{msg} at {line}:{col}"`.
pub open spec fn positioned(msg: Seq<char>, line: int, col: int) -> Seq<char> {
    msg + " at "@ + dec_str(line) + ":"@ + dec_str(col)
}

/// The message carried by an error raised while the cursor of `s` stands at
/// offset `i`.
pub open spec fn err_at(s: Seq<char>, msg: Seq<char>, i: int) -> Seq<char> {
    positioned(msg, line_at(s, i), col_at(s, i))
}

/// The end-of-input message.
pub open spec fn eof_msg() -> Seq<char> {
    "unexpected EOF"@
}

fn digit_char_exec(d: usize) -> (c: char)
    requires
        d < 10,
    ensures
        c == digit_char(d as int),
{
    match d {
        0 => '0',
        1 => '1',
        2 => '2',
        3 => '3',
        4 => '4',
        5 => '5',
        6 => '6',
        7 => '7',
        8 => '8',
        _ => '9',
    }
}

/// Renders `n` in decimal.
fn dec_string(n: usize) -> (r: String)
    ensures
        r@ == dec_str(n as int),
    decreases n,
{
    if n < 10 {
        let mut s = String::from_str("");
        s.push(digit_char_exec(n));
        proof {
            reveal_strlit("");
            assert(s@ =~= dec_str(n as int));
        }
        s
    } else {
        let mut s = dec_string(n / 10);
        s.push(digit_char_exec(n % 10));
        s
    }
}

/// Mutable cursor state over one input: offset, line and column, and the
/// full character sequence being read.  Created once per parse call.
pub struct Context {
    src: Vec<char>,
    idx: usize,
    line: usize,
    col: usize,
}

impl Context {
    /// The full input as a character sequence.
    pub closed spec fn input(self) -> Seq<char> {
        self.src@
    }

    /// The current cursor offset.
    pub closed spec fn pos(self) -> int {
        self.idx as int
    }

    /// The cursor is in bounds and line/column agree exactly with the offset.
    pub closed spec fn wf(self) -> bool {
        &&& self.idx <= self.src@.len()
        &&& self.src@.len() < usize::MAX
        &&& self.line == line_at(self.src@, self.idx as int)
        &&& self.col == col_at(self.src@, self.idx as int)
    }

    /// A fresh cursor standing at the start of `src`.
    pub fn new(src: &str) -> (ctx: Context)
        requires
            src@.len() < usize::MAX,
        ensures
            ctx.wf(),
            ctx.input() == src@,
            ctx.pos() == 0,
    {
        let n = src.unicode_len();
        let mut v: Vec<char> = Vec::new();
        let mut i: usize = 0;
        while i < n
            invariant
                n == src@.len() < usize::MAX,
                i <= n,
                v@ == src@.subrange(0, i as int),
            decreases n - i,
        {
            v.push(src.get_char(i));
            i = i + 1;
            proof {
                assert(v@ =~= src@.subrange(0, i as int));
            }
        }
        proof {
            assert(v@ =~= src@);
        }
        Context { src: v, idx: 0, line: 1, col: 1 }
    }

    /// The character at the cursor, without advancing; end-of-input error
    /// when the cursor stands at the end.
    pub fn peek(&self) -> (r: Result<char, String>)
        requires
            self.wf(),
        ensures
            self.pos() < self.input().len() ==> r == Ok::<char, String>(
                self.input()[self.pos()],
            ),
            self.pos() >= self.input().len() ==> (r matches Err(m) && m@ == err_at(
                self.input(),
                eof_msg(),
                self.pos(),
            )),
    {
        if self.idx >= self.src.len() {
            return Err(self.error("unexpected EOF"));
        }
        Ok(self.src[self.idx])
    }

    /// Advances the cursor by one character, updating line and column;
    /// end-of-input error when the cursor stands at the end.
    pub fn consume(&mut self) -> (r: Result<(), String>)
        requires
            old(self).wf(),
        ensures
            final(self).input() == old(self).input(),
            old(self).pos() < old(self).input().len() ==> {
                &&& r is Ok
                &&& final(self).wf()
                &&& final(self).pos() == old(self).pos() + 1
            },
            old(self).pos() >= old(self).input().len() ==> {
                &&& (r matches Err(m) && m@ == err_at(
                    old(self).input(),
                    eof_msg(),
                    old(self).pos(),
                ))
                &&& *final(self) == *old(self)
            },
    {
        if self.idx >= self.src.len() {
            return Err(self.error("unexpected EOF"));
        }
        proof {
            lemma_pos_bounds(self.src@, self.idx as int);
        }
        let c = self.src[self.idx];
        if c == '\n' {
            self.line = self.line + 1;
            self.col = 1;
        } else {
            self.col = self.col + 1;
        }
        self.idx = self.idx + 1;
        Ok(())
    }

    /// Reads the character at the cursor and advances past it.
    pub fn next(&mut self) -> (r: Result<char, String>)
        requires
            old(self).wf(),
        ensures
            final(self).input() == old(self).input(),
            old(self).pos() < old(self).input().len() ==> {
                &&& r == Ok::<char, String>(old(self).input()[old(self).pos()])
                &&& final(self).wf()
                &&& final(self).pos() == old(self).pos() + 1
            },
            old(self).pos() >= old(self).input().len() ==> {
                &&& (r matches Err(m) && m@ == err_at(
                    old(self).input(),
                    eof_msg(),
                    old(self).pos(),
                ))
                &&& *final(self) == *old(self)
            },
    {
        let c = match self.peek() {
            Ok(c) => c,
            Err(e) => {
                return Err(e);
            },
        };
        match self.consume() {
            Ok(u) => u,
            Err(e) => {
                return Err(e);
            },
        };
        Ok(c)
    }

    /// True exactly when the cursor has not reached the end of the input.
    pub fn is_next(&self) -> (r: bool)
        ensures
            r == (self.pos() < self.input().len()),
    {
        self.idx < self.src.len()
    }

    /// Formats `"{err} at {line}:{column}"` for the current cursor position.
    pub fn error(&self, err: &str) -> (r: String)
        requires
            self.wf(),
        ensures
            r@ == err_at(self.input(), err@, self.pos()),
    {
        let mut m = String::from_str(err);
        m.append(" at ");
        let ls = dec_string(self.line);
        m.append(ls.as_str());
        m.append(":");
        let cs = dec_string(self.col);
        m.append(cs.as_str());
        proof {
            assert(m@ =~= err_at(self.input(), err@, self.pos()));
        }
        m
    }
}

/// The cursor of a well-formed context lies within its input.
pub broadcast proof fn lemma_ctx_bounds(ctx: Context)
    requires
        #[trigger] ctx.wf(),
    ensures
        0 <= ctx.pos() <= ctx.input().len(),
        ctx.input().len() < usize::MAX,
{
}

} // verus!
