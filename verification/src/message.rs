//! The text a parse error is reported with: its message, then, when the
//! error has a location, the line and column, the source line and a caret
//! under the column.
use vstd::prelude::*;
use vstd::string::{StrSliceExecFns, StringExecFns};
use crate::error::{LocationV, ParseError};

verus! {

/// The characters with Unicode's White_Space property: those that
/// `char::is_whitespace`, and so `str::trim_end`, take for whitespace.
pub open spec fn is_white_space(c: char) -> bool {
    let u = c as u32;
    ||| 0x09 <= u <= 0x0d
    ||| u == 0x20
    ||| u == 0x85
    ||| u == 0xa0
    ||| u == 0x1680
    ||| 0x2000 <= u <= 0x200a
    ||| u == 0x2028
    ||| u == 0x2029
    ||| u == 0x202f
    ||| u == 0x205f
    ||| u == 0x3000
}

/// `s` without its trailing whitespace.
pub open spec fn trim_end(s: Seq<char>) -> Seq<char>
    decreases s.len(),
{
    if s.len() > 0 && is_white_space(s.last()) {
        trim_end(s.drop_last())
    } else {
        s
    }
}

/// The decimal digit for `d < 10`.
pub open spec fn digit_char(d: nat) -> char {
    if d == 0 {
        '0'
    } else if d == 1 {
        '1'
    } else if d == 2 {
        '2'
    } else if d == 3 {
        '3'
    } else if d == 4 {
        '4'
    } else if d == 5 {
        '5'
    } else if d == 6 {
        '6'
    } else if d == 7 {
        '7'
    } else if d == 8 {
        '8'
    } else {
        '9'
    }
}

/// `n` written in decimal, without leading zeros.
pub open spec fn decimal(n: nat) -> Seq<char>
    decreases n,
{
    if n < 10 {
        seq![digit_char(n)]
    } else {
        decimal(n / 10).push(digit_char(n % 10))
    }
}

/// `n` spaces.
pub open spec fn spaces(n: nat) -> Seq<char> {
    Seq::new(n, |i: int| ' ')
}

/// The report of an error with message `msg` and location `loc`:
/// `msg at line L, column C`, then `  | ` and the source line without its
/// trailing whitespace, then `  | `, `C - 1` spaces and `^`. Without a
/// location, the message alone.
pub open spec fn rendered(msg: Seq<char>, loc: Option<LocationV>) -> Seq<char> {
    match loc {
        None => msg,
        Some(l) => msg + " at line "@ + decimal(l.line) + ", column "@ + decimal(l.column) + "\n  | "@
            + trim_end(l.snippet) + "\n  | "@ + spaces(
            if l.column >= 1 {
                (l.column - 1) as nat
            } else {
                0
            },
        ) + "^"@,
    }
}

fn is_white_space_char(c: char) -> (b: bool)
    ensures
        b == is_white_space(c),
{
    let u = c as u32;
    (0x09 <= u && u <= 0x0d) || u == 0x20 || u == 0x85 || u == 0xa0 || u == 0x1680 || (0x2000 <= u
        && u <= 0x200a) || u == 0x2028 || u == 0x2029 || u == 0x202f || u == 0x205f || u == 0x3000
}

/// How many characters of `s` are left once its trailing whitespace is
/// removed.
fn trimmed_len(s: &str) -> (n: usize)
    ensures
        n <= s@.len(),
        s@.subrange(0, n as int) == trim_end(s@),
{
    let mut n = s.unicode_len();
    assert(s@.subrange(0, n as int) =~= s@);
    loop
        invariant
            n <= s@.len(),
            trim_end(s@.subrange(0, n as int)) == trim_end(s@),
        decreases n,
    {
        if n == 0 {
            assert(s@.subrange(0, 0) =~= Seq::<char>::empty());
            return n;
        }
        let c = s.get_char(n - 1);
        if !is_white_space_char(c) {
            return n;
        }
        assert(s@.subrange(0, n as int).drop_last() =~= s@.subrange(0, n - 1));
        n = n - 1;
    }
}

/// The text of the digit `d`.
fn digit_text(d: usize) -> (t: &'static str)
    requires
        d < 10,
    ensures
        t@ == seq![digit_char(d as nat)],
{
    if d == 0 {
        proof { reveal_strlit("0"); }
        "0"
    } else if d == 1 {
        proof { reveal_strlit("1"); }
        "1"
    } else if d == 2 {
        proof { reveal_strlit("2"); }
        "2"
    } else if d == 3 {
        proof { reveal_strlit("3"); }
        "3"
    } else if d == 4 {
        proof { reveal_strlit("4"); }
        "4"
    } else if d == 5 {
        proof { reveal_strlit("5"); }
        "5"
    } else if d == 6 {
        proof { reveal_strlit("6"); }
        "6"
    } else if d == 7 {
        proof { reveal_strlit("7"); }
        "7"
    } else if d == 8 {
        proof { reveal_strlit("8"); }
        "8"
    } else {
        proof { reveal_strlit("9"); }
        "9"
    }
}

/// Appends `n` in decimal to `out`.
fn append_decimal(out: &mut String, n: usize)
    ensures
        final(out)@ == old(out)@ + decimal(n as nat),
    decreases n,
{
    if n >= 10 {
        append_decimal(out, n / 10);
    }
    out.append(digit_text(n % 10));
    assert(final(out)@ =~= old(out)@ + decimal(n as nat));
}

/// Appends `n` spaces to `out`.
fn append_spaces(out: &mut String, n: usize)
    ensures
        final(out)@ == old(out)@ + spaces(n as nat),
{
    let mut i: usize = 0;
    proof { reveal_strlit(" "); }
    assert(out@ =~= old(out)@ + spaces(0));
    while i < n
        invariant
            i <= n,
            out@ == old(out)@ + spaces(i as nat),
            " "@ == seq![' '],
        decreases n - i,
    {
        out.append(" ");
        assert(out@ =~= old(out)@ + spaces((i + 1) as nat));
        i = i + 1;
    }
}

impl ParseError {
    /// The report of this error with the message `msg`: `msg` and, when the
    /// error has a location, `at line L, column C`, the source line without
    /// its trailing whitespace, and a caret under column `C`.
    pub fn render(&self, msg: &str) -> (out: String)
        ensures
            out@ == rendered(msg@, self.view_error().location),
    {
        let mut out = msg.to_owned();
        match &self.location {
            None => {},
            Some(loc) => {
                out.append(" at line ");
                append_decimal(&mut out, loc.line);
                out.append(", column ");
                append_decimal(&mut out, loc.column);
                out.append("\n  | ");
                let line = loc.snippet.as_str();
                let n = trimmed_len(line);
                out.append(line.substring_char(0, n));
                out.append("\n  | ");
                let width = if loc.column >= 1 {
                    loc.column - 1
                } else {
                    0
                };
                append_spaces(&mut out, width);
                out.append("^");
            },
        }
        out
    }
}

} // verus!
