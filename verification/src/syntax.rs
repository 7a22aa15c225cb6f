//! The grammar of the language, as spec functions over the source bytes.
//!
//! Each `sp_*` function takes the source `s` and a position `p`, and says what
//! the parser of the same name does there: either `Ok((n, v))`, having
//! consumed `n` bytes and produced the value `v`, or the error it reports.
//! Results count consumed bytes rather than end positions so that every
//! definition visibly moves forward; the measure `rem(s, p)` together with a
//! rank per function orders the recursion.
//!
//! The mutually recursive definitions are closed; each comes with an
//! `unfold_*` lemma stating one step of it, so that a proof unfolds exactly
//! the steps it needs.
use vstd::prelude::*;
use vstd::utf8::*;
use vstd::string::{is_ascii, StringSliceAdditionalSpecFns};
use crate::ast::{ArgV, BinaryOp, ExprV, ParamV, StatementV, UnaryOp};
use crate::error::{ErrorV, KindV, LocationV};
use crate::text::text_at;

verus! {

pub type SRes<T> = Result<(nat, T), ErrorV>;

// ---- byte values ----

pub const SPACE: u8 = 0x20;
pub const TAB: u8 = 0x09;
pub const NEWLINE: u8 = 0x0a;
pub const CR: u8 = 0x0d;
pub const SLASH: u8 = 0x2f;
pub const STAR: u8 = 0x2a;
pub const QUOTE: u8 = 0x22;
pub const BACKSLASH: u8 = 0x5c;
pub const DOT: u8 = 0x2e;
pub const PLUS: u8 = 0x2b;
pub const MINUS: u8 = 0x2d;
pub const EQUALS: u8 = 0x3d;
pub const BANG: u8 = 0x21;
pub const LESS: u8 = 0x3c;
pub const GREATER: u8 = 0x3e;
pub const PIPE: u8 = 0x7c;
pub const AMP: u8 = 0x26;
pub const PERCENT: u8 = 0x25;
pub const CARET: u8 = 0x5e;
pub const LBRACKET: u8 = 0x5b;
pub const RBRACKET: u8 = 0x5d;
pub const LPAREN: u8 = 0x28;
pub const RPAREN: u8 = 0x29;
pub const LBRACE: u8 = 0x7b;
pub const RBRACE: u8 = 0x7d;
pub const QUESTION: u8 = 0x3f;
pub const COLON: u8 = 0x3a;
pub const COMMA: u8 = 0x2c;
pub const SEMI: u8 = 0x3b;
pub const HASH: u8 = 0x23;
pub const UNDERSCORE: u8 = 0x5f;
pub const DOLLAR: u8 = 0x24;

// ---- bytes ----

/// The byte at `p`, if any.
pub open spec fn byte_at(s: Seq<u8>, p: nat) -> Option<u8> {
    if p < s.len() {
        Some(s[p as int])
    } else {
        None
    }
}

/// The bytes from `i` up to `j`.
pub open spec fn slice(s: Seq<u8>, i: nat, j: nat) -> Seq<u8> {
    s.subrange(i as int, j as int)
}

/// Bytes left from `p` on (0 past the end).
pub open spec fn rem(s: Seq<u8>, p: nat) -> nat {
    if p < s.len() {
        (s.len() - p) as nat
    } else {
        0
    }
}

pub open spec fn is_space(b: u8) -> bool {
    b == SPACE || b == TAB || b == NEWLINE || b == CR
}

pub open spec fn is_digit(b: u8) -> bool {
    0x30u8 <= b <= 0x39u8  // '0'..='9'
}

pub open spec fn is_ident_start(b: u8) -> bool {
    // 'a'..='z', 'A'..='Z', '_', '$'
    (0x61u8 <= b <= 0x7au8) || (0x41u8 <= b <= 0x5au8) || b == UNDERSCORE || b == DOLLAR
}

pub open spec fn is_ident_char(b: u8) -> bool {
    is_ident_start(b) || is_digit(b)
}

/// `op` stands at `p`.
pub open spec fn sp_peek_op(s: Seq<u8>, p: nat, op: Seq<u8>) -> bool {
    p + op.len() <= s.len() && slice(s, p, p + op.len()) == op
}

/// The two bytes `a`, `b` stand at `p`.
pub open spec fn pair_at(s: Seq<u8>, p: nat, a: u8, b: u8) -> bool {
    byte_at(s, p) == Some(a) && byte_at(s, p + 1) == Some(b)
}

/// A two-byte operator stands at `p` exactly when its two bytes do.
pub proof fn lemma_peek_pair(s: Seq<u8>, p: nat, a: u8, b: u8)
    ensures
        sp_peek_op(s, p, seq![a, b]) == pair_at(s, p, a, b),
{
    if pair_at(s, p, a, b) {
        assert(slice(s, p, p + 2) =~= seq![a, b]);
    }
    if sp_peek_op(s, p, seq![a, b]) {
        assert(slice(s, p, p + 2)[0] == a);
        assert(slice(s, p, p + 2)[1] == b);
    }
}

/// The keyword `kw` stands at `p`, not followed by an identifier character.
pub open spec fn sp_peek_keyword(s: Seq<u8>, p: nat, kw: Seq<u8>) -> bool {
    &&& sp_peek_op(s, p, kw)
    &&& !(byte_at(s, p + kw.len()) matches Some(b) && is_ident_char(b))
}

/// An identifier starts at `p`.
pub open spec fn ident_at(s: Seq<u8>, p: nat) -> bool {
    byte_at(s, p) matches Some(b) && is_ident_start(b)
}

// ---- layout: whitespace and comments ----

/// Length of the rest of a line comment from `q`: up to the next newline.
pub open spec fn line_comment_len(s: Seq<u8>, q: nat) -> nat
    decreases rem(s, q),
{
    if q < s.len() && s[q as int] != NEWLINE {
        1 + line_comment_len(s, q + 1)
    } else {
        0
    }
}

/// Length of the rest of a block comment from `q`, with its closing `*/`
/// when there is one.
pub open spec fn block_comment_len(s: Seq<u8>, q: nat) -> nat
    decreases rem(s, q),
{
    if q >= s.len() {
        0
    } else if s[q as int] == STAR && byte_at(s, q + 1) == Some(SLASH) {
        2
    } else {
        1 + block_comment_len(s, q + 1)
    }
}

/// Length of the whitespace and comments that start at `p`.
pub open spec fn skip_len(s: Seq<u8>, p: nat) -> nat
    decreases rem(s, p),
{
    if p < s.len() && is_space(s[p as int]) {
        1 + skip_len(s, p + 1)
    } else if byte_at(s, p) == Some(SLASH) && byte_at(s, p + 1) == Some(SLASH) {
        let k = 2 + line_comment_len(s, p + 2);
        k + skip_len(s, p + k)
    } else if byte_at(s, p) == Some(SLASH) && byte_at(s, p + 1) == Some(STAR) {
        let k = 2 + block_comment_len(s, p + 2);
        k + skip_len(s, p + k)
    } else {
        0
    }
}

/// The two-byte operators, as their string literals encode them.
pub proof fn lemma_operator_bytes()
    ensures
        "||".spec_bytes() == seq![PIPE, PIPE],
        "&&".spec_bytes() == seq![AMP, AMP],
        "==".spec_bytes() == seq![EQUALS, EQUALS],
        "!=".spec_bytes() == seq![BANG, EQUALS],
        "<=".spec_bytes() == seq![LESS, EQUALS],
        ">=".spec_bytes() == seq![GREATER, EQUALS],
{
    broadcast use vstd::string::is_ascii_spec_bytes;

    reveal_strlit("||");
    reveal_strlit("&&");
    reveal_strlit("==");
    reveal_strlit("!=");
    reveal_strlit("<=");
    reveal_strlit(">=");
    assert(is_ascii("||"));
    assert(is_ascii("&&"));
    assert(is_ascii("=="));
    assert(is_ascii("!="));
    assert(is_ascii("<="));
    assert(is_ascii(">="));
    assert("||".spec_bytes() =~= seq![PIPE, PIPE]);
    assert("&&".spec_bytes() =~= seq![AMP, AMP]);
    assert("==".spec_bytes() =~= seq![EQUALS, EQUALS]);
    assert("!=".spec_bytes() =~= seq![BANG, EQUALS]);
    assert("<=".spec_bytes() =~= seq![LESS, EQUALS]);
    assert(">=".spec_bytes() =~= seq![GREATER, EQUALS]);
}

/// The position after the layout at `p`.
pub open spec fn skipped(s: Seq<u8>, p: nat) -> nat {
    p + skip_len(s, p)
}

// ---- locations ----

pub open spec fn count_newlines(s: Seq<u8>) -> nat
    decreases s.len(),
{
    if s.len() == 0 {
        0
    } else {
        count_newlines(s.drop_last()) + if s.last() == NEWLINE {
            1nat
        } else {
            0nat
        }
    }
}

/// Index just after the last newline of `s`, or 0 when it has none.
pub open spec fn line_start(s: Seq<u8>) -> nat
    decreases s.len(),
{
    if s.len() == 0 {
        0
    } else if s.last() == NEWLINE {
        s.len()
    } else {
        line_start(s.drop_last())
    }
}

/// Index of the first newline at or after `k`, or the length of `s`.
pub open spec fn line_end(s: Seq<u8>, k: nat) -> nat
    decreases rem(s, k),
{
    if k < s.len() && s[k as int] != NEWLINE {
        line_end(s, k + 1)
    } else if k < s.len() {
        k
    } else {
        s.len()
    }
}

/// The location reported for position `p`: the line (1 + newlines before
/// `p`), the column (1 + bytes between the line's start and `p`) and the
/// text of that line.
pub open spec fn loc_at(s: Seq<u8>, p: nat) -> LocationV {
    let before = s.take(p as int);
    let start = line_start(before);
    LocationV {
        line: 1 + count_newlines(before),
        column: (p - start + 1) as nat,
        snippet: text_at(s, start, line_end(s, p)),
    }
}

/// An error reported with its location.
pub closed spec fn err_at(s: Seq<u8>, kind: KindV, p: nat) -> ErrorV {
    ErrorV { kind, pos: p, location: Some(loc_at(s, p)) }
}

pub proof fn lemma_err_at(s: Seq<u8>, kind: KindV, p: nat)
    ensures
        err_at(s, kind, p) == (ErrorV { kind, pos: p, location: Some(loc_at(s, p)) }),
{
}

/// An error reported without a location.
pub open spec fn err_plain(kind: KindV, p: nat) -> ErrorV {
    ErrorV { kind, pos: p, location: None }
}

// ---- tokens ----

/// `b` (after layout) at `p`: the bytes consumed, or the error.
pub open spec fn sp_expect(s: Seq<u8>, p: nat, b: u8) -> Result<nat, ErrorV> {
    let q = skipped(s, p);
    if byte_at(s, q) == Some(b) {
        Ok(skip_len(s, p) + 1)
    } else {
        Err(err_at(s, KindV::ExpectedByte { expected: b, found: byte_at(s, q) }, q))
    }
}

/// The keyword `kw` (after layout) at `p`.
pub open spec fn sp_expect_keyword(s: Seq<u8>, p: nat, kw: &str) -> Result<nat, ErrorV> {
    let q = skipped(s, p);
    if sp_peek_keyword(s, q, kw.spec_bytes()) {
        Ok(skip_len(s, p) + kw.spec_bytes().len())
    } else {
        Err(err_plain(KindV::ExpectedKeyword(kw@), q))
    }
}

/// Length of the run of identifier characters from `q`.
pub open spec fn ident_rest_len(s: Seq<u8>, q: nat) -> nat
    decreases rem(s, q),
{
    if q < s.len() && is_ident_char(s[q as int]) {
        1 + ident_rest_len(s, q + 1)
    } else {
        0
    }
}

/// Length of the identifier at `p` (0 when none starts there).
pub open spec fn ident_len(s: Seq<u8>, p: nat) -> nat {
    if ident_at(s, p) {
        1 + ident_rest_len(s, p + 1)
    } else {
        0
    }
}

/// An identifier `[A-Za-z_$][A-Za-z0-9_$]*` at `p` (no layout first).
pub open spec fn sp_ident(s: Seq<u8>, p: nat) -> SRes<Seq<char>> {
    if ident_at(s, p) {
        let n = ident_len(s, p);
        Ok((n, text_at(s, p, p + n)))
    } else {
        Err(err_at(s, KindV::ExpectedIdentifier, p))
    }
}

/// Length of a string literal's body from `q`: up to the closing quote, a
/// backslash taking the next byte with it.
pub open spec fn string_body_len(s: Seq<u8>, q: nat) -> nat
    decreases rem(s, q),
{
    if q >= s.len() || s[q as int] == QUOTE {
        0
    } else if s[q as int] == BACKSLASH {
        if q + 1 < s.len() {
            2 + string_body_len(s, q + 2)
        } else {
            1
        }
    } else {
        1 + string_body_len(s, q + 1)
    }
}

/// A string literal (after layout) at `p`: its body as written, escapes
/// kept.
pub open spec fn sp_string(s: Seq<u8>, p: nat) -> SRes<Seq<char>> {
    match sp_expect(s, p, QUOTE) {
        Err(e) => Err(e),
        Ok(c1) => {
            let q = p + c1;
            let n = string_body_len(s, q);
            match sp_expect(s, q + n, QUOTE) {
                Err(e) => Err(e),
                Ok(c2) => Ok((c1 + n + c2, text_at(s, q, q + n))),
            }
        },
    }
}

pub open spec fn digits_len(s: Seq<u8>, q: nat) -> nat
    decreases rem(s, q),
{
    if q < s.len() && is_digit(s[q as int]) {
        1 + digits_len(s, q + 1)
    } else {
        0
    }
}

/// Length of the run of digits and dots from `q`.
pub open spec fn mantissa_len(s: Seq<u8>, q: nat) -> nat
    decreases rem(s, q),
{
    if q < s.len() && (is_digit(s[q as int]) || s[q as int] == DOT) {
        1 + mantissa_len(s, q + 1)
    } else {
        0
    }
}

/// `e` or `E`.
pub open spec fn is_exponent_mark(b: Option<u8>) -> bool {
    b == Some(0x65u8) || b == Some(0x45u8)
}

pub open spec fn is_sign(b: u8) -> bool {
    b == PLUS || b == MINUS
}

/// Length of an exponent part `[eE][+-]?[0-9]*` at `q` (0 when none).
pub open spec fn exponent_len(s: Seq<u8>, q: nat) -> nat {
    if is_exponent_mark(byte_at(s, q)) {
        let sign: nat = if byte_at(s, q + 1) matches Some(b) && is_sign(b) {
            1nat
        } else {
            0nat
        };
        1 + sign + digits_len(s, q + 1 + sign)
    } else {
        0
    }
}

/// Length of the numeral token at `p`.
pub open spec fn number_len(s: Seq<u8>, p: nat) -> nat {
    let m = mantissa_len(s, p);
    m + exponent_len(s, p + m)
}

pub open spec fn all_digits(t: Seq<u8>) -> bool {
    forall|i: int| 0 <= i < t.len() ==> is_digit(#[trigger] t[i])
}

/// `Digit+ | Digit+ '.' Digit* | Digit* '.' Digit+`
pub open spec fn is_decimal(m: Seq<u8>) -> bool {
    ||| (m.len() > 0 && all_digits(m))
    ||| exists|i: int|
        0 <= i < m.len() && #[trigger] m[i] == DOT && all_digits(m.take(i)) && all_digits(
            m.skip(i + 1),
        ) && (i > 0 || i + 1 < m.len())
}

/// `[eE] Sign? Digit+`
pub open spec fn is_exponent(x: Seq<u8>) -> bool {
    &&& x.len() >= 2
    &&& is_exponent_mark(Some(x[0]))
    &&& ((all_digits(x.skip(1))) || (is_sign(x[1]) && x.len() >= 3 && all_digits(x.skip(2))))
}

/// A decimal floating-point literal as `f64::from_str` documents its
/// grammar: `Number ::= ( Digit+ | Digit+ '.' Digit* | Digit* '.' Digit+ ) Exp?`.
pub open spec fn is_float_literal(t: Seq<u8>) -> bool {
    ||| is_decimal(t)
    ||| exists|k: int| 0 < k < t.len() && is_decimal(t.take(k)) && #[trigger] is_exponent(t.skip(k))
}

/// `t` is the text of a floating-point literal: its UTF-8 bytes form one.
pub open spec fn numeral_ok(t: Seq<char>) -> bool {
    is_float_literal(encode_utf8(t))
}

/// The numerals that component names stand for are floating-point
/// literals.
pub proof fn lemma_digit_numerals()
    ensures
        forall|k: nat| #[trigger] numeral_ok(digit_text(k)),
{
    broadcast use vstd::string::is_ascii_spec_bytes;

    reveal_strlit("0");
    reveal_strlit("1");
    reveal_strlit("2");
    reveal_strlit("3");
    assert(is_ascii("0"));
    assert(is_ascii("1"));
    assert(is_ascii("2"));
    assert(is_ascii("3"));
    assert("0".spec_bytes() =~= seq![0x30u8]);
    assert("1".spec_bytes() =~= seq![0x31u8]);
    assert("2".spec_bytes() =~= seq![0x32u8]);
    assert("3".spec_bytes() =~= seq![0x33u8]);
    assert(is_decimal(seq![0x30u8]));
    assert(is_decimal(seq![0x31u8]));
    assert(is_decimal(seq![0x32u8]));
    assert(is_decimal(seq![0x33u8]));
}

/// Every numeral in the expression is a floating-point literal.
pub open spec fn expr_numerals_ok(e: ExprV) -> bool
    decreases e,
{
    match e {
        ExprV::Number(t) => numeral_ok(t),
        ExprV::Bool(_) => true,
        ExprV::Str(_) => true,
        ExprV::Ident(_) => true,
        ExprV::Vector(v) => exprs_numerals_ok(v),
        ExprV::Range { start, step, end } => {
            &&& expr_numerals_ok(*start)
            &&& expr_numerals_ok(*end)
            &&& match step {
                Some(x) => expr_numerals_ok(*x),
                None => true,
            }
        },
        ExprV::Call { name: _, args } => args_numerals_ok(args),
        ExprV::Index { base, index } => expr_numerals_ok(*base) && expr_numerals_ok(*index),
        ExprV::Unary { op: _, expr } => expr_numerals_ok(*expr),
        ExprV::Binary { op: _, left, right } => expr_numerals_ok(*left) && expr_numerals_ok(*right),
        ExprV::Ternary { cond, then_expr, else_expr } => {
            &&& expr_numerals_ok(*cond)
            &&& expr_numerals_ok(*then_expr)
            &&& expr_numerals_ok(*else_expr)
        },
        ExprV::ListComp { name: _, range, body } => expr_numerals_ok(*range) && expr_numerals_ok(*body),
    }
}

/// Every numeral in the expressions is a floating-point literal.
pub open spec fn exprs_numerals_ok(v: Seq<ExprV>) -> bool
    decreases v,
{
    if v.len() == 0 {
        true
    } else {
        exprs_numerals_ok(v.subrange(0, v.len() - 1)) && expr_numerals_ok(v[v.len() - 1])
    }
}

/// Every numeral in the arguments is a floating-point literal.
pub open spec fn args_numerals_ok(v: Seq<ArgV>) -> bool
    decreases v,
{
    if v.len() == 0 {
        true
    } else {
        args_numerals_ok(v.subrange(0, v.len() - 1)) && arg_numerals_ok(v[v.len() - 1])
    }
}

/// Every numeral in the argument is a floating-point literal.
pub open spec fn arg_numerals_ok(a: ArgV) -> bool
    decreases a,
{
    match a {
        ArgV::Named(_, e) => expr_numerals_ok(e),
        ArgV::Positional(e) => expr_numerals_ok(e),
    }
}

/// Every numeral in the parameter's default, if any, is a floating-point
/// literal.
pub open spec fn param_numerals_ok(p: ParamV) -> bool {
    match p.default {
        Some(e) => expr_numerals_ok(e),
        None => true,
    }
}

/// Every numeral in the statements is a floating-point literal.
pub open spec fn stmts_numerals_ok(v: Seq<StatementV>) -> bool
    decreases v,
{
    if v.len() == 0 {
        true
    } else {
        stmts_numerals_ok(v.subrange(0, v.len() - 1)) && stmt_numerals_ok(v[v.len() - 1])
    }
}

/// The numerals of a sequence of expressions are each valid exactly when
/// those of every expression are.
pub proof fn lemma_exprs_numerals(v: Seq<ExprV>)
    ensures
        exprs_numerals_ok(v) <==> forall|i: int| 0 <= i < v.len() ==> #[trigger] expr_numerals_ok(v[i]),
    decreases v.len(),
{
    if v.len() > 0 {
        let n = v.len() - 1;
        let w = v.subrange(0, n);
        lemma_exprs_numerals(w);
        let last_ok = expr_numerals_ok(v[n]);
        assert(exprs_numerals_ok(v) == (exprs_numerals_ok(w) && last_ok));
        if last_ok && exprs_numerals_ok(w) {
            assert forall|i: int| 0 <= i < v.len() implies #[trigger] expr_numerals_ok(v[i]) by {
                if i < n {
                    assert(w[i] == v[i]);
                }
            }
        }
        if forall|i: int| 0 <= i < v.len() ==> #[trigger] expr_numerals_ok(v[i]) {
            assert forall|i: int| 0 <= i < w.len() implies #[trigger] expr_numerals_ok(w[i]) by {
                assert(w[i] == v[i]);
            }
        }
    }
}

/// The same, for arguments.
pub proof fn lemma_args_numerals(v: Seq<ArgV>)
    ensures
        args_numerals_ok(v) <==> forall|i: int| 0 <= i < v.len() ==> #[trigger] arg_numerals_ok(v[i]),
    decreases v.len(),
{
    if v.len() > 0 {
        let n = v.len() - 1;
        let w = v.subrange(0, n);
        lemma_args_numerals(w);
        let last_ok = arg_numerals_ok(v[n]);
        assert(args_numerals_ok(v) == (args_numerals_ok(w) && last_ok));
        if last_ok && args_numerals_ok(w) {
            assert forall|i: int| 0 <= i < v.len() implies #[trigger] arg_numerals_ok(v[i]) by {
                if i < n {
                    assert(w[i] == v[i]);
                }
            }
        }
        if forall|i: int| 0 <= i < v.len() ==> #[trigger] arg_numerals_ok(v[i]) {
            assert forall|i: int| 0 <= i < w.len() implies #[trigger] arg_numerals_ok(w[i]) by {
                assert(w[i] == v[i]);
            }
        }
    }
}

/// The same, for statements.
pub proof fn lemma_stmts_numerals(v: Seq<StatementV>)
    ensures
        stmts_numerals_ok(v) <==> forall|i: int| 0 <= i < v.len() ==> #[trigger] stmt_numerals_ok(v[i]),
    decreases v.len(),
{
    if v.len() > 0 {
        let n = v.len() - 1;
        let w = v.subrange(0, n);
        lemma_stmts_numerals(w);
        let last_ok = stmt_numerals_ok(v[n]);
        assert(stmts_numerals_ok(v) == (stmts_numerals_ok(w) && last_ok));
        if last_ok && stmts_numerals_ok(w) {
            assert forall|i: int| 0 <= i < v.len() implies #[trigger] stmt_numerals_ok(v[i]) by {
                if i < n {
                    assert(w[i] == v[i]);
                }
            }
        }
        if forall|i: int| 0 <= i < v.len() ==> #[trigger] stmt_numerals_ok(v[i]) {
            assert forall|i: int| 0 <= i < w.len() implies #[trigger] stmt_numerals_ok(w[i]) by {
                assert(w[i] == v[i]);
            }
        }
    }
}

/// Every numeral in the statement is a floating-point literal.
pub open spec fn stmt_numerals_ok(st: StatementV) -> bool
    decreases st,
{
    match st {
        StatementV::Assign { name: _, value } => expr_numerals_ok(value),
        StatementV::ModuleDef { name: _, params, body } => {
            &&& forall|i: int| 0 <= i < params.len() ==> #[trigger] param_numerals_ok(params[i])
            &&& stmts_numerals_ok(body)
        },
        StatementV::FunctionDef { name: _, params, body } => {
            &&& forall|i: int| 0 <= i < params.len() ==> #[trigger] param_numerals_ok(params[i])
            &&& expr_numerals_ok(body)
        },
        StatementV::ModuleCall { name: _, args, children } => {
            &&& forall|i: int| 0 <= i < args.len() ==> #[trigger] arg_numerals_ok(args[i])
            &&& stmts_numerals_ok(children)
        },
        StatementV::If { cond, then_branch, else_branch } => {
            &&& expr_numerals_ok(cond)
            &&& stmt_numerals_ok(*then_branch)
            &&& match else_branch {
                Some(b) => stmt_numerals_ok(*b),
                None => true,
            }
        },
        StatementV::For { name: _, range, body } => expr_numerals_ok(range) && stmt_numerals_ok(*body),
        StatementV::Block(v) => stmts_numerals_ok(v),
        StatementV::ExprStmt(e) => expr_numerals_ok(e),
    }
}

/// A numeral at `p` (no layout first): its text, which must be a valid
/// floating-point literal.
pub open spec fn sp_number(s: Seq<u8>, p: nat) -> SRes<Seq<char>> {
    let n = number_len(s, p);
    let tok = slice(s, p, p + n);
    if is_float_literal(tok) {
        Ok((n, text_at(s, p, p + n)))
    } else {
        Err(err_plain(KindV::InvalidNumber(text_at(s, p, p + n)), p + n))
    }
}

// ---- helpers for the grammar ----

/// The text of a small numeral `0`..`3`.
pub open spec fn digit_text(k: nat) -> Seq<char> {
    if k == 0 {
        "0"@
    } else if k == 1 {
        "1"@
    } else if k == 2 {
        "2"@
    } else {
        "3"@
    }
}

/// The component that `.name` selects: x/r/red 0, y/g/green 1, z/b/blue 2,
/// a/alpha 3.
pub open spec fn field_index(f: Seq<u8>) -> Option<nat> {
    if f == "x".spec_bytes() || f == "r".spec_bytes() || f == "red".spec_bytes() {
        Some(0)
    } else if f == "y".spec_bytes() || f == "g".spec_bytes() || f == "green".spec_bytes() {
        Some(1)
    } else if f == "z".spec_bytes() || f == "b".spec_bytes() || f == "blue".spec_bytes() {
        Some(2)
    } else if f == "a".spec_bytes() || f == "alpha".spec_bytes() {
        Some(3)
    } else {
        None
    }
}

pub open spec fn bin(op: BinaryOp, l: ExprV, r: ExprV) -> ExprV {
    ExprV::Binary { op, left: Box::new(l), right: Box::new(r) }
}

/// The comparison operator at `q`, with its length: `==` `!=` `<=` `>=`
/// before `<` `>`.
pub open spec fn compare_op_at(s: Seq<u8>, q: nat) -> Option<(BinaryOp, nat)> {
    if pair_at(s, q, EQUALS, EQUALS) {
        Some((BinaryOp::Eq, 2))
    } else if pair_at(s, q, BANG, EQUALS) {
        Some((BinaryOp::Ne, 2))
    } else if pair_at(s, q, LESS, EQUALS) {
        Some((BinaryOp::Le, 2))
    } else if pair_at(s, q, GREATER, EQUALS) {
        Some((BinaryOp::Ge, 2))
    } else if byte_at(s, q) == Some(LESS) {
        Some((BinaryOp::Lt, 1))
    } else if byte_at(s, q) == Some(GREATER) {
        Some((BinaryOp::Gt, 1))
    } else {
        None
    }
}

pub open spec fn add_op_at(s: Seq<u8>, q: nat) -> Option<BinaryOp> {
    if byte_at(s, q) == Some(PLUS) {
        Some(BinaryOp::Add)
    } else if byte_at(s, q) == Some(MINUS) {
        Some(BinaryOp::Sub)
    } else {
        None
    }
}

pub open spec fn mul_op_at(s: Seq<u8>, q: nat) -> Option<BinaryOp> {
    if byte_at(s, q) == Some(STAR) {
        Some(BinaryOp::Mul)
    } else if byte_at(s, q) == Some(SLASH) {
        Some(BinaryOp::Div)
    } else if byte_at(s, q) == Some(PERCENT) {
        Some(BinaryOp::Mod)
    } else {
        None
    }
}

/// Shifts a result that was computed at `q` so that it counts from `p`.
pub open spec fn from<T>(p: nat, q: nat, r: SRes<T>) -> SRes<T> {
    match r {
        Ok((n, v)) => Ok(((q + n - p) as nat, v)),
        Err(e) => Err(e),
    }
}

/// Shifting twice is shifting once.
pub proof fn lemma_from_from<T>(p0: nat, p1: nat, p2: nat, r: SRes<T>)
    requires
        p0 <= p1 <= p2,
    ensures
        from(p0, p1, from(p1, p2, r)) == from(p0, p2, r),
{
}

// ---- expressions ----

pub closed spec fn sp_expr(s: Seq<u8>, p: nat) -> SRes<ExprV>
    decreases rem(s, p), 50int,
{
    sp_ternary(s, p)
}

/// One step of the definition of [`sp_expr`].
pub proof fn unfold_sp_expr(s: Seq<u8>, p: nat)
    ensures
        sp_expr(s, p) == {
            sp_ternary(s, p)
        },
{
}

pub closed spec fn sp_ternary(s: Seq<u8>, p: nat) -> SRes<ExprV>
    decreases rem(s, p), 49int,
{
    match sp_or(s, p) {
        Err(e) => Err(e),
        Ok((c1, cond)) => {
            let q = skipped(s, p + c1);
            if byte_at(s, q) == Some(QUESTION) {
                match sp_expr(s, q + 1) {
                    Err(e) => Err(e),
                    Ok((c2, then_e)) => {
                        let r = skipped(s, q + 1 + c2);
                        match sp_expect(s, r, COLON) {
                            Err(e) => Err(e),
                            Ok(c3) => match sp_expr(s, r + c3) {
                                Err(e) => Err(e),
                                Ok((c4, else_e)) => Ok(
                                    (
                                        (r + c3 + c4 - p) as nat,
                                        ExprV::Ternary {
                                            cond: Box::new(cond),
                                            then_expr: Box::new(then_e),
                                            else_expr: Box::new(else_e),
                                        },
                                    ),
                                ),
                            },
                        }
                    },
                }
            } else {
                Ok(((q - p) as nat, cond))
            }
        },
    }
}

/// One step of the definition of [`sp_ternary`].
pub proof fn unfold_sp_ternary(s: Seq<u8>, p: nat)
    ensures
        sp_ternary(s, p) == {
            match sp_or(s, p) {
                Err(e) => Err(e),
                Ok((c1, cond)) => {
                    let q = skipped(s, p + c1);
                    if byte_at(s, q) == Some(QUESTION) {
                        match sp_expr(s, q + 1) {
                            Err(e) => Err(e),
                            Ok((c2, then_e)) => {
                                let r = skipped(s, q + 1 + c2);
                                match sp_expect(s, r, COLON) {
                                    Err(e) => Err(e),
                                    Ok(c3) => match sp_expr(s, r + c3) {
                                        Err(e) => Err(e),
                                        Ok((c4, else_e)) => Ok(
                                            (
                                                (r + c3 + c4 - p) as nat,
                                                ExprV::Ternary {
                                                    cond: Box::new(cond),
                                                    then_expr: Box::new(then_e),
                                                    else_expr: Box::new(else_e),
                                                },
                                            ),
                                        ),
                                    },
                                }
                            },
                        }
                    } else {
                        Ok(((q - p) as nat, cond))
                    }
                },
            }
        },
{
}

pub closed spec fn sp_or(s: Seq<u8>, p: nat) -> SRes<ExprV>
    decreases rem(s, p), 48int,
{
    match sp_and(s, p) {
        Err(e) => Err(e),
        Ok((c, l)) => from(p, p + c, sp_or_rest(s, p + c, l)),
    }
}

/// One step of the definition of [`sp_or`].
pub proof fn unfold_sp_or(s: Seq<u8>, p: nat)
    ensures
        sp_or(s, p) == {
            match sp_and(s, p) {
                Err(e) => Err(e),
                Ok((c, l)) => from(p, p + c, sp_or_rest(s, p + c, l)),
            }
        },
{
}

/// `(|| and)*` after `left`.
pub closed spec fn sp_or_rest(s: Seq<u8>, p: nat, left: ExprV) -> SRes<ExprV>
    decreases rem(s, p), 47int,
{
    let q = skipped(s, p);
    if pair_at(s, q, PIPE, PIPE) {
        match sp_and(s, q + 2) {
            Err(e) => Err(e),
            Ok((c, r)) => from(p, q + 2 + c, sp_or_rest(s, q + 2 + c, bin(BinaryOp::Or, left, r))),
        }
    } else {
        Ok(((q - p) as nat, left))
    }
}

/// One step of the definition of [`sp_or_rest`].
pub proof fn unfold_sp_or_rest(s: Seq<u8>, p: nat, left: ExprV)
    ensures
        sp_or_rest(s, p, left) == {
            let q = skipped(s, p);
            if pair_at(s, q, PIPE, PIPE) {
                match sp_and(s, q + 2) {
                    Err(e) => Err(e),
                    Ok((c, r)) => from(p, q + 2 + c, sp_or_rest(s, q + 2 + c, bin(BinaryOp::Or, left, r))),
                }
            } else {
                Ok(((q - p) as nat, left))
            }
        },
{
}

pub closed spec fn sp_and(s: Seq<u8>, p: nat) -> SRes<ExprV>
    decreases rem(s, p), 46int,
{
    match sp_compare(s, p) {
        Err(e) => Err(e),
        Ok((c, l)) => from(p, p + c, sp_and_rest(s, p + c, l)),
    }
}

/// One step of the definition of [`sp_and`].
pub proof fn unfold_sp_and(s: Seq<u8>, p: nat)
    ensures
        sp_and(s, p) == {
            match sp_compare(s, p) {
                Err(e) => Err(e),
                Ok((c, l)) => from(p, p + c, sp_and_rest(s, p + c, l)),
            }
        },
{
}

/// `(&& comparison)*` after `left`.
pub closed spec fn sp_and_rest(s: Seq<u8>, p: nat, left: ExprV) -> SRes<ExprV>
    decreases rem(s, p), 45int,
{
    let q = skipped(s, p);
    if pair_at(s, q, AMP, AMP) {
        match sp_compare(s, q + 2) {
            Err(e) => Err(e),
            Ok((c, r)) => from(
                p,
                q + 2 + c,
                sp_and_rest(s, q + 2 + c, bin(BinaryOp::And, left, r)),
            ),
        }
    } else {
        Ok(((q - p) as nat, left))
    }
}

/// One step of the definition of [`sp_and_rest`].
pub proof fn unfold_sp_and_rest(s: Seq<u8>, p: nat, left: ExprV)
    ensures
        sp_and_rest(s, p, left) == {
            let q = skipped(s, p);
            if pair_at(s, q, AMP, AMP) {
                match sp_compare(s, q + 2) {
                    Err(e) => Err(e),
                    Ok((c, r)) => from(
                        p,
                        q + 2 + c,
                        sp_and_rest(s, q + 2 + c, bin(BinaryOp::And, left, r)),
                    ),
                }
            } else {
                Ok(((q - p) as nat, left))
            }
        },
{
}

pub closed spec fn sp_compare(s: Seq<u8>, p: nat) -> SRes<ExprV>
    decreases rem(s, p), 44int,
{
    match sp_add(s, p) {
        Err(e) => Err(e),
        Ok((c, l)) => from(p, p + c, sp_compare_rest(s, p + c, l)),
    }
}

/// One step of the definition of [`sp_compare`].
pub proof fn unfold_sp_compare(s: Seq<u8>, p: nat)
    ensures
        sp_compare(s, p) == {
            match sp_add(s, p) {
                Err(e) => Err(e),
                Ok((c, l)) => from(p, p + c, sp_compare_rest(s, p + c, l)),
            }
        },
{
}

/// `(comparison add)*` after `left`.
pub closed spec fn sp_compare_rest(s: Seq<u8>, p: nat, left: ExprV) -> SRes<ExprV>
    decreases rem(s, p), 43int,
{
    let q = skipped(s, p);
    match compare_op_at(s, q) {
        Some((op, k)) => match sp_add(s, q + k) {
            Err(e) => Err(e),
            Ok((c, r)) => from(p, q + k + c, sp_compare_rest(s, q + k + c, bin(op, left, r))),
        },
        None => Ok(((q - p) as nat, left)),
    }
}

/// One step of the definition of [`sp_compare_rest`].
pub proof fn unfold_sp_compare_rest(s: Seq<u8>, p: nat, left: ExprV)
    ensures
        sp_compare_rest(s, p, left) == {
            let q = skipped(s, p);
            match compare_op_at(s, q) {
                Some((op, k)) => match sp_add(s, q + k) {
                    Err(e) => Err(e),
                    Ok((c, r)) => from(p, q + k + c, sp_compare_rest(s, q + k + c, bin(op, left, r))),
                },
                None => Ok(((q - p) as nat, left)),
            }
        },
{
}

pub closed spec fn sp_add(s: Seq<u8>, p: nat) -> SRes<ExprV>
    decreases rem(s, p), 42int,
{
    match sp_mul(s, p) {
        Err(e) => Err(e),
        Ok((c, l)) => from(p, p + c, sp_add_rest(s, p + c, l)),
    }
}

/// One step of the definition of [`sp_add`].
pub proof fn unfold_sp_add(s: Seq<u8>, p: nat)
    ensures
        sp_add(s, p) == {
            match sp_mul(s, p) {
                Err(e) => Err(e),
                Ok((c, l)) => from(p, p + c, sp_add_rest(s, p + c, l)),
            }
        },
{
}

/// `([+-] mul)*` after `left`.
pub closed spec fn sp_add_rest(s: Seq<u8>, p: nat, left: ExprV) -> SRes<ExprV>
    decreases rem(s, p), 41int,
{
    let q = skipped(s, p);
    match add_op_at(s, q) {
        Some(op) => match sp_mul(s, q + 1) {
            Err(e) => Err(e),
            Ok((c, r)) => from(p, q + 1 + c, sp_add_rest(s, q + 1 + c, bin(op, left, r))),
        },
        None => Ok(((q - p) as nat, left)),
    }
}

/// One step of the definition of [`sp_add_rest`].
pub proof fn unfold_sp_add_rest(s: Seq<u8>, p: nat, left: ExprV)
    ensures
        sp_add_rest(s, p, left) == {
            let q = skipped(s, p);
            match add_op_at(s, q) {
                Some(op) => match sp_mul(s, q + 1) {
                    Err(e) => Err(e),
                    Ok((c, r)) => from(p, q + 1 + c, sp_add_rest(s, q + 1 + c, bin(op, left, r))),
                },
                None => Ok(((q - p) as nat, left)),
            }
        },
{
}

pub closed spec fn sp_mul(s: Seq<u8>, p: nat) -> SRes<ExprV>
    decreases rem(s, p), 40int,
{
    match sp_pow(s, p) {
        Err(e) => Err(e),
        Ok((c, l)) => from(p, p + c, sp_mul_rest(s, p + c, l)),
    }
}

/// One step of the definition of [`sp_mul`].
pub proof fn unfold_sp_mul(s: Seq<u8>, p: nat)
    ensures
        sp_mul(s, p) == {
            match sp_pow(s, p) {
                Err(e) => Err(e),
                Ok((c, l)) => from(p, p + c, sp_mul_rest(s, p + c, l)),
            }
        },
{
}

/// `([*/%] pow)*` after `left`.
pub closed spec fn sp_mul_rest(s: Seq<u8>, p: nat, left: ExprV) -> SRes<ExprV>
    decreases rem(s, p), 39int,
{
    let q = skipped(s, p);
    match mul_op_at(s, q) {
        Some(op) => match sp_pow(s, q + 1) {
            Err(e) => Err(e),
            Ok((c, r)) => from(p, q + 1 + c, sp_mul_rest(s, q + 1 + c, bin(op, left, r))),
        },
        None => Ok(((q - p) as nat, left)),
    }
}

/// One step of the definition of [`sp_mul_rest`].
pub proof fn unfold_sp_mul_rest(s: Seq<u8>, p: nat, left: ExprV)
    ensures
        sp_mul_rest(s, p, left) == {
            let q = skipped(s, p);
            match mul_op_at(s, q) {
                Some(op) => match sp_pow(s, q + 1) {
                    Err(e) => Err(e),
                    Ok((c, r)) => from(p, q + 1 + c, sp_mul_rest(s, q + 1 + c, bin(op, left, r))),
                },
                None => Ok(((q - p) as nat, left)),
            }
        },
{
}

/// `unary (^ pow)?`: exponentiation groups to the right.
pub closed spec fn sp_pow(s: Seq<u8>, p: nat) -> SRes<ExprV>
    decreases rem(s, p), 38int,
{
    match sp_unary(s, p) {
        Err(e) => Err(e),
        Ok((c, l)) => {
            let q = skipped(s, p + c);
            if byte_at(s, q) == Some(CARET) {
                match sp_pow(s, q + 1) {
                    Err(e) => Err(e),
                    Ok((c2, r)) => Ok(((q + 1 + c2 - p) as nat, bin(BinaryOp::Pow, l, r))),
                }
            } else {
                Ok(((q - p) as nat, l))
            }
        },
    }
}

/// One step of the definition of [`sp_pow`].
pub proof fn unfold_sp_pow(s: Seq<u8>, p: nat)
    ensures
        sp_pow(s, p) == {
            match sp_unary(s, p) {
                Err(e) => Err(e),
                Ok((c, l)) => {
                    let q = skipped(s, p + c);
                    if byte_at(s, q) == Some(CARET) {
                        match sp_pow(s, q + 1) {
                            Err(e) => Err(e),
                            Ok((c2, r)) => Ok(((q + 1 + c2 - p) as nat, bin(BinaryOp::Pow, l, r))),
                        }
                    } else {
                        Ok(((q - p) as nat, l))
                    }
                },
            }
        },
{
}

pub closed spec fn sp_unary(s: Seq<u8>, p: nat) -> SRes<ExprV>
    decreases rem(s, p), 37int,
{
    let q = skipped(s, p);
    if byte_at(s, q) == Some(MINUS) {
        match sp_unary(s, q + 1) {
            Err(e) => Err(e),
            Ok((c, e)) => Ok(
                ((q + 1 + c - p) as nat, ExprV::Unary { op: UnaryOp::Neg, expr: Box::new(e) }),
            ),
        }
    } else if byte_at(s, q) == Some(BANG) {
        match sp_unary(s, q + 1) {
            Err(e) => Err(e),
            Ok((c, e)) => Ok(
                ((q + 1 + c - p) as nat, ExprV::Unary { op: UnaryOp::Not, expr: Box::new(e) }),
            ),
        }
    } else {
        from(p, q, sp_postfix(s, q))
    }
}

/// One step of the definition of [`sp_unary`].
pub proof fn unfold_sp_unary(s: Seq<u8>, p: nat)
    ensures
        sp_unary(s, p) == {
            let q = skipped(s, p);
            if byte_at(s, q) == Some(MINUS) {
                match sp_unary(s, q + 1) {
                    Err(e) => Err(e),
                    Ok((c, e)) => Ok(
                        ((q + 1 + c - p) as nat, ExprV::Unary { op: UnaryOp::Neg, expr: Box::new(e) }),
                    ),
                }
            } else if byte_at(s, q) == Some(BANG) {
                match sp_unary(s, q + 1) {
                    Err(e) => Err(e),
                    Ok((c, e)) => Ok(
                        ((q + 1 + c - p) as nat, ExprV::Unary { op: UnaryOp::Not, expr: Box::new(e) }),
                    ),
                }
            } else {
                from(p, q, sp_postfix(s, q))
            }
        },
{
}

pub closed spec fn sp_postfix(s: Seq<u8>, p: nat) -> SRes<ExprV>
    decreases rem(s, p), 36int,
{
    match sp_primary(s, p) {
        Err(e) => Err(e),
        Ok((c, b)) => from(p, p + c, sp_postfix_rest(s, p + c, b)),
    }
}

/// One step of the definition of [`sp_postfix`].
pub proof fn unfold_sp_postfix(s: Seq<u8>, p: nat)
    ensures
        sp_postfix(s, p) == {
            match sp_primary(s, p) {
                Err(e) => Err(e),
                Ok((c, b)) => from(p, p + c, sp_postfix_rest(s, p + c, b)),
            }
        },
{
}

/// `([expr] | .field)*` after `base`.
pub closed spec fn sp_postfix_rest(s: Seq<u8>, p: nat, base: ExprV) -> SRes<ExprV>
    decreases rem(s, p), 35int,
{
    let q = skipped(s, p);
    if byte_at(s, q) == Some(LBRACKET) {
        match sp_expr(s, q + 1) {
            Err(e) => Err(e),
            Ok((c1, index)) => match sp_expect(s, q + 1 + c1, RBRACKET) {
                Err(e) => Err(e),
                Ok(c2) => {
                    let r = q + 1 + c1 + c2;
                    from(
                        p,
                        r,
                        sp_postfix_rest(
                            s,
                            r,
                            ExprV::Index { base: Box::new(base), index: Box::new(index) },
                        ),
                    )
                },
            },
        }
    } else if byte_at(s, q) == Some(DOT) {
        match sp_ident(s, q + 1) {
            Err(e) => Err(e),
            Ok((n, name)) => {
                let r = q + 1 + n;
                match field_index(slice(s, q + 1, r)) {
                    Some(k) => from(
                        p,
                        r,
                        sp_postfix_rest(
                            s,
                            r,
                            ExprV::Index {
                                base: Box::new(base),
                                index: Box::new(ExprV::Number(digit_text(k))),
                            },
                        ),
                    ),
                    None => Err(err_at(s, KindV::UnknownField(name), r)),
                }
            },
        }
    } else {
        Ok(((q - p) as nat, base))
    }
}

/// One step of the definition of [`sp_postfix_rest`].
pub proof fn unfold_sp_postfix_rest(s: Seq<u8>, p: nat, base: ExprV)
    ensures
        sp_postfix_rest(s, p, base) == {
            let q = skipped(s, p);
            if byte_at(s, q) == Some(LBRACKET) {
                match sp_expr(s, q + 1) {
                    Err(e) => Err(e),
                    Ok((c1, index)) => match sp_expect(s, q + 1 + c1, RBRACKET) {
                        Err(e) => Err(e),
                        Ok(c2) => {
                            let r = q + 1 + c1 + c2;
                            from(
                                p,
                                r,
                                sp_postfix_rest(
                                    s,
                                    r,
                                    ExprV::Index { base: Box::new(base), index: Box::new(index) },
                                ),
                            )
                        },
                    },
                }
            } else if byte_at(s, q) == Some(DOT) {
                match sp_ident(s, q + 1) {
                    Err(e) => Err(e),
                    Ok((n, name)) => {
                        let r = q + 1 + n;
                        match field_index(slice(s, q + 1, r)) {
                            Some(k) => from(
                                p,
                                r,
                                sp_postfix_rest(
                                    s,
                                    r,
                                    ExprV::Index {
                                        base: Box::new(base),
                                        index: Box::new(ExprV::Number(digit_text(k))),
                                    },
                                ),
                            ),
                            None => Err(err_at(s, KindV::UnknownField(name), r)),
                        }
                    },
                }
            } else {
                Ok(((q - p) as nat, base))
            }
        },
{
}

pub closed spec fn sp_primary(s: Seq<u8>, p: nat) -> SRes<ExprV>
    decreases rem(s, p), 34int,
{
    let q = skipped(s, p);
    match byte_at(s, q) {
        Some(b) => if b == LBRACKET {
            from(p, q, sp_vector(s, q))
        } else if b == LPAREN {
            match sp_expr(s, q + 1) {
                Err(e) => Err(e),
                Ok((c, e)) => match sp_expect(s, q + 1 + c, RPAREN) {
                    Err(err) => Err(err),
                    Ok(c2) => Ok(((q + 1 + c + c2 - p) as nat, e)),
                },
            }
        } else if b == QUOTE {
            match sp_string(s, q) {
                Err(e) => Err(e),
                Ok((n, t)) => Ok(((q + n - p) as nat, ExprV::Str(t))),
            }
        } else if is_digit(b) || b == DOT {
            match sp_number(s, q) {
                Err(e) => Err(e),
                Ok((n, t)) => Ok(((q + n - p) as nat, ExprV::Number(t))),
            }
        } else if is_ident_start(b) {
            from(p, q, sp_name_or_call(s, q))
        } else {
            Err(err_at(s, KindV::Unexpected { found: Some(b) }, q))
        },
        None => Err(err_at(s, KindV::Unexpected { found: None }, q)),
    }
}

/// One step of the definition of [`sp_primary`].
pub proof fn unfold_sp_primary(s: Seq<u8>, p: nat)
    ensures
        sp_primary(s, p) == {
            let q = skipped(s, p);
            match byte_at(s, q) {
                Some(b) => if b == LBRACKET {
                    from(p, q, sp_vector(s, q))
                } else if b == LPAREN {
                    match sp_expr(s, q + 1) {
                        Err(e) => Err(e),
                        Ok((c, e)) => match sp_expect(s, q + 1 + c, RPAREN) {
                            Err(err) => Err(err),
                            Ok(c2) => Ok(((q + 1 + c + c2 - p) as nat, e)),
                        },
                    }
                } else if b == QUOTE {
                    match sp_string(s, q) {
                        Err(e) => Err(e),
                        Ok((n, t)) => Ok(((q + n - p) as nat, ExprV::Str(t))),
                    }
                } else if is_digit(b) || b == DOT {
                    match sp_number(s, q) {
                        Err(e) => Err(e),
                        Ok((n, t)) => Ok(((q + n - p) as nat, ExprV::Number(t))),
                    }
                } else if is_ident_start(b) {
                    from(p, q, sp_name_or_call(s, q))
                } else {
                    Err(err_at(s, KindV::Unexpected { found: Some(b) }, q))
                },
                None => Err(err_at(s, KindV::Unexpected { found: None }, q)),
            }
        },
{
}

/// The identifier at `p` read as an expression: `true`, `false`, a call
/// `name(args)` or a name.
pub closed spec fn sp_name_or_call(s: Seq<u8>, p: nat) -> SRes<ExprV>
    decreases rem(s, p), 30int,
{
    let n = ident_len(s, p);
    let word = slice(s, p, p + n);
    let name = text_at(s, p, p + n);
    if word == "true".spec_bytes() {
        Ok((n, ExprV::Bool(true)))
    } else if word == "false".spec_bytes() {
        Ok((n, ExprV::Bool(false)))
    } else {
        let r = skipped(s, p + n);
        if byte_at(s, r) == Some(LPAREN) {
            match sp_arg_list(s, r + 1) {
                Err(e) => Err(e),
                Ok((c, args)) => match sp_expect(s, r + 1 + c, RPAREN) {
                    Err(e) => Err(e),
                    Ok(c2) => Ok(((r + 1 + c + c2 - p) as nat, ExprV::Call { name, args })),
                },
            }
        } else {
            Ok(((r - p) as nat, ExprV::Ident(name)))
        }
    }
}

/// One step of the definition of [`sp_name_or_call`].
pub proof fn unfold_sp_name_or_call(s: Seq<u8>, p: nat)
    ensures
        sp_name_or_call(s, p) == {
            let n = ident_len(s, p);
            let word = slice(s, p, p + n);
            let name = text_at(s, p, p + n);
            if word == "true".spec_bytes() {
                Ok((n, ExprV::Bool(true)))
            } else if word == "false".spec_bytes() {
                Ok((n, ExprV::Bool(false)))
            } else {
                let r = skipped(s, p + n);
                if byte_at(s, r) == Some(LPAREN) {
                    match sp_arg_list(s, r + 1) {
                        Err(e) => Err(e),
                        Ok((c, args)) => match sp_expect(s, r + 1 + c, RPAREN) {
                            Err(e) => Err(e),
                            Ok(c2) => Ok(((r + 1 + c + c2 - p) as nat, ExprV::Call { name, args })),
                        },
                    }
                } else {
                    Ok(((r - p) as nat, ExprV::Ident(name)))
                }
            }
        },
{
}

/// `[ ... ]` at `p`: a list comprehension, a range, or a vector.
pub closed spec fn sp_vector(s: Seq<u8>, p: nat) -> SRes<ExprV>
    decreases rem(s, p), 33int,
{
    match sp_expect(s, p, LBRACKET) {
        Err(e) => Err(e),
        Ok(c0) => {
            let q = skipped(s, p + c0);
            if sp_peek_keyword(s, q, "for".spec_bytes()) {
                from(p, q, sp_list_comp(s, q))
            } else if byte_at(s, q) == Some(RBRACKET) {
                Ok(((q + 1 - p) as nat, ExprV::Vector(Seq::empty())))
            } else {
                match sp_expr(s, q) {
                    Err(e) => Err(e),
                    Ok((c1, first)) => {
                        let r = skipped(s, q + c1);
                        if byte_at(s, r) == Some(COLON) {
                            match sp_expr(s, r + 1) {
                                Err(e) => Err(e),
                                Ok((c2, second)) => {
                                    let t = skipped(s, r + 1 + c2);
                                    if byte_at(s, t) == Some(COLON) {
                                        match sp_expr(s, t + 1) {
                                            Err(e) => Err(e),
                                            Ok((c3, end)) => {
                                                let u = skipped(s, t + 1 + c3);
                                                match sp_expect(s, u, RBRACKET) {
                                                    Err(e) => Err(e),
                                                    Ok(c4) => Ok(
                                                        (
                                                            (u + c4 - p) as nat,
                                                            ExprV::Range {
                                                                start: Box::new(first),
                                                                step: Some(Box::new(second)),
                                                                end: Box::new(end),
                                                            },
                                                        ),
                                                    ),
                                                }
                                            },
                                        }
                                    } else {
                                        match sp_expect(s, t, RBRACKET) {
                                            Err(e) => Err(e),
                                            Ok(c4) => Ok(
                                                (
                                                    (t + c4 - p) as nat,
                                                    ExprV::Range {
                                                        start: Box::new(first),
                                                        step: None,
                                                        end: Box::new(second),
                                                    },
                                                ),
                                            ),
                                        }
                                    }
                                },
                            }
                        } else {
                            from(p, r, sp_vector_items(s, r, seq![first]))
                        }
                    },
                }
            }
        },
    }
}

/// One step of the definition of [`sp_vector`].
pub proof fn unfold_sp_vector(s: Seq<u8>, p: nat)
    ensures
        sp_vector(s, p) == {
            match sp_expect(s, p, LBRACKET) {
                Err(e) => Err(e),
                Ok(c0) => {
                    let q = skipped(s, p + c0);
                    if sp_peek_keyword(s, q, "for".spec_bytes()) {
                        from(p, q, sp_list_comp(s, q))
                    } else if byte_at(s, q) == Some(RBRACKET) {
                        Ok(((q + 1 - p) as nat, ExprV::Vector(Seq::empty())))
                    } else {
                        match sp_expr(s, q) {
                            Err(e) => Err(e),
                            Ok((c1, first)) => {
                                let r = skipped(s, q + c1);
                                if byte_at(s, r) == Some(COLON) {
                                    match sp_expr(s, r + 1) {
                                        Err(e) => Err(e),
                                        Ok((c2, second)) => {
                                            let t = skipped(s, r + 1 + c2);
                                            if byte_at(s, t) == Some(COLON) {
                                                match sp_expr(s, t + 1) {
                                                    Err(e) => Err(e),
                                                    Ok((c3, end)) => {
                                                        let u = skipped(s, t + 1 + c3);
                                                        match sp_expect(s, u, RBRACKET) {
                                                            Err(e) => Err(e),
                                                            Ok(c4) => Ok(
                                                                (
                                                                    (u + c4 - p) as nat,
                                                                    ExprV::Range {
                                                                        start: Box::new(first),
                                                                        step: Some(Box::new(second)),
                                                                        end: Box::new(end),
                                                                    },
                                                                ),
                                                            ),
                                                        }
                                                    },
                                                }
                                            } else {
                                                match sp_expect(s, t, RBRACKET) {
                                                    Err(e) => Err(e),
                                                    Ok(c4) => Ok(
                                                        (
                                                            (t + c4 - p) as nat,
                                                            ExprV::Range {
                                                                start: Box::new(first),
                                                                step: None,
                                                                end: Box::new(second),
                                                            },
                                                        ),
                                                    ),
                                                }
                                            }
                                        },
                                    }
                                } else {
                                    from(p, r, sp_vector_items(s, r, seq![first]))
                                }
                            },
                        }
                    }
                },
            }
        },
{
}

/// `[ for (name = range) body ]` after its `[`, at the `for`.
pub closed spec fn sp_list_comp(s: Seq<u8>, p: nat) -> SRes<ExprV>
    decreases rem(s, p), 32int,
{
    match sp_expect_keyword(s, p, "for") {
        Err(e) => Err(e),
        Ok(c0) => {
            let a = skipped(s, p + c0);
            match sp_expect(s, a, LPAREN) {
                Err(e) => Err(e),
                Ok(c1) => {
                    let q = a + c1;
                    match sp_ident(s, q) {
                        Err(e) => Err(e),
                        Ok((n, name)) => {
                            let b = skipped(s, q + n);
                            match sp_expect(s, b, EQUALS) {
                                Err(e) => Err(e),
                                Ok(c2) => match sp_expr(s, b + c2) {
                                    Err(e) => Err(e),
                                    Ok((c3, range)) => match sp_expect(s, b + c2 + c3, RPAREN) {
                                        Err(e) => Err(e),
                                        Ok(c4) => {
                                            let r = skipped(s, b + c2 + c3 + c4);
                                            match sp_expr(s, r) {
                                                Err(e) => Err(e),
                                                Ok((c5, body)) => {
                                                    let t = skipped(s, r + c5);
                                                    match sp_expect(s, t, RBRACKET) {
                                                        Err(e) => Err(e),
                                                        Ok(c6) => Ok(
                                                            (
                                                                (t + c6 - p) as nat,
                                                                ExprV::ListComp {
                                                                    name,
                                                                    range: Box::new(range),
                                                                    body: Box::new(body),
                                                                },
                                                            ),
                                                        ),
                                                    }
                                                },
                                            }
                                        },
                                    },
                                },
                            }
                        },
                    }
                },
            }
        },
    }
}

/// One step of the definition of [`sp_list_comp`].
pub proof fn unfold_sp_list_comp(s: Seq<u8>, p: nat)
    ensures
        sp_list_comp(s, p) == {
            match sp_expect_keyword(s, p, "for") {
                Err(e) => Err(e),
                Ok(c0) => {
                    let a = skipped(s, p + c0);
                    match sp_expect(s, a, LPAREN) {
                        Err(e) => Err(e),
                        Ok(c1) => {
                            let q = a + c1;
                            match sp_ident(s, q) {
                                Err(e) => Err(e),
                                Ok((n, name)) => {
                                    let b = skipped(s, q + n);
                                    match sp_expect(s, b, EQUALS) {
                                        Err(e) => Err(e),
                                        Ok(c2) => match sp_expr(s, b + c2) {
                                            Err(e) => Err(e),
                                            Ok((c3, range)) => match sp_expect(s, b + c2 + c3, RPAREN) {
                                                Err(e) => Err(e),
                                                Ok(c4) => {
                                                    let r = skipped(s, b + c2 + c3 + c4);
                                                    match sp_expr(s, r) {
                                                        Err(e) => Err(e),
                                                        Ok((c5, body)) => {
                                                            let t = skipped(s, r + c5);
                                                            match sp_expect(s, t, RBRACKET) {
                                                                Err(e) => Err(e),
                                                                Ok(c6) => Ok(
                                                                    (
                                                                        (t + c6 - p) as nat,
                                                                        ExprV::ListComp {
                                                                            name,
                                                                            range: Box::new(range),
                                                                            body: Box::new(body),
                                                                        },
                                                                    ),
                                                                ),
                                                            }
                                                        },
                                                    }
                                                },
                                            },
                                        },
                                    }
                                },
                            }
                        },
                    }
                },
            }
        },
{
}

/// `(, expr)* ,? ]` after the elements `acc` of a vector.
pub closed spec fn sp_vector_items(s: Seq<u8>, p: nat, acc: Seq<ExprV>) -> SRes<ExprV>
    decreases rem(s, p), 31int,
{
    if byte_at(s, p) == Some(COMMA) {
        let q = skipped(s, p + 1);
        if byte_at(s, q) == Some(RBRACKET) {
            from(p, q, sp_close_vector(s, q, acc))
        } else {
            match sp_expr(s, q) {
                Err(e) => Err(e),
                Ok((c, e)) => {
                    let r = skipped(s, q + c);
                    from(p, r, sp_vector_items(s, r, acc.push(e)))
                },
            }
        }
    } else {
        sp_close_vector(s, p, acc)
    }
}

/// One step of the definition of [`sp_vector_items`].
pub proof fn unfold_sp_vector_items(s: Seq<u8>, p: nat, acc: Seq<ExprV>)
    ensures
        sp_vector_items(s, p, acc) == {
            if byte_at(s, p) == Some(COMMA) {
                let q = skipped(s, p + 1);
                if byte_at(s, q) == Some(RBRACKET) {
                    from(p, q, sp_close_vector(s, q, acc))
                } else {
                    match sp_expr(s, q) {
                        Err(e) => Err(e),
                        Ok((c, e)) => {
                            let r = skipped(s, q + c);
                            from(p, r, sp_vector_items(s, r, acc.push(e)))
                        },
                    }
                }
            } else {
                sp_close_vector(s, p, acc)
            }
        },
{
}

/// The closing `]` of a vector with the elements `acc`.
pub open spec fn sp_close_vector(s: Seq<u8>, p: nat, acc: Seq<ExprV>) -> SRes<ExprV> {
    match sp_expect(s, p, RBRACKET) {
        Err(e) => Err(e),
        Ok(c) => Ok((c, ExprV::Vector(acc))),
    }
}

// ---- arguments and parameters ----

pub closed spec fn sp_arg(s: Seq<u8>, p: nat) -> SRes<ArgV>
    decreases rem(s, p), 52int,
{
    let q = skipped(s, p);
    if ident_at(s, q) {
        let n = ident_len(s, q);
        let r = skipped(s, q + n);
        if byte_at(s, r) == Some(EQUALS) {
            match sp_expr(s, r + 1) {
                Err(e) => Err(e),
                Ok((c, e)) => Ok(
                    (
                        (r + 1 + c - p) as nat,
                        ArgV::Named(text_at(s, q, q + n), e),
                    ),
                ),
            }
        } else {
            match sp_expr(s, q) {
                Err(e) => Err(e),
                Ok((c, e)) => Ok(((q + c - p) as nat, ArgV::Positional(e))),
            }
        }
    } else {
        match sp_expr(s, q) {
            Err(e) => Err(e),
            Ok((c, e)) => Ok(((q + c - p) as nat, ArgV::Positional(e))),
        }
    }
}

/// One step of the definition of [`sp_arg`].
pub proof fn unfold_sp_arg(s: Seq<u8>, p: nat)
    ensures
        sp_arg(s, p) == {
            let q = skipped(s, p);
            if ident_at(s, q) {
                let n = ident_len(s, q);
                let r = skipped(s, q + n);
                if byte_at(s, r) == Some(EQUALS) {
                    match sp_expr(s, r + 1) {
                        Err(e) => Err(e),
                        Ok((c, e)) => Ok(
                            (
                                (r + 1 + c - p) as nat,
                                ArgV::Named(text_at(s, q, q + n), e),
                            ),
                        ),
                    }
                } else {
                    match sp_expr(s, q) {
                        Err(e) => Err(e),
                        Ok((c, e)) => Ok(((q + c - p) as nat, ArgV::Positional(e))),
                    }
                }
            } else {
                match sp_expr(s, q) {
                    Err(e) => Err(e),
                    Ok((c, e)) => Ok(((q + c - p) as nat, ArgV::Positional(e))),
                }
            }
        },
{
}

/// Arguments separated by commas, after the arguments `acc`.
pub closed spec fn sp_arg_items(s: Seq<u8>, p: nat, acc: Seq<ArgV>) -> SRes<Seq<ArgV>>
    decreases rem(s, p), 53int,
{
    match sp_arg(s, p) {
        Err(e) => Err(e),
        Ok((c, a)) => {
            let t = skipped(s, p + c);
            if byte_at(s, t) == Some(COMMA) {
                let u = skipped(s, t + 1);
                from(p, u, sp_arg_items(s, u, acc.push(a)))
            } else {
                Ok(((t - p) as nat, acc.push(a)))
            }
        },
    }
}

/// One step of the definition of [`sp_arg_items`].
pub proof fn unfold_sp_arg_items(s: Seq<u8>, p: nat, acc: Seq<ArgV>)
    ensures
        sp_arg_items(s, p, acc) == {
            match sp_arg(s, p) {
                Err(e) => Err(e),
                Ok((c, a)) => {
                    let t = skipped(s, p + c);
                    if byte_at(s, t) == Some(COMMA) {
                        let u = skipped(s, t + 1);
                        from(p, u, sp_arg_items(s, u, acc.push(a)))
                    } else {
                        Ok(((t - p) as nat, acc.push(a)))
                    }
                },
            }
        },
{
}

/// The arguments of a call, up to (not including) its `)`.
pub closed spec fn sp_arg_list(s: Seq<u8>, p: nat) -> SRes<Seq<ArgV>>
    decreases rem(s, p), 54int,
{
    let q = skipped(s, p);
    if byte_at(s, q) == Some(RPAREN) {
        Ok(((q - p) as nat, Seq::empty()))
    } else {
        from(p, q, sp_arg_items(s, q, Seq::empty()))
    }
}

/// One step of the definition of [`sp_arg_list`].
pub proof fn unfold_sp_arg_list(s: Seq<u8>, p: nat)
    ensures
        sp_arg_list(s, p) == {
            let q = skipped(s, p);
            if byte_at(s, q) == Some(RPAREN) {
                Ok(((q - p) as nat, Seq::empty()))
            } else {
                from(p, q, sp_arg_items(s, q, Seq::empty()))
            }
        },
{
}

/// Parameters separated by commas, after the parameters `acc`.
pub closed spec fn sp_param_items(s: Seq<u8>, p: nat, acc: Seq<ParamV>) -> SRes<Seq<ParamV>>
    decreases rem(s, p), 55int,
{
    match sp_ident(s, p) {
        Err(e) => Err(e),
        Ok((n, name)) => {
            let r = skipped(s, p + n);
            let d: SRes<Option<ExprV>> = if byte_at(s, r) == Some(EQUALS) {
                match sp_expr(s, r + 1) {
                    Err(e) => Err(e),
                    Ok((c, e)) => Ok((1 + c, Some(e))),
                }
            } else {
                Ok((0, None))
            };
            match d {
                Err(e) => Err(e),
                Ok((cd, default)) => {
                    let t = skipped(s, r + cd);
                    let acc2 = acc.push(ParamV { name, default });
                    if byte_at(s, t) == Some(COMMA) {
                        let u = skipped(s, t + 1);
                        from(p, u, sp_param_items(s, u, acc2))
                    } else {
                        Ok(((t - p) as nat, acc2))
                    }
                },
            }
        },
    }
}

/// One step of the definition of [`sp_param_items`].
pub proof fn unfold_sp_param_items(s: Seq<u8>, p: nat, acc: Seq<ParamV>)
    ensures
        sp_param_items(s, p, acc) == {
            match sp_ident(s, p) {
                Err(e) => Err(e),
                Ok((n, name)) => {
                    let r = skipped(s, p + n);
                    let d: SRes<Option<ExprV>> = if byte_at(s, r) == Some(EQUALS) {
                        match sp_expr(s, r + 1) {
                            Err(e) => Err(e),
                            Ok((c, e)) => Ok((1 + c, Some(e))),
                        }
                    } else {
                        Ok((0, None))
                    };
                    match d {
                        Err(e) => Err(e),
                        Ok((cd, default)) => {
                            let t = skipped(s, r + cd);
                            let acc2 = acc.push(ParamV { name, default });
                            if byte_at(s, t) == Some(COMMA) {
                                let u = skipped(s, t + 1);
                                from(p, u, sp_param_items(s, u, acc2))
                            } else {
                                Ok(((t - p) as nat, acc2))
                            }
                        },
                    }
                },
            }
        },
{
}

/// The parameters of a definition, up to (not including) its `)`.
pub closed spec fn sp_params(s: Seq<u8>, p: nat) -> SRes<Seq<ParamV>>
    decreases rem(s, p), 56int,
{
    let q = skipped(s, p);
    if byte_at(s, q) == Some(RPAREN) {
        Ok(((q - p) as nat, Seq::empty()))
    } else {
        from(p, q, sp_param_items(s, q, Seq::empty()))
    }
}

/// One step of the definition of [`sp_params`].
pub proof fn unfold_sp_params(s: Seq<u8>, p: nat)
    ensures
        sp_params(s, p) == {
            let q = skipped(s, p);
            if byte_at(s, q) == Some(RPAREN) {
                Ok(((q - p) as nat, Seq::empty()))
            } else {
                from(p, q, sp_param_items(s, q, Seq::empty()))
            }
        },
{
}

// ---- statements ----

pub open spec fn is_modifier(b: u8) -> bool {
    b == PERCENT || b == STAR || b == BANG || b == HASH
}

/// A statement after layout: an optional `;` is taken after it.
pub open spec fn opt_semicolon(s: Seq<u8>, p: nat) -> nat {
    let q = skipped(s, p);
    if byte_at(s, q) == Some(SEMI) {
        q + 1
    } else {
        q
    }
}

/// The statements a body stands for: a block's statements, or the one
/// statement.
pub open spec fn body_stmts(st: StatementV) -> Seq<StatementV> {
    match st {
        StatementV::Block(v) => v,
        other => seq![other],
    }
}

pub closed spec fn sp_statement(s: Seq<u8>, p: nat) -> SRes<StatementV>
    decreases rem(s, p), 70int,
{
    let q = skipped(s, p);
    if byte_at(s, q) == Some(LBRACE) {
        from(p, q, sp_block(s, q))
    } else if sp_peek_keyword(s, q, "include".spec_bytes()) || sp_peek_keyword(
        s,
        q,
        "use".spec_bytes(),
    ) {
        from(p, q, sp_include(s, q))
    } else if byte_at(s, q) matches Some(b) && is_modifier(b) {
        let r = skipped(s, q + 1);
        from(p, r, sp_statement(s, r))
    } else if sp_peek_keyword(s, q, "module".spec_bytes()) {
        from(p, q, sp_module_def(s, q))
    } else if sp_peek_keyword(s, q, "function".spec_bytes()) {
        from(p, q, sp_function_def(s, q))
    } else if sp_peek_keyword(s, q, "if".spec_bytes()) {
        from(p, q, sp_if(s, q))
    } else if sp_peek_keyword(s, q, "for".spec_bytes()) || sp_peek_keyword(
        s,
        q,
        "intersection_for".spec_bytes(),
    ) || sp_peek_keyword(s, q, "union_for".spec_bytes()) {
        from(p, q, sp_for(s, q))
    } else if sp_peek_keyword(s, q, "let".spec_bytes()) || sp_peek_keyword(
        s,
        q,
        "assign".spec_bytes(),
    ) {
        from(p, q, sp_let(s, q))
    } else if sp_peek_keyword(s, q, "assert".spec_bytes()) {
        from(p, q, sp_assert(s, q))
    } else if ident_at(s, q) {
        let n = ident_len(s, q);
        let r = skipped(s, q + n);
        if byte_at(s, r) == Some(EQUALS) {
            match sp_expr(s, r + 1) {
                Err(e) => Err(e),
                Ok((c, value)) => Ok(
                    (
                        (opt_semicolon(s, r + 1 + c) - p) as nat,
                        StatementV::Assign {
                            name: text_at(s, q, q + n),
                            value,
                        },
                    ),
                ),
            }
        } else {
            from(p, q, sp_module_call(s, q))
        }
    } else if byte_at(s, q) == Some(SEMI) {
        Ok(((q + 1 - p) as nat, StatementV::Block(Seq::empty())))
    } else {
        match sp_expr(s, q) {
            Err(e) => Err(e),
            Ok((c, e)) => Ok(((opt_semicolon(s, q + c) - p) as nat, StatementV::ExprStmt(e))),
        }
    }
}

/// One step of the definition of [`sp_statement`].
pub proof fn unfold_sp_statement(s: Seq<u8>, p: nat)
    ensures
        sp_statement(s, p) == {
            let q = skipped(s, p);
            if byte_at(s, q) == Some(LBRACE) {
                from(p, q, sp_block(s, q))
            } else if sp_peek_keyword(s, q, "include".spec_bytes()) || sp_peek_keyword(
                s,
                q,
                "use".spec_bytes(),
            ) {
                from(p, q, sp_include(s, q))
            } else if byte_at(s, q) matches Some(b) && is_modifier(b) {
                let r = skipped(s, q + 1);
                from(p, r, sp_statement(s, r))
            } else if sp_peek_keyword(s, q, "module".spec_bytes()) {
                from(p, q, sp_module_def(s, q))
            } else if sp_peek_keyword(s, q, "function".spec_bytes()) {
                from(p, q, sp_function_def(s, q))
            } else if sp_peek_keyword(s, q, "if".spec_bytes()) {
                from(p, q, sp_if(s, q))
            } else if sp_peek_keyword(s, q, "for".spec_bytes()) || sp_peek_keyword(
                s,
                q,
                "intersection_for".spec_bytes(),
            ) || sp_peek_keyword(s, q, "union_for".spec_bytes()) {
                from(p, q, sp_for(s, q))
            } else if sp_peek_keyword(s, q, "let".spec_bytes()) || sp_peek_keyword(
                s,
                q,
                "assign".spec_bytes(),
            ) {
                from(p, q, sp_let(s, q))
            } else if sp_peek_keyword(s, q, "assert".spec_bytes()) {
                from(p, q, sp_assert(s, q))
            } else if ident_at(s, q) {
                let n = ident_len(s, q);
                let r = skipped(s, q + n);
                if byte_at(s, r) == Some(EQUALS) {
                    match sp_expr(s, r + 1) {
                        Err(e) => Err(e),
                        Ok((c, value)) => Ok(
                            (
                                (opt_semicolon(s, r + 1 + c) - p) as nat,
                                StatementV::Assign {
                                    name: text_at(s, q, q + n),
                                    value,
                                },
                            ),
                        ),
                    }
                } else {
                    from(p, q, sp_module_call(s, q))
                }
            } else if byte_at(s, q) == Some(SEMI) {
                Ok(((q + 1 - p) as nat, StatementV::Block(Seq::empty())))
            } else {
                match sp_expr(s, q) {
                    Err(e) => Err(e),
                    Ok((c, e)) => Ok(((opt_semicolon(s, q + c) - p) as nat, StatementV::ExprStmt(e))),
                }
            }
        },
{
}

/// Length of an include path body from `q`: up to `>`.
pub open spec fn angle_body_len(s: Seq<u8>, q: nat) -> nat
    decreases rem(s, q),
{
    if q < s.len() && s[q as int] != GREATER {
        1 + angle_body_len(s, q + 1)
    } else {
        0
    }
}

/// `include <path>` / `use <path>` / `include "path"`: accepted, and the
/// statement stands for nothing (an empty block).
pub open spec fn sp_include(s: Seq<u8>, p: nat) -> SRes<StatementV> {
    let kw = if sp_peek_keyword(s, p, "include".spec_bytes()) {
        sp_expect_keyword(s, p, "include")
    } else {
        sp_expect_keyword(s, p, "use")
    };
    match kw {
        Err(e) => Err(e),
        Ok(c0) => {
            let q = skipped(s, p + c0);
            let path: Result<nat, ErrorV> = if byte_at(s, q) == Some(LESS) {
                let n = angle_body_len(s, q + 1);
                match sp_expect(s, q + 1 + n, GREATER) {
                    Err(e) => Err(e),
                    Ok(c) => Ok(1 + n + c),
                }
            } else if byte_at(s, q) == Some(QUOTE) {
                match sp_string(s, q) {
                    Err(e) => Err(e),
                    Ok((n, _t)) => Ok(n),
                }
            } else {
                Err(err_at(s, KindV::ExpectedIncludePath, q))
            };
            match path {
                Err(e) => Err(e),
                Ok(c) => Ok(((opt_semicolon(s, q + c) - p) as nat, StatementV::Block(Seq::empty()))),
            }
        },
    }
}

/// `let (a = e, ...) statement` / `assign (...)`: a block of the
/// assignments followed by the statement.
pub closed spec fn sp_let(s: Seq<u8>, p: nat) -> SRes<StatementV>
    decreases rem(s, p), 60int,
{
    let kw = if sp_peek_keyword(s, p, "assign".spec_bytes()) {
        sp_expect_keyword(s, p, "assign")
    } else {
        sp_expect_keyword(s, p, "let")
    };
    match kw {
        Err(e) => Err(e),
        Ok(c0) => {
            let a = skipped(s, p + c0);
            match sp_expect(s, a, LPAREN) {
                Err(e) => Err(e),
                Ok(c1) => {
                    let q = skipped(s, a + c1);
                    match sp_let_items(s, q, Seq::empty()) {
                        Err(e) => Err(e),
                        Ok((c2, assigns)) => match sp_expect(s, q + c2, RPAREN) {
                            Err(e) => Err(e),
                            Ok(c3) => {
                                let r = skipped(s, q + c2 + c3);
                                match sp_statement(s, r) {
                                    Err(e) => Err(e),
                                    Ok((c4, body)) => Ok(
                                        ((r + c4 - p) as nat, StatementV::Block(assigns.push(body))),
                                    ),
                                }
                            },
                        },
                    }
                },
            }
        },
    }
}

/// One step of the definition of [`sp_let`].
pub proof fn unfold_sp_let(s: Seq<u8>, p: nat)
    ensures
        sp_let(s, p) == {
            let kw = if sp_peek_keyword(s, p, "assign".spec_bytes()) {
                sp_expect_keyword(s, p, "assign")
            } else {
                sp_expect_keyword(s, p, "let")
            };
            match kw {
                Err(e) => Err(e),
                Ok(c0) => {
                    let a = skipped(s, p + c0);
                    match sp_expect(s, a, LPAREN) {
                        Err(e) => Err(e),
                        Ok(c1) => {
                            let q = skipped(s, a + c1);
                            match sp_let_items(s, q, Seq::empty()) {
                                Err(e) => Err(e),
                                Ok((c2, assigns)) => match sp_expect(s, q + c2, RPAREN) {
                                    Err(e) => Err(e),
                                    Ok(c3) => {
                                        let r = skipped(s, q + c2 + c3);
                                        match sp_statement(s, r) {
                                            Err(e) => Err(e),
                                            Ok((c4, body)) => Ok(
                                                ((r + c4 - p) as nat, StatementV::Block(assigns.push(body))),
                                            ),
                                        }
                                    },
                                },
                            }
                        },
                    }
                },
            }
        },
{
}

/// The `name = expr` assignments of a `let`, after `acc`.
pub closed spec fn sp_let_items(s: Seq<u8>, p: nat, acc: Seq<StatementV>) -> SRes<Seq<StatementV>>
    decreases rem(s, p), 59int,
{
    if byte_at(s, p) != Some(RPAREN) && p < s.len() {
        match sp_ident(s, p) {
            Err(e) => Err(e),
            Ok((n, name)) => {
                let b = skipped(s, p + n);
                match sp_expect(s, b, EQUALS) {
                    Err(e) => Err(e),
                    Ok(c1) => match sp_expr(s, b + c1) {
                        Err(e) => Err(e),
                        Ok((c2, value)) => {
                            let t = skipped(s, b + c1 + c2);
                            let acc2 = acc.push(StatementV::Assign { name, value });
                            if byte_at(s, t) == Some(COMMA) {
                                let u = skipped(s, t + 1);
                                from(p, u, sp_let_items(s, u, acc2))
                            } else {
                                Ok(((t - p) as nat, acc2))
                            }
                        },
                    },
                }
            },
        }
    } else {
        Ok((0, acc))
    }
}

/// One step of the definition of [`sp_let_items`].
pub proof fn unfold_sp_let_items(s: Seq<u8>, p: nat, acc: Seq<StatementV>)
    ensures
        sp_let_items(s, p, acc) == {
            if byte_at(s, p) != Some(RPAREN) && p < s.len() {
                match sp_ident(s, p) {
                    Err(e) => Err(e),
                    Ok((n, name)) => {
                        let b = skipped(s, p + n);
                        match sp_expect(s, b, EQUALS) {
                            Err(e) => Err(e),
                            Ok(c1) => match sp_expr(s, b + c1) {
                                Err(e) => Err(e),
                                Ok((c2, value)) => {
                                    let t = skipped(s, b + c1 + c2);
                                    let acc2 = acc.push(StatementV::Assign { name, value });
                                    if byte_at(s, t) == Some(COMMA) {
                                        let u = skipped(s, t + 1);
                                        from(p, u, sp_let_items(s, u, acc2))
                                    } else {
                                        Ok(((t - p) as nat, acc2))
                                    }
                                },
                            },
                        }
                    },
                }
            } else {
                Ok((0, acc))
            }
        },
{
}

/// `assert(cond [, message]);`: checked for syntax, and standing for
/// nothing.
pub closed spec fn sp_assert(s: Seq<u8>, p: nat) -> SRes<StatementV>
    decreases rem(s, p), 60int,
{
    match sp_expect_keyword(s, p, "assert") {
        Err(e) => Err(e),
        Ok(c0) => {
            let a = skipped(s, p + c0);
            match sp_expect(s, a, LPAREN) {
                Err(e) => Err(e),
                Ok(c1) => match sp_expr(s, a + c1) {
                    Err(e) => Err(e),
                    Ok((c2, _cond)) => {
                        let q = skipped(s, a + c1 + c2);
                        let msg: Result<nat, ErrorV> = if byte_at(s, q) == Some(COMMA) {
                            match sp_expr(s, q + 1) {
                                Err(e) => Err(e),
                                Ok((c3, _m)) => Ok(1 + c3),
                            }
                        } else {
                            Ok(0)
                        };
                        match msg {
                            Err(e) => Err(e),
                            Ok(c3) => match sp_expect(s, q + c3, RPAREN) {
                                Err(e) => Err(e),
                                Ok(c4) => Ok(
                                    (
                                        (opt_semicolon(s, q + c3 + c4) - p) as nat,
                                        StatementV::Block(Seq::empty()),
                                    ),
                                ),
                            },
                        }
                    },
                },
            }
        },
    }
}

/// One step of the definition of [`sp_assert`].
pub proof fn unfold_sp_assert(s: Seq<u8>, p: nat)
    ensures
        sp_assert(s, p) == {
            match sp_expect_keyword(s, p, "assert") {
                Err(e) => Err(e),
                Ok(c0) => {
                    let a = skipped(s, p + c0);
                    match sp_expect(s, a, LPAREN) {
                        Err(e) => Err(e),
                        Ok(c1) => match sp_expr(s, a + c1) {
                            Err(e) => Err(e),
                            Ok((c2, _cond)) => {
                                let q = skipped(s, a + c1 + c2);
                                let msg: Result<nat, ErrorV> = if byte_at(s, q) == Some(COMMA) {
                                    match sp_expr(s, q + 1) {
                                        Err(e) => Err(e),
                                        Ok((c3, _m)) => Ok(1 + c3),
                                    }
                                } else {
                                    Ok(0)
                                };
                                match msg {
                                    Err(e) => Err(e),
                                    Ok(c3) => match sp_expect(s, q + c3, RPAREN) {
                                        Err(e) => Err(e),
                                        Ok(c4) => Ok(
                                            (
                                                (opt_semicolon(s, q + c3 + c4) - p) as nat,
                                                StatementV::Block(Seq::empty()),
                                            ),
                                        ),
                                    },
                                }
                            },
                        },
                    }
                },
            }
        },
{
}

pub closed spec fn sp_module_def(s: Seq<u8>, p: nat) -> SRes<StatementV>
    decreases rem(s, p), 60int,
{
    match sp_expect_keyword(s, p, "module") {
        Err(e) => Err(e),
        Ok(c0) => {
            let q = skipped(s, p + c0);
            match sp_ident(s, q) {
                Err(e) => Err(e),
                Ok((n, name)) => {
                    let a = skipped(s, q + n);
                    match sp_expect(s, a, LPAREN) {
                        Err(e) => Err(e),
                        Ok(c1) => match sp_params(s, a + c1) {
                            Err(e) => Err(e),
                            Ok((c2, params)) => match sp_expect(s, a + c1 + c2, RPAREN) {
                                Err(e) => Err(e),
                                Ok(c3) => {
                                    let r = skipped(s, a + c1 + c2 + c3);
                                    match sp_statement(s, r) {
                                        Err(e) => Err(e),
                                        Ok((c4, body)) => Ok(
                                            (
                                                (r + c4 - p) as nat,
                                                StatementV::ModuleDef {
                                                    name,
                                                    params,
                                                    body: body_stmts(body),
                                                },
                                            ),
                                        ),
                                    }
                                },
                            },
                        },
                    }
                },
            }
        },
    }
}

/// One step of the definition of [`sp_module_def`].
pub proof fn unfold_sp_module_def(s: Seq<u8>, p: nat)
    ensures
        sp_module_def(s, p) == {
            match sp_expect_keyword(s, p, "module") {
                Err(e) => Err(e),
                Ok(c0) => {
                    let q = skipped(s, p + c0);
                    match sp_ident(s, q) {
                        Err(e) => Err(e),
                        Ok((n, name)) => {
                            let a = skipped(s, q + n);
                            match sp_expect(s, a, LPAREN) {
                                Err(e) => Err(e),
                                Ok(c1) => match sp_params(s, a + c1) {
                                    Err(e) => Err(e),
                                    Ok((c2, params)) => match sp_expect(s, a + c1 + c2, RPAREN) {
                                        Err(e) => Err(e),
                                        Ok(c3) => {
                                            let r = skipped(s, a + c1 + c2 + c3);
                                            match sp_statement(s, r) {
                                                Err(e) => Err(e),
                                                Ok((c4, body)) => Ok(
                                                    (
                                                        (r + c4 - p) as nat,
                                                        StatementV::ModuleDef {
                                                            name,
                                                            params,
                                                            body: body_stmts(body),
                                                        },
                                                    ),
                                                ),
                                            }
                                        },
                                    },
                                },
                            }
                        },
                    }
                },
            }
        },
{
}

pub closed spec fn sp_function_def(s: Seq<u8>, p: nat) -> SRes<StatementV>
    decreases rem(s, p), 60int,
{
    match sp_expect_keyword(s, p, "function") {
        Err(e) => Err(e),
        Ok(c0) => {
            let q = skipped(s, p + c0);
            match sp_ident(s, q) {
                Err(e) => Err(e),
                Ok((n, name)) => {
                    let a = skipped(s, q + n);
                    match sp_expect(s, a, LPAREN) {
                        Err(e) => Err(e),
                        Ok(c1) => match sp_params(s, a + c1) {
                            Err(e) => Err(e),
                            Ok((c2, params)) => match sp_expect(s, a + c1 + c2, RPAREN) {
                                Err(e) => Err(e),
                                Ok(c3) => {
                                    let b = skipped(s, a + c1 + c2 + c3);
                                    match sp_expect(s, b, EQUALS) {
                                        Err(e) => Err(e),
                                        Ok(c4) => {
                                            let r = b + c4;
                                            match sp_expr(s, r) {
                                                Err(e) => Err(e),
                                                Ok((c5, body)) => Ok(
                                                    (
                                                        (opt_semicolon(s, r + c5) - p) as nat,
                                                        StatementV::FunctionDef {
                                                            name,
                                                            params,
                                                            body,
                                                        },
                                                    ),
                                                ),
                                            }
                                        },
                                    }
                                },
                            },
                        },
                    }
                },
            }
        },
    }
}

/// One step of the definition of [`sp_function_def`].
pub proof fn unfold_sp_function_def(s: Seq<u8>, p: nat)
    ensures
        sp_function_def(s, p) == {
            match sp_expect_keyword(s, p, "function") {
                Err(e) => Err(e),
                Ok(c0) => {
                    let q = skipped(s, p + c0);
                    match sp_ident(s, q) {
                        Err(e) => Err(e),
                        Ok((n, name)) => {
                            let a = skipped(s, q + n);
                            match sp_expect(s, a, LPAREN) {
                                Err(e) => Err(e),
                                Ok(c1) => match sp_params(s, a + c1) {
                                    Err(e) => Err(e),
                                    Ok((c2, params)) => match sp_expect(s, a + c1 + c2, RPAREN) {
                                        Err(e) => Err(e),
                                        Ok(c3) => {
                                            let b = skipped(s, a + c1 + c2 + c3);
                                            match sp_expect(s, b, EQUALS) {
                                                Err(e) => Err(e),
                                                Ok(c4) => {
                                                    let r = b + c4;
                                                    match sp_expr(s, r) {
                                                        Err(e) => Err(e),
                                                        Ok((c5, body)) => Ok(
                                                            (
                                                                (opt_semicolon(s, r + c5) - p) as nat,
                                                                StatementV::FunctionDef {
                                                                    name,
                                                                    params,
                                                                    body,
                                                                },
                                                            ),
                                                        ),
                                                    }
                                                },
                                            }
                                        },
                                    },
                                },
                            }
                        },
                    }
                },
            }
        },
{
}

pub closed spec fn sp_if(s: Seq<u8>, p: nat) -> SRes<StatementV>
    decreases rem(s, p), 60int,
{
    match sp_expect_keyword(s, p, "if") {
        Err(e) => Err(e),
        Ok(c0) => {
            let a = skipped(s, p + c0);
            match sp_expect(s, a, LPAREN) {
                Err(e) => Err(e),
                Ok(c1) => match sp_expr(s, a + c1) {
                    Err(e) => Err(e),
                    Ok((c2, cond)) => match sp_expect(s, a + c1 + c2, RPAREN) {
                        Err(e) => Err(e),
                        Ok(c3) => {
                            let q = skipped(s, a + c1 + c2 + c3);
                            match sp_statement(s, q) {
                                Err(e) => Err(e),
                                Ok((c4, then_st)) => {
                                    let r = skipped(s, q + c4);
                                    if sp_peek_keyword(s, r, "else".spec_bytes()) {
                                        match sp_expect_keyword(s, r, "else") {
                                            Err(e) => Err(e),
                                            Ok(c5) => {
                                                let t = skipped(s, r + c5);
                                                match sp_statement(s, t) {
                                                    Err(e) => Err(e),
                                                    Ok((c6, else_st)) => Ok(
                                                        (
                                                            (t + c6 - p) as nat,
                                                            StatementV::If {
                                                                cond,
                                                                then_branch: Box::new(then_st),
                                                                else_branch: Some(
                                                                    Box::new(else_st),
                                                                ),
                                                            },
                                                        ),
                                                    ),
                                                }
                                            },
                                        }
                                    } else {
                                        Ok(
                                            (
                                                (r - p) as nat,
                                                StatementV::If {
                                                    cond,
                                                    then_branch: Box::new(then_st),
                                                    else_branch: None,
                                                },
                                            ),
                                        )
                                    }
                                },
                            }
                        },
                    },
                },
            }
        },
    }
}

/// One step of the definition of [`sp_if`].
pub proof fn unfold_sp_if(s: Seq<u8>, p: nat)
    ensures
        sp_if(s, p) == {
            match sp_expect_keyword(s, p, "if") {
                Err(e) => Err(e),
                Ok(c0) => {
                    let a = skipped(s, p + c0);
                    match sp_expect(s, a, LPAREN) {
                        Err(e) => Err(e),
                        Ok(c1) => match sp_expr(s, a + c1) {
                            Err(e) => Err(e),
                            Ok((c2, cond)) => match sp_expect(s, a + c1 + c2, RPAREN) {
                                Err(e) => Err(e),
                                Ok(c3) => {
                                    let q = skipped(s, a + c1 + c2 + c3);
                                    match sp_statement(s, q) {
                                        Err(e) => Err(e),
                                        Ok((c4, then_st)) => {
                                            let r = skipped(s, q + c4);
                                            if sp_peek_keyword(s, r, "else".spec_bytes()) {
                                                match sp_expect_keyword(s, r, "else") {
                                                    Err(e) => Err(e),
                                                    Ok(c5) => {
                                                        let t = skipped(s, r + c5);
                                                        match sp_statement(s, t) {
                                                            Err(e) => Err(e),
                                                            Ok((c6, else_st)) => Ok(
                                                                (
                                                                    (t + c6 - p) as nat,
                                                                    StatementV::If {
                                                                        cond,
                                                                        then_branch: Box::new(then_st),
                                                                        else_branch: Some(
                                                                            Box::new(else_st),
                                                                        ),
                                                                    },
                                                                ),
                                                            ),
                                                        }
                                                    },
                                                }
                                            } else {
                                                Ok(
                                                    (
                                                        (r - p) as nat,
                                                        StatementV::If {
                                                            cond,
                                                            then_branch: Box::new(then_st),
                                                            else_branch: None,
                                                        },
                                                    ),
                                                )
                                            }
                                        },
                                    }
                                },
                            },
                        },
                    }
                },
            }
        },
{
}

/// `for`, `intersection_for`, `union_for`: all read as a `for`.
pub closed spec fn sp_for(s: Seq<u8>, p: nat) -> SRes<StatementV>
    decreases rem(s, p), 60int,
{
    let kw = if sp_peek_keyword(s, p, "intersection_for".spec_bytes()) {
        sp_expect_keyword(s, p, "intersection_for")
    } else if sp_peek_keyword(s, p, "union_for".spec_bytes()) {
        sp_expect_keyword(s, p, "union_for")
    } else {
        sp_expect_keyword(s, p, "for")
    };
    match kw {
        Err(e) => Err(e),
        Ok(c0) => {
            let a = skipped(s, p + c0);
            match sp_expect(s, a, LPAREN) {
                Err(e) => Err(e),
                Ok(c1) => {
                    let q = a + c1;
                    match sp_ident(s, q) {
                        Err(e) => Err(e),
                        Ok((n, name)) => {
                            let b = skipped(s, q + n);
                            match sp_expect(s, b, EQUALS) {
                                Err(e) => Err(e),
                                Ok(c2) => match sp_expr(s, b + c2) {
                                    Err(e) => Err(e),
                                    Ok((c3, range)) => match sp_expect(s, b + c2 + c3, RPAREN) {
                                        Err(e) => Err(e),
                                        Ok(c4) => {
                                            let r = skipped(s, b + c2 + c3 + c4);
                                            match sp_statement(s, r) {
                                                Err(e) => Err(e),
                                                Ok((c5, body)) => Ok(
                                                    (
                                                        (r + c5 - p) as nat,
                                                        StatementV::For {
                                                            name,
                                                            range,
                                                            body: Box::new(body),
                                                        },
                                                    ),
                                                ),
                                            }
                                        },
                                    },
                                },
                            }
                        },
                    }
                },
            }
        },
    }
}

/// One step of the definition of [`sp_for`].
pub proof fn unfold_sp_for(s: Seq<u8>, p: nat)
    ensures
        sp_for(s, p) == {
            let kw = if sp_peek_keyword(s, p, "intersection_for".spec_bytes()) {
                sp_expect_keyword(s, p, "intersection_for")
            } else if sp_peek_keyword(s, p, "union_for".spec_bytes()) {
                sp_expect_keyword(s, p, "union_for")
            } else {
                sp_expect_keyword(s, p, "for")
            };
            match kw {
                Err(e) => Err(e),
                Ok(c0) => {
                    let a = skipped(s, p + c0);
                    match sp_expect(s, a, LPAREN) {
                        Err(e) => Err(e),
                        Ok(c1) => {
                            let q = a + c1;
                            match sp_ident(s, q) {
                                Err(e) => Err(e),
                                Ok((n, name)) => {
                                    let b = skipped(s, q + n);
                                    match sp_expect(s, b, EQUALS) {
                                        Err(e) => Err(e),
                                        Ok(c2) => match sp_expr(s, b + c2) {
                                            Err(e) => Err(e),
                                            Ok((c3, range)) => match sp_expect(s, b + c2 + c3, RPAREN) {
                                                Err(e) => Err(e),
                                                Ok(c4) => {
                                                    let r = skipped(s, b + c2 + c3 + c4);
                                                    match sp_statement(s, r) {
                                                        Err(e) => Err(e),
                                                        Ok((c5, body)) => Ok(
                                                            (
                                                                (r + c5 - p) as nat,
                                                                StatementV::For {
                                                                    name,
                                                                    range,
                                                                    body: Box::new(body),
                                                                },
                                                            ),
                                                        ),
                                                    }
                                                },
                                            },
                                        },
                                    }
                                },
                            }
                        },
                    }
                },
            }
        },
{
}

/// `name(args)` followed by `;`, a block, or one statement as its children.
pub closed spec fn sp_module_call(s: Seq<u8>, p: nat) -> SRes<StatementV>
    decreases rem(s, p), 65int,
{
    match sp_ident(s, p) {
        Err(e) => Err(e),
        Ok((n, name)) => {
            let a = skipped(s, p + n);
            match sp_expect(s, a, LPAREN) {
                Err(e) => Err(e),
                Ok(c1) => match sp_arg_list(s, a + c1) {
                    Err(e) => Err(e),
                    Ok((c2, args)) => match sp_expect(s, a + c1 + c2, RPAREN) {
                        Err(e) => Err(e),
                        Ok(c3) => {
                            let r = skipped(s, a + c1 + c2 + c3);
                            let children: SRes<Seq<StatementV>> = if byte_at(s, r) == Some(SEMI) {
                                Ok((1, Seq::empty()))
                            } else if byte_at(s, r) == Some(LBRACE) {
                                match sp_block(s, r) {
                                    Err(e) => Err(e),
                                    Ok((c, b)) => Ok((c, body_stmts(b))),
                                }
                            } else if ident_at(s, r) || sp_peek_keyword(s, r, "if".spec_bytes())
                                || sp_peek_keyword(s, r, "for".spec_bytes()) {
                                match sp_statement(s, r) {
                                    Err(e) => Err(e),
                                    Ok((c, st)) => Ok((c, seq![st])),
                                }
                            } else {
                                Ok((0, Seq::empty()))
                            };
                            match children {
                                Err(e) => Err(e),
                                Ok((c4, children)) => Ok(
                                    (
                                        (r + c4 - p) as nat,
                                        StatementV::ModuleCall { name, args, children },
                                    ),
                                ),
                            }
                        },
                    },
                },
            }
        },
    }
}

/// One step of the definition of [`sp_module_call`].
pub proof fn unfold_sp_module_call(s: Seq<u8>, p: nat)
    ensures
        sp_module_call(s, p) == {
            match sp_ident(s, p) {
                Err(e) => Err(e),
                Ok((n, name)) => {
                    let a = skipped(s, p + n);
                    match sp_expect(s, a, LPAREN) {
                        Err(e) => Err(e),
                        Ok(c1) => match sp_arg_list(s, a + c1) {
                            Err(e) => Err(e),
                            Ok((c2, args)) => match sp_expect(s, a + c1 + c2, RPAREN) {
                                Err(e) => Err(e),
                                Ok(c3) => {
                                    let r = skipped(s, a + c1 + c2 + c3);
                                    let children: SRes<Seq<StatementV>> = if byte_at(s, r) == Some(SEMI) {
                                        Ok((1, Seq::empty()))
                                    } else if byte_at(s, r) == Some(LBRACE) {
                                        match sp_block(s, r) {
                                            Err(e) => Err(e),
                                            Ok((c, b)) => Ok((c, body_stmts(b))),
                                        }
                                    } else if ident_at(s, r) || sp_peek_keyword(s, r, "if".spec_bytes())
                                        || sp_peek_keyword(s, r, "for".spec_bytes()) {
                                        match sp_statement(s, r) {
                                            Err(e) => Err(e),
                                            Ok((c, st)) => Ok((c, seq![st])),
                                        }
                                    } else {
                                        Ok((0, Seq::empty()))
                                    };
                                    match children {
                                        Err(e) => Err(e),
                                        Ok((c4, children)) => Ok(
                                            (
                                                (r + c4 - p) as nat,
                                                StatementV::ModuleCall { name, args, children },
                                            ),
                                        ),
                                    }
                                },
                            },
                        },
                    }
                },
            }
        },
{
}

/// `{ statements }`.
pub closed spec fn sp_block(s: Seq<u8>, p: nat) -> SRes<StatementV>
    decreases rem(s, p), 60int,
{
    match sp_expect(s, p, LBRACE) {
        Err(e) => Err(e),
        Ok(c0) => {
            let q = skipped(s, p + c0);
            match sp_block_items(s, q, Seq::empty()) {
                Err(e) => Err(e),
                Ok((c1, stmts)) => match sp_expect(s, q + c1, RBRACE) {
                    Err(e) => Err(e),
                    Ok(c2) => Ok(((q + c1 + c2 - p) as nat, StatementV::Block(stmts))),
                },
            }
        },
    }
}

/// One step of the definition of [`sp_block`].
pub proof fn unfold_sp_block(s: Seq<u8>, p: nat)
    ensures
        sp_block(s, p) == {
            match sp_expect(s, p, LBRACE) {
                Err(e) => Err(e),
                Ok(c0) => {
                    let q = skipped(s, p + c0);
                    match sp_block_items(s, q, Seq::empty()) {
                        Err(e) => Err(e),
                        Ok((c1, stmts)) => match sp_expect(s, q + c1, RBRACE) {
                            Err(e) => Err(e),
                            Ok(c2) => Ok(((q + c1 + c2 - p) as nat, StatementV::Block(stmts))),
                        },
                    }
                },
            }
        },
{
}

/// The statements of a block up to its `}`, after `acc`. A statement always
/// consumes input (see `parse_statement`); the `n > 0` test only makes the
/// progress of this definition evident.
pub closed spec fn sp_block_items(s: Seq<u8>, p: nat, acc: Seq<StatementV>) -> SRes<Seq<StatementV>>
    decreases rem(s, p), 71int,
{
    if byte_at(s, p) != Some(RBRACE) && p < s.len() {
        match sp_statement(s, p) {
            Err(e) => Err(e),
            Ok((n, st)) => if n > 0 {
                let q = skipped(s, p + n);
                from(p, q, sp_block_items(s, q, acc.push(st)))
            } else {
                Ok((0, acc))
            },
        }
    } else {
        Ok((0, acc))
    }
}

/// One step of the definition of [`sp_block_items`].
pub proof fn unfold_sp_block_items(s: Seq<u8>, p: nat, acc: Seq<StatementV>)
    ensures
        sp_block_items(s, p, acc) == {
            if byte_at(s, p) != Some(RBRACE) && p < s.len() {
                match sp_statement(s, p) {
                    Err(e) => Err(e),
                    Ok((n, st)) => if n > 0 {
                        let q = skipped(s, p + n);
                        from(p, q, sp_block_items(s, q, acc.push(st)))
                    } else {
                        Ok((0, acc))
                    },
                }
            } else {
                Ok((0, acc))
            }
        },
{
}

/// The statements of a program from `p` to the end, after `acc`.
pub closed spec fn sp_program_items(s: Seq<u8>, p: nat, acc: Seq<StatementV>) -> Result<Seq<StatementV>, ErrorV>
    decreases rem(s, p),
{
    if p < s.len() {
        match sp_statement(s, p) {
            Err(e) => Err(e),
            Ok((n, st)) => if n > 0 {
                sp_program_items(s, skipped(s, p + n), acc.push(st))
            } else {
                Ok(acc)
            },
        }
    } else {
        Ok(acc)
    }
}

/// One step of the definition of [`sp_program_items`].
pub proof fn unfold_sp_program_items(s: Seq<u8>, p: nat, acc: Seq<StatementV>)
    ensures
        sp_program_items(s, p, acc) == {
            if p < s.len() {
                match sp_statement(s, p) {
                    Err(e) => Err(e),
                    Ok((n, st)) => if n > 0 {
                        sp_program_items(s, skipped(s, p + n), acc.push(st))
                    } else {
                        Ok(acc)
                    },
                }
            } else {
                Ok(acc)
            }
        },
{
}

/// A whole source: its statements, or the first error.
pub open spec fn sp_program(s: Seq<u8>) -> Result<Seq<StatementV>, ErrorV> {
    sp_program_items(s, skipped(s, 0), Seq::empty())
}

} // verus!
