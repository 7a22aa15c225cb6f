//! Recursive-descent parser for an expanded OpenSCAD subset.
//!
//! Every parsing method is proved to do exactly what the grammar in
//! `syntax` says, on every input.
use vstd::prelude::*;
use vstd::string::StringSliceAdditionalSpecFns;
use vstd::utf8::*;
use crate::ast::{
    args_view, exprs_view, params_view, stmts_view, Arg, ArgV, BinaryOp, Expr, ExprV, Param,
    ParamV, Program, Statement, StatementV, UnaryOp,
};
use crate::error::{ErrorV, Location, ParseError, ParseErrorKind};
use crate::syntax::{
    stmts_numerals_ok, exprs_numerals_ok,
    lemma_exprs_numerals, lemma_args_numerals, lemma_stmts_numerals,
    expr_numerals_ok, arg_numerals_ok, stmt_numerals_ok, param_numerals_ok, numeral_ok, lemma_digit_numerals,
    lemma_peek_pair, lemma_from_from, bin, compare_op_at, unfold_sp_expr, unfold_sp_ternary,
    unfold_sp_or, unfold_sp_or_rest, unfold_sp_and, unfold_sp_and_rest, unfold_sp_compare,
    unfold_sp_compare_rest, unfold_sp_add, unfold_sp_add_rest, unfold_sp_mul, unfold_sp_mul_rest,
    unfold_sp_pow, unfold_sp_unary, unfold_sp_postfix, unfold_sp_postfix_rest, unfold_sp_primary,
    unfold_sp_vector, unfold_sp_vector_items, unfold_sp_list_comp, unfold_sp_arg_list,
    unfold_sp_arg_items, unfold_sp_arg, unfold_sp_name_or_call, sp_name_or_call, sp_statement,
    unfold_sp_statement, sp_include, angle_body_len, sp_let, unfold_sp_let, sp_let_items,
    unfold_sp_let_items, sp_assert, unfold_sp_assert, sp_module_def, unfold_sp_module_def,
    sp_function_def, unfold_sp_function_def, sp_params, unfold_sp_params, sp_param_items,
    unfold_sp_param_items, sp_if, unfold_sp_if, sp_for, unfold_sp_for, sp_module_call,
    unfold_sp_module_call, sp_block, unfold_sp_block, sp_block_items, unfold_sp_block_items,
    sp_program, sp_program_items, unfold_sp_program_items, body_stmts, HASH, SEMI, LBRACE, RBRACE,
    lemma_err_at,
    block_comment_len, byte_at, count_newlines, digits_len, err_at, ident_at, ident_rest_len,
    is_digit, is_ident_char, is_ident_start, is_space, line_comment_len, line_end, line_start,
    loc_at, mantissa_len, skip_len, skipped, slice, sp_expect, sp_expect_keyword, sp_ident,
    sp_number, sp_peek_keyword, sp_peek_op, sp_string, string_body_len, SRes, BACKSLASH, CR,
    sp_expr, sp_ternary, sp_or, sp_or_rest, sp_and, sp_and_rest, sp_compare, sp_compare_rest, sp_add,
    sp_add_rest, sp_mul, sp_mul_rest, sp_pow, sp_unary, sp_postfix, sp_postfix_rest, sp_primary,
    sp_vector, sp_vector_items, sp_close_vector, sp_list_comp, field_index, digit_text, from,
    lemma_operator_bytes, AMP, BANG, CARET, COLON, COMMA, EQUALS, GREATER, LBRACKET, LESS, LPAREN,
    PERCENT, PIPE, QUESTION, RBRACKET, RPAREN, sp_arg_list, sp_arg_items, sp_arg,
    DOLLAR, DOT, MINUS, NEWLINE, PLUS, QUOTE, SLASH, SPACE, STAR, TAB, UNDERSCORE,
};
use crate::numeral::is_float_literal_bytes;
use crate::text::{lemma_after_ascii, lemma_text_bytes, text_of};

verus! {

/// A cursor over the bytes of a source text.
pub struct Parser<'a> {
    src: &'a [u8],
    pos: usize,
}

/// `res` is what the grammar result `expected` says, for a parse that moved
/// the cursor from `before` to `after`.
pub open spec fn expr_agrees(res: Result<Expr, ParseError>, before: nat, after: nat, expected: SRes<ExprV>) -> bool {
    match expected {
        Ok((n, v)) => res matches Ok(x) && x.view_expr() == v && after == before + n,
        Err(e) => res matches Err(x) && x.view_error() == e,
    }
}

/// As `expr_agrees`, for a token read as text.
pub open spec fn text_agrees(res: Result<String, ParseError>, before: nat, after: nat, expected: SRes<Seq<char>>) -> bool {
    match expected {
        Ok((n, v)) => res matches Ok(x) && x@ == v && after == before + n,
        Err(e) => res matches Err(x) && x.view_error() == e,
    }
}

/// As `expr_agrees`, for an argument.
pub open spec fn arg_agrees(res: Result<Arg, ParseError>, before: nat, after: nat, expected: SRes<ArgV>) -> bool {
    match expected {
        Ok((n, v)) => res matches Ok(x) && x.view_arg() == v && after == before + n,
        Err(e) => res matches Err(x) && x.view_error() == e,
    }
}

/// As `expr_agrees`, for an argument list.
pub open spec fn args_agree(res: Result<Vec<Arg>, ParseError>, before: nat, after: nat, expected: SRes<Seq<ArgV>>) -> bool {
    match expected {
        Ok((n, v)) => res matches Ok(x) && args_view(x@) == v && after == before + n,
        Err(e) => res matches Err(x) && x.view_error() == e,
    }
}

/// As `expr_agrees`, for a parameter list.
pub open spec fn params_agree(res: Result<Vec<Param>, ParseError>, before: nat, after: nat, expected: SRes<Seq<ParamV>>) -> bool {
    match expected {
        Ok((n, v)) => res matches Ok(x) && params_view(x@) == v && after == before + n,
        Err(e) => res matches Err(x) && x.view_error() == e,
    }
}

/// As `expr_agrees`, for a statement.
pub open spec fn stmt_agrees(res: Result<Statement, ParseError>, before: nat, after: nat, expected: SRes<StatementV>) -> bool {
    match expected {
        Ok((n, v)) => res matches Ok(x) && x.view_stmt() == v && after == before + n,
        Err(e) => res matches Err(x) && x.view_error() == e,
    }
}

/// A parsed expression, if there is one, holds only floating-point numerals.
pub open spec fn expr_numerals(res: Result<Expr, ParseError>) -> bool {
    res matches Ok(x) ==> expr_numerals_ok(x.view_expr())
}

/// A parsed statement, if there is one, holds only floating-point numerals.
pub open spec fn stmt_numerals(res: Result<Statement, ParseError>) -> bool {
    res matches Ok(x) ==> stmt_numerals_ok(x.view_stmt())
}

/// `res` is what the token result `expected` says.
pub open spec fn agrees_unit(
    res: Result<(), ParseError>,
    before: nat,
    after: nat,
    expected: Result<nat, ErrorV>,
) -> bool {
    match expected {
        Ok(n) => res is Ok && after == before + n,
        Err(e) => res matches Err(x) && x.view_error() == e,
    }
}

impl<'a> Parser<'a> {
    /// The source bytes.
    pub closed spec fn text(&self) -> Seq<u8> {
        self.src@
    }

    /// The cursor's byte offset.
    pub closed spec fn cursor(&self) -> nat {
        self.pos as nat
    }

    /// The cursor lies within a UTF-8 source whose length fits below
    /// `usize::MAX`.
    pub open spec fn wf(&self) -> bool {
        &&& self.cursor() <= self.text().len()
        &&& self.text().len() < usize::MAX
        &&& valid_utf8(self.text())
    }

    /// Moves the cursor without touching the source.
    pub open spec fn moved(&self, old: &Self) -> bool {
        &&& self.wf()
        &&& self.text() == old.text()
        &&& old.cursor() <= self.cursor()
    }

    pub fn new(s: &'a str) -> (p: Self)
        requires
            s.spec_bytes().len() < usize::MAX,
        ensures
            p.wf(),
            p.text() == s.spec_bytes(),
            p.cursor() == 0,
    {
        proof {
            encode_utf8_valid_utf8(s@);
        }
        Parser { src: s.as_bytes(), pos: 0 }
    }

    /// The byte under the cursor.
    pub fn peek(&self) -> (b: Option<u8>)
        requires
            self.wf(),
        ensures
            b == byte_at(self.text(), self.cursor()),
    {
        if self.pos < self.src.len() {
            Some(self.src[self.pos])
        } else {
            None
        }
    }

    /// The byte `off` bytes after the cursor.
    pub fn peek_at(&self, off: usize) -> (b: Option<u8>)
        requires
            self.wf(),
        ensures
            b == byte_at(self.text(), (self.cursor() + off) as nat),
    {
        if off < self.src.len() - self.pos {
            Some(self.src[self.pos + off])
        } else {
            None
        }
    }

    /// An identifier starts under the cursor.
    pub fn peek_is_ident(&self) -> (r: bool)
        requires
            self.wf(),
        ensures
            r == ident_at(self.text(), self.cursor()),
    {
        match self.peek() {
            Some(b) => is_ident_start_byte(b),
            None => false,
        }
    }

    /// Moves one byte forward, unless at the end.
    pub fn bump(&mut self)
        requires
            old(self).wf(),
        ensures
            final(self).wf(),
            final(self).text() == old(self).text(),
            final(self).cursor() == if old(self).cursor() < old(self).text().len() {
                old(self).cursor() + 1
            } else {
                old(self).cursor()
            },
    {
        if self.pos < self.src.len() {
            self.pos = self.pos + 1;
        }
    }

    pub fn eof(&self) -> (r: bool)
        requires
            self.wf(),
        ensures
            r == (self.cursor() >= self.text().len()),
    {
        self.pos >= self.src.len()
    }

    /// `op` stands under the cursor.
    pub fn peek_op(&self, op: &str) -> (r: bool)
        requires
            self.wf(),
        ensures
            r == sp_peek_op(self.text(), self.cursor(), op.spec_bytes()),
    {
        let bytes = op.as_bytes();
        if bytes.len() > self.src.len() - self.pos {
            return false;
        }
        let mut i: usize = 0;
        while i < bytes.len()
            invariant
                self.wf(),
                bytes@ == op.spec_bytes(),
                i <= bytes@.len(),
                self.pos + bytes@.len() <= self.src@.len(),
                forall|j: int| 0 <= j < i ==> self.src@[self.pos + j] == bytes@[j],
            decreases bytes@.len() - i,
        {
            if self.src[self.pos + i] != bytes[i] {
                let ghost sl = slice(self.src@, self.pos as nat, (self.pos + bytes@.len()) as nat);
                assert(sl[i as int] == self.src@[self.pos + i]);
                assert(sl != bytes@);
                return false;
            }
            i = i + 1;
        }
        assert(slice(self.src@, self.pos as nat, (self.pos + bytes@.len()) as nat) =~= bytes@);
        true
    }

    /// The keyword `kw` stands under the cursor, not followed by an
    /// identifier character.
    pub fn peek_keyword(&self, kw: &str) -> (r: bool)
        requires
            self.wf(),
        ensures
            r == sp_peek_keyword(self.text(), self.cursor(), kw.spec_bytes()),
    {
        if !self.peek_op(kw) {
            return false;
        }
        let n = kw.as_bytes().len();
        let next = self.peek_at(n);
        match next {
            Some(b) => !is_ident_char_byte(b),
            None => true,
        }
    }

    /// Skips whitespace, `//` line comments and `/* */` block comments.
    pub fn skip(&mut self)
        requires
            old(self).wf(),
        ensures
            final(self).moved(old(self)),
            final(self).cursor() == skipped(old(self).text(), old(self).cursor()),
    {
        loop
            invariant
                self.wf(),
                self.src@ == old(self).src@,
                old(self).pos <= self.pos,
                skipped(self.src@, old(self).pos as nat) == skipped(self.src@, self.pos as nat),
            ensures
                skip_len(self.src@, self.pos as nat) == 0,
            decreases self.src@.len() - self.pos,
        {
            let ghost round = self.pos;
            while matches!(self.peek(), Some(b) if is_space_byte(b))
                invariant
                    self.wf(),
                    self.src@ == old(self).src@,
                    old(self).pos <= round <= self.pos,
                    skipped(self.src@, old(self).pos as nat) == skipped(
                        self.src@,
                        self.pos as nat,
                    ),
                decreases self.src@.len() - self.pos,
            {
                self.bump();
            }
            let ghost start = self.pos as nat;
            assert(!(start < self.src@.len() && is_space(self.src@[start as int])));
            if self.peek() == Some(SLASH) && self.peek_at(1) == Some(SLASH) {
                self.pos = self.pos + 2;
                let ghost body = self.pos as nat;
                while !self.eof() && self.peek() != Some(NEWLINE)
                    invariant
                        self.wf(),
                        self.src@ == old(self).src@,
                        body <= self.pos,
                        line_comment_len(self.src@, body) == (self.pos - body) + line_comment_len(
                            self.src@,
                            self.pos as nat,
                        ),
                    decreases self.src@.len() - self.pos,
                {
                    self.bump();
                }
                assert(line_comment_len(self.src@, self.pos as nat) == 0);
                assert(skip_len(self.src@, start) == (self.pos - start) + skip_len(
                    self.src@,
                    self.pos as nat,
                ));
                continue;
            }
            if self.peek() == Some(SLASH) && self.peek_at(1) == Some(STAR) {
                self.pos = self.pos + 2;
                let ghost body = self.pos as nat;
                while !self.eof()
                    invariant_except_break
                        block_comment_len(self.src@, body) == (self.pos - body) + block_comment_len(
                            self.src@,
                            self.pos as nat,
                        ),
                    invariant
                        self.wf(),
                        self.src@ == old(self).src@,
                        body <= self.pos,
                    ensures
                        block_comment_len(self.src@, body) == self.pos - body,
                    decreases self.src@.len() - self.pos,
                {
                    if self.peek() == Some(STAR) && self.peek_at(1) == Some(SLASH) {
                        self.pos = self.pos + 2;
                        break;
                    }
                    self.bump();
                }
                assert(skip_len(self.src@, start) == (self.pos - start) + skip_len(
                    self.src@,
                    self.pos as nat,
                ));
                continue;
            }
            assert(skip_len(self.src@, self.pos as nat) == 0);
            break;
        }
    }

    /// The line, column and line text reported for the cursor's position.
    pub fn loc(&self) -> (l: Location)
        requires
            self.wf(),
        ensures
            l.view_location() == loc_at(self.text(), self.cursor()),
    {
        let mut line: usize = 1;
        let mut col: usize = 1;
        let mut start: usize = 0;
        let mut i: usize = 0;
        while i < self.pos
            invariant
                self.wf(),
                i <= self.pos,
                line == 1 + count_newlines(self.src@.take(i as int)),
                line <= i + 1,
                start == line_start(self.src@.take(i as int)),
                start <= i,
                col == i - start + 1,
                start == 0 || self.src@[start - 1] == NEWLINE,
            decreases self.pos - i,
        {
            assert(self.src@.take(i + 1).drop_last() =~= self.src@.take(i as int));
            if self.src[i] == NEWLINE {
                line = line + 1;
                col = 1;
                start = i + 1;
            } else {
                col = col + 1;
            }
            i = i + 1;
        }
        let mut end = self.pos;
        while end < self.src.len() && self.src[end] != NEWLINE
            invariant
                self.wf(),
                self.pos <= end <= self.src@.len(),
                line_end(self.src@, end as nat) == line_end(self.src@, self.pos as nat),
            decreases self.src@.len() - end,
        {
            end = end + 1;
        }
        proof {
            if start > 0 {
                lemma_after_ascii(self.src@, start - 1);
            }
        }
        let snippet = text_of(self.src, start, end);
        Location { line, column: col, snippet }
    }

    /// An error of the given kind at the cursor, with its location.
    pub fn err(&self, kind: ParseErrorKind) -> (e: ParseError)
        requires
            self.wf(),
        ensures
            e.view_error() == err_at(self.text(), kind.view_kind(), self.cursor()),
            e.pos == self.cursor(),
    {
        let location = self.loc();
        proof {
            lemma_err_at(self.src@, kind.view_kind(), self.pos as nat);
        }
        ParseError { kind, pos: self.pos, location: Some(location) }
    }

    /// Skips layout, then requires the byte `b`.
    pub fn expect(&mut self, b: u8) -> (res: Result<(), ParseError>)
        requires
            old(self).wf(),
        ensures
            final(self).moved(old(self)),
            agrees_unit(
                res,
                old(self).cursor(),
                final(self).cursor(),
                sp_expect(old(self).text(), old(self).cursor(), b),
            ),
            res is Err ==> final(self).cursor() == skipped(old(self).text(), old(self).cursor()),
            res matches Err(e) ==> e.pos == final(self).cursor(),
    {
        self.skip();
        if self.peek() == Some(b) {
            self.bump();
            Ok(())
        } else {
            let found = self.peek();
            Err(self.err(ParseErrorKind::ExpectedByte { expected: b, found }))
        }
    }

    /// Skips layout, then requires the keyword `kw`.
    pub fn expect_keyword(&mut self, kw: &str) -> (res: Result<(), ParseError>)
        requires
            old(self).wf(),
        ensures
            final(self).moved(old(self)),
            agrees_unit(
                res,
                old(self).cursor(),
                final(self).cursor(),
                sp_expect_keyword(old(self).text(), old(self).cursor(), kw),
            ),
            res is Err ==> final(self).cursor() == skipped(old(self).text(), old(self).cursor()),
            res matches Err(e) ==> e.pos == final(self).cursor(),
    {
        self.skip();
        if self.peek_keyword(kw) {
            self.pos = self.pos + kw.len();
            Ok(())
        } else {
            Err(
                ParseError {
                    kind: ParseErrorKind::ExpectedKeyword(kw.to_owned()),
                    pos: self.pos,
                    location: None,
                },
            )
        }
    }

    /// An identifier `[A-Za-z_$][A-Za-z0-9_$]*` under the cursor.
    pub fn parse_ident(&mut self) -> (res: Result<String, ParseError>)
        requires
            old(self).wf(),
        ensures
            final(self).moved(old(self)),
            text_agrees(
                res,
                old(self).cursor(),
                final(self).cursor(),
                sp_ident(old(self).text(), old(self).cursor()),
            ),
            res is Ok ==> final(self).cursor() > old(self).cursor(),
            res is Err ==> final(self).cursor() == old(self).cursor(),
            res matches Err(e) ==> e.pos == final(self).cursor(),
    {
        let start = self.pos;
        if !self.peek_is_ident() {
            return Err(self.err(ParseErrorKind::ExpectedIdentifier));
        }
        self.bump();
        while matches!(self.peek(), Some(b) if is_ident_char_byte(b))
            invariant
                self.wf(),
                self.src@ == old(self).src@,
                start < self.pos,
                is_ident_char(self.src@[self.pos - 1]),
                ident_rest_len(self.src@, (start + 1) as nat) == (self.pos - start - 1)
                    + ident_rest_len(self.src@, self.pos as nat),
            decreases self.src@.len() - self.pos,
        {
            self.bump();
        }
        proof {
            lemma_after_ascii(self.src@, self.pos - 1);
        }
        Ok(text_of(self.src, start, self.pos))
    }

    /// A string literal: its body as written, escapes kept.
    pub fn parse_string(&mut self) -> (res: Result<String, ParseError>)
        requires
            old(self).wf(),
        ensures
            final(self).moved(old(self)),
            text_agrees(
                res,
                old(self).cursor(),
                final(self).cursor(),
                sp_string(old(self).text(), old(self).cursor()),
            ),
            res is Ok ==> final(self).cursor() > old(self).cursor(),
            res matches Err(e) ==> final(self).cursor() == e.pos,
    {
        self.expect(QUOTE)?;
        let start = self.pos;
        while !self.eof() && self.peek() != Some(QUOTE)
            invariant
                self.wf(),
                self.src@ == old(self).src@,
                start <= self.pos,
                string_body_len(self.src@, start as nat) == (self.pos - start) + string_body_len(
                    self.src@,
                    self.pos as nat,
                ),
            decreases self.src@.len() - self.pos,
        {
            if self.peek() == Some(BACKSLASH) {
                self.bump();
            }
            self.bump();
        }
        proof {
            lemma_after_ascii(self.src@, start - 1);
        }
        let body = text_of(self.src, start, self.pos);
        self.expect(QUOTE)?;
        Ok(body)
    }

    /// A numeral under the cursor, which must be a valid floating-point
    /// literal.
    fn parse_number(&mut self) -> (res: Result<String, ParseError>)
        requires
            old(self).wf(),
            byte_at(old(self).text(), old(self).cursor()) matches Some(b) && (is_digit(b) || b
                == DOT),
        ensures
            final(self).moved(old(self)),
            text_agrees(
                res,
                old(self).cursor(),
                final(self).cursor(),
                sp_number(old(self).text(), old(self).cursor()),
            ),
            res is Ok ==> final(self).cursor() > old(self).cursor(),
            res matches Ok(tok) ==> numeral_ok(tok@),
    {
        let start = self.pos;
        while matches!(self.peek(), Some(b) if is_digit_byte(b) || b == DOT)
            invariant
                self.wf(),
                self.src@ == old(self).src@,
                start <= self.pos,
                mantissa_len(self.src@, start as nat) == (self.pos - start) + mantissa_len(
                    self.src@,
                    self.pos as nat,
                ),
                start < self.pos ==> self.src@[self.pos - 1] < 0x80,
            decreases self.src@.len() - self.pos,
        {
            self.bump();
        }
        let ghost m = self.pos;
        if matches!(self.peek(), Some(b) if b == 0x65u8 || b == 0x45u8) {
            self.bump();
            if matches!(self.peek(), Some(b) if b == PLUS || b == MINUS) {
                self.bump();
            }
            let ghost d = self.pos;
            while matches!(self.peek(), Some(b) if is_digit_byte(b))
                invariant
                    self.wf(),
                    self.src@ == old(self).src@,
                    d <= self.pos,
                    digits_len(self.src@, d as nat) == (self.pos - d) + digits_len(
                        self.src@,
                        self.pos as nat,
                    ),
                    self.src@[self.pos - 1] < 0x80,
                decreases self.src@.len() - self.pos,
            {
                self.bump();
            }
        }
        proof {
            lemma_after_ascii(self.src@, self.pos - 1);
        }
        let tok = text_of(self.src, start, self.pos);
        proof {
            lemma_text_bytes(self.src@, start as nat, self.pos as nat);
        }
        let bytes = vstd::slice::slice_subrange(self.src, start, self.pos);
        if is_float_literal_bytes(bytes) {
            Ok(tok)
        } else {
            Err(
                ParseError {
                    kind: ParseErrorKind::InvalidNumber(tok),
                    pos: self.pos,
                    location: None,
                },
            )
        }
    }
    // ---- expressions ----
    // precedence: ternary < or < and < comparison < add < mul < pow < unary < postfix < primary

    pub fn parse_expr(&mut self) -> (res: Result<Expr, ParseError>)
        requires
            old(self).wf(),
        ensures
            final(self).moved(old(self)),
            expr_agrees(
                res,
                old(self).cursor(),
                final(self).cursor(),
                sp_expr(old(self).text(), old(self).cursor()),
            ),
            res is Ok ==> final(self).cursor() > old(self).cursor(),
            expr_numerals(res),
        decreases old(self).text().len() - old(self).cursor(), 50int,
    {
        proof {
            unfold_sp_expr(self.src@, self.pos as nat);
        }
        self.parse_ternary()
    }

    fn parse_ternary(&mut self) -> (res: Result<Expr, ParseError>)
        requires
            old(self).wf(),
        ensures
            final(self).moved(old(self)),
            expr_agrees(
                res,
                old(self).cursor(),
                final(self).cursor(),
                sp_ternary(old(self).text(), old(self).cursor()),
            ),
            res is Ok ==> final(self).cursor() > old(self).cursor(),
            expr_numerals(res),
        decreases old(self).text().len() - old(self).cursor(), 49int,
    {
        proof {
            unfold_sp_ternary(self.src@, self.pos as nat);
        }
        let cond = self.parse_or()?;
        self.skip();
        if self.peek() == Some(QUESTION) {
            self.bump();
            let then_expr = self.parse_expr()?;
            self.skip();
            self.expect(COLON)?;
            let else_expr = self.parse_expr()?;
            return Ok(
                Expr::Ternary {
                    cond: Box::new(cond),
                    then_expr: Box::new(then_expr),
                    else_expr: Box::new(else_expr),
                },
            );
        }
        Ok(cond)
    }

    fn parse_or(&mut self) -> (res: Result<Expr, ParseError>)
        requires
            old(self).wf(),
        ensures
            final(self).moved(old(self)),
            expr_agrees(
                res,
                old(self).cursor(),
                final(self).cursor(),
                sp_or(old(self).text(), old(self).cursor()),
            ),
            res is Ok ==> final(self).cursor() > old(self).cursor(),
            expr_numerals(res),
        decreases old(self).text().len() - old(self).cursor(), 48int,
    {
        let ghost s = self.src@;
        let ghost p0 = self.pos as nat;
        proof {
            unfold_sp_or(s, p0);
        }
        let mut left = self.parse_and()?;
        loop
            invariant_except_break
                sp_or(s, p0) == from(p0, self.pos as nat, sp_or_rest(s, self.pos as nat, left.view_expr())),
            invariant
                self.moved(old(self)),
                p0 < self.pos,
                s == self.src@,
                p0 == old(self).pos,
                expr_numerals_ok(left.view_expr()),
            ensures
                sp_or(s, p0) == SRes::<ExprV>::Ok(((self.pos - p0) as nat, left.view_expr())),
            decreases self.src@.len() - self.pos,
        {
            let ghost p = self.pos as nat;
            self.skip();
            proof {
                unfold_sp_or_rest(s, p, left.view_expr());
                lemma_operator_bytes();
                lemma_peek_pair(s, self.pos as nat, PIPE, PIPE);
            }
            if self.peek_op("||") {
                self.pos = self.pos + 2;
                let right = self.parse_and()?;
                let ghost nl = bin(BinaryOp::Or, left.view_expr(), right.view_expr());
                proof {
                    lemma_from_from(p0, p, self.pos as nat, sp_or_rest(s, self.pos as nat, nl));
                }
                left = Expr::Binary { op: BinaryOp::Or, left: Box::new(left), right: Box::new(right) };
            } else {
                break;
            }
        }
        Ok(left)
    }

    fn parse_and(&mut self) -> (res: Result<Expr, ParseError>)
        requires
            old(self).wf(),
        ensures
            final(self).moved(old(self)),
            expr_agrees(
                res,
                old(self).cursor(),
                final(self).cursor(),
                sp_and(old(self).text(), old(self).cursor()),
            ),
            res is Ok ==> final(self).cursor() > old(self).cursor(),
            expr_numerals(res),
        decreases old(self).text().len() - old(self).cursor(), 46int,
    {
        let ghost s = self.src@;
        let ghost p0 = self.pos as nat;
        proof {
            unfold_sp_and(s, p0);
        }
        let mut left = self.parse_compare()?;
        loop
            invariant_except_break
                sp_and(s, p0) == from(p0, self.pos as nat, sp_and_rest(s, self.pos as nat, left.view_expr())),
            invariant
                self.moved(old(self)),
                p0 < self.pos,
                s == self.src@,
                p0 == old(self).pos,
                expr_numerals_ok(left.view_expr()),
            ensures
                sp_and(s, p0) == SRes::<ExprV>::Ok(((self.pos - p0) as nat, left.view_expr())),
            decreases self.src@.len() - self.pos,
        {
            let ghost p = self.pos as nat;
            self.skip();
            proof {
                unfold_sp_and_rest(s, p, left.view_expr());
                lemma_operator_bytes();
                lemma_peek_pair(s, self.pos as nat, AMP, AMP);
            }
            if self.peek_op("&&") {
                self.pos = self.pos + 2;
                let right = self.parse_compare()?;
                let ghost nl = bin(BinaryOp::And, left.view_expr(), right.view_expr());
                proof {
                    lemma_from_from(p0, p, self.pos as nat, sp_and_rest(s, self.pos as nat, nl));
                }
                left = Expr::Binary { op: BinaryOp::And, left: Box::new(left), right: Box::new(right) };
            } else {
                break;
            }
        }
        Ok(left)
    }

    fn parse_compare(&mut self) -> (res: Result<Expr, ParseError>)
        requires
            old(self).wf(),
        ensures
            final(self).moved(old(self)),
            expr_agrees(
                res,
                old(self).cursor(),
                final(self).cursor(),
                sp_compare(old(self).text(), old(self).cursor()),
            ),
            res is Ok ==> final(self).cursor() > old(self).cursor(),
            expr_numerals(res),
        decreases old(self).text().len() - old(self).cursor(), 44int,
    {
        let ghost s = self.src@;
        let ghost p0 = self.pos as nat;
        proof {
            unfold_sp_compare(s, p0);
        }
        let mut left = self.parse_add()?;
        loop
            invariant_except_break
                sp_compare(s, p0) == from(p0, self.pos as nat, sp_compare_rest(s, self.pos as nat, left.view_expr())),
            invariant
                self.moved(old(self)),
                p0 < self.pos,
                s == self.src@,
                p0 == old(self).pos,
                expr_numerals_ok(left.view_expr()),
            ensures
                sp_compare(s, p0) == SRes::<ExprV>::Ok(((self.pos - p0) as nat, left.view_expr())),
            decreases self.src@.len() - self.pos,
        {
            let ghost p = self.pos as nat;
            self.skip();
            let ghost q = self.pos as nat;
            proof {
                unfold_sp_compare_rest(s, p, left.view_expr());
                lemma_operator_bytes();
                lemma_peek_pair(s, q, EQUALS, EQUALS);
                lemma_peek_pair(s, q, BANG, EQUALS);
                lemma_peek_pair(s, q, LESS, EQUALS);
                lemma_peek_pair(s, q, GREATER, EQUALS);
            }
            let op = if self.peek_op("==") {
                self.pos = self.pos + 2;
                Some(BinaryOp::Eq)
            } else if self.peek_op("!=") {
                self.pos = self.pos + 2;
                Some(BinaryOp::Ne)
            } else if self.peek_op("<=") {
                self.pos = self.pos + 2;
                Some(BinaryOp::Le)
            } else if self.peek_op(">=") {
                self.pos = self.pos + 2;
                Some(BinaryOp::Ge)
            } else if self.peek() == Some(LESS) {
                self.bump();
                Some(BinaryOp::Lt)
            } else if self.peek() == Some(GREATER) {
                self.bump();
                Some(BinaryOp::Gt)
            } else {
                None
            };
            assert(match compare_op_at(s, q) {
                Some((o, k)) => op == Some(o) && self.pos == q + k,
                None => op is None,
            });
            if let Some(op) = op {
                let right = self.parse_add()?;
                let ghost nl = bin(op, left.view_expr(), right.view_expr());
                proof {
                    lemma_from_from(p0, p, self.pos as nat, sp_compare_rest(s, self.pos as nat, nl));
                }
                left = Expr::Binary { op, left: Box::new(left), right: Box::new(right) };
            } else {
                break;
            }
        }
        Ok(left)
    }

    fn parse_add(&mut self) -> (res: Result<Expr, ParseError>)
        requires
            old(self).wf(),
        ensures
            final(self).moved(old(self)),
            expr_agrees(
                res,
                old(self).cursor(),
                final(self).cursor(),
                sp_add(old(self).text(), old(self).cursor()),
            ),
            res is Ok ==> final(self).cursor() > old(self).cursor(),
            expr_numerals(res),
        decreases old(self).text().len() - old(self).cursor(), 42int,
    {
        let ghost s = self.src@;
        let ghost p0 = self.pos as nat;
        proof {
            unfold_sp_add(s, p0);
        }
        let mut left = self.parse_mul()?;
        loop
            invariant_except_break
                sp_add(s, p0) == from(p0, self.pos as nat, sp_add_rest(s, self.pos as nat, left.view_expr())),
            invariant
                self.moved(old(self)),
                p0 < self.pos,
                s == self.src@,
                p0 == old(self).pos,
                expr_numerals_ok(left.view_expr()),
            ensures
                sp_add(s, p0) == SRes::<ExprV>::Ok(((self.pos - p0) as nat, left.view_expr())),
            decreases self.src@.len() - self.pos,
        {
            let ghost p = self.pos as nat;
            self.skip();
            proof {
                unfold_sp_add_rest(s, p, left.view_expr());
            }
            let op = match self.peek() {
                Some(PLUS) => BinaryOp::Add,
                Some(MINUS) => BinaryOp::Sub,
                _ => break,
            };
            self.bump();
            let right = self.parse_mul()?;
            let ghost nl = bin(op, left.view_expr(), right.view_expr());
            proof {
                lemma_from_from(p0, p, self.pos as nat, sp_add_rest(s, self.pos as nat, nl));
            }
            left = Expr::Binary { op, left: Box::new(left), right: Box::new(right) };
        }
        Ok(left)
    }

    fn parse_mul(&mut self) -> (res: Result<Expr, ParseError>)
        requires
            old(self).wf(),
        ensures
            final(self).moved(old(self)),
            expr_agrees(
                res,
                old(self).cursor(),
                final(self).cursor(),
                sp_mul(old(self).text(), old(self).cursor()),
            ),
            res is Ok ==> final(self).cursor() > old(self).cursor(),
            expr_numerals(res),
        decreases old(self).text().len() - old(self).cursor(), 40int,
    {
        let ghost s = self.src@;
        let ghost p0 = self.pos as nat;
        proof {
            unfold_sp_mul(s, p0);
        }
        let mut left = self.parse_pow()?;
        loop
            invariant_except_break
                sp_mul(s, p0) == from(p0, self.pos as nat, sp_mul_rest(s, self.pos as nat, left.view_expr())),
            invariant
                self.moved(old(self)),
                p0 < self.pos,
                s == self.src@,
                p0 == old(self).pos,
                expr_numerals_ok(left.view_expr()),
            ensures
                sp_mul(s, p0) == SRes::<ExprV>::Ok(((self.pos - p0) as nat, left.view_expr())),
            decreases self.src@.len() - self.pos,
        {
            let ghost p = self.pos as nat;
            self.skip();
            proof {
                unfold_sp_mul_rest(s, p, left.view_expr());
            }
            let op = match self.peek() {
                Some(STAR) => BinaryOp::Mul,
                Some(SLASH) => BinaryOp::Div,
                Some(PERCENT) => BinaryOp::Mod,
                _ => break,
            };
            self.bump();
            let right = self.parse_pow()?;
            let ghost nl = bin(op, left.view_expr(), right.view_expr());
            proof {
                lemma_from_from(p0, p, self.pos as nat, sp_mul_rest(s, self.pos as nat, nl));
            }
            left = Expr::Binary { op, left: Box::new(left), right: Box::new(right) };
        }
        Ok(left)
    }

    /// Exponentiation groups to the right: `a^b^c` is `a^(b^c)`.
    fn parse_pow(&mut self) -> (res: Result<Expr, ParseError>)
        requires
            old(self).wf(),
        ensures
            final(self).moved(old(self)),
            expr_agrees(
                res,
                old(self).cursor(),
                final(self).cursor(),
                sp_pow(old(self).text(), old(self).cursor()),
            ),
            res is Ok ==> final(self).cursor() > old(self).cursor(),
            expr_numerals(res),
        decreases old(self).text().len() - old(self).cursor(), 38int,
    {
        proof {
            unfold_sp_pow(self.src@, self.pos as nat);
        }
        let left = self.parse_unary()?;
        self.skip();
        if self.peek() == Some(CARET) {
            self.bump();
            let right = self.parse_pow()?;
            return Ok(Expr::Binary { op: BinaryOp::Pow, left: Box::new(left), right: Box::new(right) });
        }
        Ok(left)
    }

    fn parse_unary(&mut self) -> (res: Result<Expr, ParseError>)
        requires
            old(self).wf(),
        ensures
            final(self).moved(old(self)),
            expr_agrees(
                res,
                old(self).cursor(),
                final(self).cursor(),
                sp_unary(old(self).text(), old(self).cursor()),
            ),
            res is Ok ==> final(self).cursor() > old(self).cursor(),
            expr_numerals(res),
        decreases old(self).text().len() - old(self).cursor(), 37int,
    {
        proof {
            unfold_sp_unary(self.src@, self.pos as nat);
        }
        self.skip();
        if self.peek() == Some(MINUS) {
            self.bump();
            let expr = self.parse_unary()?;
            return Ok(Expr::Unary { op: UnaryOp::Neg, expr: Box::new(expr) });
        }
        if self.peek() == Some(BANG) {
            self.bump();
            let expr = self.parse_unary()?;
            return Ok(Expr::Unary { op: UnaryOp::Not, expr: Box::new(expr) });
        }
        self.parse_postfix()
    }

    fn parse_postfix(&mut self) -> (res: Result<Expr, ParseError>)
        requires
            old(self).wf(),
        ensures
            final(self).moved(old(self)),
            expr_agrees(
                res,
                old(self).cursor(),
                final(self).cursor(),
                sp_postfix(old(self).text(), old(self).cursor()),
            ),
            res is Ok ==> final(self).cursor() > old(self).cursor(),
            expr_numerals(res),
        decreases old(self).text().len() - old(self).cursor(), 36int,
    {
        let ghost s = self.src@;
        let ghost p0 = self.pos as nat;
        proof {
            unfold_sp_postfix(s, p0);
        }
        let mut expr = self.parse_primary()?;
        loop
            invariant_except_break
                sp_postfix(s, p0) == from(p0, self.pos as nat, sp_postfix_rest(s, self.pos as nat, expr.view_expr())),
            invariant
                self.moved(old(self)),
                p0 < self.pos,
                s == self.src@,
                p0 == old(self).pos,
                expr_numerals_ok(expr.view_expr()),
            ensures
                sp_postfix(s, p0) == SRes::<ExprV>::Ok(((self.pos - p0) as nat, expr.view_expr())),
            decreases self.src@.len() - self.pos,
        {
            let ghost p = self.pos as nat;
            self.skip();
            proof {
                unfold_sp_postfix_rest(s, p, expr.view_expr());
            }
            if self.peek() == Some(LBRACKET) {
                self.bump();
                let index = self.parse_expr()?;
                self.expect(RBRACKET)?;
                let ghost ne = ExprV::Index { base: Box::new(expr.view_expr()), index: Box::new(index.view_expr()) };
                proof {
                    lemma_from_from(p0, p, self.pos as nat, sp_postfix_rest(s, self.pos as nat, ne));
                }
                expr = Expr::Index { base: Box::new(expr), index: Box::new(index) };
            } else if self.peek() == Some(DOT) {
                self.bump();
                let start = self.pos;
                let field = self.parse_ident()?;
                let idx = field_number(self.src, start, self.pos);
                match idx {
                    Some(k) => {
                        let ghost ne = ExprV::Index {
                            base: Box::new(expr.view_expr()),
                            index: Box::new(ExprV::Number(k@)),
                        };
                        proof {
                            lemma_from_from(p0, p, self.pos as nat, sp_postfix_rest(s, self.pos as nat, ne));
                        }
                        proof {
                            lemma_digit_numerals();
                            assert(numeral_ok(digit_text(field_index(slice(self.src@, start as nat, self.pos as nat))->Some_0)));
                        }
                        let num = Expr::Number(k);
                        assert(num.view_expr() == ExprV::Number(k@));
                        assert(expr_numerals_ok(num.view_expr()));
                        expr = Expr::Index { base: Box::new(expr), index: Box::new(num) };
                    },
                    None => {
                        return Err(self.err(ParseErrorKind::UnknownField(field)));
                    },
                }
            } else {
                break;
            }
        }
        Ok(expr)
    }

    fn parse_primary(&mut self) -> (res: Result<Expr, ParseError>)
        requires
            old(self).wf(),
        ensures
            final(self).moved(old(self)),
            expr_agrees(
                res,
                old(self).cursor(),
                final(self).cursor(),
                sp_primary(old(self).text(), old(self).cursor()),
            ),
            res is Ok ==> final(self).cursor() > old(self).cursor(),
            expr_numerals(res),
        decreases old(self).text().len() - old(self).cursor(), 34int,
    {
        proof {
            unfold_sp_primary(self.src@, self.pos as nat);
        }
        self.skip();
        match self.peek() {
            Some(LBRACKET) => self.parse_vector_or_range_or_comp(),
            Some(LPAREN) => {
                self.bump();
                let e = self.parse_expr()?;
                self.expect(RPAREN)?;
                Ok(e)
            },
            Some(QUOTE) => {
                let text = self.parse_string()?;
                Ok(Expr::String(text))
            },
            Some(b) => {
                if is_digit_byte(b) || b == DOT {
                    let text = self.parse_number()?;
                    Ok(Expr::Number(text))
                } else if is_ident_start_byte(b) {
                    self.parse_name_or_call()
                } else {
                    Err(self.err(ParseErrorKind::Unexpected { found: Some(b) }))
                }
            },
            None => Err(self.err(ParseErrorKind::Unexpected { found: None })),
        }
    }

    /// An identifier under the cursor, read as an expression: `true`,
    /// `false`, a call `name(args)` or a name.
    fn parse_name_or_call(&mut self) -> (res: Result<Expr, ParseError>)
        requires
            old(self).wf(),
            ident_at(old(self).text(), old(self).cursor()),
        ensures
            final(self).moved(old(self)),
            expr_agrees(
                res,
                old(self).cursor(),
                final(self).cursor(),
                sp_name_or_call(old(self).text(), old(self).cursor()),
            ),
            res is Ok ==> final(self).cursor() > old(self).cursor(),
            expr_numerals(res),
        decreases old(self).text().len() - old(self).cursor(), 30int,
    {
        proof {
            unfold_sp_name_or_call(self.src@, self.pos as nat);
        }
        let start = self.pos;
        let name = self.parse_ident()?;
        if bytes_equal(self.src, start, self.pos, "true") {
            return Ok(Expr::Bool(true));
        }
        if bytes_equal(self.src, start, self.pos, "false") {
            return Ok(Expr::Bool(false));
        }
        self.skip();
        // function call in expression position
        if self.peek() == Some(LPAREN) {
            self.bump();
            let args = self.parse_arg_list()?;
            self.expect(RPAREN)?;
            let ghost av = args_view(args@);
            let res = Expr::Call { name, args };
            assert(res.view_expr() == ExprV::Call { name: name@, args: av }) by {
                assert(res.view_expr()->Call_args =~= av);
            }
            proof {
                lemma_args_numerals(av);
            }
            return Ok(res);
        }
        Ok(Expr::Ident(name))
    }

    fn parse_vector_or_range_or_comp(&mut self) -> (res: Result<Expr, ParseError>)
        requires
            old(self).wf(),
        ensures
            final(self).moved(old(self)),
            expr_agrees(
                res,
                old(self).cursor(),
                final(self).cursor(),
                sp_vector(old(self).text(), old(self).cursor()),
            ),
            res is Ok ==> final(self).cursor() > old(self).cursor(),
            expr_numerals(res),
        decreases old(self).text().len() - old(self).cursor(), 33int,
    {
        let ghost s = self.src@;
        let ghost p0 = self.pos as nat;
        proof {
            unfold_sp_vector(s, p0);
        }
        self.expect(LBRACKET)?;
        self.skip();

        // list comprehension: [ for (x = r) expr ]
        if self.peek_keyword("for") {
            return self.parse_list_comp();
        }

        if self.peek() == Some(RBRACKET) {
            self.bump();
            let empty: Vec<Expr> = Vec::new();
            let res = Expr::Vector(empty);
            assert(res.view_expr() == ExprV::Vector(Seq::empty())) by {
                assert(res.view_expr()->Vector_0 =~= Seq::<ExprV>::empty());
            }
            assert(exprs_numerals_ok(Seq::<ExprV>::empty()));
            return Ok(res);
        }

        let first = self.parse_expr()?;
        self.skip();

        // range: [start : end] or [start : step : end]
        if self.peek() == Some(COLON) {
            self.bump();
            let second = self.parse_expr()?;
            self.skip();
            if self.peek() == Some(COLON) {
                self.bump();
                let end = self.parse_expr()?;
                self.skip();
                self.expect(RBRACKET)?;
                return Ok(
                    Expr::Range {
                        start: Box::new(first),
                        step: Some(Box::new(second)),
                        end: Box::new(end),
                    },
                );
            }
            self.expect(RBRACKET)?;
            return Ok(Expr::Range { start: Box::new(first), step: None, end: Box::new(second) });
        }

        // vector
        let ghost r0 = self.pos as nat;
        let mut elems: Vec<Expr> = Vec::new();
        let ghost v0 = first.view_expr();
        elems.push(first);
        proof {
            assert(exprs_view(elems@) =~= seq![v0]);
        }
        let ghost target = sp_vector_items(s, r0, seq![v0]);
        assert(sp_vector(s, p0) == from(p0, r0, target));
        loop
            invariant_except_break
                target == from(r0, self.pos as nat, sp_vector_items(s, self.pos as nat, exprs_view(elems@))),
            invariant
                s == self.src@,
                self.moved(old(self)),
                p0 == old(self).pos,
                p0 < r0 <= self.pos,
                sp_vector(s, p0) == from(p0, r0, target),
                forall|i: int| 0 <= i < elems@.len() ==> expr_numerals_ok(#[trigger] exprs_view(elems@)[i]),
            ensures
                target == from(r0, self.pos as nat, sp_close_vector(s, self.pos as nat, exprs_view(elems@))),
            decreases self.src@.len() - self.pos,
        {
            let ghost here = self.pos as nat;
            proof {
                unfold_sp_vector_items(s, here, exprs_view(elems@));
            }
            if self.peek() != Some(COMMA) {
                break;
            }
            self.bump();
            self.skip();
            proof {
                lemma_from_from(r0, here, self.pos as nat, sp_close_vector(s, self.pos as nat, exprs_view(elems@)));
            }
            if self.peek() == Some(RBRACKET) {
                break;
            }
            let e = self.parse_expr()?;
            let ghost ev = e.view_expr();
            let ghost before = exprs_view(elems@);
            elems.push(e);
            proof {
                assert(exprs_view(elems@) =~= before.push(ev));
            }
            self.skip();
            proof {
                lemma_from_from(r0, here, self.pos as nat, sp_vector_items(s, self.pos as nat, exprs_view(elems@)));
            }
        }
        self.expect(RBRACKET)?;
        let res = Expr::Vector(elems);
        assert(res.view_expr() == ExprV::Vector(exprs_view(elems@))) by {
            assert(res.view_expr()->Vector_0 =~= exprs_view(elems@));
        }
        proof {
            lemma_exprs_numerals(exprs_view(elems@));
        }
        Ok(res)
    }

    /// `[ for (name = range) body ]`, at the `for`.
    fn parse_list_comp(&mut self) -> (res: Result<Expr, ParseError>)
        requires
            old(self).wf(),
        ensures
            final(self).moved(old(self)),
            expr_agrees(
                res,
                old(self).cursor(),
                final(self).cursor(),
                sp_list_comp(old(self).text(), old(self).cursor()),
            ),
            res is Ok ==> final(self).cursor() > old(self).cursor(),
            expr_numerals(res),
        decreases old(self).text().len() - old(self).cursor(), 32int,
    {
        proof {
            unfold_sp_list_comp(self.src@, self.pos as nat);
        }
        self.expect_keyword("for")?;
        self.skip();
        self.expect(LPAREN)?;
        let name = self.parse_ident()?;
        self.skip();
        self.expect(EQUALS)?;
        let range = self.parse_expr()?;
        self.expect(RPAREN)?;
        self.skip();
        let body = self.parse_expr()?;
        self.skip();
        self.expect(RBRACKET)?;
        Ok(Expr::ListComp { name, range: Box::new(range), body: Box::new(body) })
    }

    // ---- arguments ----

    fn parse_arg_list(&mut self) -> (res: Result<Vec<Arg>, ParseError>)
        requires
            old(self).wf(),
        ensures
            final(self).moved(old(self)),
            args_agree(
                res,
                old(self).cursor(),
                final(self).cursor(),
                sp_arg_list(old(self).text(), old(self).cursor()),
            ),
            res matches Ok(v) ==> forall|i: int| 0 <= i < v@.len() ==> arg_numerals_ok(#[trigger] args_view(v@)[i]),
        decreases old(self).text().len() - old(self).cursor(), 54int,
    {
        let ghost s = self.src@;
        let ghost p0 = self.pos as nat;
        proof {
            unfold_sp_arg_list(s, p0);
        }
        self.skip();
        let mut args: Vec<Arg> = Vec::new();
        if self.peek() == Some(RPAREN) {
            proof {
                assert(args_view(args@) =~= Seq::empty());
            }
            return Ok(args);
        }
        let ghost q0 = self.pos as nat;
        let ghost target = sp_arg_items(s, q0, Seq::empty());
        proof {
            assert(args_view(args@) =~= Seq::empty());
        }
        loop
            invariant_except_break
                target == from(q0, self.pos as nat, sp_arg_items(s, self.pos as nat, args_view(args@))),
            invariant
                s == self.src@,
                self.moved(old(self)),
                p0 == old(self).pos,
                q0 <= self.pos,
                sp_arg_list(s, p0) == from(p0, q0, target),
                forall|i: int| 0 <= i < args@.len() ==> arg_numerals_ok(#[trigger] args_view(args@)[i]),
            ensures
                target == SRes::<Seq<ArgV>>::Ok(((self.pos - q0) as nat, args_view(args@))),
            decreases self.src@.len() - self.pos,
        {
            let ghost here = self.pos as nat;
            proof {
                unfold_sp_arg_items(s, here, args_view(args@));
            }
            let a = self.parse_arg()?;
            let ghost av = a.view_arg();
            let ghost before = args_view(args@);
            args.push(a);
            proof {
                assert(args_view(args@) =~= before.push(av));
            }
            self.skip();
            if self.peek() == Some(COMMA) {
                self.bump();
                self.skip();
                proof {
                    lemma_from_from(q0, here, self.pos as nat, sp_arg_items(s, self.pos as nat, args_view(args@)));
                }
                continue;
            }
            break;
        }
        Ok(args)
    }

    fn parse_arg(&mut self) -> (res: Result<Arg, ParseError>)
        requires
            old(self).wf(),
        ensures
            final(self).moved(old(self)),
            arg_agrees(
                res,
                old(self).cursor(),
                final(self).cursor(),
                sp_arg(old(self).text(), old(self).cursor()),
            ),
            res is Ok ==> final(self).cursor() > old(self).cursor(),
            res matches Ok(a) ==> arg_numerals_ok(a.view_arg()),
        decreases old(self).text().len() - old(self).cursor(), 52int,
    {
        proof {
            unfold_sp_arg(self.src@, self.pos as nat);
        }
        self.skip();
        let save = self.pos;
        if self.peek_is_ident() {
            let name = self.parse_ident()?;
            self.skip();
            if self.peek() == Some(EQUALS) {
                self.bump();
                let expr = self.parse_expr()?;
                return Ok(Arg::Named(name, expr));
            }
            self.pos = save;
        }
        Ok(Arg::Positional(self.parse_expr()?))
    }

    // ---- statements ----

    fn parse_statement(&mut self) -> (res: Result<Statement, ParseError>)
        requires
            old(self).wf(),
        ensures
            final(self).moved(old(self)),
            stmt_agrees(
                res,
                old(self).cursor(),
                final(self).cursor(),
                sp_statement(old(self).text(), old(self).cursor()),
            ),
            res is Ok ==> final(self).cursor() > old(self).cursor(),
            stmt_numerals(res),
        decreases old(self).text().len() - old(self).cursor(), 70int,
    {
        proof {
            unfold_sp_statement(self.src@, self.pos as nat);
        }
        self.skip();
        if self.peek() == Some(LBRACE) {
            return self.parse_block();
        }
        // include <file> / use <file>: accepted and ignored
        if self.peek_keyword("include") || self.peek_keyword("use") {
            return self.parse_include_or_use();
        }
        // modifiers % * ! # before a statement: the statement itself is read
        if matches!(self.peek(), Some(b) if b == PERCENT || b == STAR || b == BANG || b == HASH) {
            self.bump();
            self.skip();
            return self.parse_statement();
        }
        if self.peek_keyword("module") {
            return self.parse_module_def();
        }
        if self.peek_keyword("function") {
            return self.parse_function_def();
        }
        if self.peek_keyword("if") {
            return self.parse_if();
        }
        if self.peek_keyword("for") || self.peek_keyword("intersection_for") || self.peek_keyword(
            "union_for",
        ) {
            return self.parse_for_any();
        }
        if self.peek_keyword("let") || self.peek_keyword("assign") {
            return self.parse_let();
        }
        if self.peek_keyword("assert") {
            return self.parse_assert();
        }
        // assignment `name = expr;`, or a module call `name(...)`
        if self.peek_is_ident() {
            let save = self.pos;
            let name = self.parse_ident()?;
            self.skip();
            if self.peek() == Some(EQUALS) {
                self.bump();
                let value = self.parse_expr()?;
                self.skip();
                if self.peek() == Some(SEMI) {
                    self.bump();
                }
                return Ok(Statement::Assign { name, value });
            }
            self.pos = save;
            return self.parse_module_call();
        }
        // empty statement
        if self.peek() == Some(SEMI) {
            self.bump();
            return Ok(empty_block());
        }
        // expression statement
        let e = self.parse_expr()?;
        self.skip();
        if self.peek() == Some(SEMI) {
            self.bump();
        }
        Ok(Statement::ExprStmt(e))
    }

    fn parse_include_or_use(&mut self) -> (res: Result<Statement, ParseError>)
        requires
            old(self).wf(),
        ensures
            final(self).moved(old(self)),
            stmt_agrees(
                res,
                old(self).cursor(),
                final(self).cursor(),
                sp_include(old(self).text(), old(self).cursor()),
            ),
            res is Ok ==> final(self).cursor() > old(self).cursor(),
            stmt_numerals(res),
    {
        if self.peek_keyword("include") {
            self.expect_keyword("include")?;
        } else {
            self.expect_keyword("use")?;
        }
        self.skip();
        let ghost q = self.pos as nat;
        let ghost s = self.src@;
        if self.peek() == Some(LESS) {
            self.bump();
            let ghost start = self.pos as nat;
            while !self.eof() && self.peek() != Some(GREATER)
                invariant
                    self.wf(),
                    self.src@ == s,
                    old(self).pos <= start <= self.pos,
                    angle_body_len(s, start) == (self.pos - start) + angle_body_len(s, self.pos as nat),
                decreases self.src@.len() - self.pos,
            {
                self.bump();
            }
            self.expect(GREATER)?;
        } else if self.peek() == Some(QUOTE) {
            let _ = self.parse_string()?;
        } else {
            return Err(self.err(ParseErrorKind::ExpectedIncludePath));
        }
        self.skip();
        if self.peek() == Some(SEMI) {
            self.bump();
        }
        Ok(empty_block())
    }

    fn parse_let(&mut self) -> (res: Result<Statement, ParseError>)
        requires
            old(self).wf(),
        ensures
            final(self).moved(old(self)),
            stmt_agrees(
                res,
                old(self).cursor(),
                final(self).cursor(),
                sp_let(old(self).text(), old(self).cursor()),
            ),
            res is Ok ==> final(self).cursor() > old(self).cursor(),
            stmt_numerals(res),
        decreases old(self).text().len() - old(self).cursor(), 60int,
    {
        let ghost s = self.src@;
        let ghost p0 = self.pos as nat;
        proof {
            unfold_sp_let(s, p0);
        }
        if self.peek_keyword("assign") {
            self.expect_keyword("assign")?;
        } else {
            self.expect_keyword("let")?;
        }
        self.skip();
        self.expect(LPAREN)?;
        let mut assigns: Vec<Statement> = Vec::new();
        self.skip();
        let ghost q0 = self.pos as nat;
        let ghost target = sp_let_items(s, q0, Seq::empty());
        proof {
            assert(stmts_view(assigns@) =~= Seq::empty());
        }
        loop
            invariant_except_break
                target == from(q0, self.pos as nat, sp_let_items(s, self.pos as nat, stmts_view(assigns@))),
            invariant
                s == self.src@,
                self.moved(old(self)),
                p0 == old(self).pos,
                p0 < q0 <= self.pos,
                target is Err ==> sp_let(s, p0) == SRes::<StatementV>::Err(target->Err_0),
                forall|i: int| 0 <= i < assigns@.len() ==> stmt_numerals_ok(#[trigger] stmts_view(assigns@)[i]),
            ensures
                target == SRes::<Seq<StatementV>>::Ok(((self.pos - q0) as nat, stmts_view(assigns@))),
            decreases self.src@.len() - self.pos,
        {
            let ghost here = self.pos as nat;
            proof {
                unfold_sp_let_items(s, here, stmts_view(assigns@));
            }
            if self.peek() == Some(RPAREN) || self.eof() {
                break;
            }
            let name = self.parse_ident()?;
            self.skip();
            self.expect(EQUALS)?;
            let value = self.parse_expr()?;
            let ghost before = stmts_view(assigns@);
            let st = Statement::Assign { name, value };
            let ghost sv = st.view_stmt();
            assigns.push(st);
            proof {
                assert(stmts_view(assigns@) =~= before.push(sv));
            }
            self.skip();
            if self.peek() == Some(COMMA) {
                self.bump();
                self.skip();
                proof {
                    lemma_from_from(q0, here, self.pos as nat, sp_let_items(s, self.pos as nat, stmts_view(assigns@)));
                }
            } else {
                break;
            }
        }
        self.expect(RPAREN)?;
        self.skip();
        let body = self.parse_statement()?;
        let ghost before = stmts_view(assigns@);
        let ghost bv = body.view_stmt();
        assigns.push(body);
        proof {
            assert(stmts_view(assigns@) =~= before.push(bv));
        }
        proof {
            assert forall|i: int| 0 <= i < assigns@.len() implies stmt_numerals_ok(#[trigger] stmts_view(assigns@)[i]) by {
                if i < assigns@.len() - 1 {
                    assert(stmts_view(assigns@)[i] == before[i]);
                }
            }
            lemma_stmts_numerals(stmts_view(assigns@));
        }
        Ok(block_of(assigns))
    }

    fn parse_assert(&mut self) -> (res: Result<Statement, ParseError>)
        requires
            old(self).wf(),
        ensures
            final(self).moved(old(self)),
            stmt_agrees(
                res,
                old(self).cursor(),
                final(self).cursor(),
                sp_assert(old(self).text(), old(self).cursor()),
            ),
            res is Ok ==> final(self).cursor() > old(self).cursor(),
            stmt_numerals(res),
        decreases old(self).text().len() - old(self).cursor(), 60int,
    {
        proof {
            unfold_sp_assert(self.src@, self.pos as nat);
        }
        self.expect_keyword("assert")?;
        self.skip();
        self.expect(LPAREN)?;
        let _ = self.parse_expr()?;
        self.skip();
        if self.peek() == Some(COMMA) {
            self.bump();
            let _ = self.parse_expr()?;
        }
        self.expect(RPAREN)?;
        self.skip();
        if self.peek() == Some(SEMI) {
            self.bump();
        }
        Ok(empty_block())
    }

    fn parse_module_def(&mut self) -> (res: Result<Statement, ParseError>)
        requires
            old(self).wf(),
        ensures
            final(self).moved(old(self)),
            stmt_agrees(
                res,
                old(self).cursor(),
                final(self).cursor(),
                sp_module_def(old(self).text(), old(self).cursor()),
            ),
            res is Ok ==> final(self).cursor() > old(self).cursor(),
            stmt_numerals(res),
        decreases old(self).text().len() - old(self).cursor(), 60int,
    {
        proof {
            unfold_sp_module_def(self.src@, self.pos as nat);
        }
        self.expect_keyword("module")?;
        self.skip();
        let name = self.parse_ident()?;
        self.skip();
        self.expect(LPAREN)?;
        let params = self.parse_params()?;
        self.expect(RPAREN)?;
        self.skip();
        let st = self.parse_statement()?;
        let body = into_body(st);
        let ghost pv = params_view(params@);
        let res = Statement::ModuleDef { name, params, body };
        assert(res.view_stmt() == StatementV::ModuleDef {
            name: name@,
            params: pv,
            body: stmts_view(body@),
        }) by {
            assert(res.view_stmt()->ModuleDef_body =~= stmts_view(body@));
        }
        proof {
            lemma_stmts_numerals(stmts_view(body@));
        }
        Ok(res)
    }

    fn parse_function_def(&mut self) -> (res: Result<Statement, ParseError>)
        requires
            old(self).wf(),
        ensures
            final(self).moved(old(self)),
            stmt_agrees(
                res,
                old(self).cursor(),
                final(self).cursor(),
                sp_function_def(old(self).text(), old(self).cursor()),
            ),
            res is Ok ==> final(self).cursor() > old(self).cursor(),
            stmt_numerals(res),
        decreases old(self).text().len() - old(self).cursor(), 60int,
    {
        proof {
            unfold_sp_function_def(self.src@, self.pos as nat);
        }
        self.expect_keyword("function")?;
        self.skip();
        let name = self.parse_ident()?;
        self.skip();
        self.expect(LPAREN)?;
        let params = self.parse_params()?;
        self.expect(RPAREN)?;
        self.skip();
        self.expect(EQUALS)?;
        let body = self.parse_expr()?;
        self.skip();
        if self.peek() == Some(SEMI) {
            self.bump();
        }
        Ok(Statement::FunctionDef { name, params, body })
    }

    fn parse_params(&mut self) -> (res: Result<Vec<Param>, ParseError>)
        requires
            old(self).wf(),
        ensures
            final(self).moved(old(self)),
            params_agree(
                res,
                old(self).cursor(),
                final(self).cursor(),
                sp_params(old(self).text(), old(self).cursor()),
            ),
            res matches Ok(v) ==> forall|i: int| 0 <= i < v@.len() ==> param_numerals_ok(#[trigger] params_view(v@)[i]),
        decreases old(self).text().len() - old(self).cursor(), 56int,
    {
        let ghost s = self.src@;
        let ghost p0 = self.pos as nat;
        proof {
            unfold_sp_params(s, p0);
        }
        self.skip();
        let mut params: Vec<Param> = Vec::new();
        if self.peek() == Some(RPAREN) {
            proof {
                assert(params_view(params@) =~= Seq::empty());
            }
            return Ok(params);
        }
        let ghost q0 = self.pos as nat;
        let ghost target = sp_param_items(s, q0, Seq::empty());
        proof {
            assert(params_view(params@) =~= Seq::empty());
        }
        loop
            invariant_except_break
                target == from(q0, self.pos as nat, sp_param_items(s, self.pos as nat, params_view(params@))),
            invariant
                s == self.src@,
                self.moved(old(self)),
                p0 == old(self).pos,
                q0 <= self.pos,
                sp_params(s, p0) == from(p0, q0, target),
                forall|i: int| 0 <= i < params@.len() ==> param_numerals_ok(#[trigger] params_view(params@)[i]),
            ensures
                target == SRes::<Seq<ParamV>>::Ok(((self.pos - q0) as nat, params_view(params@))),
            decreases self.src@.len() - self.pos,
        {
            let ghost here = self.pos as nat;
            proof {
                unfold_sp_param_items(s, here, params_view(params@));
            }
            let name = self.parse_ident()?;
            self.skip();
            let default = if self.peek() == Some(EQUALS) {
                self.bump();
                Some(self.parse_expr()?)
            } else {
                None
            };
            let param = Param { name, default };
            let ghost pv = param.view_param();
            let ghost before = params_view(params@);
            params.push(param);
            proof {
                assert(params_view(params@) =~= before.push(pv));
            }
            self.skip();
            if self.peek() == Some(COMMA) {
                self.bump();
                self.skip();
                proof {
                    lemma_from_from(q0, here, self.pos as nat, sp_param_items(s, self.pos as nat, params_view(params@)));
                }
                continue;
            }
            break;
        }
        Ok(params)
    }

    fn parse_if(&mut self) -> (res: Result<Statement, ParseError>)
        requires
            old(self).wf(),
        ensures
            final(self).moved(old(self)),
            stmt_agrees(
                res,
                old(self).cursor(),
                final(self).cursor(),
                sp_if(old(self).text(), old(self).cursor()),
            ),
            res is Ok ==> final(self).cursor() > old(self).cursor(),
            stmt_numerals(res),
        decreases old(self).text().len() - old(self).cursor(), 60int,
    {
        proof {
            unfold_sp_if(self.src@, self.pos as nat);
        }
        self.expect_keyword("if")?;
        self.skip();
        self.expect(LPAREN)?;
        let cond = self.parse_expr()?;
        self.expect(RPAREN)?;
        self.skip();
        let then_branch = Box::new(self.parse_statement()?);
        self.skip();
        let else_branch = if self.peek_keyword("else") {
            self.expect_keyword("else")?;
            self.skip();
            Some(Box::new(self.parse_statement()?))
        } else {
            None
        };
        Ok(Statement::If { cond, then_branch, else_branch })
    }

    fn parse_for_any(&mut self) -> (res: Result<Statement, ParseError>)
        requires
            old(self).wf(),
        ensures
            final(self).moved(old(self)),
            stmt_agrees(
                res,
                old(self).cursor(),
                final(self).cursor(),
                sp_for(old(self).text(), old(self).cursor()),
            ),
            res is Ok ==> final(self).cursor() > old(self).cursor(),
            stmt_numerals(res),
        decreases old(self).text().len() - old(self).cursor(), 60int,
    {
        proof {
            unfold_sp_for(self.src@, self.pos as nat);
        }
        if self.peek_keyword("intersection_for") {
            self.expect_keyword("intersection_for")?;
        } else if self.peek_keyword("union_for") {
            self.expect_keyword("union_for")?;
        } else {
            self.expect_keyword("for")?;
        }
        self.skip();
        self.expect(LPAREN)?;
        let name = self.parse_ident()?;
        self.skip();
        self.expect(EQUALS)?;
        let range = self.parse_expr()?;
        self.expect(RPAREN)?;
        self.skip();
        let body = Box::new(self.parse_statement()?);
        Ok(Statement::For { name, range, body })
    }

    fn parse_module_call(&mut self) -> (res: Result<Statement, ParseError>)
        requires
            old(self).wf(),
        ensures
            final(self).moved(old(self)),
            stmt_agrees(
                res,
                old(self).cursor(),
                final(self).cursor(),
                sp_module_call(old(self).text(), old(self).cursor()),
            ),
            res is Ok ==> final(self).cursor() > old(self).cursor(),
            stmt_numerals(res),
        decreases old(self).text().len() - old(self).cursor(), 65int,
    {
        proof {
            unfold_sp_module_call(self.src@, self.pos as nat);
        }
        let name = self.parse_ident()?;
        self.skip();
        self.expect(LPAREN)?;
        let args = self.parse_arg_list()?;
        self.expect(RPAREN)?;
        self.skip();
        let children = if self.peek() == Some(SEMI) {
            self.bump();
            let v: Vec<Statement> = Vec::new();
            assert(stmts_view(v@) =~= Seq::empty());
            v
        } else if self.peek() == Some(LBRACE) {
            let b = self.parse_block()?;
            into_body(b)
        } else if self.peek_is_ident() || self.peek_keyword("if") || self.peek_keyword("for")
            || self.peek() == Some(LBRACE) {
            let st = self.parse_statement()?;
            let ghost sv = st.view_stmt();
            let v = vec![st];
            assert(stmts_view(v@) =~= seq![sv]);
            v
        } else {
            let v: Vec<Statement> = Vec::new();
            assert(stmts_view(v@) =~= Seq::empty());
            v
        };
        let ghost av = args_view(args@);
        let res = Statement::ModuleCall { name, args, children };
        assert(res.view_stmt() == StatementV::ModuleCall {
            name: name@,
            args: av,
            children: stmts_view(children@),
        }) by {
            assert(res.view_stmt()->ModuleCall_children =~= stmts_view(children@));
        }
        proof {
            lemma_stmts_numerals(stmts_view(children@));
            lemma_args_numerals(av);
        }
        Ok(res)
    }

    fn parse_block(&mut self) -> (res: Result<Statement, ParseError>)
        requires
            old(self).wf(),
        ensures
            final(self).moved(old(self)),
            stmt_agrees(
                res,
                old(self).cursor(),
                final(self).cursor(),
                sp_block(old(self).text(), old(self).cursor()),
            ),
            res is Ok ==> final(self).cursor() > old(self).cursor(),
            stmt_numerals(res),
        decreases old(self).text().len() - old(self).cursor(), 60int,
    {
        let ghost s = self.src@;
        let ghost p0 = self.pos as nat;
        proof {
            unfold_sp_block(s, p0);
        }
        self.expect(LBRACE)?;
        self.skip();
        let mut stmts: Vec<Statement> = Vec::new();
        let ghost q0 = self.pos as nat;
        let ghost target = sp_block_items(s, q0, Seq::empty());
        proof {
            assert(stmts_view(stmts@) =~= Seq::empty());
        }
        loop
            invariant_except_break
                target == from(q0, self.pos as nat, sp_block_items(s, self.pos as nat, stmts_view(stmts@))),
            invariant
                s == self.src@,
                self.moved(old(self)),
                p0 == old(self).pos,
                p0 < q0 <= self.pos,
                target is Err ==> sp_block(s, p0) == SRes::<StatementV>::Err(target->Err_0),
                forall|i: int| 0 <= i < stmts@.len() ==> stmt_numerals_ok(#[trigger] stmts_view(stmts@)[i]),
            ensures
                target == SRes::<Seq<StatementV>>::Ok(((self.pos - q0) as nat, stmts_view(stmts@))),
            decreases self.src@.len() - self.pos,
        {
            let ghost here = self.pos as nat;
            proof {
                unfold_sp_block_items(s, here, stmts_view(stmts@));
            }
            if self.peek() == Some(RBRACE) || self.eof() {
                break;
            }
            let st = self.parse_statement()?;
            let ghost sv = st.view_stmt();
            let ghost before = stmts_view(stmts@);
            stmts.push(st);
            proof {
                assert(stmts_view(stmts@) =~= before.push(sv));
            }
            self.skip();
            proof {
                lemma_from_from(q0, here, self.pos as nat, sp_block_items(s, self.pos as nat, stmts_view(stmts@)));
            }
        }
        self.expect(RBRACE)?;
        proof {
            lemma_stmts_numerals(stmts_view(stmts@));
        }
        Ok(block_of(stmts))
    }

    /// The whole source, from the cursor to its end.
    fn parse_program(&mut self) -> (res: Result<Program, ParseError>)
        requires
            old(self).wf(),
            old(self).cursor() == 0,
        ensures
            final(self).wf(),
            match sp_program(old(self).text()) {
                Ok(v) => res matches Ok(prog) && prog.view_program() == v,
                Err(e) => res matches Err(x) && x.view_error() == e,
            },
            res matches Ok(prog) ==> forall|i: int|
                0 <= i < prog.view_program().len() ==> stmt_numerals_ok(#[trigger] prog.view_program()[i]),
    {
        let ghost s = self.src@;
        self.skip();
        let mut statements: Vec<Statement> = Vec::new();
        proof {
            assert(stmts_view(statements@) =~= Seq::empty());
        }
        loop
            invariant
                sp_program(s) == sp_program_items(s, self.pos as nat, stmts_view(statements@)),
                forall|i: int| 0 <= i < statements@.len() ==> stmt_numerals_ok(#[trigger] stmts_view(statements@)[i]),
                s == self.src@,
                s == old(self).src@,
                self.wf(),
            ensures
                sp_program(s) == Ok::<Seq<StatementV>, ErrorV>(stmts_view(statements@)),
            decreases self.src@.len() - self.pos,
        {
            let ghost here = self.pos as nat;
            proof {
                unfold_sp_program_items(s, here, stmts_view(statements@));
            }
            if self.eof() {
                break;
            }
            let st = self.parse_statement()?;
            let ghost sv = st.view_stmt();
            let ghost before = stmts_view(statements@);
            statements.push(st);
            proof {
                assert(stmts_view(statements@) =~= before.push(sv));
            }
            self.skip();
        }
        Ok(Program { statements })
    }

}

/// A block of no statements.
fn empty_block() -> (st: Statement)
    ensures
        st.view_stmt() == StatementV::Block(Seq::empty()),
        stmt_numerals_ok(st.view_stmt()),
{
    let v: Vec<Statement> = Vec::new();
    let st = Statement::Block(v);
    assert(st.view_stmt()->Block_0 =~= Seq::<StatementV>::empty());
    assert(stmts_numerals_ok(Seq::<StatementV>::empty()));
    st
}

/// A block of the given statements.
fn block_of(v: Vec<Statement>) -> (st: Statement)
    ensures
        st.view_stmt() == StatementV::Block(stmts_view(v@)),
{
    let ghost sv = stmts_view(v@);
    let st = Statement::Block(v);
    assert(st.view_stmt()->Block_0 =~= sv);
    st
}

/// The statements that a body stands for: a block's statements, or the one
/// statement.
fn into_body(st: Statement) -> (v: Vec<Statement>)
    ensures
        stmts_view(v@) == body_stmts(st.view_stmt()),
        stmt_numerals_ok(st.view_stmt()) ==> forall|i: int|
            0 <= i < v@.len() ==> stmt_numerals_ok(#[trigger] stmts_view(v@)[i]),
{
    let ghost stv = st.view_stmt();
    match st {
        Statement::Block(stmts) => {
            let ghost sv = stmts_view(stmts@);
            assert(stv->Block_0 =~= sv);
            proof {
                lemma_stmts_numerals(sv);
            }
            stmts
        },
        other => {
            let ghost ov = other.view_stmt();
            let v = vec![other];
            assert(stmts_view(v@) =~= seq![ov]);
            v
        },
    }
}

/// Parses a whole source text.
pub fn parse(source: &str) -> (res: Result<Program, ParseError>)
    requires
        source.spec_bytes().len() < usize::MAX,
    ensures
        match sp_program(source.spec_bytes()) {
            Ok(v) => res matches Ok(prog) && prog.view_program() == v,
            Err(e) => res matches Err(x) && x.view_error() == e,
        },
        res matches Ok(prog) ==> forall|i: int|
            0 <= i < prog.view_program().len() ==> stmt_numerals_ok(#[trigger] prog.view_program()[i]),
{
    let mut p = Parser::new(source);
    p.parse_program()
}


/// `src[i..j]` holds the bytes of `lit`.
pub fn bytes_equal(src: &[u8], i: usize, j: usize, lit: &str) -> (r: bool)
    requires
        i <= j <= src@.len(),
    ensures
        r == (slice(src@, i as nat, j as nat) == lit.spec_bytes()),
{
    let b = lit.as_bytes();
    if j - i != b.len() {
        return false;
    }
    let mut k: usize = 0;
    while k < b.len()
        invariant
            i <= j <= src@.len(),
            j - i == b@.len(),
            b@ == lit.spec_bytes(),
            k <= b@.len(),
            forall|x: int| 0 <= x < k ==> src@[i + x] == b@[x],
        decreases b@.len() - k,
    {
        if src[i + k] != b[k] {
            assert(slice(src@, i as nat, j as nat)[k as int] == src@[i + k]);
            return false;
        }
        k = k + 1;
    }
    assert(slice(src@, i as nat, j as nat) =~= b@);
    true
}

/// The component index that the field name `src[i..j]` selects, as a
/// numeral.
fn field_number(src: &[u8], i: usize, j: usize) -> (r: Option<String>)
    requires
        i <= j <= src@.len(),
    ensures
        match field_index(slice(src@, i as nat, j as nat)) {
            Some(k) => r matches Some(t) && t@ == digit_text(k),
            None => r is None,
        },
{
    if bytes_equal(src, i, j, "x") || bytes_equal(src, i, j, "r") || bytes_equal(src, i, j, "red") {
        Some("0".to_owned())
    } else if bytes_equal(src, i, j, "y") || bytes_equal(src, i, j, "g") || bytes_equal(src, i, j, "green") {
        Some("1".to_owned())
    } else if bytes_equal(src, i, j, "z") || bytes_equal(src, i, j, "b") || bytes_equal(src, i, j, "blue") {
        Some("2".to_owned())
    } else if bytes_equal(src, i, j, "a") || bytes_equal(src, i, j, "alpha") {
        Some("3".to_owned())
    } else {
        None
    }
}

pub fn is_space_byte(b: u8) -> (r: bool)
    ensures
        r == is_space(b),
{
    b == SPACE || b == TAB || b == NEWLINE || b == CR
}

pub fn is_digit_byte(b: u8) -> (r: bool)
    ensures
        r == is_digit(b),
{
    0x30u8 <= b && b <= 0x39u8
}

pub fn is_ident_start_byte(b: u8) -> (r: bool)
    ensures
        r == is_ident_start(b),
{
    (0x61u8 <= b && b <= 0x7au8) || (0x41u8 <= b && b <= 0x5au8) || b == UNDERSCORE || b
        == DOLLAR
}

pub fn is_ident_char_byte(b: u8) -> (r: bool)
    ensures
        r == is_ident_char(b),
{
    is_ident_start_byte(b) || is_digit_byte(b)
}

} // verus!
