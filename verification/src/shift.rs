//! The grammar reads forward only: what a construct parses to at a position
//! depends on the text from that position on, and not on the text before it.
//!
//! For a text `t` that ends with `s` after `k` bytes, every grammar function
//! gives at `k + i` in `t` what it gives at `i` in `s`: the same count and
//! value on success, and on failure an error of the same kind, `k` bytes
//! further on (its line and column are those of the longer text).
use vstd::prelude::*;
use vstd::string::StringSliceAdditionalSpecFns;
use crate::ast::{ArgV, BinaryOp, ExprV, ParamV, StatementV};
use crate::error::{ErrorV, KindV};
use crate::syntax::{
    add_op_at, angle_body_len, block_comment_len, byte_at, compare_op_at, digits_len, ident_at,
    ident_len, ident_rest_len, is_digit, is_ident_char, is_space, lemma_err_at, line_comment_len,
    mantissa_len, mul_op_at, number_len, opt_semicolon, pair_at, rem, skip_len, skipped, slice, sp_expect,
    bin, digit_text, field_index, is_ident_start, sp_expr, sp_ternary, sp_or, sp_or_rest, sp_and,
    sp_and_rest, sp_compare, sp_compare_rest, sp_add, sp_add_rest, sp_mul, sp_mul_rest, sp_pow,
    sp_unary, sp_postfix, sp_postfix_rest, sp_primary, sp_name_or_call, sp_vector, sp_list_comp,
    sp_vector_items, sp_arg, sp_arg_items, sp_arg_list, sp_param_items, sp_params, unfold_sp_expr,
    unfold_sp_ternary, unfold_sp_or, unfold_sp_or_rest, unfold_sp_and, unfold_sp_and_rest,
    unfold_sp_compare, unfold_sp_compare_rest, unfold_sp_add, unfold_sp_add_rest, unfold_sp_mul,
    unfold_sp_mul_rest, unfold_sp_pow, unfold_sp_unary, unfold_sp_postfix, unfold_sp_postfix_rest,
    unfold_sp_primary, unfold_sp_name_or_call, unfold_sp_vector, unfold_sp_list_comp,
    unfold_sp_vector_items, unfold_sp_arg, unfold_sp_arg_items, unfold_sp_arg_list,
    unfold_sp_param_items, unfold_sp_params, AMP, BANG, CARET, COLON, COMMA, EQUALS, LBRACKET,
    LPAREN, MINUS, PIPE, QUESTION, RBRACKET, RPAREN,
    sp_expect_keyword, sp_ident, sp_number, sp_peek_keyword, sp_string, string_body_len, SRes,
    BACKSLASH, DOT, GREATER, NEWLINE, QUOTE, SLASH, STAR, LBRACE, RBRACE, SEMI, LESS,
    is_modifier, sp_statement, sp_include, sp_let, sp_let_items, sp_assert, sp_module_def,
    sp_function_def, sp_if, sp_for, sp_module_call, sp_block, sp_block_items, unfold_sp_statement,
    unfold_sp_let, unfold_sp_let_items, unfold_sp_assert, unfold_sp_module_def,
    unfold_sp_function_def, unfold_sp_if, unfold_sp_for, unfold_sp_module_call, unfold_sp_block,
    unfold_sp_block_items,
};
use crate::text::text_at;

verus! {

/// `s` is what follows the first `k` bytes of `t`.
pub open spec fn suffix_at(t: Seq<u8>, s: Seq<u8>, k: nat) -> bool {
    k <= t.len() && t.subrange(k as int, t.len() as int) == s
}

/// `a`, computed in the longer text at `k + i`, corresponds to `b`,
/// computed in the shorter one at `i`.
pub open spec fn shifted<T>(a: SRes<T>, b: SRes<T>, k: nat) -> bool {
    match a {
        Ok(x) => b == Ok::<(nat, T), ErrorV>(x),
        Err(e) => b matches Err(f) && e.kind == f.kind && e.pos == f.pos + k,
    }
}

/// The same, for results that consume bytes without a value.
pub open spec fn shifted_unit(a: Result<nat, ErrorV>, b: Result<nat, ErrorV>, k: nat) -> bool {
    match a {
        Ok(x) => b == Ok::<nat, ErrorV>(x),
        Err(e) => b matches Err(f) && e.kind == f.kind && e.pos == f.pos + k,
    }
}

/// Bytes, lengths left and slices correspond.
proof fn lemma_bytes(t: Seq<u8>, s: Seq<u8>, k: nat)
    requires
        suffix_at(t, s, k),
    ensures
        t.len() == k + s.len(),
        forall|i: int| 0 <= i < s.len() ==> #[trigger] s[i] == t[k + i],
        forall|i: nat| #[trigger] byte_at(s, i) == byte_at(t, k + i),
        forall|i: nat| #[trigger] rem(s, i) == rem(t, k + i),
        forall|a: nat, b: nat| a <= b <= s.len() ==> #[trigger] slice(s, a, b) == slice(t, k + a, k + b),
        forall|a: nat, b: nat| a <= b <= s.len() ==> #[trigger] text_at(s, a, b) == text_at(t, k + a, k + b),
{
    assert forall|i: int| 0 <= i < s.len() implies #[trigger] s[i] == t[k + i] by {
        assert(s[i] == t.subrange(k as int, t.len() as int)[i]);
    }
    assert forall|a: nat, b: nat| a <= b <= s.len() implies #[trigger] slice(s, a, b) == slice(t, k + a, k + b) by {
        assert(slice(s, a, b) =~= slice(t, k + a, k + b));
    }
    assert forall|a: nat, b: nat| a <= b <= s.len() implies #[trigger] text_at(s, a, b) == text_at(t, k + a, k + b) by {
        assert(slice(s, a, b) =~= slice(t, k + a, k + b));
        crate::text::lemma_text_at_slice(s, a, b);
        crate::text::lemma_text_at_slice(t, k + a, k + b);
    }
}

proof fn lemma_line_comment(t: Seq<u8>, s: Seq<u8>, k: nat, i: nat)
    requires
        suffix_at(t, s, k),
    ensures
        line_comment_len(t, k + i) == line_comment_len(s, i),
    decreases rem(s, i),
{
    lemma_bytes(t, s, k);
    if i < s.len() && s[i as int] != NEWLINE {
        lemma_line_comment(t, s, k, i + 1);
    }
}

proof fn lemma_block_comment(t: Seq<u8>, s: Seq<u8>, k: nat, i: nat)
    requires
        suffix_at(t, s, k),
    ensures
        block_comment_len(t, k + i) == block_comment_len(s, i),
    decreases rem(s, i),
{
    lemma_bytes(t, s, k);
    assert(byte_at(s, i + 1) == byte_at(t, k + (i + 1)));
    if i < s.len() {
        lemma_block_comment(t, s, k, i + 1);
    }
}

/// Layout is skipped alike: in `t`, skipping from `k + i` stops `k` bytes
/// after where skipping from `i` stops in `s`.
pub proof fn lemma_skip(t: Seq<u8>, s: Seq<u8>, k: nat, i: nat)
    requires
        suffix_at(t, s, k),
    ensures
        skip_len(t, k + i) == skip_len(s, i),
        skipped(t, k + i) == k + skipped(s, i),
    decreases rem(s, i),
{
    lemma_bytes(t, s, k);
    assert(byte_at(s, i + 1) == byte_at(t, k + (i + 1)));
    if i < s.len() && is_space(s[i as int]) {
        lemma_skip(t, s, k, i + 1);
    } else if byte_at(s, i) == Some(SLASH) && byte_at(s, i + 1) == Some(SLASH) {
        lemma_line_comment(t, s, k, i + 2);
        let n = 2 + line_comment_len(s, i + 2);
        lemma_skip(t, s, k, i + n);
    } else if byte_at(s, i) == Some(SLASH) && byte_at(s, i + 1) == Some(STAR) {
        lemma_block_comment(t, s, k, i + 2);
        let n = 2 + block_comment_len(s, i + 2);
        lemma_skip(t, s, k, i + n);
    }
}

proof fn lemma_ident_rest(t: Seq<u8>, s: Seq<u8>, k: nat, i: nat)
    requires
        suffix_at(t, s, k),
    ensures
        ident_rest_len(t, k + i) == ident_rest_len(s, i),
        i <= s.len() ==> i + ident_rest_len(s, i) <= s.len(),
    decreases rem(s, i),
{
    lemma_bytes(t, s, k);
    if i < s.len() && is_ident_char(s[i as int]) {
        lemma_ident_rest(t, s, k, i + 1);
    }
}

proof fn lemma_string_body(t: Seq<u8>, s: Seq<u8>, k: nat, i: nat)
    requires
        suffix_at(t, s, k),
    ensures
        string_body_len(t, k + i) == string_body_len(s, i),
    decreases rem(s, i),
{
    lemma_bytes(t, s, k);
    if i < s.len() && s[i as int] != QUOTE {
        if s[i as int] == BACKSLASH {
            if i + 1 < s.len() {
                lemma_string_body(t, s, k, i + 2);
            }
        } else {
            lemma_string_body(t, s, k, i + 1);
        }
    }
}

proof fn lemma_digits(t: Seq<u8>, s: Seq<u8>, k: nat, i: nat)
    requires
        suffix_at(t, s, k),
    ensures
        digits_len(t, k + i) == digits_len(s, i),
        i <= s.len() ==> i + digits_len(s, i) <= s.len(),
    decreases rem(s, i),
{
    lemma_bytes(t, s, k);
    if i < s.len() && is_digit(s[i as int]) {
        lemma_digits(t, s, k, i + 1);
    }
}

proof fn lemma_mantissa(t: Seq<u8>, s: Seq<u8>, k: nat, i: nat)
    requires
        suffix_at(t, s, k),
    ensures
        mantissa_len(t, k + i) == mantissa_len(s, i),
        i <= s.len() ==> i + mantissa_len(s, i) <= s.len(),
    decreases rem(s, i),
{
    lemma_bytes(t, s, k);
    if i < s.len() && (is_digit(s[i as int]) || s[i as int] == DOT) {
        lemma_mantissa(t, s, k, i + 1);
    }
}

proof fn lemma_angle_body(t: Seq<u8>, s: Seq<u8>, k: nat, i: nat)
    requires
        suffix_at(t, s, k),
    ensures
        angle_body_len(t, k + i) == angle_body_len(s, i),
    decreases rem(s, i),
{
    lemma_bytes(t, s, k);
    if i < s.len() && s[i as int] != GREATER {
        lemma_angle_body(t, s, k, i + 1);
    }
}

/// Tokens read alike: expected bytes and keywords, identifiers, strings,
/// numerals and operators at `k + i` in `t` are those at `i` in `s`.
pub proof fn lemma_tokens(t: Seq<u8>, s: Seq<u8>, k: nat, i: nat)
    requires
        suffix_at(t, s, k),
    ensures
        forall|b: u8| shifted_unit(#[trigger] sp_expect(t, k + i, b), sp_expect(s, i, b), k),
        forall|kw: &str| shifted_unit(#[trigger] sp_expect_keyword(t, k + i, kw), sp_expect_keyword(s, i, kw), k),
        forall|kw: Seq<u8>| #[trigger] sp_peek_keyword(t, k + i, kw) == sp_peek_keyword(s, i, kw),
        forall|a: u8, b: u8| #[trigger] pair_at(t, k + i, a, b) == pair_at(s, i, a, b),
        compare_op_at(t, k + i) == compare_op_at(s, i),
        add_op_at(t, k + i) == add_op_at(s, i),
        mul_op_at(t, k + i) == mul_op_at(s, i),
        ident_at(t, k + i) == ident_at(s, i),
        ident_len(t, k + i) == ident_len(s, i),
        shifted(sp_ident(t, k + i), sp_ident(s, i), k),
        shifted(sp_string(t, k + i), sp_string(s, i), k),
        i < s.len() ==> shifted(sp_number(t, k + i), sp_number(s, i), k),
        opt_semicolon(t, k + i) == k + opt_semicolon(s, i),
        angle_body_len(t, k + i) == angle_body_len(s, i),
        skipped(t, k + i) == k + skipped(s, i),
        byte_at(t, k + i) == byte_at(s, i),
{
    lemma_peeks(t, s, k, i);
    lemma_tokens_expect(t, s, k, i);
    lemma_keyword_expect(t, s, k, i);
    lemma_ident_token(t, s, k, i);
    lemma_string_token(t, s, k, i);
    if i < s.len() {
        lemma_number_token(t, s, k, i);
    }
    lemma_angle_body(t, s, k, i);
    lemma_skip(t, s, k, i);
    lemma_bytes(t, s, k);
    let q = skipped(s, i);
    assert(byte_at(s, q) == byte_at(t, k + q));
}

proof fn lemma_peeks(t: Seq<u8>, s: Seq<u8>, k: nat, i: nat)
    requires
        suffix_at(t, s, k),
    ensures
        forall|kw: Seq<u8>| #[trigger] sp_peek_keyword(t, k + i, kw) == sp_peek_keyword(s, i, kw),
        forall|a: u8, b: u8| #[trigger] pair_at(t, k + i, a, b) == pair_at(s, i, a, b),
        compare_op_at(t, k + i) == compare_op_at(s, i),
        add_op_at(t, k + i) == add_op_at(s, i),
        mul_op_at(t, k + i) == mul_op_at(s, i),
{
    lemma_bytes(t, s, k);
    assert(byte_at(s, i + 1) == byte_at(t, k + (i + 1)));
    assert forall|kw: Seq<u8>| #[trigger] sp_peek_keyword(t, k + i, kw) == sp_peek_keyword(s, i, kw) by {
        assert(byte_at(s, i + kw.len()) == byte_at(t, k + (i + kw.len())));
        if i + kw.len() <= s.len() {
            assert(slice(s, i, i + kw.len()) == slice(t, k + i, k + (i + kw.len())));
        }
    }
}

proof fn lemma_keyword_expect(t: Seq<u8>, s: Seq<u8>, k: nat, i: nat)
    requires
        suffix_at(t, s, k),
    ensures
        forall|kw: &str| shifted_unit(#[trigger] sp_expect_keyword(t, k + i, kw), sp_expect_keyword(s, i, kw), k),
{
    lemma_skip(t, s, k, i);
    let q = skipped(s, i);
    lemma_peeks(t, s, k, q);
}

proof fn lemma_ident_token(t: Seq<u8>, s: Seq<u8>, k: nat, i: nat)
    requires
        suffix_at(t, s, k),
    ensures
        ident_at(t, k + i) == ident_at(s, i),
        ident_len(t, k + i) == ident_len(s, i),
        shifted(sp_ident(t, k + i), sp_ident(s, i), k),
        ident_at(s, i) ==> i + ident_len(s, i) <= s.len(),
{
    lemma_bytes(t, s, k);
    lemma_ident_rest(t, s, k, i + 1);
    lemma_err_at(s, KindV::ExpectedIdentifier, i);
    lemma_err_at(t, KindV::ExpectedIdentifier, k + i);
    if ident_at(s, i) {
        let n2 = ident_len(s, i);
        assert(i + n2 <= s.len());
        assert(text_at(s, i, i + n2) == text_at(t, k + i, k + (i + n2)));
    }
}

proof fn lemma_string_token(t: Seq<u8>, s: Seq<u8>, k: nat, i: nat)
    requires
        suffix_at(t, s, k),
    ensures
        shifted(sp_string(t, k + i), sp_string(s, i), k),
{
    lemma_bytes(t, s, k);
    lemma_tokens_expect(t, s, k, i);
    if sp_expect(s, i, QUOTE) is Ok {
        let c1 = sp_expect(s, i, QUOTE)->Ok_0;
        lemma_string_body(t, s, k, i + c1);
        let n = string_body_len(s, i + c1);
        lemma_tokens_expect(t, s, k, i + c1 + n);
        assert(sp_expect(t, k + (i + c1 + n), QUOTE) == sp_expect(t, k + i + c1 + n, QUOTE));
        if i + c1 + n <= s.len() {
            assert(text_at(s, i + c1, i + c1 + n) == text_at(t, k + (i + c1), k + (i + c1 + n)));
        }
    }
}

proof fn lemma_number_token(t: Seq<u8>, s: Seq<u8>, k: nat, i: nat)
    requires
        suffix_at(t, s, k),
        i < s.len(),
    ensures
        shifted(sp_number(t, k + i), sp_number(s, i), k),
{
    lemma_bytes(t, s, k);
    lemma_mantissa(t, s, k, i);
    let m = mantissa_len(s, i);
    assert(byte_at(s, i + m) == byte_at(t, k + (i + m)));
    assert(byte_at(s, i + m + 1) == byte_at(t, k + (i + m + 1)));
    lemma_digits(t, s, k, i + m + 1);
    lemma_digits(t, s, k, i + m + 2);
    let n = number_len(s, i);
    if i <= s.len() {
        assert(i + n <= s.len());
        assert(slice(s, i, i + n) == slice(t, k + i, k + (i + n)));
        assert(text_at(s, i, i + n) == text_at(t, k + i, k + (i + n)));
    }
}

/// `sp_expect` read alike, at one position.
proof fn lemma_tokens_expect(t: Seq<u8>, s: Seq<u8>, k: nat, i: nat)
    requires
        suffix_at(t, s, k),
    ensures
        forall|b: u8| shifted_unit(#[trigger] sp_expect(t, k + i, b), sp_expect(s, i, b), k),
{
    lemma_bytes(t, s, k);
    lemma_skip(t, s, k, i);
    let q = skipped(s, i);
    assert forall|b: u8| shifted_unit(#[trigger] sp_expect(t, k + i, b), sp_expect(s, i, b), k) by {
        lemma_err_at(s, KindV::ExpectedByte { expected: b, found: byte_at(s, q) }, q);
        lemma_err_at(t, KindV::ExpectedByte { expected: b, found: byte_at(t, k + q) }, k + q);
    }
}

// ---- expressions ----

/// An expression at `k + i` in `t` is the one at `i` in `s`, or the same
/// error `k` bytes further on.
pub proof fn lemma_shift_expr(t: Seq<u8>, s: Seq<u8>, k: nat, i: nat)
    requires
        suffix_at(t, s, k),
    ensures
        shifted(sp_expr(t, k + i), sp_expr(s, i), k),
    decreases rem(s, i), 50int,
{
    unfold_sp_expr(t, k + i);
    unfold_sp_expr(s, i);
    lemma_shift_ternary(t, s, k, i);
}

#[verifier::rlimit(100)]
#[verifier::spinoff_prover]
proof fn lemma_shift_ternary(t: Seq<u8>, s: Seq<u8>, k: nat, i: nat)
    requires
        suffix_at(t, s, k),
    ensures
        shifted(sp_ternary(t, k + i), sp_ternary(s, i), k),
    decreases rem(s, i), 49int,
{
    unfold_sp_ternary(t, k + i);
    unfold_sp_ternary(s, i);
    lemma_shift_or(t, s, k, i);
    if sp_or(s, i) is Ok {
        let c1 = sp_or(s, i)->Ok_0.0;
        lemma_tokens(t, s, k, i + c1);
        let q = skipped(s, i + c1);
        lemma_tokens(t, s, k, q);
        if byte_at(s, q) == Some(QUESTION) {
            lemma_shift_expr(t, s, k, q + 1);
            if sp_expr(s, q + 1) is Ok {
                let c2 = sp_expr(s, q + 1)->Ok_0.0;
                lemma_tokens(t, s, k, q + 1 + c2);
                let r = skipped(s, q + 1 + c2);
                lemma_tokens(t, s, k, r);
                if sp_expect(s, r, COLON) is Ok {
                    let c3 = sp_expect(s, r, COLON)->Ok_0;
                    lemma_shift_expr(t, s, k, r + c3);
                }
            }
        }
    }
}

proof fn lemma_shift_or(t: Seq<u8>, s: Seq<u8>, k: nat, i: nat)
    requires
        suffix_at(t, s, k),
    ensures
        shifted(sp_or(t, k + i), sp_or(s, i), k),
    decreases rem(s, i), 48int,
{
    unfold_sp_or(t, k + i);
    unfold_sp_or(s, i);
    lemma_shift_and(t, s, k, i);
    if sp_and(s, i) is Ok {
        let (c, l) = sp_and(s, i)->Ok_0;
        lemma_shift_or_rest(t, s, k, i + c, l);
    }
}

proof fn lemma_shift_or_rest(t: Seq<u8>, s: Seq<u8>, k: nat, i: nat, left: ExprV)
    requires
        suffix_at(t, s, k),
    ensures
        shifted(sp_or_rest(t, k + i, left), sp_or_rest(s, i, left), k),
    decreases rem(s, i), 47int,
{
    unfold_sp_or_rest(t, k + i, left);
    unfold_sp_or_rest(s, i, left);
    lemma_tokens(t, s, k, i);
    let q = skipped(s, i);
    lemma_tokens(t, s, k, q);
    if pair_at(s, q, PIPE, PIPE) {
        lemma_shift_and(t, s, k, q + 2);
        if sp_and(s, q + 2) is Ok {
            let (c, r) = sp_and(s, q + 2)->Ok_0;
            lemma_shift_or_rest(t, s, k, q + 2 + c, bin(BinaryOp::Or, left, r));
        }
    }
}

proof fn lemma_shift_and(t: Seq<u8>, s: Seq<u8>, k: nat, i: nat)
    requires
        suffix_at(t, s, k),
    ensures
        shifted(sp_and(t, k + i), sp_and(s, i), k),
    decreases rem(s, i), 46int,
{
    unfold_sp_and(t, k + i);
    unfold_sp_and(s, i);
    lemma_shift_compare(t, s, k, i);
    if sp_compare(s, i) is Ok {
        let (c, l) = sp_compare(s, i)->Ok_0;
        lemma_shift_and_rest(t, s, k, i + c, l);
    }
}

proof fn lemma_shift_and_rest(t: Seq<u8>, s: Seq<u8>, k: nat, i: nat, left: ExprV)
    requires
        suffix_at(t, s, k),
    ensures
        shifted(sp_and_rest(t, k + i, left), sp_and_rest(s, i, left), k),
    decreases rem(s, i), 45int,
{
    unfold_sp_and_rest(t, k + i, left);
    unfold_sp_and_rest(s, i, left);
    lemma_tokens(t, s, k, i);
    let q = skipped(s, i);
    lemma_tokens(t, s, k, q);
    if pair_at(s, q, AMP, AMP) {
        lemma_shift_compare(t, s, k, q + 2);
        if sp_compare(s, q + 2) is Ok {
            let (c, r) = sp_compare(s, q + 2)->Ok_0;
            lemma_shift_and_rest(t, s, k, q + 2 + c, bin(BinaryOp::And, left, r));
        }
    }
}

proof fn lemma_shift_compare(t: Seq<u8>, s: Seq<u8>, k: nat, i: nat)
    requires
        suffix_at(t, s, k),
    ensures
        shifted(sp_compare(t, k + i), sp_compare(s, i), k),
    decreases rem(s, i), 44int,
{
    unfold_sp_compare(t, k + i);
    unfold_sp_compare(s, i);
    lemma_shift_add(t, s, k, i);
    if sp_add(s, i) is Ok {
        let (c, l) = sp_add(s, i)->Ok_0;
        lemma_shift_compare_rest(t, s, k, i + c, l);
    }
}

proof fn lemma_shift_compare_rest(t: Seq<u8>, s: Seq<u8>, k: nat, i: nat, left: ExprV)
    requires
        suffix_at(t, s, k),
    ensures
        shifted(sp_compare_rest(t, k + i, left), sp_compare_rest(s, i, left), k),
    decreases rem(s, i), 43int,
{
    unfold_sp_compare_rest(t, k + i, left);
    unfold_sp_compare_rest(s, i, left);
    lemma_tokens(t, s, k, i);
    let q = skipped(s, i);
    lemma_tokens(t, s, k, q);
    if compare_op_at(s, q) is Some {
        let (op, n) = compare_op_at(s, q)->Some_0;
        lemma_shift_add(t, s, k, q + n);
        if sp_add(s, q + n) is Ok {
            let (c, r) = sp_add(s, q + n)->Ok_0;
            lemma_shift_compare_rest(t, s, k, q + n + c, bin(op, left, r));
        }
    }
}

proof fn lemma_shift_add(t: Seq<u8>, s: Seq<u8>, k: nat, i: nat)
    requires
        suffix_at(t, s, k),
    ensures
        shifted(sp_add(t, k + i), sp_add(s, i), k),
    decreases rem(s, i), 42int,
{
    unfold_sp_add(t, k + i);
    unfold_sp_add(s, i);
    lemma_shift_mul(t, s, k, i);
    if sp_mul(s, i) is Ok {
        let (c, l) = sp_mul(s, i)->Ok_0;
        lemma_shift_add_rest(t, s, k, i + c, l);
    }
}

proof fn lemma_shift_add_rest(t: Seq<u8>, s: Seq<u8>, k: nat, i: nat, left: ExprV)
    requires
        suffix_at(t, s, k),
    ensures
        shifted(sp_add_rest(t, k + i, left), sp_add_rest(s, i, left), k),
    decreases rem(s, i), 41int,
{
    unfold_sp_add_rest(t, k + i, left);
    unfold_sp_add_rest(s, i, left);
    lemma_tokens(t, s, k, i);
    let q = skipped(s, i);
    lemma_tokens(t, s, k, q);
    if add_op_at(s, q) is Some {
        let op = add_op_at(s, q)->Some_0;
        lemma_shift_mul(t, s, k, q + 1);
        if sp_mul(s, q + 1) is Ok {
            let (c, r) = sp_mul(s, q + 1)->Ok_0;
            lemma_shift_add_rest(t, s, k, q + 1 + c, bin(op, left, r));
        }
    }
}

proof fn lemma_shift_mul(t: Seq<u8>, s: Seq<u8>, k: nat, i: nat)
    requires
        suffix_at(t, s, k),
    ensures
        shifted(sp_mul(t, k + i), sp_mul(s, i), k),
    decreases rem(s, i), 40int,
{
    unfold_sp_mul(t, k + i);
    unfold_sp_mul(s, i);
    lemma_shift_pow(t, s, k, i);
    if sp_pow(s, i) is Ok {
        let (c, l) = sp_pow(s, i)->Ok_0;
        lemma_shift_mul_rest(t, s, k, i + c, l);
    }
}

proof fn lemma_shift_mul_rest(t: Seq<u8>, s: Seq<u8>, k: nat, i: nat, left: ExprV)
    requires
        suffix_at(t, s, k),
    ensures
        shifted(sp_mul_rest(t, k + i, left), sp_mul_rest(s, i, left), k),
    decreases rem(s, i), 39int,
{
    unfold_sp_mul_rest(t, k + i, left);
    unfold_sp_mul_rest(s, i, left);
    lemma_tokens(t, s, k, i);
    let q = skipped(s, i);
    lemma_tokens(t, s, k, q);
    if mul_op_at(s, q) is Some {
        let op = mul_op_at(s, q)->Some_0;
        lemma_shift_pow(t, s, k, q + 1);
        if sp_pow(s, q + 1) is Ok {
            let (c, r) = sp_pow(s, q + 1)->Ok_0;
            lemma_shift_mul_rest(t, s, k, q + 1 + c, bin(op, left, r));
        }
    }
}

proof fn lemma_shift_pow(t: Seq<u8>, s: Seq<u8>, k: nat, i: nat)
    requires
        suffix_at(t, s, k),
    ensures
        shifted(sp_pow(t, k + i), sp_pow(s, i), k),
    decreases rem(s, i), 38int,
{
    unfold_sp_pow(t, k + i);
    unfold_sp_pow(s, i);
    lemma_shift_unary(t, s, k, i);
    if sp_unary(s, i) is Ok {
        let c = sp_unary(s, i)->Ok_0.0;
        lemma_tokens(t, s, k, i + c);
        let q = skipped(s, i + c);
        lemma_tokens(t, s, k, q);
        if byte_at(s, q) == Some(CARET) {
            lemma_shift_pow(t, s, k, q + 1);
        }
    }
}

proof fn lemma_shift_unary(t: Seq<u8>, s: Seq<u8>, k: nat, i: nat)
    requires
        suffix_at(t, s, k),
    ensures
        shifted(sp_unary(t, k + i), sp_unary(s, i), k),
    decreases rem(s, i), 37int,
{
    unfold_sp_unary(t, k + i);
    unfold_sp_unary(s, i);
    lemma_tokens(t, s, k, i);
    let q = skipped(s, i);
    lemma_tokens(t, s, k, q);
    if byte_at(s, q) == Some(MINUS) || byte_at(s, q) == Some(BANG) {
        lemma_shift_unary(t, s, k, q + 1);
    } else {
        lemma_shift_postfix(t, s, k, q);
    }
}

proof fn lemma_shift_postfix(t: Seq<u8>, s: Seq<u8>, k: nat, i: nat)
    requires
        suffix_at(t, s, k),
    ensures
        shifted(sp_postfix(t, k + i), sp_postfix(s, i), k),
    decreases rem(s, i), 36int,
{
    unfold_sp_postfix(t, k + i);
    unfold_sp_postfix(s, i);
    lemma_shift_primary(t, s, k, i);
    if sp_primary(s, i) is Ok {
        let (c, b) = sp_primary(s, i)->Ok_0;
        lemma_shift_postfix_rest(t, s, k, i + c, b);
    }
}

#[verifier::rlimit(100)]
#[verifier::spinoff_prover]
proof fn lemma_shift_postfix_rest(t: Seq<u8>, s: Seq<u8>, k: nat, i: nat, base: ExprV)
    requires
        suffix_at(t, s, k),
    ensures
        shifted(sp_postfix_rest(t, k + i, base), sp_postfix_rest(s, i, base), k),
    decreases rem(s, i), 35int,
{
    unfold_sp_postfix_rest(t, k + i, base);
    unfold_sp_postfix_rest(s, i, base);
    lemma_tokens(t, s, k, i);
    let q = skipped(s, i);
    lemma_tokens(t, s, k, q);
    if byte_at(s, q) == Some(LBRACKET) {
        lemma_shift_expr(t, s, k, q + 1);
        if sp_expr(s, q + 1) is Ok {
            let (c1, index) = sp_expr(s, q + 1)->Ok_0;
            lemma_tokens(t, s, k, q + 1 + c1);
            if sp_expect(s, q + 1 + c1, RBRACKET) is Ok {
                let c2 = sp_expect(s, q + 1 + c1, RBRACKET)->Ok_0;
                let r = q + 1 + c1 + c2;
                lemma_shift_postfix_rest(
                    t,
                    s,
                    k,
                    r,
                    ExprV::Index { base: Box::new(base), index: Box::new(index) },
                );
            }
        }
    } else if byte_at(s, q) == Some(DOT) {
        lemma_tokens(t, s, k, q + 1);
        if sp_ident(s, q + 1) is Ok {
            let (n, name) = sp_ident(s, q + 1)->Ok_0;
            let r = q + 1 + n;
            lemma_bytes(t, s, k);
            lemma_ident_token(t, s, k, q + 1);
            assert(slice(s, q + 1, r) == slice(t, k + (q + 1), k + r));
            lemma_err_at(s, KindV::UnknownField(name), r);
            lemma_err_at(t, KindV::UnknownField(name), k + r);
            if field_index(slice(s, q + 1, r)) is Some {
                let fi = field_index(slice(s, q + 1, r))->Some_0;
                lemma_shift_postfix_rest(
                    t,
                    s,
                    k,
                    r,
                    ExprV::Index {
                        base: Box::new(base),
                        index: Box::new(ExprV::Number(digit_text(fi))),
                    },
                );
            }
        }
    }
}

#[verifier::rlimit(100)]
#[verifier::spinoff_prover]
proof fn lemma_shift_primary(t: Seq<u8>, s: Seq<u8>, k: nat, i: nat)
    requires
        suffix_at(t, s, k),
    ensures
        shifted(sp_primary(t, k + i), sp_primary(s, i), k),
    decreases rem(s, i), 34int,
{
    unfold_sp_primary(t, k + i);
    unfold_sp_primary(s, i);
    lemma_tokens(t, s, k, i);
    let q = skipped(s, i);
    lemma_tokens(t, s, k, q);
    lemma_err_at(s, KindV::Unexpected { found: byte_at(s, q) }, q);
    lemma_err_at(t, KindV::Unexpected { found: byte_at(s, q) }, k + q);
    if byte_at(s, q) is Some {
        let b = byte_at(s, q)->Some_0;
        if b == LBRACKET {
            lemma_shift_vector(t, s, k, q);
        } else if b == LPAREN {
            lemma_shift_expr(t, s, k, q + 1);
            if sp_expr(s, q + 1) is Ok {
                let c = sp_expr(s, q + 1)->Ok_0.0;
                lemma_tokens(t, s, k, q + 1 + c);
            }
        } else if is_ident_start(b) {
            lemma_shift_name_or_call(t, s, k, q);
        }
    }
}

#[verifier::rlimit(100)]
#[verifier::spinoff_prover]
proof fn lemma_shift_name_or_call(t: Seq<u8>, s: Seq<u8>, k: nat, i: nat)
    requires
        suffix_at(t, s, k),
        ident_at(s, i),
    ensures
        shifted(sp_name_or_call(t, k + i), sp_name_or_call(s, i), k),
    decreases rem(s, i), 30int,
{
    unfold_sp_name_or_call(t, k + i);
    unfold_sp_name_or_call(s, i);
    lemma_bytes(t, s, k);
    lemma_ident_token(t, s, k, i);
    let n = ident_len(s, i);
    assert(slice(s, i, i + n) == slice(t, k + i, k + (i + n)));
    assert(text_at(s, i, i + n) == text_at(t, k + i, k + (i + n)));
    lemma_tokens(t, s, k, i + n);
    let r = skipped(s, i + n);
    lemma_tokens(t, s, k, r);
    lemma_shift_arg_list(t, s, k, r + 1);
    if sp_arg_list(s, r + 1) is Ok {
        let c = sp_arg_list(s, r + 1)->Ok_0.0;
        lemma_tokens(t, s, k, r + 1 + c);
    }
}

#[verifier::rlimit(100)]
#[verifier::spinoff_prover]
proof fn lemma_shift_vector(t: Seq<u8>, s: Seq<u8>, k: nat, i: nat)
    requires
        suffix_at(t, s, k),
    ensures
        shifted(sp_vector(t, k + i), sp_vector(s, i), k),
    decreases rem(s, i), 33int,
{
    unfold_sp_vector(t, k + i);
    unfold_sp_vector(s, i);
    lemma_bytes(t, s, k);
    lemma_tokens_expect(t, s, k, i);
    if sp_expect(s, i, LBRACKET) is Ok {
        let c0 = sp_expect(s, i, LBRACKET)->Ok_0;
        lemma_skip(t, s, k, i + c0);
        let q = skipped(s, i + c0);
        lemma_peeks(t, s, k, q);
        assert(byte_at(s, q) == byte_at(t, k + q));
        lemma_shift_list_comp(t, s, k, q);
        lemma_shift_expr(t, s, k, q);
        if sp_expr(s, q) is Ok {
            let (c1, first) = sp_expr(s, q)->Ok_0;
            lemma_skip(t, s, k, q + c1);
            let r = skipped(s, q + c1);
            assert(byte_at(s, r) == byte_at(t, k + r));
            lemma_shift_vector_items(t, s, k, r, seq![first]);
            lemma_shift_expr(t, s, k, r + 1);
            if sp_expr(s, r + 1) is Ok {
                let c2 = sp_expr(s, r + 1)->Ok_0.0;
                lemma_skip(t, s, k, r + 1 + c2);
                let u = skipped(s, r + 1 + c2);
                assert(byte_at(s, u) == byte_at(t, k + u));
                lemma_tokens_expect(t, s, k, u);
                lemma_shift_expr(t, s, k, u + 1);
                if sp_expr(s, u + 1) is Ok {
                    let c3 = sp_expr(s, u + 1)->Ok_0.0;
                    lemma_skip(t, s, k, u + 1 + c3);
                    let w = skipped(s, u + 1 + c3);
                    lemma_tokens_expect(t, s, k, w);
                }
            }
        }
    }
}

#[verifier::rlimit(100)]
#[verifier::spinoff_prover]
proof fn lemma_shift_list_comp(t: Seq<u8>, s: Seq<u8>, k: nat, i: nat)
    requires
        suffix_at(t, s, k),
    ensures
        shifted(sp_list_comp(t, k + i), sp_list_comp(s, i), k),
    decreases rem(s, i), 32int,
{
    unfold_sp_list_comp(t, k + i);
    unfold_sp_list_comp(s, i);
    lemma_keyword_expect(t, s, k, i);
    if sp_expect_keyword(s, i, "for") is Ok {
        let c0 = sp_expect_keyword(s, i, "for")->Ok_0;
        lemma_skip(t, s, k, i + c0);
        let a = skipped(s, i + c0);
        lemma_tokens_expect(t, s, k, a);
        if sp_expect(s, a, LPAREN) is Ok {
            let q = a + sp_expect(s, a, LPAREN)->Ok_0;
            lemma_ident_token(t, s, k, q);
            if sp_ident(s, q) is Ok {
                let n = sp_ident(s, q)->Ok_0.0;
                lemma_skip(t, s, k, q + n);
                let b = skipped(s, q + n);
                lemma_tokens_expect(t, s, k, b);
                if sp_expect(s, b, EQUALS) is Ok {
                    let c2 = sp_expect(s, b, EQUALS)->Ok_0;
                    lemma_shift_expr(t, s, k, b + c2);
                    if sp_expr(s, b + c2) is Ok {
                        let c3 = sp_expr(s, b + c2)->Ok_0.0;
                        lemma_tokens_expect(t, s, k, b + c2 + c3);
                        if sp_expect(s, b + c2 + c3, RPAREN) is Ok {
                            let c4 = sp_expect(s, b + c2 + c3, RPAREN)->Ok_0;
                            lemma_skip(t, s, k, b + c2 + c3 + c4);
                            let r = skipped(s, b + c2 + c3 + c4);
                            lemma_shift_expr(t, s, k, r);
                            if sp_expr(s, r) is Ok {
                                let c5 = sp_expr(s, r)->Ok_0.0;
                                lemma_skip(t, s, k, r + c5);
                                let w = skipped(s, r + c5);
                                lemma_tokens_expect(t, s, k, w);
                            }
                        }
                    }
                }
            }
        }
    }
}

proof fn lemma_shift_vector_items(t: Seq<u8>, s: Seq<u8>, k: nat, i: nat, acc: Seq<ExprV>)
    requires
        suffix_at(t, s, k),
    ensures
        shifted(sp_vector_items(t, k + i, acc), sp_vector_items(s, i, acc), k),
    decreases rem(s, i), 31int,
{
    unfold_sp_vector_items(t, k + i, acc);
    unfold_sp_vector_items(s, i, acc);
    lemma_tokens(t, s, k, i);
    if byte_at(s, i) == Some(COMMA) {
        lemma_tokens(t, s, k, i + 1);
        let q = skipped(s, i + 1);
        lemma_tokens(t, s, k, q);
        lemma_shift_expr(t, s, k, q);
        if sp_expr(s, q) is Ok {
            let (c, e) = sp_expr(s, q)->Ok_0;
            lemma_tokens(t, s, k, q + c);
            let r = skipped(s, q + c);
            lemma_shift_vector_items(t, s, k, r, acc.push(e));
        }
    }
}

// ---- arguments and parameters ----

#[verifier::rlimit(100)]
#[verifier::spinoff_prover]
proof fn lemma_shift_arg(t: Seq<u8>, s: Seq<u8>, k: nat, i: nat)
    requires
        suffix_at(t, s, k),
    ensures
        shifted(sp_arg(t, k + i), sp_arg(s, i), k),
    decreases rem(s, i), 52int,
{
    unfold_sp_arg(t, k + i);
    unfold_sp_arg(s, i);
    lemma_tokens(t, s, k, i);
    let q = skipped(s, i);
    lemma_tokens(t, s, k, q);
    lemma_shift_expr(t, s, k, q);
    if ident_at(s, q) {
        lemma_bytes(t, s, k);
        lemma_ident_token(t, s, k, q);
        let n = ident_len(s, q);
        assert(text_at(s, q, q + n) == text_at(t, k + q, k + (q + n)));
        lemma_tokens(t, s, k, q + n);
        let r = skipped(s, q + n);
        lemma_tokens(t, s, k, r);
        lemma_shift_expr(t, s, k, r + 1);
    }
}

proof fn lemma_shift_arg_items(t: Seq<u8>, s: Seq<u8>, k: nat, i: nat, acc: Seq<ArgV>)
    requires
        suffix_at(t, s, k),
    ensures
        shifted(sp_arg_items(t, k + i, acc), sp_arg_items(s, i, acc), k),
    decreases rem(s, i), 53int,
{
    unfold_sp_arg_items(t, k + i, acc);
    unfold_sp_arg_items(s, i, acc);
    lemma_shift_arg(t, s, k, i);
    if sp_arg(s, i) is Ok {
        let (c, a) = sp_arg(s, i)->Ok_0;
        lemma_tokens(t, s, k, i + c);
        let w = skipped(s, i + c);
        lemma_tokens(t, s, k, w);
        lemma_tokens(t, s, k, w + 1);
        let u = skipped(s, w + 1);
        if byte_at(s, w) == Some(COMMA) {
            lemma_shift_arg_items(t, s, k, u, acc.push(a));
        }
    }
}

proof fn lemma_shift_arg_list(t: Seq<u8>, s: Seq<u8>, k: nat, i: nat)
    requires
        suffix_at(t, s, k),
    ensures
        shifted(sp_arg_list(t, k + i), sp_arg_list(s, i), k),
    decreases rem(s, i), 54int,
{
    unfold_sp_arg_list(t, k + i);
    unfold_sp_arg_list(s, i);
    lemma_tokens(t, s, k, i);
    let q = skipped(s, i);
    lemma_tokens(t, s, k, q);
    lemma_shift_arg_items(t, s, k, q, Seq::empty());
}

#[verifier::rlimit(100)]
#[verifier::spinoff_prover]
proof fn lemma_shift_param_items(t: Seq<u8>, s: Seq<u8>, k: nat, i: nat, acc: Seq<ParamV>)
    requires
        suffix_at(t, s, k),
    ensures
        shifted(sp_param_items(t, k + i, acc), sp_param_items(s, i, acc), k),
    decreases rem(s, i), 55int,
{
    unfold_sp_param_items(t, k + i, acc);
    unfold_sp_param_items(s, i, acc);
    lemma_tokens(t, s, k, i);
    if sp_ident(s, i) is Ok {
        let (n, name) = sp_ident(s, i)->Ok_0;
        lemma_tokens(t, s, k, i + n);
        let r = skipped(s, i + n);
        lemma_tokens(t, s, k, r);
        lemma_shift_expr(t, s, k, r + 1);
        let cd: nat = if byte_at(s, r) == Some(EQUALS) && sp_expr(s, r + 1) is Ok {
            1 + sp_expr(s, r + 1)->Ok_0.0
        } else {
            0
        };
        lemma_tokens(t, s, k, r + cd);
        let w = skipped(s, r + cd);
        lemma_tokens(t, s, k, w);
        lemma_tokens(t, s, k, w + 1);
        let u = skipped(s, w + 1);
        if byte_at(s, r) == Some(EQUALS) {
            if sp_expr(s, r + 1) is Ok {
                let d = Some(sp_expr(s, r + 1)->Ok_0.1);
                lemma_shift_param_items(t, s, k, u, acc.push(ParamV { name, default: d }));
            }
        } else {
            lemma_shift_param_items(t, s, k, u, acc.push(ParamV { name, default: None }));
        }
    }
}

proof fn lemma_shift_params(t: Seq<u8>, s: Seq<u8>, k: nat, i: nat)
    requires
        suffix_at(t, s, k),
    ensures
        shifted(sp_params(t, k + i), sp_params(s, i), k),
    decreases rem(s, i), 56int,
{
    unfold_sp_params(t, k + i);
    unfold_sp_params(s, i);
    lemma_tokens(t, s, k, i);
    let q = skipped(s, i);
    lemma_tokens(t, s, k, q);
    lemma_shift_param_items(t, s, k, q, Seq::empty());
}

// ---- statements ----

/// A statement at `k + i` in `t` is the one at `i` in `s`, or the same
/// error `k` bytes further on.
#[verifier::rlimit(100)]
#[verifier::spinoff_prover]
pub proof fn lemma_shift_statement(t: Seq<u8>, s: Seq<u8>, k: nat, i: nat)
    requires
        suffix_at(t, s, k),
    ensures
        shifted(sp_statement(t, k + i), sp_statement(s, i), k),
    decreases rem(s, i), 70int,
{
    unfold_sp_statement(t, k + i);
    unfold_sp_statement(s, i);
    lemma_skip(t, s, k, i);
    let q = skipped(s, i);
    lemma_peeks(t, s, k, q);
    assert(byte_at(t, k + q) == byte_at(s, q)) by {
        lemma_bytes(t, s, k);
    }
    lemma_ident_token(t, s, k, q);
    if byte_at(s, q) == Some(LBRACE) {
        lemma_shift_block(t, s, k, q);
    } else if sp_peek_keyword(s, q, "include".spec_bytes()) || sp_peek_keyword(s, q, "use".spec_bytes()) {
        lemma_shift_include(t, s, k, q);
    } else if byte_at(s, q) matches Some(b) && is_modifier(b) {
        lemma_skip(t, s, k, q + 1);
        let r = skipped(s, q + 1);
        lemma_shift_statement(t, s, k, r);
    } else if sp_peek_keyword(s, q, "module".spec_bytes()) {
        lemma_shift_module_def(t, s, k, q);
    } else if sp_peek_keyword(s, q, "function".spec_bytes()) {
        lemma_shift_function_def(t, s, k, q);
    } else if sp_peek_keyword(s, q, "if".spec_bytes()) {
        lemma_shift_if(t, s, k, q);
    } else if sp_peek_keyword(s, q, "for".spec_bytes()) || sp_peek_keyword(s, q, "intersection_for".spec_bytes())
        || sp_peek_keyword(s, q, "union_for".spec_bytes()) {
        lemma_shift_for(t, s, k, q);
    } else if sp_peek_keyword(s, q, "let".spec_bytes()) || sp_peek_keyword(s, q, "assign".spec_bytes()) {
        lemma_shift_let(t, s, k, q);
    } else if sp_peek_keyword(s, q, "assert".spec_bytes()) {
        lemma_shift_assert(t, s, k, q);
    } else if ident_at(s, q) {
        let n = ident_len(s, q);
        assert(text_at(s, q, q + n) == text_at(t, k + q, k + (q + n))) by {
            lemma_bytes(t, s, k);
        }
        lemma_skip(t, s, k, q + n);
        let r = skipped(s, q + n);
        assert(byte_at(t, k + r) == byte_at(s, r)) by {
            lemma_bytes(t, s, k);
        }
        if byte_at(s, r) == Some(EQUALS) {
            lemma_shift_expr(t, s, k, r + 1);
            if sp_expr(s, r + 1) is Ok {
                let c = sp_expr(s, r + 1)->Ok_0.0;
                lemma_opt_semicolon(t, s, k, r + 1 + c);
            }
        } else {
            lemma_shift_module_call(t, s, k, q);
        }
    } else if byte_at(s, q) == Some(SEMI) {
    } else {
        lemma_shift_expr(t, s, k, q);
        if sp_expr(s, q) is Ok {
            let c = sp_expr(s, q)->Ok_0.0;
            lemma_opt_semicolon(t, s, k, q + c);
        }
    }
}

/// An optional `;` after layout is taken alike.
proof fn lemma_opt_semicolon(t: Seq<u8>, s: Seq<u8>, k: nat, i: nat)
    requires
        suffix_at(t, s, k),
    ensures
        opt_semicolon(t, k + i) == k + opt_semicolon(s, i),
{
    lemma_skip(t, s, k, i);
    lemma_bytes(t, s, k);
    let q = skipped(s, i);
    assert(byte_at(s, q) == byte_at(t, k + q));
}

#[verifier::rlimit(100)]
#[verifier::spinoff_prover]
proof fn lemma_shift_include(t: Seq<u8>, s: Seq<u8>, k: nat, i: nat)
    requires
        suffix_at(t, s, k),
    ensures
        shifted(sp_include(t, k + i), sp_include(s, i), k),
{
    lemma_peeks(t, s, k, i);
    lemma_keyword_expect(t, s, k, i);
    let kw = if sp_peek_keyword(s, i, "include".spec_bytes()) {
        sp_expect_keyword(s, i, "include")
    } else {
        sp_expect_keyword(s, i, "use")
    };
    if kw is Ok {
        let c0 = kw->Ok_0;
        lemma_skip(t, s, k, i + c0);
        let q = skipped(s, i + c0);
        assert(byte_at(t, k + q) == byte_at(s, q)) by {
            lemma_bytes(t, s, k);
        }
        lemma_err_at(s, KindV::ExpectedIncludePath, q);
        lemma_err_at(t, KindV::ExpectedIncludePath, k + q);
        if byte_at(s, q) == Some(LESS) {
            lemma_angle_body(t, s, k, q + 1);
            let n = angle_body_len(s, q + 1);
            lemma_tokens_expect(t, s, k, q + 1 + n);
            if sp_expect(s, q + 1 + n, GREATER) is Ok {
                let c = sp_expect(s, q + 1 + n, GREATER)->Ok_0;
                lemma_opt_semicolon(t, s, k, q + (1 + n + c));
            }
        } else if byte_at(s, q) == Some(QUOTE) {
            lemma_string_token(t, s, k, q);
            if sp_string(s, q) is Ok {
                let n = sp_string(s, q)->Ok_0.0;
                lemma_opt_semicolon(t, s, k, q + n);
            }
        }
    }
}

#[verifier::rlimit(100)]
#[verifier::spinoff_prover]
proof fn lemma_shift_let(t: Seq<u8>, s: Seq<u8>, k: nat, i: nat)
    requires
        suffix_at(t, s, k),
    ensures
        shifted(sp_let(t, k + i), sp_let(s, i), k),
    decreases rem(s, i), 60int,
{
    unfold_sp_let(t, k + i);
    unfold_sp_let(s, i);
    lemma_tokens(t, s, k, i);
    let kw = if sp_peek_keyword(s, i, "assign".spec_bytes()) {
        sp_expect_keyword(s, i, "assign")
    } else {
        sp_expect_keyword(s, i, "let")
    };
    if kw is Ok {
        let c0 = kw->Ok_0;
        lemma_skip(t, s, k, i + c0);
        let a = skipped(s, i + c0);
        lemma_tokens_expect(t, s, k, a);
        if sp_expect(s, a, LPAREN) is Ok {
            let c1 = sp_expect(s, a, LPAREN)->Ok_0;
            lemma_skip(t, s, k, a + c1);
            let q = skipped(s, a + c1);
            lemma_shift_let_items(t, s, k, q, Seq::empty());
            if sp_let_items(s, q, Seq::empty()) is Ok {
                let c2 = sp_let_items(s, q, Seq::empty())->Ok_0.0;
                lemma_tokens_expect(t, s, k, q + c2);
                if sp_expect(s, q + c2, RPAREN) is Ok {
                    let c3 = sp_expect(s, q + c2, RPAREN)->Ok_0;
                    lemma_skip(t, s, k, q + c2 + c3);
                    let r = skipped(s, q + c2 + c3);
                    lemma_shift_statement(t, s, k, r);
                }
            }
        }
    }
}

#[verifier::rlimit(100)]
#[verifier::spinoff_prover]
proof fn lemma_shift_let_items(t: Seq<u8>, s: Seq<u8>, k: nat, i: nat, acc: Seq<StatementV>)
    requires
        suffix_at(t, s, k),
    ensures
        shifted(sp_let_items(t, k + i, acc), sp_let_items(s, i, acc), k),
    decreases rem(s, i), 59int,
{
    unfold_sp_let_items(t, k + i, acc);
    unfold_sp_let_items(s, i, acc);
    lemma_bytes(t, s, k);
    if byte_at(s, i) != Some(RPAREN) && i < s.len() {
        lemma_ident_token(t, s, k, i);
        if sp_ident(s, i) is Ok {
            let (n, name) = sp_ident(s, i)->Ok_0;
            lemma_skip(t, s, k, i + n);
            let b = skipped(s, i + n);
            lemma_tokens_expect(t, s, k, b);
            if sp_expect(s, b, EQUALS) is Ok {
                let c1 = sp_expect(s, b, EQUALS)->Ok_0;
                lemma_shift_expr(t, s, k, b + c1);
                if sp_expr(s, b + c1) is Ok {
                    let (c2, value) = sp_expr(s, b + c1)->Ok_0;
                    lemma_skip(t, s, k, b + c1 + c2);
                    let w = skipped(s, b + c1 + c2);
                    assert(byte_at(s, w) == byte_at(t, k + w));
                    if byte_at(s, w) == Some(COMMA) {
                        lemma_skip(t, s, k, w + 1);
                        let u = skipped(s, w + 1);
                        lemma_shift_let_items(t, s, k, u, acc.push(StatementV::Assign { name, value }));
                    }
                }
            }
        }
    }
}

#[verifier::rlimit(100)]
#[verifier::spinoff_prover]
proof fn lemma_shift_assert(t: Seq<u8>, s: Seq<u8>, k: nat, i: nat)
    requires
        suffix_at(t, s, k),
    ensures
        shifted(sp_assert(t, k + i), sp_assert(s, i), k),
    decreases rem(s, i), 60int,
{
    unfold_sp_assert(t, k + i);
    unfold_sp_assert(s, i);
    lemma_keyword_expect(t, s, k, i);
    if sp_expect_keyword(s, i, "assert") is Ok {
        let c0 = sp_expect_keyword(s, i, "assert")->Ok_0;
        lemma_skip(t, s, k, i + c0);
        let a = skipped(s, i + c0);
        lemma_tokens_expect(t, s, k, a);
        if sp_expect(s, a, LPAREN) is Ok {
            let c1 = sp_expect(s, a, LPAREN)->Ok_0;
            lemma_shift_expr(t, s, k, a + c1);
            if sp_expr(s, a + c1) is Ok {
                let c2 = sp_expr(s, a + c1)->Ok_0.0;
                lemma_skip(t, s, k, a + c1 + c2);
                let q = skipped(s, a + c1 + c2);
                lemma_bytes(t, s, k);
                assert(byte_at(s, q) == byte_at(t, k + q));
                lemma_shift_expr(t, s, k, q + 1);
                let c3: nat = if byte_at(s, q) == Some(COMMA) && sp_expr(s, q + 1) is Ok {
                    1 + sp_expr(s, q + 1)->Ok_0.0
                } else {
                    0
                };
                lemma_tokens_expect(t, s, k, q + c3);
                if sp_expect(s, q + c3, RPAREN) is Ok {
                    let c4 = sp_expect(s, q + c3, RPAREN)->Ok_0;
                    lemma_tokens(t, s, k, q + c3 + c4);
                }
            }
        }
    }
}

#[verifier::rlimit(100)]
#[verifier::spinoff_prover]
proof fn lemma_shift_module_def(t: Seq<u8>, s: Seq<u8>, k: nat, i: nat)
    requires
        suffix_at(t, s, k),
    ensures
        shifted(sp_module_def(t, k + i), sp_module_def(s, i), k),
    decreases rem(s, i), 60int,
{
    unfold_sp_module_def(t, k + i);
    unfold_sp_module_def(s, i);
    lemma_keyword_expect(t, s, k, i);
    if sp_expect_keyword(s, i, "module") is Ok {
        let c0 = sp_expect_keyword(s, i, "module")->Ok_0;
        lemma_skip(t, s, k, i + c0);
        let q = skipped(s, i + c0);
        lemma_ident_token(t, s, k, q);
        if sp_ident(s, q) is Ok {
            let n = sp_ident(s, q)->Ok_0.0;
            lemma_skip(t, s, k, q + n);
            let a = skipped(s, q + n);
            lemma_tokens_expect(t, s, k, a);
            if sp_expect(s, a, LPAREN) is Ok {
                let c1 = sp_expect(s, a, LPAREN)->Ok_0;
                lemma_shift_params(t, s, k, a + c1);
                if sp_params(s, a + c1) is Ok {
                    let c2 = sp_params(s, a + c1)->Ok_0.0;
                    lemma_tokens_expect(t, s, k, a + c1 + c2);
                    if sp_expect(s, a + c1 + c2, RPAREN) is Ok {
                        let c3 = sp_expect(s, a + c1 + c2, RPAREN)->Ok_0;
                        lemma_skip(t, s, k, a + c1 + c2 + c3);
                        let r = skipped(s, a + c1 + c2 + c3);
                        lemma_shift_statement(t, s, k, r);
                    }
                }
            }
        }
    }
}

#[verifier::rlimit(100)]
#[verifier::spinoff_prover]
proof fn lemma_shift_function_def(t: Seq<u8>, s: Seq<u8>, k: nat, i: nat)
    requires
        suffix_at(t, s, k),
    ensures
        shifted(sp_function_def(t, k + i), sp_function_def(s, i), k),
    decreases rem(s, i), 60int,
{
    unfold_sp_function_def(t, k + i);
    unfold_sp_function_def(s, i);
    lemma_keyword_expect(t, s, k, i);
    if sp_expect_keyword(s, i, "function") is Ok {
        let c0 = sp_expect_keyword(s, i, "function")->Ok_0;
        lemma_skip(t, s, k, i + c0);
        let q = skipped(s, i + c0);
        lemma_ident_token(t, s, k, q);
        if sp_ident(s, q) is Ok {
            let n = sp_ident(s, q)->Ok_0.0;
            lemma_skip(t, s, k, q + n);
            let a = skipped(s, q + n);
            lemma_tokens_expect(t, s, k, a);
            if sp_expect(s, a, LPAREN) is Ok {
                let c1 = sp_expect(s, a, LPAREN)->Ok_0;
                lemma_shift_params(t, s, k, a + c1);
                if sp_params(s, a + c1) is Ok {
                    let c2 = sp_params(s, a + c1)->Ok_0.0;
                    lemma_tokens_expect(t, s, k, a + c1 + c2);
                    if sp_expect(s, a + c1 + c2, RPAREN) is Ok {
                        let c3 = sp_expect(s, a + c1 + c2, RPAREN)->Ok_0;
                        lemma_skip(t, s, k, a + c1 + c2 + c3);
                        let b = skipped(s, a + c1 + c2 + c3);
                        lemma_tokens_expect(t, s, k, b);
                        if sp_expect(s, b, EQUALS) is Ok {
                            let c4 = sp_expect(s, b, EQUALS)->Ok_0;
                            lemma_shift_expr(t, s, k, b + c4);
                            if sp_expr(s, b + c4) is Ok {
                                let c5 = sp_expr(s, b + c4)->Ok_0.0;
                                lemma_tokens(t, s, k, b + c4 + c5);
                            }
                        }
                    }
                }
            }
        }
    }
}

#[verifier::rlimit(100)]
#[verifier::spinoff_prover]
proof fn lemma_shift_if(t: Seq<u8>, s: Seq<u8>, k: nat, i: nat)
    requires
        suffix_at(t, s, k),
    ensures
        shifted(sp_if(t, k + i), sp_if(s, i), k),
    decreases rem(s, i), 60int,
{
    unfold_sp_if(t, k + i);
    unfold_sp_if(s, i);
    lemma_keyword_expect(t, s, k, i);
    if sp_expect_keyword(s, i, "if") is Ok {
        let c0 = sp_expect_keyword(s, i, "if")->Ok_0;
        lemma_skip(t, s, k, i + c0);
        let a = skipped(s, i + c0);
        lemma_tokens_expect(t, s, k, a);
        if sp_expect(s, a, LPAREN) is Ok {
            let c1 = sp_expect(s, a, LPAREN)->Ok_0;
            lemma_shift_expr(t, s, k, a + c1);
            if sp_expr(s, a + c1) is Ok {
                let c2 = sp_expr(s, a + c1)->Ok_0.0;
                lemma_tokens_expect(t, s, k, a + c1 + c2);
                if sp_expect(s, a + c1 + c2, RPAREN) is Ok {
                    let c3 = sp_expect(s, a + c1 + c2, RPAREN)->Ok_0;
                    lemma_skip(t, s, k, a + c1 + c2 + c3);
                    let q = skipped(s, a + c1 + c2 + c3);
                    lemma_shift_statement(t, s, k, q);
                    if sp_statement(s, q) is Ok {
                        let c4 = sp_statement(s, q)->Ok_0.0;
                        lemma_skip(t, s, k, q + c4);
                        let r = skipped(s, q + c4);
                        lemma_peeks(t, s, k, r);
                        lemma_keyword_expect(t, s, k, r);
                        if sp_expect_keyword(s, r, "else") is Ok {
                            let c5 = sp_expect_keyword(s, r, "else")->Ok_0;
                            lemma_skip(t, s, k, r + c5);
                            let w = skipped(s, r + c5);
                            lemma_shift_statement(t, s, k, w);
                        }
                    }
                }
            }
        }
    }
}

#[verifier::rlimit(100)]
#[verifier::spinoff_prover]
proof fn lemma_shift_for(t: Seq<u8>, s: Seq<u8>, k: nat, i: nat)
    requires
        suffix_at(t, s, k),
    ensures
        shifted(sp_for(t, k + i), sp_for(s, i), k),
    decreases rem(s, i), 60int,
{
    unfold_sp_for(t, k + i);
    unfold_sp_for(s, i);
    lemma_tokens(t, s, k, i);
    let kw = if sp_peek_keyword(s, i, "intersection_for".spec_bytes()) {
        sp_expect_keyword(s, i, "intersection_for")
    } else if sp_peek_keyword(s, i, "union_for".spec_bytes()) {
        sp_expect_keyword(s, i, "union_for")
    } else {
        sp_expect_keyword(s, i, "for")
    };
    if kw is Ok {
        let c0 = kw->Ok_0;
        lemma_skip(t, s, k, i + c0);
        let a = skipped(s, i + c0);
        lemma_tokens_expect(t, s, k, a);
        if sp_expect(s, a, LPAREN) is Ok {
            let q = a + sp_expect(s, a, LPAREN)->Ok_0;
            lemma_ident_token(t, s, k, q);
            if sp_ident(s, q) is Ok {
                let n = sp_ident(s, q)->Ok_0.0;
                lemma_skip(t, s, k, q + n);
                let b = skipped(s, q + n);
                lemma_tokens_expect(t, s, k, b);
                if sp_expect(s, b, EQUALS) is Ok {
                    let c2 = sp_expect(s, b, EQUALS)->Ok_0;
                    lemma_shift_expr(t, s, k, b + c2);
                    if sp_expr(s, b + c2) is Ok {
                        let c3 = sp_expr(s, b + c2)->Ok_0.0;
                        lemma_tokens_expect(t, s, k, b + c2 + c3);
                        if sp_expect(s, b + c2 + c3, RPAREN) is Ok {
                            let c4 = sp_expect(s, b + c2 + c3, RPAREN)->Ok_0;
                            lemma_skip(t, s, k, b + c2 + c3 + c4);
                            let r = skipped(s, b + c2 + c3 + c4);
                            lemma_shift_statement(t, s, k, r);
                        }
                    }
                }
            }
        }
    }
}

#[verifier::rlimit(100)]
#[verifier::spinoff_prover]
proof fn lemma_shift_module_call(t: Seq<u8>, s: Seq<u8>, k: nat, i: nat)
    requires
        suffix_at(t, s, k),
    ensures
        shifted(sp_module_call(t, k + i), sp_module_call(s, i), k),
    decreases rem(s, i), 65int,
{
    unfold_sp_module_call(t, k + i);
    unfold_sp_module_call(s, i);
    lemma_ident_token(t, s, k, i);
    if sp_ident(s, i) is Ok {
        let n = sp_ident(s, i)->Ok_0.0;
        lemma_skip(t, s, k, i + n);
        let a = skipped(s, i + n);
        lemma_tokens_expect(t, s, k, a);
        if sp_expect(s, a, LPAREN) is Ok {
            let c1 = sp_expect(s, a, LPAREN)->Ok_0;
            lemma_shift_arg_list(t, s, k, a + c1);
            if sp_arg_list(s, a + c1) is Ok {
                let c2 = sp_arg_list(s, a + c1)->Ok_0.0;
                lemma_tokens_expect(t, s, k, a + c1 + c2);
                if sp_expect(s, a + c1 + c2, RPAREN) is Ok {
                    let c3 = sp_expect(s, a + c1 + c2, RPAREN)->Ok_0;
                    lemma_skip(t, s, k, a + c1 + c2 + c3);
                    let r = skipped(s, a + c1 + c2 + c3);
                    lemma_tokens(t, s, k, r);
                    if byte_at(s, r) == Some(SEMI) {
                    } else if byte_at(s, r) == Some(LBRACE) {
                        lemma_shift_block(t, s, k, r);
                    } else if ident_at(s, r) || sp_peek_keyword(s, r, "if".spec_bytes())
                        || sp_peek_keyword(s, r, "for".spec_bytes()) {
                        lemma_shift_statement(t, s, k, r);
                    }
                }
            }
        }
    }
}

#[verifier::rlimit(100)]
#[verifier::spinoff_prover]
proof fn lemma_shift_block(t: Seq<u8>, s: Seq<u8>, k: nat, i: nat)
    requires
        suffix_at(t, s, k),
    ensures
        shifted(sp_block(t, k + i), sp_block(s, i), k),
    decreases rem(s, i), 60int,
{
    unfold_sp_block(t, k + i);
    unfold_sp_block(s, i);
    lemma_tokens_expect(t, s, k, i);
    if sp_expect(s, i, LBRACE) is Ok {
        let c0 = sp_expect(s, i, LBRACE)->Ok_0;
        lemma_skip(t, s, k, i + c0);
        let q = skipped(s, i + c0);
        lemma_shift_block_items(t, s, k, q, Seq::empty());
        if sp_block_items(s, q, Seq::empty()) is Ok {
            let c1 = sp_block_items(s, q, Seq::empty())->Ok_0.0;
            lemma_tokens_expect(t, s, k, q + c1);
        }
    }
}

#[verifier::rlimit(100)]
#[verifier::spinoff_prover]
proof fn lemma_shift_block_items(t: Seq<u8>, s: Seq<u8>, k: nat, i: nat, acc: Seq<StatementV>)
    requires
        suffix_at(t, s, k),
    ensures
        shifted(sp_block_items(t, k + i, acc), sp_block_items(s, i, acc), k),
    decreases rem(s, i), 71int,
{
    unfold_sp_block_items(t, k + i, acc);
    unfold_sp_block_items(s, i, acc);
    lemma_bytes(t, s, k);
    if byte_at(s, i) != Some(RBRACE) && i < s.len() {
        lemma_shift_statement(t, s, k, i);
        if sp_statement(s, i) is Ok {
            let (n, st) = sp_statement(s, i)->Ok_0;
            if n > 0 {
                lemma_skip(t, s, k, i + n);
                let q = skipped(s, i + n);
                lemma_shift_block_items(t, s, k, q, acc.push(st));
            }
        }
    }
}

} // verus!
