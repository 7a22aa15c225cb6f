//! Properties of the grammar that hold on every input.
use vstd::prelude::*;
use vstd::string::{is_ascii, StringSliceAdditionalSpecFns};
use crate::ast::StatementV;
use crate::shift::{lemma_shift_statement, lemma_skip, suffix_at};
use crate::syntax::{
    block_comment_len, byte_at, ident_len, ident_rest_len, is_ident_char,
    is_modifier, is_space, line_comment_len, line_start, loc_at, pair_at, rem, skip_len, skipped,
    slice, sp_ident, sp_peek_keyword, sp_statement, unfold_sp_statement, LBRACE, NEWLINE, SLASH, STAR,
    from, lemma_from_from, sp_expr, sp_ternary, sp_or, sp_and, sp_compare, sp_add, sp_mul, sp_pow,
    sp_unary, unfold_sp_expr, unfold_sp_ternary, unfold_sp_or, unfold_sp_and, unfold_sp_compare,
    unfold_sp_add, unfold_sp_mul, unfold_sp_pow, unfold_sp_unary, sp_postfix,
};

verus! {

/// Skipping layout twice lands where skipping it once does, and the byte
/// reached starts neither whitespace nor a comment.
pub proof fn lemma_skip_idempotent(s: Seq<u8>, p: nat)
    ensures
        skip_len(s, skipped(s, p)) == 0,
        skipped(s, skipped(s, p)) == skipped(s, p),
        !(byte_at(s, skipped(s, p)) matches Some(b) && is_space(b)),
        !pair_at(s, skipped(s, p), SLASH, SLASH),
        !pair_at(s, skipped(s, p), SLASH, STAR),
    decreases rem(s, p),
{
    if p < s.len() && is_space(s[p as int]) {
        lemma_skip_idempotent(s, p + 1);
    } else if byte_at(s, p) == Some(SLASH) && byte_at(s, p + 1) == Some(SLASH) {
        let k = 2 + line_comment_len(s, p + 2);
        lemma_skip_idempotent(s, p + k);
    } else if byte_at(s, p) == Some(SLASH) && byte_at(s, p + 1) == Some(STAR) {
        let k = 2 + block_comment_len(s, p + 2);
        lemma_skip_idempotent(s, p + k);
    }
}

/// The run of identifier characters from `q`: every byte of it is one, and
/// the byte after it is none.
proof fn lemma_ident_rest(s: Seq<u8>, q: nat)
    ensures
        q + ident_rest_len(s, q) <= s.len() || ident_rest_len(s, q) == 0,
        forall|i: int| q <= i < q + ident_rest_len(s, q) ==> is_ident_char(#[trigger] s[i]),
        !(byte_at(s, q + ident_rest_len(s, q)) matches Some(b) && is_ident_char(b)),
    decreases rem(s, q),
{
    if q < s.len() && is_ident_char(s[q as int]) {
        lemma_ident_rest(s, q + 1);
    }
}

/// An identifier is read as far as identifier characters go: it is not
/// empty, each of its bytes is an identifier character, and the byte after
/// it is none.
pub proof fn lemma_ident_maximal(s: Seq<u8>, p: nat)
    requires
        sp_ident(s, p) is Ok,
    ensures
        ({
            let n = sp_ident(s, p)->Ok_0.0;
            &&& n == ident_len(s, p)
            &&& 0 < n
            &&& p + n <= s.len()
            &&& forall|i: int| p <= i < p + n ==> is_ident_char(#[trigger] s[i])
            &&& !(byte_at(s, p + n) matches Some(b) && is_ident_char(b))
        }),
{
    lemma_ident_rest(s, p + 1);
}

/// A modifier `%`, `*`, `!` or `#` before a statement leaves the statement
/// as it is: the same statement, or the same error, as without it.
pub proof fn lemma_modifier_ignored(s: Seq<u8>, p: nat)
    requires
        byte_at(s, skipped(s, p)) matches Some(b) && is_modifier(b),
    ensures
        ({
            let r = skipped(s, skipped(s, p) + 1);
            match (sp_statement(s, p), sp_statement(s, r)) {
                (Ok((_, a)), Ok((_, b))) => a == b,
                (Err(x), Err(y)) => x == y,
                _ => false,
            }
        }),
{
    let q = skipped(s, p);
    unfold_sp_statement(s, p);
    lemma_keyword_bytes();
    if q + 7 <= s.len() {
        assert(slice(s, q, q + 7)[0] == s[q as int]);
    }
    if q + 3 <= s.len() {
        assert(slice(s, q, q + 3)[0] == s[q as int]);
    }
}

/// The bytes of the statement keywords that the laws below tell apart.
proof fn lemma_keyword_bytes()
    ensures
        "assert".spec_bytes() =~= seq![0x61u8, 0x73u8, 0x73u8, 0x65u8, 0x72u8, 0x74u8],
        "assign".spec_bytes() =~= seq![0x61u8, 0x73u8, 0x73u8, 0x69u8, 0x67u8, 0x6eu8],
        "include".spec_bytes().len() == 7 && "include".spec_bytes()[0] == 0x69u8,
        "use".spec_bytes().len() == 3 && "use".spec_bytes()[0] == 0x75u8,
        "module".spec_bytes().len() == 6 && "module".spec_bytes()[0] == 0x6du8,
        "function".spec_bytes().len() == 8 && "function".spec_bytes()[0] == 0x66u8,
        "if".spec_bytes().len() == 2 && "if".spec_bytes()[0] == 0x69u8,
        "for".spec_bytes().len() == 3 && "for".spec_bytes()[0] == 0x66u8,
        "intersection_for".spec_bytes().len() == 16 && "intersection_for".spec_bytes()[0] == 0x69u8,
        "union_for".spec_bytes().len() == 9 && "union_for".spec_bytes()[0] == 0x75u8,
        "let".spec_bytes().len() == 3 && "let".spec_bytes()[0] == 0x6cu8,
{
    broadcast use vstd::string::is_ascii_spec_bytes;

    reveal_strlit("assert");
    reveal_strlit("assign");
    reveal_strlit("include");
    reveal_strlit("use");
    reveal_strlit("module");
    reveal_strlit("function");
    reveal_strlit("if");
    reveal_strlit("for");
    reveal_strlit("intersection_for");
    reveal_strlit("union_for");
    reveal_strlit("let");
    assert(is_ascii("assert"));
    assert(is_ascii("assign"));
    assert(is_ascii("include"));
    assert(is_ascii("use"));
    assert(is_ascii("module"));
    assert(is_ascii("function"));
    assert(is_ascii("if"));
    assert(is_ascii("for"));
    assert(is_ascii("intersection_for"));
    assert(is_ascii("union_for"));
    assert(is_ascii("let"));
}

/// `assert` statements stand for nothing: when one parses, it parses to an
/// empty block.
pub proof fn lemma_assert_is_empty(s: Seq<u8>, p: nat)
    requires
        sp_peek_keyword(s, skipped(s, p), "assert".spec_bytes()),
        sp_statement(s, p) is Ok,
    ensures
        sp_statement(s, p)->Ok_0.1 == StatementV::Block(Seq::empty()),
{
    let q = skipped(s, p);
    unfold_sp_statement(s, p);
    lemma_keyword_bytes();
    let w = slice(s, q, q + 6);
    assert(w[0] == s[q as int]);
    assert(w[3] == s[q + 3int]);
    assert(byte_at(s, q) == Some(0x61u8));
    assert(byte_at(s, q + 3) == Some(0x65u8));
    assert(q + 7 <= s.len() ==> slice(s, q, q + 7)[0] == s[q as int]);
    assert(q + 3 <= s.len() ==> slice(s, q, q + 3)[0] == s[q as int]);
    assert(q + 2 <= s.len() ==> slice(s, q, q + 2)[0] == s[q as int]);
    assert(q + 8 <= s.len() ==> slice(s, q, q + 8)[0] == s[q as int]);
    assert(q + 9 <= s.len() ==> slice(s, q, q + 9)[0] == s[q as int]);
    assert(q + 16 <= s.len() ==> slice(s, q, q + 16)[0] == s[q as int]);
    assert(slice(s, q, q + 6)[3] == s[q + 3int]);
    crate::syntax::unfold_sp_assert(s, q);
}

/// `include` and `use` statements stand for nothing: when one parses, it
/// parses to an empty block.
pub proof fn lemma_include_is_empty(s: Seq<u8>, p: nat)
    requires
        sp_peek_keyword(s, skipped(s, p), "include".spec_bytes()) || sp_peek_keyword(
            s,
            skipped(s, p),
            "use".spec_bytes(),
        ),
        sp_statement(s, p) is Ok,
    ensures
        sp_statement(s, p)->Ok_0.1 == StatementV::Block(Seq::empty()),
{
    let q = skipped(s, p);
    unfold_sp_statement(s, p);
    lemma_keyword_bytes();
    if q + 7 <= s.len() {
        assert(slice(s, q, q + 7)[0] == s[q as int]);
    }
    if q + 3 <= s.len() {
        assert(slice(s, q, q + 3)[0] == s[q as int]);
    }
    assert(byte_at(s, q) != Some(LBRACE));
}

/// Past a newline the reported location is column 1 of the next line; past
/// any other byte it is one column further on the same line.
pub proof fn lemma_loc_step(s: Seq<u8>, p: nat)
    requires
        0 < p <= s.len(),
    ensures
        s[p - 1] == NEWLINE ==> loc_at(s, p).line == loc_at(s, (p - 1) as nat).line + 1
            && loc_at(s, p).column == 1,
        s[p - 1] != NEWLINE ==> loc_at(s, p).line == loc_at(s, (p - 1) as nat).line
            && loc_at(s, p).column == loc_at(s, (p - 1) as nat).column + 1,
{
    let before = s.take(p as int);
    assert(before.drop_last() =~= s.take(p - 1));
    assert(before.last() == s[p - 1]);
    if s[p - 1] != NEWLINE {
        assert(line_start(before) == line_start(s.take(p - 1)));
        assert(line_start(s.take(p - 1)) <= p - 1) by {
            lemma_line_start_bound(s.take(p - 1));
        }
    }
}

/// A line starts within the text before it.
proof fn lemma_line_start_bound(t: Seq<u8>)
    ensures
        line_start(t) <= t.len(),
    decreases t.len(),
{
    if t.len() > 0 && t.last() != NEWLINE {
        lemma_line_start_bound(t.drop_last());
    }
}

/// Layout before an expression changes nothing but the count of bytes read:
/// the expression at `p` is the one at the end of the layout.
pub proof fn lemma_expr_after_layout(s: Seq<u8>, p: nat)
    ensures
        sp_expr(s, p) == from(p, skipped(s, p), sp_expr(s, skipped(s, p))),
{
    let q = skipped(s, p);
    unfold_sp_expr(s, p);
    unfold_sp_expr(s, q);
    lemma_ternary_after_layout(s, p);
}

proof fn lemma_ternary_after_layout(s: Seq<u8>, p: nat)
    ensures
        sp_ternary(s, p) == from(p, skipped(s, p), sp_ternary(s, skipped(s, p))),
{
    let q = skipped(s, p);
    unfold_sp_ternary(s, p);
    unfold_sp_ternary(s, q);
    lemma_or_after_layout(s, p);
}

proof fn lemma_or_after_layout(s: Seq<u8>, p: nat)
    ensures
        sp_or(s, p) == from(p, skipped(s, p), sp_or(s, skipped(s, p))),
{
    let q = skipped(s, p);
    unfold_sp_or(s, p);
    unfold_sp_or(s, q);
    lemma_and_after_layout(s, p);
    if sp_and(s, q) is Ok {
        let c = sp_and(s, q)->Ok_0.0;
        let l = sp_and(s, q)->Ok_0.1;
        lemma_from_from(p, q, q + c, crate::syntax::sp_or_rest(s, q + c, l));
    }
}

proof fn lemma_and_after_layout(s: Seq<u8>, p: nat)
    ensures
        sp_and(s, p) == from(p, skipped(s, p), sp_and(s, skipped(s, p))),
{
    let q = skipped(s, p);
    unfold_sp_and(s, p);
    unfold_sp_and(s, q);
    lemma_compare_after_layout(s, p);
    if sp_compare(s, q) is Ok {
        let c = sp_compare(s, q)->Ok_0.0;
        let l = sp_compare(s, q)->Ok_0.1;
        lemma_from_from(p, q, q + c, crate::syntax::sp_and_rest(s, q + c, l));
    }
}

proof fn lemma_compare_after_layout(s: Seq<u8>, p: nat)
    ensures
        sp_compare(s, p) == from(p, skipped(s, p), sp_compare(s, skipped(s, p))),
{
    let q = skipped(s, p);
    unfold_sp_compare(s, p);
    unfold_sp_compare(s, q);
    lemma_add_after_layout(s, p);
    if sp_add(s, q) is Ok {
        let c = sp_add(s, q)->Ok_0.0;
        let l = sp_add(s, q)->Ok_0.1;
        lemma_from_from(p, q, q + c, crate::syntax::sp_compare_rest(s, q + c, l));
    }
}

proof fn lemma_add_after_layout(s: Seq<u8>, p: nat)
    ensures
        sp_add(s, p) == from(p, skipped(s, p), sp_add(s, skipped(s, p))),
{
    let q = skipped(s, p);
    unfold_sp_add(s, p);
    unfold_sp_add(s, q);
    lemma_mul_after_layout(s, p);
    if sp_mul(s, q) is Ok {
        let c = sp_mul(s, q)->Ok_0.0;
        let l = sp_mul(s, q)->Ok_0.1;
        lemma_from_from(p, q, q + c, crate::syntax::sp_add_rest(s, q + c, l));
    }
}

proof fn lemma_mul_after_layout(s: Seq<u8>, p: nat)
    ensures
        sp_mul(s, p) == from(p, skipped(s, p), sp_mul(s, skipped(s, p))),
{
    let q = skipped(s, p);
    unfold_sp_mul(s, p);
    unfold_sp_mul(s, q);
    lemma_pow_after_layout(s, p);
    if sp_pow(s, q) is Ok {
        let c = sp_pow(s, q)->Ok_0.0;
        let l = sp_pow(s, q)->Ok_0.1;
        lemma_from_from(p, q, q + c, crate::syntax::sp_mul_rest(s, q + c, l));
    }
}

proof fn lemma_pow_after_layout(s: Seq<u8>, p: nat)
    ensures
        sp_pow(s, p) == from(p, skipped(s, p), sp_pow(s, skipped(s, p))),
{
    let q = skipped(s, p);
    unfold_sp_pow(s, p);
    unfold_sp_pow(s, q);
    lemma_unary_after_layout(s, p);
}

proof fn lemma_unary_after_layout(s: Seq<u8>, p: nat)
    ensures
        sp_unary(s, p) == from(p, skipped(s, p), sp_unary(s, skipped(s, p))),
{
    let q = skipped(s, p);
    lemma_skip_idempotent(s, p);
    unfold_sp_unary(s, p);
    unfold_sp_unary(s, q);
    lemma_from_from(p, q, q, sp_postfix(s, q));
}

/// Layout before a statement changes nothing but the count of bytes read:
/// the statement at `p` is the one at the end of the layout.
pub proof fn lemma_statement_after_layout(s: Seq<u8>, p: nat)
    ensures
        sp_statement(s, p) == from(p, skipped(s, p), sp_statement(s, skipped(s, p))),
{
    let q = skipped(s, p);
    lemma_skip_idempotent(s, p);
    unfold_sp_statement(s, p);
    unfold_sp_statement(s, q);
    lemma_from_from(p, q, q, crate::syntax::sp_block(s, q));
    lemma_from_from(p, q, q, crate::syntax::sp_include(s, q));
    lemma_from_from(p, q, q, crate::syntax::sp_module_def(s, q));
    lemma_from_from(p, q, q, crate::syntax::sp_function_def(s, q));
    lemma_from_from(p, q, q, crate::syntax::sp_if(s, q));
    lemma_from_from(p, q, q, crate::syntax::sp_for(s, q));
    lemma_from_from(p, q, q, crate::syntax::sp_let(s, q));
    lemma_from_from(p, q, q, crate::syntax::sp_assert(s, q));
    lemma_from_from(p, q, q, crate::syntax::sp_module_call(s, q));
    let r = skipped(s, q + 1);
    lemma_from_from(p, q, r, sp_statement(s, r));
}

/// From `q` on, `w` holds a newline: a line comment started before `q`
/// ends inside `w`.
pub open spec fn line_closed(w: Seq<u8>, q: nat) -> bool
    decreases rem(w, q),
{
    if q >= w.len() {
        false
    } else if w[q as int] == NEWLINE {
        true
    } else {
        line_closed(w, q + 1)
    }
}

/// From `q` on, `w` holds a `*/`: a block comment started before `q` ends
/// inside `w`.
pub open spec fn block_closed(w: Seq<u8>, q: nat) -> bool
    decreases rem(w, q),
{
    if q >= w.len() {
        false
    } else if w[q as int] == STAR && byte_at(w, q + 1) == Some(SLASH) {
        true
    } else {
        block_closed(w, q + 1)
    }
}

/// From `p` to its end, `w` is whitespace, line comments closed by their
/// newline, and block comments closed by their `*/`.
pub open spec fn layout_from(w: Seq<u8>, p: nat) -> bool
    decreases rem(w, p),
{
    if p >= w.len() {
        p == w.len()
    } else if is_space(w[p as int]) {
        layout_from(w, p + 1)
    } else if pair_at(w, p, SLASH, SLASH) && line_closed(w, p + 2) {
        layout_from(w, p + 2 + line_comment_len(w, p + 2))
    } else if pair_at(w, p, SLASH, STAR) && block_closed(w, p + 2) {
        layout_from(w, p + 2 + block_comment_len(w, p + 2))
    } else {
        false
    }
}

/// `w` is whitespace and complete comments.
pub open spec fn is_layout(w: Seq<u8>) -> bool {
    layout_from(w, 0)
}

/// A closed line comment reads the same whatever follows it.
proof fn lemma_line_comment_prefix(w: Seq<u8>, s: Seq<u8>, q: nat)
    requires
        line_closed(w, q),
    ensures
        line_comment_len(w + s, q) == line_comment_len(w, q),
    decreases rem(w, q),
{
    assert((w + s)[q as int] == w[q as int]);
    if w[q as int] != NEWLINE {
        lemma_line_comment_prefix(w, s, q + 1);
    }
}

/// A closed block comment reads the same whatever follows it.
proof fn lemma_block_comment_prefix(w: Seq<u8>, s: Seq<u8>, q: nat)
    requires
        block_closed(w, q),
    ensures
        block_comment_len(w + s, q) == block_comment_len(w, q),
    decreases rem(w, q),
{
    assert((w + s)[q as int] == w[q as int]);
    if q + 1 < w.len() {
        assert((w + s)[q + 1 as int] == w[q + 1 as int]);
    }
    if !(w[q as int] == STAR && byte_at(w, q + 1) == Some(SLASH)) {
        lemma_block_comment_prefix(w, s, q + 1);
    }
}

/// Layout is skipped whole, whatever follows it, and then the layout that
/// follows is skipped too.
pub proof fn lemma_layout_skipped(w: Seq<u8>, s: Seq<u8>, p: nat)
    requires
        layout_from(w, p),
    ensures
        skipped(w + s, p) == w.len() + skipped(s, 0),
    decreases rem(w, p),
{
    let t = w + s;
    if p >= w.len() {
        assert(suffix_at(t, s, w.len())) by {
            assert(t.subrange(w.len() as int, t.len() as int) =~= s);
        }
        lemma_skip(t, s, w.len(), 0);
    } else {
        assert(t[p as int] == w[p as int]);
        assert(byte_at(t, p) == byte_at(w, p));
        if p + 1 < w.len() {
            assert(t[p + 1 as int] == w[p + 1 as int]);
            assert(byte_at(t, p + 1) == byte_at(w, p + 1));
        }
        if is_space(w[p as int]) {
            lemma_layout_skipped(w, s, p + 1);
        } else if pair_at(w, p, SLASH, SLASH) && line_closed(w, p + 2) {
            lemma_line_comment_prefix(w, s, p + 2);
            lemma_layout_skipped(w, s, p + 2 + line_comment_len(w, p + 2));
        } else {
            lemma_block_comment_prefix(w, s, p + 2);
            lemma_layout_skipped(w, s, p + 2 + block_comment_len(w, p + 2));
        }
    }
}

/// A modifier `m` (`%`, `*`, `!`, `#`) and layout `w` before a statement
/// `s` are dropped: the text `m w s` parses to the statement that `s` parses
/// to, and it fails exactly where `s` fails, with an error of the same kind,
/// `1 + w.len()` bytes further on.
pub proof fn law_modifier_dropped(m: u8, w: Seq<u8>, s: Seq<u8>)
    requires
        is_modifier(m),
        is_layout(w),
    ensures
        ({
            let t = seq![m] + w + s;
            match (sp_statement(t, 0), sp_statement(s, 0)) {
                (Ok((_, a)), Ok((_, b))) => a == b,
                (Err(x), Err(y)) => x.kind == y.kind && x.pos == y.pos + 1 + w.len(),
                _ => false,
            }
        }),
{
    let t = seq![m] + w + s;
    let k = 1 + w.len();
    assert(suffix_at(t, s, k)) by {
        assert(t.subrange(k as int, t.len() as int) =~= s);
    }
    assert(suffix_at(t, w + s, 1)) by {
        assert(t.subrange(1, t.len() as int) =~= w + s);
    }
    assert(skip_len(t, 0) == 0) by {
        assert(t[0] == m);
        assert(byte_at(t, 0) == Some(m));
    }
    lemma_modifier_ignored(t, 0);
    lemma_layout_skipped(w, s, 0);
    lemma_skip(t, w + s, 1, 0);
    let j = skipped(s, 0);
    assert(skipped(t, 1) == k + j);
    lemma_shift_statement(t, s, k, j);
    lemma_statement_after_layout(s, 0);
}

} // verus!
