//! What the source text reads as, stated from its bytes: which operator an
//! operator byte stands for, which component a `.name` selects, which bytes
//! make up a name, and in what order the items of a list or a block come.
use vstd::prelude::*;
use vstd::string::StringSliceAdditionalSpecFns;
use crate::ast::{BinaryOp, ExprV, StatementV};
use crate::error::ErrorV;
use crate::syntax::{
    byte_at, digit_text, field_index, from, lemma_from_from, skipped, slice, sp_ident, sp_mul,
    sp_mul_rest, sp_postfix_rest, sp_pow, unfold_sp_mul, unfold_sp_mul_rest,
    unfold_sp_postfix_rest, ident_len, ident_rest_len, is_ident_char, is_ident_start, is_digit,
    rem, sp_expr, sp_peek_keyword, sp_statement, unfold_sp_statement, sp_expect, sp_vector,
    sp_vector_items, unfold_sp_vector, unfold_sp_vector_items, sp_block, sp_block_items,
    unfold_sp_block, unfold_sp_block_items, sp_module_call, unfold_sp_module_call, sp_arg_list,
    sp_module_def, unfold_sp_module_def, sp_params, sp_expect_keyword,
};
use crate::laws::lemma_skip_idempotent;
use crate::ast::UnaryOp;
use crate::syntax::{
    sp_add, sp_add_rest, sp_and, sp_and_rest, sp_compare, sp_compare_rest, sp_or, sp_or_rest,
    sp_ternary, sp_unary, unfold_sp_add, unfold_sp_add_rest, unfold_sp_and, unfold_sp_and_rest,
    unfold_sp_compare, unfold_sp_compare_rest, unfold_sp_or, unfold_sp_or_rest, unfold_sp_ternary,
    unfold_sp_unary, unfold_sp_pow, sp_name_or_call, unfold_sp_name_or_call, ident_at,
    sp_list_comp, unfold_sp_list_comp, sp_arg, sp_arg_items, unfold_sp_arg, unfold_sp_arg_items,
    unfold_sp_arg_list, sp_program, sp_program_items, unfold_sp_program_items, sp_if, unfold_sp_if,
};
use crate::ast::{ArgV, ParamV};
use crate::syntax::{sp_param_items, unfold_sp_param_items, unfold_sp_params, sp_for, unfold_sp_for};
use crate::laws::lemma_ident_maximal;
use crate::text::text_at;

verus! {

// ---- operators ----

/// The operator a multiplicative byte stands for: `*` multiplication, `/`
/// division, `%` remainder.
pub open spec fn mul_byte(b: u8) -> Option<BinaryOp> {
    if b == 0x2a {
        Some(BinaryOp::Mul)
    } else if b == 0x2f {
        Some(BinaryOp::Div)
    } else if b == 0x25 {
        Some(BinaryOp::Mod)
    } else {
        None
    }
}

/// `A o B`, with `o` one of `*`, `/`, `%` and no further multiplicative
/// operator after `B`, reads as the operation `o` stands for, applied to
/// what `A` and `B` read as.
pub proof fn law_mul_operator(s: Seq<u8>, p: nat)
    ensures
        sp_pow(s, p) matches Ok((c1, a)) ==> {
            let q = skipped(s, p + c1);
            byte_at(s, q) matches Some(o) ==> mul_byte(o) is Some ==> {
                sp_pow(s, q + 1) matches Ok((c2, b)) ==> {
                    let e = skipped(s, q + 1 + c2);
                    !(byte_at(s, e) matches Some(o2) && mul_byte(o2) is Some) ==> sp_mul(s, p)
                        == Ok::<(nat, ExprV), ErrorV>(
                        (
                            (e - p) as nat,
                            ExprV::Binary {
                                op: mul_byte(o)->Some_0,
                                left: Box::new(a),
                                right: Box::new(b),
                            },
                        ),
                    )
                }
            }
        },
{
    unfold_sp_mul(s, p);
    if sp_pow(s, p) is Ok {
        let (c1, a) = sp_pow(s, p)->Ok_0;
        let q = skipped(s, p + c1);
        unfold_sp_mul_rest(s, p + c1, a);
        if byte_at(s, q) is Some && mul_byte(byte_at(s, q)->Some_0) is Some {
            let o = byte_at(s, q)->Some_0;
            if sp_pow(s, q + 1) is Ok {
                let (c2, b) = sp_pow(s, q + 1)->Ok_0;
                let e = skipped(s, q + 1 + c2);
                let op = mul_byte(o)->Some_0;
                let l = ExprV::Binary { op, left: Box::new(a), right: Box::new(b) };
                unfold_sp_mul_rest(s, q + 1 + c2, l);
                lemma_from_from(p, p + c1, q + 1 + c2, sp_mul_rest(s, q + 1 + c2, l));
            }
        }
    }
}

// ---- components ----

/// The digit of the position that `.name` selects: `x`, `r`, `red` the
/// first (0), `y`, `g`, `green` the second, `z`, `b`, `blue` the third, `a`,
/// `alpha` the fourth; other names none.
pub open spec fn component_digit(f: Seq<u8>) -> Option<char> {
    if f == seq![0x78u8] || f == seq![0x72u8] || f == seq![0x72u8, 0x65u8, 0x64u8] {
        Some('0')
    } else if f == seq![0x79u8] || f == seq![0x67u8] || f == seq![0x67u8, 0x72u8, 0x65u8, 0x65u8, 0x6eu8] {
        Some('1')
    } else if f == seq![0x7au8] || f == seq![0x62u8] || f == seq![0x62u8, 0x6cu8, 0x75u8, 0x65u8] {
        Some('2')
    } else if f == seq![0x61u8] || f == seq![0x61u8, 0x6cu8, 0x70u8, 0x68u8, 0x61u8] {
        Some('3')
    } else {
        None
    }
}

/// The component names, byte by byte, and the digits the component
/// positions are written with.
proof fn lemma_component_names(f: Seq<u8>)
    ensures
        component_digit(f) matches Some(d) ==> field_index(f) matches Some(k) && digit_text(k) == seq![d],
{
    broadcast use vstd::string::is_ascii_spec_bytes;

    reveal_strlit("x");
    reveal_strlit("r");
    reveal_strlit("red");
    reveal_strlit("y");
    reveal_strlit("g");
    reveal_strlit("green");
    reveal_strlit("z");
    reveal_strlit("b");
    reveal_strlit("blue");
    reveal_strlit("a");
    reveal_strlit("alpha");
    reveal_strlit("0");
    reveal_strlit("1");
    reveal_strlit("2");
    reveal_strlit("3");
    assert(vstd::string::is_ascii("x"));
    assert(vstd::string::is_ascii("r"));
    assert(vstd::string::is_ascii("red"));
    assert(vstd::string::is_ascii("y"));
    assert(vstd::string::is_ascii("g"));
    assert(vstd::string::is_ascii("green"));
    assert(vstd::string::is_ascii("z"));
    assert(vstd::string::is_ascii("b"));
    assert(vstd::string::is_ascii("blue"));
    assert(vstd::string::is_ascii("a"));
    assert(vstd::string::is_ascii("alpha"));
    assert("x".spec_bytes() =~= seq![0x78u8]);
    assert("r".spec_bytes() =~= seq![0x72u8]);
    assert("red".spec_bytes() =~= seq![0x72u8, 0x65u8, 0x64u8]);
    assert("y".spec_bytes() =~= seq![0x79u8]);
    assert("g".spec_bytes() =~= seq![0x67u8]);
    assert("green".spec_bytes() =~= seq![0x67u8, 0x72u8, 0x65u8, 0x65u8, 0x6eu8]);
    assert("z".spec_bytes() =~= seq![0x7au8]);
    assert("b".spec_bytes() =~= seq![0x62u8]);
    assert("blue".spec_bytes() =~= seq![0x62u8, 0x6cu8, 0x75u8, 0x65u8]);
    assert("a".spec_bytes() =~= seq![0x61u8]);
    assert("alpha".spec_bytes() =~= seq![0x61u8, 0x6cu8, 0x70u8, 0x68u8, 0x61u8]);
}

/// `e.name` for a component name reads as `e` indexed by the component's
/// position, written as a numeral, exactly as `e[0]` ... `e[3]` do: `.x`,
/// `.r`, `.red` select position 0, and the four component groups select
/// four different positions.
pub proof fn law_component_access(s: Seq<u8>, p: nat, base: ExprV)
    ensures
        ({
            let q = skipped(s, p);
            byte_at(s, q) == Some(0x2eu8) ==> (sp_ident(s, q + 1) matches Ok((n, _)) ==> (component_digit(
                slice(s, q + 1, q + 1 + n),
            ) matches Some(d) ==> sp_postfix_rest(s, p, base) == from(
                p,
                q + 1 + n,
                sp_postfix_rest(
                    s,
                    q + 1 + n,
                    ExprV::Index { base: Box::new(base), index: Box::new(ExprV::Number(seq![d])) },
                ),
            )))
        }),
{
    let q = skipped(s, p);
    unfold_sp_postfix_rest(s, p, base);
    if sp_ident(s, q + 1) is Ok {
        let n = sp_ident(s, q + 1)->Ok_0.0;
        lemma_component_names(slice(s, q + 1, q + 1 + n));
    }
}

// ---- names ----

/// The bytes a name may start with: letters, `_` and `$`.
pub open spec fn name_start_byte(b: u8) -> bool {
    (0x61u8 <= b <= 0x7au8) || (0x41u8 <= b <= 0x5au8) || b == 0x5fu8 || b == 0x24u8
}

/// The bytes a name may go on with: those, and the digits.
pub open spec fn name_byte(b: u8) -> bool {
    name_start_byte(b) || (0x30u8 <= b <= 0x39u8)
}

/// A name is read at `p` exactly when a letter, `_` or `$` stands there;
/// it is then the longest run of letters, digits, `_` and `$` from `p`,
/// and stands for the text of those bytes.
pub proof fn law_name(s: Seq<u8>, p: nat)
    ensures
        sp_ident(s, p) is Ok <==> (byte_at(s, p) matches Some(b) && name_start_byte(b)),
        sp_ident(s, p) matches Ok((n, name)) ==> {
            &&& 0 < n
            &&& p + n <= s.len()
            &&& forall|i: int| p <= i < p + n ==> name_byte(#[trigger] s[i])
            &&& !(byte_at(s, p + n) matches Some(b) && name_byte(b))
            &&& name == text_at(s, p, p + n)
        },
{
    assert forall|b: u8| #[trigger] is_ident_char(b) == name_byte(b) by {}
    if sp_ident(s, p) is Ok {
        lemma_ident_maximal(s, p);
    }
}

/// The words that start a statement of their own kind, byte by byte.
pub open spec fn statement_keyword(f: Seq<u8>) -> bool {
    f == seq![0x69u8, 0x6eu8, 0x63u8, 0x6cu8, 0x75u8, 0x64u8, 0x65u8] ||
    f == seq![0x75u8, 0x73u8, 0x65u8] ||
    f == seq![0x6du8, 0x6fu8, 0x64u8, 0x75u8, 0x6cu8, 0x65u8] ||
    f == seq![0x66u8, 0x75u8, 0x6eu8, 0x63u8, 0x74u8, 0x69u8, 0x6fu8, 0x6eu8] ||
    f == seq![0x69u8, 0x66u8] ||
    f == seq![0x66u8, 0x6fu8, 0x72u8] ||
    f == seq![0x69u8, 0x6eu8, 0x74u8, 0x65u8, 0x72u8, 0x73u8, 0x65u8, 0x63u8, 0x74u8, 0x69u8, 0x6fu8, 0x6eu8, 0x5fu8, 0x66u8, 0x6fu8, 0x72u8] ||
    f == seq![0x75u8, 0x6eu8, 0x69u8, 0x6fu8, 0x6eu8, 0x5fu8, 0x66u8, 0x6fu8, 0x72u8] ||
    f == seq![0x6cu8, 0x65u8, 0x74u8] ||
    f == seq![0x61u8, 0x73u8, 0x73u8, 0x69u8, 0x67u8, 0x6eu8] ||
    f == seq![0x61u8, 0x73u8, 0x73u8, 0x65u8, 0x72u8, 0x74u8]
}

proof fn lemma_statement_keyword_bytes()
    ensures
        "include".spec_bytes() == seq![0x69u8, 0x6eu8, 0x63u8, 0x6cu8, 0x75u8, 0x64u8, 0x65u8],
        "use".spec_bytes() == seq![0x75u8, 0x73u8, 0x65u8],
        "module".spec_bytes() == seq![0x6du8, 0x6fu8, 0x64u8, 0x75u8, 0x6cu8, 0x65u8],
        "function".spec_bytes() == seq![0x66u8, 0x75u8, 0x6eu8, 0x63u8, 0x74u8, 0x69u8, 0x6fu8, 0x6eu8],
        "if".spec_bytes() == seq![0x69u8, 0x66u8],
        "for".spec_bytes() == seq![0x66u8, 0x6fu8, 0x72u8],
        "intersection_for".spec_bytes() == seq![0x69u8, 0x6eu8, 0x74u8, 0x65u8, 0x72u8, 0x73u8, 0x65u8, 0x63u8, 0x74u8, 0x69u8, 0x6fu8, 0x6eu8, 0x5fu8, 0x66u8, 0x6fu8, 0x72u8],
        "union_for".spec_bytes() == seq![0x75u8, 0x6eu8, 0x69u8, 0x6fu8, 0x6eu8, 0x5fu8, 0x66u8, 0x6fu8, 0x72u8],
        "let".spec_bytes() == seq![0x6cu8, 0x65u8, 0x74u8],
        "assign".spec_bytes() == seq![0x61u8, 0x73u8, 0x73u8, 0x69u8, 0x67u8, 0x6eu8],
        "assert".spec_bytes() == seq![0x61u8, 0x73u8, 0x73u8, 0x65u8, 0x72u8, 0x74u8],
{
    broadcast use vstd::string::is_ascii_spec_bytes;

    reveal_strlit("include");
    assert(vstd::string::is_ascii("include"));
    assert("include".spec_bytes() =~= seq![0x69u8, 0x6eu8, 0x63u8, 0x6cu8, 0x75u8, 0x64u8, 0x65u8]);
    reveal_strlit("use");
    assert(vstd::string::is_ascii("use"));
    assert("use".spec_bytes() =~= seq![0x75u8, 0x73u8, 0x65u8]);
    reveal_strlit("module");
    assert(vstd::string::is_ascii("module"));
    assert("module".spec_bytes() =~= seq![0x6du8, 0x6fu8, 0x64u8, 0x75u8, 0x6cu8, 0x65u8]);
    reveal_strlit("function");
    assert(vstd::string::is_ascii("function"));
    assert("function".spec_bytes() =~= seq![0x66u8, 0x75u8, 0x6eu8, 0x63u8, 0x74u8, 0x69u8, 0x6fu8, 0x6eu8]);
    reveal_strlit("if");
    assert(vstd::string::is_ascii("if"));
    assert("if".spec_bytes() =~= seq![0x69u8, 0x66u8]);
    reveal_strlit("for");
    assert(vstd::string::is_ascii("for"));
    assert("for".spec_bytes() =~= seq![0x66u8, 0x6fu8, 0x72u8]);
    reveal_strlit("intersection_for");
    assert(vstd::string::is_ascii("intersection_for"));
    assert("intersection_for".spec_bytes() =~= seq![0x69u8, 0x6eu8, 0x74u8, 0x65u8, 0x72u8, 0x73u8, 0x65u8, 0x63u8, 0x74u8, 0x69u8, 0x6fu8, 0x6eu8, 0x5fu8, 0x66u8, 0x6fu8, 0x72u8]);
    reveal_strlit("union_for");
    assert(vstd::string::is_ascii("union_for"));
    assert("union_for".spec_bytes() =~= seq![0x75u8, 0x6eu8, 0x69u8, 0x6fu8, 0x6eu8, 0x5fu8, 0x66u8, 0x6fu8, 0x72u8]);
    reveal_strlit("let");
    assert(vstd::string::is_ascii("let"));
    assert("let".spec_bytes() =~= seq![0x6cu8, 0x65u8, 0x74u8]);
    reveal_strlit("assign");
    assert(vstd::string::is_ascii("assign"));
    assert("assign".spec_bytes() =~= seq![0x61u8, 0x73u8, 0x73u8, 0x69u8, 0x67u8, 0x6eu8]);
    reveal_strlit("assert");
    assert(vstd::string::is_ascii("assert"));
    assert("assert".spec_bytes() =~= seq![0x61u8, 0x73u8, 0x73u8, 0x65u8, 0x72u8, 0x74u8]);
}

/// A keyword made of name bytes stands at the start of a name only when it
/// is that whole name.
proof fn lemma_keyword_is_whole_name(s: Seq<u8>, q: nat, kw: Seq<u8>)
    requires
        sp_ident(s, q) is Ok,
        forall|i: int| 0 <= i < kw.len() ==> is_ident_char(#[trigger] kw[i]),
        sp_peek_keyword(s, q, kw),
    ensures
        slice(s, q, q + ident_len(s, q)) == kw,
{
    lemma_ident_maximal(s, q);
    let n = ident_len(s, q);
    if kw.len() < n {
        assert(is_ident_char(s[(q + kw.len()) as int]));
    } else if kw.len() > n {
        assert(slice(s, q, q + kw.len())[n as int] == s[(q + n) as int]);
        assert(is_ident_char(kw[n as int]));
    } else {
    }
}

/// At a name that is no keyword, no statement keyword stands.
#[verifier::spinoff_prover]
proof fn lemma_no_keyword(s: Seq<u8>, q: nat)
    requires
        sp_ident(s, q) is Ok,
        !statement_keyword(slice(s, q, q + ident_len(s, q))),
    ensures
        !sp_peek_keyword(s, q, "include".spec_bytes()),
        !sp_peek_keyword(s, q, "use".spec_bytes()),
        !sp_peek_keyword(s, q, "module".spec_bytes()),
        !sp_peek_keyword(s, q, "function".spec_bytes()),
        !sp_peek_keyword(s, q, "if".spec_bytes()),
        !sp_peek_keyword(s, q, "for".spec_bytes()),
        !sp_peek_keyword(s, q, "intersection_for".spec_bytes()),
        !sp_peek_keyword(s, q, "union_for".spec_bytes()),
        !sp_peek_keyword(s, q, "let".spec_bytes()),
        !sp_peek_keyword(s, q, "assign".spec_bytes()),
        !sp_peek_keyword(s, q, "assert".spec_bytes()),
{
    lemma_statement_keyword_bytes();
    if sp_peek_keyword(s, q, "include".spec_bytes()) {
        lemma_keyword_is_whole_name(s, q, "include".spec_bytes());
    }
    if sp_peek_keyword(s, q, "use".spec_bytes()) {
        lemma_keyword_is_whole_name(s, q, "use".spec_bytes());
    }
    if sp_peek_keyword(s, q, "module".spec_bytes()) {
        lemma_keyword_is_whole_name(s, q, "module".spec_bytes());
    }
    if sp_peek_keyword(s, q, "function".spec_bytes()) {
        lemma_keyword_is_whole_name(s, q, "function".spec_bytes());
    }
    if sp_peek_keyword(s, q, "if".spec_bytes()) {
        lemma_keyword_is_whole_name(s, q, "if".spec_bytes());
    }
    if sp_peek_keyword(s, q, "for".spec_bytes()) {
        lemma_keyword_is_whole_name(s, q, "for".spec_bytes());
    }
    if sp_peek_keyword(s, q, "intersection_for".spec_bytes()) {
        lemma_keyword_is_whole_name(s, q, "intersection_for".spec_bytes());
    }
    if sp_peek_keyword(s, q, "union_for".spec_bytes()) {
        lemma_keyword_is_whole_name(s, q, "union_for".spec_bytes());
    }
    if sp_peek_keyword(s, q, "let".spec_bytes()) {
        lemma_keyword_is_whole_name(s, q, "let".spec_bytes());
    }
    if sp_peek_keyword(s, q, "assign".spec_bytes()) {
        lemma_keyword_is_whole_name(s, q, "assign".spec_bytes());
    }
    if sp_peek_keyword(s, q, "assert".spec_bytes()) {
        lemma_keyword_is_whole_name(s, q, "assert".spec_bytes());
    }
}

/// A statement that starts with a name other than a keyword, followed by
/// `=` and an expression, is the assignment of that expression to that
/// name: so `$fn = 32;` assigns `32` to `$fn`.
#[verifier::spinoff_prover]
pub proof fn law_assignment(s: Seq<u8>, p: nat)
    ensures
        ({
            let q = skipped(s, p);
            sp_ident(s, q) matches Ok((n, name)) ==> (!statement_keyword(slice(s, q, q + n)) ==> ({
                let r = skipped(s, q + n);
                byte_at(s, r) == Some(0x3du8) ==> (sp_expr(s, r + 1) matches Ok((c, v)) ==> (
                sp_statement(s, p) matches Ok((_, st)) && st == (StatementV::Assign { name, value: v })))
            }))
        }),
{
    let q = skipped(s, p);
    if sp_ident(s, q) is Ok {
        let n = sp_ident(s, q)->Ok_0.0;
        if !statement_keyword(slice(s, q, q + n)) {
            lemma_no_keyword(s, q);
            unfold_sp_statement(s, p);
        }
    }
}

// ---- lists ----

/// After a list element whose text and layout end at `r`: when a `,` and
/// then an element (rather than `]`) follow, the `i`-th of the elements
/// from there on, each read where the one before it and its `,` end.
pub open spec fn later_item(s: Seq<u8>, r: nat, i: nat) -> Option<ExprV>
    decreases i,
{
    if byte_at(s, r) == Some(0x2cu8) {
        let q = skipped(s, r + 1);
        if byte_at(s, q) == Some(0x5du8) {
            None
        } else {
            match sp_expr(s, q) {
                Ok((c, e)) => if i == 0 {
                    Some(e)
                } else {
                    later_item(s, skipped(s, q + c), (i - 1) as nat)
                },
                Err(_) => None,
            }
        }
    } else {
        None
    }
}

/// The `i`-th element, in source order, of a list whose first element
/// starts at `q`.
pub open spec fn list_item(s: Seq<u8>, q: nat, i: nat) -> Option<ExprV> {
    match sp_expr(s, q) {
        Ok((c, e)) => if i == 0 {
            Some(e)
        } else {
            later_item(s, skipped(s, q + c), (i - 1) as nat)
        },
        Err(_) => None,
    }
}

#[verifier::spinoff_prover]
proof fn lemma_vector_items(s: Seq<u8>, r: nat, acc: Seq<ExprV>)
    ensures
        sp_vector_items(s, r, acc) matches Ok((_, x)) ==> (x matches ExprV::Vector(w) && {
            &&& w.len() >= acc.len()
            &&& w.subrange(0, acc.len() as int) == acc
            &&& forall|i: nat| i < w.len() - acc.len() ==> #[trigger] later_item(s, r, i) == Some(w[acc.len() + i as int])
            &&& later_item(s, r, (w.len() - acc.len()) as nat) is None
        }),
    decreases rem(s, r),
{
    unfold_sp_vector_items(s, r, acc);
    if byte_at(s, r) == Some(0x2cu8) {
        let q = skipped(s, r + 1);
        if byte_at(s, q) != Some(0x5du8) && sp_expr(s, q) is Ok {
            let (c, e) = sp_expr(s, q)->Ok_0;
            let r2 = skipped(s, q + c);
            lemma_vector_items(s, r2, acc.push(e));
            if sp_vector_items(s, r, acc) is Ok {
                let w = sp_vector_items(s, r2, acc.push(e))->Ok_0.1->Vector_0;
                assert(w.subrange(0, acc.len() as int) =~= acc) by {
                    assert(w.subrange(0, acc.len() as int + 1) == acc.push(e));
                }
                assert(w[acc.len() as int] == e) by {
                    assert(w.subrange(0, acc.len() as int + 1)[acc.len() as int] == acc.push(e)[acc.len() as int]);
                }
                assert forall|i: nat| i < w.len() - acc.len() implies #[trigger] later_item(s, r, i) == Some(w[acc.len() + i as int]) by {
                    if i > 0 {
                        assert(later_item(s, r, i) == later_item(s, r2, (i - 1) as nat));
                        assert(acc.push(e).len() + (i - 1) == acc.len() + i);
                    }
                }
                assert(later_item(s, r, (w.len() - acc.len()) as nat) == later_item(s, r2, (w.len() - acc.push(e).len()) as nat));
            }
        }
    }
    if sp_vector_items(s, r, acc) is Ok {
        assert(acc.subrange(0, acc.len() as int) =~= acc);
    }
}

/// A list literal `[e1, ..., en]` (no range, no comprehension) reads as a
/// vector of `n >= 1` elements, the `i`-th being what `ei` reads as, in
/// source order; `[e]` is the vector of the one element `e`, not `e`.
pub proof fn law_list_items(s: Seq<u8>, p: nat)
    ensures
        sp_expect(s, p, 0x5bu8) matches Ok(c0) ==> ({
            let q = skipped(s, p + c0);
            !sp_peek_keyword(s, q, "for".spec_bytes()) ==> (byte_at(s, q) != Some(0x5du8) ==> (
            sp_expr(s, q) matches Ok((c1, first)) ==> (byte_at(s, skipped(s, q + c1)) != Some(0x3au8)
                ==> (sp_vector(s, p) matches Ok((_, x)) ==> (x matches ExprV::Vector(w) && {
                &&& w.len() >= 1
                &&& forall|i: nat| i < w.len() ==> #[trigger] list_item(s, q, i) == Some(w[i as int])
                &&& list_item(s, q, w.len()) is None
            })))))
        }),
{
    unfold_sp_vector(s, p);
    if sp_expect(s, p, 0x5bu8) is Ok {
        let c0 = sp_expect(s, p, 0x5bu8)->Ok_0;
        let q = skipped(s, p + c0);
        if sp_expr(s, q) is Ok {
            let (c1, first) = sp_expr(s, q)->Ok_0;
            let r = skipped(s, q + c1);
            lemma_vector_items(s, r, seq![first]);
            if !sp_peek_keyword(s, q, "for".spec_bytes()) && byte_at(s, q) != Some(0x5du8) && byte_at(s, r)
                != Some(0x3au8) && sp_vector(s, p) is Ok {
                let w = sp_vector_items(s, r, seq![first])->Ok_0.1->Vector_0;
                assert(w[0] == first) by {
                    assert(w.subrange(0, 1)[0] == seq![first][0]);
                }
                assert forall|i: nat| i < w.len() implies #[trigger] list_item(s, q, i) == Some(w[i as int]) by {
                    if i > 0 {
                        assert(list_item(s, q, i) == later_item(s, r, (i - 1) as nat));
                    }
                }
            }
        }
    }
}

// ---- blocks ----

/// From `q`, the `i`-th statement, in source order, of a run of statements:
/// each is read where the one before it and its layout end, and the run
/// stops at `}`, at the end of the text, or at a statement that reads no
/// bytes.
pub open spec fn run_stmt(s: Seq<u8>, q: nat, i: nat) -> Option<StatementV>
    decreases i,
{
    if byte_at(s, q) != Some(0x7du8) && q < s.len() {
        match sp_statement(s, q) {
            Ok((n, st)) => if n > 0 {
                if i == 0 {
                    Some(st)
                } else {
                    run_stmt(s, skipped(s, q + n), (i - 1) as nat)
                }
            } else {
                None
            },
            Err(_) => None,
        }
    } else {
        None
    }
}

/// `w` is exactly the run of statements from `q`, in source order.
pub open spec fn is_run(s: Seq<u8>, q: nat, w: Seq<StatementV>) -> bool {
    &&& forall|i: nat| i < w.len() ==> #[trigger] run_stmt(s, q, i) == Some(w[i as int])
    &&& run_stmt(s, q, w.len()) is None
}

#[verifier::spinoff_prover]
proof fn lemma_block_items(s: Seq<u8>, q: nat, acc: Seq<StatementV>)
    ensures
        sp_block_items(s, q, acc) matches Ok((_, w)) ==> {
            &&& w.len() >= acc.len()
            &&& w.subrange(0, acc.len() as int) == acc
            &&& forall|i: nat| i < w.len() - acc.len() ==> #[trigger] run_stmt(s, q, i) == Some(w[acc.len() + i as int])
            &&& run_stmt(s, q, (w.len() - acc.len()) as nat) is None
        },
    decreases rem(s, q),
{
    unfold_sp_block_items(s, q, acc);
    if byte_at(s, q) != Some(0x7du8) && q < s.len() && sp_statement(s, q) is Ok {
        let (n, st) = sp_statement(s, q)->Ok_0;
        if n > 0 {
            let q2 = skipped(s, q + n);
            lemma_block_items(s, q2, acc.push(st));
            if sp_block_items(s, q, acc) is Ok {
                let w = sp_block_items(s, q2, acc.push(st))->Ok_0.1;
                assert(w.subrange(0, acc.len() as int) =~= acc) by {
                    assert(w.subrange(0, acc.len() as int + 1) == acc.push(st));
                }
                assert(w[acc.len() as int] == st) by {
                    assert(w.subrange(0, acc.len() as int + 1)[acc.len() as int] == acc.push(st)[acc.len() as int]);
                }
                assert forall|i: nat| i < w.len() - acc.len() implies #[trigger] run_stmt(s, q, i) == Some(w[acc.len() + i as int]) by {
                    if i > 0 {
                        assert(run_stmt(s, q, i) == run_stmt(s, q2, (i - 1) as nat));
                    }
                }
                assert(run_stmt(s, q, (w.len() - acc.len()) as nat) == run_stmt(s, q2, (w.len() - acc.push(st).len()) as nat));
            }
        }
    }
    if sp_block_items(s, q, acc) is Ok {
        assert(acc.subrange(0, acc.len() as int) =~= acc);
    }
}

/// A block `{ S1 ... Sn }` at `p` (after layout) holds its statements in
/// source order: exactly the run of statements after its `{`.
pub proof fn law_block_statements(s: Seq<u8>, p: nat)
    ensures
        byte_at(s, p) == Some(0x7bu8) ==> (sp_block(s, p) matches Ok((_, x)) ==> (x matches StatementV::Block(
            w,
        ) && is_run(s, skipped(s, p + 1), w))),
{
    unfold_sp_block(s, p);
    if byte_at(s, p) == Some(0x7bu8) && sp_block(s, p) is Ok {
        lemma_skip_idempotent(s, p);
        assert(skipped(s, p) == p);
        let q = skipped(s, p + 1);
        lemma_block_items(s, q, Seq::empty());
        let w = sp_block_items(s, q, Seq::empty())->Ok_0.1;
        assert(w.subrange(0, 0) =~= Seq::<StatementV>::empty());
        assert forall|i: nat| i < w.len() implies #[trigger] run_stmt(s, q, i) == Some(w[i as int]) by {
            assert(run_stmt(s, q, i) == Some(w[0 + i as int]));
        }
    }
}

/// A module call `m(args) { S1 ... Sn }` with a braced body has as its
/// children the statements of the body, in source order: exactly the run
/// of statements after the `{`.
#[verifier::spinoff_prover]
pub proof fn law_call_children(s: Seq<u8>, p: nat)
    ensures
        sp_ident(s, p) matches Ok((n, _)) ==> ({
            let a = skipped(s, p + n);
            sp_expect(s, a, 0x28u8) matches Ok(c1) ==> (sp_arg_list(s, a + c1) matches Ok((c2, _)) ==> (
            sp_expect(s, a + c1 + c2, 0x29u8) matches Ok(c3) ==> ({
                let r = skipped(s, a + c1 + c2 + c3);
                byte_at(s, r) == Some(0x7bu8) ==> (sp_module_call(s, p) matches Ok((_, x)) ==> (
                x matches StatementV::ModuleCall { children, .. } && is_run(s, skipped(s, r + 1), children)))
            })))
        }),
{
    unfold_sp_module_call(s, p);
    if sp_ident(s, p) is Ok {
        let n = sp_ident(s, p)->Ok_0.0;
        let a = skipped(s, p + n);
        if sp_expect(s, a, 0x28u8) is Ok {
            let c1 = sp_expect(s, a, 0x28u8)->Ok_0;
            if sp_arg_list(s, a + c1) is Ok {
                let c2 = sp_arg_list(s, a + c1)->Ok_0.0;
                if sp_expect(s, a + c1 + c2, 0x29u8) is Ok {
                    let c3 = sp_expect(s, a + c1 + c2, 0x29u8)->Ok_0;
                    let r = skipped(s, a + c1 + c2 + c3);
                    law_block_statements(s, r);
                }
            }
        }
    }
}

/// A module definition `module m(params) { S1 ... Sn }` with a braced body
/// has as its body the statements of the block, in source order: exactly
/// the run of statements after the `{`.
#[verifier::spinoff_prover]
pub proof fn law_module_body(s: Seq<u8>, p: nat)
    ensures
        sp_expect_keyword(s, p, "module") matches Ok(c0) ==> ({
            let q = skipped(s, p + c0);
            sp_ident(s, q) matches Ok((n, _)) ==> ({
                let a = skipped(s, q + n);
                sp_expect(s, a, 0x28u8) matches Ok(c1) ==> (sp_params(s, a + c1) matches Ok((c2, _)) ==> (
                sp_expect(s, a + c1 + c2, 0x29u8) matches Ok(c3) ==> ({
                    let r = skipped(s, a + c1 + c2 + c3);
                    byte_at(s, r) == Some(0x7bu8) ==> (sp_module_def(s, p) matches Ok((_, x)) ==> (
                    x matches StatementV::ModuleDef { body, .. } && is_run(s, skipped(s, r + 1), body)))
                })))
            })
        }),
{
    unfold_sp_module_def(s, p);
    if sp_expect_keyword(s, p, "module") is Ok {
        let c0 = sp_expect_keyword(s, p, "module")->Ok_0;
        let q = skipped(s, p + c0);
        if sp_ident(s, q) is Ok {
            let n = sp_ident(s, q)->Ok_0.0;
            let a = skipped(s, q + n);
            if sp_expect(s, a, 0x28u8) is Ok {
                let c1 = sp_expect(s, a, 0x28u8)->Ok_0;
                if sp_params(s, a + c1) is Ok {
                    let c2 = sp_params(s, a + c1)->Ok_0.0;
                    if sp_expect(s, a + c1 + c2, 0x29u8) is Ok {
                        let c3 = sp_expect(s, a + c1 + c2, 0x29u8)->Ok_0;
                        let r = skipped(s, a + c1 + c2 + c3);
                        lemma_skip_idempotent(s, a + c1 + c2 + c3);
                        unfold_sp_statement(s, r);
                        law_block_statements(s, r);
                    }
                }
            }
        }
    }
}

// ---- the other operators ----

/// The additive operator at `q`: `+` addition, `-` subtraction; each one
/// byte long.
pub open spec fn add_bytes(s: Seq<u8>, q: nat) -> Option<(BinaryOp, nat)> {
    if byte_at(s, q) == Some(0x2bu8) {
        Some((BinaryOp::Add, 1))
    } else if byte_at(s, q) == Some(0x2du8) {
        Some((BinaryOp::Sub, 1))
    } else {
        None
    }
}

/// The comparison at `q`, with its length: `==` equal, `!=` not equal, `<=`
/// at most, `>=` at least, and, when no `=` follows, `<` less and `>`
/// greater.
pub open spec fn compare_bytes(s: Seq<u8>, q: nat) -> Option<(BinaryOp, nat)> {
    let b0 = byte_at(s, q);
    let eq_next = byte_at(s, q + 1) == Some(0x3du8);
    if b0 == Some(0x3du8) && eq_next {
        Some((BinaryOp::Eq, 2))
    } else if b0 == Some(0x21u8) && eq_next {
        Some((BinaryOp::Ne, 2))
    } else if b0 == Some(0x3cu8) && eq_next {
        Some((BinaryOp::Le, 2))
    } else if b0 == Some(0x3eu8) && eq_next {
        Some((BinaryOp::Ge, 2))
    } else if b0 == Some(0x3cu8) {
        Some((BinaryOp::Lt, 1))
    } else if b0 == Some(0x3eu8) {
        Some((BinaryOp::Gt, 1))
    } else {
        None
    }
}

/// `&&` at `q`: conjunction.
pub open spec fn and_bytes(s: Seq<u8>, q: nat) -> Option<(BinaryOp, nat)> {
    if byte_at(s, q) == Some(0x26u8) && byte_at(s, q + 1) == Some(0x26u8) {
        Some((BinaryOp::And, 2))
    } else {
        None
    }
}

/// `||` at `q`: disjunction.
pub open spec fn or_bytes(s: Seq<u8>, q: nat) -> Option<(BinaryOp, nat)> {
    if byte_at(s, q) == Some(0x7cu8) && byte_at(s, q + 1) == Some(0x7cu8) {
        Some((BinaryOp::Or, 2))
    } else {
        None
    }
}

/// `A o B`, with `o` one of `+`, `-` and no further such operator after `B`,
/// reads as the operation `o` stands for, applied to what `A` and `B` read as.
#[verifier::spinoff_prover]
pub proof fn law_add_operator(s: Seq<u8>, p: nat)
    ensures
        sp_mul(s, p) matches Ok((c1, a)) ==> ({
            let q = skipped(s, p + c1);
            add_bytes(s, q) matches Some((op, k)) ==> (sp_mul(s, q + k) matches Ok((c2, b)) ==> ({
                let e = skipped(s, q + k + c2);
                add_bytes(s, e) is None ==> sp_add(s, p) == Ok::<(nat, ExprV), ErrorV>(
                    ((e - p) as nat, ExprV::Binary { op, left: Box::new(a), right: Box::new(b) }),
                )
            }))
        }),
{
    unfold_sp_add(s, p);
    if sp_mul(s, p) is Ok {
        let (c1, a) = sp_mul(s, p)->Ok_0;
        let q = skipped(s, p + c1);
        unfold_sp_add_rest(s, p + c1, a);
        if add_bytes(s, q) is Some {
            let (op, k) = add_bytes(s, q)->Some_0;
            if sp_mul(s, q + k) is Ok {
                let (c2, b) = sp_mul(s, q + k)->Ok_0;
                let l = ExprV::Binary { op, left: Box::new(a), right: Box::new(b) };
                unfold_sp_add_rest(s, q + k + c2, l);
                lemma_from_from(p, p + c1, q + k + c2, sp_add_rest(s, q + k + c2, l));
            }
        }
    }
}

/// `A o B`, with `o` a comparison and no further such operator after `B`,
/// reads as the operation `o` stands for, applied to what `A` and `B` read as.
#[verifier::spinoff_prover]
pub proof fn law_compare_operator(s: Seq<u8>, p: nat)
    ensures
        sp_add(s, p) matches Ok((c1, a)) ==> ({
            let q = skipped(s, p + c1);
            compare_bytes(s, q) matches Some((op, k)) ==> (sp_add(s, q + k) matches Ok((c2, b)) ==> ({
                let e = skipped(s, q + k + c2);
                compare_bytes(s, e) is None ==> sp_compare(s, p) == Ok::<(nat, ExprV), ErrorV>(
                    ((e - p) as nat, ExprV::Binary { op, left: Box::new(a), right: Box::new(b) }),
                )
            }))
        }),
{
    unfold_sp_compare(s, p);
    if sp_add(s, p) is Ok {
        let (c1, a) = sp_add(s, p)->Ok_0;
        let q = skipped(s, p + c1);
        unfold_sp_compare_rest(s, p + c1, a);
        if compare_bytes(s, q) is Some {
            let (op, k) = compare_bytes(s, q)->Some_0;
            if sp_add(s, q + k) is Ok {
                let (c2, b) = sp_add(s, q + k)->Ok_0;
                let l = ExprV::Binary { op, left: Box::new(a), right: Box::new(b) };
                unfold_sp_compare_rest(s, q + k + c2, l);
                lemma_from_from(p, p + c1, q + k + c2, sp_compare_rest(s, q + k + c2, l));
            }
        }
    }
}

/// `A o B`, with `o` `&&` and no further such operator after `B`,
/// reads as the operation `o` stands for, applied to what `A` and `B` read as.
#[verifier::spinoff_prover]
pub proof fn law_and_operator(s: Seq<u8>, p: nat)
    ensures
        sp_compare(s, p) matches Ok((c1, a)) ==> ({
            let q = skipped(s, p + c1);
            and_bytes(s, q) matches Some((op, k)) ==> (sp_compare(s, q + k) matches Ok((c2, b)) ==> ({
                let e = skipped(s, q + k + c2);
                and_bytes(s, e) is None ==> sp_and(s, p) == Ok::<(nat, ExprV), ErrorV>(
                    ((e - p) as nat, ExprV::Binary { op, left: Box::new(a), right: Box::new(b) }),
                )
            }))
        }),
{
    unfold_sp_and(s, p);
    if sp_compare(s, p) is Ok {
        let (c1, a) = sp_compare(s, p)->Ok_0;
        let q = skipped(s, p + c1);
        unfold_sp_and_rest(s, p + c1, a);
        if and_bytes(s, q) is Some {
            let (op, k) = and_bytes(s, q)->Some_0;
            if sp_compare(s, q + k) is Ok {
                let (c2, b) = sp_compare(s, q + k)->Ok_0;
                let l = ExprV::Binary { op, left: Box::new(a), right: Box::new(b) };
                unfold_sp_and_rest(s, q + k + c2, l);
                lemma_from_from(p, p + c1, q + k + c2, sp_and_rest(s, q + k + c2, l));
            }
        }
    }
}

/// `A o B`, with `o` `||` and no further such operator after `B`,
/// reads as the operation `o` stands for, applied to what `A` and `B` read as.
#[verifier::spinoff_prover]
pub proof fn law_or_operator(s: Seq<u8>, p: nat)
    ensures
        sp_and(s, p) matches Ok((c1, a)) ==> ({
            let q = skipped(s, p + c1);
            or_bytes(s, q) matches Some((op, k)) ==> (sp_and(s, q + k) matches Ok((c2, b)) ==> ({
                let e = skipped(s, q + k + c2);
                or_bytes(s, e) is None ==> sp_or(s, p) == Ok::<(nat, ExprV), ErrorV>(
                    ((e - p) as nat, ExprV::Binary { op, left: Box::new(a), right: Box::new(b) }),
                )
            }))
        }),
{
    unfold_sp_or(s, p);
    if sp_and(s, p) is Ok {
        let (c1, a) = sp_and(s, p)->Ok_0;
        let q = skipped(s, p + c1);
        unfold_sp_or_rest(s, p + c1, a);
        if or_bytes(s, q) is Some {
            let (op, k) = or_bytes(s, q)->Some_0;
            if sp_and(s, q + k) is Ok {
                let (c2, b) = sp_and(s, q + k)->Ok_0;
                let l = ExprV::Binary { op, left: Box::new(a), right: Box::new(b) };
                unfold_sp_or_rest(s, q + k + c2, l);
                lemma_from_from(p, p + c1, q + k + c2, sp_or_rest(s, q + k + c2, l));
            }
        }
    }
}

/// `A o B o' C` at one additive level reads left to right: as
/// `(A o B) o' C`.
#[verifier::spinoff_prover]
pub proof fn law_add_left_to_right(s: Seq<u8>, p: nat)
    ensures
        sp_mul(s, p) matches Ok((c1, a)) ==> ({
            let q = skipped(s, p + c1);
            add_bytes(s, q) matches Some((op, k)) ==> (sp_mul(s, q + k) matches Ok((c2, b)) ==> ({
                let q2 = skipped(s, q + k + c2);
                add_bytes(s, q2) matches Some((op2, k2)) ==> (sp_mul(s, q2 + k2) matches Ok((c3, c)) ==> ({
                    let e = skipped(s, q2 + k2 + c3);
                    add_bytes(s, e) is None ==> sp_add(s, p) == Ok::<(nat, ExprV), ErrorV>(
                        (
                            (e - p) as nat,
                            ExprV::Binary {
                                op: op2,
                                left: Box::new(ExprV::Binary { op, left: Box::new(a), right: Box::new(b) }),
                                right: Box::new(c),
                            },
                        ),
                    )
                }))
            }))
        }),
{
    unfold_sp_add(s, p);
    if sp_mul(s, p) is Ok {
        let (c1, a) = sp_mul(s, p)->Ok_0;
        let q = skipped(s, p + c1);
        unfold_sp_add_rest(s, p + c1, a);
        if add_bytes(s, q) is Some {
            let (op, k) = add_bytes(s, q)->Some_0;
            if sp_mul(s, q + k) is Ok {
                let (c2, b) = sp_mul(s, q + k)->Ok_0;
                let l = ExprV::Binary { op, left: Box::new(a), right: Box::new(b) };
                let q2 = skipped(s, q + k + c2);
                unfold_sp_add_rest(s, q + k + c2, l);
                lemma_from_from(p, p + c1, q + k + c2, sp_add_rest(s, q + k + c2, l));
                if add_bytes(s, q2) is Some {
                    let (op2, k2) = add_bytes(s, q2)->Some_0;
                    if sp_mul(s, q2 + k2) is Ok {
                        let (c3, c) = sp_mul(s, q2 + k2)->Ok_0;
                        let l2 = ExprV::Binary { op: op2, left: Box::new(l), right: Box::new(c) };
                        unfold_sp_add_rest(s, q2 + k2 + c3, l2);
                        lemma_from_from(q + k + c2, q2 + k2 + c3, q2 + k2 + c3, sp_add_rest(s, q2 + k2 + c3, l2));
                        lemma_from_from(p, p + c1, q + k + c2, sp_add_rest(s, q + k + c2, l));
                    }
                }
            }
        }
    }
}

/// `-X` reads as the negation of what `X` reads as, `!X` as its logical
/// negation.
pub proof fn law_unary_operator(s: Seq<u8>, p: nat)
    ensures
        ({
            let q = skipped(s, p);
            byte_at(s, q) matches Some(o) ==> ((o == 0x2du8 || o == 0x21u8) ==> (sp_unary(s, q + 1) matches Ok((c, x)) ==> sp_unary(s, p)
                == Ok::<(nat, ExprV), ErrorV>(
                (
                    (q + 1 + c - p) as nat,
                    ExprV::Unary {
                        op: if o == 0x2du8 {
                            UnaryOp::Neg
                        } else {
                            UnaryOp::Not
                        },
                        expr: Box::new(x),
                    },
                ),
            )))
        }),
{
    unfold_sp_unary(s, p);
}

/// `A ^ B` reads as `A` raised to what `B` reads as, `B` taking in any
/// further `^`: exponentiation groups to the right.
pub proof fn law_power(s: Seq<u8>, p: nat)
    ensures
        sp_unary(s, p) matches Ok((c1, a)) ==> ({
            let q = skipped(s, p + c1);
            byte_at(s, q) == Some(0x5eu8) ==> (sp_pow(s, q + 1) matches Ok((c2, b)) ==> sp_pow(s, p) == Ok::<
                (nat, ExprV),
                ErrorV,
            >(((q + 1 + c2 - p) as nat, ExprV::Binary { op: BinaryOp::Pow, left: Box::new(a), right: Box::new(b) })))
        }),
{
    unfold_sp_pow(s, p);
}

/// `C ? T : E` reads as the choice between what `T` and `E` read as, by
/// what `C` reads as.
pub proof fn law_ternary(s: Seq<u8>, p: nat)
    ensures
        sp_or(s, p) matches Ok((c1, cond)) ==> ({
            let q = skipped(s, p + c1);
            byte_at(s, q) == Some(0x3fu8) ==> (sp_expr(s, q + 1) matches Ok((c2, t)) ==> ({
                let r = skipped(s, q + 1 + c2);
                byte_at(s, r) == Some(0x3au8) ==> (sp_expr(s, r + 1) matches Ok((c3, e)) ==> sp_ternary(s, p)
                    == Ok::<(nat, ExprV), ErrorV>(
                    (
                        (r + 1 + c3 - p) as nat,
                        ExprV::Ternary { cond: Box::new(cond), then_expr: Box::new(t), else_expr: Box::new(e) },
                    ),
                ))
            }))
        }),
{
    unfold_sp_ternary(s, p);
    if sp_or(s, p) is Ok {
        let c1 = sp_or(s, p)->Ok_0.0;
        let q = skipped(s, p + c1);
        if sp_expr(s, q + 1) is Ok {
            let c2 = sp_expr(s, q + 1)->Ok_0.0;
            let r = skipped(s, q + 1 + c2);
            lemma_skip_idempotent(s, q + 1 + c2);
        }
    }
}

// ---- literals, indexing, ranges, comprehensions ----

/// The words `true` and `false` read as the truth values they name.
pub proof fn law_truth_values(s: Seq<u8>, p: nat)
    ensures
        ident_at(s, p) ==> ({
            let n = ident_len(s, p);
            &&& slice(s, p, p + n) == seq![0x74u8, 0x72u8, 0x75u8, 0x65u8] ==> sp_name_or_call(s, p)
                == Ok::<(nat, ExprV), ErrorV>((n, ExprV::Bool(true)))
            &&& slice(s, p, p + n) == seq![0x66u8, 0x61u8, 0x6cu8, 0x73u8, 0x65u8] ==> sp_name_or_call(s, p)
                == Ok::<(nat, ExprV), ErrorV>((n, ExprV::Bool(false)))
        }),
{
    broadcast use vstd::string::is_ascii_spec_bytes;

    unfold_sp_name_or_call(s, p);
    reveal_strlit("true");
    reveal_strlit("false");
    assert(vstd::string::is_ascii("true"));
    assert(vstd::string::is_ascii("false"));
    assert("true".spec_bytes() =~= seq![0x74u8, 0x72u8, 0x75u8, 0x65u8]);
    assert("false".spec_bytes() =~= seq![0x66u8, 0x61u8, 0x6cu8, 0x73u8, 0x65u8]);
}

/// `B[I]` reads as what `B` reads as, indexed by what `I` reads as.
pub proof fn law_index(s: Seq<u8>, p: nat, base: ExprV)
    ensures
        ({
            let q = skipped(s, p);
            byte_at(s, q) == Some(0x5bu8) ==> (sp_expr(s, q + 1) matches Ok((c1, index)) ==> ({
                let r = skipped(s, q + 1 + c1);
                byte_at(s, r) == Some(0x5du8) ==> sp_postfix_rest(s, p, base) == from(
                    p,
                    r + 1,
                    sp_postfix_rest(
                        s,
                        r + 1,
                        ExprV::Index { base: Box::new(base), index: Box::new(index) },
                    ),
                )
            }))
        }),
{
    unfold_sp_postfix_rest(s, p, base);
}

/// `[A : B]` reads as the range from `A` to `B` with no step, and
/// `[A : S : B]` as the range from `A` to `B` in steps of `S`.
#[verifier::spinoff_prover]
pub proof fn law_range(s: Seq<u8>, p: nat)
    ensures
        byte_at(s, p) == Some(0x5bu8) ==> ({
            let q = skipped(s, p + 1);
            !sp_peek_keyword(s, q, "for".spec_bytes()) ==> (byte_at(s, q) != Some(0x5du8) ==> (sp_expr(s, q)
                matches Ok((c1, a)) ==> ({
                let r = skipped(s, q + c1);
                byte_at(s, r) == Some(0x3au8) ==> (sp_expr(s, r + 1) matches Ok((c2, b)) ==> ({
                    let t = skipped(s, r + 1 + c2);
                    &&& byte_at(s, t) == Some(0x5du8) ==> sp_vector(s, p) == Ok::<(nat, ExprV), ErrorV>(
                        (
                            (t + 1 - p) as nat,
                            ExprV::Range { start: Box::new(a), step: None, end: Box::new(b) },
                        ),
                    )
                    &&& byte_at(s, t) == Some(0x3au8) ==> (sp_expr(s, t + 1) matches Ok((c3, c)) ==> ({
                        let u = skipped(s, t + 1 + c3);
                        byte_at(s, u) == Some(0x5du8) ==> sp_vector(s, p) == Ok::<(nat, ExprV), ErrorV>(
                            (
                                (u + 1 - p) as nat,
                                ExprV::Range {
                                    start: Box::new(a),
                                    step: Some(Box::new(b)),
                                    end: Box::new(c),
                                },
                            ),
                        )
                    }))
                }))
            })))
        }),
{
    unfold_sp_vector(s, p);
    if byte_at(s, p) == Some(0x5bu8) {
        lemma_skip_idempotent(s, p);
        let q = skipped(s, p + 1);
        if sp_expr(s, q) is Ok {
            let c1 = sp_expr(s, q)->Ok_0.0;
            let r = skipped(s, q + c1);
            if sp_expr(s, r + 1) is Ok {
                let c2 = sp_expr(s, r + 1)->Ok_0.0;
                let t = skipped(s, r + 1 + c2);
                lemma_skip_idempotent(s, r + 1 + c2);
                if sp_expr(s, t + 1) is Ok {
                    let c3 = sp_expr(s, t + 1)->Ok_0.0;
                    lemma_skip_idempotent(s, t + 1 + c3);
                }
            }
        }
    }
}

/// `for (N = R) B` after a `[` reads as the comprehension of `B` for the
/// name `N` over what `R` reads as.
#[verifier::spinoff_prover]
pub proof fn law_comprehension(s: Seq<u8>, p: nat)
    ensures
        sp_expect_keyword(s, p, "for") matches Ok(c0) ==> ({
            let a = skipped(s, p + c0);
            byte_at(s, a) == Some(0x28u8) ==> (sp_ident(s, a + 1) matches Ok((n, name)) ==> ({
                let b = skipped(s, a + 1 + n);
                byte_at(s, b) == Some(0x3du8) ==> (sp_expr(s, b + 1) matches Ok((c3, range)) ==> ({
                    let d = skipped(s, b + 1 + c3);
                    byte_at(s, d) == Some(0x29u8) ==> (sp_expr(s, skipped(s, d + 1)) matches Ok((c5, body)) ==> ({
                        let w = skipped(s, skipped(s, d + 1) + c5);
                        byte_at(s, w) == Some(0x5du8) ==> sp_list_comp(s, p) == Ok::<(nat, ExprV), ErrorV>(
                            (
                                (w + 1 - p) as nat,
                                ExprV::ListComp { name, range: Box::new(range), body: Box::new(body) },
                            ),
                        )
                    }))
                }))
            }))
        }),
{
    unfold_sp_list_comp(s, p);
    if sp_expect_keyword(s, p, "for") is Ok {
        let c0 = sp_expect_keyword(s, p, "for")->Ok_0;
        let a = skipped(s, p + c0);
        lemma_skip_idempotent(s, p + c0);
        if sp_ident(s, a + 1) is Ok {
            let n = sp_ident(s, a + 1)->Ok_0.0;
            let b = skipped(s, a + 1 + n);
            lemma_skip_idempotent(s, a + 1 + n);
            if sp_expr(s, b + 1) is Ok {
                let c3 = sp_expr(s, b + 1)->Ok_0.0;
                let d = skipped(s, b + 1 + c3);
                lemma_skip_idempotent(s, b + 1 + c3);
                if sp_expr(s, skipped(s, d + 1)) is Ok {
                    let c5 = sp_expr(s, skipped(s, d + 1))->Ok_0.0;
                    lemma_skip_idempotent(s, skipped(s, d + 1) + c5);
                }
            }
        }
    }
}

// ---- arguments ----

/// After an argument whose text and layout end at `t`: when a `,` follows,
/// the `i`-th of the arguments from there on, each read where the one
/// before it and its `,` end.
pub open spec fn later_arg(s: Seq<u8>, t: nat, i: nat) -> Option<ArgV>
    decreases i,
{
    if byte_at(s, t) == Some(0x2cu8) {
        let u = skipped(s, t + 1);
        match sp_arg(s, u) {
            Ok((c, a)) => if i == 0 {
                Some(a)
            } else {
                later_arg(s, skipped(s, u + c), (i - 1) as nat)
            },
            Err(_) => None,
        }
    } else {
        None
    }
}

/// The `i`-th argument, in source order, of an argument list that starts
/// at `q`; a list that starts with `)` has none.
pub open spec fn arg_at(s: Seq<u8>, q: nat, i: nat) -> Option<ArgV> {
    if byte_at(s, q) == Some(0x29u8) {
        None
    } else {
        match sp_arg(s, q) {
            Ok((c, a)) => if i == 0 {
                Some(a)
            } else {
                later_arg(s, skipped(s, q + c), (i - 1) as nat)
            },
            Err(_) => None,
        }
    }
}

/// `args` is exactly the argument list that starts at `q`, in source order.
pub open spec fn is_arg_run(s: Seq<u8>, q: nat, args: Seq<ArgV>) -> bool {
    &&& forall|i: nat| i < args.len() ==> #[trigger] arg_at(s, q, i) == Some(args[i as int])
    &&& arg_at(s, q, args.len()) is None
}

#[verifier::spinoff_prover]
proof fn lemma_arg_items(s: Seq<u8>, q: nat, acc: Seq<ArgV>)
    requires
        byte_at(s, q) != Some(0x29u8),
    ensures
        sp_arg_items(s, q, acc) matches Ok((_, w)) ==> {
            &&& w.len() >= acc.len()
            &&& w.subrange(0, acc.len() as int) == acc
            &&& forall|i: nat| i < w.len() - acc.len() ==> #[trigger] arg_at(s, q, i) == Some(w[acc.len() + i as int])
            &&& arg_at(s, q, (w.len() - acc.len()) as nat) is None
        },
    decreases rem(s, q),
{
    unfold_sp_arg_items(s, q, acc);
    if sp_arg(s, q) is Ok {
        let (c, a) = sp_arg(s, q)->Ok_0;
        let t = skipped(s, q + c);
        if byte_at(s, t) == Some(0x2cu8) {
            let u = skipped(s, t + 1);
            if byte_at(s, u) == Some(0x29u8) {
                if sp_arg_items(s, q, acc) is Ok {
                    let w = sp_arg_items(s, u, acc.push(a))->Ok_0.1;
                    assert(false) by {
                        unfold_sp_arg_items(s, u, acc.push(a));
                        lemma_arg_at_close(s, u);
                    }
                }
            } else {
                lemma_arg_items(s, u, acc.push(a));
                if sp_arg_items(s, q, acc) is Ok {
                    let w = sp_arg_items(s, u, acc.push(a))->Ok_0.1;
                    assert(w.subrange(0, acc.len() as int) =~= acc) by {
                        assert(w.subrange(0, acc.len() as int + 1) == acc.push(a));
                    }
                    assert(w[acc.len() as int] == a) by {
                        assert(w.subrange(0, acc.len() as int + 1)[acc.len() as int] == acc.push(a)[acc.len() as int]);
                    }
                    assert forall|i: nat| i < w.len() - acc.len() implies #[trigger] arg_at(s, q, i) == Some(w[acc.len() + i as int]) by {
                        if i > 0 {
                            assert(arg_at(s, q, i) == arg_at(s, u, (i - 1) as nat));
                        }
                    }
                    assert(arg_at(s, q, (w.len() - acc.len()) as nat) == arg_at(s, u, (w.len() - acc.push(a).len()) as nat));
                }
            }
        } else {
            assert(acc.push(a).subrange(0, acc.len() as int) =~= acc);
        }
    }
}

/// No argument is read at a `)`.
proof fn lemma_arg_at_close(s: Seq<u8>, u: nat)
    requires
        byte_at(s, u) == Some(0x29u8),
    ensures
        sp_arg(s, u) is Err,
{
    unfold_sp_arg(s, u);
    lemma_skip_idempotent(s, u);
    crate::laws::lemma_expr_after_layout(s, u);
    lemma_expr_at_close(s, u);
}

/// No expression starts with `)`.
proof fn lemma_expr_at_close(s: Seq<u8>, u: nat)
    requires
        byte_at(s, u) == Some(0x29u8),
        skipped(s, u) == u,
    ensures
        sp_expr(s, u) is Err,
{
    crate::syntax::unfold_sp_expr(s, u);
    unfold_sp_ternary(s, u);
    unfold_sp_or(s, u);
    unfold_sp_and(s, u);
    unfold_sp_compare(s, u);
    unfold_sp_add(s, u);
    unfold_sp_mul(s, u);
    unfold_sp_pow(s, u);
    unfold_sp_unary(s, u);
    crate::syntax::unfold_sp_postfix(s, u);
    crate::syntax::unfold_sp_primary(s, u);
}

/// The arguments of a list that starts at `p` are the arguments written
/// there, in source order.
pub proof fn law_argument_order(s: Seq<u8>, p: nat)
    ensures
        sp_arg_list(s, p) matches Ok((_, args)) ==> is_arg_run(s, skipped(s, p), args),
{
    unfold_sp_arg_list(s, p);
    let q = skipped(s, p);
    if byte_at(s, q) != Some(0x29u8) {
        lemma_arg_items(s, q, Seq::empty());
        if sp_arg_list(s, p) is Ok {
            let w = sp_arg_items(s, q, Seq::empty())->Ok_0.1;
            assert forall|i: nat| i < w.len() implies #[trigger] arg_at(s, q, i) == Some(w[i as int]) by {
                assert(arg_at(s, q, i) == Some(w[0 + i as int]));
            }
        }
    }
}

/// `N = E` in an argument list is the argument `E` passed under the name
/// `N`; an argument written otherwise is passed by position.
pub proof fn law_argument_kind(s: Seq<u8>, p: nat)
    ensures
        ({
            let q = skipped(s, p);
            let n = ident_len(s, q);
            let r = skipped(s, q + n);
            let named = ident_at(s, q) && byte_at(s, r) == Some(0x3du8);
            &&& named ==> (sp_expr(s, r + 1) matches Ok((c, e)) ==> sp_arg(s, p) == Ok::<(nat, ArgV), ErrorV>(
                ((r + 1 + c - p) as nat, ArgV::Named(text_at(s, q, q + n), e)),
            ))
            &&& !named ==> (sp_expr(s, q) matches Ok((c, e)) ==> sp_arg(s, p) == Ok::<(nat, ArgV), ErrorV>(
                ((q + c - p) as nat, ArgV::Positional(e)),
            ))
        }),
{
    unfold_sp_arg(s, p);
}

/// A call `f(args)` in an expression passes the arguments written between
/// its parentheses, in source order.
pub proof fn law_call_arguments(s: Seq<u8>, p: nat)
    ensures
        ({
            let n = ident_len(s, p);
            let r = skipped(s, p + n);
            byte_at(s, r) == Some(0x28u8) ==> (sp_name_or_call(s, p) matches Ok((_, x)) ==> (x matches ExprV::Call {
                args,
                ..
            } ==> is_arg_run(s, skipped(s, r + 1), args)))
        }),
{
    unfold_sp_name_or_call(s, p);
    let n = ident_len(s, p);
    let r = skipped(s, p + n);
    law_argument_order(s, r + 1);
}

/// A module call `m(args) ...` passes the arguments written between its
/// parentheses, in source order.
pub proof fn law_module_call_arguments(s: Seq<u8>, p: nat)
    ensures
        sp_ident(s, p) matches Ok((n, _)) ==> ({
            let a = skipped(s, p + n);
            byte_at(s, a) == Some(0x28u8) ==> (sp_module_call(s, p) matches Ok((_, x)) ==> (x matches StatementV::ModuleCall {
                args,
                ..
            } && is_arg_run(s, skipped(s, a + 1), args)))
        }),
{
    unfold_sp_module_call(s, p);
    if sp_ident(s, p) is Ok {
        let n = sp_ident(s, p)->Ok_0.0;
        let a = skipped(s, p + n);
        lemma_skip_idempotent(s, p + n);
        law_argument_order(s, a + 1);
    }
}

// ---- programs and conditionals ----

/// From `q`, the `i`-th statement, in source order, of a program's run of
/// statements: each is read where the one before it and its layout end,
/// up to the end of the text.
pub open spec fn program_stmt(s: Seq<u8>, q: nat, i: nat) -> Option<StatementV>
    decreases i,
{
    if q < s.len() {
        match sp_statement(s, q) {
            Ok((n, st)) => if n > 0 {
                if i == 0 {
                    Some(st)
                } else {
                    program_stmt(s, skipped(s, q + n), (i - 1) as nat)
                }
            } else {
                None
            },
            Err(_) => None,
        }
    } else {
        None
    }
}

#[verifier::spinoff_prover]
proof fn lemma_program_items(s: Seq<u8>, q: nat, acc: Seq<StatementV>)
    ensures
        sp_program_items(s, q, acc) matches Ok(w) ==> {
            &&& w.len() >= acc.len()
            &&& w.subrange(0, acc.len() as int) == acc
            &&& forall|i: nat| i < w.len() - acc.len() ==> #[trigger] program_stmt(s, q, i) == Some(w[acc.len() + i as int])
            &&& program_stmt(s, q, (w.len() - acc.len()) as nat) is None
        },
    decreases rem(s, q),
{
    unfold_sp_program_items(s, q, acc);
    if q < s.len() && sp_statement(s, q) is Ok {
        let (n, st) = sp_statement(s, q)->Ok_0;
        if n > 0 {
            let q2 = skipped(s, q + n);
            lemma_program_items(s, q2, acc.push(st));
            if sp_program_items(s, q, acc) is Ok {
                let w = sp_program_items(s, q2, acc.push(st))->Ok_0;
                assert(w.subrange(0, acc.len() as int) =~= acc) by {
                    assert(w.subrange(0, acc.len() as int + 1) == acc.push(st));
                }
                assert(w[acc.len() as int] == st) by {
                    assert(w.subrange(0, acc.len() as int + 1)[acc.len() as int] == acc.push(st)[acc.len() as int]);
                }
                assert forall|i: nat| i < w.len() - acc.len() implies #[trigger] program_stmt(s, q, i) == Some(w[acc.len() + i as int]) by {
                    if i > 0 {
                        assert(program_stmt(s, q, i) == program_stmt(s, q2, (i - 1) as nat));
                    }
                }
                assert(program_stmt(s, q, (w.len() - acc.len()) as nat) == program_stmt(s, q2, (w.len() - acc.push(st).len()) as nat));
            }
        }
    }
    if sp_program_items(s, q, acc) is Ok {
        assert(acc.subrange(0, acc.len() as int) =~= acc);
    }
}

/// A program is its statements in source order: the `i`-th statement of
/// the result is the `i`-th statement written, and there are no others.
pub proof fn law_program_order(s: Seq<u8>)
    ensures
        sp_program(s) matches Ok(w) ==> ({
            &&& forall|i: nat| i < w.len() ==> #[trigger] program_stmt(s, skipped(s, 0), i) == Some(w[i as int])
            &&& program_stmt(s, skipped(s, 0), w.len()) is None
        }),
{
    let q = skipped(s, 0);
    lemma_program_items(s, q, Seq::empty());
    if sp_program(s) is Ok {
        let w = sp_program(s)->Ok_0;
        assert forall|i: nat| i < w.len() implies #[trigger] program_stmt(s, q, i) == Some(w[i as int]) by {
            assert(program_stmt(s, q, i) == Some(w[0 + i as int]));
        }
    }
}

/// `if (C) T else E` reads as: when what `C` reads as holds, the statement
/// `T`, otherwise `E`; without `else`, no statement otherwise.
#[verifier::spinoff_prover]
pub proof fn law_if(s: Seq<u8>, p: nat)
    ensures
        sp_expect_keyword(s, p, "if") matches Ok(c0) ==> ({
            let a = skipped(s, p + c0);
            byte_at(s, a) == Some(0x28u8) ==> (sp_expr(s, a + 1) matches Ok((c2, cond)) ==> ({
                let d = skipped(s, a + 1 + c2);
                let q = skipped(s, d + 1);
                byte_at(s, d) == Some(0x29u8) ==> (sp_statement(s, q) matches Ok((c4, then_st)) ==> ({
                    let r = skipped(s, q + c4);
                    &&& sp_peek_keyword(s, r, "else".spec_bytes()) ==> ({
                        let w = skipped(s, r + "else".spec_bytes().len());
                        sp_statement(s, w) matches Ok((c6, else_st)) ==> sp_if(s, p) == Ok::<(nat, StatementV), ErrorV>(
                            (
                                (w + c6 - p) as nat,
                                StatementV::If {
                                    cond,
                                    then_branch: Box::new(then_st),
                                    else_branch: Some(Box::new(else_st)),
                                },
                            ),
                        )
                    })
                    &&& !sp_peek_keyword(s, r, "else".spec_bytes()) ==> sp_if(s, p) == Ok::<(nat, StatementV), ErrorV>(
                        (
                            (r - p) as nat,
                            StatementV::If { cond, then_branch: Box::new(then_st), else_branch: None },
                        ),
                    )
                }))
            }))
        }),
{
    unfold_sp_if(s, p);
    if sp_expect_keyword(s, p, "if") is Ok {
        let c0 = sp_expect_keyword(s, p, "if")->Ok_0;
        let a = skipped(s, p + c0);
        lemma_skip_idempotent(s, p + c0);
        if sp_expr(s, a + 1) is Ok {
            let c2 = sp_expr(s, a + 1)->Ok_0.0;
            lemma_skip_idempotent(s, a + 1 + c2);
            let d = skipped(s, a + 1 + c2);
            let q = skipped(s, d + 1);
            if sp_statement(s, q) is Ok {
                let c4 = sp_statement(s, q)->Ok_0.0;
                lemma_skip_idempotent(s, q + c4);
            }
        }
    }
}

// ---- parameters and loops ----

/// The parameter written at `p`, with its length up to its layout: a name
/// `N`, or `N = E` with what `E` reads as for its default.
pub open spec fn param_read(s: Seq<u8>, p: nat) -> Option<(nat, ParamV)> {
    match sp_ident(s, p) {
        Ok((n, name)) => {
            let r = skipped(s, p + n);
            if byte_at(s, r) == Some(0x3du8) {
                match sp_expr(s, r + 1) {
                    Ok((c, e)) => Some(((skipped(s, r + 1 + c) - p) as nat, ParamV { name, default: Some(e) })),
                    Err(_) => None,
                }
            } else {
                Some(((r - p) as nat, ParamV { name, default: None }))
            }
        },
        Err(_) => None,
    }
}

/// From `q`, the `i`-th parameter, in source order, of a list of
/// parameters separated by `,`; a list that starts with `)` has none.
pub open spec fn param_at(s: Seq<u8>, q: nat, i: nat) -> Option<ParamV>
    decreases i,
{
    if byte_at(s, q) == Some(0x29u8) {
        None
    } else {
        match param_read(s, q) {
            Some((n, pv)) => if i == 0 {
                Some(pv)
            } else if byte_at(s, q + n) == Some(0x2cu8) {
                param_at(s, skipped(s, q + n + 1), (i - 1) as nat)
            } else {
                None
            },
            None => None,
        }
    }
}

#[verifier::spinoff_prover]
proof fn lemma_param_items(s: Seq<u8>, q: nat, acc: Seq<ParamV>)
    requires
        byte_at(s, q) != Some(0x29u8),
    ensures
        sp_param_items(s, q, acc) matches Ok((_, w)) ==> {
            &&& w.len() > acc.len()
            &&& w.subrange(0, acc.len() as int) == acc
            &&& forall|i: nat| i < w.len() - acc.len() ==> #[trigger] param_at(s, q, i) == Some(w[acc.len() + i as int])
        },
    decreases rem(s, q),
{
    unfold_sp_param_items(s, q, acc);
    if sp_ident(s, q) is Ok && sp_param_items(s, q, acc) is Ok {
        let (n, name) = sp_ident(s, q)->Ok_0;
        let r = skipped(s, q + n);
        let (k, pv) = param_read(s, q)->Some_0;
        let t = q + k;
        if byte_at(s, r) == Some(0x3du8) {
            lemma_skip_idempotent(s, r + 1 + sp_expr(s, r + 1)->Ok_0.0);
        } else {
            lemma_skip_idempotent(s, q + n);
        }
        assert(t == skipped(s, t));
        let acc2 = acc.push(pv);
        if byte_at(s, t) == Some(0x2cu8) {
            let u = skipped(s, t + 1);
            if byte_at(s, u) == Some(0x29u8) {
                assert(false) by {
                    unfold_sp_param_items(s, u, acc2);
                }
            } else {
                lemma_param_items(s, u, acc2);
                let w = sp_param_items(s, u, acc2)->Ok_0.1;
                assert(w.subrange(0, acc.len() as int) =~= acc) by {
                    assert(w.subrange(0, acc.len() as int + 1) == acc2);
                }
                assert(w[acc.len() as int] == pv) by {
                    assert(w.subrange(0, acc.len() as int + 1)[acc.len() as int] == acc2[acc.len() as int]);
                }
                assert forall|i: nat| i < w.len() - acc.len() implies #[trigger] param_at(s, q, i) == Some(w[acc.len() + i as int]) by {
                    if i > 0 {
                        assert(param_at(s, q, i) == param_at(s, u, (i - 1) as nat));
                    }
                }
            }
        } else {
            assert(acc2.subrange(0, acc.len() as int) =~= acc);
        }
    }
}

/// The parameters of a definition are those written, in source order,
/// each with its default when it has one.
pub proof fn law_parameter_order(s: Seq<u8>, p: nat)
    ensures
        sp_params(s, p) matches Ok((_, ps)) ==> forall|i: nat| i < ps.len() ==> #[trigger] param_at(s, skipped(s, p), i) == Some(ps[i as int]),
{
    unfold_sp_params(s, p);
    let q = skipped(s, p);
    if byte_at(s, q) != Some(0x29u8) {
        lemma_param_items(s, q, Seq::empty());
        if sp_params(s, p) is Ok {
            let w = sp_param_items(s, q, Seq::empty())->Ok_0.1;
            assert forall|i: nat| i < w.len() implies #[trigger] param_at(s, q, i) == Some(w[i as int]) by {
                assert(param_at(s, q, i) == Some(w[0 + i as int]));
            }
        }
    }
}

/// `for (N = R) S` reads as the statement `S` repeated for the name `N`
/// over what `R` reads as.
#[verifier::spinoff_prover]
pub proof fn law_for(s: Seq<u8>, p: nat)
    ensures
        sp_expect_keyword(s, p, "for") matches Ok(c0) ==> ({
            let a = skipped(s, p + c0);
            byte_at(s, a) == Some(0x28u8) ==> (sp_ident(s, a + 1) matches Ok((n, name)) ==> ({
                let b = skipped(s, a + 1 + n);
                byte_at(s, b) == Some(0x3du8) ==> (sp_expr(s, b + 1) matches Ok((c3, range)) ==> ({
                    let d = skipped(s, b + 1 + c3);
                    let r = skipped(s, d + 1);
                    byte_at(s, d) == Some(0x29u8) ==> (sp_statement(s, r) matches Ok((c5, body)) ==> (
                    !sp_peek_keyword(s, p, "intersection_for".spec_bytes()) ==> (!sp_peek_keyword(
                        s,
                        p,
                        "union_for".spec_bytes(),
                    ) ==> sp_for(s, p) == Ok::<(nat, StatementV), ErrorV>(
                        ((r + c5 - p) as nat, StatementV::For { name, range, body: Box::new(body) }),
                    ))))
                }))
            }))
        }),
{
    unfold_sp_for(s, p);
    if sp_expect_keyword(s, p, "for") is Ok {
        let c0 = sp_expect_keyword(s, p, "for")->Ok_0;
        let a = skipped(s, p + c0);
        lemma_skip_idempotent(s, p + c0);
        if sp_ident(s, a + 1) is Ok {
            let n = sp_ident(s, a + 1)->Ok_0.0;
            lemma_skip_idempotent(s, a + 1 + n);
            let b = skipped(s, a + 1 + n);
            if sp_expr(s, b + 1) is Ok {
                let c3 = sp_expr(s, b + 1)->Ok_0.0;
                lemma_skip_idempotent(s, b + 1 + c3);
            }
        }
    }
}

} // verus!
