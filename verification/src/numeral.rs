//! Checking a numeral against the floating-point literal grammar that
//! `f64::from_str` documents.
use vstd::prelude::*;
use crate::syntax::{all_digits, is_decimal, is_digit, is_exponent, is_exponent_mark, is_float_literal, DOT, MINUS, PLUS};

verus! {

fn is_digit_u8(b: u8) -> (r: bool)
    ensures
        r == is_digit(b),
{
    0x30u8 <= b && b <= 0x39u8
}

/// `t[from..]` is all digits.
fn digits_from(t: &[u8], from: usize) -> (r: bool)
    requires
        from <= t@.len(),
    ensures
        r == all_digits(t@.skip(from as int)),
{
    let mut i = from;
    while i < t.len()
        invariant
            from <= i <= t@.len(),
            forall|j: int| from <= j < i ==> is_digit(t@[j]),
        decreases t@.len() - i,
    {
        if !is_digit_u8(t[i]) {
            assert(t@.skip(from as int)[i - from] == t@[i as int]);
            return false;
        }
        i = i + 1;
    }
    assert forall|j: int| 0 <= j < t@.skip(from as int).len() implies is_digit(
        #[trigger] t@.skip(from as int)[j],
    ) by {
        assert(t@.skip(from as int)[j] == t@[from + j]);
    }
    true
}

/// `m` is `Digit+ | Digit+ '.' Digit* | Digit* '.' Digit+`.
pub fn is_decimal_bytes(m: &[u8]) -> (r: bool)
    ensures
        r == is_decimal(m@),
{
    let mut i: usize = 0;
    let mut dot: Option<usize> = None;
    let mut digits = false;
    while i < m.len()
        invariant
            i <= m@.len(),
            dot is None ==> forall|j: int| 0 <= j < i ==> is_digit(#[trigger] m@[j]),
            dot matches Some(d) ==> d < i && m@[d as int] == DOT && forall|j: int|
                0 <= j < i && j != d ==> is_digit(#[trigger] m@[j]),
            digits <==> exists|j: int| 0 <= j < i && is_digit(#[trigger] m@[j]),
        decreases m@.len() - i,
    {
        let b = m[i];
        if is_digit_u8(b) {
            digits = true;
        } else if b == DOT {
            if let Some(d) = dot {
                proof {
                    assert(!all_digits(m@)) by {
                        assert(!is_digit(m@[d as int]));
                    }
                    assert forall|k: int|
                        0 <= k < m@.len() && #[trigger] m@[k] == DOT implies !(all_digits(
                            m@.take(k),
                        ) && all_digits(m@.skip(k + 1))) by {
                        if k != d {
                            if d < k {
                                assert(m@.take(k)[d as int] == m@[d as int]);
                            } else {
                                assert(m@.skip(k + 1)[d - k - 1] == m@[d as int]);
                            }
                        } else {
                            assert(m@.skip(k + 1)[i - k - 1] == m@[i as int]);
                        }
                    }
                }
                return false;
            }
            dot = Some(i);
        } else {
            proof {
                assert(!all_digits(m@)) by {
                    assert(!is_digit(m@[i as int]));
                }
                assert forall|k: int|
                    0 <= k < m@.len() && #[trigger] m@[k] == DOT implies !(all_digits(m@.take(k))
                        && all_digits(m@.skip(k + 1))) by {
                    if i < k {
                        assert(m@.take(k)[i as int] == m@[i as int]);
                    } else {
                        assert(m@.skip(k + 1)[i - k - 1] == m@[i as int]);
                    }
                }
            }
            return false;
        }
        i = i + 1;
    }
    proof {
        if digits {
            let j = choose|j: int| 0 <= j < i && is_digit(#[trigger] m@[j]);
            match dot {
                None => {
                    assert(all_digits(m@));
                },
                Some(d) => {
                    let k = d as int;
                    assert forall|x: int| 0 <= x < m@.take(k).len() implies is_digit(
                        #[trigger] m@.take(k)[x],
                    ) by {
                        assert(m@.take(k)[x] == m@[x]);
                    }
                    assert forall|x: int| 0 <= x < m@.skip(k + 1).len() implies is_digit(
                        #[trigger] m@.skip(k + 1)[x],
                    ) by {
                        assert(m@.skip(k + 1)[x] == m@[k + 1 + x]);
                    }
                    assert(j != k);
                    assert(m@[k] == DOT);
                },
            }
        } else {
            if m@.len() > 0 {
                assert(!is_digit(m@[0]));
            }
            assert forall|k: int|
                0 <= k < m@.len() && #[trigger] m@[k] == DOT implies !(all_digits(m@.take(k))
                    && all_digits(m@.skip(k + 1)) && (k > 0 || k + 1 < m@.len())) by {
                if k > 0 {
                    assert(m@.take(k)[0] == m@[0]);
                } else if k + 1 < m@.len() {
                    assert(m@.skip(k + 1)[0] == m@[k + 1]);
                }
            }
        }
    }
    digits
}

/// `x` is `[eE] Sign? Digit+`.
pub fn is_exponent_bytes(x: &[u8]) -> (r: bool)
    ensures
        r == is_exponent(x@),
{
    if x.len() < 2 || !(x[0] == 0x65u8 || x[0] == 0x45u8) {
        return false;
    }
    if x[1] == PLUS || x[1] == MINUS {
        proof {
            assert(x@.skip(1)[0] == x@[1]);
        }
        x.len() >= 3 && digits_from(x, 2)
    } else {
        digits_from(x, 1)
    }
}

/// `t` is a floating-point literal: a decimal, optionally followed by an
/// exponent.
pub fn is_float_literal_bytes(t: &[u8]) -> (r: bool)
    ensures
        r == is_float_literal(t@),
{
    let mut k: usize = 0;
    while k < t.len() && !(t[k] == 0x65u8 || t[k] == 0x45u8)
        invariant
            k <= t@.len(),
            forall|j: int| 0 <= j < k ==> !is_exponent_mark(Some(#[trigger] t@[j])),
        decreases t@.len() - k,
    {
        k = k + 1;
    }
    let mantissa = vstd::slice::slice_subrange(t, 0, k);
    let rest = vstd::slice::slice_subrange(t, k, t.len());
    assert(mantissa@ =~= t@.take(k as int));
    assert(rest@ =~= t@.skip(k as int));
    let dec = is_decimal_bytes(mantissa);
    let r = if k == t.len() {
        dec
    } else {
        dec && is_exponent_bytes(rest)
    };
    proof {
        lemma_float_literal_split(t@, k as int);
    }
    r
}

/// A decimal holds no exponent mark.
proof fn lemma_decimal_no_mark(m: Seq<u8>, j: int)
    requires
        is_decimal(m),
        0 <= j < m.len(),
    ensures
        !is_exponent_mark(Some(m[j])),
{
    if m.len() > 0 && all_digits(m) {
        assert(is_digit(m[j]));
    } else {
        let i = choose|i: int|
            0 <= i < m.len() && #[trigger] m[i] == DOT && all_digits(m.take(i)) && all_digits(
                m.skip(i + 1),
            ) && (i > 0 || i + 1 < m.len());
        if j < i {
            assert(m.take(i)[j] == m[j]);
        } else if j > i {
            assert(m.skip(i + 1)[j - i - 1] == m[j]);
        }
    }
}

/// The literal grammar splits at the first exponent mark `k`.
proof fn lemma_float_literal_split(t: Seq<u8>, k: int)
    requires
        0 <= k <= t.len(),
        forall|j: int| 0 <= j < k ==> !is_exponent_mark(Some(#[trigger] t[j])),
        k < t.len() ==> is_exponent_mark(Some(t[k])),
    ensures
        is_float_literal(t) == (is_decimal(t.take(k)) && (k == t.len() || is_exponent(
            t.skip(k),
        ))),
{
    if k == t.len() {
        assert(t.take(k) =~= t);
        if is_float_literal(t) && !is_decimal(t) {
            let k2 = choose|k2: int|
                0 < k2 < t.len() && is_decimal(t.take(k2)) && #[trigger] is_exponent(t.skip(k2));
            assert(t.skip(k2)[0] == t[k2]);
        }
    } else {
        if is_decimal(t) {
            lemma_decimal_no_mark(t, k);
        }
        if is_decimal(t.take(k)) && is_exponent(t.skip(k)) {
            assert(t.take(k).len() > 0);
            assert(is_exponent(t.skip(k)));
        }
        if is_float_literal(t) && !is_decimal(t) {
            let k2 = choose|k2: int|
                0 < k2 < t.len() && is_decimal(t.take(k2)) && #[trigger] is_exponent(t.skip(k2));
            assert(t.skip(k2)[0] == t[k2]);
            if k2 < k {
                assert(is_exponent_mark(Some(t[k2])));
            } else if k2 > k {
                assert(t.take(k2)[k] == t[k]);
                lemma_decimal_no_mark(t.take(k2), k);
            }
        }
    }
}

} // verus!
