//! UTF-8 facts about slices of a source text, and turning such slices into
//! `String`s.
use vstd::prelude::*;
use vstd::utf8::*;

verus! {

/// A position of a byte sequence at which a character may start: the end,
/// or a byte that is not a UTF-8 continuation byte.
pub open spec fn starts_char(b: Seq<u8>, i: int) -> bool {
    i == b.len() || (0 <= i < b.len() && !is_continuation_byte(b[i]))
}

/// In valid UTF-8, the byte after an ASCII byte starts a character.
pub proof fn lemma_after_ascii(b: Seq<u8>, i: int)
    requires
        valid_utf8(b),
        0 <= i < b.len(),
        b[i] < 0x80,
    ensures
        starts_char(b, i + 1),
    decreases b.len(),
{
    reveal_with_fuel(valid_utf8, 2);
    let k = length_of_first_scalar(b);
    let t = pop_first_scalar(b);
    assert(t.len() == b.len() - k);
    if i < k {
        // b[i] is ASCII, so it cannot be a continuation byte inside the first scalar
        assert(i == 0);
        assert(k == 1);
        if t.len() > 0 {
            assert(valid_first_scalar(t));
            assert(t[0] == b[1]);
        }
    } else {
        assert(t[i - k] == b[i]);
        lemma_after_ascii(t, i - k);
        if i + 1 < b.len() {
            assert(t[i + 1 - k] == b[i + 1]);
        }
    }
}

/// A slice of valid UTF-8 between two character starts is valid UTF-8.
pub proof fn lemma_slice_valid(b: Seq<u8>, i: int, j: int)
    requires
        valid_utf8(b),
        0 <= i <= j <= b.len(),
        starts_char(b, i),
        starts_char(b, j),
    ensures
        valid_utf8(b.subrange(i, j)),
{
    is_char_boundary_start_end_of_seq(b);
    if i < b.len() {
        is_char_boundary_iff_not_is_continuation_byte(b, i);
    }
    valid_utf8_split(b, i);
    let t = b.subrange(i, b.len() as int);
    is_char_boundary_start_end_of_seq(t);
    if j < b.len() {
        assert(t[j - i] == b[j]);
        is_char_boundary_iff_not_is_continuation_byte(t, j - i);
    }
    valid_utf8_split(t, j - i);
    assert(t.subrange(0, j - i) =~= b.subrange(i, j));
}

/// The characters that the bytes `s[i..j]` encode.
pub closed spec fn text_at(s: Seq<u8>, i: nat, j: nat) -> Seq<char> {
    decode_utf8(s.subrange(i as int, j as int))
}

/// The characters of a slice are those its bytes decode to.
pub proof fn lemma_text_at_slice(s: Seq<u8>, i: nat, j: nat)
    ensures
        text_at(s, i, j) == decode_utf8(s.subrange(i as int, j as int)),
{
}

/// The text of a slice between two character starts of valid UTF-8 encodes
/// back to the slice's bytes.
pub proof fn lemma_text_bytes(s: Seq<u8>, i: nat, j: nat)
    requires
        valid_utf8(s),
        i <= j <= s.len(),
        starts_char(s, i as int),
        starts_char(s, j as int),
    ensures
        encode_utf8(text_at(s, i, j)) == s.subrange(i as int, j as int),
{
    lemma_slice_valid(s, i as int, j as int);
    decode_utf8_encode_utf8(s.subrange(i as int, j as int));
}

/// Wraps `String::from_utf8`: by its documentation, it returns the string
/// that the bytes encode when they are valid UTF-8, and an error otherwise.
#[verifier::external_body]
fn string_from_utf8(bytes: Vec<u8>) -> (res: Option<String>)
    ensures
        res is Some <==> valid_utf8(bytes@),
        res matches Some(t) ==> t@ == decode_utf8(bytes@),
{
    match String::from_utf8(bytes) {
        Ok(t) => Some(t),
        Err(_) => None,
    }
}

/// The text that the bytes `src[i..j]` encode, for a slice between two
/// character starts of valid UTF-8.
pub fn text_of(src: &[u8], i: usize, j: usize) -> (t: String)
    requires
        valid_utf8(src@),
        i <= j <= src@.len(),
        starts_char(src@, i as int),
        starts_char(src@, j as int),
    ensures
        t@ == text_at(src@, i as nat, j as nat),
{
    proof {
        lemma_slice_valid(src@, i as int, j as int);
    }
    let part = vstd::slice::slice_subrange(src, i, j);
    let bytes = vstd::slice::slice_to_vec(part);
    match string_from_utf8(bytes) {
        Some(t) => t,
        None => String::new(),
    }
}

} // verus!
