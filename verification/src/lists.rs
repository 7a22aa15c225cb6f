//! Indexing into lists: a negative index counts from the end.
use vstd::prelude::*;

verus! {

/// The position that index `i` selects in a list of `len` items: `i` itself
/// when `0 <= i < len`, `len + i` when `-len <= i < 0`, none otherwise.
pub open spec fn selected(i: int, len: int) -> Option<int> {
    let k = if i < 0 {
        len + i
    } else {
        i
    };
    if 0 <= k < len {
        Some(k)
    } else {
        None
    }
}

/// The position that index `i` selects in a list of `len` items, if any.
pub fn resolve_index(i: i64, len: usize) -> (r: Option<usize>)
    ensures
        match selected(i as int, len as int) {
            Some(k) => r == Some(k as usize),
            None => r is None,
        },
{
    if i >= 0 {
        if (i as u64) < (len as u64) {
            Some(i as usize)
        } else {
            None
        }
    } else {
        // i < 0: the item `-i` places before the end
        let back: u64 = if i == i64::MIN {
            0x8000_0000_0000_0000u64
        } else {
            (-i) as u64
        };
        if back <= len as u64 {
            Some((len as u64 - back) as usize)
        } else {
            None
        }
    }
}

/// Every index that selects a position selects one inside the list, and
/// the indices `k` and `k - len` select the same position.
pub proof fn lemma_selected_in_range(i: int, len: int)
    requires
        0 <= len,
    ensures
        selected(i, len) matches Some(k) ==> 0 <= k < len,
        0 <= i < len ==> selected(i - len, len) == selected(i, len),
{
}

} // verus!
