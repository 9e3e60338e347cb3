//! The inputs that the PDF parser is given: files whose numbers and size
//! keep the parser's object-number arithmetic within range.
//!
//! The parser numbers the objects of a cross-reference section from its
//! first object number, adding each entry's index, and later computes one
//! past the largest object number as a `u32`. A first number that is large,
//! or negative in a cross-reference stream's `/Index`, makes that
//! arithmetic overflow. A file is accepted when its size and every number
//! written in it stay below 2^31, and no `/Index` array (or a name that may
//! decode to `/Index`) holds a negative number.

use vstd::prelude::*;

verus! {

/// The bound on the file's size and on the numbers written in it.
pub const NUMBER_LIMIT: u64 = 0x8000_0000;

/// Whether `b` is an ASCII decimal digit.
pub open spec fn is_digit(b: u8) -> bool {
    48 <= b <= 57
}

/// The value of the run of decimal digits that ends at `j` (0 when `b[j]`
/// is not a digit): the largest number that a parse ending at `j` can read.
/// A parse that starts inside the run reads a suffix of it, which is no
/// larger.
pub open spec fn run_value(b: Seq<u8>, j: int) -> int
    decreases j + 1,
{
    if j < 0 || j >= b.len() || !is_digit(b[j]) {
        0
    } else {
        run_value(b, j - 1) * 10 + (b[j] - 48)
    }
}

/// Whether a name that may decode to `Index` starts at `p`: a `/` followed
/// by `Index`, or by a `#` escape among its first five bytes (a name that
/// decodes to the five letters of `Index` with an escape has its first `#`
/// there).
pub open spec fn index_key_at(b: Seq<u8>, p: int) -> bool {
    &&& 0 <= p < b.len()
    &&& b[p] == 47
    &&& {
        ||| (p + 6 <= b.len() && b[p + 1] == 73 && b[p + 2] == 110 && b[p + 3] == 100 && b[p + 4] == 101
            && b[p + 5] == 120)
        ||| exists|o: int| 1 <= o <= 5 && p + o < b.len() && #[trigger] b[p + o] == 35
    }
}

/// Whether, from `q` up to the first `]` that is not inside a comment (a
/// `%` up to the end of its line), no `-` is followed by a digit: no
/// negative number stands in an array of integers that starts before `q`.
pub open spec fn clear_to_close(b: Seq<u8>, q: int, in_comment: bool) -> bool
    decreases b.len() - q,
{
    if q < 0 || q >= b.len() {
        true
    } else if in_comment {
        if b[q] == 13 || b[q] == 10 {
            clear_to_close(b, q + 1, false)
        } else {
            clear_to_close(b, q + 1, true)
        }
    } else if b[q] == 93 {
        true
    } else if b[q] == 37 {
        clear_to_close(b, q + 1, true)
    } else if b[q] == 45 && q + 1 < b.len() && is_digit(b[q + 1]) {
        false
    } else {
        clear_to_close(b, q + 1, false)
    }
}

/// Whether the parser is given `b`: its size and every number written in it
/// are below [`NUMBER_LIMIT`], and after every name that may be `/Index`
/// the array that follows holds no negative number.
pub open spec fn parser_accepts(b: Seq<u8>) -> bool {
    &&& b.len() < NUMBER_LIMIT
    &&& forall|j: int| 0 <= j < b.len() ==> #[trigger] run_value(b, j) < NUMBER_LIMIT
    &&& forall|p: int| #[trigger] index_key_at(b, p) ==> clear_to_close(b, p + 1, false)
}

/// Whether every digit run of `b` has a value below [`NUMBER_LIMIT`].
fn numbers_in_range(b: &[u8]) -> (r: bool)
    ensures
        r == (forall|j: int| 0 <= j < b@.len() ==> #[trigger] run_value(b@, j) < NUMBER_LIMIT),
{
    let mut v: u64 = 0;
    let mut i: usize = 0;
    while i < b.len()
        invariant
            i <= b@.len(),
            v == run_value(b@, i - 1),
            v < NUMBER_LIMIT,
            forall|j: int| 0 <= j < i ==> #[trigger] run_value(b@, j) < NUMBER_LIMIT,
        decreases b@.len() - i,
    {
        let c = b[i];
        if 48 <= c && c <= 57 {
            v = v * 10 + (c - 48) as u64;
        } else {
            v = 0;
        }
        assert(v == run_value(b@, i as int));
        if v >= NUMBER_LIMIT {
            return false;
        }
        i = i + 1;
    }
    true
}

/// Whether a name that may be `/Index` starts at `p`.
fn index_key(b: &[u8], p: usize) -> (r: bool)
    requires
        p < b@.len(),
    ensures
        r == index_key_at(b@, p as int),
{
    if b[p] != 47 {
        return false;
    }
    let n = b.len();
    if n - p >= 6 && b[p + 1] == 73 && b[p + 2] == 110 && b[p + 3] == 100 && b[p + 4] == 101 && b[p + 5]
        == 120 {
        return true;
    }
    let mut o: usize = 1;
    while o <= 5 && o < n - p
        invariant
            1 <= o <= 6,
            p < n == b@.len(),
            b@[p as int] == 47,
            forall|k: int| 1 <= k < o ==> #[trigger] b@[p + k] != 35,
        decreases 6 - o,
    {
        if b[p + o] == 35 {
            return true;
        }
        o = o + 1;
    }
    assert(!(exists|k: int| 1 <= k <= 5 && p + k < b@.len() && #[trigger] b@[p + k] == 35)) by {
        assert forall|k: int| 1 <= k <= 5 && p + k < b@.len() implies #[trigger] b@[p + k] != 35 by {
            assert(k < o);
        }
    }
    false
}

/// [`clear_to_close`] from `start`, outside a comment.
fn clear_after(b: &[u8], start: usize) -> (r: bool)
    ensures
        r == clear_to_close(b@, start as int, false),
{
    let mut q: usize = start;
    let mut in_comment = false;
    while q < b.len()
        invariant
            start <= q,
            clear_to_close(b@, start as int, false) == clear_to_close(b@, q as int, in_comment),
        decreases b@.len() - q,
    {
        let c = b[q];
        if in_comment {
            if c == 13 || c == 10 {
                in_comment = false;
            }
        } else if c == 93 {
            return true;
        } else if c == 37 {
            in_comment = true;
        } else if c == 45 && q + 1 < b.len() && 48 <= b[q + 1] && b[q + 1] <= 57 {
            return false;
        }
        q = q + 1;
    }
    true
}

/// Whether the parser is given `b` (see [`parser_accepts`]).
pub fn accepted_by_parser(b: &[u8]) -> (r: bool)
    ensures
        r == parser_accepts(b@),
{
    if b.len() as u64 >= NUMBER_LIMIT {
        return false;
    }
    if !numbers_in_range(b) {
        return false;
    }
    let mut p: usize = 0;
    while p < b.len()
        invariant
            p <= b@.len(),
            forall|k: int| 0 <= k < p && #[trigger] index_key_at(b@, k) ==> clear_to_close(b@, k + 1, false),
        decreases b@.len() - p,
    {
        if index_key(b, p) && !clear_after(b, p + 1) {
            assert(index_key_at(b@, p as int));
            return false;
        }
        p = p + 1;
    }
    assert forall|k: int| #[trigger] index_key_at(b@, k) implies clear_to_close(b@, k + 1, false) by {
        assert(0 <= k < b@.len());
    }
    true
}

} // verus!
