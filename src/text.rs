//! Facts about UTF-8 byte sequences that the tree algorithms rely on.
use vstd::prelude::*;
use vstd::string::StringSliceAdditionalSpecFns;
use vstd::utf8::*;

verus! {

broadcast use vstd::utf8::group_utf8_lib;

/// Concatenating two valid texts keeps the text valid, decodes piecewise, and
/// puts a character boundary at the seam.
pub proof fn lemma_concat(x: Seq<u8>, y: Seq<u8>)
    requires
        valid_utf8(x),
        valid_utf8(y),
    ensures
        valid_utf8(x + y),
        is_char_boundary(x + y, x.len() as int),
        decode_utf8(x + y) == decode_utf8(x) + decode_utf8(y),
        (x + y).subrange(0, x.len() as int) == x,
        (x + y).subrange(x.len() as int, (x + y).len() as int) == y,
{
    let z = x + y;
    assert(z.subrange(0, x.len() as int) =~= x);
    assert(z.subrange(x.len() as int, z.len() as int) =~= y);
    if y.len() > 0 {
        assert(is_char_boundary(y, 0));
        assert(y[0] == z[x.len() as int]);
        assert(is_char_boundary(z, x.len() as int));
    } else {
        assert(z =~= x);
    }
    decode_utf8_split(z, x.len() as int);
}

/// A position in a concatenation is a character boundary exactly when it is
/// one in the part where it falls.
pub proof fn lemma_boundary_in_concat(x: Seq<u8>, y: Seq<u8>, i: int)
    requires
        valid_utf8(x),
        valid_utf8(y),
        0 <= i <= x.len() + y.len(),
    ensures
        i <= x.len() ==> (is_char_boundary(x + y, i) == is_char_boundary(x, i)),
        i >= x.len() ==> (is_char_boundary(x + y, i) == is_char_boundary(y, i - x.len())),
{
    let z = x + y;
    lemma_concat(x, y);
    assert(is_char_boundary(x, x.len() as int));
    assert(is_char_boundary(y, 0));
    assert(is_char_boundary(z, z.len() as int));
    assert(is_char_boundary(y, y.len() as int));
    if i < x.len() {
        assert(z[i] == x[i]);
        is_char_boundary_iff_not_is_continuation_byte(z, i);
        is_char_boundary_iff_not_is_continuation_byte(x, i);
    } else if x.len() < i < z.len() {
        assert(z[i] == y[i - x.len()]);
        is_char_boundary_iff_not_is_continuation_byte(z, i);
        is_char_boundary_iff_not_is_continuation_byte(y, i - x.len());
    }
}

/// The characters before a boundary of a valid text.
pub proof fn lemma_prefix(b: Seq<u8>, i: int)
    requires
        valid_utf8(b),
        is_char_boundary(b, i),
    ensures
        0 <= i <= b.len(),
        valid_utf8(b.subrange(0, i)),
        valid_utf8(b.subrange(i, b.len() as int)),
        decode_utf8(b) == decode_utf8(b.subrange(0, i)) + decode_utf8(
            b.subrange(i, b.len() as int),
        ),
{
    reveal_with_fuel(is_char_boundary, 1);
    assert(0 <= i <= b.len());
}

/// A valid text has no more characters than bytes.
pub proof fn lemma_chars_le_bytes(b: Seq<u8>)
    requires
        valid_utf8(b),
    ensures
        decode_utf8(b).len() <= b.len(),
    decreases b.len(),
{
    if b.len() > 0 {
        lemma_chars_le_bytes(pop_first_scalar(b));
    }
}

/// A text cut at two boundaries `a <= b` into three valid pieces.
#[verifier::spinoff_prover]
pub proof fn lemma_three(x: Seq<u8>, a: int, b: int)
    requires
        valid_utf8(x),
        is_char_boundary(x, a),
        is_char_boundary(x, b),
        a <= b,
    ensures
        0 <= a <= b <= x.len(),
        x == x.subrange(0, a) + x.subrange(a, b) + x.subrange(b, x.len() as int),
        valid_utf8(x.subrange(0, a)),
        valid_utf8(x.subrange(a, b)),
        valid_utf8(x.subrange(b, x.len() as int)),
{
    lemma_prefix(x, a);
    lemma_prefix(x, b);
    let y = x.subrange(0, b);
    lemma_boundary_in_concat(y, x.subrange(b, x.len() as int), a);
    assert(x =~= y + x.subrange(b, x.len() as int));
    lemma_prefix(y, a);
    assert(y.subrange(0, a) =~= x.subrange(0, a));
    assert(y.subrange(a, y.len() as int) =~= x.subrange(a, b));
    assert(x =~= x.subrange(0, a) + x.subrange(a, b) + x.subrange(b, x.len() as int));
}

/// Boundaries of a text that fall inside a window between two of its
/// boundaries are boundaries of the window, and of its prefixes.
#[verifier::spinoff_prover]
pub proof fn lemma_window(x: Seq<u8>, a: int, b: int, c: int, d: int)
    requires
        valid_utf8(x),
        is_char_boundary(x, a),
        is_char_boundary(x, b),
        is_char_boundary(x, c),
        is_char_boundary(x, d),
        a <= c <= d <= b,
    ensures
        valid_utf8(x.subrange(a, b)),
        is_char_boundary(x.subrange(a, b), d - a),
        is_char_boundary(x.subrange(a, b).subrange(0, d - a), c - a),
        x.subrange(a, b).subrange(0, d - a).subrange(c - a, d - a) == x.subrange(c, d),
{
    lemma_three(x, a, b);
    let p = x.subrange(0, a);
    let w = x.subrange(a, b);
    let t = x.subrange(b, x.len() as int);
    lemma_concat(p, w);
    lemma_boundary_in_concat(p + w, t, c);
    lemma_boundary_in_concat(p + w, t, d);
    lemma_boundary_in_concat(p, w, c);
    lemma_boundary_in_concat(p, w, d);
    lemma_prefix(w, d - a);
    let u = w.subrange(0, d - a);
    lemma_boundary_in_concat(u, w.subrange(d - a, w.len() as int), c - a);
    assert(w =~= u + w.subrange(d - a, w.len() as int));
    assert(u.subrange(c - a, d - a) =~= x.subrange(c, d));
}

/// A valid text has a character boundary among any four consecutive
/// positions.
pub proof fn lemma_near_boundary(b: Seq<u8>, m: int) -> (j: int)
    requires
        valid_utf8(b),
        0 <= m <= b.len(),
    ensures
        0 <= j <= m,
        m - 3 <= j,
        is_char_boundary(b, j),
    decreases b.len(),
{
    if m <= 3 {
        0
    } else {
        let l = length_of_first_scalar(b);
        let rest = pop_first_scalar(b);
        assert(rest.len() == b.len() - l);
        let k = lemma_near_boundary(rest, m - l);
        assert(is_char_boundary(b, k + l));
        k + l
    }
}

/// The largest character boundary of `s` that is not past `m`; it lies at
/// most three bytes before `m`.
pub(crate) fn floor_boundary(s: &str, m: usize) -> (r: usize)
    requires
        m <= s.spec_bytes().len(),
    ensures
        r <= m,
        r + 3 >= m,
        is_char_boundary(s.spec_bytes(), r as int),
{
    let ghost b = s.spec_bytes();
    let mut k = m;
    while !s.is_char_boundary(k)
        invariant
            k <= m <= b.len(),
            b == s.spec_bytes(),
            valid_utf8(b),
            forall|j: int| k < j <= m ==> !is_char_boundary(b, j),
        decreases k,
    {
        proof {
            assert(is_char_boundary(b, 0));
        }
        k = k - 1;
    }
    proof {
        let j = lemma_near_boundary(b, m as int);
    }
    k
}

} // verus!
