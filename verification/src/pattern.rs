//! Where a pattern falls among the sorted suffixes: below it, starting with it,
//! or above it.
use vstd::prelude::*;
use crate::suffix::{is_suffix_array, lemma_lex_transitive, lex_lt, suffix};

verus! {

/// `a` and `p` agree on their first `m` bytes (`m` at most the length of each).
pub open spec fn agrees(a: Seq<u8>, p: Seq<u8>, m: int) -> bool {
    &&& 0 <= m <= p.len()
    &&& m <= a.len()
    &&& forall|q: int| 0 <= q < m ==> #[trigger] a[q] == p[q]
}

/// `a` starts with `p`.
pub open spec fn has_prefix(a: Seq<u8>, p: Seq<u8>) -> bool {
    agrees(a, p, p.len() as int)
}

/// `a` comes after every string that starts with `p`.
pub open spec fn above(a: Seq<u8>, p: Seq<u8>) -> bool {
    !lex_lt(a, p) && !has_prefix(a, p)
}

/// Lexicographic order decided at the first position where two strings differ.
pub proof fn lemma_lex_first_diff(a: Seq<u8>, b: Seq<u8>, j: int)
    requires
        0 <= j <= a.len(),
        j <= b.len(),
        forall|q: int| 0 <= q < j ==> #[trigger] a[q] == b[q],
    ensures
        j == a.len() && j < b.len() ==> lex_lt(a, b),
        j == b.len() ==> !lex_lt(a, b),
        j < a.len() && j < b.len() && a[j] < b[j] ==> lex_lt(a, b),
        j < a.len() && j < b.len() && a[j] > b[j] ==> !lex_lt(a, b),
    decreases j,
{
    if j > 0 {
        assert forall|q: int| 0 <= q < j - 1 implies #[trigger] a.drop_first()[q] == b.drop_first()[q] by {
            assert(a[q + 1] == b[q + 1]);
        }
        lemma_lex_first_diff(a.drop_first(), b.drop_first(), j - 1);
        assert(a[0] == b[0]);
    }
}

/// Starting with `p` rules out lying below `p`.
pub proof fn lemma_prefix_not_below(a: Seq<u8>, p: Seq<u8>)
    requires
        has_prefix(a, p),
    ensures
        !lex_lt(a, p),
{
    lemma_lex_first_diff(a, p, p.len() as int);
}

/// A string between two strings that agree with `p` on `m` bytes agrees with
/// `p` on those `m` bytes too.
pub proof fn lemma_between_agrees(a: Seq<u8>, x: Seq<u8>, b: Seq<u8>, p: Seq<u8>, m: int)
    requires
        lex_lt(a, x) || a == x,
        lex_lt(x, b) || x == b,
        agrees(a, p, m),
        agrees(b, p, m),
    ensures
        agrees(x, p, m),
    decreases m,
{
    if m > 0 {
        assert(a[0] == p[0] && b[0] == p[0]);
        assert(x.len() > 0);
        assert(x[0] == p[0]);
        let a1 = a.drop_first();
        let x1 = x.drop_first();
        let b1 = b.drop_first();
        let p1 = p.drop_first();
        assert forall|q: int| 0 <= q < m - 1 implies #[trigger] a1[q] == p1[q] by {
            assert(a[q + 1] == p[q + 1]);
        }
        assert forall|q: int| 0 <= q < m - 1 implies #[trigger] b1[q] == p1[q] by {
            assert(b[q + 1] == p[q + 1]);
        }
        lemma_between_agrees(a1, x1, b1, p1, m - 1);
        assert forall|q: int| 0 <= q < m implies #[trigger] x[q] == p[q] by {
            if q > 0 {
                assert(x1[q - 1] == p1[q - 1]);
            }
        }
    }
}

/// A string below one that starts with `p` lies below `p` or starts with `p`.
pub proof fn lemma_before_prefix(a: Seq<u8>, b: Seq<u8>, p: Seq<u8>)
    requires
        lex_lt(a, b),
        has_prefix(b, p),
    ensures
        lex_lt(a, p) || has_prefix(a, p),
    decreases p.len(),
{
    if p.len() > 0 && a.len() > 0 && a[0] == b[0] {
        let a1 = a.drop_first();
        let b1 = b.drop_first();
        let p1 = p.drop_first();
        assert forall|q: int| 0 <= q < p1.len() implies #[trigger] b1[q] == p1[q] by {
            assert(b[q + 1] == p[q + 1]);
        }
        lemma_before_prefix(a1, b1, p1);
        if has_prefix(a1, p1) {
            assert forall|q: int| 0 <= q < p.len() implies #[trigger] a[q] == p[q] by {
                if q > 0 {
                    assert(a1[q - 1] == p1[q - 1]);
                }
            }
        }
    }
}

/// Whatever lies beyond a string above `p` is above `p` too.
pub proof fn lemma_above_mono(a: Seq<u8>, b: Seq<u8>, p: Seq<u8>)
    requires
        lex_lt(a, b),
        above(a, p),
    ensures
        above(b, p),
{
    if lex_lt(b, p) {
        lemma_lex_transitive(a, b, p);
    }
    if has_prefix(b, p) {
        lemma_before_prefix(a, b, p);
    }
}

/// Whatever lies before a string below `p` is below `p` too.
pub proof fn lemma_below_mono(a: Seq<u8>, b: Seq<u8>, p: Seq<u8>)
    requires
        lex_lt(a, b),
        lex_lt(b, p),
    ensures
        lex_lt(a, p),
{
    lemma_lex_transitive(a, b, p);
}

/// Beyond a string that starts with `p`, nothing lies below `p`.
pub proof fn lemma_after_prefix(a: Seq<u8>, b: Seq<u8>, p: Seq<u8>)
    requires
        lex_lt(a, b),
        has_prefix(a, p),
    ensures
        !lex_lt(b, p),
{
    lemma_prefix_not_below(a, p);
    if lex_lt(b, p) {
        lemma_lex_transitive(a, b, p);
    }
}

/// The suffix listed at position `q` of `sa`.
pub open spec fn suf_at(t: Seq<u8>, sa: Seq<i32>, q: int) -> Seq<u8> {
    suffix(t, sa[q] as int)
}

/// In a window `lo..hi` of a suffix array, bounded by entries known to agree with
/// `p` on `lm` and `rm` bytes (none where the window reaches an end of the
/// array), every entry agrees with `p` on the smaller of the two.
pub proof fn lemma_search_window(
    t: Seq<u8>,
    sa: Seq<i32>,
    p: Seq<u8>,
    lo: int,
    x: int,
    hi: int,
    lm: int,
    rm: int,
)
    requires
        is_suffix_array(t, sa),
        0 <= lo <= x < hi <= sa.len(),
        0 <= lm <= p.len(),
        0 <= rm <= p.len(),
        lo > 0 ==> agrees(suf_at(t, sa, lo - 1), p, lm),
        lo == 0 ==> lm == 0,
        hi < sa.len() ==> agrees(suf_at(t, sa, hi), p, rm),
        hi == sa.len() ==> rm == 0,
    ensures
        0 <= sa[x] < t.len(),
        agrees(suf_at(t, sa, x), p, if lm < rm { lm } else { rm }),
{
    let m = if lm < rm { lm } else { rm };
    assert(0 <= sa[x] < t.len());
    if m > 0 {
        assert(lex_lt(suf_at(t, sa, lo - 1), suf_at(t, sa, x)));
        assert(lex_lt(suf_at(t, sa, x), suf_at(t, sa, hi)));
        lemma_between_agrees(suf_at(t, sa, lo - 1), suf_at(t, sa, x), suf_at(t, sa, hi), p, m);
    }
}

} // verus!
