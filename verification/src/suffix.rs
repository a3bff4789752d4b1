//! Mathematical model of suffixes, their lexicographic order and suffix arrays.
use vstd::prelude::*;

verus! {

/// The suffix of `t` that starts at position `i`.
pub open spec fn suffix(t: Seq<u8>, i: int) -> Seq<u8> {
    t.subrange(i, t.len() as int)
}

/// Strict lexicographic order on byte strings: a proper prefix is smaller.
pub open spec fn lex_lt(a: Seq<u8>, b: Seq<u8>) -> bool
    decreases a.len(),
{
    if a.len() == 0 {
        b.len() > 0
    } else if b.len() == 0 {
        false
    } else if a[0] < b[0] {
        true
    } else if a[0] > b[0] {
        false
    } else {
        lex_lt(a.drop_first(), b.drop_first())
    }
}

/// `sa` lists every suffix of `t` exactly once, in strictly increasing lexicographic order.
pub open spec fn is_suffix_array(t: Seq<u8>, sa: Seq<i32>) -> bool {
    &&& sa.len() == t.len()
    &&& forall|k: int| 0 <= k < sa.len() ==> 0 <= #[trigger] sa[k] < t.len()
    &&& forall|i: int, j: int|
        0 <= i < j < sa.len() ==> lex_lt(
            suffix(t, #[trigger] sa[i] as int),
            suffix(t, #[trigger] sa[j] as int),
        )
}

/// The Burrows-Wheeler transform read off a suffix array, in the layout used by this
/// library: the character before the whole text comes first, the slot of the suffix
/// that starts at 0 is left out, and the primary index is that slot plus one.
pub open spec fn bwt_char(t: Seq<u8>, sa: Seq<i32>, pidx: int, i: int) -> u8 {
    if i == 0 {
        t[t.len() - 1]
    } else if i < pidx {
        t[sa[i - 1] - 1]
    } else {
        t[sa[i] - 1]
    }
}

/// `u` and `pidx` are the transform of `t` read off the suffix array `sa`.
pub open spec fn is_bwt_of_sa(t: Seq<u8>, sa: Seq<i32>, u: Seq<u8>, pidx: int) -> bool {
    &&& u.len() == t.len()
    &&& 1 <= pidx <= sa.len()
    &&& sa[pidx - 1] == 0
    &&& forall|i: int| 0 <= i < u.len() ==> #[trigger] u[i] == bwt_char(t, sa, pidx, i)
}

/// `u` and `pidx` are the Burrows-Wheeler transform of `t` (for a nonempty `t`).
pub open spec fn is_bwt(t: Seq<u8>, u: Seq<u8>, pidx: int) -> bool {
    exists|sa: Seq<i32>| is_suffix_array(t, sa) && is_bwt_of_sa(t, sa, u, pidx)
}

pub proof fn lemma_suffix_drop_first(t: Seq<u8>, x: int)
    requires
        0 <= x < t.len(),
    ensures
        suffix(t, x).len() > 0,
        suffix(t, x)[0] == t[x],
        suffix(t, x).drop_first() == suffix(t, x + 1),
{
    assert(suffix(t, x).drop_first() =~= suffix(t, x + 1));
}

/// Lexicographic order is irreflexive.
pub proof fn lemma_lex_irreflexive(a: Seq<u8>)
    ensures
        !lex_lt(a, a),
    decreases a.len(),
{
    if a.len() > 0 {
        lemma_lex_irreflexive(a.drop_first());
    }
}

/// Lexicographic order is transitive.
pub proof fn lemma_lex_transitive(a: Seq<u8>, b: Seq<u8>, c: Seq<u8>)
    requires
        lex_lt(a, b),
        lex_lt(b, c),
    ensures
        lex_lt(a, c),
    decreases a.len(),
{
    if a.len() > 0 && b.len() > 0 && c.len() > 0 && a[0] == b[0] && b[0] == c[0] {
        lemma_lex_transitive(a.drop_first(), b.drop_first(), c.drop_first());
    }
}

/// Two different strings are ordered one way or the other.
pub proof fn lemma_lex_total(a: Seq<u8>, b: Seq<u8>)
    requires
        a != b,
    ensures
        lex_lt(a, b) || lex_lt(b, a),
    decreases a.len(),
{
    if a.len() > 0 && b.len() > 0 && a[0] == b[0] {
        if a.drop_first() == b.drop_first() {
            assert(a =~= seq![a[0]] + a.drop_first());
            assert(b =~= seq![b[0]] + b.drop_first());
        }
        lemma_lex_total(a.drop_first(), b.drop_first());
    } else if a.len() == 0 && b.len() == 0 {
        assert(a =~= b);
    }
}

/// Suffixes that start at different positions are different strings.
pub proof fn lemma_suffixes_differ(t: Seq<u8>, x: int, y: int)
    requires
        0 <= x < t.len(),
        0 <= y < t.len(),
        x != y,
    ensures
        suffix(t, x) != suffix(t, y),
{
    assert(suffix(t, x).len() != suffix(t, y).len());
}

/// The entries of a suffix array are pairwise distinct.
pub proof fn lemma_suffix_array_distinct(t: Seq<u8>, sa: Seq<i32>, i: int, j: int)
    requires
        is_suffix_array(t, sa),
        0 <= i < sa.len(),
        0 <= j < sa.len(),
        i != j,
    ensures
        sa[i] != sa[j],
{
    if sa[i] == sa[j] {
        if i < j {
            lemma_lex_irreflexive(suffix(t, sa[i] as int));
        } else {
            lemma_lex_irreflexive(suffix(t, sa[j] as int));
        }
    }
}

/// A suffix array lists every position of the text.
pub proof fn lemma_suffix_array_covers(t: Seq<u8>, sa: Seq<i32>, s: int)
    requires
        is_suffix_array(t, sa),
        0 <= s < t.len(),
    ensures
        exists|k: int| 0 <= k < sa.len() && sa[k] == s,
{
    let n = t.len() as int;
    let q = sa.map_values(|v: i32| v as int);
    assert forall|i: int, j: int| 0 <= i < q.len() && 0 <= j < q.len() && i != j implies q[i] != q[j] by {
        lemma_suffix_array_distinct(t, sa, i, j);
    }
    assert(q.no_duplicates());
    q.unique_seq_to_set();
    vstd::set_lib::lemma_int_range(0, n);
    let r = vstd::set_lib::set_int_range(0, n);
    assert forall|v: int| q.to_set().contains(v) implies r.contains(v) by {
        assert(q.contains(v));
        let k = choose|k: int| 0 <= k < q.len() && q[k] == v;
        assert(0 <= sa[k] < n);
    }
    q.lemma_cardinality_of_set();
    vstd::set_lib::lemma_subset_equality(q.to_set(), r);
    assert(r.contains(s));
    assert(q.to_set().contains(s));
    assert(q.contains(s));
    let k = choose|k: int| 0 <= k < q.len() && q[k] == s;
    assert(sa[k] == s);
}

proof fn lemma_unique_at(t: Seq<u8>, s1: Seq<i32>, s2: Seq<i32>, i: int)
    requires
        is_suffix_array(t, s1),
        is_suffix_array(t, s2),
        0 <= i < t.len(),
        forall|k: int| 0 <= k < i ==> s1[k] == s2[k],
    ensures
        s1[i] == s2[i],
{
    let x = s1[i] as int;
    let y = s2[i] as int;
    if x != y {
        lemma_suffix_array_covers(t, s1, y);
        let j = choose|j: int| 0 <= j < s1.len() && s1[j] == y;
        if j < i {
            lemma_suffix_array_distinct(t, s2, j, i);
        }
        lemma_suffix_array_covers(t, s2, x);
        let k = choose|k: int| 0 <= k < s2.len() && s2[k] == x;
        if k < i {
            lemma_suffix_array_distinct(t, s1, k, i);
        }
        if j > i && k > i {
            lemma_lex_transitive(suffix(t, x), suffix(t, y), suffix(t, x));
            lemma_lex_irreflexive(suffix(t, x));
        }
    }
}

proof fn lemma_unique_upto(t: Seq<u8>, s1: Seq<i32>, s2: Seq<i32>, i: int)
    requires
        is_suffix_array(t, s1),
        is_suffix_array(t, s2),
        0 <= i <= t.len(),
    ensures
        forall|k: int| 0 <= k < i ==> s1[k] == s2[k],
    decreases i,
{
    if i > 0 {
        lemma_unique_upto(t, s1, s2, i - 1);
        lemma_unique_at(t, s1, s2, i - 1);
    }
}

/// A text has one suffix array: any two suffix arrays of the same text are equal.
pub proof fn lemma_suffix_array_unique(t: Seq<u8>, s1: Seq<i32>, s2: Seq<i32>)
    requires
        is_suffix_array(t, s1),
        is_suffix_array(t, s2),
    ensures
        s1 == s2,
{
    lemma_unique_upto(t, s1, s2, t.len() as int);
    assert(s1 =~= s2);
}

/// The Burrows-Wheeler transform of a text is unique: two transforms of the same
/// text agree, in content and in primary index.
pub proof fn lemma_bwt_unique(t: Seq<u8>, u1: Seq<u8>, p1: int, u2: Seq<u8>, p2: int)
    requires
        is_bwt(t, u1, p1),
        is_bwt(t, u2, p2),
    ensures
        u1 == u2,
        p1 == p2,
{
    let sa1 = choose|sa: Seq<i32>| is_suffix_array(t, sa) && is_bwt_of_sa(t, sa, u1, p1);
    let sa2 = choose|sa: Seq<i32>| is_suffix_array(t, sa) && is_bwt_of_sa(t, sa, u2, p2);
    lemma_suffix_array_unique(t, sa1, sa2);
    if p1 != p2 {
        lemma_suffix_array_distinct(t, sa1, p1 - 1, p2 - 1);
    }
    assert forall|i: int| 0 <= i < u1.len() implies u1[i] == u2[i] by {
        assert(u1[i] == bwt_char(t, sa1, p1, i));
        assert(u2[i] == bwt_char(t, sa2, p2, i));
    }
    assert(u1 =~= u2);
}

} // verus!
