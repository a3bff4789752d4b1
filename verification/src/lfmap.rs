//! The last-to-first mapping of the Burrows-Wheeler transform, and why it
//! inverts the transform.
//!
//! Rows: the sorted suffixes of `t`, led by the empty suffix. Row 0 holds the
//! empty suffix (position `n`), row `r >= 1` the suffix `sa[r-1]`. The
//! transform lists, row by row, the byte before each row's suffix, leaving out
//! the row of suffix 0 (row `pidx`). Entry `i` of the transform therefore
//! belongs to row `i` before `pidx` and to row `i + 1` from `pidx` on.
use vstd::prelude::*;
use crate::suffix::{
    bwt_char, is_bwt, is_bwt_of_sa, is_suffix_array, lemma_lex_irreflexive, lemma_lex_transitive,
    lemma_suffix_array_covers, lemma_suffix_array_distinct, lemma_suffix_drop_first, lex_lt,
    suffix,
};

verus! {

/// The number of entries of `s` in the byte range `lo..hi`.
pub open spec fn count_in(s: Seq<u8>, lo: int, hi: int) -> nat
    decreases s.len(),
{
    if s.len() == 0 {
        0
    } else {
        count_in(s.drop_last(), lo, hi) + if lo <= s.last() < hi {
            1nat
        } else {
            0nat
        }
    }
}

/// The positions of `s` whose entry lies in `lo..hi`.
pub open spec fn positions_in(s: Seq<u8>, lo: int, hi: int) -> Set<int> {
    Set::new(|j: int| 0 <= j < s.len() && lo <= s[j] < hi)
}

pub proof fn lemma_count_bound(s: Seq<u8>, lo: int, hi: int)
    ensures
        count_in(s, lo, hi) <= s.len(),
    decreases s.len(),
{
    if s.len() > 0 {
        lemma_count_bound(s.drop_last(), lo, hi);
    }
}

/// Counting over adjacent byte ranges adds up.
pub proof fn lemma_count_split(s: Seq<u8>, lo: int, mid: int, hi: int)
    requires
        lo <= mid <= hi,
    ensures
        count_in(s, lo, mid) + count_in(s, mid, hi) == count_in(s, lo, hi),
    decreases s.len(),
{
    if s.len() > 0 {
        lemma_count_split(s.drop_last(), lo, mid, hi);
    }
}

/// A wider byte range counts at least as many entries.
pub proof fn lemma_count_mono(s: Seq<u8>, lo: int, h1: int, h2: int)
    requires
        lo <= h1 <= h2,
    ensures
        count_in(s, lo, h1) <= count_in(s, lo, h2),
{
    lemma_count_split(s, lo, h1, h2);
}

/// One more entry at the end of a prefix.
pub proof fn lemma_count_take_step(s: Seq<u8>, i: int, lo: int, hi: int)
    requires
        0 <= i < s.len(),
    ensures
        count_in(s.take(i + 1), lo, hi) == count_in(s.take(i), lo, hi) + if lo <= s[i] < hi {
            1nat
        } else {
            0nat
        },
{
    assert(s.take(i + 1).drop_last() =~= s.take(i));
}

/// The count is the size of the set of positions it counts.
pub proof fn lemma_count_positions(s: Seq<u8>, lo: int, hi: int)
    ensures
        positions_in(s, lo, hi).finite(),
        positions_in(s, lo, hi).len() == count_in(s, lo, hi),
    decreases s.len(),
{
    if s.len() == 0 {
        assert(positions_in(s, lo, hi) =~= Set::empty());
    } else {
        let d = s.drop_last();
        lemma_count_positions(d, lo, hi);
        let m = s.len() - 1;
        if lo <= s[m] < hi {
            assert(positions_in(s, lo, hi) =~= positions_in(d, lo, hi).insert(m));
        } else {
            assert(positions_in(s, lo, hi) =~= positions_in(d, lo, hi));
        }
    }
}

/// Counting in a prefix: the positions before `i` whose entry is in `lo..hi`.
pub proof fn lemma_count_prefix_positions(s: Seq<u8>, i: int, lo: int, hi: int)
    requires
        0 <= i <= s.len(),
    ensures
        Set::new(|j: int| 0 <= j < i && lo <= s[j] < hi).finite(),
        Set::new(|j: int| 0 <= j < i && lo <= s[j] < hi).len() == count_in(s.take(i), lo, hi),
{
    lemma_count_positions(s.take(i), lo, hi);
    assert(Set::new(|j: int| 0 <= j < i && lo <= s[j] < hi) =~= positions_in(s.take(i), lo, hi));
}

/// Within a prefix, a later entry equal to `c` has counted strictly more `c`s before it.
pub proof fn lemma_count_take_strict(s: Seq<u8>, i: int, j: int, c: int)
    requires
        0 <= i < j <= s.len(),
        s[i] == c,
    ensures
        count_in(s.take(i), c, c + 1) < count_in(s.take(j), c, c + 1),
    decreases j - i,
{
    lemma_count_take_step(s, i, c, c + 1);
    if j > i + 1 {
        lemma_count_take_mono(s, i + 1, j, c);
    }
}

/// Counting in a longer prefix never gives less.
pub proof fn lemma_count_take_mono(s: Seq<u8>, i: int, j: int, c: int)
    requires
        0 <= i <= j <= s.len(),
    ensures
        count_in(s.take(i), c, c + 1) <= count_in(s.take(j), c, c + 1),
    decreases j - i,
{
    if j > i {
        lemma_count_take_mono(s, i, j - 1, c);
        lemma_count_take_step(s, j - 1, c, c + 1);
    }
}

/// The row of entry `i` of the transform.
pub open spec fn frow(pidx: int, i: int) -> int {
    if i < pidx {
        i
    } else {
        i + 1
    }
}

/// The start of the suffix in row `r`.
pub open spec fn row_suffix(n: int, sa: Seq<i32>, r: int) -> int {
    if r == 0 {
        n
    } else {
        sa[r - 1] as int
    }
}

/// The position of the text that entry `i` of the transform was read from.
pub open spec fn src(n: int, sa: Seq<i32>, pidx: int, i: int) -> int {
    row_suffix(n, sa, frow(pidx, i)) - 1
}

/// The last-to-first mapping: where, among the nonempty suffixes in sorted order,
/// lies the suffix that starts at the byte of entry `i`. It counts the entries
/// smaller than `u[i]`, then the entries equal to `u[i]` before `i`.
pub open spec fn lf(u: Seq<u8>, i: int) -> int {
    (count_in(u, 0, u[i] as int) + count_in(u.take(i), u[i] as int, u[i] + 1)) as int
}

/// Entry `i` of the transform is the byte at `src(i)`.
pub proof fn lemma_src(t: Seq<u8>, sa: Seq<i32>, u: Seq<u8>, pidx: int, i: int)
    requires
        is_suffix_array(t, sa),
        is_bwt_of_sa(t, sa, u, pidx),
        0 <= i < t.len(),
    ensures
        0 <= src(t.len() as int, sa, pidx, i) < t.len(),
        t[src(t.len() as int, sa, pidx, i)] == u[i],
{
    let n = t.len() as int;
    assert(u[i] == bwt_char(t, sa, pidx, i));
    if i < pidx {
        if i > 0 {
            lemma_suffix_array_distinct(t, sa, i - 1, pidx - 1);
        }
    } else {
        if i != pidx - 1 {
            lemma_suffix_array_distinct(t, sa, i, pidx - 1);
        }
    }
}

/// Rows are in the lexicographic order of their suffixes.
pub proof fn lemma_rows_ordered(t: Seq<u8>, sa: Seq<i32>, r1: int, r2: int)
    requires
        is_suffix_array(t, sa),
        0 <= r1 <= t.len(),
        0 <= r2 <= t.len(),
    ensures
        r1 < r2 <==> lex_lt(
            suffix(t, row_suffix(t.len() as int, sa, r1)),
            suffix(t, row_suffix(t.len() as int, sa, r2)),
        ),
{
    let n = t.len() as int;
    let a = suffix(t, row_suffix(n, sa, r1));
    let b = suffix(t, row_suffix(n, sa, r2));
    if r1 < r2 {
        lemma_rows_ordered_lt(t, sa, r1, r2);
    } else if r1 == r2 {
        lemma_lex_irreflexive(a);
    } else {
        lemma_rows_ordered_lt(t, sa, r2, r1);
        if lex_lt(a, b) {
            lemma_lex_transitive(a, b, a);
            lemma_lex_irreflexive(a);
        }
    }
}

proof fn lemma_rows_ordered_lt(t: Seq<u8>, sa: Seq<i32>, r1: int, r2: int)
    requires
        is_suffix_array(t, sa),
        0 <= r1 < r2 <= t.len(),
    ensures
        lex_lt(
            suffix(t, row_suffix(t.len() as int, sa, r1)),
            suffix(t, row_suffix(t.len() as int, sa, r2)),
        ),
{
    let n = t.len() as int;
    assert(0 <= sa[r2 - 1] < n);
    if r1 == 0 {
        assert(suffix(t, n).len() == 0);
        assert(suffix(t, sa[r2 - 1] as int).len() > 0);
    }
}

/// Different entries of the transform were read from different positions.
pub proof fn lemma_src_injective(t: Seq<u8>, sa: Seq<i32>, pidx: int, i: int, j: int)
    requires
        is_suffix_array(t, sa),
        1 <= pidx <= t.len(),
        0 <= i < t.len(),
        0 <= j < t.len(),
        i != j,
    ensures
        src(t.len() as int, sa, pidx, i) != src(t.len() as int, sa, pidx, j),
{
    let r1 = frow(pidx, i);
    let r2 = frow(pidx, j);
    assert(r1 != r2);
    if r1 > 0 && r2 > 0 {
        lemma_suffix_array_distinct(t, sa, r1 - 1, r2 - 1);
    } else if r1 > 0 {
        assert(0 <= sa[r1 - 1] < t.len());
    } else {
        assert(0 <= sa[r2 - 1] < t.len());
    }
}

/// Every position of the text was read by some entry of the transform.
pub proof fn lemma_src_onto(t: Seq<u8>, sa: Seq<i32>, u: Seq<u8>, pidx: int, z: int) -> (i: int)
    requires
        is_suffix_array(t, sa),
        is_bwt_of_sa(t, sa, u, pidx),
        0 <= z < t.len(),
    ensures
        0 <= i < t.len(),
        src(t.len() as int, sa, pidx, i) == z,
{
    let n = t.len() as int;
    if z + 1 == n {
        0
    } else {
        lemma_suffix_array_covers(t, sa, z + 1);
        let k = choose|k: int| 0 <= k < sa.len() && sa[k] == z + 1;
        let r = k + 1;
        if r < pidx {
            r
        } else {
            assert(r != pidx);
            r - 1
        }
    }
}

/// The suffix at position `k` of a suffix array is preceded by exactly `k` smaller suffixes.
pub proof fn lemma_rank_count(t: Seq<u8>, sa: Seq<i32>, k: int)
    requires
        is_suffix_array(t, sa),
        0 <= k < t.len(),
    ensures
        Set::new(|z: int| 0 <= z < t.len() && lex_lt(suffix(t, z), suffix(t, sa[k] as int))).finite(),
        Set::new(|z: int| 0 <= z < t.len() && lex_lt(suffix(t, z), suffix(t, sa[k] as int))).len()
            == k,
{
    let n = t.len() as int;
    let y = sa[k] as int;
    let left = Set::new(|z: int| 0 <= z < n && lex_lt(suffix(t, z), suffix(t, y)));
    let f = |q: int| sa[q] as int;
    let range = vstd::set_lib::set_int_range(0, k);
    vstd::set_lib::lemma_int_range(0, k);
    assert forall|q1: int, q2: int| range.contains(q1) && range.contains(q2) && #[trigger] f(q1)
        == #[trigger] f(q2) implies q1 == q2 by {
        if q1 != q2 {
            lemma_suffix_array_distinct(t, sa, q1, q2);
        }
    }
    assert forall|z: int| left.contains(z) implies range.map(f).contains(z) by {
        lemma_suffix_array_covers(t, sa, z);
        let q = choose|q: int| 0 <= q < sa.len() && sa[q] == z;
        if q == k {
            lemma_lex_irreflexive(suffix(t, y));
        } else if q > k {
            assert(lex_lt(suffix(t, sa[k] as int), suffix(t, sa[q] as int)));
            lemma_lex_transitive(suffix(t, y), suffix(t, z), suffix(t, y));
            lemma_lex_irreflexive(suffix(t, y));
        }
        assert(range.contains(q) && f(q) == z);
    }
    assert forall|z: int| range.map(f).contains(z) implies left.contains(z) by {
        let q = choose|q: int| range.contains(q) && f(q) == z;
        assert(lex_lt(suffix(t, sa[q] as int), suffix(t, sa[k] as int)));
    }
    assert(range.map(f) =~= left);
    vstd::set_lib::lemma_map_size(range, left, f);
}

/// Comparing two suffixes that start with the same byte compares what follows it.
proof fn lemma_lex_same_head(t: Seq<u8>, z: int, y: int)
    requires
        0 <= z < t.len(),
        0 <= y < t.len(),
        t[z] == t[y],
    ensures
        lex_lt(suffix(t, z), suffix(t, y)) <==> lex_lt(suffix(t, z + 1), suffix(t, y + 1)),
{
    lemma_suffix_drop_first(t, z);
    lemma_suffix_drop_first(t, y);
}

/// The last-to-first mapping is right: entry `i` of the transform leads to the
/// place, in the suffix array, of the suffix that starts at the byte it holds.
pub proof fn lemma_lf(t: Seq<u8>, sa: Seq<i32>, u: Seq<u8>, pidx: int, i: int)
    requires
        is_suffix_array(t, sa),
        is_bwt_of_sa(t, sa, u, pidx),
        0 <= i < t.len(),
    ensures
        0 <= lf(u, i) < t.len(),
        sa[lf(u, i)] == src(t.len() as int, sa, pidx, i),
{
    let n = t.len() as int;
    lemma_src(t, sa, u, pidx, i);
    let y = src(n, sa, pidx, i);
    let c = u[i] as int;
    lemma_suffix_array_covers(t, sa, y);
    let k = choose|k: int| 0 <= k < sa.len() && sa[k] == y;
    lemma_rank_count(t, sa, k);
    let all = Set::new(|z: int| 0 <= z < n && lex_lt(suffix(t, z), suffix(t, sa[k] as int)));
    let below = Set::new(|z: int| 0 <= z < n && t[z] < c);
    let same = Set::new(|z: int| 0 <= z < n && t[z] == c && lex_lt(suffix(t, z), suffix(t, y)));
    assert forall|z: int| all.contains(z) <==> (below + same).contains(z) by {
        if 0 <= z < n {
            lemma_suffix_drop_first(t, z);
            lemma_suffix_drop_first(t, y);
        }
    }
    assert(all =~= below + same);
    let f = |j: int| src(n, sa, pidx, j);
    // the entries below `c` were read from the positions below `c`
    let pos_below = positions_in(u, 0, c);
    lemma_count_positions(u, 0, c);
    assert forall|j1: int, j2: int| pos_below.contains(j1) && pos_below.contains(j2) && #[trigger] f(
        j1,
    ) == #[trigger] f(j2) implies j1 == j2 by {
        if j1 != j2 {
            lemma_src_injective(t, sa, pidx, j1, j2);
        }
    }
    assert forall|z: int| pos_below.map(f).contains(z) <==> below.contains(z) by {
        if pos_below.map(f).contains(z) {
            let j = choose|j: int| pos_below.contains(j) && f(j) == z;
            lemma_src(t, sa, u, pidx, j);
        }
        if below.contains(z) {
            let j = lemma_src_onto(t, sa, u, pidx, z);
            lemma_src(t, sa, u, pidx, j);
            assert(pos_below.contains(j) && f(j) == z);
        }
    }
    assert(pos_below.map(f) =~= below);
    vstd::set_lib::lemma_map_size(pos_below, below, f);
    // the entries equal to `c` before `i` were read from the smaller suffixes led by `c`
    let pos_same = Set::new(|j: int| 0 <= j < i && c <= u[j] < c + 1);
    lemma_count_prefix_positions(u, i, c, c + 1);
    assert forall|j1: int, j2: int| pos_same.contains(j1) && pos_same.contains(j2) && #[trigger] f(
        j1,
    ) == #[trigger] f(j2) implies j1 == j2 by {
        if j1 != j2 {
            lemma_src_injective(t, sa, pidx, j1, j2);
        }
    }
    assert forall|z: int| pos_same.map(f).contains(z) <==> same.contains(z) by {
        if pos_same.map(f).contains(z) {
            let j = choose|j: int| pos_same.contains(j) && f(j) == z;
            lemma_src(t, sa, u, pidx, j);
            lemma_rows_ordered(t, sa, frow(pidx, j), frow(pidx, i));
            lemma_lex_same_head(t, z, y);
        }
        if same.contains(z) {
            let j = lemma_src_onto(t, sa, u, pidx, z);
            lemma_src(t, sa, u, pidx, j);
            lemma_lex_same_head(t, z, y);
            lemma_rows_ordered(t, sa, frow(pidx, j), frow(pidx, i));
            assert(pos_same.contains(j) && f(j) == z);
        }
    }
    assert(pos_same.map(f) =~= same);
    vstd::set_lib::lemma_map_size(pos_same, same, f);
    vstd::set_lib::lemma_set_disjoint_lens(below, same);
    assert(below.disjoint(same));
}

/// The mapping sends an entry holding `c` into the block of `c`: past the entries
/// smaller than `c`, and before the entries larger than `c`.
pub proof fn lemma_lf_range(u: Seq<u8>, i: int)
    requires
        0 <= i < u.len(),
    ensures
        count_in(u, 0, u[i] as int) <= lf(u, i) < count_in(u, 0, u[i] + 1),
{
    let c = u[i] as int;
    lemma_count_take_strict(u, i, u.len() as int, c);
    assert(u.take(u.len() as int) =~= u);
    lemma_count_split(u, 0, c, c + 1);
}

/// Different entries are mapped to different places.
pub proof fn lemma_lf_injective(u: Seq<u8>, i: int, j: int)
    requires
        0 <= i < j < u.len(),
    ensures
        lf(u, i) != lf(u, j),
{
    lemma_lf_range(u, i);
    lemma_lf_range(u, j);
    if u[i] == u[j] {
        lemma_count_take_strict(u, i, j, u[i] as int);
    } else if u[i] < u[j] {
        lemma_count_mono(u, 0, u[i] + 1, u[j] as int);
    } else {
        lemma_count_mono(u, 0, u[j] + 1, u[i] as int);
    }
}

/// The byte `c` whose block holds place `m` is unique.
pub proof fn lemma_block_unique(u: Seq<u8>, m: int, c1: int, c2: int)
    requires
        0 <= c1,
        0 <= c2,
        count_in(u, 0, c1) <= m < count_in(u, 0, c1 + 1),
        count_in(u, 0, c2) <= m < count_in(u, 0, c2 + 1),
    ensures
        c1 == c2,
{
    if c1 < c2 {
        lemma_count_mono(u, 0, c1 + 1, c2);
    } else if c2 < c1 {
        lemma_count_mono(u, 0, c2 + 1, c1);
    }
}

/// One step of the inversion: the suffix array entry at place `m` is `k`; the
/// entry of the transform mapped to `m` belongs to the row of the suffix `k + 1`.
pub proof fn lemma_walk_next(t: Seq<u8>, sa: Seq<i32>, u: Seq<u8>, pidx: int, m: int) -> (j: int)
    requires
        is_suffix_array(t, sa),
        is_bwt_of_sa(t, sa, u, pidx),
        0 <= m < t.len(),
    ensures
        0 <= j < t.len(),
        lf(u, j) == m,
        u[j] == t[sa[m] as int],
        row_suffix(t.len() as int, sa, frow(pidx, j)) == sa[m] + 1,
        count_in(u, 0, t[sa[m] as int] as int) <= m < count_in(u, 0, t[sa[m] as int] + 1),
{
    let j = lemma_src_onto(t, sa, u, pidx, sa[m] as int);
    lemma_lf(t, sa, u, pidx, j);
    lemma_src(t, sa, u, pidx, j);
    if lf(u, j) != m {
        lemma_suffix_array_distinct(t, sa, lf(u, j), m);
    }
    lemma_lf_range(u, j);
    j
}

proof fn lemma_walk_agree(
    t1: Seq<u8>,
    sa1: Seq<i32>,
    t2: Seq<u8>,
    sa2: Seq<i32>,
    u: Seq<u8>,
    pidx: int,
    k: int,
) -> (m: int)
    requires
        is_suffix_array(t1, sa1),
        is_bwt_of_sa(t1, sa1, u, pidx),
        is_suffix_array(t2, sa2),
        is_bwt_of_sa(t2, sa2, u, pidx),
        0 <= k < t1.len(),
    ensures
        0 <= m < t1.len(),
        sa1[m] == k,
        sa2[m] == k,
    decreases k,
{
    if k == 0 {
        pidx - 1
    } else {
        let m0 = lemma_walk_agree(t1, sa1, t2, sa2, u, pidx, k - 1);
        let j1 = lemma_walk_next(t1, sa1, u, pidx, m0);
        let j2 = lemma_walk_next(t2, sa2, u, pidx, m0);
        if j1 < j2 {
            lemma_lf_injective(u, j1, j2);
        } else if j2 < j1 {
            lemma_lf_injective(u, j2, j1);
        }
        frow(pidx, j1) - 1
    }
}

/// The transform can be inverted: two texts with the same transform and the same
/// primary index are the same text.
pub proof fn lemma_bwt_invertible(t1: Seq<u8>, t2: Seq<u8>, u: Seq<u8>, pidx: int)
    requires
        is_bwt(t1, u, pidx),
        is_bwt(t2, u, pidx),
    ensures
        t1 == t2,
{
    let sa1 = choose|sa: Seq<i32>| is_suffix_array(t1, sa) && is_bwt_of_sa(t1, sa, u, pidx);
    let sa2 = choose|sa: Seq<i32>| is_suffix_array(t2, sa) && is_bwt_of_sa(t2, sa, u, pidx);
    assert forall|k: int| 0 <= k < t1.len() implies t1[k] == t2[k] by {
        let m = lemma_walk_agree(t1, sa1, t2, sa2, u, pidx, k);
        lemma_walk_next(t1, sa1, u, pidx, m);
        lemma_walk_next(t2, sa2, u, pidx, m);
        lemma_block_unique(u, m, t1[k] as int, t2[k] as int);
    }
    assert(t1 =~= t2);
}

/// The transform holds each byte as often as the text does.
pub proof fn lemma_bwt_counts(t: Seq<u8>, sa: Seq<i32>, u: Seq<u8>, pidx: int, lo: int, hi: int)
    requires
        is_suffix_array(t, sa),
        is_bwt_of_sa(t, sa, u, pidx),
    ensures
        count_in(u, lo, hi) == count_in(t, lo, hi),
{
    let n = t.len() as int;
    let f = |j: int| src(n, sa, pidx, j);
    let pu = positions_in(u, lo, hi);
    let pt = positions_in(t, lo, hi);
    lemma_count_positions(u, lo, hi);
    lemma_count_positions(t, lo, hi);
    assert forall|j1: int, j2: int| pu.contains(j1) && pu.contains(j2) && #[trigger] f(j1) == #[trigger] f(
        j2,
    ) implies j1 == j2 by {
        if j1 != j2 {
            lemma_src_injective(t, sa, pidx, j1, j2);
        }
    }
    assert forall|z: int| pu.map(f).contains(z) <==> pt.contains(z) by {
        if pu.map(f).contains(z) {
            let j = choose|j: int| pu.contains(j) && f(j) == z;
            lemma_src(t, sa, u, pidx, j);
        }
        if pt.contains(z) {
            let j = lemma_src_onto(t, sa, u, pidx, z);
            lemma_src(t, sa, u, pidx, j);
            assert(pu.contains(j) && f(j) == z);
        }
    }
    assert(pu.map(f) =~= pt);
    vstd::set_lib::lemma_map_size(pu, pt, f);
}

/// The transform of `t` read off its suffix array `sa`, with its primary index.
pub open spec fn bwt_of(t: Seq<u8>, sa: Seq<i32>, pidx: int) -> Seq<u8> {
    Seq::new(t.len(), |k: int| bwt_char(t, sa, pidx, k))
}

/// Every text of at least one byte has its transform, read off its suffix array.
pub proof fn lemma_bwt_exists(t: Seq<u8>, sa: Seq<i32>) -> (pidx: int)
    requires
        is_suffix_array(t, sa),
        t.len() > 0,
    ensures
        1 <= pidx <= t.len(),
        sa[pidx - 1] == 0,
        is_bwt_of_sa(t, sa, bwt_of(t, sa, pidx), pidx),
{
    lemma_suffix_array_covers(t, sa, 0);
    let k = choose|k: int| 0 <= k < sa.len() && sa[k] == 0;
    k + 1
}

} // verus!
