//! Working with suffix arrays: checking one, reading the Burrows-Wheeler
//! transform off it, inverting the transform, and searching the text.
use vstd::prelude::*;
use vstd::string::StringExecFns;
use crate::suffix::{
    bwt_char, is_bwt, is_bwt_of_sa, is_suffix_array, lemma_suffix_array_covers, lex_lt, suffix,
};
use crate::divsufsort::{divbwt, scratch_too_short};
use crate::DivSufSortError;
use crate::pattern::{
    above, agrees, has_prefix, lemma_above_mono, lemma_after_prefix, lemma_below_mono,
    lemma_lex_first_diff, lemma_prefix_not_below, lemma_search_window, suf_at,
};
use crate::lfmap::{
    count_in, frow, lemma_count_bound, lemma_count_mono, lemma_count_split, lemma_count_take_step,
    lemma_count_take_mono, lemma_lf_injective, lemma_lf_range, lemma_walk_next, lf,
};

verus! {

/// The transform read off `a`, whose first 0 sits at `pidx - 1`.
pub open spec fn walk_bwt(t: Seq<u8>, a: Seq<i32>, u: Seq<u8>, pidx: int) -> bool {
    &&& u.len() == t.len()
    &&& 1 <= pidx <= t.len()
    &&& a[pidx - 1] == 0
    &&& forall|k: int| 0 <= k < pidx - 1 ==> a[k] != 0
    &&& forall|i: int| 0 <= i < u.len() ==> #[trigger] u[i] == bwt_char(t, a, pidx, i)
}

/// `p` is the only position before `n` where `a` holds 0, and every other entry
/// before `n` is a position `1..=n`.
pub open spec fn single_zero(n: int, a: Seq<i32>, p: int) -> bool {
    &&& a.len() >= n
    &&& 0 <= p < n
    &&& a[p] == 0
    &&& forall|k: int| 0 <= k < n && k != p ==> 1 <= #[trigger] a[k] <= n
}

/// Writes the transform of `t` read off `a` into `u[0..n)`; returns the primary index.
fn bwt_walk(t: &[u8], a: &[i32], u: &mut [u8]) -> (pidx: i32)
    requires
        1 <= t@.len() <= 0x7fff_ffff,
        old(u)@.len() >= t@.len(),
        a@.len() >= t@.len(),
        exists|p: int| single_zero(t@.len() as int, a@, p),
    ensures
        final(u)@.len() == old(u)@.len(),
        final(u)@.subrange(t@.len() as int, old(u)@.len() as int) == old(u)@.subrange(
            t@.len() as int,
            old(u)@.len() as int,
        ),
        walk_bwt(t@, a@, final(u)@.subrange(0, t@.len() as int), pidx as int),
{
    let n = t.len();
    let ghost u0 = u@;
    let ghost p = choose|p: int| single_zero(t@.len() as int, a@, p);
    u[0] = t[n - 1];
    let mut i: usize = 0;
    while a[i] != 0
        invariant
            i <= p < n,
            a@[p] == 0,
            n == t@.len(),
            a@.len() >= n,
            n <= u0.len(),
            u@.len() == u0.len(),
            forall|k: int| n <= k < u0.len() ==> u@[k] == u0[k],
            single_zero(n as int, a@, p),
            forall|k: int| 0 <= k < i ==> a@[k] != 0,
            u@[0] == t@[n - 1],
            forall|k: int| 1 <= k <= i ==> #[trigger] u@[k] == t@[a@[k - 1] - 1],
        decreases p - i,
    {
        u[i + 1] = t[(a[i] - 1) as usize];
        i += 1;
    }
    let pidx = i + 1;
    let mut j = i + 1;
    while j < n
        invariant
            pidx <= j <= n,
            pidx == i + 1,
            i < n,
            a@[i as int] == 0,
            n == t@.len(),
            a@.len() >= n,
            n <= u0.len(),
            u@.len() == u0.len(),
            forall|k: int| n <= k < u0.len() ==> u@[k] == u0[k],
            single_zero(n as int, a@, i as int),
            forall|k: int| 0 <= k < i ==> a@[k] != 0,
            u@[0] == t@[n - 1],
            forall|k: int| 1 <= k <= i ==> #[trigger] u@[k] == t@[a@[k - 1] - 1],
            forall|k: int| pidx <= k < j ==> #[trigger] u@[k] == t@[a@[k] - 1],
        decreases n - j,
    {
        u[j] = t[(a[j] - 1) as usize];
        j += 1;
    }
    proof {
        assert(u@.subrange(n as int, u0.len() as int) =~= u0.subrange(n as int, u0.len() as int));
        let w = u@.subrange(0, n as int);
        assert forall|k: int| 0 <= k < w.len() implies #[trigger] w[k] == bwt_char(t@, a@, pidx as int, k) by {
            if k == 0 {
            } else if k < pidx {
                assert(w[k] == u@[k]);
            } else {
                assert(w[k] == u@[k]);
            }
        }
    }
    pidx as i32
}

/// Writes the Burrows-Wheeler transform of `t` into `u[0..n)`, read off its suffix
/// array `sa`; returns the primary index.
pub fn bwt_from_suffix_array(t: &[u8], sa: &[i32], u: &mut [u8]) -> (pidx: i32)
    requires
        1 <= t@.len() <= 0x7fff_ffff,
        is_suffix_array(t@, sa@),
        old(u)@.len() >= t@.len(),
    ensures
        final(u)@.len() == old(u)@.len(),
        final(u)@.subrange(t@.len() as int, old(u)@.len() as int) == old(u)@.subrange(
            t@.len() as int,
            old(u)@.len() as int,
        ),
        is_bwt_of_sa(t@, sa@, final(u)@.subrange(0, t@.len() as int), pidx as int),
{
    proof {
        lemma_suffix_array_covers(t@, sa@, 0);
        let p = choose|k: int| 0 <= k < sa@.len() && sa@[k] == 0;
        assert forall|k: int| 0 <= k < t@.len() && k != p implies 1 <= #[trigger] sa@[k] <= t@.len() by {
            crate::suffix::lemma_suffix_array_distinct(t@, sa@, k, p);
        }
        assert(single_zero(t@.len() as int, sa@, p));
    }
    bwt_walk(t, sa, u)
}

/// The transform read off a suffix array of `t` is the transform of `t`.
pub proof fn lemma_walk_is_bwt(t: Seq<u8>, sa: Seq<i32>, u: Seq<u8>, pidx: int)
    requires
        is_suffix_array(t, sa),
        walk_bwt(t, sa, u, pidx),
    ensures
        is_bwt(t, u, pidx),
{
    assert(is_bwt_of_sa(t, sa, u, pidx));
}

/// The entries `a[0..size)` are in nondecreasing order.
pub open spec fn sorted_prefix(a: Seq<i32>, size: int) -> bool {
    forall|i: int, j: int| 0 <= i <= j < size ==> a[i] <= a[j]
}

/// Lower bound: the number of entries of the sorted `a[0..size)` below `value`.
pub fn binarysearch_lower(a: &[i32], size: i32, value: i32) -> (r: i32)
    requires
        0 <= size <= a@.len(),
    ensures
        0 <= r <= size,
        sorted_prefix(a@, size as int) ==> (forall|k: int| 0 <= k < r ==> a@[k] < value) && (forall|k: int|
            r <= k < size ==> a@[k] >= value),
{
    let ghost size0 = size;
    let mut size = size;
    let mut i = 0i32;
    let mut half = size >> 1;
    proof {
        crate::constants::lemma_halving(size);
    }
    while 0 < size
        invariant
            0 <= i,
            0 <= size,
            i + size <= size0,
            size0 <= a@.len(),
            half == size / 2,
            sorted_prefix(a@, size0 as int) ==> forall|k: int| 0 <= k < i ==> a@[k] < value,
            sorted_prefix(a@, size0 as int) ==> forall|k: int| i + size <= k < size0 ==> a@[k] >= value,
        decreases size,
    {
        proof {
            crate::constants::lemma_halving(size);
        }
        if a[(i + half) as usize] < value {
            i += half + 1;
            half -= (size & 1) ^ 1;
        }
        size = half;
        proof {
            crate::constants::lemma_halving(size);
        }
        half >>= 1;
    }
    i
}

/// Finds the single 0 among `a[0..n)`, when `a` holds one and every other entry
/// there is a position `1..=n`.
fn find_single_zero(a: &[i32], n: usize) -> (r: Option<usize>)
    requires
        a@.len() >= n,
        n <= 0x7fff_ffff,
    ensures
        r matches Some(p) ==> single_zero(n as int, a@, p as int),
        r is None ==> !exists|p: int| single_zero(n as int, a@, p),
{
    let mut found: Option<usize> = None;
    let mut k: usize = 0;
    while k < n
        invariant
            k <= n,
            a@.len() >= n,
            n <= 0x7fff_ffff,
            found matches Some(p) ==> p < k && a@[p as int] == 0,
            forall|q: int| 0 <= q < k && (found matches Some(p) ==> q != p) ==> 1 <= #[trigger] a@[q] <= n,
            found is None ==> forall|q: int| 0 <= q < k ==> #[trigger] a@[q] != 0,
        decreases n - k,
    {
        let v = a[k];
        if v == 0 {
            if found.is_some() {
                proof {
                    let p0 = found->0;
                    assert forall|p: int| !single_zero(n as int, a@, p) by {
                        if single_zero(n as int, a@, p) {
                            if p == k {
                                assert(a@[p0 as int] == 0);
                            } else {
                                assert(a@[k as int] == 0);
                            }
                        }
                    }
                }
                return None;
            }
            found = Some(k);
        } else if v < 0 || v as usize > n {
            proof {
                assert forall|p: int| !single_zero(n as int, a@, p) by {
                    if single_zero(n as int, a@, p) {
                        assert(p != k);
                    }
                }
            }
            return None;
        }
        k += 1;
    }
    proof {
        if found is None {
            assert forall|p: int| !single_zero(n as int, a@, p) by {
                if single_zero(n as int, a@, p) {
                    assert(a@[p] == 0);
                }
            }
        }
    }
    found
}

/// The arrays that `bw_transform` walks: a single 0 before `n`, and positions
/// `1..=n` elsewhere there.
proof fn lemma_single_zero_iff(n: int, a: Seq<i32>)
    ensures
        (exists|p: int| single_zero(n, a, p)) <==> (a.len() >= n && exists|p: int|
            0 <= p < n && a[p] == 0 && forall|k: int| 0 <= k < n && k != p ==> 1 <= #[trigger] a[k] <= n),
{
    if exists|p: int| single_zero(n, a, p) {
        let p = choose|p: int| single_zero(n, a, p);
        assert(0 <= p < n && a[p] == 0 && forall|k: int| 0 <= k < n && k != p ==> 1 <= #[trigger] a[k] <= n);
    }
    if a.len() >= n && exists|p: int|
        0 <= p < n && a[p] == 0 && forall|k: int| 0 <= k < n && k != p ==> 1 <= #[trigger] a[k] <= n {
        let p = choose|p: int|
            0 <= p < n && a[p] == 0 && forall|k: int| 0 <= k < n && k != p ==> 1 <= #[trigger] a[k] <= n;
        assert(single_zero(n, a, p));
    }
}

/// Whether `bw_transform` accepts its arguments: `u` holds `n` bytes and, for
/// `n >= 2`, a given array has a single 0 before `n` and positions `1..=n`
/// elsewhere there.
pub open spec fn bw_args_ok(n: int, u_len: int, sa: Option<&mut [i32]>) -> bool {
    &&& u_len >= n
    &&& n >= 2 ==> match sa {
        Some(a) => exists|p: int| single_zero(n, a@, p),
        None => true,
    }
}

/// Without an array, `bw_transform` needs only room for the text in `u`; with one,
/// also an array that has a single 0 before `n` and positions `1..=n` elsewhere.
pub proof fn lemma_bw_args(n: int, u_len: int, sa: Option<&mut [i32]>)
    ensures
        sa is None ==> (bw_args_ok(n, u_len, sa) <==> u_len >= n),
        n < 2 ==> (bw_args_ok(n, u_len, sa) <==> u_len >= n),
        n >= 2 ==> (sa matches Some(a) ==> (bw_args_ok(n, u_len, sa) <==> (u_len >= n && a@.len() >= n
            && exists|p: int|
            0 <= p < n && a@[p] == 0 && forall|k: int| 0 <= k < n && k != p ==> 1 <= #[trigger] a@[k] <= n))),
{
    match sa {
        Some(a) => lemma_single_zero_iff(n, a@),
        None => {},
    }
}

/// Writes the Burrows-Wheeler transform of `t` into `u[0..n)` and its primary index
/// into `idx`: read off `sa` when given, computed by `divbwt` otherwise. Fails with
/// `InvalidArgument`, changing nothing, when the arguments do not fit together.
pub fn bw_transform(t: &[u8], u: &mut [u8], sa: Option<&mut [i32]>, idx: &mut i32) -> (r: Result<(), DivSufSortError>)
    requires
        t@.len() <= 0x7fff_ffff,
    ensures
        match sa {
            Some(a) => final(a)@ == a@,
            None => true,
        },
        final(u)@.len() == old(u)@.len(),
        r is Ok <==> bw_args_ok(t@.len() as int, old(u)@.len() as int, sa),
        t@.len() < 2 || sa is None ==> (r is Ok <==> old(u)@.len() >= t@.len()),
        t@.len() >= 2 ==> (sa matches Some(a) ==> (r is Ok <==> (old(u)@.len() >= t@.len() && a@.len()
            >= t@.len() && exists|p: int|
            0 <= p < t@.len() && a@[p] == 0 && forall|k: int|
                0 <= k < t@.len() && k != p ==> 1 <= #[trigger] a@[k] <= t@.len()))),
        t@.len() >= 2 && old(u)@.len() >= t@.len() ==> (sa matches Some(a) ==> (is_suffix_array(t@, a@) ==> (r is Ok
            && is_bwt(t@, final(u)@.subrange(0, t@.len() as int), *final(idx) as int)))),
        sa is None && t@.len() >= 2 && old(u)@.len() >= t@.len() ==> r is Ok && is_bwt(
            t@,
            final(u)@.subrange(0, t@.len() as int),
            *final(idx) as int,
        ),
        r is Err ==> r == Err::<(), DivSufSortError>(DivSufSortError::InvalidArgument) && final(u)@ == old(u)@
            && *final(idx) == *old(idx),
        r is Ok ==> final(u)@.subrange(t@.len() as int, old(u)@.len() as int) == old(u)@.subrange(
            t@.len() as int,
            old(u)@.len() as int,
        ),
        r is Ok && t@.len() == 0 ==> *final(idx) == 0,
        r is Ok && t@.len() == 1 ==> final(u)@[0] == t@[0] && *final(idx) == 1,
        r is Ok && t@.len() >= 2 ==> match sa {
            Some(a) => walk_bwt(t@, a@, final(u)@.subrange(0, t@.len() as int), *final(idx) as int),
            None => is_bwt(t@, final(u)@.subrange(0, t@.len() as int), *final(idx) as int),
        },
{
    let n = t.len();
    let ghost u0 = u@;
    if u.len() < n {
        return Err(DivSufSortError::InvalidArgument);
    }
    if n == 0 {
        *idx = 0;
        proof {
            assert(u@.subrange(0, 0) =~= u0.subrange(0, 0));
        }
        return Ok(());
    }
    if n == 1 {
        u[0] = t[0];
        *idx = 1;
        proof {
            assert(u@.subrange(1, u0.len() as int) =~= u0.subrange(1, u0.len() as int));
        }
        return Ok(());
    }
    match sa {
        None => {
            let r = divbwt(t, u, None);
            match r {
                Ok(p) => {
                    *idx = p;
                },
                Err(_) => {},
            }
            Ok(())
        },
        Some(a) => {
            proof {
                lemma_single_zero_iff(n as int, a@);
                if is_suffix_array(t@, a@) {
                    lemma_suffix_array_covers(t@, a@, 0);
                    let p = choose|k: int| 0 <= k < a@.len() && a@[k] == 0;
                    assert forall|k: int| 0 <= k < t@.len() && k != p implies 1 <= #[trigger] a@[k] <= t@.len() by {
                        crate::suffix::lemma_suffix_array_distinct(t@, a@, k, p);
                    }
                    assert(single_zero(t@.len() as int, a@, p));
                }
            }
            if a.len() < n {
                return Err(DivSufSortError::InvalidArgument);
            }
            match find_single_zero(a, n) {
                Some(_) => {
                    let ghost a0 = a@;
                    *idx = bwt_walk(t, a, u);
                    proof {
                        if is_suffix_array(t@, a0) {
                            lemma_walk_is_bwt(t@, a0, u@.subrange(0, t@.len() as int), *idx as int);
                        }
                    }
                    Ok(())
                },
                None => Err(DivSufSortError::InvalidArgument),
            }
        },
    }
}

/// The primary index `idx` does not fit a transform of length `n`.
pub open spec fn bad_primary_index(n: int, idx: int) -> bool {
    idx < 0 || idx > n || (n > 0 && idx == 0)
}

/// Inverts the Burrows-Wheeler transform `t` with primary index `idx` into
/// `u[0..n)`. The optional array `a` is scratch space of at least `t.len()` entries.
///
/// Fails with `InvalidArgument`, writing nothing, when `idx` does not fit or the
/// scratch space is too short. Otherwise, when `t` and `idx` are the transform of
/// some text, that text is what `u` receives (as much of it as `u` holds).
pub fn inverse_bw_transform(t: &[u8], u: &mut [u8], a: Option<&mut [i32]>, idx: i32) -> (r: Result<(), DivSufSortError>)
    requires
        t@.len() <= 0x7fff_ffff,
        t@.len() == 1 && !bad_primary_index(1, idx as int) && !scratch_too_short(a, 1) ==> old(u)@.len() >= 1,
    ensures
        final(u)@.len() == old(u)@.len(),
        r is Err <==> bad_primary_index(t@.len() as int, idx as int) || scratch_too_short(a, t@.len() as int),
        r is Err <==> (idx < 0 || idx > t@.len() || (t@.len() > 0 && idx == 0) || (a matches Some(b) && b@.len()
            < t@.len())),
        r is Err ==> r == Err::<(), DivSufSortError>(DivSufSortError::InvalidArgument) && final(u)@ == old(u)@
            && match a {
            Some(b) => final(b)@ == b@,
            None => true,
        },
        r is Ok && t@.len() == 1 ==> final(u)@[0] == t@[0],
        r is Ok ==> forall|s: Seq<u8>|
            #[trigger] is_bwt(s, t@, idx as int) ==> forall|k: int|
                0 <= k < t@.len() && k < old(u)@.len() ==> final(u)@[k] == s[k],
        forall|k: int| t@.len() <= k < old(u)@.len() ==> final(u)@[k] == old(u)@[k],
{
    let n = t.len();
    if idx < 0 || idx as usize > n || (n > 0 && idx == 0) {
        return Err(DivSufSortError::InvalidArgument);
    }
    match &a {
        Some(b) => {
            if b.len() < n {
                return Err(DivSufSortError::InvalidArgument);
            }
        },
        None => {},
    }
    if n <= 1 {
        if n == 1 {
            u[0] = t[0];
            proof {
                assert forall|s: Seq<u8>| #[trigger] is_bwt(s, t@, idx as int) implies s[0] == t@[0] by {
                    let sa = choose|sa: Seq<i32>| is_suffix_array(s, sa) && is_bwt_of_sa(s, sa, t@, idx as int);
                    assert(t@[0] == bwt_char(s, sa, idx as int, 0));
                }
            }
        }
        return Ok(());
    }
    match a {
        Some(ref_a) => {
            inverse_walk(t, u, ref_a, idx);
        },
        None => {
            let mut b_buf = vec![0i32; n];
            inverse_walk(t, u, b_buf.as_mut_slice(), idx);
        },
    }
    Ok(())
}

/// The block found by the search: `cd[q]` is where the block of `d[q]` ends, and
/// `r` counts the blocks that end before `p`; then `d[r]` is the byte whose block
/// holds place `p - 1`.
proof fn lemma_pick_block(u: Seq<u8>, d: Seq<u8>, cd: Seq<i32>, p: int, r: int, c: int)
    requires
        forall|a: int, b: int| 0 <= a < b < d.len() ==> d[a] < d[b],
        cd.len() == d.len(),
        forall|q: int| 0 <= q < d.len() ==> #[trigger] cd[q] == count_in(u, 0, d[q] + 1),
        exists|q: int| 0 <= q < d.len() && d[q] == c,
        count_in(u, 0, c) <= p - 1 < count_in(u, 0, c + 1),
        0 <= r <= d.len(),
        forall|q: int| 0 <= q < r ==> cd[q] < p,
        forall|q: int| r <= q < d.len() ==> cd[q] >= p,
    ensures
        r < d.len(),
        d[r] == c,
{
    let m = choose|q: int| 0 <= q < d.len() && d[q] == c;
    if m < r {
        assert(cd[m] < p);
        assert(cd[m] == count_in(u, 0, c + 1));
    } else if m > r {
        assert(cd[r] >= p);
        assert(d[r] < d[m]);
        lemma_count_mono(u, 0, d[r] + 1, c);
    }
}

/// The inversion proper: a counting sort of the transform `t` gives the
/// last-to-first mapping, stored in `b` (place `lf(t, j)` holds the row of entry
/// `j`); following it from the row `idx` of the whole text reads the text off
/// the blocks of equal bytes, one byte per step.
fn inverse_walk(t: &[u8], u: &mut [u8], b: &mut [i32], idx: i32)
    requires
        2 <= t@.len() <= 0x7fff_ffff,
        old(b)@.len() >= t@.len(),
        1 <= idx <= t@.len(),
    ensures
        final(u)@.len() == old(u)@.len(),
        forall|k: int| t@.len() <= k < old(u)@.len() ==> final(u)@[k] == old(u)@[k],
        forall|s: Seq<u8>|
            #[trigger] is_bwt(s, t@, idx as int) ==> forall|k: int|
                0 <= k < t@.len() && k < old(u)@.len() ==> final(u)@[k] == s[k],
{
    let n = t.len();
    let ghost u0 = u@;
    let ghost nb = b@.len();
    let ghost tt = t@;
    // occurrences of each byte
    let mut c_table = vec![0i32; 256];
    proof {
        assert(tt.take(0) =~= Seq::<u8>::empty());
    }
    let mut i: usize = 0;
    while i < n
        invariant
            i <= n,
            n == tt.len(),
            n <= 0x7fff_ffff,
            tt == t@,
            c_table@.len() == 256,
            forall|c: int| 0 <= c < 256 ==> #[trigger] c_table@[c] == count_in(tt.take(i as int), c, c + 1),
        decreases n - i,
    {
        let c = t[i] as usize;
        proof {
            assert forall|c2: int| 0 <= c2 < 256 implies #[trigger] count_in(tt.take(i + 1), c2, c2 + 1) == count_in(
                tt.take(i as int),
                c2,
                c2 + 1,
            ) + if c2 <= tt[i as int] < c2 + 1 {
                1nat
            } else {
                0nat
            } by {
                lemma_count_take_step(tt, i as int, c2, c2 + 1);
            }
            lemma_count_bound(tt.take(i as int), c as int, c + 1);
        }
        c_table.set(c, c_table[c] + 1);
        i += 1;
    }
    proof {
        assert(tt.take(n as int) =~= tt);
    }
    proof {
        lemma_count_split(tt, 0, 0, 0);
    }
    // block starts, and the bytes that occur, in increasing order
    let mut d_buf: Vec<u8> = Vec::new();
    let mut acc = 0i32;
    let mut c: usize = 0;
    while c < 256
        invariant
            c <= 256,
            n == tt.len(),
            n <= 0x7fff_ffff,
            c_table@.len() == 256,
            acc == count_in(tt, 0, c as int),
            forall|c2: int| c <= c2 < 256 ==> #[trigger] c_table@[c2] == count_in(tt, c2, c2 + 1),
            forall|c2: int|
                0 <= c2 < c && count_in(tt, c2, c2 + 1) > 0 ==> #[trigger] c_table@[c2] == count_in(
                    tt,
                    0,
                    c2,
                ),
            d_buf@.len() <= c,
            forall|a: int, b: int| 0 <= a < b < d_buf@.len() ==> d_buf@[a] < d_buf@[b],
            forall|q: int|
                0 <= q < d_buf@.len() ==> #[trigger] d_buf@[q] < c && count_in(
                    tt,
                    d_buf@[q] as int,
                    d_buf@[q] + 1,
                ) > 0,
            forall|c2: int|
                0 <= c2 < c && #[trigger] count_in(tt, c2, c2 + 1) > 0 ==> exists|q: int|
                    0 <= q < d_buf@.len() && #[trigger] d_buf@[q] == c2,
        decreases 256 - c,
    {
        let cnt = c_table[c];
        proof {
            lemma_count_split(tt, 0, c as int, c + 1);
            lemma_count_bound(tt, 0, c + 1);
        }
        if cnt > 0 {
            c_table.set(c, acc);
            let ghost d_old = d_buf@;
            d_buf.push(c as u8);
            proof {
                assert(d_buf@[d_old.len() as int] == c);
                assert forall|c2: int|
                    0 <= c2 < c + 1 && #[trigger] count_in(tt, c2, c2 + 1) > 0 implies exists|q: int|
                    0 <= q < d_buf@.len() && #[trigger] d_buf@[q] == c2 by {
                    if c2 < c {
                        let q = choose|q: int| 0 <= q < d_old.len() && d_old[q] == c2;
                        assert(d_buf@[q] == c2);
                    } else {
                        assert(d_buf@[d_old.len() as int] == c2);
                    }
                }
            }
            acc = acc + cnt;
        }
        c += 1;
    }
    // the counting sort: place lf(t, j) receives the row of entry j
    let idx_usize = idx as usize;
    let mut i: usize = 0;
    while i < n
        invariant
            i <= n,
            1 <= idx_usize <= n,
            idx_usize == idx,
            n == tt.len(),
            n <= 0x7fff_ffff,
            tt == t@,
            c_table@.len() == 256,
            b@.len() == nb,
            nb >= n,
            forall|c2: int|
                0 <= c2 < 256 && count_in(tt, c2, c2 + 1) > 0 ==> #[trigger] c_table@[c2] == count_in(
                    tt,
                    0,
                    c2,
                ) + count_in(tt.take(i as int), c2, c2 + 1),
            forall|j: int| 0 <= j < i ==> #[trigger] b@[lf(tt, j)] == frow(idx as int, j),
        decreases n - i,
    {
        let c = t[i] as usize;
        let v: i32 = if i < idx_usize {
            i as i32
        } else {
            (i + 1) as i32
        };
        proof {
            lemma_lf_range(tt, i as int);
            lemma_count_split(tt, 0, c as int, c + 1);
            lemma_count_bound(tt, 0, c + 1);
            assert(c_table@[c as int] == lf(tt, i as int));
        }
        let target = c_table[c] as usize;
        let ghost b_old = b@;
        b[target] = v;
        proof {
            assert forall|j: int| 0 <= j < i + 1 implies #[trigger] b@[lf(tt, j)] == frow(idx as int, j) by {
                if j < i {
                    lemma_lf_injective(tt, j, i as int);
                    lemma_lf_range(tt, j);
                    lemma_count_bound(tt, 0, tt[j] + 1);
                    assert(b@[lf(tt, j)] == b_old[lf(tt, j)]);
                }
            }
            assert forall|c2: int|
                0 <= c2 < 256 && count_in(tt, c2, c2 + 1) > 0 implies #[trigger] count_in(
                tt.take(i + 1),
                c2,
                c2 + 1,
            ) == count_in(tt.take(i as int), c2, c2 + 1) + if c2 == c {
                1nat
            } else {
                0nat
            } by {
                lemma_count_take_step(tt, i as int, c2, c2 + 1);
            }
        }
        c_table.set(c, c_table[c] + 1);
        i += 1;
    }
    // where each block ends
    let d_len = d_buf.len();
    let mut c_d: Vec<i32> = Vec::new();
    let mut ci: usize = 0;
    while ci < d_len
        invariant
            ci <= d_len,
            d_len == d_buf@.len(),
            d_len <= 256,
            n == tt.len(),
            n <= 0x7fff_ffff,
            tt.take(n as int) == tt,
            c_table@.len() == 256,
            c_d@.len() == ci,
            forall|c2: int|
                0 <= c2 < 256 && count_in(tt, c2, c2 + 1) > 0 ==> #[trigger] c_table@[c2] == count_in(
                    tt,
                    0,
                    c2,
                ) + count_in(tt.take(n as int), c2, c2 + 1),
            forall|q: int|
                0 <= q < d_buf@.len() ==> #[trigger] d_buf@[q] < 256 && count_in(
                    tt,
                    d_buf@[q] as int,
                    d_buf@[q] + 1,
                ) > 0,
            forall|q: int| 0 <= q < ci ==> #[trigger] c_d@[q] == count_in(tt, 0, d_buf@[q] + 1),
        decreases d_len - ci,
    {
        proof {
            lemma_count_split(tt, 0, d_buf@[ci as int] as int, d_buf@[ci as int] + 1);
        }
        c_d.push(c_table[d_buf[ci] as usize]);
        ci += 1;
    }
    proof {
        assert forall|a: int, b2: int| 0 <= a <= b2 < d_len implies c_d@[a] <= c_d@[b2] by {
            lemma_count_mono(tt, 0, d_buf@[a] + 1, d_buf@[b2] + 1);
        }
        assert(sorted_prefix(c_d@, d_len as int));
    }
    // the walk
    let ghost valid = exists|s: Seq<u8>| is_bwt(s, tt, idx as int);
    let ghost s = choose|s: Seq<u8>| is_bwt(s, tt, idx as int);
    let ghost sa = choose|sa: Seq<i32>| is_suffix_array(s, sa) && is_bwt_of_sa(s, sa, tt, idx as int);
    let mut p = idx;
    let mut k: usize = 0;
    while k < n && k < u.len()
        invariant
            n == tt.len(),
            n <= 0x7fff_ffff,
            tt == t@,
            u@.len() == u0.len(),
            forall|q: int| n <= q < u0.len() ==> u@[q] == u0[q],
            c_d@.len() == d_len,
            d_buf@.len() == d_len,
            d_len <= 256,
            b@.len() == nb,
            nb >= n,
            sorted_prefix(c_d@, d_len as int),
            forall|a: int, b2: int| 0 <= a < b2 < d_buf@.len() ==> d_buf@[a] < d_buf@[b2],
            forall|q: int| 0 <= q < d_len ==> #[trigger] c_d@[q] == count_in(tt, 0, d_buf@[q] + 1),
            forall|c2: int|
                0 <= c2 < 256 && #[trigger] count_in(tt, c2, c2 + 1) > 0 ==> exists|q: int|
                    0 <= q < d_buf@.len() && #[trigger] d_buf@[q] == c2,
            forall|j: int| 0 <= j < n ==> #[trigger] b@[lf(tt, j)] == frow(idx as int, j),
            valid ==> is_suffix_array(s, sa) && is_bwt_of_sa(s, sa, tt, idx as int),
            valid ==> k <= n,
            valid && k < n ==> 1 <= p <= n && sa[p - 1] == k,
            valid ==> forall|q: int| 0 <= q < k ==> u@[q] == s[q],
        decreases n - k,
    {
        let ghost m = p - 1;
        let ghost j: int = 0;
        proof {
            if valid {
                j = lemma_walk_next(s, sa, tt, idx as int, m);
                let c = s[k as int];
                lemma_count_split(tt, 0, c as int, c + 1);
            }
        }
        let pos = binarysearch_lower(c_d.as_slice(), d_len as i32, p);
        proof {
            if valid {
                lemma_pick_block(tt, d_buf@, c_d@, p as int, pos as int, s[k as int] as int);
            }
        }
        u[k] = if (pos as usize) < d_len {
            d_buf[pos as usize]
        } else {
            0
        };
        p = crate::arr::get(b, crate::arr::offset(0, p.wrapping_sub(1)));
        proof {
            if valid {
                assert(lf(tt, j) == m);
                assert(p == frow(idx as int, j));
            }
        }
        k += 1;
    }
    proof {
        assert forall|s2: Seq<u8>| #[trigger] is_bwt(s2, t@, idx as int) implies forall|q: int|
            0 <= q < t@.len() && q < u0.len() ==> u@[q] == s2[q] by {
            crate::lfmap::lemma_bwt_invertible(s, s2, tt, idx as int);
        }
    }
}

/// Compares the suffix of `t` at `suf` with the pattern `p`, both from offset
/// `*match_len` on, whose first `*match_len` bytes are known to agree. Leaves in
/// `*match_len` the length of the common prefix found; returns 0 when the pattern
/// is a prefix of the suffix, a negative value when the suffix is smaller.
fn compare(t: &[u8], p: &[u8], suf: i32, match_len: &mut i32) -> (r: i32)
    requires
        t@.len() <= 0x7fff_ffff,
        p@.len() <= 0x7fff_ffff,
        0 <= suf,
        0 <= *old(match_len) <= p@.len(),
    ensures
        *old(match_len) <= *final(match_len) <= p@.len(),
        r == 0 ==> *final(match_len) == p@.len(),
        suf <= t@.len() && agrees(suffix(t@, suf as int), p@, *old(match_len) as int) ==> {
            &&& agrees(suffix(t@, suf as int), p@, *final(match_len) as int)
            &&& (r < 0 <==> lex_lt(suffix(t@, suf as int), p@))
            &&& (r == 0 <==> has_prefix(suffix(t@, suf as int), p@))
        },
{
    let ghost ok = suf <= t@.len() && agrees(suffix(t@, suf as int), p@, *old(match_len) as int);
    let ghost a = suffix(t@, suf as int);
    let tsize = t.len() as i64;
    let psize = p.len() as i32;
    let mut i: i64 = suf as i64 + *match_len as i64;
    let mut j = *match_len;
    let mut r = 0i32;
    while i < tsize && j < psize
        invariant_except_break
            r == 0,
        invariant
            i - j == suf,
            0 <= suf,
            0 <= j,
            *old(match_len) <= j <= psize,
            psize == p@.len(),
            tsize == t@.len(),
            a == suffix(t@, suf as int),
            ok ==> suf <= tsize && i <= tsize && agrees(a, p@, j as int),
        ensures
            r == 0 ==> !(i < tsize && j < psize),
            ok ==> suf <= tsize && i <= tsize && agrees(a, p@, j as int),
            r != 0 ==> i < tsize && j < psize && r == t@[i as int] - p@[j as int],
        decreases psize - j,
    {
        let d = t[i as usize] as i32 - p[j as usize] as i32;
        if d != 0 {
            r = d;
            break;
        }
        proof {
            if ok {
                assert(a[j as int] == t@[i as int]);
                assert forall|q: int| 0 <= q < j + 1 implies #[trigger] a[q] == p@[q] by {
                    if q == j {
                        assert(a[j as int] == p@[j as int]);
                    }
                }
            }
        }
        i += 1;
        j += 1;
    }
    proof {
        if ok {
            lemma_lex_first_diff(a, p@, j as int);
            if r != 0 {
                assert(a[j as int] == t@[i as int]);
            }
        }
    }
    *match_len = j;
    if r == 0 {
        -(if j != psize {
            1i32
        } else {
            0i32
        })
    } else {
        r
    }
}

/// No entry of `sa` is negative.
pub open spec fn searchable(sa: Seq<i32>) -> bool {
    forall|k: int| 0 <= k < sa.len() ==> 0 <= #[trigger] sa[k]
}

/// A suffix starts with `p` exactly when the text holds `p` from there on.
pub proof fn lemma_prefix_at(t: Seq<u8>, s: int, p: Seq<u8>)
    requires
        0 <= s <= t.len(),
    ensures
        has_prefix(suffix(t, s), p) <==> (s + p.len() <= t.len() && t.subrange(s, s + p.len()) == p),
{
    if s + p.len() <= t.len() {
        if t.subrange(s, s + p.len()) == p {
            assert forall|q: int| 0 <= q < p.len() implies #[trigger] suffix(t, s)[q] == p[q] by {
                assert(t.subrange(s, s + p.len())[q] == t[s + q]);
            }
        }
        if has_prefix(suffix(t, s), p) {
            assert(t.subrange(s, s + p.len()) =~= p);
        }
    }
}

/// The prefix test of `sa_search`, read on the text itself.
proof fn lemma_prefix_all(t: Seq<u8>, sa: Seq<i32>, p: Seq<u8>)
    requires
        is_suffix_array(t, sa),
    ensures
        forall|q: int|
            0 <= q < sa.len() ==> (has_prefix(suf_at(t, sa, q), p) <==> (sa[q] + p.len() <= t.len()
                && t.subrange(#[trigger] sa[q] as int, sa[q] + p.len()) == p)),
{
    assert forall|q: int| 0 <= q < sa.len() implies (has_prefix(suf_at(t, sa, q), p) <==> (sa[q] + p.len()
        <= t.len() && t.subrange(#[trigger] sa[q] as int, sa[q] + p.len()) == p)) by {
        lemma_prefix_at(t, sa[q] as int, p);
    }
}

/// Searches the pattern `p` in `t` through the suffix array `sa`. Returns the
/// number of occurrences and the first position in `sa` of a suffix that starts
/// with `p` (`-1` for an empty text or array).
///
/// On a suffix array of `t`, the suffixes that start with `p` are exactly those
/// listed at the positions `r.1 .. r.1 + r.0`.
pub fn sa_search(t: &[u8], p: &[u8], sa: &[i32]) -> (r: (i32, i32))
    requires
        t@.len() <= 0x7fff_ffff,
        p@.len() <= 0x7fff_ffff,
        sa@.len() <= 0x7fff_ffff,
        searchable(sa@),
    ensures
        sa@.len() == 0 || t@.len() == 0 ==> r == (0i32, -1i32),
        sa@.len() > 0 && t@.len() > 0 && p@.len() == 0 ==> r == (sa@.len() as i32, 0i32),
        sa@.len() > 0 && t@.len() > 0 ==> 0 <= r.0 && 0 <= r.1 && r.1 + r.0 <= sa@.len(),
        is_suffix_array(t@, sa@) ==> forall|q: int|
            0 <= q < sa@.len() ==> ((r.1 <= q < r.1 + r.0) <==> has_prefix(
                #[trigger] suf_at(t@, sa@, q),
                p@,
            )),
        is_suffix_array(t@, sa@) ==> forall|q: int|
            0 <= q < sa@.len() ==> ((r.1 <= q < r.1 + r.0) <==> (sa@[q] + p@.len() <= t@.len() && t@.subrange(
                #[trigger] sa@[q] as int,
                sa@[q] + p@.len(),
            ) == p@)),
{
    let tsize = t.len() as i32;
    let psize = p.len() as i32;
    let sasize = sa.len() as i32;
    if sasize == 0 || tsize == 0 {
        proof {
            if is_suffix_array(t@, sa@) {
                lemma_prefix_all(t@, sa@, p@);
            }
        }
        return (0, -1);
    }
    if psize == 0 {
        proof {
            if is_suffix_array(t@, sa@) {
                lemma_prefix_all(t@, sa@, p@);
            }
        }
        return (sasize, 0);
    }
    let ghost valid = is_suffix_array(t@, sa@);
    let mut i = 0i32;
    let mut j = 0i32;
    let mut k = 0i32;
    let mut lmatch = 0i32;
    let mut rmatch = 0i32;
    let mut size = sasize;
    let mut half = size >> 1;
    proof {
        crate::constants::lemma_halving(size);
    }
    while 0 < size
        invariant_except_break
            j == 0 && k == 0,
        invariant
            0 <= i,
            0 <= size,
            i + size <= sasize,
            half == size / 2,
            sasize == sa@.len(),
            psize == p@.len(),
            tsize == t@.len(),
            0 < psize <= 0x7fff_ffff,
            0 <= lmatch <= psize,
            0 <= rmatch <= psize,
            searchable(sa@),
            t@.len() <= 0x7fff_ffff,
            valid == is_suffix_array(t@, sa@),
            valid ==> forall|q: int| 0 <= q < i ==> lex_lt(#[trigger] suf_at(t@, sa@, q), p@),
            valid ==> forall|q: int| i + size <= q < sasize ==> above(#[trigger] suf_at(t@, sa@, q), p@),
            valid && i > 0 ==> agrees(suf_at(t@, sa@, i - 1), p@, lmatch as int),
            i == 0 ==> lmatch == 0,
            valid && i + size < sasize ==> agrees(suf_at(t@, sa@, i + size), p@, rmatch as int),
            i + size == sasize ==> rmatch == 0,
            valid && size == 0 ==> forall|q: int|
                0 <= q < sasize ==> !has_prefix(#[trigger] suf_at(t@, sa@, q), p@),
        ensures
            0 <= i <= sasize,
            0 <= j <= k <= sasize,
            valid ==> forall|q: int|
                0 <= q < sasize ==> ((j <= q < k) <==> has_prefix(#[trigger] suf_at(t@, sa@, q), p@)),
        decreases size,
    {
        proof {
            crate::constants::lemma_halving(size);
        }
        let mut match_len = if lmatch < rmatch {
            lmatch
        } else {
            rmatch
        };
        let ghost x = i + half;
        proof {
            if valid {
                lemma_search_window(t@, sa@, p@, i as int, x, i + size, lmatch as int, rmatch as int);
            }
        }
        let r = compare(t, p, sa[(i + half) as usize], &mut match_len);
        if r < 0 {
            proof {
                if valid {
                    assert forall|q: int| 0 <= q < x + 1 implies lex_lt(#[trigger] suf_at(t@, sa@, q), p@) by {
                        if i <= q < x {
                            lemma_below_mono(suf_at(t@, sa@, q), suf_at(t@, sa@, x), p@);
                        }
                    }
                }
            }
            i += half + 1;
            half -= (size & 1) ^ 1;
            lmatch = match_len;
        } else if r > 0 {
            proof {
                if valid {
                    assert forall|q: int| x <= q < sasize implies above(#[trigger] suf_at(t@, sa@, q), p@) by {
                        if x < q < i + size {
                            lemma_above_mono(suf_at(t@, sa@, x), suf_at(t@, sa@, q), p@);
                        }
                    }
                }
            }
            rmatch = match_len;
        } else {
            let lsize = half;
            j = i;
            let rsize = size - half - 1;
            k = i + half + 1;
            let mut llmatch = lmatch;
            let mut lrmatch = match_len;
            let mut lsize2 = lsize;
            let mut lhalf = lsize2 >> 1;
            proof {
                crate::constants::lemma_halving(lsize2);
            }
            while 0 < lsize2
                invariant
                    0 <= i <= j,
                    0 <= lsize2,
                    j + lsize2 <= i + half,
                    x == i + half,
                    lhalf == lsize2 / 2,
                    i + half < sasize,
                    sasize == sa@.len(),
                    psize == p@.len(),
                    tsize == t@.len(),
                    0 < psize <= 0x7fff_ffff,
                    0 <= llmatch <= psize,
                    0 <= lrmatch <= psize,
                    searchable(sa@),
                    t@.len() <= 0x7fff_ffff,
                    valid == is_suffix_array(t@, sa@),
                    valid ==> forall|q: int| 0 <= q < j ==> lex_lt(#[trigger] suf_at(t@, sa@, q), p@),
                    valid ==> forall|q: int|
                        j + lsize2 <= q <= x ==> !lex_lt(#[trigger] suf_at(t@, sa@, q), p@),
                    valid && j > 0 ==> agrees(suf_at(t@, sa@, j - 1), p@, llmatch as int),
                    j == 0 ==> llmatch == 0,
                    valid ==> agrees(suf_at(t@, sa@, j + lsize2), p@, lrmatch as int),
                decreases lsize2,
            {
                proof {
                    crate::constants::lemma_halving(lsize2);
                }
                let mut lm = if llmatch < lrmatch {
                    llmatch
                } else {
                    lrmatch
                };
                let ghost y = j + lhalf;
                proof {
                    if valid {
                        lemma_search_window(t@, sa@, p@, j as int, y, j + lsize2, llmatch as int, lrmatch as int);
                    }
                }
                let lr = compare(t, p, sa[(j + lhalf) as usize], &mut lm);
                if lr < 0 {
                    proof {
                        if valid {
                            assert forall|q: int| 0 <= q < y + 1 implies lex_lt(#[trigger] suf_at(t@, sa@, q), p@) by {
                                if j <= q < y {
                                    lemma_below_mono(suf_at(t@, sa@, q), suf_at(t@, sa@, y), p@);
                                }
                            }
                        }
                    }
                    j += lhalf + 1;
                    lhalf -= (lsize2 & 1) ^ 1;
                    llmatch = lm;
                } else {
                    proof {
                        if valid {
                            assert forall|q: int| y <= q <= x implies !lex_lt(#[trigger] suf_at(t@, sa@, q), p@) by {
                                if y < q < j + lsize2 && lex_lt(suf_at(t@, sa@, q), p@) {
                                    lemma_below_mono(suf_at(t@, sa@, y), suf_at(t@, sa@, q), p@);
                                }
                            }
                        }
                    }
                    lrmatch = lm;
                }
                lsize2 = lhalf;
                proof {
                    crate::constants::lemma_halving(lsize2);
                }
                lhalf >>= 1;
            }
            let mut rlmatch = match_len;
            let mut rrmatch = rmatch;
            let mut rsize2 = rsize;
            let mut rhalf = rsize2 >> 1;
            proof {
                crate::constants::lemma_halving(rsize2);
            }
            while 0 < rsize2
                invariant
                    0 <= i,
                    0 <= half,
                    i + half + 1 <= k,
                    x == i + half,
                    0 <= rsize2,
                    k + rsize2 <= i + size,
                    rhalf == rsize2 / 2,
                    i + size <= sasize,
                    sasize == sa@.len(),
                    psize == p@.len(),
                    tsize == t@.len(),
                    0 < psize <= 0x7fff_ffff,
                    0 <= rlmatch <= psize,
                    0 <= rrmatch <= psize,
                    searchable(sa@),
                    t@.len() <= 0x7fff_ffff,
                    valid == is_suffix_array(t@, sa@),
                    valid ==> forall|q: int| x < q < k ==> !above(#[trigger] suf_at(t@, sa@, q), p@),
                    valid ==> forall|q: int|
                        k + rsize2 <= q < sasize ==> above(#[trigger] suf_at(t@, sa@, q), p@),
                    valid ==> agrees(suf_at(t@, sa@, k - 1), p@, rlmatch as int),
                    valid && k + rsize2 < sasize ==> agrees(suf_at(t@, sa@, k + rsize2), p@, rrmatch as int),
                    k + rsize2 == sasize ==> rrmatch == 0,
                decreases rsize2,
            {
                proof {
                    crate::constants::lemma_halving(rsize2);
                }
                let mut rm = if rlmatch < rrmatch {
                    rlmatch
                } else {
                    rrmatch
                };
                let ghost y = k + rhalf;
                proof {
                    if valid {
                        lemma_search_window(t@, sa@, p@, k as int, y, k + rsize2, rlmatch as int, rrmatch as int);
                    }
                }
                let rr = compare(t, p, sa[(k + rhalf) as usize], &mut rm);
                if rr <= 0 {
                    proof {
                        if valid {
                            assert forall|q: int| x < q < y + 1 implies !above(#[trigger] suf_at(t@, sa@, q), p@) by {
                                if k <= q < y && above(suf_at(t@, sa@, q), p@) {
                                    lemma_above_mono(suf_at(t@, sa@, q), suf_at(t@, sa@, y), p@);
                                }
                            }
                        }
                    }
                    k += rhalf + 1;
                    rhalf -= (rsize2 & 1) ^ 1;
                    rlmatch = rm;
                } else {
                    proof {
                        if valid {
                            assert forall|q: int| y <= q < sasize implies above(#[trigger] suf_at(t@, sa@, q), p@) by {
                                if y < q < k + rsize2 {
                                    lemma_above_mono(suf_at(t@, sa@, y), suf_at(t@, sa@, q), p@);
                                }
                            }
                        }
                    }
                    rrmatch = rm;
                }
                rsize2 = rhalf;
                proof {
                    crate::constants::lemma_halving(rsize2);
                }
                rhalf >>= 1;
            }
            proof {
                if valid {
                    assert forall|q: int| 0 <= q < sasize implies ((j <= q < k) <==> has_prefix(
                        #[trigger] suf_at(t@, sa@, q),
                        p@,
                    )) by {
                        let a = suf_at(t@, sa@, q);
                        let m = suf_at(t@, sa@, x);
                        if q < j {
                            if has_prefix(a, p@) {
                                lemma_prefix_not_below(a, p@);
                            }
                        } else if q < x {
                            if above(a, p@) {
                                lemma_above_mono(a, m, p@);
                            }
                        } else if x < q < k {
                            lemma_after_prefix(m, a, p@);
                        }
                    }
                }
            }
            break;
        }
        size = half;
        proof {
            crate::constants::lemma_halving(size);
            if valid && size == 0 {
                assert forall|q: int| 0 <= q < sasize implies !has_prefix(#[trigger] suf_at(t@, sa@, q), p@) by {
                    if has_prefix(suf_at(t@, sa@, q), p@) {
                        lemma_prefix_not_below(suf_at(t@, sa@, q), p@);
                    }
                }
            }
        }
        half >>= 1;
    }
    let count = k - j;
    let left = if count > 0 {
        j
    } else {
        i
    };
    proof {
        if is_suffix_array(t@, sa@) {
            lemma_prefix_all(t@, sa@, p@);
        }
    }
    (count, left)
}

/// The first byte of the suffix at `s`, or -1 past the end of the text.
pub open spec fn first_key(t: Seq<u8>, s: int) -> int {
    if 0 <= s < t.len() {
        t[s] as int
    } else {
        -1
    }
}

/// The first byte of a suffix inside the text is the text's byte there, whatever
/// its value (0 included).
pub proof fn lemma_first_key_byte(t: Seq<u8>, s: int)
    requires
        0 <= s < t.len(),
    ensures
        first_key(t, s) == t[s] as int,
{
}

/// The suffixes listed in `sa` come in nondecreasing order of their first byte.
pub open spec fn keys_sorted(t: Seq<u8>, sa: Seq<i32>) -> bool {
    forall|a: int, b: int|
        0 <= a <= b < sa.len() ==> first_key(t, #[trigger] sa[a] as int) <= first_key(t, #[trigger] sa[b] as int)
}

/// A suffix array lists its suffixes in nondecreasing order of their first byte,
/// so the byte search is exact on it.
pub proof fn lemma_suffix_array_keys_sorted(t: Seq<u8>, sa: Seq<i32>)
    requires
        is_suffix_array(t, sa),
    ensures
        keys_sorted(t, sa),
{
    assert forall|a: int, b: int| 0 <= a <= b < sa.len() implies first_key(t, #[trigger] sa[a] as int)
        <= first_key(t, #[trigger] sa[b] as int) by {
        if a < b {
            crate::suffix::lemma_suffix_drop_first(t, sa[a] as int);
            crate::suffix::lemma_suffix_drop_first(t, sa[b] as int);
        }
    }
}

/// Searches the byte `c` in `t` through the suffix array `sa`. Returns the number
/// of suffixes that start with `c` and the first position in `sa` of one of them
/// (`-1` for an empty text or array).
pub fn sa_simplesearch(t: &[u8], sa: &[i32], c: u8) -> (r: (i32, i32))
    requires
        t@.len() <= 0x7fff_ffff,
        sa@.len() <= 0x7fff_ffff,
        forall|k: int| 0 <= k < sa@.len() ==> 0 <= #[trigger] sa@[k],
    ensures
        sa@.len() == 0 || t@.len() == 0 ==> r == (0i32, -1i32),
        sa@.len() > 0 && t@.len() > 0 ==> 0 <= r.0 && 0 <= r.1 && r.1 + r.0 <= sa@.len(),
        sa@.len() > 0 && t@.len() > 0 && keys_sorted(t@, sa@) ==> forall|q: int|
            0 <= q < sa@.len() ==> ((r.1 <= q < r.1 + r.0) <==> first_key(t@, #[trigger] sa@[q] as int)
                == c as int),
        is_suffix_array(t@, sa@) && t@.len() > 0 ==> forall|q: int|
            0 <= q < sa@.len() ==> ((r.1 <= q < r.1 + r.0) <==> t@[#[trigger] sa@[q] as int] == c),
{
    let tsize = t.len() as i32;
    let sasize = sa.len() as i32;
    let ghost cc = c as int;
    let ghost srt = keys_sorted(t@, sa@);
    let c = c as i32;
    if sasize == 0 || tsize == 0 {
        return (0, -1);
    }
    let mut i = 0i32;
    let mut j = 0i32;
    let mut k = 0i32;
    let mut size = sasize;
    let mut half = size >> 1;
    proof {
        crate::constants::lemma_halving(size);
    }
    while 0 < size
        invariant_except_break
            0 <= i,
            0 <= size,
            i + size <= sasize,
            half == size / 2,
            j == 0 && k == 0,
            srt ==> forall|q: int| 0 <= q < i ==> first_key(t@, #[trigger] sa@[q] as int) < cc,
            srt ==> forall|q: int| i + size <= q < sasize ==> first_key(t@, #[trigger] sa@[q] as int) > cc,
        invariant
            sasize == sa@.len(),
            tsize == t@.len(),
            0 <= c <= 255,
            c == cc,
            srt == keys_sorted(t@, sa@),
            forall|q: int| 0 <= q < sa@.len() ==> 0 <= #[trigger] sa@[q],
        ensures
            0 <= i <= sasize,
            0 <= j <= k <= sasize,
            j < k ==> (srt ==> forall|q: int| 0 <= q < sasize ==> ((j <= q < k) <==> first_key(t@, #[trigger] sa@[q] as int) == cc)),
            j == k ==> (srt ==> forall|q: int| 0 <= q < sasize ==> first_key(t@, #[trigger] sa@[q] as int) != cc),
        decreases size,
    {
        proof {
            crate::constants::lemma_halving(size);
        }
        let m = i + half;
        let p = sa[m as usize];
        let r = if p < tsize {
            t[p as usize] as i32 - c
        } else {
            -1
        };
        assert(r < 0 <==> first_key(t@, sa@[m as int] as int) < cc);
        assert(r == 0 <==> first_key(t@, sa@[m as int] as int) == cc);
        if r < 0 {
            proof {
                if srt {
                    assert forall|q: int| 0 <= q < i + half + 1 implies first_key(t@, #[trigger] sa@[q] as int) < cc by {
                        if q >= i {
                            assert(first_key(t@, sa@[q] as int) <= first_key(t@, sa@[m as int] as int));
                        }
                    }
                }
            }
            i += half + 1;
            half -= (size & 1) ^ 1;
        } else if r == 0 {
            let lsize = half;
            j = i;
            let rsize = size - half - 1;
            k = i + half + 1;
            let mut lsize2 = lsize;
            let mut lhalf = lsize2 >> 1;
            proof {
                crate::constants::lemma_halving(lsize2);
            }
            while 0 < lsize2
                invariant
                    0 <= i <= j,
                    0 <= lsize2,
                    j + lsize2 <= m,
                    m == i + half,
                    lhalf == lsize2 / 2,
                    m < sasize,
                    sasize == sa@.len(),
                    tsize == t@.len(),
                    0 <= c <= 255,
                    c == cc,
                    srt == keys_sorted(t@, sa@),
                    first_key(t@, sa@[m as int] as int) == cc,
                    forall|q: int| 0 <= q < sa@.len() ==> 0 <= #[trigger] sa@[q],
                    srt ==> forall|q: int| 0 <= q < j ==> first_key(t@, #[trigger] sa@[q] as int) < cc,
                    srt ==> forall|q: int| j + lsize2 <= q <= m ==> first_key(t@, #[trigger] sa@[q] as int) >= cc,
                decreases lsize2,
            {
                proof {
                    crate::constants::lemma_halving(lsize2);
                }
                let lm = j + lhalf;
                let lp = sa[lm as usize];
                let lr = if lp < tsize {
                    t[lp as usize] as i32 - c
                } else {
                    -1
                };
                assert(lr < 0 <==> first_key(t@, sa@[lm as int] as int) < cc);
                if lr < 0 {
                    proof {
                        if srt {
                            assert forall|q: int| 0 <= q < j + lhalf + 1 implies first_key(t@, #[trigger] sa@[q] as int) < cc by {
                                if q >= j {
                                    assert(first_key(t@, sa@[q] as int) <= first_key(t@, sa@[lm as int] as int));
                                }
                            }
                        }
                    }
                    j += lhalf + 1;
                    lhalf -= (lsize2 & 1) ^ 1;
                } else {
                    proof {
                        if srt {
                            assert forall|q: int| lm <= q <= m implies first_key(t@, #[trigger] sa@[q] as int) >= cc by {
                                assert(first_key(t@, sa@[lm as int] as int) <= first_key(t@, sa@[q] as int));
                            }
                        }
                    }
                }
                lsize2 = lhalf;
                proof {
                    crate::constants::lemma_halving(lsize2);
                }
                lhalf >>= 1;
            }
            let mut rsize2 = rsize;
            let mut rhalf = rsize2 >> 1;
            proof {
                crate::constants::lemma_halving(rsize2);
            }
            while 0 < rsize2
                invariant
                    0 <= i,
                    0 <= half,
                    m == i + half,
                    m + 1 <= k,
                    0 <= rsize2,
                    k + rsize2 <= i + size,
                    rhalf == rsize2 / 2,
                    i + size <= sasize,
                    sasize == sa@.len(),
                    tsize == t@.len(),
                    0 <= c <= 255,
                    c == cc,
                    srt == keys_sorted(t@, sa@),
                    first_key(t@, sa@[m as int] as int) == cc,
                    forall|q: int| 0 <= q < sa@.len() ==> 0 <= #[trigger] sa@[q],
                    srt ==> forall|q: int| m < q < k ==> first_key(t@, #[trigger] sa@[q] as int) <= cc,
                    srt ==> forall|q: int| k + rsize2 <= q < sasize ==> first_key(t@, #[trigger] sa@[q] as int) > cc,
                decreases rsize2,
            {
                proof {
                    crate::constants::lemma_halving(rsize2);
                }
                let rm = k + rhalf;
                let rp = sa[rm as usize];
                let rr = if rp < tsize {
                    t[rp as usize] as i32 - c
                } else {
                    -1
                };
                assert(rr <= 0 <==> first_key(t@, sa@[rm as int] as int) <= cc);
                if rr <= 0 {
                    proof {
                        if srt {
                            assert forall|q: int| m < q < k + rhalf + 1 implies first_key(t@, #[trigger] sa@[q] as int) <= cc by {
                                if q >= k {
                                    assert(first_key(t@, sa@[q] as int) <= first_key(t@, sa@[rm as int] as int));
                                }
                            }
                        }
                    }
                    k += rhalf + 1;
                    rhalf -= (rsize2 & 1) ^ 1;
                } else {
                    proof {
                        if srt {
                            assert forall|q: int| rm <= q < sasize implies first_key(t@, #[trigger] sa@[q] as int) > cc by {
                                assert(first_key(t@, sa@[rm as int] as int) <= first_key(t@, sa@[q] as int));
                            }
                        }
                    }
                }
                rsize2 = rhalf;
                proof {
                    crate::constants::lemma_halving(rsize2);
                }
                rhalf >>= 1;
            }
            proof {
                if srt {
                    assert forall|q: int| 0 <= q < sasize implies ((j <= q < k) <==> first_key(t@, #[trigger] sa@[q] as int) == cc) by {
                        if j <= q <= m {
                            assert(first_key(t@, sa@[q] as int) <= first_key(t@, sa@[m as int] as int));
                        }
                        if m < q < k {
                            assert(first_key(t@, sa@[m as int] as int) <= first_key(t@, sa@[q] as int));
                        }
                    }
                }
            }
            break;
        } else {
            proof {
                if srt {
                    assert forall|q: int| m <= q < sasize implies first_key(t@, #[trigger] sa@[q] as int) > cc by {
                        assert(first_key(t@, sa@[m as int] as int) <= first_key(t@, sa@[q] as int));
                    }
                }
            }
        }
        size = half;
        proof {
            crate::constants::lemma_halving(size);
        }
        half >>= 1;
    }
    let count = k - j;
    let left = if count > 0 {
        j
    } else {
        i
    };
    proof {
        if is_suffix_array(t@, sa@) {
            lemma_suffix_array_keys_sorted(t@, sa@);
            assert forall|q: int| 0 <= q < sa@.len() implies first_key(t@, #[trigger] sa@[q] as int) == t@[sa@[q] as int] as int by {}
        }
    }
    (count, left)
}

/// Error returned by `sufcheck` when the suffix array is found to be invalid.
#[derive(Debug, PartialEq, Eq)]
pub struct SufCheckError {
    /// Human-readable description of the first inconsistency found.
    pub message: String,
}

impl SufCheckError {
    /// The report as it is printed: `sufcheck: ` followed by the message.
    pub fn describe(&self) -> (s: String)
        ensures
            s@ == "sufcheck: "@ + self.message@,
    {
        let mut s = String::from_str("sufcheck: ");
        s.append(self.message.as_str());
        s
    }
}

/// The text that std's `format!` makes of the length message.
pub uninterp spec fn length_message(sa_len: usize, n: usize) -> Seq<char>;

/// The text that std's `format!` makes of the range message.
pub uninterp spec fn range_message(last: usize, i: usize, s: i32) -> Seq<char>;

/// The text that std's `format!` makes of the order message.
pub uninterp spec fn order_message(prev: usize, a: i32, ta: u8, i: usize, b: i32, tb: u8) -> Seq<char>;

/// The message for an array of the wrong length, made by std's `format!`, whose
/// text depends on its arguments alone; the contract names that text.
#[verifier::external_body]
fn message_length(sa_len: usize, n: usize) -> (s: String)
    ensures
        s@ == length_message(sa_len, n),
{
    format!("SA length {} != T length {}", sa_len, n)
}

/// The message for an entry out of range, made by std's `format!`; the contract
/// names its text.
#[verifier::external_body]
fn message_range(last: usize, i: usize, s: i32) -> (m: String)
    ensures
        m@ == range_message(last, i, s),
{
    format!("Out of the range [0,{}]. SA[{}]={}", last, i, s)
}

/// The message for two suffixes whose first bytes are out of order, made by std's
/// `format!`; the contract names its text.
#[verifier::external_body]
fn message_order(prev: usize, a: i32, ta: u8, i: usize, b: i32, tb: u8) -> (m: String)
    ensures
        m@ == order_message(prev, a, ta, i, b, tb),
{
    format!("Suffixes in wrong order. T[SA[{}]={}]={} > T[SA[{}]={}]={}", prev, a, ta, i, b, tb)
}

/// `sa[i]` is the first entry of `sa` that is not a position of a text of length `n`.
pub open spec fn first_out_of_range(sa: Seq<i32>, n: int, i: int) -> bool {
    &&& 0 <= i < sa.len()
    &&& !(0 <= sa[i] < n)
    &&& forall|k: int| 0 <= k < i ==> 0 <= #[trigger] sa[k] < n
}

/// `sa[i - 1]`, `sa[i]` is the first pair whose suffixes' first bytes are out of order.
pub open spec fn first_misordered(t: Seq<u8>, sa: Seq<i32>, i: int) -> bool {
    &&& 1 <= i < sa.len()
    &&& t[sa[i - 1] as int] > t[sa[i] as int]
    &&& forall|k: int| 1 <= k < i ==> t[#[trigger] sa[k - 1] as int] <= t[sa[k] as int]
}

/// The text that std's `format!` makes of the position message.
pub uninterp spec fn position_message(t_val: i32, found: i32, i: usize, sai: i32) -> Seq<char>;

/// The message for a suffix found out of place, made by std's `format!`; the
/// contract names its text.
#[verifier::external_body]
fn message_position(t_val: i32, found: i32, i: usize, sai: i32) -> (m: String)
    ensures
        m@ == position_message(t_val, found, i, sai),
{
    format!("Suffix in wrong position. SA[{}]={} or SA[{}]={}", t_val, found, i, sai)
}

/// Every entry of `sa` is a position of a text of length `n`.
pub open spec fn entries_in_range(sa: Seq<i32>, n: int) -> bool {
    forall|k: int| 0 <= k < sa.len() ==> 0 <= #[trigger] sa[k] < n
}

/// The suffixes listed in `sa` are ordered by their first byte.
pub open spec fn first_bytes_sorted(t: Seq<u8>, sa: Seq<i32>) -> bool {
    forall|i: int| 1 <= i < sa.len() ==> t[#[trigger] sa[i - 1] as int] <= t[sa[i] as int]
}

/// The suffix that a suffix `s` follows on the way round the text: `s - 1`, and
/// the last one for suffix 0.
spec fn pred_pos(n: int, s: int) -> int {
    if s > 0 {
        s - 1
    } else {
        n - 1
    }
}

/// What a full scan of `sufcheck` has seen: scanning entry `j` it found the suffix
/// `pred_pos(sa[j])` at place `tv[j]`; the suffix `n - 1` at place `q`; and, in
/// each bucket, places handed out in increasing order, after `q` in the bucket of
/// the last byte.
spec fn scan_passed(t: Seq<u8>, sa: Seq<i32>, tv: Seq<int>, q: int) -> bool {
    let n = t.len() as int;
    &&& sa.len() == n
    &&& tv.len() == n
    &&& 0 < n <= 0x7fff_ffff
    &&& entries_in_range(sa, n)
    &&& first_bytes_sorted(t, sa)
    &&& forall|j: int| 0 <= j < n ==> 0 <= #[trigger] tv[j] < n && sa[tv[j]] == pred_pos(n, sa[j] as int)
    &&& forall|j: int| 0 <= j < n && #[trigger] sa[j] == 0 ==> tv[j] == q
    &&& forall|j1: int, j2: int|
        0 <= j1 < j2 < n && sa[j1] > 0 && sa[j2] > 0 && #[trigger] tv[j1] != q && #[trigger] tv[j2] != q
            && t[sa[tv[j1]] as int] == t[sa[tv[j2]] as int] ==> tv[j1] < tv[j2]
    &&& forall|j: int|
        0 <= j < n && sa[j] > 0 && #[trigger] tv[j] != q && t[sa[tv[j]] as int] == t[n - 1] ==> tv[j] > q
}

proof fn lemma_missing_up(t: Seq<u8>, sa: Seq<i32>, tv: Seq<int>, q: int, v0: int, v: int)
    requires
        scan_passed(t, sa, tv, q),
        0 <= v0 <= v < t.len(),
        forall|k: int| 0 <= k < sa.len() ==> sa[k] != v0,
    ensures
        forall|k: int| 0 <= k < sa.len() ==> sa[k] != v,
    decreases v - v0,
{
    if v > v0 {
        lemma_missing_up(t, sa, tv, q, v0, v - 1);
        assert forall|k: int| 0 <= k < sa.len() implies sa[k] != v by {
            if sa[k] == v {
                assert(sa[tv[k]] == v - 1);
            }
        }
    }
}

/// A passing scan lists every position: a position missing from `sa` would take
/// the next one with it, and so on round the text.
proof fn lemma_scan_onto(t: Seq<u8>, sa: Seq<i32>, tv: Seq<int>, q: int, v: int)
    requires
        scan_passed(t, sa, tv, q),
        0 <= v < t.len(),
    ensures
        exists|k: int| 0 <= k < sa.len() && sa[k] == v,
{
    let n = t.len() as int;
    if forall|k: int| 0 <= k < sa.len() ==> sa[k] != v {
        lemma_missing_up(t, sa, tv, q, v, n - 1);
        assert forall|k: int| 0 <= k < sa.len() implies sa[k] != 0 by {
            if sa[k] == 0 {
                assert(sa[tv[k]] == n - 1);
            }
        }
        lemma_missing_up(t, sa, tv, q, 0, v);
        lemma_missing_up(t, sa, tv, q, 0, sa[0] as int);
        assert(sa[0] != sa[0]);
    }
}

/// A passing scan makes `sa` a permutation, of which `rank` is the inverse.
proof fn lemma_scan_perm(t: Seq<u8>, sa: Seq<i32>, tv: Seq<int>, q: int) -> (rank: Seq<i32>)
    requires
        scan_passed(t, sa, tv, q),
    ensures
        crate::certify::inverse_perm(t.len() as int, sa, rank),
{
    let n = t.len() as int;
    let rank = Seq::new(n as nat, |v: int| (choose|k: int| 0 <= k < n && sa[k] == v) as i32);
    assert forall|v: int| 0 <= v < n implies 0 <= #[trigger] rank[v] < n && sa[rank[v] as int] == v by {
        lemma_scan_onto(t, sa, tv, q, v);
        let k = choose|k: int| 0 <= k < n && sa[k] == v;
        assert(rank[v] == k as i32);
    }
    assert forall|i1: int, i2: int| 0 <= i1 < n && 0 <= i2 < n && i1 != i2 implies sa[i1] != sa[i2] by {
        if sa[i1] == sa[i2] {
            let all = vstd::set_lib::set_int_range(0, n);
            let rest = all.remove(i2);
            let f = |k: int| sa[k] as int;
            vstd::set_lib::lemma_int_range(0, n);
            assert forall|v: int| all.contains(v) implies rest.map(f).contains(v) by {
                let k = rank[v] as int;
                if k == i2 {
                    assert(rest.contains(i1) && f(i1) == v);
                } else {
                    assert(rest.contains(k) && f(k) == v);
                }
            }
            vstd::set_lib::lemma_map_size_bound(rest, rest.map(f), f);
            vstd::set_lib::lemma_len_subset(all, rest.map(f));
        }
    }
    assert forall|k: int| 0 <= k < n implies #[trigger] rank[sa[k] as int] == k by {
        let v = sa[k] as int;
        assert(sa[rank[v] as int] == v);
    }
    rank
}

/// A passing scan certifies the suffix array.
proof fn lemma_scan_sound(t: Seq<u8>, sa: Seq<i32>, tv: Seq<int>, q: int)
    requires
        scan_passed(t, sa, tv, q),
    ensures
        is_suffix_array(t, sa),
{
    let n = t.len() as int;
    let rank = lemma_scan_perm(t, sa, tv, q);
    // the place of the entry that leads to suffix `v`
    assert forall|k: int| 1 <= k < n implies #[trigger] crate::certify::neighbours_ok(t, sa, rank, k) by {
        let a = sa[k - 1] as int;
        let b = sa[k] as int;
        assert(t[a] <= t[b]);
        if t[a] == t[b] && a != n - 1 {
            let j1 = rank[a + 1] as int;
            let sb = if b + 1 < n { b + 1 } else { 0 };
            let j2 = rank[sb] as int;
            assert(sa[tv[j1]] == a);
            assert(sa[tv[j2]] == b);
            assert(rank[sa[tv[j1]] as int] == tv[j1]);
            assert(rank[sa[k - 1] as int] == k - 1);
            assert(rank[sa[tv[j2]] as int] == tv[j2]);
            assert(rank[sa[k] as int] == k);
            assert(tv[j1] == k - 1);
            assert(tv[j2] == k);
            let j0 = rank[0] as int;
            assert(tv[j0] == q);
            if b == n - 1 {
                assert(sa[j2] == 0);
                assert(tv[j1] > q);
            } else {
                assert(tv[j1] != q);
                assert(tv[j2] != q);
                if j2 < j1 {
                    assert(tv[j2] < tv[j1]);
                }
            }
        }
    }
    assert forall|i: int, j: int| 0 <= i < j < n implies lex_lt(
        suffix(t, #[trigger] sa[i] as int),
        suffix(t, #[trigger] sa[j] as int),
    ) by {
        crate::certify::lemma_ranked_lt(t, sa, rank, sa[i] as int, sa[j] as int);
    }
}

/// The number of transform entries that belong to the rows `0..=i` (row 0 being
/// the empty suffix), the row `pidx` of the whole text having none.
spec fn entries_upto(pidx: int, i: int) -> int {
    if pidx <= i {
        i
    } else {
        i + 1
    }
}

/// Verifies that `sa` is the suffix array of `t`: every entry in range, the
/// suffixes ordered by their first byte, and each suffix `sa[i] - 1` found at the
/// next free place of its bucket when the array is scanned in order (which makes
/// the order of whole suffixes follow). Returns a description of the first
/// inconsistency found. (`verbose` is not used: reporting is left to the caller.)
#[allow(unused_variables)]
pub fn sufcheck(t: &[u8], sa: &[i32], verbose: bool) -> (r: Result<(), SufCheckError>)
    requires
        t@.len() <= 0x7fff_ffff,
    ensures
        r is Ok <==> is_suffix_array(t@, sa@),
        sa@.len() != t@.len() ==> (r matches Err(e) && e.message@ == length_message(
            sa@.len() as usize,
            t@.len() as usize,
        )),
        sa@.len() == t@.len() ==> forall|i: int|
            #[trigger] first_out_of_range(sa@, t@.len() as int, i) ==> (r matches Err(e) && e.message@
                == range_message((t@.len() - 1) as usize, i as usize, sa@[i])),
        sa@.len() == t@.len() && entries_in_range(sa@, t@.len() as int) ==> forall|i: int|
            #[trigger] first_misordered(t@, sa@, i) ==> (r matches Err(e) && e.message@ == order_message(
                (i - 1) as usize,
                sa@[i - 1],
                t@[sa@[i - 1] as int],
                i as usize,
                sa@[i],
                t@[sa@[i] as int],
            )),
        sa@.len() == t@.len() && entries_in_range(sa@, t@.len() as int) && first_bytes_sorted(t@, sa@) ==> (
        r matches Err(e) ==> exists|tv: i32, f: i32, i: int|
            0 <= i < t@.len() && f == (if 0 <= tv < t@.len() {
                sa@[tv as int]
            } else {
                -1i32
            }) && #[trigger] position_message(tv, f, i as usize, sa@[i]) == e.message@),
{
    let n = t.len();
    if sa.len() != n {
        return Err(SufCheckError { message: message_length(sa.len(), n) });
    }
    if n == 0 {
        return Ok(());
    }
    let ghost valid = is_suffix_array(t@, sa@);
    let ghost tt = t@;
    let mut i: usize = 0;
    while i < n
        invariant
            i <= n,
            n == sa@.len(),
            n == t@.len(),
            forall|k: int| 0 <= k < i ==> 0 <= #[trigger] sa@[k] < n,
        decreases n - i,
    {
        let s = sa[i];
        if s < 0 || s as usize >= n {
            return Err(SufCheckError { message: message_range(n - 1, i, s) });
        }
        i += 1;
    }
    proof {
        if valid {
            lemma_suffix_array_keys_sorted(tt, sa@);
        }
    }
    let mut i: usize = 1;
    while i < n
        invariant
            1 <= i <= n,
            n == sa@.len(),
            n == t@.len(),
            entries_in_range(sa@, n as int),
            valid ==> keys_sorted(t@, sa@),
            forall|k: int| 1 <= k < i ==> t@[#[trigger] sa@[k - 1] as int] <= t@[sa@[k] as int],
        decreases n - i,
    {
        let a = sa[i - 1];
        let b = sa[i];
        proof {
            if valid {
                assert(first_key(t@, sa@[i - 1] as int) <= first_key(t@, sa@[i as int] as int));
            }
        }
        if t[a as usize] > t[b as usize] {
            return Err(SufCheckError { message: message_order(i - 1, a, t[a as usize], i, b, t[b as usize]) });
        }
        i += 1;
    }
    // bucket starts
    let mut c_table = vec![0i32; 256];
    proof {
        assert(tt.take(0) =~= Seq::<u8>::empty());
    }
    let mut k: usize = 0;
    while k < n
        invariant
            k <= n,
            n == tt.len(),
            n <= 0x7fff_ffff,
            tt == t@,
            c_table@.len() == 256,
            forall|c: int| 0 <= c < 256 ==> #[trigger] c_table@[c] == count_in(tt.take(k as int), c, c + 1),
        decreases n - k,
    {
        let ch = t[k] as usize;
        proof {
            assert forall|c2: int| 0 <= c2 < 256 implies #[trigger] count_in(tt.take(k + 1), c2, c2 + 1)
                == count_in(tt.take(k as int), c2, c2 + 1) + if c2 <= tt[k as int] < c2 + 1 {
                1nat
            } else {
                0nat
            } by {
                lemma_count_take_step(tt, k as int, c2, c2 + 1);
            }
            lemma_count_bound(tt.take(k as int), ch as int, ch + 1);
        }
        c_table.set(ch, c_table[ch] + 1);
        k += 1;
    }
    proof {
        assert(tt.take(n as int) =~= tt);
        lemma_count_split(tt, 0, 0, 0);
    }
    let mut acc = 0i32;
    let mut c: usize = 0;
    while c < 256
        invariant
            c <= 256,
            n == tt.len(),
            n <= 0x7fff_ffff,
            c_table@.len() == 256,
            acc == count_in(tt, 0, c as int),
            forall|c2: int| c <= c2 < 256 ==> #[trigger] c_table@[c2] == count_in(tt, c2, c2 + 1),
            forall|c2: int| 0 <= c2 < c ==> #[trigger] c_table@[c2] == count_in(tt, 0, c2),
        decreases 256 - c,
    {
        let t_val = c_table[c];
        proof {
            lemma_count_split(tt, 0, c as int, c + 1);
            lemma_count_bound(tt, 0, c + 1);
        }
        c_table.set(c, acc);
        acc = acc + t_val;
        c += 1;
    }
    // the model: the transform `u` of `t`, read off `sa` when it is the suffix array
    let ghost pidx: int = 1;
    proof {
        if valid {
            pidx = crate::lfmap::lemma_bwt_exists(tt, sa@);
        }
    }
    let ghost u = crate::lfmap::bwt_of(tt, sa@, pidx);
    proof {
        if valid {
            assert forall|c2: int| 0 <= c2 < 256 implies count_in(tt, 0, c2) == count_in(u, 0, c2) by {
                crate::lfmap::lemma_bwt_counts(tt, sa@, u, pidx, 0, c2);
            }
            assert(u.take(1) =~= seq![u[0]]);
            assert(u.take(1).drop_last() =~= Seq::<u8>::empty());
            assert(u[0] == tt[n - 1]);
        }
    }
    let last_c = t[n - 1] as usize;
    let q = c_table[last_c];
    proof {
        lemma_count_bound(tt, 0, last_c as int);
        lemma_count_split(tt, 0, last_c as int, last_c + 1);
        lemma_count_bound(tt, 0, last_c + 1);
        assert(tt.last() == tt[n - 1]);
        assert(count_in(tt, last_c as int, last_c + 1) >= 1);
    }
    c_table.set(last_c, c_table[last_c] + 1);
    proof {
        if valid {
            assert forall|c2: int| 0 <= c2 < 256 implies #[trigger] c_table@[c2] == count_in(u, 0, c2)
                + count_in(u.take(entries_upto(pidx, 0)), c2, c2 + 1) by {
                assert(entries_upto(pidx, 0) == 1);
                lemma_count_take_step(u, 0, c2, c2 + 1);
                assert(u.take(0) =~= Seq::<u8>::empty());
            }
            assert(q == lf(u, 0));
        }
    }
    let ghost mut tv: Seq<int> = Seq::empty();
    let mut i: usize = 0;
    while i < n
        invariant
            i <= n,
            n == t@.len(),
            n == sa@.len(),
            n <= 0x7fff_ffff,
            tt == t@,
            c_table@.len() == 256,
            entries_in_range(sa@, n as int),
            first_bytes_sorted(t@, sa@),
            last_c == tt[n - 1],
            valid == is_suffix_array(tt, sa@),
            valid ==> 1 <= pidx <= n && is_bwt_of_sa(tt, sa@, u, pidx) && u.len() == n,
            valid ==> q == lf(u, 0),
            0 <= q,
            tv.len() == i,
            forall|j: int|
                0 <= j < i ==> 0 <= #[trigger] tv[j] < n && sa@[tv[j]] == pred_pos(n as int, sa@[j] as int),
            forall|j: int| 0 <= j < i && #[trigger] sa@[j] == 0 ==> tv[j] == q,
            forall|j1: int, j2: int|
                0 <= j1 < j2 < i && sa@[j1] > 0 && sa@[j2] > 0 && #[trigger] tv[j1] != q && #[trigger] tv[j2]
                    != q && tt[sa@[tv[j1]] as int] == tt[sa@[tv[j2]] as int] ==> tv[j1] < tv[j2],
            forall|j: int|
                0 <= j < i && sa@[j] > 0 && #[trigger] tv[j] != q && tt[sa@[tv[j]] as int] == tt[n - 1]
                    ==> tv[j] > q,
            forall|c2: int|
                0 <= c2 < 256 ==> #[trigger] c_table@[c2] == -1 || forall|j: int|
                    0 <= j < i && sa@[j] > 0 && #[trigger] tv[j] != q && tt[sa@[tv[j]] as int] == c2
                        ==> tv[j] < c_table@[c2],
            c_table@[last_c as int] == -1 || c_table@[last_c as int] > q,
            valid ==> forall|c2: int|
                0 <= c2 < 256 ==> (#[trigger] c_table@[c2] == count_in(u, 0, c2) + count_in(
                    u.take(entries_upto(pidx, i as int)),
                    c2,
                    c2 + 1,
                ) || (c_table@[c2] == -1 && forall|j: int|
                    entries_upto(pidx, i as int) <= j < n ==> u[j] != c2)),
        decreases n - i,
    {
        let sai = sa[i];
        let ghost ju = entries_upto(pidx, i as int);
        proof {
            if valid {
                if sai > 0 {
                    assert(i + 1 != pidx) by {
                        if i + 1 == pidx {
                            assert(sa@[pidx - 1] == 0);
                        }
                    }
                    assert(crate::lfmap::frow(pidx, ju) == i + 1);
                    crate::lfmap::lemma_src(tt, sa@, u, pidx, ju);
                    crate::lfmap::lemma_lf(tt, sa@, u, pidx, ju);
                    lemma_lf_range(u, ju);
                    lemma_lf_injective(u, 0, ju);
                    lemma_count_bound(u, 0, u[ju] + 1);
                } else {
                    assert(i + 1 == pidx) by {
                        if i + 1 != pidx {
                            crate::suffix::lemma_suffix_array_distinct(tt, sa@, i as int, pidx - 1);
                        }
                    }
                    crate::lfmap::lemma_src(tt, sa@, u, pidx, 0);
                    crate::lfmap::lemma_lf(tt, sa@, u, pidx, 0);
                }
            }
        }
        let (c, t_val) = if sai > 0 {
            let c = t[(sai - 1) as usize] as usize;
            (c, c_table[c])
        } else {
            (last_c, q)
        };
        let expected = if sai > 0 {
            sai - 1
        } else {
            (n - 1) as i32
        };
        if t_val < 0 || t_val as usize >= n || sa[t_val as usize] != expected {
            proof {
                assert forall|i2: int| !#[trigger] first_out_of_range(sa@, n as int, i2) by {
                    if 0 <= i2 < n {
                        assert(0 <= sa@[i2] < n);
                    }
                }
                assert forall|i2: int| !#[trigger] first_misordered(t@, sa@, i2) by {
                    if 1 <= i2 < n {
                        assert(t@[sa@[i2 - 1] as int] <= t@[sa@[i2] as int]);
                    }
                }
            }
            let found = if t_val >= 0 && (t_val as usize) < n {
                sa[t_val as usize]
            } else {
                -1
            };
            let message = message_position(t_val, found, i, sai);
            proof {
                assert(position_message(
                    t_val,
                    if 0 <= t_val < t@.len() {
                        sa@[t_val as int]
                    } else {
                        -1i32
                    },
                    i as usize,
                    sa@[i as int],
                ) == message@);
            }
            return Err(SufCheckError { message });
        }
        proof {
            tv = tv.push(t_val as int);
        }
        if t_val != q {
            let ghost before = c_table@;
            c_table.set(c, t_val + 1);
            let nc = c_table[c];
            if nc < 0 || nc as usize >= n || t[sa[nc as usize] as usize] as usize != c {
                c_table.set(c, -1);
            }
            proof {
                if valid {
                    assert forall|c2: int| 0 <= c2 < 256 implies (#[trigger] c_table@[c2] == count_in(
                        u,
                        0,
                        c2,
                    ) + count_in(u.take(ju + 1), c2, c2 + 1) || (c_table@[c2] == -1 && forall|j: int|
                        ju + 1 <= j < n ==> u[j] != c2)) by {
                        lemma_count_take_step(u, ju, c2, c2 + 1);
                        if c2 == c && c_table@[c2] == -1 {
                            assert forall|j: int| ju + 1 <= j < n implies u[j] != c2 by {
                                if u[j] == c2 {
                                    lemma_count_take_mono(u, ju + 1, j, c2);
                                    lemma_lf_range(u, j);
                                    lemma_count_bound(u, 0, c2 + 1);
                                    let m = nc as int;
                                    let z = crate::lfmap::lemma_walk_next(tt, sa@, u, pidx, m);
                                    crate::lfmap::lemma_block_unique(u, m, tt[sa@[m] as int] as int, c2);
                                }
                            }
                        }
                    }
                }
            }
        }
        proof {
            if valid && sai == 0 {
                assert(entries_upto(pidx, i + 1) == ju);
            }
        }
        i += 1;
    }
    proof {
        lemma_scan_sound(tt, sa@, tv, q as int);
    }
    Ok(())
}

} // verus!
