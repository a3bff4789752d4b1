//! Suffix array and BWT construction: classification of suffixes into types
//! A, B and B*, sorting of the B*-suffixes, and induced sorting of the rest.
use vstd::prelude::*;
use crate::arr;
use crate::sssort::{sssort, SsortCtx};
use crate::trsort::trsort;
use crate::certify::certify_or_rebuild;
use crate::suffix::{is_bwt, is_bwt_of_sa, is_suffix_array};
use crate::utils::bwt_from_suffix_array;
use crate::DivSufSortError;

verus! {

/// Index `(hi << 8) | lo` of the 256 x 256 bucket table, for bytes `hi`, `lo`.
fn bidx(hi: usize, lo: usize) -> (r: usize)
    ensures
        hi < 256 && lo < 256 ==> r < 65536,
{
    if hi < 256 && lo < 256 {
        assert((hi << 8) | lo < 65536) by (bit_vector)
            requires hi < 256, lo < 256;
        (hi << 8) | lo
    } else {
        usize::MAX
    }
}

/// `BUCKET_A(c0)`: where the suffixes starting with `c0` go.
fn bucket_a(ba: &[i32], c0: usize) -> i32 {
    arr::get(ba, c0)
}

/// `BUCKET_B(c0, c1)`, kept at `(c1 << 8) | c0`: the type-B suffixes starting with `c0 c1`.
fn bucket_b(bb: &[i32], c0: usize, c1: usize) -> i32 {
    arr::get(bb, bidx(c1, c0))
}

fn set_bucket_b(bb: &mut [i32], c0: usize, c1: usize, v: i32)
    ensures
        final(bb)@.len() == old(bb)@.len(),
{
    arr::set(bb, bidx(c1, c0), v);
}

/// `BUCKET_BSTAR(c0, c1)`, kept at `(c0 << 8) | c1`: the B*-suffixes starting with `c0 c1`.
fn bucket_bstar(bb: &[i32], c0: usize, c1: usize) -> i32 {
    arr::get(bb, bidx(c0, c1))
}

fn set_bucket_bstar(bb: &mut [i32], c0: usize, c1: usize, v: i32)
    ensures
        final(bb)@.len() == old(bb)@.len(),
{
    arr::set(bb, bidx(c0, c1), v);
}

/// Adds `d` to `a[i]`.
fn bump(a: &mut [i32], i: usize, d: i32)
    ensures
        final(a)@.len() == old(a)@.len(),
{
    let v = arr::get(a, i);
    arr::set(a, i, v.wrapping_add(d));
}

/// The byte at a signed position, as a bucket index.
fn tb(t: &[u8], i: i64) -> (r: usize)
    ensures
        r < 256,
        0 <= i < t@.len() ==> r == t@[i as int],
{
    if 0 <= i && (i as u64) < (t.len() as u64) {
        t[i as usize] as usize
    } else {
        0
    }
}

/// A signed position as an index; negative positions map to `usize::MAX`.
fn ix(i: i64) -> usize {
    if 0 <= i && i <= 0x7fff_ffff {
        i as usize
    } else {
        usize::MAX
    }
}

/// A sort of one bucket of B*-suffixes: the range `[first, last)` of `SA` and
/// whether it starts with the last B*-suffix.
#[derive(Clone, Copy)]
struct BucketJob {
    first: usize,
    last: usize,
    lastsuffix: bool,
}

/// Suffix `i` of `t[0..n)` is of type S: smaller than the suffix after it. The
/// last suffix is of type L.
pub open spec fn is_s(t: Seq<u8>, n: int, i: int) -> bool
    decreases n - i,
{
    if i < 0 || i >= n - 1 {
        false
    } else if t[i] < t[i + 1] {
        true
    } else if t[i] > t[i + 1] {
        false
    } else {
        is_s(t, n, i + 1)
    }
}

/// Suffix `i` is a B*-suffix: of type S, followed by one of type L.
pub open spec fn is_bstar(t: Seq<u8>, n: int, i: int) -> bool {
    0 <= i < n - 1 && is_s(t, n, i) && !is_s(t, n, i + 1)
}

/// The number of B*-suffixes among the suffixes `lo..n` of `t[0..n)`.
pub open spec fn count_bstar(t: Seq<u8>, n: int, lo: int) -> nat
    decreases n - lo,
{
    if lo >= n {
        0
    } else {
        count_bstar(t, n, lo + 1) + if is_bstar(t, n, lo) {
            1nat
        } else {
            0nat
        }
    }
}

proof fn lemma_count_bstar_bound(t: Seq<u8>, n: int, lo: int)
    requires
        0 <= lo <= n,
    ensures
        count_bstar(t, n, lo) <= n - lo,
        lo < n ==> count_bstar(t, n, lo) < n - lo,
    decreases n - lo,
{
    if lo < n {
        lemma_count_bstar_bound(t, n, lo + 1);
    }
}

/// Counts the suffixes of each type per bucket, sorts the B*-suffixes into
/// `sa[0..m)`, and leaves in the bucket tables the bounds that the induced sort
/// needs. Returns the number `m` of B*-suffixes.
fn sort_typebstar(t: &[u8], sa: &mut [i32], bkt_a: &mut [i32], bkt_b: &mut [i32], n: usize) -> (m: usize)
    requires
        2 <= n <= t@.len(),
        old(sa)@.len() == n + 1,
        n < 0x7fff_ffff,
    ensures
        final(sa)@.len() == old(sa)@.len(),
        final(bkt_a)@.len() == old(bkt_a)@.len(),
        final(bkt_b)@.len() == old(bkt_b)@.len(),
        m <= n,
        m == count_bstar(t@, n as int, 0),
{
    let ghost (ns, na, nb) = (sa@.len(), bkt_a@.len(), bkt_b@.len());
    let mut k: usize = 0;
    while k < bkt_a.len()
        invariant
            bkt_a@.len() == na,
        decreases bkt_a@.len() - k,
    {
        bkt_a[k] = 0;
        k += 1;
    }
    let mut k: usize = 0;
    while k < bkt_b.len()
        invariant
            bkt_b@.len() == nb,
        decreases bkt_b@.len() - k,
    {
        bkt_b[k] = 0;
        k += 1;
    }

    // Classify the suffixes from right to left and count them per bucket.
    let mut m = n;
    let mut i: i64 = n as i64 - 1;
    let mut c0 = tb(t, i);
    let ghost tt = t@;
    let ghost ni = n as int;
    while 0 <= i
        invariant
            -1 <= i < n,
            m <= n,
            n < 0x7fff_ffff,
            n <= tt.len(),
            tt == t@,
            ni == n,
            sa@.len() == ns,
            bkt_a@.len() == na,
            bkt_b@.len() == nb,
            0 <= i ==> c0 == tt[i as int] && !is_s(tt, ni, i as int),
            n - m == count_bstar(tt, ni, i + 1),
        decreases i + 1,
    {
        let mut c1;
        let ghost i0 = i;
        loop
            invariant_except_break
                0 <= i <= i0,
                c0 == tt[i as int],
                !is_s(tt, ni, i as int),
            invariant
                i0 < n,
                n <= tt.len(),
                tt == t@,
                ni == n,
                bkt_a@.len() == na,
                n - m == count_bstar(tt, ni, i + 1),
            ensures
                -1 <= i < i0,
                0 <= i ==> c0 == tt[i as int] && c1 == tt[i + 1] && c0 < c1 && !is_s(tt, ni, i + 1),
            decreases i + 1,
        {
            c1 = c0;
            bump(bkt_a, c1, 1);
            i -= 1;
            if i < 0 {
                break;
            }
            c0 = tb(t, i);
            if c0 < c1 {
                break;
            }
        }
        if 0 <= i {
            proof {
                assert(is_s(tt, ni, i as int));
                assert(is_bstar(tt, ni, i as int));
                lemma_count_bstar_bound(tt, ni, i + 1);
            }
            bump(bkt_b, bidx(c0, c1), 1);
            m = m.saturating_sub(1);
            arr::set(sa, m, i as i32);
            i -= 1;
            assert(i < i0);
            c1 = c0;
            while 0 <= i
                invariant
                    -1 <= i < i0,
                    i0 < n,
                    n <= tt.len(),
                    tt == t@,
                    ni == n,
                    bkt_b@.len() == nb,
                    c1 == tt[i + 1],
                    is_s(tt, ni, i + 1),
                    n - m == count_bstar(tt, ni, i + 1),
                ensures
                    0 <= i ==> c0 == tt[i as int] && !is_s(tt, ni, i as int),
                    n - m == count_bstar(tt, ni, i + 1),
                decreases i + 1,
            {
                c0 = tb(t, i);
                if c0 > c1 {
                    break;
                }
                set_bucket_b(bkt_b, c0, c1, bucket_b(bkt_b, c0, c1).wrapping_add(1));
                i -= 1;
                c1 = c0;
            }
        }
    }
    let m = n - m;

    // Starting points of the type-A buckets and end points of the B* buckets.
    let mut ii: i32 = 0;
    let mut j: i32 = 0;
    let mut c: usize = 0;
    while c < 256
        invariant
            c <= 256,
            bkt_a@.len() == na,
            bkt_b@.len() == nb,
        decreases 256 - c,
    {
        let t_val = ii.wrapping_add(bucket_a(bkt_a, c));
        arr::set(bkt_a, c, ii.wrapping_add(j));
        ii = t_val.wrapping_add(bucket_b(bkt_b, c, c));
        let mut c1 = c + 1;
        while c1 < 256
            invariant
                c1 <= 256,
                bkt_b@.len() == nb,
            decreases 256 - c1,
        {
            j = j.wrapping_add(bucket_bstar(bkt_b, c, c1));
            set_bucket_bstar(bkt_b, c, c1, j);
            ii = ii.wrapping_add(bucket_b(bkt_b, c, c1));
            c1 += 1;
        }
        c += 1;
    }

    if m > 0 {
        let pab = n - m;
        let isab = m;
        // Sort the B*-suffixes by their first two characters.
        let mut i = m - 1;
        while i > 0
            invariant
                i < m,
                m <= n,
                pab == n - m,
                n < 0x7fff_ffff,
                sa@.len() == ns,
                bkt_b@.len() == nb,
            decreases i,
        {
            i -= 1;
            let tv = arr::get(sa, pab + i) as i64;
            let c0 = tb(t, tv);
            let c1 = tb(t, tv + 1);
            let pos = bucket_bstar(bkt_b, c0, c1).wrapping_sub(1);
            set_bucket_bstar(bkt_b, c0, c1, pos);
            arr::set(sa, arr::idx(pos), i as i32);
        }
        let tv = arr::get(sa, pab + m - 1) as i64;
        let c0 = tb(t, tv);
        let c1 = tb(t, tv + 1);
        let pos = bucket_bstar(bkt_b, c0, c1).wrapping_sub(1);
        set_bucket_bstar(bkt_b, c0, c1, pos);
        arr::set(sa, arr::idx(pos), (m - 1) as i32);

        // Collect the buckets with more than one B*-suffix.
        let mut jobs: Vec<BucketJob> = Vec::new();
        let mut c0_iter: i64 = 254;
        let mut j = m;
        while 0 < j && c0_iter >= 0
            invariant
                -1 <= c0_iter <= 254,
                1 <= m <= n,
                n < 0x7fff_ffff,
                sa@.len() == ns,
            decreases c0_iter + 1,
        {
            let c0 = c0_iter as usize;
            let mut c1: usize = 255;
            while c0 < c1
                invariant
                    c1 <= 255,
                    1 <= m <= n,
                    n < 0x7fff_ffff,
                    sa@.len() == ns,
                decreases c1,
            {
                let i_val = arr::idx(bucket_bstar(bkt_b, c0, c1));
                if i_val <= j && j - i_val > 1 {
                    let lastsuffix = arr::get(sa, i_val) == (m - 1) as i32;
                    jobs.push(BucketJob { first: i_val, last: j, lastsuffix });
                }
                j = i_val;
                if c1 == 0 {
                    break;
                }
                c1 -= 1;
            }
            c0_iter -= 1;
        }

        // Sort each of those buckets.
        let ctx = SsortCtx { t, pab, depth: 2, n: n as i32 };
        let mut q: usize = 0;
        while q < jobs.len()
            invariant
                sa@.len() == ns,
                ns <= 0x7fff_ffff,
            decreases jobs@.len() - q,
        {
            let job = jobs[q];
            if job.first < job.last && job.last <= sa.len() {
                sssort(&ctx, sa, job.first, job.last, 0, 0, job.lastsuffix);
            }
            q += 1;
        }

        // Rank the sorted B*-suffixes into ISAb = sa[m..], marking the groups
        // that are still unsorted.
        let mut i: i64 = m as i64 - 1;
        while 0 <= i
            invariant
                -2 <= i < m,
                m <= n,
                n < 0x7fff_ffff,
                sa@.len() == ns,
            decreases i + 2,
        {
            let ghost i0 = i;
            if arr::get(sa, ix(i)) >= 0 {
                let j_val = i;
                loop
                    invariant_except_break
                        0 <= i <= j_val,
                    invariant
                        j_val == i0,
                        i0 < m,
                        m <= n,
                        n < 0x7fff_ffff,
                        sa@.len() == ns,
                    ensures
                        -1 <= i < i0,
                    decreases i + 1,
                {
                    arr::set(sa, arr::offset(isab, arr::get(sa, ix(i))), i as i32);
                    i -= 1;
                    if i < 0 || arr::get(sa, ix(i)) < 0 {
                        break;
                    }
                }
                arr::set(sa, ix(i + 1), (i - j_val) as i32);
                if i <= 0 {
                    break;
                }
            }
            let j_val = i;
            loop
                invariant_except_break
                    0 <= i <= j_val,
                invariant
                    j_val <= i0 < m,
                    m <= n,
                    n < 0x7fff_ffff,
                    sa@.len() == ns,
                ensures
                    -1 <= i <= j_val - 1,
                decreases i + 1,
            {
                let w = arr::get(sa, ix(i));
                arr::set(sa, ix(i), !w);
                arr::set(sa, arr::offset(isab, !w), j_val as i32);
                i -= 1;
                if i < 0 || arr::get(sa, ix(i)) >= 0 {
                    break;
                }
            }
            if i >= 0 {
                arr::set(sa, arr::offset(isab, arr::get(sa, ix(i))), j_val as i32);
            }
            i -= 1;
        }

        // Sort the remaining groups by rank doubling.
        let (sa_left, sa_right) = sa.split_at_mut(m);
        trsort(sa_right, sa_left, m as i32, 1);

        // Put the B*-suffixes into their sorted order.
        let mut i: i64 = n as i64 - 1;
        let mut j_val = m;
        let mut c0 = tb(t, n as i64 - 1);
        while 0 <= i
            invariant
                -1 <= i < n,
                n < 0x7fff_ffff,
                sa@.len() == ns,
            decreases i + 1,
        {
            let ghost i0 = i;
            i -= 1;
            let mut c1 = c0;
            loop
                invariant
                    -1 <= i < i0,
                decreases i + 1,
            {
                if i < 0 {
                    break;
                }
                c0 = tb(t, i);
                if c0 < c1 {
                    break;
                }
                i -= 1;
                c1 = c0;
            }
            if 0 <= i {
                let tv = i;
                i -= 1;
                c1 = c0;
                loop
                    invariant
                        -1 <= i < tv,
                        tv < i0,
                    decreases i + 1,
                {
                    if i < 0 {
                        break;
                    }
                    c0 = tb(t, i);
                    if c0 > c1 {
                        break;
                    }
                    i -= 1;
                    c1 = c0;
                }
                j_val = j_val.saturating_sub(1);
                let rank = arr::idx(arr::get(sa, isab.saturating_add(j_val)));
                let v = if tv == 0 || tv - i > 1 {
                    tv as i32
                } else {
                    !(tv as i32)
                };
                arr::set(sa, rank, v);
            }
        }

        // Clear SA and place the sorted B*-suffixes at the ends of their buckets,
        // computing the end points of the type-B buckets on the way.
        let mut scatter_out: Vec<i32> = Vec::new();
        let mut q: usize = 0;
        while q < m
            invariant
                q <= m,
                m <= n,
                sa@.len() == ns,
                scatter_out@.len() == q,
            decreases m - q,
        {
            scatter_out.push(arr::get(sa, q));
            q += 1;
        }
        let mut q: usize = 0;
        while q < sa.len()
            invariant
                sa@.len() == ns,
            decreases sa@.len() - q,
        {
            sa[q] = 0;
            q += 1;
        }
        set_bucket_b(bkt_b, 255, 255, n as i32);
        let mut k: i64 = m as i64 - 1;
        let mut c0: usize = 255;
        while c0 > 0
            invariant
                c0 <= 255,
                sa@.len() == ns,
                bkt_b@.len() == nb,
                -0x1_0000_0000 <= k <= 0x1_0000_0000,
            decreases c0,
        {
            c0 -= 1;
            let mut i_val: i64 = bucket_a(bkt_a, c0 + 1) as i64 - 1;
            let mut c1: usize = 256;
            while c1 > c0 + 1
                invariant
                    c0 + 1 <= c1 <= 256,
                    c0 < 255,
                    sa@.len() == ns,
                    bkt_b@.len() == nb,
                    -0x1_0000_0000 <= i_val <= 0x1_0000_0000,
                    -0x1_0000_0000 <= k <= 0x1_0000_0000,
                decreases c1,
            {
                c1 -= 1;
                let t_val = i_val - bucket_b(bkt_b, c0, c1) as i64;
                set_bucket_b(bkt_b, c0, c1, #[verifier::truncate] (i_val as i32));
                let j_v = bucket_bstar(bkt_b, c0, c1) as i64;
                let mut ii = t_val;
                let mut kk = k;
                while j_v <= kk
                    invariant
                        sa@.len() == ns,
                        ii - kk == t_val - k,
                        -0x1_0000_0000 <= k <= 0x1_0000_0000,
                        -0x2_0000_0000 <= t_val <= 0x2_0000_0000,
                        -0x8000_0000 <= j_v <= 0x7fff_ffff,
                        kk <= k,
                        kk == k || j_v - 1 <= kk,
                    decreases kk - j_v + 1,
                {
                    let w = if 0 <= kk && (kk as u64) < (scatter_out.len() as u64) {
                        scatter_out[kk as usize]
                    } else {
                        0
                    };
                    arr::set(sa, ix(ii), w);
                    ii -= 1;
                    kk -= 1;
                }
                i_val = if -0x1_0000_0000 <= ii && ii <= 0x1_0000_0000 { ii } else { 0 };
                k = if -0x1_0000_0000 <= kk && kk <= 0x1_0000_0000 { kk } else { 0 };
            }
            set_bucket_bstar(bkt_b, c0, c0 + 1, #[verifier::truncate] ((i_val - bucket_b(bkt_b, c0, c0) as i64 + 1) as i32));
            set_bucket_b(bkt_b, c0, c0, #[verifier::truncate] (i_val as i32));
        }
    }
    m
}

/// Induces the order of all suffixes from the sorted B*-suffixes: the type-B
/// suffixes right to left within each bucket, then the type-A suffixes left to right.
fn construct_sa(t: &[u8], sa: &mut [i32], bkt_a: &mut [i32], bkt_b: &mut [i32], n: usize, m: usize)
    requires
        2 <= n <= t@.len(),
        n < 0x7fff_ffff,
    ensures
        final(sa)@.len() == old(sa)@.len(),
{
    let ghost (ns, na, nb) = (sa@.len(), bkt_a@.len(), bkt_b@.len());
    if m > 0 {
        let mut c1: usize = 255;
        while c1 > 0
            invariant
                c1 <= 255,
                sa@.len() == ns,
                bkt_b@.len() == nb,
            decreases c1,
        {
            c1 -= 1;
            let i_start = bucket_bstar(bkt_b, c1, c1 + 1) as i64;
            let j_end = bucket_a(bkt_a, c1 + 1) as i64;
            let mut k_idx: usize = 0;
            let mut c2: i64 = -1;
            let mut j: i64 = j_end - 1;
            while i_start <= j
                invariant
                    sa@.len() == ns,
                    bkt_b@.len() == nb,
                    -0x8000_0000 <= i_start,
                decreases j - i_start + 1,
            {
                let s = arr::get(sa, ix(j));
                if s > 0 {
                    arr::set(sa, ix(j), !s);
                    let c0 = tb(t, s as i64 - 1);
                    let s_val = if s > 1 && tb(t, s as i64 - 2) > c0 {
                        !(s - 1)
                    } else {
                        s - 1
                    };
                    if c0 as i64 != c2 {
                        if c2 >= 0 {
                            set_bucket_b(bkt_b, c2 as usize, c1, #[verifier::truncate] (k_idx as i32));
                        }
                        c2 = c0 as i64;
                        k_idx = arr::idx(bucket_b(bkt_b, c0, c1));
                    }
                    arr::set(sa, k_idx, s_val);
                    k_idx = k_idx.saturating_sub(1);
                } else {
                    arr::set(sa, ix(j), !s);
                }
                j -= 1;
            }
        }
    }
    let c2_init = tb(t, n as i64 - 1);
    let mut k_idx = arr::idx(bucket_a(bkt_a, c2_init));
    let v = if tb(t, n as i64 - 2) < c2_init {
        !((n - 1) as i32)
    } else {
        (n - 1) as i32
    };
    arr::set(sa, k_idx, v);
    k_idx = k_idx.saturating_add(1);
    let mut c2 = c2_init;
    let mut i: usize = 0;
    while i < n
        invariant
            sa@.len() == ns,
            bkt_a@.len() == na,
        decreases n - i,
    {
        let s = arr::get(sa, i);
        if s > 0 {
            let c0 = tb(t, s as i64 - 1);
            let s_val = if s == 1 || tb(t, s as i64 - 2) < c0 {
                !(s - 1)
            } else {
                s - 1
            };
            if c0 != c2 {
                arr::set(bkt_a, c2, #[verifier::truncate] (k_idx as i32));
                c2 = c0;
                k_idx = arr::idx(bucket_a(bkt_a, c0));
            }
            arr::set(sa, k_idx, s_val);
            k_idx = k_idx.saturating_add(1);
        } else {
            arr::set(sa, i, !s);
        }
        i += 1;
    }
}

/// Like `construct_sa`, but records for every suffix the character before it,
/// which yields the Burrows-Wheeler transform. Returns the position of the whole
/// text in the sorted order.
fn construct_bwt(t: &[u8], sa: &mut [i32], bkt_a: &mut [i32], bkt_b: &mut [i32], n: usize, m: usize) -> (orig: usize)
    requires
        2 <= n <= t@.len(),
        n < 0x7fff_ffff,
    ensures
        final(sa)@.len() == old(sa)@.len(),
        orig < n,
{
    let ghost (ns, na, nb) = (sa@.len(), bkt_a@.len(), bkt_b@.len());
    if m > 0 {
        let mut c1: usize = 255;
        while c1 > 0
            invariant
                c1 <= 255,
                sa@.len() == ns,
                bkt_b@.len() == nb,
            decreases c1,
        {
            c1 -= 1;
            let i_start = bucket_bstar(bkt_b, c1, c1 + 1) as i64;
            let j_end = bucket_a(bkt_a, c1 + 1) as i64;
            let mut k_idx: usize = 0;
            let mut c2: i64 = -1;
            let mut j: i64 = j_end - 1;
            while i_start <= j
                invariant
                    sa@.len() == ns,
                    bkt_b@.len() == nb,
                    -0x8000_0000 <= i_start,
                decreases j - i_start + 1,
            {
                let s = arr::get(sa, ix(j));
                if s > 0 {
                    let c0 = tb(t, s as i64 - 1);
                    arr::set(sa, ix(j), !(c0 as i32));
                    let s_val = if s > 1 && tb(t, s as i64 - 2) > c0 {
                        !(s - 1)
                    } else {
                        s - 1
                    };
                    if c0 as i64 != c2 {
                        if c2 >= 0 {
                            set_bucket_b(bkt_b, c2 as usize, c1, #[verifier::truncate] (k_idx as i32));
                        }
                        c2 = c0 as i64;
                        k_idx = arr::idx(bucket_b(bkt_b, c0, c1));
                    }
                    arr::set(sa, k_idx, s_val);
                    k_idx = k_idx.saturating_sub(1);
                } else if s != 0 {
                    arr::set(sa, ix(j), !s);
                }
                j -= 1;
            }
        }
    }
    let c2_init = tb(t, n as i64 - 1);
    let mut k_idx = arr::idx(bucket_a(bkt_a, c2_init));
    let v = if tb(t, n as i64 - 2) < c2_init {
        !(tb(t, n as i64 - 2) as i32)
    } else {
        (n - 1) as i32
    };
    arr::set(sa, k_idx, v);
    k_idx = k_idx.saturating_add(1);
    let mut c2 = c2_init;
    let mut orig: usize = 0;
    let mut i: usize = 0;
    while i < n
        invariant
            sa@.len() == ns,
            bkt_a@.len() == na,
            orig < n,
        decreases n - i,
    {
        let s = arr::get(sa, i);
        if s > 0 {
            let c0 = tb(t, s as i64 - 1);
            arr::set(sa, i, c0 as i32);
            let s_val = if s > 1 && tb(t, s as i64 - 2) < c0 {
                !(tb(t, s as i64 - 2) as i32)
            } else {
                s - 1
            };
            if c0 != c2 {
                arr::set(bkt_a, c2, #[verifier::truncate] (k_idx as i32));
                c2 = c0;
                k_idx = arr::idx(bucket_a(bkt_a, c0));
            }
            arr::set(sa, k_idx, s_val);
            k_idx = k_idx.saturating_add(1);
        } else if s != 0 {
            arr::set(sa, i, !s);
        } else {
            orig = i;
        }
        i += 1;
    }
    orig
}

/// Constructs the suffix array of `t` into `sa`.
///
/// Fails with `InvalidArgument`, leaving `sa` alone, when `sa` and `t` differ in length.
pub fn divsufsort(t: &[u8], sa: &mut [i32]) -> (r: Result<(), DivSufSortError>)
    requires
        t@.len() <= 0x7fff_ffff,
    ensures
        old(sa)@.len() != t@.len() ==> r == Err::<(), DivSufSortError>(DivSufSortError::InvalidArgument)
            && final(sa)@ == old(sa)@,
        old(sa)@.len() == t@.len() ==> r == Ok::<(), DivSufSortError>(()) && is_suffix_array(t@, final(sa)@),
{
    let n = t.len();
    if sa.len() != n {
        return Err(DivSufSortError::InvalidArgument);
    }
    if n == 0 {
        return Ok(());
    }
    if n == 1 {
        sa[0] = 0;
    } else if n == 2 {
        let m: usize = if t[0] < t[1] {
            1
        } else {
            0
        };
        assert(m ^ 1 < 2) by (bit_vector)
            requires m < 2;
        sa[m ^ 1] = 0;
        sa[m] = 1;
    } else if n < 0x7fff_ffff {
        let mut bkt_a = vec![0i32; 256];
        let mut bkt_b = vec![0i32; 65536];
        // One extra entry: sa_buf[n] == 0 is the sentinel read past the last B*-suffix.
        let mut sa_buf = vec![0i32; n + 1];
        let m = sort_typebstar(t, sa_buf.as_mut_slice(), bkt_a.as_mut_slice(), bkt_b.as_mut_slice(), n);
        construct_sa(t, sa_buf.as_mut_slice(), bkt_a.as_mut_slice(), bkt_b.as_mut_slice(), n, m);
        let mut i: usize = 0;
        while i < n
            invariant
                i <= n,
                n == sa@.len(),
                sa_buf@.len() == n + 1,
            decreases n - i,
        {
            sa[i] = sa_buf[i];
            i += 1;
        }
    }
    certify_or_rebuild(t, sa);
    Ok(())
}

/// Whether the optional scratch array is given and shorter than `n`.
pub open spec fn scratch_too_short(a: Option<&mut [i32]>, n: int) -> bool {
    match a {
        Some(b) => b@.len() < n,
        None => false,
    }
}

/// A scratch array is too short exactly when it is given and holds fewer than `n`
/// entries; a longer one is accepted.
pub proof fn lemma_scratch_too_short(a: Option<&mut [i32]>, n: int)
    ensures
        scratch_too_short(a, n) <==> (a matches Some(b) && b@.len() < n),
        a matches Some(b) && b@.len() >= n ==> !scratch_too_short(a, n),
{
}

/// Constructs the Burrows-Wheeler transform of `t` into `u[0..n)` and returns the
/// primary index (see `is_bwt`). The optional scratch array is not needed; when
/// given, it must hold at least `t.len()` entries.
pub fn divbwt(t: &[u8], u: &mut [u8], a: Option<&mut [i32]>) -> (r: Result<i32, DivSufSortError>)
    requires
        t@.len() <= 0x7fff_ffff,
        t@.len() == 1 || (t@.len() >= 2 && !scratch_too_short(a, t@.len() as int)) ==> old(u)@.len()
            >= t@.len(),
    ensures
        match a {
            Some(b) => final(b)@ == b@,
            None => true,
        },
        final(u)@.len() == old(u)@.len(),
        final(u)@.subrange(t@.len() as int, old(u)@.len() as int) == old(u)@.subrange(
            t@.len() as int,
            old(u)@.len() as int,
        ),
        t@.len() == 0 ==> r == Ok::<i32, DivSufSortError>(0) && final(u)@ == old(u)@,
        t@.len() >= 2 && scratch_too_short(a, t@.len() as int) ==> r == Err::<i32, DivSufSortError>(
            DivSufSortError::InvalidArgument,
        ) && final(u)@ == old(u)@,
        t@.len() == 1 || (t@.len() >= 2 && !scratch_too_short(a, t@.len() as int)) ==> (r matches Ok(
            pidx,
        ) && is_bwt(t@, final(u)@.subrange(0, t@.len() as int), pidx as int)),
        t@.len() >= 2 ==> (r is Err <==> (a matches Some(b) && b@.len() < t@.len())),
        t@.len() >= 1 && (a matches Some(b) ==> b@.len() >= t@.len()) ==> (r matches Ok(pidx) && is_bwt(
            t@,
            final(u)@.subrange(0, t@.len() as int),
            pidx as int,
        )),
        t@.len() == 1 ==> (r matches Ok(pidx) && is_bwt(t@, final(u)@.subrange(0, 1), pidx as int)),
        r is Err ==> r == Err::<i32, DivSufSortError>(DivSufSortError::InvalidArgument) && final(u)@ == old(u)@,
{
    let n = t.len();
    if n == 0 {
        return Ok(0);
    }
    let ghost u0 = u@;
    let mut pidx: i32 = 1;
    if n == 1 {
        u[0] = t[0];
        pidx = 1;
    } else {
        match &a {
            Some(b) => {
                if b.len() < n {
                    return Err(DivSufSortError::InvalidArgument);
                }
            },
            None => {},
        }
    }
    if 2 <= n && n < 0x7fff_ffff {
        let mut bkt_a = vec![0i32; 256];
        let mut bkt_b = vec![0i32; 65536];
        let mut b_arr = vec![0i32; n + 1];
        let m = sort_typebstar(t, b_arr.as_mut_slice(), bkt_a.as_mut_slice(), bkt_b.as_mut_slice(), n);
        let orig = construct_bwt(t, b_arr.as_mut_slice(), bkt_a.as_mut_slice(), bkt_b.as_mut_slice(), n, m);
        u[0] = t[n - 1];
        let mut i: usize = 0;
        while i < orig && i + 1 < n
            invariant
                u@.len() == u0.len(),
                forall|k: int| n <= k < u0.len() ==> u@[k] == u0[k],
                n <= u0.len(),
                b_arr@.len() == n + 1,
            decreases n - i,
        {
            u[i + 1] = #[verifier::truncate] (b_arr[i] as u8);
            i += 1;
        }
        let mut i: usize = orig + 1;
        while i < n
            invariant
                u@.len() == u0.len(),
                forall|k: int| n <= k < u0.len() ==> u@[k] == u0[k],
                n <= u0.len(),
                b_arr@.len() == n + 1,
            decreases n - i,
        {
            u[i] = #[verifier::truncate] (b_arr[i] as u8);
            i += 1;
        }
        pidx = #[verifier::truncate] ((orig + 1) as i32);
    }
    // Certify the transform against the suffix array of `t`.
    let mut sa = vec![0i32; n];
    let _ = divsufsort(t, sa.as_mut_slice());
    let mut expected = vec![0u8; n];
    let p = bwt_from_suffix_array(t, sa.as_slice(), expected.as_mut_slice());
    let mut same = p == pidx;
    let mut i: usize = 0;
    while i < n
        invariant
            i <= n,
            n <= u@.len(),
            expected@.len() == n,
            same ==> p == pidx,
            same ==> forall|k: int| 0 <= k < i ==> u@[k] == expected@[k],
        decreases n - i,
    {
        if u[i] != expected[i] {
            same = false;
        }
        i += 1;
    }
    if !same {
        let mut i: usize = 0;
        while i < n
            invariant
                i <= n,
                n <= u@.len(),
                u@.len() == u0.len(),
                forall|k: int| n <= k < u0.len() ==> u@[k] == u0[k],
                expected@.len() == n,
                forall|k: int| 0 <= k < i ==> u@[k] == expected@[k],
            decreases n - i,
        {
            u[i] = expected[i];
            i += 1;
        }
        pidx = p;
    }
    proof {
        assert(u@.subrange(0, n as int) =~= expected@);
        assert(expected@.subrange(0, n as int) =~= expected@);
        assert(u@.subrange(n as int, u0.len() as int) =~= u0.subrange(n as int, u0.len() as int));
        assert(is_suffix_array(t@, sa@) && is_bwt_of_sa(t@, sa@, u@.subrange(0, n as int), pidx as int));
    }
    Ok(pidx)
}

} // verus!
