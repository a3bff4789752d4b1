//! Sorting of the B*-suffixes within one bucket: introspective sort on blocks,
//! then merging of the sorted blocks.
use vstd::prelude::*;
use vstd::arithmetic::power2::{lemma2_to64, pow2};
use crate::arr;
use crate::heap::{
    heap_from, heap_node, hchild, hparent, kept, keys_above, keys_at, keys_below,
    lemma_extract_multiset, lemma_heap_root_max, lemma_swap_multiset, lemma_window_bound,
    lemma_window_multiset, lemma_window_pred, sorted_by, swap_within,
};
use crate::constants::{
    is_log2, lemma_halving, lemma_lg_table, lemma_log2_shift, FixedStack, LG_TABLE, SS_BLOCKSIZE,
    SS_INSERTIONSORT_THRESHOLD, SS_MISORT_STACKSIZE, SS_SMERGE_STACKSIZE,
};
use crate::suffix::{lemma_lex_irreflexive, lemma_lex_total, lemma_lex_transitive, lex_lt};
use crate::trsort::{lemma_complement, unmark, unmarked};

verus! {

pub const SQQ_TABLE: [i32; 256] = [
    0, 16, 22, 27, 32, 35, 39, 42, 45, 48, 50, 53, 55, 57, 59, 61, 64, 65, 67, 69, 71, 73, 75, 76,
    78, 80, 81, 83, 84, 86, 87, 89, 90, 91, 93, 94, 96, 97, 98, 99, 101, 102, 103, 104, 106, 107,
    108, 109, 110, 112, 113, 114, 115, 116, 117, 118, 119, 120, 121, 122, 123, 124, 125, 126, 128,
    128, 129, 130, 131, 132, 133, 134, 135, 136, 137, 138, 139, 140, 141, 142, 143, 144, 144, 145,
    146, 147, 148, 149, 150, 150, 151, 152, 153, 154, 155, 155, 156, 157, 158, 159, 160, 160, 161,
    162, 163, 163, 164, 165, 166, 167, 167, 168, 169, 170, 170, 171, 172, 173, 173, 174, 175, 176,
    176, 177, 178, 178, 179, 180, 181, 181, 182, 183, 183, 184, 185, 185, 186, 187, 187, 188, 189,
    189, 190, 191, 192, 192, 193, 193, 194, 195, 195, 196, 197, 197, 198, 199, 199, 200, 201, 201,
    202, 203, 203, 204, 204, 205, 206, 206, 207, 208, 208, 209, 209, 210, 211, 211, 212, 212, 213,
    214, 214, 215, 215, 216, 217, 217, 218, 218, 219, 219, 220, 221, 221, 222, 222, 223, 224, 224,
    225, 225, 226, 226, 227, 227, 228, 229, 229, 230, 230, 231, 231, 232, 232, 233, 234, 234, 235,
    235, 236, 236, 237, 237, 238, 238, 239, 240, 240, 241, 241, 242, 242, 243, 243, 244, 244, 245,
    245, 246, 246, 247, 247, 248, 248, 249, 249, 250, 250, 251, 251, 252, 252, 253, 253, 254, 254,
    255,
];

/// Floor of log2 for 16-bit values (and -1 for 0).
pub fn ss_ilg(n: i32) -> (r: i32)
    ensures
        1 <= n < 65536 ==> is_log2(n as int, r as int),
        n == 0 ==> r == -1,
        -1 <= r <= 15,
{
    if n & 0xff00 != 0 {
        let q = (n >> 8) & 0xff;
        assert(0 <= q < 256) by (bit_vector)
            requires q == (n >> 8) & 0xff;
        proof {
            assert(n & 0xff00 != 0 ==> (n >> 8) & 0xff != 0) by (bit_vector);
            assert(n == 0 ==> n & 0xff00 == 0) by (bit_vector);
            if 1 <= n < 65536 {
                assert(1 <= n < 65536 ==> (n >> 8) & 0xff == n / 256) by (bit_vector);
                lemma_lg_table(q as int);
                lemma2_to64();
                lemma_log2_shift(n as int, q as int, 8, LG_TABLE@[q as int] as int);
            } else {
                lemma_lg_table(q as int);
            }
        }
        8 + LG_TABLE[q as usize]
    } else {
        let q = n & 0xff;
        assert(0 <= q < 256) by (bit_vector)
            requires q == n & 0xff;
        proof {
            assert(1 <= n < 65536 && n & 0xff00 == 0 ==> n & 0xff == n) by (bit_vector);
            if 1 <= q {
                lemma_lg_table(q as int);
            }
            if n == 0 {
                assert(0i32 & 0xff == 0) by (bit_vector);
                assert(LG_TABLE@[0] == -1);
            }
        }
        LG_TABLE[q as usize]
    }
}

proof fn lemma_sqq_range(i: int)
    requires
        0 <= i < 256,
    ensures
        0 <= SQQ_TABLE@[i] <= 255,
        i >= 64 ==> SQQ_TABLE@[i] >= 128,
{
    if i < 64 {
        assert(0 <= SQQ_TABLE@[i] <= 126);
    } else {
        assert(128 <= SQQ_TABLE@[i] <= 255);
    }
}

/// Entries `lo..hi` of the square-root table are the integer square roots of `256 * i`.
spec fn sqq_ok_range(lo: int, hi: int) -> bool
    decreases hi - lo,
{
    if lo >= hi || lo < 0 || hi > 256 {
        true
    } else {
        let s = SQQ_TABLE@[lo] as int;
        s * s <= 256 * lo && 256 * lo < (s + 1) * (s + 1) && sqq_ok_range(lo + 1, hi)
    }
}

proof fn lemma_sqq_ok_range(lo: int, hi: int, j: int)
    requires
        0 <= lo <= j < hi <= 256,
        sqq_ok_range(lo, hi),
    ensures
        SQQ_TABLE@[j] * SQQ_TABLE@[j] <= 256 * j < (SQQ_TABLE@[j] + 1) * (SQQ_TABLE@[j] + 1),
    decreases j - lo,
{
    if lo < j {
        lemma_sqq_ok_range(lo + 1, hi, j);
    }
}

proof fn lemma_sqq_concat(lo: int, mid: int, hi: int)
    requires
        0 <= lo <= mid <= hi <= 256,
        sqq_ok_range(lo, mid),
        sqq_ok_range(mid, hi),
    ensures
        sqq_ok_range(lo, hi),
    decreases mid - lo,
{
    if lo < mid {
        lemma_sqq_concat(lo + 1, mid, hi);
    }
}

/// Entry `i` of the square-root table is the integer square root of `256 * i`.
#[verifier::spinoff_prover]
#[verifier::rlimit(60)]
proof fn lemma_sqq_exact(i: int)
    requires
        0 <= i < 256,
    ensures
        SQQ_TABLE@[i] * SQQ_TABLE@[i] <= 256 * i < (SQQ_TABLE@[i] + 1) * (SQQ_TABLE@[i] + 1),
{
    assert(sqq_ok_range(0, 8)) by (nonlinear_arith) {
        reveal_with_fuel(sqq_ok_range, 9);
    }
    assert(sqq_ok_range(8, 16)) by (nonlinear_arith) {
        reveal_with_fuel(sqq_ok_range, 9);
    }
    assert(sqq_ok_range(16, 24)) by (nonlinear_arith) {
        reveal_with_fuel(sqq_ok_range, 9);
    }
    assert(sqq_ok_range(24, 32)) by (nonlinear_arith) {
        reveal_with_fuel(sqq_ok_range, 9);
    }
    assert(sqq_ok_range(32, 40)) by (nonlinear_arith) {
        reveal_with_fuel(sqq_ok_range, 9);
    }
    assert(sqq_ok_range(40, 48)) by (nonlinear_arith) {
        reveal_with_fuel(sqq_ok_range, 9);
    }
    assert(sqq_ok_range(48, 56)) by (nonlinear_arith) {
        reveal_with_fuel(sqq_ok_range, 9);
    }
    assert(sqq_ok_range(56, 64)) by (nonlinear_arith) {
        reveal_with_fuel(sqq_ok_range, 9);
    }
    assert(sqq_ok_range(64, 72)) by (nonlinear_arith) {
        reveal_with_fuel(sqq_ok_range, 9);
    }
    assert(sqq_ok_range(72, 80)) by (nonlinear_arith) {
        reveal_with_fuel(sqq_ok_range, 9);
    }
    assert(sqq_ok_range(80, 88)) by (nonlinear_arith) {
        reveal_with_fuel(sqq_ok_range, 9);
    }
    assert(sqq_ok_range(88, 96)) by (nonlinear_arith) {
        reveal_with_fuel(sqq_ok_range, 9);
    }
    assert(sqq_ok_range(96, 104)) by (nonlinear_arith) {
        reveal_with_fuel(sqq_ok_range, 9);
    }
    assert(sqq_ok_range(104, 112)) by (nonlinear_arith) {
        reveal_with_fuel(sqq_ok_range, 9);
    }
    assert(sqq_ok_range(112, 120)) by (nonlinear_arith) {
        reveal_with_fuel(sqq_ok_range, 9);
    }
    assert(sqq_ok_range(120, 128)) by (nonlinear_arith) {
        reveal_with_fuel(sqq_ok_range, 9);
    }
    assert(sqq_ok_range(128, 136)) by (nonlinear_arith) {
        reveal_with_fuel(sqq_ok_range, 9);
    }
    assert(sqq_ok_range(136, 144)) by (nonlinear_arith) {
        reveal_with_fuel(sqq_ok_range, 9);
    }
    assert(sqq_ok_range(144, 152)) by (nonlinear_arith) {
        reveal_with_fuel(sqq_ok_range, 9);
    }
    assert(sqq_ok_range(152, 160)) by (nonlinear_arith) {
        reveal_with_fuel(sqq_ok_range, 9);
    }
    assert(sqq_ok_range(160, 168)) by (nonlinear_arith) {
        reveal_with_fuel(sqq_ok_range, 9);
    }
    assert(sqq_ok_range(168, 176)) by (nonlinear_arith) {
        reveal_with_fuel(sqq_ok_range, 9);
    }
    assert(sqq_ok_range(176, 184)) by (nonlinear_arith) {
        reveal_with_fuel(sqq_ok_range, 9);
    }
    assert(sqq_ok_range(184, 192)) by (nonlinear_arith) {
        reveal_with_fuel(sqq_ok_range, 9);
    }
    assert(sqq_ok_range(192, 200)) by (nonlinear_arith) {
        reveal_with_fuel(sqq_ok_range, 9);
    }
    assert(sqq_ok_range(200, 208)) by (nonlinear_arith) {
        reveal_with_fuel(sqq_ok_range, 9);
    }
    assert(sqq_ok_range(208, 216)) by (nonlinear_arith) {
        reveal_with_fuel(sqq_ok_range, 9);
    }
    assert(sqq_ok_range(216, 224)) by (nonlinear_arith) {
        reveal_with_fuel(sqq_ok_range, 9);
    }
    assert(sqq_ok_range(224, 232)) by (nonlinear_arith) {
        reveal_with_fuel(sqq_ok_range, 9);
    }
    assert(sqq_ok_range(232, 240)) by (nonlinear_arith) {
        reveal_with_fuel(sqq_ok_range, 9);
    }
    assert(sqq_ok_range(240, 248)) by (nonlinear_arith) {
        reveal_with_fuel(sqq_ok_range, 9);
    }
    assert(sqq_ok_range(248, 256)) by (nonlinear_arith) {
        reveal_with_fuel(sqq_ok_range, 9);
    }
    lemma_sqq_concat(0, 8, 16);
    lemma_sqq_concat(0, 16, 24);
    lemma_sqq_concat(0, 24, 32);
    lemma_sqq_concat(0, 32, 40);
    lemma_sqq_concat(0, 40, 48);
    lemma_sqq_concat(0, 48, 56);
    lemma_sqq_concat(0, 56, 64);
    lemma_sqq_concat(0, 64, 72);
    lemma_sqq_concat(0, 72, 80);
    lemma_sqq_concat(0, 80, 88);
    lemma_sqq_concat(0, 88, 96);
    lemma_sqq_concat(0, 96, 104);
    lemma_sqq_concat(0, 104, 112);
    lemma_sqq_concat(0, 112, 120);
    lemma_sqq_concat(0, 120, 128);
    lemma_sqq_concat(0, 128, 136);
    lemma_sqq_concat(0, 136, 144);
    lemma_sqq_concat(0, 144, 152);
    lemma_sqq_concat(0, 152, 160);
    lemma_sqq_concat(0, 160, 168);
    lemma_sqq_concat(0, 168, 176);
    lemma_sqq_concat(0, 176, 184);
    lemma_sqq_concat(0, 184, 192);
    lemma_sqq_concat(0, 192, 200);
    lemma_sqq_concat(0, 200, 208);
    lemma_sqq_concat(0, 208, 216);
    lemma_sqq_concat(0, 216, 224);
    lemma_sqq_concat(0, 224, 232);
    lemma_sqq_concat(0, 232, 240);
    lemma_sqq_concat(0, 240, 248);
    lemma_sqq_concat(0, 248, 256);
    lemma_sqq_ok_range(0, 256, i);
}

/// A table root `s` of `256 q`, scaled down by `d`, is within one of the root of
/// any `x` in `[q p, (q + 1) p)`, when `d * d * p == 256`.
proof fn lemma_isqrt_scaled(x: int, q: int, s: int, z: int, d: int, p: int)
    requires
        s * s <= 256 * q < (s + 1) * (s + 1),
        128 <= s <= 255,
        q * p <= x < (q + 1) * p,
        z * d <= s < (z + 1) * d,
        1 <= d <= 8,
        d * d * p == 256,
        0 <= z,
        p > 0,
    ensures
        z * z <= x < (z + 2) * (z + 2),
{
    assert(z * z * 256 <= s * s * p) by (nonlinear_arith)
        requires
            0 <= z * d <= s,
            d * d * p == 256,
            p > 0,
    ;
    assert(s * s * p <= 256 * q * p) by (nonlinear_arith)
        requires
            s * s <= 256 * q,
            p > 0,
    ;
    assert(z * z <= q * p) by (nonlinear_arith)
        requires
            z * z * 256 <= 256 * q * p,
    ;
    assert((s + 1 + d) * (s + 1 + d) >= 256 * (q + 1)) by (nonlinear_arith)
        requires
            (s + 1) * (s + 1) > 256 * q,
            s >= 128,
            d >= 1,
    ;
    assert((z + 2) * d >= s + 1 + d) by (nonlinear_arith)
        requires
            s < (z + 1) * d,
    ;
    assert((z + 2) * (z + 2) * 256 >= 256 * (q + 1) * p) by (nonlinear_arith)
        requires
            (z + 2) * d >= s + 1 + d,
            s + 1 + d >= 0,
            (s + 1 + d) * (s + 1 + d) >= 256 * (q + 1),
            d * d * p == 256,
            p > 0,
    ;
    assert((z + 2) * (z + 2) >= (q + 1) * p) by (nonlinear_arith)
        requires
            (z + 2) * (z + 2) * 256 >= 256 * (q + 1) * p,
    ;
}

/// One Newton step from the scaled table root lands within one of the root.
proof fn lemma_isqrt_newton(x: int, q: int, s: int, u: int, p: int, b: int, y1: int)
    requires
        s * s <= 256 * q < (s + 1) * (s + 1),
        128 <= s <= 255,
        u == 2 || u == 4,
        p == 256 * u * u,
        q * p <= x < (q + 1) * p,
        (s * u) * b <= x < (s * u) * (b + 1),
        2 * y1 <= s * u + 1 + b <= 2 * y1 + 1,
    ensures
        (y1 - 1) * (y1 - 1) <= x < (y1 + 1) * (y1 + 1),
{
    let a = s * u;
    assert(a >= 256) by (nonlinear_arith)
        requires
            a == s * u,
            s >= 128,
            u >= 2,
    ;
    assert(a * a <= x) by (nonlinear_arith)
        requires
            a == s * u,
            s * s <= 256 * q,
            q * p <= x,
            p == 256 * u * u,
            u > 0,
    ;
    assert(b >= a) by (nonlinear_arith)
        requires
            a * a <= x,
            x < a * (b + 1),
            a > 0,
    ;
    // the step does not fall short
    assert(4 * x < (a + b + 1) * (a + b + 1)) by (nonlinear_arith)
        requires
            x < a * (b + 1),
    ;
    assert(4 * x < 4 * (y1 + 1) * (y1 + 1)) by (nonlinear_arith)
        requires
            4 * x < (a + b + 1) * (a + b + 1),
            a + b + 1 <= 2 * y1 + 1,
            a + b + 1 >= 0,
    ;
    // nor overshoots: b stays within 5u of a
    assert(256 * (q + 1) <= (s + 1) * (s + 1) + 255);
    assert(a * b < ((s + 1) * (s + 1) + 255) * u * u) by (nonlinear_arith)
        requires
            a * b <= x,
            x < (q + 1) * p,
            p == 256 * u * u,
            256 * (q + 1) <= (s + 1) * (s + 1) + 255,
            u > 0,
    ;
    assert(b < a + 5 * u) by (nonlinear_arith)
        requires
            a == s * u,
            a * b < ((s + 1) * (s + 1) + 255) * u * u,
            s >= 128,
            u > 0,
    ;
    assert((a + b - 1) * (a + b - 1) <= 4 * a * b) by (nonlinear_arith)
        requires
            a <= b < a + 5 * u,
            u <= 4,
            a >= 256,
    ;
    assert(4 * (y1 - 1) * (y1 - 1) <= (a + b - 1) * (a + b - 1)) by (nonlinear_arith)
        requires
            0 <= 2 * (y1 - 1) <= a + b - 1,
    ;
    assert(4 * a * b <= 4 * x) by (nonlinear_arith)
        requires
            a * b <= x,
    ;
    assert((y1 - 1) * (y1 - 1) <= x) by (nonlinear_arith)
        requires
            4 * (y1 - 1) * (y1 - 1) <= (a + b - 1) * (a + b - 1),
            (a + b - 1) * (a + b - 1) <= 4 * a * b,
            4 * a * b <= 4 * x,
    ;
    assert(x < (y1 + 1) * (y1 + 1)) by (nonlinear_arith)
        requires
            4 * x < 4 * (y1 + 1) * (y1 + 1),
    ;
}

/// Below 256 the table root of `256 x`, divided by 16, is the root of `x`.
proof fn lemma_isqrt_small(x: int, s: int, z: int)
    requires
        s * s <= 256 * x < (s + 1) * (s + 1),
        0 <= s,
        0 <= z,
        z * 16 <= s < (z + 1) * 16,
    ensures
        z * z <= x < (z + 1) * (z + 1),
{
    assert(256 * (z * z) <= s * s) by (nonlinear_arith)
        requires
            0 <= z * 16 <= s,
    ;
    assert((s + 1) * (s + 1) <= 256 * ((z + 1) * (z + 1))) by (nonlinear_arith)
        requires
            0 <= s + 1 <= (z + 1) * 16,
    ;
}

/// Whichever of `y - 1` and `y` the final correction picks is the root.
proof fn lemma_isqrt_correct(x: int, y: int, r: int)
    requires
        (y - 1) * (y - 1) <= x < (y + 1) * (y + 1),
        r == if x < y * y { y - 1 } else { y },
    ensures
        r * r <= x < (r + 1) * (r + 1),
{
}

/// Integer square root, capped at `SS_BLOCKSIZE`.
pub fn ss_isqrt(x: i32) -> (r: i32)
    requires
        x >= 0,
    ensures
        0 <= r <= 4096,
        x >= 1024 * 1024 ==> r == 1024,
        x < 1024 * 1024 ==> r * r <= x < (r + 1) * (r + 1),
{
    let blocksize = SS_BLOCKSIZE as i32;
    if x >= blocksize * blocksize {
        return blocksize;
    }
    let e: i32 = if x & 0xffff0000u32 as i32 != 0 {
        if x & 0xff000000u32 as i32 != 0 {
            let q = (x >> 24) & 0xff;
            assert(0 <= q < 256 && (0 <= x < 1048576 ==> x & 0xff000000u32 as i32 == 0)) by (bit_vector)
                requires q == (x >> 24) & 0xff;
            24 + LG_TABLE[q as usize]
        } else {
            let q = (x >> 16) & 0xff;
            assert(0 <= q < 256 && (0 <= x < 1048576 && x & 0xffff0000u32 as i32 != 0 ==> q == x
                / 65536 && 1 <= x / 65536 < 16)) by (bit_vector)
                requires q == (x >> 16) & 0xff;
            proof {
                lemma_lg_table(q as int);
                lemma2_to64();
                lemma_log2_shift(x as int, q as int, 16, LG_TABLE@[q as int] as int);
            }
            16 + LG_TABLE[q as usize]
        }
    } else if x & 0x0000ff00 != 0 {
        let q = (x >> 8) & 0xff;
        assert(0 <= q < 256 && (0 <= x < 1048576 && x & 0xffff0000u32 as i32 == 0 && x & 0x0000ff00 != 0
            ==> q == x / 256 && 1 <= x / 256 < 256)) by (bit_vector)
            requires q == (x >> 8) & 0xff;
        proof {
            lemma_lg_table(q as int);
            lemma2_to64();
            lemma_log2_shift(x as int, q as int, 8, LG_TABLE@[q as int] as int);
        }
        8 + LG_TABLE[q as usize]
    } else {
        let q = x & 0xff;
        assert(0 <= q < 256 && (0 <= x < 1048576 && x & 0xffff0000u32 as i32 == 0 && x & 0x0000ff00 == 0
            ==> q == x && x < 256)) by (bit_vector)
            requires q == x & 0xff;
        proof {
            if q >= 1 {
                lemma_lg_table(q as int);
            }
        }
        LG_TABLE[q as usize]
    };
    proof {
        lemma2_to64();
    }
    assert(0 <= (e & 1) <= 1 && (e >= 0 ==> 0 <= (e >> 1) <= e)) by (bit_vector);
    let y: i32 = if e >= 16 {
        // Here 2^e <= x < 2^(e+1) with 16 <= e <= 19.
        assert(16 <= e <= 19 && pow2(e as nat) <= x < pow2((e + 1) as nat));
        let sh: i32 = (e - 6) - (e & 1);
        let up_i: i32 = (e >> 1) - 7;
        assert({
            &&& (e <= 17 ==> sh == 10 && up_i == 1)
            &&& (e >= 18 ==> sh == 12 && up_i == 2)
            &&& (65536 <= x < 262144 ==> 64 <= (x >> 10i32) < 256 && (x >> 10i32) * 1024 <= x < ((x
                >> 10i32) + 1) * 1024)
            &&& (262144 <= x < 1048576 ==> 64 <= (x >> 12i32) < 256 && (x >> 12i32) * 4096 <= x < ((
                x >> 12i32) + 1) * 4096)
        }) by (bit_vector)
            requires
                sh == (e - 6) - (e & 1),
                up_i == (e >> 1) - 7,
                16 <= e <= 19,
        ;
        let q = x >> sh;
        proof {
            lemma_sqq_range(q as int);
        }
        let base = SQQ_TABLE[q as usize];
        let up: u32 = up_i as u32;
        let y0 = base << up;
        assert(256 <= y0 <= 1020 && (up == 1 ==> y0 == base * 2) && (up == 2 ==> y0 == base * 4))
            by (bit_vector)
            requires
                y0 == base << up,
                128 <= base <= 255,
                up == 1 || up == 2,
        ;
        let d = x / y0;
        assert(0 <= d <= 4096 && y0 * d <= x < y0 * (d + 1)) by (nonlinear_arith)
            requires
                d == x / y0,
                256 <= y0 <= 1020,
                0 <= x < 1048576,
        ;
        let s1 = y0 + 1 + d;
        let y1 = s1 >> 1;
        assert(0 <= y1 <= 4096 && 2 * y1 <= s1 <= 2 * y1 + 1) by (bit_vector)
            requires
                y1 == s1 >> 1,
                0 <= s1 <= 6000,
        ;
        proof {
            lemma_sqq_exact(q as int);
            if e <= 17 {
                lemma_isqrt_newton(x as int, q as int, base as int, 2, 1024, d as int, y1 as int);
            } else {
                lemma_isqrt_newton(x as int, q as int, base as int, 4, 4096, d as int, y1 as int);
            }
        }
        y1
    } else if e >= 8 {
        // Here 2^e <= x < 2^(e+1) with 8 <= e <= 15.
        assert(8 <= e <= 15 && pow2(e as nat) <= x < pow2((e + 1) as nat));
        let sh_i: i32 = (e - 6) - (e & 1);
        let down_i: i32 = 7 - (e >> 1);
        assert({
            &&& ((e == 8 || e == 9) ==> sh_i == 2 && down_i == 3)
            &&& ((e == 10 || e == 11) ==> sh_i == 4 && down_i == 2)
            &&& ((e == 12 || e == 13) ==> sh_i == 6 && down_i == 1)
            &&& ((e == 14 || e == 15) ==> sh_i == 8 && down_i == 0)
        }) by (bit_vector)
            requires
                sh_i == (e - 6) - (e & 1),
                down_i == 7 - (e >> 1),
                8 <= e <= 15,
        ;
        let sh: u32 = sh_i as u32;
        let q = x >> sh;
        assert({
            &&& q >= 0
            &&& (sh == 2 ==> q * 4 <= x < (q + 1) * 4)
            &&& (sh == 4 ==> q * 16 <= x < (q + 1) * 16)
            &&& (sh == 6 ==> q * 64 <= x < (q + 1) * 64)
            &&& (sh == 8 ==> q * 256 <= x < (q + 1) * 256)
        }) by (bit_vector)
            requires
                q == x >> sh,
                0 <= x < 1048576,
                sh == 2 || sh == 4 || sh == 6 || sh == 8,
        ;
        let base = if q < 256 {
            proof {
                lemma_sqq_range(q as int);
            }
            SQQ_TABLE[q as usize]
        } else {
            0
        };
        let down: u32 = down_i as u32;
        let z = base >> down;
        assert({
            &&& 0 <= z <= 255
            &&& (down == 3 ==> z * 8 <= base < (z + 1) * 8)
            &&& (down == 2 ==> z * 4 <= base < (z + 1) * 4)
            &&& (down == 1 ==> z * 2 <= base < (z + 1) * 2)
            &&& (down == 0 ==> z == base)
        }) by (bit_vector)
            requires
                z == base >> down,
                0 <= base <= 255,
                down <= 3,
        ;
        proof {
            lemma_sqq_exact(q as int);
            lemma_sqq_range(q as int);
            if e == 8 || e == 9 {
                lemma_isqrt_scaled(x as int, q as int, base as int, z as int, 8, 4);
            } else if e == 10 || e == 11 {
                lemma_isqrt_scaled(x as int, q as int, base as int, z as int, 4, 16);
            } else if e == 12 || e == 13 {
                lemma_isqrt_scaled(x as int, q as int, base as int, z as int, 2, 64);
            } else {
                lemma_isqrt_scaled(x as int, q as int, base as int, z as int, 1, 256);
            }
        }
        z + 1
    } else {
        assert(x < 256);
        proof {
            lemma_sqq_range(x as int);
        }
        let base = SQQ_TABLE[x as usize];
        let z = base >> 4u32;
        assert(0 <= z <= 15 && z * 16 <= base < (z + 1) * 16) by (bit_vector)
            requires
                z == base >> 4u32,
                0 <= base <= 255,
        ;
        proof {
            lemma_sqq_exact(x as int);
            lemma_isqrt_small(x as int, base as int, z as int);
        }
        return z;
    };
    assert(0 <= y <= 4096);
    assert(0 <= y * y <= 16777216 && (y == 0 ==> y * y == 0)) by (nonlinear_arith)
        requires
            0 <= y <= 4096,
    ;
    let r = if x < y * y {
        y - 1
    } else {
        y
    };
    proof {
        lemma_isqrt_correct(x as int, y as int, r as int);
    }
    r
}

/// The bytes `t[s..e)`, empty when `s >= e`.
pub open spec fn segment(t: Seq<u8>, s: int, e: int) -> Seq<u8> {
    if s < e {
        t.subrange(s, e)
    } else {
        Seq::empty()
    }
}

/// The key that `ss_compare` gives to entry `i` of `p`: the text from
/// `depth + p[i]` up to `p[i+1] + 2`.
pub open spec fn ss_key(t: Seq<u8>, p: Seq<i32>, i: int, depth: int) -> Seq<u8> {
    segment(t, depth + p[i], p[i + 1] + 2)
}

/// Entry `i` of `p` can be compared at `depth` without leaving `t`.
pub open spec fn ss_key_ok(t: Seq<u8>, p: Seq<i32>, i: int, depth: int) -> bool {
    &&& 0 <= i
    &&& i + 1 < p.len()
    &&& 0 <= depth + p[i] <= i32::MAX
    &&& 0 <= p[i + 1] + 2 <= t.len()
    &&& p[i + 1] + 2 <= i32::MAX
}

proof fn lemma_segment_step(t: Seq<u8>, s: int, e: int)
    requires
        0 <= s < e <= t.len(),
    ensures
        segment(t, s, e).len() > 0,
        segment(t, s, e)[0] == t[s],
        segment(t, s, e).drop_first() == segment(t, s + 1, e),
{
    assert(segment(t, s, e).drop_first() =~= segment(t, s + 1, e));
}

proof fn lemma_seq_cons_eq(a: Seq<u8>, b: Seq<u8>)
    requires
        a.len() > 0,
        b.len() > 0,
        a[0] == b[0],
    ensures
        (a == b) == (a.drop_first() == b.drop_first()),
{
    if a.drop_first() == b.drop_first() {
        assert(a =~= seq![a[0]] + a.drop_first());
        assert(b =~= seq![b[0]] + b.drop_first());
    }
}

/// Three-way comparison of the keys of `p1[p1_idx]` and `p2[p2_idx]`.
pub fn ss_compare(t: &[u8], p1: &[i32], p1_idx: usize, p2: &[i32], p2_idx: usize, depth: i32) -> (r:
    i32)
    requires
        ss_key_ok(t@, p1@, p1_idx as int, depth as int),
        ss_key_ok(t@, p2@, p2_idx as int, depth as int),
    ensures
        ({
            let k1 = ss_key(t@, p1@, p1_idx as int, depth as int);
            let k2 = ss_key(t@, p2@, p2_idx as int, depth as int);
            &&& (r < 0 <==> lex_lt(k1, k2))
            &&& (r > 0 <==> lex_lt(k2, k1))
            &&& (r == 0 <==> k1 == k2)
        }),
{
    let ghost k1 = ss_key(t@, p1@, p1_idx as int, depth as int);
    let ghost k2 = ss_key(t@, p2@, p2_idx as int, depth as int);
    let u1_start = (depth + p1[p1_idx]) as usize;
    let u2_start = (depth + p2[p2_idx]) as usize;
    let u1n = (p1[p1_idx + 1] + 2) as usize;
    let u2n = (p2[p2_idx + 1] + 2) as usize;

    let mut u1 = u1_start;
    let mut u2 = u2_start;
    while u1 < u1n && u2 < u2n && t[u1] == t[u2]
        invariant
            u1n <= t@.len(),
            u2n <= t@.len(),
            u1_start <= u1,
            u2_start <= u2,
            u1 - u1_start == u2 - u2_start,
            u1_start < u1 ==> u1 <= u1n,
            u2_start < u2 ==> u2 <= u2n,
            lex_lt(k1, k2) == lex_lt(segment(t@, u1 as int, u1n as int), segment(t@, u2 as int, u2n as int)),
            lex_lt(k2, k1) == lex_lt(segment(t@, u2 as int, u2n as int), segment(t@, u1 as int, u1n as int)),
            (k1 == k2) == (segment(t@, u1 as int, u1n as int) == segment(t@, u2 as int, u2n as int)),
        decreases u1n - u1,
    {
        proof {
            lemma_segment_step(t@, u1 as int, u1n as int);
            lemma_segment_step(t@, u2 as int, u2n as int);
            lemma_seq_cons_eq(segment(t@, u1 as int, u1n as int), segment(t@, u2 as int, u2n as int));
        }
        u1 += 1;
        u2 += 1;
    }
    let ghost s1 = segment(t@, u1 as int, u1n as int);
    let ghost s2 = segment(t@, u2 as int, u2n as int);
    proof {
        if u1 < u1n {
            lemma_segment_step(t@, u1 as int, u1n as int);
        }
        if u2 < u2n {
            lemma_segment_step(t@, u2 as int, u2n as int);
        }
        lemma_lex_irreflexive(s1);
        if s1 != s2 {
            lemma_lex_total(s1, s2);
        }
    }
    if u1 < u1n {
        if u2 < u2n {
            proof {
                if s1 == s2 {
                    assert(s1[0] == s2[0]);
                }
            }
            t[u1] as i32 - t[u2] as i32
        } else {
            1
        }
    } else if u2 < u2n {
        -1
    } else {
        proof {
            assert(s1 =~= s2);
        }
        0
    }
}

/// `PA[idx]`, where the array `PA` starts at offset `pab` of the buffer; `idx` may be
/// negative. Reads outside the buffer give 0.
pub fn pa_val(sa: &[i32], pab: usize, idx: i32) -> (r: i32)
    ensures
        0 <= pab + idx < sa@.len() && pab + idx <= usize::MAX ==> r == sa@[pab + idx],
        !(0 <= pab + idx < sa@.len()) ==> r == 0,
{
    let o = arr::offset(pab, idx);
    let l = sa.len();
    arr::get(sa, o)
}

/// The byte `Td[PA[v]]` that orders entry value `v` in the heapsort, reading
/// `PA` at offset `pab` of `s`; 0 wherever a read leaves its array.
pub open spec fn byte_key(t: Seq<u8>, td: int, s: Seq<i32>, pab: int) -> spec_fn(i32) -> int {
    |v: i32|
        {
            let p: int = if 0 <= pab + v < s.len() {
                s[pab + v] as int
            } else {
                0
            };
            if 0 <= td + p < t.len() {
                t[td + p] as int
            } else {
                0
            }
        }
}

/// No entry of the window `s[lo..hi)` points, through `PA` at offset `pab`, back
/// into the window: sorting the window leaves the keys alone.
pub open spec fn pa_apart(s: Seq<i32>, pab: int, lo: int, hi: int) -> bool {
    forall|q: int| lo <= q < hi ==> !(lo <= pab + #[trigger] s[q] < hi)
}

/// Keys read through `PA` only depend on the buffer outside the window.
proof fn lemma_byte_key_stable(t: Seq<u8>, td: int, s0: Seq<i32>, s1: Seq<i32>, pab: int, lo: int, hi: int, v: i32)
    requires
        s0.len() == s1.len(),
        forall|q: int| 0 <= q < s0.len() && !(lo <= q < hi) ==> s1[q] == s0[q],
        !(lo <= pab + v < hi),
    ensures
        byte_key(t, td, s1, pab)(v) == byte_key(t, td, s0, pab)(v),
{
}

/// The byte `Td[PA[v]]` with `Td = T + td`, or 0 outside the text.
fn key_byte(t: &[u8], td: usize, sa: &[i32], pab: usize, v: i32) -> (r: i32)
    ensures
        0 <= r < 256,
        r == byte_key(t@, td as int, sa@, pab as int)(v),
{
    let p = pa_val(sa, pab, v);
    let o = arr::offset(td, p);
    let l = t.len();
    let sl = sa.len();
    proof {
        if !(0 <= td + p < t@.len()) {
            assert(o >= t@.len());
        }
    }
    arr::byte(t, o)
}

/// `ss_compare` when both keys lie within the text, 0 otherwise.
fn ss_compare_checked(t: &[u8], p1: &[i32], i1: usize, p2: &[i32], i2: usize, depth: i32) -> (r: i32)
    ensures
        ss_key_ok(t@, p1@, i1 as int, depth as int) && ss_key_ok(t@, p2@, i2 as int, depth as int)
            ==> ({
            let k1 = ss_key(t@, p1@, i1 as int, depth as int);
            let k2 = ss_key(t@, p2@, i2 as int, depth as int);
            &&& (r < 0 <==> lex_lt(k1, k2))
            &&& (r > 0 <==> lex_lt(k2, k1))
            &&& (r == 0 <==> k1 == k2)
        }),
{
    if key_fits(t, p1, i1, depth) && key_fits(t, p2, i2, depth) {
        ss_compare(t, p1, i1, p2, i2, depth)
    } else {
        0
    }
}

fn key_fits(t: &[u8], p: &[i32], i: usize, depth: i32) -> (ok: bool)
    ensures
        ok == ss_key_ok(t@, p@, i as int, depth as int),
{
    if i >= p.len() || i + 1 >= p.len() {
        return false;
    }
    let s = depth as i64 + p[i] as i64;
    let e = p[i + 1] as i64 + 2;
    if !(0 <= s && s <= 0x7fff_ffff && 0 <= e && e <= 0x7fff_ffff) {
        return false;
    }
    (e as usize) <= t.len()
}

/// The suffix index a group entry stands for: entries marked as equal to their
/// predecessor hold the bitwise complement.
pub fn getidx(a: i32) -> (r: usize)
    ensures
        a >= 0 ==> r == a,
        a < 0 ==> r == -(a + 1),
{
    if a >= 0 {
        a as usize
    } else {
        (-(a + 1)) as usize
    }
}

/// The key of entry value `v` in the bucket sort: the text from `depth + PA[v]`
/// up to `PA[v + 1] + 2`, with `PA` at offset `pab` of `s`.
pub open spec fn pa_key(t: Seq<u8>, s: Seq<i32>, pab: int, depth: int) -> spec_fn(i32) -> Seq<u8> {
    |v: i32| ss_key(t, s, pab + v, depth)
}

/// `s[lo..hi)` is in nondecreasing order of keys (marks taken off), and an entry
/// is marked exactly when it ties with the one before it in the range.
#[verifier::opaque]
pub open spec fn sorted_marked_back(s: Seq<i32>, key: spec_fn(i32) -> Seq<u8>, lo: int, hi: int) -> bool {
    &&& forall|x: int, y: int|
        lo <= x <= y < hi ==> !lex_lt(key(unmark(#[trigger] s[y])), key(unmark(#[trigger] s[x])))
    &&& forall|k: int|
        lo <= k < hi ==> (#[trigger] s[k] < 0 <==> (k > lo && key(unmark(s[k])) == key(
            unmark(s[k - 1]),
        )))
}

/// `a <= b <= c` in lexicographic order gives `a <= c`.
proof fn lemma_le_trans(a: Seq<u8>, b: Seq<u8>, c: Seq<u8>)
    requires
        !lex_lt(b, a),
        !lex_lt(c, b),
    ensures
        !lex_lt(c, a),
{
    if lex_lt(c, a) {
        if a != b {
            lemma_lex_total(a, b);
        }
        if b != c {
            lemma_lex_total(b, c);
        }
        if a == b {
            lemma_lex_transitive(c, a, c);
            lemma_lex_irreflexive(c);
        } else if b == c {
            lemma_lex_transitive(a, b, a);
            lemma_lex_irreflexive(a);
        } else {
            lemma_lex_transitive(a, b, c);
            lemma_lex_transitive(a, c, a);
            lemma_lex_irreflexive(a);
        }
    }
}

/// `a < b` makes `b < a` false.
proof fn lemma_lt_asym(a: Seq<u8>, b: Seq<u8>)
    requires
        lex_lt(a, b),
    ensures
        !lex_lt(b, a),
        a != b,
{
    lemma_lex_irreflexive(a);
    if lex_lt(b, a) {
        lemma_lex_transitive(a, b, a);
    }
}

/// The entry at `k` after inserting `tv` just before `jpos` into `s[lo+1..)`,
/// marks taken off.
pub open spec fn inserted_back(s: Seq<i32>, jpos: int, tv: i32, k: int) -> i32 {
    if k < jpos - 1 {
        unmark(s[k + 1])
    } else if k == jpos - 1 {
        tv
    } else {
        unmark(s[k])
    }
}

proof fn lemma_back_unmark(s: Seq<i32>, s2: Seq<i32>, lo: int, hi: int, jpos: int, tv: i32, marked: bool)
    requires
        0 <= lo < jpos <= hi <= s.len(),
        s2.len() == s.len(),
        tv >= 0,
        forall|k: int| lo <= k < jpos - 1 ==> s2[k] == s[k + 1],
        s2[jpos - 1] == tv,
        jpos < hi ==> s2[jpos] == (if marked {
            (-(s[jpos] + 1)) as i32
        } else {
            s[jpos]
        }),
        jpos < hi ==> s[jpos] >= 0,
        forall|k: int| jpos < k < hi ==> s2[k] == s[k],
    ensures
        forall|k: int| lo <= k < hi ==> unmark(#[trigger] s2[k]) == inserted_back(s, jpos, tv, k),
{
    assert forall|k: int| lo <= k < hi implies unmark(#[trigger] s2[k]) == inserted_back(s, jpos, tv, k) by {
        if k == jpos && marked {
            assert(s[k] >= 0);
        }
    }
}

proof fn lemma_back_sorted(
    s: Seq<i32>,
    s2: Seq<i32>,
    key: spec_fn(i32) -> Seq<u8>,
    lo: int,
    hi: int,
    jpos: int,
    tv: i32,
)
    requires
        0 <= lo < jpos <= hi <= s.len(),
        s2.len() == s.len(),
        sorted_marked_back(s, key, lo + 1, hi),
        forall|k: int| lo <= k < hi ==> unmark(#[trigger] s2[k]) == inserted_back(s, jpos, tv, k),
        forall|k: int| lo + 1 <= k < jpos ==> lex_lt(key(unmark(s[k])), key(tv)),
        jpos < hi ==> !lex_lt(key(unmark(s[jpos])), key(tv)),
    ensures
        forall|x: int, y: int|
            lo <= x <= y < hi ==> !lex_lt(key(unmark(#[trigger] s2[y])), key(unmark(#[trigger] s2[x]))),
{
    reveal(sorted_marked_back);
    assert forall|x: int, y: int| lo <= x <= y < hi implies !lex_lt(
        key(unmark(#[trigger] s2[y])),
        key(unmark(#[trigger] s2[x])),
    ) by {
        assert(unmark(s2[x]) == inserted_back(s, jpos, tv, x));
        assert(unmark(s2[y]) == inserted_back(s, jpos, tv, y));
        if x < jpos - 1 && y < jpos - 1 {
            assert(!lex_lt(key(unmark(s[y + 1])), key(unmark(s[x + 1]))));
        } else if x < jpos - 1 && y == jpos - 1 {
            lemma_lt_asym(key(unmark(s[x + 1])), key(tv));
        } else if x < jpos - 1 {
            lemma_lt_asym(key(unmark(s[x + 1])), key(tv));
            assert(!lex_lt(key(unmark(s[y])), key(unmark(s[jpos]))));
            lemma_le_trans(key(unmark(s[x + 1])), key(tv), key(unmark(s[jpos])));
            lemma_le_trans(key(unmark(s[x + 1])), key(unmark(s[jpos])), key(unmark(s[y])));
        } else if x == jpos - 1 && y > x {
            assert(!lex_lt(key(unmark(s[y])), key(unmark(s[jpos]))));
            lemma_le_trans(key(tv), key(unmark(s[jpos])), key(unmark(s[y])));
        } else if x == jpos - 1 {
            lemma_lex_irreflexive(key(tv));
        } else {
            assert(!lex_lt(key(unmark(s[y])), key(unmark(s[x]))));
        }
    }
}

#[verifier::rlimit(40)]
proof fn lemma_back_marks(
    s: Seq<i32>,
    s2: Seq<i32>,
    key: spec_fn(i32) -> Seq<u8>,
    lo: int,
    hi: int,
    jpos: int,
    tv: i32,
    marked: bool,
)
    requires
        0 <= lo < jpos <= hi <= s.len(),
        s2.len() == s.len(),
        sorted_marked_back(s, key, lo + 1, hi),
        tv >= 0,
        forall|k: int| lo <= k < hi ==> unmark(#[trigger] s2[k]) == inserted_back(s, jpos, tv, k),
        forall|k: int| lo <= k < jpos - 1 ==> s2[k] == s[k + 1],
        s2[jpos - 1] == tv,
        jpos < hi ==> s2[jpos] == (if marked {
            (-(s[jpos] + 1)) as i32
        } else {
            s[jpos]
        }),
        forall|k: int| jpos < k < hi ==> s2[k] == s[k],
        forall|k: int| lo + 1 <= k < jpos ==> lex_lt(key(unmark(s[k])), key(tv)),
        jpos < hi ==> s[jpos] >= 0 && (marked <==> key(s[jpos]) == key(tv)),
    ensures
        forall|k: int|
            lo <= k < hi ==> (#[trigger] s2[k] < 0 <==> (k > lo && key(unmark(s2[k])) == key(
                unmark(s2[k - 1]),
            ))),
{
    reveal(sorted_marked_back);
    assert forall|k: int| lo <= k < hi implies (#[trigger] s2[k] < 0 <==> (k > lo && key(unmark(s2[k]))
        == key(unmark(s2[k - 1])))) by {
        assert(unmark(s2[k]) == inserted_back(s, jpos, tv, k));
        if k > lo {
            assert(unmark(s2[k - 1]) == inserted_back(s, jpos, tv, k - 1));
        }
        if k < jpos - 1 {
            assert(s[k + 1] < 0 <==> (k + 1 > lo + 1 && key(unmark(s[k + 1])) == key(unmark(s[k]))));
        } else if k == jpos - 1 {
            if k > lo {
                lemma_lt_asym(key(unmark(s[k])), key(tv));
            }
        } else if k == jpos {
        } else {
            assert(s[k] < 0 <==> (k > lo + 1 && key(unmark(s[k])) == key(unmark(s[k - 1]))));
        }
    }
}

proof fn lemma_back_seq(s: Seq<i32>, s2: Seq<i32>, lo: int, hi: int, jpos: int, tv: i32)
    requires
        0 <= lo < jpos <= hi <= s.len(),
        s2.len() == s.len(),
        forall|k: int| lo <= k < hi ==> unmark(#[trigger] s2[k]) == inserted_back(s, jpos, tv, k),
    ensures
        unmarked(s2, lo, hi) == unmarked(s, lo + 1, jpos) + seq![tv] + unmarked(s, jpos, hi),
{
    let l = unmarked(s2, lo, hi);
    let r = unmarked(s, lo + 1, jpos) + seq![tv] + unmarked(s, jpos, hi);
    assert forall|k: int| 0 <= k < l.len() implies l[k] == r[k] by {
        assert(unmark(s2[lo + k]) == inserted_back(s, jpos, tv, lo + k));
    }
    assert(l =~= r);
}

/// One insertion step, right to left: `tv` goes in just before `jpos`, after the
/// shifted entries whose key is below its own and before the entry at `jpos`,
/// which gets marked when it ties with `tv`.
proof fn lemma_back_step(
    s: Seq<i32>,
    s2: Seq<i32>,
    key: spec_fn(i32) -> Seq<u8>,
    lo: int,
    hi: int,
    jpos: int,
    tv: i32,
    marked: bool,
)
    requires
        0 <= lo < jpos <= hi <= s.len(),
        s2.len() == s.len(),
        sorted_marked_back(s, key, lo + 1, hi),
        tv >= 0,
        forall|k: int| lo <= k < jpos - 1 ==> s2[k] == s[k + 1],
        s2[jpos - 1] == tv,
        jpos < hi ==> s2[jpos] == (if marked {
            (-(s[jpos] + 1)) as i32
        } else {
            s[jpos]
        }),
        forall|k: int| jpos < k < hi ==> s2[k] == s[k],
        forall|k: int| lo + 1 <= k < jpos ==> lex_lt(key(unmark(s[k])), key(tv)),
        jpos < hi ==> s[jpos] >= 0 && !lex_lt(key(s[jpos]), key(tv)) && (marked <==> key(s[jpos])
            == key(tv)),
        jpos == hi ==> !marked,
    ensures
        sorted_marked_back(s2, key, lo, hi),
        unmarked(s2, lo, hi) == unmarked(s, lo + 1, jpos) + seq![tv] + unmarked(s, jpos, hi),
{
    lemma_back_unmark(s, s2, lo, hi, jpos, tv, marked);
    lemma_back_sorted(s, s2, key, lo, hi, jpos, tv);
    lemma_back_marks(s, s2, key, lo, hi, jpos, tv, marked);
    lemma_back_seq(s, s2, lo, hi, jpos, tv);
    reveal(sorted_marked_back);
}

/// Sortedness and marks only depend on the keys of the entries in the range.
proof fn lemma_back_same_keys(
    s: Seq<i32>,
    k1: spec_fn(i32) -> Seq<u8>,
    k2: spec_fn(i32) -> Seq<u8>,
    lo: int,
    hi: int,
)
    requires
        sorted_marked_back(s, k1, lo, hi),
        forall|q: int| lo <= q < hi ==> k1(unmark(#[trigger] s[q])) == k2(unmark(s[q])),
    ensures
        sorted_marked_back(s, k2, lo, hi),
{
    reveal(sorted_marked_back);
    assert forall|k: int| lo <= k < hi implies (#[trigger] s[k] < 0 <==> (k > lo && k2(unmark(s[k])) == k2(
        unmark(s[k - 1]),
    ))) by {
        assert(k1(unmark(s[k])) == k2(unmark(s[k])));
        if k > lo {
            assert(k1(unmark(s[k - 1])) == k2(unmark(s[k - 1])));
        }
    }
}

/// Sortedness and marks only depend on the entries in the range.
proof fn lemma_back_copy(s: Seq<i32>, s2: Seq<i32>, key: spec_fn(i32) -> Seq<u8>, lo: int, hi: int)
    requires
        sorted_marked_back(s, key, lo, hi),
        0 <= lo <= hi <= s.len(),
        hi <= s2.len(),
        forall|q: int| lo <= q < hi ==> s2[q] == s[q],
    ensures
        sorted_marked_back(s2, key, lo, hi),
{
    reveal(sorted_marked_back);
}

/// The first entry of a sorted and marked range is not marked.
proof fn lemma_back_head(s: Seq<i32>, key: spec_fn(i32) -> Seq<u8>, lo: int, hi: int)
    requires
        sorted_marked_back(s, key, lo, hi),
        lo < hi,
    ensures
        s[lo] >= 0,
{
    reveal(sorted_marked_back);
}

/// In a sorted and marked range, a marked entry ties with the one before it.
proof fn lemma_back_marked_key(s: Seq<i32>, key: spec_fn(i32) -> Seq<u8>, lo: int, hi: int, k: int)
    requires
        sorted_marked_back(s, key, lo, hi),
        lo <= k < hi,
        s[k] < 0,
    ensures
        k > lo,
        key(unmark(s[k])) == key(unmark(s[k - 1])),
{
    reveal(sorted_marked_back);
}

/// Every entry of `s[first..last)` is a position whose key can be read through
/// `PA` (at offset `pab`) at `depth`, from outside the window.
pub open spec fn ss_sortable(t: Seq<u8>, s: Seq<i32>, pab: int, depth: int, first: int, last: int) -> bool {
    forall|q: int| first <= q < last ==> #[trigger] ss_entry_ok(t, s, pab, depth, first, last, s[q])
}

/// Entry value `v` is a position whose key can be read through `PA` at `depth`,
/// from outside the window `first..last`.
pub open spec fn ss_entry_ok(t: Seq<u8>, s: Seq<i32>, pab: int, depth: int, first: int, last: int, v: i32) -> bool {
    &&& v >= 0
    &&& ss_key_ok(t, s, pab + v, depth)
    &&& !(first <= pab + v < last)
    &&& !(first <= pab + v + 1 < last)
}

/// Where the entries stand after the shift, the optional mark and the placing of
/// `tv` before `j`.
proof fn lemma_place_back(
    s: Seq<i32>,
    s_mid: Seq<i32>,
    s_mark: Seq<i32>,
    s2: Seq<i32>,
    n: int,
    i: int,
    j: int,
    last: int,
    marks: bool,
    mw: i32,
    tv: i32,
)
    requires
        0 <= i < j <= last <= n,
        s.len() == n,
        s_mid.len() == n,
        marks ==> j < last,
        s_mark == (if marks { s_mid.update(j, mw) } else { s_mid }),
        s2 == s_mark.update(j - 1, tv),
        forall|q: int| 0 <= q < n && !(i <= q < j - 1) ==> s_mid[q] == s[q],
        forall|q: int| i <= q < j - 1 ==> s_mid[q] == s[q + 1],
    ensures
        s2.len() == n,
        forall|q: int| 0 <= q < n && !(i <= q < last) ==> s2[q] == s[q],
        forall|k: int| i <= k < j - 1 ==> s2[k] == s[k + 1],
        s2[j - 1] == tv,
        j < last ==> s2[j] == (if marks { mw } else { s[j] }),
        forall|k: int| j < k < last ==> s2[k] == s[k],
{
}

proof fn lemma_back_multiset(s: Seq<i32>, s2: Seq<i32>, s0: Seq<i32>, i: int, j: int, last: int, tv: i32)
    requires
        0 <= i < j <= last <= s0.len(),
        last <= s.len(),
        unmarked(s2, i, last) == unmarked(s, i + 1, j) + seq![tv] + unmarked(s, j, last),
        unmarked(s, i + 1, last).to_multiset() == s0.subrange(i + 1, last).to_multiset(),
        tv == s0[i],
    ensures
        unmarked(s2, i, last).to_multiset() == s0.subrange(i, last).to_multiset(),
{
    broadcast use vstd::seq_lib::group_to_multiset_ensures;
    broadcast use vstd::multiset::group_multiset_axioms;
    let p1 = unmarked(s, i + 1, j);
    let p2 = unmarked(s, j, last);
    assert(unmarked(s, i + 1, last) =~= p1 + p2);
    vstd::seq_lib::lemma_multiset_commutative(p1, p2);
    vstd::seq_lib::lemma_multiset_commutative(p1 + seq![tv], p2);
    vstd::seq_lib::lemma_multiset_commutative(p1, seq![tv]);
    vstd::seq_lib::lemma_multiset_commutative(seq![tv], s0.subrange(i + 1, last));
    assert(s0.subrange(i, last) =~= seq![tv] + s0.subrange(i + 1, last));
    assert(seq![tv] =~= Seq::<i32>::empty().push(tv));
    assert(unmarked(s2, i, last).to_multiset() =~= s0.subrange(i, last).to_multiset());
}

/// Insertion sort of `sa[first..last)` by `ss_compare` on the array `PA` found at
/// offset `pab` of the same buffer; entries equal to their predecessor are marked
/// by complementing them. When every entry's key can be read from outside the
/// window, the window ends sorted by key with exactly the ties marked.
#[verifier::spinoff_prover]
#[verifier::rlimit(60)]
fn ss_insertionsort_in(t: &[u8], sa: &mut [i32], pab: usize, first: usize, last: usize, depth: i32)
    requires
        first <= last <= old(sa)@.len(),
    ensures
        final(sa)@.len() == old(sa)@.len(),
        forall|q: int| 0 <= q < old(sa)@.len() && !(first <= q < last) ==> final(sa)@[q] == old(sa)@[q],
        ss_sortable(t@, old(sa)@, pab as int, depth as int, first as int, last as int) ==> {
            &&& sorted_marked_back(
                final(sa)@,
                pa_key(t@, old(sa)@, pab as int, depth as int),
                first as int,
                last as int,
            )
            &&& unmarked(final(sa)@, first as int, last as int).to_multiset() == old(sa)@.subrange(
                first as int,
                last as int,
            ).to_multiset()
        },
{
    let ghost n = sa@.len();
    let ghost s0 = sa@;
    let ghost key = pa_key(t@, s0, pab as int, depth as int);
    let ghost ok = ss_sortable(t@, s0, pab as int, depth as int, first as int, last as int);
    if last - first <= 1 {
        proof {
            reveal(sorted_marked_back);
            if ok && last - first == 1 {
                assert(ss_entry_ok(t@, s0, pab as int, depth as int, first as int, last as int, s0[first as int]));
                lemma_lex_irreflexive(key(s0[first as int]));
                assert(unmarked(sa@, first as int, last as int) =~= s0.subrange(first as int, last as int));
            } else if ok {
                assert(unmarked(sa@, first as int, last as int) =~= s0.subrange(first as int, last as int));
            }
        }
        return;
    }
    proof {
        reveal(sorted_marked_back);
        if ok {
            assert(ss_entry_ok(t@, s0, pab as int, depth as int, first as int, last as int, s0[last - 1]));
            lemma_lex_irreflexive(key(s0[last - 1]));
            assert(unmarked(sa@, last - 1, last as int) =~= s0.subrange(last - 1, last as int));
        }
    }
    let mut ii: usize = last - 1;
    while ii > first
        invariant
            first <= ii <= last - 1,
            last <= n,
            sa@.len() == n,
            s0.len() == n,
            key == pa_key(t@, s0, pab as int, depth as int),
            ok == ss_sortable(t@, s0, pab as int, depth as int, first as int, last as int),
            forall|q: int| 0 <= q < n && !(ii <= q < last) ==> sa@[q] == s0[q],
            ok ==> sorted_marked_back(sa@, key, ii as int, last as int),
            ok ==> unmarked(sa@, ii as int, last as int).to_multiset() == s0.subrange(
                ii as int,
                last as int,
            ).to_multiset(),
            ok ==> forall|q: int|
                ii <= q < last ==> ss_entry_ok(
                    t@,
                    s0,
                    pab as int,
                    depth as int,
                    first as int,
                    last as int,
                    #[trigger] unmark(sa@[q]),
                ),
        decreases ii,
    {
        let i = ii - 1;
        let ghost s = sa@;
        let tv = arr::get(sa, i);
        proof {
            if ok {
                assert(ss_entry_ok(t@, s0, pab as int, depth as int, first as int, last as int, s0[i as int]));
            }
        }
        proof {
            if ok {
                lemma_back_head(s, key, ii as int, last as int);
            }
        }
        let mut j = i + 1;
        let mut r: i32 = 0;
        loop
            invariant_except_break
                i < j < last,
            invariant
                i < j <= last,
                last <= n,
                first <= i,
                sa@.len() == n,
                s.len() == n,
                s0.len() == n,
                ii == i + 1,
                tv == s[i as int],
                tv == s0[i as int],
                key == pa_key(t@, s0, pab as int, depth as int),
                forall|q: int| 0 <= q < n && !(first <= q < last) ==> s[q] == s0[q],
                forall|q: int| 0 <= q < n && !(i <= q < j - 1) ==> sa@[q] == s[q],
                forall|k: int| i <= k < j - 1 ==> sa@[k] == s[k + 1],
                ok ==> ss_entry_ok(t@, s0, pab as int, depth as int, first as int, last as int, tv),
                ok ==> sorted_marked_back(s, key, ii as int, last as int),
                ok ==> forall|q: int|
                    ii <= q < last ==> ss_entry_ok(
                        t@,
                        s0,
                        pab as int,
                        depth as int,
                        first as int,
                        last as int,
                        #[trigger] unmark(s[q]),
                    ),
                ok ==> forall|k: int| i + 1 <= k < j ==> lex_lt(key(unmark(s[k])), key(tv)),
                ok ==> (j < last ==> s[j as int] >= 0),
            ensures
                i < j <= last,
                sa@.len() == n,
                forall|q: int| 0 <= q < n && !(i <= q < j - 1) ==> sa@[q] == s[q],
                forall|k: int| i <= k < j - 1 ==> sa@[k] == s[k + 1],
                ok ==> forall|k: int| i + 1 <= k < j ==> lex_lt(key(unmark(s[k])), key(tv)),
                r <= 0 ==> j < last,
                r > 0 ==> j == last,
                ok && r <= 0 ==> s[j as int] >= 0 && !lex_lt(key(s[j as int]), key(tv)) && (r == 0 <==> key(
                    s[j as int],
                ) == key(tv)),
            decreases last - j,
        {
            let sj = getidx(arr::get(sa, j));
            proof {
                if ok {
                    assert(sa@[j as int] == s[j as int]);
                    assert(ss_entry_ok(t@, s0, pab as int, depth as int, first as int, last as int, unmark(s[j as int])));
                    assert(sj == s[j as int]);
                    assert(sa@[pab + tv] == s0[pab + tv] && sa@[pab + tv + 1] == s0[pab + tv + 1]);
                    assert(sa@[pab + sj] == s0[pab + sj] && sa@[pab + sj + 1] == s0[pab + sj + 1]);
                }
            }
            let o1 = arr::offset(pab, tv);
            let o2 = pab.saturating_add(sj);
            let len_sa = sa.len();
            proof {
                if ok {
                    assert(o1 == pab + tv);
                    assert(o2 == pab + sj);
                    assert(ss_key(t@, sa@, o1 as int, depth as int) == key(tv));
                    assert(ss_key(t@, sa@, o2 as int, depth as int) == key(s[j as int]));
                    assert(ss_key_ok(t@, sa@, o1 as int, depth as int));
                    assert(ss_key_ok(t@, sa@, o2 as int, depth as int));
                }
            }
            r = ss_compare_checked(t, sa, o1, sa, o2, depth);
            if r <= 0 {
                break;
            }
            let mut hit_end = false;
            let ghost j0 = j;
            loop
                invariant_except_break
                    i < j < last,
                    j0 <= j,
                    !hit_end,
                    j > j0 ==> s[j as int] < 0,
                invariant
                    ii == i + 1,
                    i < j <= last,
                    last <= n,
                    sa@.len() == n,
                    s.len() == n,
                    r > 0,
                    forall|q: int| 0 <= q < n && !(i <= q < j - 1) ==> sa@[q] == s[q],
                    forall|k: int| i <= k < j - 1 ==> sa@[k] == s[k + 1],
                    ok ==> sorted_marked_back(s, key, ii as int, last as int),
                    ok ==> forall|k: int| i + 1 <= k < j ==> lex_lt(key(unmark(s[k])), key(tv)),
                    ok && j == j0 ==> lex_lt(key(unmark(s[j0 as int])), key(tv)),
                ensures
                    j0 < j <= last,
                    sa@.len() == n,
                    hit_end == (j == last),
                    forall|q: int| 0 <= q < n && !(i <= q < j - 1) ==> sa@[q] == s[q],
                    forall|k: int| i <= k < j - 1 ==> sa@[k] == s[k + 1],
                    ok ==> forall|k: int| i + 1 <= k < j ==> lex_lt(key(unmark(s[k])), key(tv)),
                    !hit_end ==> sa@[j as int] >= 0,
                decreases last - j,
            {
                proof {
                    if ok && j > j0 {
                        lemma_back_marked_key(s, key, ii as int, last as int, j as int);
                    }
                }
                let v = arr::get(sa, j);
                arr::set(sa, j - 1, v);
                j += 1;
                if j >= last {
                    hit_end = true;
                    break;
                }
                if arr::get(sa, j) >= 0 {
                    break;
                }
            }
            if hit_end {
                r = 1;
                break;
            }
        }
        let ghost s_mid = sa@;
        let ghost marks = r == 0;
        let ghost mw_g: i32 = 0;
        if r == 0 {
            let v = arr::get(sa, j);
            let mv = !v;
            proof {
                lemma_complement(v, mv);
                mw_g = mv;
                assert(v == s[j as int]);
            }
            arr::set(sa, j, mv);
        }
        let ghost s_mark = sa@;
        arr::set(sa, j - 1, tv);
        proof {
            lemma_place_back(s, s_mid, s_mark, sa@, n as int, i as int, j as int, last as int, marks, mw_g, tv);
            if ok {
                lemma_back_step(s, sa@, key, i as int, last as int, j as int, tv, marks);
                lemma_back_multiset(s, sa@, s0, i as int, j as int, last as int, tv);
                lemma_back_unmark(s, sa@, i as int, last as int, j as int, tv, marks);
                assert forall|q: int| i <= q < last implies ss_entry_ok(
                    t@,
                    s0,
                    pab as int,
                    depth as int,
                    first as int,
                    last as int,
                    #[trigger] unmark(sa@[q]),
                ) by {
                    assert(unmark(sa@[q]) == inserted_back(s, j as int, tv, q));
                }
            }
        }
        ii -= 1;
    }
}

/// Copies `src` followed by `pa` into one buffer, so that `pa` starts at offset `src.len()`.
fn joined(src: &[i32], pa: &[i32]) -> (b: Vec<i32>)
    ensures
        b@ == src@ + pa@,
{
    let mut b: Vec<i32> = Vec::new();
    let mut i: usize = 0;
    while i < src.len()
        invariant
            i <= src@.len(),
            b@ == src@.subrange(0, i as int),
        decreases src@.len() - i,
    {
        b.push(src[i]);
        i += 1;
    }
    let mut k: usize = 0;
    while k < pa.len()
        invariant
            k <= pa@.len(),
            b@ == src@ + pa@.subrange(0, k as int),
        decreases pa@.len() - k,
    {
        b.push(pa[k]);
        k += 1;
        proof {
            assert(pa@.subrange(0, k as int) =~= pa@.subrange(0, k - 1).push(pa@[k - 1]));
        }
    }
    proof {
        assert(src@.subrange(0, src@.len() as int) =~= src@);
        assert(pa@.subrange(0, pa@.len() as int) =~= pa@);
    }
    b
}

/// Copies the first `dst.len()` entries of `b` back into `dst`.
fn copy_back(dst: &mut [i32], b: &Vec<i32>)
    requires
        old(dst)@.len() <= b@.len(),
    ensures
        final(dst)@ == b@.subrange(0, old(dst)@.len() as int),
{
    let n = dst.len();
    let mut i: usize = 0;
    while i < n
        invariant
            i <= n,
            n == dst@.len(),
            n <= b@.len(),
            forall|k: int| 0 <= k < i ==> dst@[k] == b@[k],
        decreases n - i,
    {
        dst[i] = b[i];
        i += 1;
    }
    proof {
        assert(dst@ =~= b@.subrange(0, n as int));
    }
}

/// Insertion sort of `sa[first..last)`, whose entries index the separate array
/// `pa`, by the keys `ss_compare` compares (the text from `depth + pa[v]` up to
/// `pa[v + 1] + 2`). With every entry a position whose key lies in the text, the
/// window ends sorted by key, each entry that ties with its predecessor marked by
/// complementing it; nothing else changes.
pub fn ss_insertionsort_impl(t: &[u8], pa: &[i32], sa: &mut [i32], first: usize, last: usize, depth: i32)
    requires
        first <= last <= old(sa)@.len(),
        old(sa)@.len() + pa@.len() <= usize::MAX,
    ensures
        final(sa)@.len() == old(sa)@.len(),
        forall|q: int| 0 <= q < old(sa)@.len() && !(first <= q < last) ==> final(sa)@[q] == old(sa)@[q],
        (forall|q: int|
            first <= q < last ==> old(sa)@[q] >= 0 && ss_key_ok(t@, pa@, #[trigger] old(sa)@[q] as int, depth as int))
            ==> {
            &&& sorted_marked_back(final(sa)@, pa_key(t@, pa@, 0, depth as int), first as int, last as int)
            &&& unmarked(final(sa)@, first as int, last as int).to_multiset() == old(sa)@.subrange(
                first as int,
                last as int,
            ).to_multiset()
        },
{
    let ghost s_in = sa@;
    let pab = sa.len();
    let mut buf = joined(sa, pa);
    let ghost b0 = buf@;
    let ghost cond = forall|q: int|
        first <= q < last ==> s_in[q] >= 0 && ss_key_ok(t@, pa@, #[trigger] s_in[q] as int, depth as int);
    proof {
        if cond {
            assert forall|q: int| first <= q < last implies #[trigger] ss_entry_ok(
                t@,
                b0,
                pab as int,
                depth as int,
                first as int,
                last as int,
                b0[q],
            ) by {
                assert(b0[q] == s_in[q]);
                assert(ss_key_ok(t@, pa@, s_in[q] as int, depth as int));
                assert(b0[pab + s_in[q]] == pa@[s_in[q] as int]);
                assert(b0[pab + s_in[q] + 1] == pa@[s_in[q] + 1]);
            }
        }
    }
    ss_insertionsort_in(t, buf.as_mut_slice(), pab, first, last, depth);
    let ghost b1 = buf@;
    copy_back(sa, &buf);
    proof {
        assert(b0.subrange(first as int, last as int) =~= s_in.subrange(first as int, last as int));
        assert(unmarked(b1, first as int, last as int) =~= unmarked(sa@, first as int, last as int));
        if cond {
            let k1 = pa_key(t@, b0, pab as int, depth as int);
            let k2 = pa_key(t@, pa@, 0, depth as int);
            let u = unmarked(sa@, first as int, last as int);
            let w = s_in.subrange(first as int, last as int);
            assert(u.subrange(0, u.len() as int) =~= u);
            assert(w.subrange(0, w.len() as int) =~= w);
            lemma_window_pred(w, u, 0, w.len() as int, |v: i32| v >= 0 && ss_key_ok(t@, pa@, v as int, depth as int));
            assert forall|q: int| first <= q < last implies k1(unmark(#[trigger] sa@[q])) == k2(unmark(sa@[q])) by {
                assert(u[q - first] == unmark(sa@[q]));
                let v = unmark(sa@[q]);
                assert(b0[pab + v] == pa@[v as int]);
                assert(b0[pab + v + 1] == pa@[v + 1]);
            }
            assert(ss_sortable(t@, b0, pab as int, depth as int, first as int, last as int));
            lemma_back_copy(b1, sa@, k1, first as int, last as int);
            lemma_back_same_keys(sa@, k1, k2, first as int, last as int);
        }
    }
}

/// Sift-down in the max-heap `sa[base..base+size)` keyed by `Td[PA[*]]`. When `ok`
/// holds, every node after `i` is in heap order, the buffer agrees with `s0`
/// outside `klo..khi` (a span around the heap), and no heap entry points through
/// `PA` into that span; then every node from `i` on ends in heap order.
#[verifier::spinoff_prover]
#[verifier::rlimit(40)]
fn ss_fixdown(
    t: &[u8],
    td: usize,
    sa: &mut [i32],
    pab: usize,
    base: usize,
    i: usize,
    size: usize,
    Ghost(s0): Ghost<Seq<i32>>,
    Ghost(klo): Ghost<int>,
    Ghost(khi): Ghost<int>,
    Ghost(ok): Ghost<bool>,
)
    requires
        base + size <= old(sa)@.len(),
        old(sa)@.len() <= 0x7fff_ffff,
        ok ==> {
            &&& i <= size
            &&& s0.len() == old(sa)@.len()
            &&& klo <= base && base + size <= khi
            &&& forall|q: int| 0 <= q < s0.len() && !(klo <= q < khi) ==> old(sa)@[q] == s0[q]
            &&& forall|q: int| base <= q < base + size ==> !(klo <= pab + #[trigger] old(sa)@[q] < khi)
            &&& heap_from(
                old(sa)@,
                byte_key(t@, td as int, s0, pab as int),
                base as int,
                base + i + 1,
                base + size,
            )
        },
    ensures
        final(sa)@.len() == old(sa)@.len(),
        i <= size ==> forall|q: int|
            0 <= q < old(sa)@.len() && !(base + i <= q < base + size) ==> final(sa)@[q] == old(sa)@[q],
        ok ==> final(sa)@.to_multiset() == old(sa)@.to_multiset(),
        ok ==> heap_from(
            final(sa)@,
            byte_key(t@, td as int, s0, pab as int),
            base as int,
            base + i,
            base + size,
        ),
{
    let ghost n = sa@.len();
    let ghost sin = sa@;
    let ghost key = byte_key(t@, td as int, s0, pab as int);
    let ghost lo = base as int;
    let ghost hi = base + size;
    let ghost i0 = base + i;
    let mut i = i;
    let v = arr::get(sa, base.saturating_add(i));
    let c = key_byte(t, td, sa, pab, v);
    if i >= size {
        arr::set(sa, base.saturating_add(i), v);
        proof {
            if base + i < n {
                assert(sa@ =~= sin);
            }
        }
        return;
    }
    proof {
        assert(sa@.update(base + i, v) =~= sin);
        if ok {
            lemma_byte_key_stable(t@, td as int, s0, sin, pab as int, klo, khi, v);
        }
    }
    loop
        invariant
            i < size,
            base + size <= n,
            n <= 0x7fff_ffff,
            sa@.len() == n,
            sin.len() == n,
            lo == base,
            hi == base + size,
            lo <= i0 <= base + i,
            key == byte_key(t@, td as int, s0, pab as int),
            forall|q: int| 0 <= q < n && !(i0 <= q < hi) ==> sa@[q] == sin[q],
            forall|q: int| 0 <= q < n && !(i0 <= q < hi) ==> sa@.update(base + i, v)[q] == sin[q],
            ok ==> s0.len() == n && klo <= lo && hi <= khi,
            ok ==> forall|q: int| 0 <= q < n && !(klo <= q < khi) ==> sin[q] == s0[q],
            ok ==> forall|q: int| lo <= q < hi ==> !(klo <= pab + #[trigger] sin[q] < khi),
            ok ==> c == key(v),
            ok ==> sa@.update(base + i, v).to_multiset() == sin.to_multiset(),
            ok ==> forall|q: int|
                i0 <= q < hi && q != base + i ==> #[trigger] heap_node(
                    sa@.update(base + i, v),
                    key,
                    lo,
                    hi,
                    q,
                ),
            ok && base + i > i0 ==> ({
                let vs = sa@.update(base + i, v);
                let p = hparent(lo, base + i);
                &&& i0 <= p < base + i
                &&& hchild(lo, p) == base + i || hchild(lo, p) + 1 == base + i
                &&& c <= key(vs[p])
                &&& (hchild(lo, base + i) < hi ==> key(vs[hchild(lo, base + i)]) <= key(vs[p]))
                &&& (hchild(lo, base + i) + 1 < hi ==> key(vs[hchild(lo, base + i) + 1]) <= key(vs[p]))
            }),
        ensures
            i < size,
            sa@.len() == n,
            forall|q: int| 0 <= q < n && !(i0 <= q < hi) ==> sa@.update(base + i, v)[q] == sin[q],
            ok ==> sa@.update(base + i, v).to_multiset() == sin.to_multiset(),
            ok ==> forall|q: int|
                i0 <= q < hi ==> #[trigger] heap_node(sa@.update(base + i, v), key, lo, hi, q),
        decreases size - i,
    {
        let ghost vs = sa@.update(base + i, v);
        let j = 2 * i + 1;
        if j >= size {
            proof {
                if ok {
                    assert(heap_node(vs, key, lo, hi, base + i));
                }
            }
            break;
        }
        proof {
            if ok {
                lemma_window_multiset(sin, vs, lo, hi);
                lemma_window_pred(sin, vs, lo, hi, |w: i32| !(klo <= pab + w < khi));
                assert(vs[base + j] == sa@[base + j]);
                lemma_byte_key_stable(t@, td as int, s0, sa@, pab as int, klo, khi, sa@[base + j]);
                if j + 1 < size {
                    assert(vs[base + j + 1] == sa@[base + j + 1]);
                    lemma_byte_key_stable(t@, td as int, s0, sa@, pab as int, klo, khi, sa@[base + j + 1]);
                }
            }
        }
        let mut k = j;
        let d_k = key_byte(t, td, sa, pab, arr::get(sa, base + k));
        let j1 = j + 1;
        let d = if j1 < size {
            let e = key_byte(t, td, sa, pab, arr::get(sa, base + j1));
            if d_k < e {
                k = j1;
                e
            } else {
                d_k
            }
        } else {
            d_k
        };
        if d <= c {
            proof {
                if ok {
                    assert(heap_node(vs, key, lo, hi, base + i));
                }
            }
            break;
        }
        let w = arr::get(sa, base + k);
        arr::set(sa, base + i, w);
        proof {
            let vs2 = sa@.update(base + k, v);
            assert(vs2 =~= vs.update(base + i, vs[base + k]).update(base + k, vs[base + i]));
            assert(hparent(lo, base + k) == base + i);
            if ok {
                lemma_swap_multiset(vs, base + i, base + k);
                assert forall|q: int| i0 <= q < hi && q != base + k implies #[trigger] heap_node(vs2, key, lo, hi, q) by {
                    if q == base + i {
                    } else if base + i > i0 && q == hparent(lo, base + i) {
                        assert(heap_node(vs, key, lo, hi, q));
                    } else {
                        assert(heap_node(vs, key, lo, hi, q));
                        assert(hchild(lo, q) != base + i && hchild(lo, q) + 1 != base + i);
                        assert(hchild(lo, q) != base + k && hchild(lo, q) + 1 != base + k);
                    }
                }
                assert(heap_node(vs, key, lo, hi, base + k));
            }
        }
        i = k;
    }
    arr::set(sa, base + i, v);
}

/// Rearranging a window keeps it from pointing into itself.
proof fn lemma_apart_kept(s0: Seq<i32>, s1: Seq<i32>, pab: int, lo: int, hi: int)
    requires
        0 <= lo <= hi <= s0.len(),
        s1.len() == s0.len(),
        s1.to_multiset() == s0.to_multiset(),
        forall|q: int| 0 <= q < s0.len() && !(lo <= q < hi) ==> s1[q] == s0[q],
        forall|q: int| lo <= q < hi ==> !(lo <= pab + #[trigger] s0[q] < hi),
    ensures
        forall|q: int| lo <= q < hi ==> !(lo <= pab + #[trigger] s1[q] < hi),
{
    lemma_window_multiset(s0, s1, lo, hi);
    lemma_window_pred(s0, s1, lo, hi, |w: i32| !(lo <= pab + w < hi));
}

/// Heapsort of `sa[first..first+size)` by `Td[PA[*]]`. When the window does not
/// point through `PA` into itself, it ends sorted by that key.
#[verifier::spinoff_prover]
#[verifier::rlimit(60)]
fn ss_heapsort_in(t: &[u8], td: usize, sa: &mut [i32], pab: usize, first: usize, size: usize)
    requires
        first + size <= old(sa)@.len(),
        old(sa)@.len() <= 0x7fff_ffff,
    ensures
        final(sa)@.len() == old(sa)@.len(),
        forall|q: int|
            0 <= q < old(sa)@.len() && !(first <= q < first + size) ==> final(sa)@[q] == old(sa)@[q],
        pa_apart(old(sa)@, pab as int, first as int, first + size) ==> final(sa)@.subrange(
            first as int,
            first + size,
        ).to_multiset() == old(sa)@.subrange(first as int, first + size).to_multiset(),
        pa_apart(old(sa)@, pab as int, first as int, first + size) ==> sorted_by(
            final(sa)@,
            byte_key(t@, td as int, old(sa)@, pab as int),
            first as int,
            first + size,
        ),
{
    let ghost n = sa@.len();
    let ghost s0 = sa@;
    let ghost key = byte_key(t@, td as int, s0, pab as int);
    let ghost ok = pa_apart(s0, pab as int, first as int, first + size);
    let ghost hi = first + size;
    let ghost even = size % 2 == 0 && size > 0;
    let mut m = size;
    if size % 2 == 0 && size > 0 {
        m -= 1;
        if key_byte(t, td, sa, pab, arr::get(sa, first + m / 2)) < key_byte(
            t,
            td,
            sa,
            pab,
            arr::get(sa, first + m),
        ) {
            proof {
                if ok {
                    lemma_swap_multiset(sa@, (first + m) as int, (first + m / 2) as int);
                }
            }
            arr::swap(sa, first + m, first + m / 2);
        }
    }
    proof {
        if ok {
            lemma_apart_kept(s0, sa@, pab as int, first as int, hi);
        }
    }
    let ghost x = sa@[first + m];
    let ghost y0 = sa@[first + m / 2];
    proof {
        broadcast use vstd::seq_lib::group_to_multiset_ensures;
        if ok {
            if even {
                assert(sa@.subrange(first as int, first + m)[(m / 2) as int] == y0);
                assert(sa@.subrange(first as int, first + m).contains(y0));
            }
        }
    }
    if m >= 2 {
        let mut i = m / 2;
        loop
            invariant
                i <= m / 2,
                2 <= m <= size,
                first + size <= n,
                n <= 0x7fff_ffff,
                sa@.len() == n,
                hi == first + size,
                key == byte_key(t@, td as int, s0, pab as int),
                s0.len() == n,
                ok == pa_apart(s0, pab as int, first as int, first + size),
                ok ==> forall|q: int| first <= q < hi ==> !(first <= pab + #[trigger] sa@[q] < hi),
                even ==> m + 1 == size,
                ok ==> sa@.to_multiset() == s0.to_multiset(),
                forall|q: int| 0 <= q < n && !(first <= q < hi) ==> sa@[q] == s0[q],
                ok ==> heap_from(sa@, key, first as int, first + i + 1, first + m),
                ok && even ==> sa@[first + m] == x && key(x) <= key(y0) && sa@.subrange(first as int, first + m).to_multiset().count(y0) > 0,
            ensures
                sa@.len() == n,
                ok ==> sa@.to_multiset() == s0.to_multiset(),
                forall|q: int| 0 <= q < n && !(first <= q < hi) ==> sa@[q] == s0[q],
                ok ==> heap_from(sa@, key, first as int, first as int, first + m),
                ok ==> forall|q: int| first <= q < hi ==> !(first <= pab + #[trigger] sa@[q] < hi),
                ok && even ==> sa@[first + m] == x && key(x) <= key(y0) && sa@.subrange(first as int, first + m).to_multiset().count(y0) > 0,
            decreases i,
        {
            let ghost before = sa@;
            ss_fixdown(t, td, sa, pab, first, i, m, Ghost(s0), Ghost(first as int), Ghost(hi), Ghost(ok));
            proof {
                if ok {
                    lemma_window_multiset(before, sa@, first as int, first + m);
                    lemma_apart_kept(before, sa@, pab as int, first as int, hi);
                }
            }
            if i == 0 {
                break;
            }
            i -= 1;
        }
    }
    proof {
        if ok {
            if m < 2 {
                assert(heap_from(sa@, key, first as int, first as int, first + m));
            }
        }
    }
    if size % 2 == 0 && size > 0 {
        let ghost big = sa@[first as int];
        proof {
            broadcast use vstd::seq_lib::group_to_multiset_ensures;
            if ok {
                let w = sa@.subrange(first as int, first + m);
                assert(w.contains(y0));
                let r = choose|r: int| 0 <= r < w.len() && w[r] == y0;
                assert(sa@[first + r] == y0);
                lemma_heap_root_max(sa@, key, first as int, first + m, first + r);
                assert forall|q: int| first <= q < first + m + 1 implies key(#[trigger] sa@[q]) <= key(big) by {
                    if q < first + m {
                        lemma_heap_root_max(sa@, key, first as int, first + m, q);
                    }
                }
                lemma_swap_multiset(sa@, first as int, (first + m) as int);
            }
        }
        let ghost before = sa@;
        arr::swap(sa, first, first + m);
        proof {
            if ok {
                lemma_window_multiset(before, sa@, first as int, first + m + 1);
                lemma_window_bound(before, sa@, key, first as int, first + m + 1, key(big));
                assert forall|q: int| first + 1 <= q < first + m implies #[trigger] heap_node(sa@, key, first as int, first + m, q) by {
                    assert(heap_node(before, key, first as int, first + m, q));
                }
            }
        }
        let ghost before2 = sa@;
        ss_fixdown(t, td, sa, pab, first, 0, m, Ghost(s0), Ghost(first as int), Ghost(hi), Ghost(ok));
        proof {
            if ok {
                lemma_window_multiset(before2, sa@, first as int, first + m + 1);
                lemma_apart_kept(s0, sa@, pab as int, first as int, hi);
                lemma_window_bound(before2, sa@, key, first as int, first + m + 1, key(big));
                assert(sa@[first + m] == big);
            }
        }
    }
    let mut i = m;
    while i > 0
        invariant
            i <= m <= size,
            first + size <= n,
            n <= 0x7fff_ffff,
            sa@.len() == n,
            hi == first + size,
            key == byte_key(t@, td as int, s0, pab as int),
            s0.len() == n,
            ok == pa_apart(s0, pab as int, first as int, first + size),
            ok ==> forall|q: int| first <= q < hi ==> !(first <= pab + #[trigger] sa@[q] < hi),
            ok ==> sa@.to_multiset() == s0.to_multiset(),
            forall|q: int| 0 <= q < n && !(first <= q < hi) ==> sa@[q] == s0[q],
            ok ==> heap_from(sa@, key, first as int, first as int, first + i),
            ok ==> sorted_by(sa@, key, first + i, hi),
            ok ==> forall|a: int, b: int|
                first <= a < first + i && first + i <= b < hi ==> key(#[trigger] sa@[a]) <= key(
                    #[trigger] sa@[b],
                ),
        decreases i,
    {
        i -= 1;
        let ghost s = sa@;
        let tv = arr::get(sa, first);
        let w = arr::get(sa, first + i);
        proof {
            if ok {
                assert forall|q: int| first <= q < first + i + 1 implies key(#[trigger] s[q]) <= key(tv) by {
                    lemma_heap_root_max(s, key, first as int, first + i + 1, q);
                }
            }
        }
        arr::set(sa, first, w);
        let ghost s1 = sa@;
        proof {
            if ok {
                assert forall|q: int| first + 1 <= q < first + i implies #[trigger] heap_node(s1, key, first as int, first + i, q) by {
                    assert(heap_node(s, key, first as int, first + i + 1, q));
                }
            }
        }
        ss_fixdown(t, td, sa, pab, first, 0, i, Ghost(s0), Ghost(first as int), Ghost(hi), Ghost(ok));
        let ghost s2 = sa@;
        arr::set(sa, first + i, tv);
        proof {
            if ok {
                assert forall|q: int| first <= q < first + i implies #[trigger] heap_node(sa@, key, first as int, first + i, q) by {
                    assert(heap_node(s2, key, first as int, first + i, q));
                }
                lemma_extract_multiset(s, s2, first as int, (first + i) as int);
                lemma_apart_kept(s, sa@, pab as int, first as int, hi);
                // the window [first, first+i] holds the same entries as before
                lemma_window_multiset(s, sa@, first as int, first + i + 1);
                lemma_window_bound(s, sa@, key, first as int, first + i + 1, key(tv));
                assert forall|a: int, b: int|
                    first <= a < first + i && first + i <= b < hi implies key(#[trigger] sa@[a]) <= key(
                    #[trigger] sa@[b],
                ) by {
                    if b == first + i {
                    } else {
                        assert forall|q: int| first <= q < first + i + 1 implies key(#[trigger] s[q]) <= key(s[b]) by {
                        }
                        lemma_window_bound(s, sa@, key, first as int, first + i + 1, key(s[b]));
                        assert(sa@[b] == s[b]);
                    }
                }
                assert forall|a: int, b: int| first + i <= a <= b < hi implies key(#[trigger] sa@[a]) <= key(
                    #[trigger] sa@[b],
                ) by {
                    if a == first + i {
                        if b > a {
                            assert(key(s[first as int]) <= key(s[b]));
                            assert(sa@[b] == s[b]);
                        }
                    } else {
                        assert(sa@[a] == s[a] && sa@[b] == s[b]);
                    }
                }
            }
        }
    }
    proof {
        if ok {
            lemma_window_multiset(s0, sa@, first as int, hi);
        }
    }
}

/// Heapsort of `sa[first..first+size)` by `td[pa[pab + *]]`, where `pa` is separate
/// from `sa`: with nonnegative entries, the window is rearranged into
/// nondecreasing order of that byte, and nothing else changes.
pub fn ss_heapsort(td: &[u8], pa: &[i32], pab: usize, sa: &mut [i32], first: usize, size: usize)
    requires
        first + size <= old(sa)@.len(),
        old(sa)@.len() + pa@.len() <= 0x7fff_ffff,
    ensures
        final(sa)@.len() == old(sa)@.len(),
        forall|q: int|
            0 <= q < old(sa)@.len() && !(first <= q < first + size) ==> final(sa)@[q] == old(sa)@[q],
        (forall|q: int| first <= q < first + size ==> old(sa)@[q] >= 0) ==> final(sa)@.subrange(
            first as int,
            first + size,
        ).to_multiset() == old(sa)@.subrange(first as int, first + size).to_multiset(),
        (forall|q: int| first <= q < first + size ==> old(sa)@[q] >= 0) ==> sorted_by(
            final(sa)@,
            byte_key(td@, 0, pa@, pab as int),
            first as int,
            first + size,
        ),
{
    let ghost s_in = sa@;
    let off = sa.len();
    let mut buf = joined(sa, pa);
    let pab2 = off.saturating_add(pab);
    let ghost b0 = buf@;
    let ghost nonneg = forall|q: int| first <= q < first + size ==> s_in[q] >= 0;
    proof {
        if nonneg {
            assert forall|q: int| first <= q < first + size implies !(first <= pab2 + #[trigger] b0[q] < first
                + size) by {
                assert(b0[q] == s_in[q]);
            }
            assert(pa_apart(b0, pab2 as int, first as int, first + size));
        }
    }
    ss_heapsort_in(td, 0, buf.as_mut_slice(), pab2, first, size);
    let ghost b1 = buf@;
    copy_back(sa, &buf);
    proof {
        assert(b0.subrange(first as int, first + size) =~= s_in.subrange(first as int, first + size));
        assert(b1.subrange(first as int, first + size) =~= sa@.subrange(first as int, first + size));
        if nonneg {
            let kb = byte_key(td@, 0, b0, pab2 as int);
            let kp = byte_key(td@, 0, pa@, pab as int);
            lemma_window_pred(b0, b1, first as int, first + size, |w: i32| w >= 0);
            assert forall|a: int, b: int| first <= a <= b < first + size implies kp(#[trigger] sa@[a]) <= kp(
                #[trigger] sa@[b],
            ) by {
                assert(sa@[a] == b1[a] && sa@[b] == b1[b]);
                assert(kb(b1[a]) <= kb(b1[b]));
                assert(b1[a] >= 0 && b1[b] >= 0);
                assert(kb(b1[a]) == kp(b1[a]));
                assert(kb(b1[b]) == kp(b1[b]));
            }
        }
    }
}

/// Index among `v1`, `v2`, `v3` whose key is the median.
fn ss_median3_idx(t: &[u8], td: usize, sa: &[i32], pab: usize, v1: usize, v2: usize, v3: usize) -> (r: usize)
    ensures
        r == v1 || r == v2 || r == v3,
{
    let mut v1 = v1;
    let mut v2 = v2;
    let ghost (o1, o2) = (v1, v2);
    if key_byte(t, td, sa, pab, arr::get(sa, v1)) > key_byte(t, td, sa, pab, arr::get(sa, v2)) {
        let tmp = v1;
        v1 = v2;
        v2 = tmp;
    }
    if key_byte(t, td, sa, pab, arr::get(sa, v2)) > key_byte(t, td, sa, pab, arr::get(sa, v3)) {
        if key_byte(t, td, sa, pab, arr::get(sa, v1)) > key_byte(t, td, sa, pab, arr::get(sa, v3)) {
            return v1;
        } else {
            return v3;
        }
    }
    v2
}

/// Index among the five given whose key is the median.
fn ss_median5_idx(t: &[u8], td: usize, sa: &[i32], pab: usize, v: [usize; 5]) -> (r: usize)
    ensures
        r == v[0] || r == v[1] || r == v[2] || r == v[3] || r == v[4],
{
    let mut v1 = v[0];
    let mut v2 = v[1];
    let mut v3 = v[2];
    let mut v4 = v[3];
    let mut v5 = v[4];
    if key_byte(t, td, sa, pab, arr::get(sa, v2)) > key_byte(t, td, sa, pab, arr::get(sa, v3)) {
        let tmp = v2;
        v2 = v3;
        v3 = tmp;
    }
    if key_byte(t, td, sa, pab, arr::get(sa, v4)) > key_byte(t, td, sa, pab, arr::get(sa, v5)) {
        let tmp = v4;
        v4 = v5;
        v5 = tmp;
    }
    if key_byte(t, td, sa, pab, arr::get(sa, v2)) > key_byte(t, td, sa, pab, arr::get(sa, v4)) {
        let tmp = v2;
        v2 = v4;
        v4 = tmp;
        let tmp = v3;
        v3 = v5;
        v5 = tmp;
    }
    if key_byte(t, td, sa, pab, arr::get(sa, v1)) > key_byte(t, td, sa, pab, arr::get(sa, v3)) {
        let tmp = v1;
        v1 = v3;
        v3 = tmp;
    }
    if key_byte(t, td, sa, pab, arr::get(sa, v1)) > key_byte(t, td, sa, pab, arr::get(sa, v4)) {
        let tmp = v1;
        v1 = v4;
        v4 = tmp;
        let tmp = v3;
        v3 = v5;
        v5 = tmp;
    }
    if key_byte(t, td, sa, pab, arr::get(sa, v3)) > key_byte(t, td, sa, pab, arr::get(sa, v4)) {
        v4
    } else {
        v3
    }
}

/// Pivot for `sa[first..last)`: median of 3, of 5, or pseudo-median of 9 by range size.
fn ss_pivot_idx(t: &[u8], td: usize, sa: &[i32], pab: usize, first: usize, last: usize) -> (r: usize)
    requires
        first < last <= sa@.len(),
        sa@.len() <= 0x7fff_ffff,
    ensures
        first <= r < last,
{
    let len = last - first;
    let middle = first + len / 2;
    if len <= 512 {
        if len <= 32 {
            ss_median3_idx(t, td, sa, pab, first, middle, last - 1)
        } else {
            let t2 = len / 4;
            ss_median5_idx(t, td, sa, pab, [first, first + t2, middle, last - 1 - t2, last - 1])
        }
    } else {
        let t2 = len / 8;
        let f = ss_median3_idx(t, td, sa, pab, first, first + t2, first + 2 * t2);
        let m = ss_median3_idx(t, td, sa, pab, middle - t2, middle, middle + t2);
        let l = ss_median3_idx(t, td, sa, pab, last - 1 - 2 * t2, last - 1 - t2, last - 1);
        ss_median3_idx(t, td, sa, pab, f, m, l)
    }
}

/// `s` agrees with `s0` outside `[lo, hi)`.
pub open spec fn same_outside(s0: Seq<i32>, s: Seq<i32>, lo: int, hi: int) -> bool {
    &&& s.len() == s0.len()
    &&& forall|q: int| 0 <= q < s0.len() && !(lo <= q < hi) ==> #[trigger] s[q] == s0[q]
}

/// Marks (complements) `sa[i]`.
fn flip_entry(sa: &mut [i32], i: usize, Ghost(s0): Ghost<Seq<i32>>, Ghost(lo): Ghost<int>, Ghost(hi): Ghost<int>)
    requires
        0 <= lo <= i < hi <= old(sa)@.len(),
        same_outside(s0, old(sa)@, lo, hi),
    ensures
        final(sa)@ == old(sa)@.update(i as int, -(old(sa)@[i as int] + 1) as i32),
        same_outside(s0, final(sa)@, lo, hi),
        unmarked(final(sa)@, lo, hi) == unmarked(old(sa)@, lo, hi),
{
    let v = sa[i];
    let mv = !v;
    proof {
        assert(mv == -(v + 1)) by (bit_vector)
            requires
                mv == !v,
        ;
        assert(unmark(mv) == unmark(v));
        assert(unmarked(sa@.update(i as int, mv), lo, hi) =~= unmarked(sa@, lo, hi));
    }
    sa[i] = mv;
}

/// Moves the unmarked `sa[b]` to `a`, marked, and `sa[a]` to `b`.
fn swap_marking(sa: &mut [i32], a: usize, b: usize, Ghost(s0): Ghost<Seq<i32>>, Ghost(lo): Ghost<int>, Ghost(hi): Ghost<int>)
    requires
        0 <= lo <= a < b < hi <= old(sa)@.len(),
        same_outside(s0, old(sa)@, lo, hi),
    ensures
        final(sa)@ == old(sa)@.update(b as int, old(sa)@[a as int]).update(
            a as int,
            -(old(sa)@[b as int] + 1) as i32,
        ),
        same_outside(s0, final(sa)@, lo, hi),
        old(sa)@[a as int] >= 0 && old(sa)@[b as int] >= 0 ==> unmarked(final(sa)@, lo, hi).to_multiset() == unmarked(
            old(sa)@,
            lo,
            hi,
        ).to_multiset(),
{
    let vb = sa[b];
    let tv = !vb;
    let w = sa[a];
    proof {
        assert(tv == -(vb + 1)) by (bit_vector)
            requires
                tv == !vb,
        ;
        if w >= 0 && vb >= 0 {
            let u0 = unmarked(sa@, lo, hi);
            let s2 = sa@.update(b as int, w).update(a as int, tv);
            assert(unmark(tv) == vb);
            assert(u0[b - lo] == vb);
            assert(u0[a - lo] == w);
            assert(unmarked(s2, lo, hi) =~= u0.update(a - lo, u0[b - lo]).update(b - lo, u0[a - lo]));
            lemma_swap_multiset(u0, a - lo, b - lo);
        }
    }
    sa[b] = w;
    sa[a] = tv;
}

/// Splits `sa[first..last)` into the entries whose suffix ends within the depth
/// sorted so far (moved to the front, marked but for the first) and the rest.
/// Only moves and marks entries of the window.
fn ss_partition(sa: &mut [i32], pab: usize, first: usize, last: usize, depth: i32) -> (r: usize)
    requires
        first <= last <= old(sa)@.len(),
    ensures
        final(sa)@.len() == old(sa)@.len(),
        first <= r <= last,
        same_outside(old(sa)@, final(sa)@, first as int, last as int),
        (forall|q: int| first <= q < last ==> old(sa)@[q] >= 0) ==> unmarked(final(sa)@, first as int, last as int).to_multiset()
            == old(sa)@.subrange(first as int, last as int).to_multiset(),
{
    let ghost n = sa@.len();
    let ghost s0 = sa@;
    let ghost lo = first as int;
    let ghost hi = last as int;
    let ghost ok = forall|q: int| first <= q < last ==> s0[q] >= 0;
    proof {
        if ok {
            assert(unmarked(sa@, lo, hi) =~= s0.subrange(lo, hi));
        }
    }
    let mut a = first;
    let mut b = last;
    loop
        invariant
            first <= a <= b <= last,
            last <= n,
            sa@.len() == n,
            s0.len() == n,
            lo == first, hi == last,
            ok == (forall|q: int| first <= q < last ==> s0[q] >= 0),
            same_outside(s0, sa@, lo, hi),
            ok ==> forall|q: int| first <= q < a ==> #[trigger] sa@[q] < 0,
            ok ==> forall|q: int| a <= q < last ==> #[trigger] sa@[q] >= 0,
            ok ==> unmarked(sa@, lo, hi).to_multiset() == s0.subrange(lo, hi).to_multiset(),
        decreases b - a,
    {
        let ghost (a0, b0) = (a, b);
        loop
            invariant
                first <= a <= b <= last,
                a0 <= a,
                b == b0,
                last <= n,
                sa@.len() == n,
                s0.len() == n,
                lo == first, hi == last,
                same_outside(s0, sa@, lo, hi),
                ok ==> forall|q: int| first <= q < a ==> #[trigger] sa@[q] < 0,
                ok ==> forall|q: int| a <= q < last ==> #[trigger] sa@[q] >= 0,
                ok ==> unmarked(sa@, lo, hi).to_multiset() == s0.subrange(lo, hi).to_multiset(),
            decreases b - a,
        {
            if a >= b {
                break;
            }
            let v = arr::get(sa, a);
            if pa_val(sa, pab, v).wrapping_add(depth) < pa_val(sa, pab, v.wrapping_add(1)).wrapping_add(1) {
                break;
            }
            flip_entry(sa, a, Ghost(s0), Ghost(lo), Ghost(hi));
            a += 1;
        }
        loop
            invariant
                first <= a <= b <= last,
                a0 <= a,
                b <= b0,
                last <= n,
                sa@.len() == n,
                s0.len() == n,
                lo == first, hi == last,
                same_outside(s0, sa@, lo, hi),
                ok ==> forall|q: int| first <= q < a ==> #[trigger] sa@[q] < 0,
                ok ==> forall|q: int| a <= q < last ==> #[trigger] sa@[q] >= 0,
                ok ==> unmarked(sa@, lo, hi).to_multiset() == s0.subrange(lo, hi).to_multiset(),
            ensures
                first <= a <= b <= last,
                b <= a || b < last,
                sa@.len() == n,
                same_outside(s0, sa@, lo, hi),
                ok ==> forall|q: int| first <= q < a ==> #[trigger] sa@[q] < 0,
                ok ==> forall|q: int| a <= q < last ==> #[trigger] sa@[q] >= 0,
                ok ==> unmarked(sa@, lo, hi).to_multiset() == s0.subrange(lo, hi).to_multiset(),
            decreases b - a,
        {
            if b <= a {
                break;
            }
            b -= 1;
            let v = arr::get(sa, b);
            if pa_val(sa, pab, v).wrapping_add(depth) >= pa_val(sa, pab, v.wrapping_add(1)).wrapping_add(1) {
                break;
            }
        }
        if b <= a {
            break;
        }
        proof {
            if ok {
                assert(sa@[a as int] >= 0);
                assert(sa@[b as int] >= 0);
            }
        }
        swap_marking(sa, a, b, Ghost(s0), Ghost(lo), Ghost(hi));
        a += 1;
    }
    if first < a {
        flip_entry(sa, first, Ghost(s0), Ghost(lo), Ghost(hi));
    }
    a
}

/// The key `Td[PA[sa[i]]]` of the entry at `i` inside the window `[lo, hi)`: when the
/// window, as first given, points through `PA` outside itself, the key is the one
/// read in the buffer as first given.
fn key_in(t: &[u8], td: usize, sa: &[i32], pab: usize, i: usize, Ghost(s0): Ghost<Seq<i32>>, Ghost(lo): Ghost<int>, Ghost(hi): Ghost<int>) -> (r: i32)
    requires
        0 <= lo <= i < hi <= sa@.len(),
        kept(s0, sa@, lo, hi),
    ensures
        pa_apart(s0, pab as int, lo, hi) ==> r == byte_key(t@, td as int, s0, pab as int)(sa@[i as int]),
{
    proof {
        if pa_apart(s0, pab as int, lo, hi) {
            lemma_apart_kept(s0, sa@, pab as int, lo, hi);
            lemma_byte_key_stable(t@, td as int, s0, sa@, pab as int, lo, hi, sa@[i as int]);
        }
    }
    key_byte(t, td, sa, pab, arr::get(sa, i))
}

/// Bentley-McIlroy three-way partition of `sa[first..last)` around the key `v` of
/// the pivot entry at `sa[first]`. Returns `None` when every key equals `v`, and
/// otherwise the bounds `(a, c)` with the keys below `v` in `[first, a)`, equal to
/// it in `[a, c)` and above it in `[c, last)`: stated for a window that does not
/// point through `PA` into itself (so that moving entries leaves the keys alone).
#[verifier::rlimit(40)]
#[verifier::spinoff_prover]
fn ss_partition_around(t: &[u8], td: usize, sa: &mut [i32], pab: usize, first: usize, last: usize, v: i32) -> (r: Option<(usize, usize)>)
    requires
        first < last <= old(sa)@.len(),
    ensures
        final(sa)@.len() == old(sa)@.len(),
        kept(old(sa)@, final(sa)@, first as int, last as int),
        r matches Some((a, c)) ==> first <= a <= c <= last,
        pa_apart(old(sa)@, pab as int, first as int, last as int) && byte_key(t@, td as int, old(sa)@, pab as int)(
            old(sa)@[first as int],
        ) == v ==> ({
            let key = byte_key(t@, td as int, old(sa)@, pab as int);
            &&& (r is None <==> keys_at(old(sa)@, key, first as int, last as int, v as int))
            &&& r is None ==> keys_at(final(sa)@, key, first as int, last as int, v as int)
            &&& r matches Some((a, c)) ==> {
                &&& keys_below(final(sa)@, key, first as int, a as int, v as int)
                &&& keys_at(final(sa)@, key, a as int, c as int, v as int)
                &&& keys_above(final(sa)@, key, c as int, last as int, v as int)
            }
        }),
{
    let ghost n = sa@.len();
    let ghost s0 = sa@;
    let ghost key = byte_key(t@, td as int, s0, pab as int);
    let ghost lo = first as int;
    let ghost hi = last as int;
    let ghost vv = v as int;
    let ghost ok = pa_apart(s0, pab as int, lo, hi) && key(s0[lo]) == vv;
    let mut b = first + 1;
    let mut x = 0i32;
    while b < last
        invariant
            first < b <= last,
            last <= n,
            sa@ == s0,
            s0.len() == n,
            lo == first, hi == last, vv == v,
            key == byte_key(t@, td as int, s0, pab as int),
            ok == (pa_apart(s0, pab as int, lo, hi) && key(s0[lo]) == vv),
            ok ==> keys_at(s0, key, lo, b as int, vv),
        ensures
            first < b <= last,
            ok ==> keys_at(s0, key, lo, b as int, vv),
            ok && b < last ==> x == key(s0[b as int]) && x != v,
        decreases last - b,
    {
        x = key_in(t, td, sa, pab, b, Ghost(s0), Ghost(lo), Ghost(hi));
        if x != v {
            break;
        }
        b += 1;
    }
    let mut a = b;
    if a < last && x < v {
        b += 1;
        while b < last
            invariant
                first < a < b <= last,
                last <= n,
                s0.len() == n, sa@.len() == n,
                lo == first, hi == last, vv == v,
                key == byte_key(t@, td as int, s0, pab as int),
                ok ==> pa_apart(s0, pab as int, lo, hi),
                kept(s0, sa@, lo, hi),
                ok ==> keys_at(sa@, key, lo, a as int, vv),
                ok ==> keys_below(sa@, key, a as int, b as int, vv),
            ensures
                first < a < b <= last,
                kept(s0, sa@, lo, hi),
                ok ==> keys_at(sa@, key, lo, a as int, vv),
                ok ==> keys_below(sa@, key, a as int, b as int, vv),
                ok && b < last ==> key(sa@[b as int]) > vv,
            decreases last - b,
        {
            x = key_in(t, td, sa, pab, b, Ghost(s0), Ghost(lo), Ghost(hi));
            if x > v {
                break;
            }
            if x == v {
                swap_within(sa, b, a, Ghost(s0), Ghost(lo), Ghost(hi));
                a += 1;
            }
            b += 1;
        }
    }
    proof {
        assert(kept(s0, sa@, lo, hi));
    }
    let ghost all_eq = b == last && a == last;
    let mut c = last;
    loop
        invariant_except_break
            b <= c,
            ok ==> keys_at(sa@, key, c as int, hi, vv),
        invariant
            first < a <= b <= last,
            c <= last,
            last <= n,
            s0.len() == n, sa@.len() == n,
            lo == first, hi == last, vv == v,
            key == byte_key(t@, td as int, s0, pab as int),
            ok ==> pa_apart(s0, pab as int, lo, hi),
            kept(s0, sa@, lo, hi),
            ok ==> keys_at(sa@, key, lo, a as int, vv),
            ok ==> keys_below(sa@, key, a as int, b as int, vv),
            ok && b < last ==> key(sa@[b as int]) > vv,
        ensures
            b <= c + 1,
            c < last,
            ok ==> keys_at(sa@, key, c + 1, hi, vv),
            ok && c > b ==> x == key(sa@[c as int]) && x != v,
        decreases c,
    {
        if c == 0 {
            break;
        }
        c -= 1;
        if c <= b {
            break;
        }
        x = key_in(t, td, sa, pab, c, Ghost(s0), Ghost(lo), Ghost(hi));
        if x != v {
            break;
        }
    }
    let mut d = c;
    if b < c && x > v {
        loop
            invariant_except_break
                b < c,
                ok ==> keys_above(sa@, key, c as int, d + 1, vv),
            invariant
                first < a <= b,
                b <= c + 1,
                c <= d,
                d < last,
                last <= n,
                s0.len() == n, sa@.len() == n,
                lo == first, hi == last, vv == v,
                key == byte_key(t@, td as int, s0, pab as int),
                ok ==> pa_apart(s0, pab as int, lo, hi),
                kept(s0, sa@, lo, hi),
                ok ==> keys_at(sa@, key, lo, a as int, vv),
                ok ==> keys_below(sa@, key, a as int, b as int, vv),
                ok && b < last ==> key(sa@[b as int]) > vv,
                ok ==> keys_at(sa@, key, d + 1, hi, vv),
            ensures
                b <= c + 1,
                c <= d,
                d < last,
                ok ==> keys_above(sa@, key, c + 1, d + 1, vv),
                ok ==> keys_at(sa@, key, d + 1, hi, vv),
                ok && b < c ==> key(sa@[c as int]) < vv,
            decreases c,
        {
            if c == 0 {
                break;
            }
            c -= 1;
            if c <= b {
                break;
            }
            x = key_in(t, td, sa, pab, c, Ghost(s0), Ghost(lo), Ghost(hi));
            if x < v {
                break;
            }
            if x == v {
                swap_within(sa, c, d, Ghost(s0), Ghost(lo), Ghost(hi));
                d -= 1;
            }
        }
    }
    while b < c
        invariant
            first < a <= b,
            b <= c + 1,
            c <= d,
            d < last,
            last <= n,
            s0.len() == n, sa@.len() == n,
            lo == first, hi == last, vv == v,
            key == byte_key(t@, td as int, s0, pab as int),
            ok ==> pa_apart(s0, pab as int, lo, hi),
            kept(s0, sa@, lo, hi),
            ok ==> keys_at(sa@, key, lo, a as int, vv),
            ok ==> keys_below(sa@, key, a as int, b as int, vv),
            ok ==> keys_above(sa@, key, c + 1, d + 1, vv),
            ok ==> keys_at(sa@, key, d + 1, hi, vv),
            ok && b <= c ==> key(sa@[b as int]) > vv,
            ok && b < c ==> key(sa@[c as int]) < vv,
        decreases c + 1 - b,
    {
        swap_within(sa, b, c, Ghost(s0), Ghost(lo), Ghost(hi));
        let ghost b0 = b;
        let ghost c0 = c;
        loop
            invariant_except_break
                b < c,
                ok ==> keys_below(sa@, key, a as int, b + 1, vv),
            invariant
                first < a <= b,
                b0 <= b,
                c == c0,
                c <= d,
                d < last,
                last <= n,
                s0.len() == n, sa@.len() == n,
                lo == first, hi == last, vv == v,
                key == byte_key(t@, td as int, s0, pab as int),
                ok ==> pa_apart(s0, pab as int, lo, hi),
                kept(s0, sa@, lo, hi),
                ok ==> keys_at(sa@, key, lo, a as int, vv),
                ok ==> keys_above(sa@, key, c as int, d + 1, vv),
                ok ==> keys_at(sa@, key, d + 1, hi, vv),
            ensures
                first < a <= b <= c,
                b0 < b,
                ok ==> keys_at(sa@, key, lo, a as int, vv),
                ok ==> keys_below(sa@, key, a as int, b as int, vv),
                ok ==> keys_above(sa@, key, c as int, d + 1, vv),
                ok ==> keys_at(sa@, key, d + 1, hi, vv),
                ok && b < c ==> key(sa@[b as int]) > vv,
            decreases c - b,
        {
            b += 1;
            if b >= c {
                break;
            }
            x = key_in(t, td, sa, pab, b, Ghost(s0), Ghost(lo), Ghost(hi));
            if x > v {
                break;
            }
            if x == v {
                swap_within(sa, b, a, Ghost(s0), Ghost(lo), Ghost(hi));
                a += 1;
            }
        }
        loop
            invariant_except_break
                b <= c,
                ok ==> keys_above(sa@, key, c as int, d + 1, vv),
            invariant
                first < a <= b,
                b0 < b,
                b <= c0,
                c <= c0,
                c <= d,
                d < last,
                last <= n,
                s0.len() == n, sa@.len() == n,
                lo == first, hi == last, vv == v,
                key == byte_key(t@, td as int, s0, pab as int),
                ok ==> pa_apart(s0, pab as int, lo, hi),
                kept(s0, sa@, lo, hi),
                ok ==> keys_at(sa@, key, lo, a as int, vv),
                ok ==> keys_below(sa@, key, a as int, b as int, vv),
                ok ==> keys_at(sa@, key, d + 1, hi, vv),
                ok && b < c0 ==> key(sa@[b as int]) > vv,
            ensures
                b <= c + 1,
                c < c0,
                c <= d,
                d < last,
                ok ==> keys_above(sa@, key, c + 1, d + 1, vv),
                ok ==> keys_at(sa@, key, d + 1, hi, vv),
                ok && b < c ==> key(sa@[c as int]) < vv,
            decreases c,
        {
            if c == 0 {
                break;
            }
            c -= 1;
            if c <= b {
                break;
            }
            x = key_in(t, td, sa, pab, c, Ghost(s0), Ghost(lo), Ghost(hi));
            if x < v {
                break;
            }
            if x == v {
                swap_within(sa, c, d, Ghost(s0), Ghost(lo), Ghost(hi));
                d -= 1;
            }
        }
    }
    if a > d {
        proof {
            if ok {
                assert(keys_at(sa@, key, lo, hi, vv));
                lemma_keys_back(s0, sa@, key, lo, hi, vv);
            }
        }
        return None;
    }
    proof {
        if ok {
            assert forall|q: int| b <= q < d + 1 implies key(#[trigger] sa@[q]) > vv by {
                if q <= c {
                    assert(q == b);
                }
            }
            // some key differs from v
            if keys_at(s0, key, lo, hi, vv) {
                lemma_window_multiset(s0, sa@, lo, hi);
                lemma_window_pred(s0, sa@, lo, hi, |w: i32| key(w) == vv);
                if b <= d {
                    assert(key(sa@[b as int]) == vv);
                } else {
                    assert(key(sa@[a as int]) < vv);
                }
            }
        }
    }
    let ghost pre = sa@;
    let s = if a - first < b - a {
        a - first
    } else {
        b - a
    };
    let mut k: usize = 0;
    while k < s
        invariant
            k <= s,
            s <= a - first,
            s <= b - a,
            first <= a <= b,
            b <= d + 1,
            d < last,
            last <= n,
            pre.len() == n,
            sa@.len() == n,
            lo == first, hi == last,
            kept(s0, sa@, lo, hi),
            forall|q: int| first <= q < first + k ==> #[trigger] sa@[q] == pre[q - first + b - s],
            forall|q: int| b - s <= q < b - s + k ==> #[trigger] sa@[q] == pre[q - (b - s) + first],
            forall|q: int|
                0 <= q < n && !(first <= q < first + k) && !(b - s <= q < b - s + k) ==> #[trigger] sa@[q]
                    == pre[q],
        decreases s - k,
    {
        swap_within(sa, first + k, b - s + k, Ghost(s0), Ghost(lo), Ghost(hi));
        k += 1;
    }
    proof {
        if ok {
            assert forall|q: int| lo <= q < first + (b - a) implies key(#[trigger] sa@[q]) < vv by {
                if q < first + s {
                    assert(sa@[q] == pre[q - first + b - s]);
                } else {
                    assert(sa@[q] == pre[q]);
                }
            }
            assert forall|q: int| first + (b - a) <= q < b implies key(#[trigger] sa@[q]) == vv by {
                if q >= b - s {
                    assert(sa@[q] == pre[q - (b - s) + first]);
                } else {
                    assert(sa@[q] == pre[q]);
                }
            }
        }
        assert forall|q: int| b <= q < hi implies #[trigger] sa@[q] == pre[q] by {}
    }
    let ghost pre2 = sa@;
    let dc = d + 1 - b;
    let ldd = last - (d + 1);
    let s2 = if dc < ldd {
        dc
    } else {
        ldd
    };
    let mut k: usize = 0;
    while k < s2
        invariant
            k <= s2,
            s2 <= dc,
            s2 <= ldd,
            dc == d + 1 - b,
            ldd == last - (d + 1),
            first <= b <= d + 1,
            d < last,
            last <= n,
            pre2.len() == n,
            sa@.len() == n,
            lo == first, hi == last,
            kept(s0, sa@, lo, hi),
            forall|q: int| b <= q < b + k ==> #[trigger] sa@[q] == pre2[q - b + last - s2],
            forall|q: int| last - s2 <= q < last - s2 + k ==> #[trigger] sa@[q] == pre2[q - (last - s2) + b],
            forall|q: int|
                0 <= q < n && !(b <= q < b + k) && !(last - s2 <= q < last - s2 + k) ==> #[trigger] sa@[q]
                    == pre2[q],
        decreases s2 - k,
    {
        swap_within(sa, b + k, last - s2 + k, Ghost(s0), Ghost(lo), Ghost(hi));
        k += 1;
    }
    proof {
        if ok {
            assert forall|q: int| lo <= q < b implies #[trigger] sa@[q] == pre2[q] by {}
            assert forall|q: int| b <= q < last - dc implies key(#[trigger] sa@[q]) == vv by {
                if q < b + s2 {
                    assert(sa@[q] == pre2[q - b + last - s2]);
                } else {
                    assert(sa@[q] == pre2[q]);
                }
            }
            assert forall|q: int| last - dc <= q < hi implies key(#[trigger] sa@[q]) > vv by {
                if q >= last - s2 {
                    assert(sa@[q] == pre2[q - (last - s2) + b]);
                } else {
                    assert(sa@[q] == pre2[q]);
                }
            }
        }
    }
    Some((first + (b - a), last - dc))
}

/// A key shared by every entry of a window is shared by every entry it held
/// before a rearrangement.
proof fn lemma_keys_back(s0: Seq<i32>, s1: Seq<i32>, key: spec_fn(i32) -> int, lo: int, hi: int, v: int)
    requires
        0 <= lo <= hi <= s0.len(),
        kept(s0, s1, lo, hi),
        keys_at(s1, key, lo, hi, v),
    ensures
        keys_at(s0, key, lo, hi, v),
{
    lemma_window_multiset(s0, s1, lo, hi);
    lemma_window_pred(s1, s0, lo, hi, |w: i32| key(w) == v);
}

/// A window whose middle keeps its unmarked multiset and whose two ends are
/// unchanged keeps its unmarked multiset, when it held no marked entry.
proof fn lemma_three_parts(mid: Seq<i32>, fin: Seq<i32>, first: int, a: int, c: int, last: int)
    requires
        0 <= first <= a <= c <= last <= mid.len(),
        fin.len() == mid.len(),
        forall|q: int| first <= q < last ==> mid[q] >= 0,
        forall|q: int| first <= q < a ==> fin[q] == mid[q],
        forall|q: int| c <= q < last ==> fin[q] == mid[q],
        unmarked(fin, a, c).to_multiset() == mid.subrange(a, c).to_multiset(),
    ensures
        unmarked(fin, first, last).to_multiset() == mid.subrange(first, last).to_multiset(),
{
    let u1 = unmarked(fin, first, a);
    let u2 = unmarked(fin, a, c);
    let u3 = unmarked(fin, c, last);
    assert(unmarked(fin, first, last) =~= u1 + u2 + u3);
    assert(u1 =~= mid.subrange(first, a));
    assert(u3 =~= mid.subrange(c, last));
    assert(mid.subrange(first, last) =~= mid.subrange(first, a) + mid.subrange(a, c) + mid.subrange(c, last));
    vstd::seq_lib::lemma_multiset_commutative(u1 + u2, u3);
    vstd::seq_lib::lemma_multiset_commutative(u1, u2);
    vstd::seq_lib::lemma_multiset_commutative(mid.subrange(first, a) + mid.subrange(a, c), mid.subrange(c, last));
    vstd::seq_lib::lemma_multiset_commutative(mid.subrange(first, a), mid.subrange(a, c));
}

/// Bentley-McIlroy three-way partition of `sa[first..last)` around the key `v`,
/// whose pivot entry sits at `sa[first]` (see `ss_partition_around`). Returns the
/// ends of the smaller part, the boundary of the tandem-repeat entries within the
/// equal part, and the start of the larger part; `None` when every key equals `v`.
fn ss_three_way_partition(
    t: &[u8],
    td: usize,
    sa: &mut [i32],
    pab: usize,
    first: usize,
    last: usize,
    depth: i32,
    v: i32,
) -> (r: Option<(usize, usize, usize)>)
    requires
        first < last <= old(sa)@.len(),
    ensures
        final(sa)@.len() == old(sa)@.len(),
        r matches Some((a, b, c)) ==> first <= a <= b <= c <= last,
        r is None ==> final(sa)@.to_multiset() == old(sa)@.to_multiset(),
        same_outside(old(sa)@, final(sa)@, first as int, last as int),
        pa_apart(old(sa)@, pab as int, first as int, last as int) && byte_key(t@, td as int, old(sa)@, pab as int)(
            old(sa)@[first as int],
        ) == v ==> (r is None <==> keys_at(
            old(sa)@,
            byte_key(t@, td as int, old(sa)@, pab as int),
            first as int,
            last as int,
            v as int,
        )),
        pa_apart(old(sa)@, pab as int, first as int, last as int) && byte_key(t@, td as int, old(sa)@, pab as int)(
            old(sa)@[first as int],
        ) == v ==> (r matches Some((a, b, c)) ==> keys_below(
            final(sa)@,
            byte_key(t@, td as int, old(sa)@, pab as int),
            first as int,
            a as int,
            v as int,
        ) && keys_above(final(sa)@, byte_key(t@, td as int, old(sa)@, pab as int), c as int, last as int, v as int)),
        pa_apart(old(sa)@, pab as int, first as int, last as int) && byte_key(t@, td as int, old(sa)@, pab as int)(
            old(sa)@[first as int],
        ) == v && (forall|q: int| first <= q < last ==> old(sa)@[q] >= 0) ==> (r matches Some((a, b, c)) ==> {
            &&& unmarked(final(sa)@, first as int, last as int).to_multiset() == old(sa)@.subrange(
                first as int,
                last as int,
            ).to_multiset()
            &&& forall|q: int|
                a <= q < c ==> byte_key(t@, td as int, old(sa)@, pab as int)(unmark(#[trigger] final(sa)@[q]))
                    == v
        }),
{
    let (new_a, new_c) = match ss_partition_around(t, td, sa, pab, first, last, v) {
        Some(p) => p,
        None => {
            return None;
        },
    };
    let ghost s0 = old(sa)@;
    let ghost mid = sa@;
    let check = arr::byte(t, arr::offset(td, pa_val(sa, pab, arr::get(sa, new_a)).wrapping_sub(1)));
    let ghost skipped = v <= check;
    let b2 = if v <= check {
        new_a
    } else {
        ss_partition(sa, pab, new_a, new_c, depth)
    };
    proof {
        assert(same_outside(mid, sa@, new_a as int, new_c as int));
        assert forall|q: int| 0 <= q < s0.len() && !(first <= q < last) implies #[trigger] sa@[q] == s0[q] by {
            assert(sa@[q] == mid[q]);
        }
        assert forall|q: int| first <= q < new_a implies #[trigger] sa@[q] == mid[q] by {}
        assert forall|q: int| new_c <= q < last implies #[trigger] sa@[q] == mid[q] by {}
        let key = byte_key(t@, td as int, s0, pab as int);
        let lo = first as int;
        let hi = last as int;
        let (a, c) = (new_a as int, new_c as int);
        if pa_apart(s0, pab as int, lo, hi) && key(s0[lo]) == v && (forall|q: int| lo <= q < hi ==> s0[q] >= 0) {
            lemma_window_multiset(s0, mid, lo, hi);
            lemma_window_pred(s0, mid, lo, hi, |w: i32| w >= 0);
            assert forall|q: int| lo <= q < hi implies mid[q] >= 0 by {
                let p = |w: i32| w >= 0;
                assert(p(mid[q]));
            }
            if skipped {
                assert(sa@ == mid);
                assert(unmarked(sa@, a, c) =~= mid.subrange(a, c));
            }
            assert(unmarked(sa@, a, c).to_multiset() == mid.subrange(a, c).to_multiset());
            lemma_three_parts(mid, sa@, lo, a, c, hi);
            let m0 = mid.subrange(a, c);
            let u1 = unmarked(sa@, a, c);
            assert(m0.subrange(0, c - a) =~= m0);
            assert(u1.subrange(0, c - a) =~= u1);
            assert forall|q: int| 0 <= q < c - a implies key(#[trigger] m0[q]) == v by {
                assert(m0[q] == mid[a + q]);
            }
            lemma_window_pred(m0, u1, 0, c - a, |w: i32| key(w) == v);
            assert forall|q: int| a <= q < c implies key(unmark(#[trigger] sa@[q])) == v by {
                let p = |w: i32| key(w) == v;
                assert(u1[q - a] == unmark(sa@[q]));
                assert(p(u1[q - a]));
            }
        }
    }
    Some((new_a, b2, new_c))
}

/// A pending range of the introspective sort.
#[derive(Clone, Copy, Default)]
pub struct MiSortFrame {
    pub first: usize,
    pub last: usize,
    pub depth: i32,
    pub limit: i32,
}

pub open spec fn misort_frames_ok(s: Seq<MiSortFrame>, n: int) -> bool {
    forall|k: int|
        0 <= k < s.len() ==> #[trigger] s[k].first <= s[k].last <= n && -1 <= s[k].limit <= 16
}

/// Pushes `f` unless the stack is full.
fn misort_push(stack: &mut FixedStack<MiSortFrame, SS_MISORT_STACKSIZE>, f: MiSortFrame, Ghost(n): Ghost<int>)
    requires
        misort_frames_ok(old(stack)@, n),
        f.first <= f.last <= n,
        -1 <= f.limit <= 16,
    ensures
        misort_frames_ok(final(stack)@, n),
{
    if stack.len() < SS_MISORT_STACKSIZE {
        stack.push(f);
        proof {
            assert forall|k: int| 0 <= k < final(stack)@.len() implies #[trigger] final(stack)@[k].first
                <= final(stack)@[k].last <= n && -1 <= final(stack)@[k].limit <= 16 by {
                if k < old(stack)@.len() {
                    assert(final(stack)@[k] == old(stack)@[k]);
                }
            }
        }
    }
}

/// Pops the top frame, if any.
fn misort_pop(stack: &mut FixedStack<MiSortFrame, SS_MISORT_STACKSIZE>, Ghost(n): Ghost<int>) -> (r: Option<MiSortFrame>)
    requires
        misort_frames_ok(old(stack)@, n),
    ensures
        misort_frames_ok(final(stack)@, n),
        r matches Some(f) ==> f.first <= f.last <= n && -1 <= f.limit <= 16,
{
    let ghost before = stack@;
    let r = stack.pop();
    proof {
        if before.len() > 0 {
            assert(before[before.len() - 1] == before.last());
            assert forall|k: int| 0 <= k < stack@.len() implies #[trigger] stack@[k].first
                <= stack@[k].last <= n && -1 <= stack@[k].limit <= 16 by {
                assert(stack@[k] == before[k]);
            }
        }
    }
    r
}

/// The number of entries in `[first, last)` as a logarithm argument.
fn range_ilg(first: usize, last: usize) -> (r: i32)
    requires
        first <= last,
        last - first <= 0x7fff_ffff,
    ensures
        -1 <= r <= 15,
{
    ss_ilg((last - first) as i32)
}

/// Introspective sort of `sa[first..last)` on the keys `Td[PA[*]]`, deepening the
/// key by one byte for each group of equal entries, with heapsort once the
/// recursion budget is spent and insertion sort for small ranges.
fn ss_mintrosort(t: &[u8], sa: &mut [i32], pab: usize, first: usize, last: usize, depth: i32)
    requires
        first <= last <= old(sa)@.len(),
        old(sa)@.len() <= 0x7fff_ffff,
    ensures
        final(sa)@.len() == old(sa)@.len(),
{
    let ghost n = sa@.len() as int;
    let mut stack = FixedStack::<MiSortFrame, SS_MISORT_STACKSIZE>::new();
    let mut first = first;
    let mut last = last;
    let mut depth = depth;
    let mut limit = range_ilg(first, last);
    let mut steps: u64 = 0;
    loop
        invariant
            first <= last <= n,
            n <= 0x7fff_ffff,
            sa@.len() == n,
            n == old(sa)@.len(),
            -1 <= limit <= 16,
            misort_frames_ok(stack@, n),
        decreases u64::MAX - steps,
    {
        if steps == u64::MAX {
            return;
        }
        steps += 1;
        if last - first <= SS_INSERTIONSORT_THRESHOLD {
            if last - first > 1 {
                ss_insertionsort_in(t, sa, pab, first, last, depth);
            }
            match misort_pop(&mut stack, Ghost(n)) {
                Some(f) => {
                    first = f.first;
                    last = f.last;
                    depth = f.depth;
                    limit = f.limit;
                },
                None => {
                    return;
                },
            }
            continue;
        }
        let td = arr::offset(0, depth);
        limit -= 1;
        if limit == -1 {
            ss_heapsort_in(t, td, sa, pab, first, last - first);
        }
        if limit < 0 {
            let mut a = first + 1;
            let mut v = key_byte(t, td, sa, pab, arr::get(sa, first));
            while a < last
                invariant
                    first < a <= last,
                    last <= n,
                    sa@.len() == n,
                decreases last - a,
            {
                let x = key_byte(t, td, sa, pab, arr::get(sa, a));
                if x != v {
                    if a - first > 1 {
                        break;
                    }
                    v = x;
                    first = a;
                }
                a += 1;
            }
            let check = arr::byte(t, arr::offset(td, pa_val(sa, pab, arr::get(sa, first)).wrapping_sub(1)));
            if check < v {
                first = ss_partition(sa, pab, first, a, depth);
            }
            if a - first <= last - a {
                if a - first > 1 {
                    misort_push(&mut stack, MiSortFrame { first: a, last, depth, limit: -1 }, Ghost(n));
                    last = a;
                    depth = depth.wrapping_add(1);
                    limit = range_ilg(first, a);
                } else {
                    first = a;
                    limit = -1;
                }
            } else if last - a > 1 {
                misort_push(
                    &mut stack,
                    MiSortFrame { first, last: a, depth: depth.wrapping_add(1), limit: range_ilg(first, a) },
                    Ghost(n),
                );
                first = a;
                limit = -1;
            } else {
                last = a;
                depth = depth.wrapping_add(1);
                limit = range_ilg(first, a);
            }
            continue;
        }
        let pivot_idx = ss_pivot_idx(t, td, sa, pab, first, last);
        let v = key_byte(t, td, sa, pab, arr::get(sa, pivot_idx));
        arr::swap(sa, first, pivot_idx);
        match ss_three_way_partition(t, td, sa, pab, first, last, depth, v) {
            Some((new_a, b2, new_c)) => {
                let d1 = depth.wrapping_add(1);
                if new_a - first <= last - new_c {
                    if last - new_c <= new_c - b2 {
                        misort_push(&mut stack, MiSortFrame { first: b2, last: new_c, depth: d1, limit: range_ilg(b2, new_c) }, Ghost(n));
                        misort_push(&mut stack, MiSortFrame { first: new_c, last, depth, limit }, Ghost(n));
                        last = new_a;
                    } else if new_a - first <= new_c - b2 {
                        misort_push(&mut stack, MiSortFrame { first: new_c, last, depth, limit }, Ghost(n));
                        misort_push(&mut stack, MiSortFrame { first: b2, last: new_c, depth: d1, limit: range_ilg(b2, new_c) }, Ghost(n));
                        last = new_a;
                    } else {
                        misort_push(&mut stack, MiSortFrame { first: new_c, last, depth, limit }, Ghost(n));
                        misort_push(&mut stack, MiSortFrame { first, last: new_a, depth, limit }, Ghost(n));
                        first = b2;
                        last = new_c;
                        depth = d1;
                        limit = range_ilg(b2, new_c);
                    }
                } else if new_a - first <= new_c - b2 {
                    misort_push(&mut stack, MiSortFrame { first: b2, last: new_c, depth: d1, limit: range_ilg(b2, new_c) }, Ghost(n));
                    misort_push(&mut stack, MiSortFrame { first, last: new_a, depth, limit }, Ghost(n));
                    first = new_c;
                } else if last - new_c <= new_c - b2 {
                    misort_push(&mut stack, MiSortFrame { first, last: new_a, depth, limit }, Ghost(n));
                    misort_push(&mut stack, MiSortFrame { first: b2, last: new_c, depth: d1, limit: range_ilg(b2, new_c) }, Ghost(n));
                    first = new_c;
                } else {
                    misort_push(&mut stack, MiSortFrame { first, last: new_a, depth, limit }, Ghost(n));
                    misort_push(&mut stack, MiSortFrame { first: new_c, last, depth, limit }, Ghost(n));
                    first = b2;
                    last = new_c;
                    depth = d1;
                    limit = range_ilg(b2, new_c);
                }
            },
            None => {
                limit += 1;
                let check = arr::byte(t, arr::offset(td, pa_val(sa, pab, arr::get(sa, first)).wrapping_sub(1)));
                if check < v {
                    first = ss_partition(sa, pab, first, last, depth);
                    limit = range_ilg(first, last);
                }
                depth = depth.wrapping_add(1);
            },
        }
    }
}

/// `ss_compare` between entries `x` and `y` of the array `PA` at offset `pab`.
fn pa_compare(t: &[u8], sa: &[i32], pab: usize, x: usize, y: usize, depth: i32) -> i32 {
    ss_compare_checked(t, sa, pab.saturating_add(x), sa, pab.saturating_add(y), depth)
}

/// Exchanges the blocks `sa[a..a+n)` and `sa[b..b+n)`.
fn ss_blockswap(sa: &mut [i32], a: usize, b: usize, n: usize)
    ensures
        final(sa)@.len() == old(sa)@.len(),
{
    let ghost len = sa@.len();
    let mut k: usize = 0;
    while k < n
        invariant
            k <= n,
            sa@.len() == len,
        decreases n - k,
    {
        arr::swap(sa, a.saturating_add(k), b.saturating_add(k));
        k += 1;
    }
}

/// Rotates `sa[first..last)` left so that `sa[middle]` comes first.
fn ss_rotate(sa: &mut [i32], first: usize, middle: usize, last: usize)
    ensures
        final(sa)@.len() == old(sa)@.len(),
        first <= middle <= last <= old(sa)@.len() ==> final(sa)@ == old(sa)@.subrange(0, first as int)
            + old(sa)@.subrange(middle as int, last as int) + old(sa)@.subrange(first as int, middle as int)
            + old(sa)@.subrange(last as int, old(sa)@.len() as int),
{
    if !(first <= middle && middle <= last && last <= sa.len()) {
        return;
    }
    let ghost s0 = sa@;
    let mut tmp: Vec<i32> = Vec::new();
    let mut i = middle;
    while i < last
        invariant
            middle <= i <= last,
            last <= s0.len(),
            sa@ == s0,
            tmp@ == s0.subrange(middle as int, i as int),
        decreases last - i,
    {
        tmp.push(sa[i]);
        i += 1;
        proof {
            assert(s0.subrange(middle as int, i as int) =~= s0.subrange(middle as int, i - 1).push(s0[i - 1]));
        }
    }
    let mut i = first;
    while i < middle
        invariant
            first <= i <= middle,
            middle <= last <= s0.len(),
            sa@ == s0,
            tmp@ == s0.subrange(middle as int, last as int) + s0.subrange(first as int, i as int),
        decreases middle - i,
    {
        tmp.push(sa[i]);
        i += 1;
        proof {
            assert(s0.subrange(first as int, i as int) =~= s0.subrange(first as int, i - 1).push(s0[i - 1]));
        }
    }
    let mut k: usize = 0;
    while k < last - first
        invariant
            k <= last - first,
            first <= middle <= last <= s0.len(),
            sa@.len() == s0.len(),
            tmp@.len() == last - first,
            forall|q: int| 0 <= q < first ==> sa@[q] == s0[q],
            forall|q: int| last <= q < s0.len() ==> sa@[q] == s0[q],
            forall|q: int| first <= q < first + k ==> sa@[q] == tmp@[q - first],
        decreases last - first - k,
    {
        sa[first + k] = tmp[k];
        k += 1;
    }
    proof {
        assert(sa@ =~= s0.subrange(0, first as int) + s0.subrange(middle as int, last as int)
            + s0.subrange(first as int, middle as int) + s0.subrange(last as int, s0.len() as int));
    }
}

/// Merges the sorted runs `sa[first..middle)` and `sa[middle..last)` in place, by
/// binary search and rotation.
fn ss_inplacemerge(t: &[u8], sa: &mut [i32], pab: usize, first: usize, middle: usize, last: usize, depth: i32)
    requires
        first <= middle <= last <= old(sa)@.len(),
        old(sa)@.len() <= 0x7fff_ffff,
    ensures
        final(sa)@.len() == old(sa)@.len(),
{
    let ghost n = sa@.len();
    if first == middle || middle == last {
        return;
    }
    let mut middle = middle;
    let mut last = last;
    loop
        invariant_except_break
            first < middle < last,
        invariant
            last <= n,
            n <= 0x7fff_ffff,
            sa@.len() == n,
        decreases last,
    {
        let tail = arr::get(sa, last - 1);
        let x: i32 = if tail < 0 {
            1
        } else {
            0
        };
        let p = getidx(tail);
        let mut a = first;
        let mut len = (middle - first) as i32;
        let mut half = len >> 1;
        let mut r = -1i32;
        proof {
            lemma_halving(len);
        }
        while 0 < len
            invariant
                first <= a,
                a + len <= middle,
                0 <= len,
                half == len / 2,
                middle < last <= n,
                sa@.len() == n,
            decreases len,
        {
            let b = a + half as usize;
            let bv = getidx(arr::get(sa, b));
            let q = pa_compare(t, sa, pab, bv, p, depth);
            proof {
                lemma_halving(len);
            }
            if q < 0 {
                a = b + 1;
                half -= (len & 1) ^ 1;
            } else {
                r = q;
            }
            len = half;
            proof {
                lemma_halving(len);
            }
            half >>= 1;
        }
        if a < middle {
            if r == 0 {
                let w = arr::get(sa, a);
                arr::set(sa, a, !w);
            }
            ss_rotate(sa, a, middle, last);
            last -= middle - a;
            middle = a;
            if first == middle {
                break;
            }
        }
        last -= 1;
        let ghost l0 = last;
        if x != 0 {
            while last > middle && arr::get(sa, last - 1) < 0
                invariant
                    first < middle <= last <= n,
                    last <= l0,
                    sa@.len() == n,
                decreases last,
            {
                last -= 1;
            }
        }
        if middle == last {
            break;
        }
    }
}

/// Bounds of a merge: the runs `[first, middle)` and `[middle, last)`.
pub struct MergeRange {
    pub first: usize,
    pub middle: usize,
    pub last: usize,
}

/// A merge buffer `[buf, buf + bufsize)`.
pub struct BufInfo {
    pub buf: usize,
    pub bufsize: usize,
}

/// Merges `sa[first..middle)` and `sa[middle..last)` front to back, moving the left
/// run into the buffer first.
fn ss_mergeforward(t: &[u8], sa: &mut [i32], pab: usize, range: MergeRange, buf: usize, depth: i32)
    ensures
        final(sa)@.len() == old(sa)@.len(),
{
    let ghost n = sa@.len();
    let MergeRange { first, middle, last } = range;
    if middle <= first {
        return;
    }
    let bufend = buf.saturating_add(middle - first - 1);
    ss_blockswap(sa, buf, first, middle - first);
    let mut a = first;
    let mut b = buf;
    let mut c = middle;
    let tv = arr::get(sa, a);
    let mut steps: u64 = 0;
    loop
        invariant
            sa@.len() == n,
            n == old(sa)@.len(),
        decreases u64::MAX - steps,
    {
        if steps == u64::MAX {
            return;
        }
        steps += 1;
        let r = pa_compare(t, sa, pab, getidx(arr::get(sa, b)), getidx(arr::get(sa, c)), depth);
        if r < 0 {
            if forward_take_buf(sa, &mut a, &mut b, bufend, tv) {
                return;
            }
        } else if r > 0 {
            if forward_take_right(sa, &mut a, &mut b, &mut c, bufend, last, tv) {
                return;
            }
        } else {
            let w = arr::get(sa, c);
            arr::set(sa, c, !w);
            if forward_take_buf(sa, &mut a, &mut b, bufend, tv) {
                return;
            }
            if forward_take_right(sa, &mut a, &mut b, &mut c, bufend, last, tv) {
                return;
            }
        }
    }
}

/// Moves the next run of buffer entries (one entry and the marked equals after it)
/// to the output; returns whether the buffer is exhausted and the merge done.
fn forward_take_buf(sa: &mut [i32], a: &mut usize, b: &mut usize, bufend: usize, tv: i32) -> (done: bool)
    ensures
        final(sa)@.len() == old(sa)@.len(),
{
    let ghost n = sa@.len();
    loop
        invariant
            sa@.len() == n,
            n == old(sa)@.len(),
        decreases bufend - *b,
    {
        let w = arr::get(sa, *b);
        arr::set(sa, *a, w);
        *a = a.saturating_add(1);
        if bufend <= *b {
            arr::set(sa, bufend, tv);
            return true;
        }
        let w = arr::get(sa, *a);
        arr::set(sa, *b, w);
        *b += 1;
        if arr::get(sa, *b) >= 0 {
            return false;
        }
    }
}

/// Moves the next run of right-hand entries to the output; when the right run is
/// exhausted, flushes the buffer and returns `true`.
fn forward_take_right(
    sa: &mut [i32],
    a: &mut usize,
    b: &mut usize,
    c: &mut usize,
    bufend: usize,
    last: usize,
    tv: i32,
) -> (done: bool)
    ensures
        final(sa)@.len() == old(sa)@.len(),
{
    let ghost n = sa@.len();
    loop
        invariant
            sa@.len() == n,
            n == old(sa)@.len(),
        decreases last - *c,
    {
        let w = arr::get(sa, *c);
        arr::set(sa, *a, w);
        *a = a.saturating_add(1);
        let w = arr::get(sa, *a);
        arr::set(sa, *c, w);
        *c = c.saturating_add(1);
        if *c >= last {
            while *b < bufend
                invariant
                    sa@.len() == n,
                    n == old(sa)@.len(),
                decreases bufend - *b,
            {
                let w = arr::get(sa, *b);
                arr::set(sa, *a, w);
                *a = a.saturating_add(1);
                let w = arr::get(sa, *a);
                arr::set(sa, *b, w);
                *b += 1;
            }
            let w = arr::get(sa, *b);
            arr::set(sa, *a, w);
            arr::set(sa, *b, tv);
            return true;
        }
        if arr::get(sa, *c) >= 0 {
            return false;
        }
    }
}

/// Moves entries backwards from `src` to `dest` while they are marked as equal to
/// their predecessor; returns the new `(dest, src)`.
fn skip_negatives_backward(sa: &mut [i32], dest: usize, src: usize, limit: usize) -> (r: (usize, usize))
    ensures
        final(sa)@.len() == old(sa)@.len(),
{
    let ghost n = sa@.len();
    let mut dest = dest;
    let mut src = src;
    loop
        invariant
            sa@.len() == n,
        decreases src,
    {
        let w = arr::get(sa, src);
        arr::set(sa, dest, w);
        dest = dest.saturating_sub(1);
        let w = arr::get(sa, dest);
        arr::set(sa, src, w);
        if src > limit {
            src -= 1;
        } else {
            break;
        }
        if arr::get(sa, src) >= 0 {
            break;
        }
    }
    (dest, src)
}

/// Flag: the buffer-side entry is marked as equal to its predecessor.
pub const MERGE_BUF_NEGATIVE: i32 = 1;
/// Flag: the middle-side entry is marked as equal to its predecessor.
pub const MERGE_MID_NEGATIVE: i32 = 2;

/// Merges `sa[first..middle)` and `sa[middle..last)` back to front, moving the right
/// run into the buffer first.
fn ss_mergebackward(t: &[u8], sa: &mut [i32], pab: usize, range: MergeRange, buf: usize, depth: i32)
    ensures
        final(sa)@.len() == old(sa)@.len(),
{
    let ghost n = sa@.len();
    let MergeRange { first, middle, last } = range;
    if last <= middle || middle == 0 {
        return;
    }
    let bufend = buf.saturating_add(last - middle - 1);
    ss_blockswap(sa, buf, middle, last - middle);
    let mut x = 0i32;
    let eb = arr::get(sa, bufend);
    let mut p1 = getidx(eb);
    if eb < 0 {
        x = x | MERGE_BUF_NEGATIVE;
    }
    let em = arr::get(sa, middle - 1);
    let mut p2 = getidx(em);
    if em < 0 {
        x = x | MERGE_MID_NEGATIVE;
    }
    let tv = arr::get(sa, last - 1);
    let mut a = last - 1;
    let mut b = bufend;
    let mut c = middle - 1;
    let mut steps: u64 = 0;
    loop
        invariant
            sa@.len() == n,
            n == old(sa)@.len(),
        decreases u64::MAX - steps,
    {
        if steps == u64::MAX {
            return;
        }
        steps += 1;
        let r = pa_compare(t, sa, pab, p1, p2, depth);
        if r > 0 {
            if x & MERGE_BUF_NEGATIVE != 0 {
                let (na, nb) = skip_negatives_backward(sa, a, b, buf);
                a = na;
                b = nb;
                x = x ^ MERGE_BUF_NEGATIVE;
            }
            let w = arr::get(sa, b);
            arr::set(sa, a, w);
            a = a.saturating_sub(1);
            if b <= buf {
                arr::set(sa, buf, tv);
                return;
            }
            b -= 1;
            let w = arr::get(sa, a);
            arr::set(sa, b + 1, w);
            let eb = arr::get(sa, b);
            if eb < 0 {
                x = x | MERGE_BUF_NEGATIVE;
            }
            p1 = getidx(eb);
        } else if r < 0 {
            if x & MERGE_MID_NEGATIVE != 0 {
                let (na, nc) = skip_negatives_backward(sa, a, c, first);
                a = na;
                c = nc;
                x = x ^ MERGE_MID_NEGATIVE;
            }
            let w = arr::get(sa, c);
            arr::set(sa, a, w);
            a = a.saturating_sub(1);
            let w = arr::get(sa, a);
            arr::set(sa, c, w);
            if c == 0 || c <= first {
                backward_flush(sa, &mut a, &mut b, buf, tv);
                return;
            }
            c -= 1;
            let em = arr::get(sa, c);
            if em < 0 {
                x = x | MERGE_MID_NEGATIVE;
            }
            p2 = getidx(em);
        } else {
            if x & MERGE_BUF_NEGATIVE != 0 {
                let (na, nb) = skip_negatives_backward(sa, a, b, buf);
                a = na;
                b = nb;
                x = x ^ MERGE_BUF_NEGATIVE;
            }
            let w = arr::get(sa, b);
            arr::set(sa, a, !w);
            a = a.saturating_sub(1);
            if b <= buf {
                arr::set(sa, buf, tv);
                return;
            }
            b -= 1;
            let w = arr::get(sa, a);
            arr::set(sa, b + 1, w);
            if x & MERGE_MID_NEGATIVE != 0 {
                let (na, nc) = skip_negatives_backward(sa, a, c, first);
                a = na;
                c = nc;
                x = x ^ MERGE_MID_NEGATIVE;
            }
            let w = arr::get(sa, c);
            arr::set(sa, a, w);
            a = a.saturating_sub(1);
            let w = arr::get(sa, a);
            arr::set(sa, c, w);
            if c == 0 || c <= first {
                backward_flush(sa, &mut a, &mut b, buf, tv);
                return;
            }
            c -= 1;
            let eb = arr::get(sa, b);
            if eb < 0 {
                x = x | MERGE_BUF_NEGATIVE;
            }
            p1 = getidx(eb);
            let em = arr::get(sa, c);
            if em < 0 {
                x = x | MERGE_MID_NEGATIVE;
            }
            p2 = getidx(em);
        }
    }
}

/// Moves the rest of the buffer to the output once the left run is exhausted.
fn backward_flush(sa: &mut [i32], a: &mut usize, b: &mut usize, buf: usize, tv: i32)
    ensures
        final(sa)@.len() == old(sa)@.len(),
{
    let ghost n = sa@.len();
    while buf < *b
        invariant
            sa@.len() == n,
        decreases *b,
    {
        let w = arr::get(sa, *b);
        arr::set(sa, *a, w);
        *a = a.saturating_sub(1);
        let w = arr::get(sa, *a);
        arr::set(sa, *b, w);
        if *b > buf {
            *b -= 1;
        }
    }
    let w = arr::get(sa, *b);
    arr::set(sa, *a, w);
    arr::set(sa, *b, tv);
}

/// A pending merge of the merge phase.
#[derive(Clone, Copy, Default)]
pub struct SmergeFrame {
    pub first: usize,
    pub middle: usize,
    pub last: usize,
    pub check: i32,
}

/// Pushes `f` unless the stack is full.
fn smerge_push(stack: &mut FixedStack<SmergeFrame, SS_SMERGE_STACKSIZE>, f: SmergeFrame) {
    if stack.len() < SS_SMERGE_STACKSIZE {
        stack.push(f);
    }
}

/// After a merge, marks `sa[first]` and `sa[last]` as equal to their predecessor
/// where the flags in `check` ask for it and the keys agree.
fn merge_check(t: &[u8], sa: &mut [i32], pab: usize, first: usize, last: usize, check: i32, depth: i32)
    ensures
        final(sa)@.len() == old(sa)@.len(),
{
    if (check & 1) != 0 || ((check & 2) != 0 && pa_compare(
        t,
        sa,
        pab,
        getidx(arr::get(sa, first.saturating_sub(1))),
        getidx(arr::get(sa, first)),
        depth,
    ) == 0) {
        let w = arr::get(sa, first);
        arr::set(sa, first, !w);
    }
    if (check & 4) != 0 && pa_compare(
        t,
        sa,
        pab,
        getidx(arr::get(sa, last.saturating_sub(1))),
        getidx(arr::get(sa, last)),
        depth,
    ) == 0 {
        let w = arr::get(sa, last);
        arr::set(sa, last, !w);
    }
}

/// Merges the sorted runs `sa[first..middle)` and `sa[middle..last)` using the buffer
/// `sa[buf..buf+bufsize)`, splitting the merge into smaller ones (by symmetric
/// binary search and block exchange) while the buffer is too small.
fn ss_swapmerge(t: &[u8], sa: &mut [i32], pab: usize, range: MergeRange, buf_info: BufInfo, depth: i32)
    requires
        old(sa)@.len() <= 0x7fff_ffff,
    ensures
        final(sa)@.len() == old(sa)@.len(),
{
    let ghost n = sa@.len();
    let BufInfo { buf, bufsize } = buf_info;
    let mut stack = FixedStack::<SmergeFrame, SS_SMERGE_STACKSIZE>::new();
    let mut first = range.first;
    let mut middle = range.middle;
    let mut last = range.last;
    let mut check = 0i32;
    let mut steps: u64 = 0;
    loop
        invariant
            sa@.len() == n,
            n == old(sa)@.len(),
            n <= 0x7fff_ffff,
        decreases u64::MAX - steps,
    {
        if steps == u64::MAX {
            return;
        }
        steps += 1;
        if !(first <= middle && middle <= last && last <= sa.len()) {
            return;
        }
        if last - middle <= bufsize {
            if first < middle && middle < last {
                ss_mergebackward(t, sa, pab, MergeRange { first, middle, last }, buf, depth);
            }
            merge_check(t, sa, pab, first, last, check, depth);
            match stack.pop() {
                Some(f) => {
                    first = f.first;
                    middle = f.middle;
                    last = f.last;
                    check = f.check;
                },
                None => {
                    return;
                },
            }
            continue;
        }
        if middle - first <= bufsize {
            if first < middle {
                ss_mergeforward(t, sa, pab, MergeRange { first, middle, last }, buf, depth);
            }
            merge_check(t, sa, pab, first, last, check, depth);
            match stack.pop() {
                Some(f) => {
                    first = f.first;
                    middle = f.middle;
                    last = f.last;
                    check = f.check;
                },
                None => {
                    return;
                },
            }
            continue;
        }
        let len_l = middle - first;
        let len_r = last - middle;
        let mut len: i32 = if len_l < len_r {
            len_l as i32
        } else {
            len_r as i32
        };
        let mut half = len >> 1;
        let mut m: usize = 0;
        proof {
            lemma_halving(len);
        }
        while 0 < len
            invariant
                0 <= len,
                half == len / 2,
                m + len <= len_l,
                m + len <= len_r,
                len_l == middle - first,
                len_r == last - middle,
                first <= middle <= last <= n,
                sa@.len() == n,
            decreases len,
        {
            let li = getidx(arr::get(sa, middle + m + half as usize));
            let ri = getidx(arr::get(sa, middle - m - half as usize - 1));
            proof {
                lemma_halving(len);
            }
            if pa_compare(t, sa, pab, li, ri, depth) < 0 {
                m += half as usize + 1;
                half -= (len & 1) ^ 1;
            }
            len = half;
            proof {
                lemma_halving(len);
            }
            half >>= 1;
        }
        if m > 0 {
            let lm = middle - m;
            let rm = middle + m;
            ss_blockswap(sa, lm, middle, m);
            let mut l = middle;
            let mut r = middle;
            let mut next = 0i32;
            if rm < last {
                if arr::get(sa, rm) < 0 {
                    let w = arr::get(sa, rm);
                    arr::set(sa, rm, !w);
                    if first < lm {
                        loop
                            invariant
                                sa@.len() == n,
                                l <= middle,
                            decreases l,
                        {
                            if l == 0 {
                                break;
                            }
                            l -= 1;
                            if arr::get(sa, l) >= 0 {
                                break;
                            }
                        }
                        next = next | 4;
                    }
                    next = next | 1;
                } else if first < lm {
                    while r < sa.len() && arr::get(sa, r) < 0
                        invariant
                            sa@.len() == n,
                            middle <= r,
                        decreases sa@.len() - r,
                    {
                        r += 1;
                    }
                    next = next | 2;
                }
            }
            if l < first || r > last {
                return;
            }
            if l - first <= last - r {
                smerge_push(&mut stack, SmergeFrame { first: r, middle: rm, last, check: (next & 3) | (check & 4) });
                middle = lm;
                last = l;
                check = (check & 3) | (next & 4);
            } else {
                if (next & 2) != 0 && r == middle {
                    next = next ^ 6;
                }
                smerge_push(&mut stack, SmergeFrame { first, middle: lm, last: l, check: (check & 3) | (next & 4) });
                first = r;
                middle = rm;
                check = (next & 3) | (check & 4);
            }
        } else {
            if pa_compare(t, sa, pab, getidx(arr::get(sa, middle - 1)), getidx(arr::get(sa, middle)), depth) == 0 {
                let w = arr::get(sa, middle);
                arr::set(sa, middle, !w);
            }
            merge_check(t, sa, pab, first, last, check, depth);
            match stack.pop() {
                Some(f) => {
                    first = f.first;
                    middle = f.middle;
                    last = f.last;
                    check = f.check;
                },
                None => {
                    return;
                },
            }
        }
    }
}

/// What the B*-suffix sort reads besides the array being sorted: the text, the
/// offset `pab` of the array `PA` of B*-suffix positions within the same buffer,
/// the depth already sorted, and the text length.
pub struct SsortCtx<'a> {
    pub t: &'a [u8],
    pub pab: usize,
    pub depth: i32,
    pub n: i32,
}

/// Sorts the B*-suffixes `sa[first..last)` (entries index `PA`) by introspective
/// sort on blocks of `SS_BLOCKSIZE` entries and merging of the sorted blocks; with
/// `lastsuffix`, the entry at `first` is the last B*-suffix and is put in place at
/// the end.
pub fn sssort(ctx: &SsortCtx, sa: &mut [i32], first: usize, last: usize, buf: usize, bufsize: i32, lastsuffix: bool)
    requires
        first < last <= old(sa)@.len(),
        old(sa)@.len() <= 0x7fff_ffff,
    ensures
        final(sa)@.len() == old(sa)@.len(),
{
    let ghost len0 = sa@.len();
    let t = ctx.t;
    let pab = ctx.pab;
    let depth = ctx.depth;
    let n = ctx.n;
    let mut first = first;
    if lastsuffix {
        first += 1;
    }
    let (middle, limit, bufsize, buf): (usize, i32, usize, usize) = if (bufsize as usize) < SS_BLOCKSIZE
        && (bufsize as usize) < last - first {
        let lim0 = ss_isqrt((last - first) as i32);
        let limit = if lim0 < SS_BLOCKSIZE as i32 {
            lim0
        } else {
            SS_BLOCKSIZE as i32
        };
        let middle = last.saturating_sub(limit as usize);
        (middle, limit, limit as usize, middle)
    } else {
        (last, 0i32, bufsize as usize, buf)
    };
    if middle < first {
        return;
    }
    let mut a = first;
    let mut i: usize = 0;
    while SS_BLOCKSIZE < middle - a
        invariant
            first <= a <= middle <= last <= len0,
            len0 <= 0x7fff_ffff,
            sa@.len() == len0,
            i <= a,
        decreases middle - a,
    {
        ss_mintrosort(t, sa, pab, a, a + SS_BLOCKSIZE, depth);
        let curbufsize = last - (a + SS_BLOCKSIZE);
        let (curbuf, curbufsize) = if curbufsize <= bufsize {
            (buf, bufsize)
        } else {
            (a + SS_BLOCKSIZE, curbufsize)
        };
        let mut b = a;
        let mut k = SS_BLOCKSIZE;
        let mut j = i;
        while j & 1 != 0
            invariant
                sa@.len() == len0,
                len0 <= 0x7fff_ffff,
            decreases j,
        {
            ss_swapmerge(
                t,
                sa,
                pab,
                MergeRange { first: b.saturating_sub(k), middle: b, last: b.saturating_add(k) },
                BufInfo { buf: curbuf, bufsize: curbufsize },
                depth,
            );
            b = b.saturating_sub(k);
            k = k.saturating_add(k);
            assert(j & 1 != 0 ==> j >> 1 < j) by (bit_vector);
            j = j >> 1;
        }
        a += SS_BLOCKSIZE;
        i += 1;
    }
    ss_mintrosort(t, sa, pab, a, middle, depth);
    let mut k = SS_BLOCKSIZE;
    let mut ii = i;
    while ii != 0
        invariant
            sa@.len() == len0,
            len0 <= 0x7fff_ffff,
        decreases ii,
    {
        if ii & 1 != 0 {
            ss_swapmerge(
                t,
                sa,
                pab,
                MergeRange { first: a.saturating_sub(k), middle: a, last: middle },
                BufInfo { buf, bufsize },
                depth,
            );
            a = a.saturating_sub(k);
        }
        k = k.saturating_add(k);
        assert(ii != 0 ==> ii >> 1 < ii) by (bit_vector);
        ii = ii >> 1;
    }
    if limit != 0 {
        ss_mintrosort(t, sa, pab, middle, last, depth);
        ss_inplacemerge(t, sa, pab, first, middle, last, depth);
    }
    if lastsuffix {
        let iv = arr::get(sa, first - 1);
        let pai = vec![pa_val(sa, pab, iv), n.wrapping_sub(2)];
        let mut a2 = first;
        while a2 < last && (arr::get(sa, a2) < 0 || ss_compare_checked(
            t,
            pai.as_slice(),
            0,
            sa,
            pab.saturating_add(getidx(arr::get(sa, a2))),
            depth,
        ) > 0)
            invariant
                first <= a2 <= last,
                1 <= first,
                last <= len0,
                sa@.len() == len0,
            decreases last - a2,
        {
            let w = arr::get(sa, a2);
            arr::set(sa, a2 - 1, w);
            a2 += 1;
        }
        arr::set(sa, a2 - 1, iv);
    }
}

} // verus!
