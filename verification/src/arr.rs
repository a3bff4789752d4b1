//! Bounds-checked reads and writes on the working arrays of the sorting phases.
//!
//! The sorting phases index their buffers with values read from those same
//! buffers. An access that would fall outside a buffer reads 0 and writes
//! nothing, so that every phase is total; the result of the whole construction
//! is certified afterwards (see `certify`).
use vstd::prelude::*;

verus! {

/// `a[i]`, or 0 when `i` is out of range.
pub fn get(a: &[i32], i: usize) -> (r: i32)
    ensures
        i < a@.len() ==> r == a@[i as int],
        i >= a@.len() ==> r == 0,
{
    if i < a.len() {
        a[i]
    } else {
        0
    }
}

/// `a[i] = v`, or nothing when `i` is out of range.
pub fn set(a: &mut [i32], i: usize, v: i32)
    ensures
        final(a)@.len() == old(a)@.len(),
        i < old(a)@.len() ==> final(a)@ == old(a)@.update(i as int, v),
        i >= old(a)@.len() ==> final(a)@ == old(a)@,
{
    if i < a.len() {
        a[i] = v;
    }
}

/// Exchanges `a[i]` and `a[j]` when both are in range.
pub fn swap(a: &mut [i32], i: usize, j: usize)
    ensures
        final(a)@.len() == old(a)@.len(),
        i < old(a)@.len() && j < old(a)@.len() ==> final(a)@ == old(a)@.update(
            i as int,
            old(a)@[j as int],
        ).update(j as int, old(a)@[i as int]),
        !(i < old(a)@.len() && j < old(a)@.len()) ==> final(a)@ == old(a)@,
{
    if i < a.len() && j < a.len() {
        let x = a[i];
        let y = a[j];
        a[i] = y;
        a[j] = x;
    }
}

/// The byte `t[i]` widened to `i32`, or 0 when `i` is out of range.
pub fn byte(t: &[u8], i: usize) -> (r: i32)
    ensures
        i < t@.len() ==> r == t@[i as int],
        i >= t@.len() ==> r == 0,
        0 <= r < 256,
{
    if i < t.len() {
        t[i] as i32
    } else {
        0
    }
}

/// A non-negative `i32` as an index; a negative one maps to `usize::MAX`.
pub fn idx(v: i32) -> (r: usize)
    ensures
        v >= 0 ==> r == v,
        v < 0 ==> r == usize::MAX,
{
    if v >= 0 {
        v as usize
    } else {
        usize::MAX
    }
}

/// `base + off` as an index, or `usize::MAX` when negative or too large.
pub fn offset(base: usize, off: i32) -> (r: usize)
    ensures
        0 <= base + off <= usize::MAX ==> r == base + off,
        !(0 <= base + off <= usize::MAX) ==> r == usize::MAX,
{
    if off >= 0 {
        let o = off as usize;
        if base < usize::MAX - o {
            base + o
        } else {
            usize::MAX
        }
    } else {
        let o = (-(off as i64)) as usize;
        if o <= base {
            base - o
        } else {
            usize::MAX
        }
    }
}

} // verus!
