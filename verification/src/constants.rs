//! Sizes, thresholds and small shared tools of the sorting phases.
use vstd::prelude::*;
use vstd::arithmetic::power2::{lemma2_to64, pow2};

verus! {

pub const ALPHABET_SIZE: usize = 256;
pub const BUCKET_A_SIZE: usize = 256;
pub const BUCKET_B_SIZE: usize = 65536;

pub const SS_INSERTIONSORT_THRESHOLD: usize = 8;
pub const SS_BLOCKSIZE: usize = 1024;
pub const SS_MISORT_STACKSIZE: usize = 24;
pub const SS_SMERGE_STACKSIZE: usize = 32;

pub const TR_INSERTIONSORT_THRESHOLD: usize = 8;
pub const TR_STACKSIZE: usize = 64;

/// `LG_TABLE[i]` is the position of the highest set bit of `i` (and -1 for 0).
pub const LG_TABLE: [i32; 256] = [
    -1, 0, 1, 1, 2, 2, 2, 2, 3, 3, 3, 3, 3, 3, 3, 3,
    4, 4, 4, 4, 4, 4, 4, 4, 4, 4, 4, 4, 4, 4, 4, 4,
    5, 5, 5, 5, 5, 5, 5, 5, 5, 5, 5, 5, 5, 5, 5, 5,
    5, 5, 5, 5, 5, 5, 5, 5, 5, 5, 5, 5, 5, 5, 5, 5,
    6, 6, 6, 6, 6, 6, 6, 6, 6, 6, 6, 6, 6, 6, 6, 6,
    6, 6, 6, 6, 6, 6, 6, 6, 6, 6, 6, 6, 6, 6, 6, 6,
    6, 6, 6, 6, 6, 6, 6, 6, 6, 6, 6, 6, 6, 6, 6, 6,
    6, 6, 6, 6, 6, 6, 6, 6, 6, 6, 6, 6, 6, 6, 6, 6,
    7, 7, 7, 7, 7, 7, 7, 7, 7, 7, 7, 7, 7, 7, 7, 7,
    7, 7, 7, 7, 7, 7, 7, 7, 7, 7, 7, 7, 7, 7, 7, 7,
    7, 7, 7, 7, 7, 7, 7, 7, 7, 7, 7, 7, 7, 7, 7, 7,
    7, 7, 7, 7, 7, 7, 7, 7, 7, 7, 7, 7, 7, 7, 7, 7,
    7, 7, 7, 7, 7, 7, 7, 7, 7, 7, 7, 7, 7, 7, 7, 7,
    7, 7, 7, 7, 7, 7, 7, 7, 7, 7, 7, 7, 7, 7, 7, 7,
    7, 7, 7, 7, 7, 7, 7, 7, 7, 7, 7, 7, 7, 7, 7, 7,
    7, 7, 7, 7, 7, 7, 7, 7, 7, 7, 7, 7, 7, 7, 7, 7,
];

/// Fixed-capacity stack. Pushing onto a full stack is not allowed.
pub struct FixedStack<T: Copy + Default, const N: usize> {
    data: Vec<T>,
}

/// One stack operation on the contents `s`: `Some(x)` pushes `x`, `None` pops
/// the top item if there is one (as `FixedStack::push` and `FixedStack::pop` do).
pub open spec fn stack_step<T>(s: Seq<T>, op: Option<T>) -> Seq<T> {
    match op {
        Some(x) => s.push(x),
        None => if s.len() > 0 {
            s.drop_last()
        } else {
            s
        },
    }
}

/// The contents of a stack made by `FixedStack::new` and then the operations `ops`.
pub open spec fn stack_run<T>(ops: Seq<Option<T>>) -> Seq<T>
    decreases ops.len(),
{
    if ops.len() == 0 {
        Seq::empty()
    } else {
        stack_step(stack_run(ops.drop_last()), ops.last())
    }
}

/// The number of pushes among `ops`.
pub open spec fn push_count<T>(ops: Seq<Option<T>>) -> nat
    decreases ops.len(),
{
    if ops.len() == 0 {
        0
    } else {
        push_count(ops.drop_last()) + if ops.last() is Some {
            1nat
        } else {
            0nat
        }
    }
}

/// The number of pops among `ops` that returned an item.
pub open spec fn pop_count<T>(ops: Seq<Option<T>>) -> nat
    decreases ops.len(),
{
    if ops.len() == 0 {
        0
    } else {
        pop_count(ops.drop_last()) + if ops.last() is None && stack_run(ops.drop_last()).len() > 0 {
            1nat
        } else {
            0nat
        }
    }
}

/// A stack holds as many items as were pushed, less the pops that returned one.
pub proof fn lemma_stack_count<T>(ops: Seq<Option<T>>)
    ensures
        stack_run(ops).len() + pop_count(ops) == push_count(ops),
    decreases ops.len(),
{
    if ops.len() > 0 {
        lemma_stack_count(ops.drop_last());
    }
}

impl<T: Copy + Default, const N: usize> View for FixedStack<T, N> {
    type V = Seq<T>;

    closed spec fn view(&self) -> Seq<T> {
        self.data@
    }
}

impl<T: Copy + Default, const N: usize> FixedStack<T, N> {
    #[verifier::type_invariant]
    spec fn within_capacity(&self) -> bool {
        self.data@.len() <= N
    }

    /// The stack's capacity.
    pub open spec fn capacity() -> nat {
        N as nat
    }

    /// An empty stack.
    pub fn new() -> (s: Self)
        ensures
            s@ == Seq::<T>::empty(),
    {
        FixedStack { data: Vec::new() }
    }

    /// Pushes `item` on top of the stack.
    pub fn push(&mut self, item: T)
        requires
            old(self)@.len() < N,
        ensures
            final(self)@ == old(self)@.push(item),
            final(self)@ == stack_step(old(self)@, Some(item)),
    {
        proof {
            use_type_invariant(&*self);
        }
        let mut data = Vec::new();
        std::mem::swap(&mut data, &mut self.data);
        data.push(item);
        self.data = data;
    }

    /// Removes and returns the top item, or `None` when the stack is empty.
    pub fn pop(&mut self) -> (r: Option<T>)
        ensures
            old(self)@.len() == 0 ==> r is None && final(self)@ == old(self)@,
            old(self)@.len() > 0 ==> r == Some(old(self)@.last()) && final(self)@ == old(
                self,
            )@.drop_last(),
            final(self)@ == stack_step(old(self)@, None),
    {
        proof {
            use_type_invariant(&*self);
        }
        let mut data = Vec::new();
        std::mem::swap(&mut data, &mut self.data);
        let r = data.pop();
        self.data = data;
        r
    }

    /// Number of items on the stack.
    pub fn len(&self) -> (r: usize)
        ensures
            r == self@.len(),
            r <= N,
    {
        proof {
            use_type_invariant(self);
        }
        self.data.len()
    }

    /// The item at position `idx` from the bottom.
    pub fn index(&self, idx: usize) -> (r: T)
        requires
            idx < self@.len(),
        ensures
            r == self@[idx as int],
    {
        self.data[idx]
    }

    /// Replaces the item at position `idx` from the bottom.
    pub fn set(&mut self, idx: usize, item: T)
        requires
            idx < old(self)@.len(),
        ensures
            final(self)@ == old(self)@.update(idx as int, item),
    {
        proof {
            use_type_invariant(&*self);
        }
        let mut data = Vec::new();
        std::mem::swap(&mut data, &mut self.data);
        data.set(idx, item);
        self.data = data;
    }
}

/// Floor of the base-2 logarithm, for positive numbers.
pub open spec fn is_log2(n: int, r: int) -> bool {
    r >= 0 && pow2(r as nat) <= n < pow2((r + 1) as nat)
}

pub proof fn lemma_lg_table(i: int)
    requires
        1 <= i < 256,
    ensures
        0 <= LG_TABLE@[i] <= 7,
        is_log2(i, LG_TABLE@[i] as int),
{
    lemma2_to64();
    if i < 2 {
        assert(LG_TABLE@[i] == 0);
    } else if i < 4 {
        assert(LG_TABLE@[i] == 1);
    } else if i < 8 {
        assert(LG_TABLE@[i] == 2);
    } else if i < 16 {
        assert(LG_TABLE@[i] == 3);
    } else if i < 32 {
        assert(LG_TABLE@[i] == 4);
    } else if i < 64 {
        assert(LG_TABLE@[i] == 5);
    } else if i < 128 {
        assert(LG_TABLE@[i] == 6);
    } else {
        assert(LG_TABLE@[i] == 7);
    }
}

/// Shifting out `k` low bits takes 8 off the logarithm for each byte.
pub proof fn lemma_log2_shift(n: int, q: int, k: nat, r: int)
    requires
        is_log2(q, r),
        q == n / pow2(k) as int,
        n >= 0,
    ensures
        is_log2(n, r + k),
{
    vstd::arithmetic::power2::lemma_pow2_pos(k);
    vstd::arithmetic::power2::lemma_pow2_adds(r as nat, k);
    vstd::arithmetic::power2::lemma_pow2_adds((r + 1) as nat, k);
    let p = pow2(k) as int;
    let a = pow2(r as nat) as int;
    let b = pow2((r + 1) as nat) as int;
    vstd::arithmetic::div_mod::lemma_fundamental_div_mod(n, p);
    vstd::arithmetic::div_mod::lemma_mod_pos_bound(n, p);
    assert(a * p <= q * p) by (nonlinear_arith)
        requires a <= q, p > 0;
    assert((q + 1) * p <= b * p) by (nonlinear_arith)
        requires q + 1 <= b, p > 0;
    assert(q * p + p == (q + 1) * p) by (nonlinear_arith);
}

/// Halving as the binary searches write it: `len >> 1` and `(len & 1) ^ 1`.
pub proof fn lemma_halving(len: i32)
    requires
        len >= 0,
    ensures
        len >> 1 == len / 2,
        (len & 1) ^ 1 == 1 - len % 2,
{
    assert(len >= 0 ==> len >> 1 == len / 2) by (bit_vector);
    assert(len >= 0 ==> (len & 1) ^ 1 == 1 - len % 2) by (bit_vector);
}

} // verus!
