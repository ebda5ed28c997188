//! Single numeric slots backing every metric value.
//!
//! Three cell kinds exist: an unsigned 64-bit cell, a signed 64-bit cell and
//! a cell holding the raw bit pattern of a 64-bit binary floating-point
//! value.  Mutation goes through exclusive references, so each operation has
//! an exact before/after contract; increments and decrements wrap on
//! overflow rather than failing, and the aggregate reached by a run of
//! increments depends only on the multiset of deltas applied, never on their
//! order ([`lemma_increments_commute`]).

use core::sync::atomic::Ordering;
use vstd::prelude::*;

verus! {

/// The value reached by applying a run of wrapping increments, first delta
/// first.
pub open spec fn apply_incs(start: u64, deltas: Seq<u64>) -> u64
    decreases deltas.len(),
{
    if deltas.len() == 0 {
        start
    } else {
        apply_incs(vstd::wrapping::u64_specs::wrapping_add(start, deltas[0]), deltas.drop_first())
    }
}

/// The exact mathematical total of a run of deltas, without wrapping.
pub open spec fn deltas_total(deltas: Seq<u64>) -> int
    decreases deltas.len(),
{
    if deltas.len() == 0 {
        0
    } else {
        deltas[0] + deltas_total(deltas.drop_first())
    }
}

/// An unsigned 64-bit numeric slot.
#[derive(Debug)]
pub struct AtomicU64 {
    inner: u64,
}

impl View for AtomicU64 {
    type V = u64;

    closed spec fn view(&self) -> u64 {
        self.inner
    }
}

impl AtomicU64 {
    /// Create a new cell holding `val`.
    pub fn new(val: u64) -> (r: AtomicU64)
        ensures
            r@ == val,
    {
        AtomicU64 { inner: val }
    }

    /// Set the value to the provided value.
    pub fn set(&mut self, val: u64)
        ensures
            final(self)@ == val,
    {
        self.inner = val;
    }

    /// Get the value.
    pub fn get(&self) -> (v: u64)
        ensures
            v == self@,
    {
        self.inner
    }

    /// Increment the value by a given amount, wrapping on overflow.
    pub fn inc_by(&mut self, delta: u64)
        ensures
            final(self)@ == vstd::wrapping::u64_specs::wrapping_add(old(self)@, delta),
    {
        self.inner = self.inner.wrapping_add(delta);
    }

    /// Decrement the value by a given amount, wrapping on underflow.
    pub fn dec_by(&mut self, delta: u64)
        ensures
            final(self)@ == vstd::wrapping::u64_specs::wrapping_sub(old(self)@, delta),
    {
        self.inner = self.inner.wrapping_sub(delta);
    }

    /// Increment the value by a given amount under the provided memory
    /// ordering.  A cell reached through an exclusive reference observes no
    /// other writer, so every ordering leaves the same value behind.
    pub fn inc_by_with_ordering(&mut self, delta: u64, ordering: Ordering)
        ensures
            final(self)@ == vstd::wrapping::u64_specs::wrapping_add(old(self)@, delta),
    {
        let _ = ordering;
        self.inner = self.inner.wrapping_add(delta);
    }

    /// Store a value, returning the previous value.
    pub fn swap(&mut self, val: u64, ordering: Ordering) -> (r: u64)
        ensures
            final(self)@ == val,
            r == old(self)@,
    {
        let _ = ordering;
        let prev = self.inner;
        self.inner = val;
        prev
    }

    /// Store `new` if the current value equals `current`; the result carries
    /// the previous value, as `Ok` when the store happened and as `Err` when
    /// it did not.
    pub fn compare_exchange_weak(
        &mut self,
        current: u64,
        new: u64,
        success: Ordering,
        failure: Ordering,
    ) -> (r: Result<u64, u64>)
        ensures
            old(self)@ == current ==> r == Result::<u64, u64>::Ok(current) && final(self)@ == new,
            old(self)@ != current ==> r == Result::<u64, u64>::Err(old(self)@) && final(self)@
                == old(self)@,
    {
        let _ = success;
        let _ = failure;
        if self.inner == current {
            self.inner = new;
            Ok(current)
        } else {
            Err(self.inner)
        }
    }
}

/// A signed 64-bit numeric slot.
#[derive(Debug)]
pub struct AtomicI64 {
    inner: i64,
}

impl View for AtomicI64 {
    type V = i64;

    closed spec fn view(&self) -> i64 {
        self.inner
    }
}

impl AtomicI64 {
    /// Create a new cell holding `val`.
    pub fn new(val: i64) -> (r: AtomicI64)
        ensures
            r@ == val,
    {
        AtomicI64 { inner: val }
    }

    /// Set the value to the provided value.
    pub fn set(&mut self, val: i64)
        ensures
            final(self)@ == val,
    {
        self.inner = val;
    }

    /// Get the value.
    pub fn get(&self) -> (v: i64)
        ensures
            v == self@,
    {
        self.inner
    }

    /// Increment the value by a given amount, wrapping on overflow.
    pub fn inc_by(&mut self, delta: i64)
        ensures
            final(self)@ == vstd::wrapping::i64_specs::wrapping_add(old(self)@, delta),
    {
        self.inner = self.inner.wrapping_add(delta);
    }

    /// Decrement the value by a given amount, wrapping on underflow.
    pub fn dec_by(&mut self, delta: i64)
        ensures
            final(self)@ == vstd::wrapping::i64_specs::wrapping_sub(old(self)@, delta),
    {
        self.inner = self.inner.wrapping_sub(delta);
    }
}

/// A slot for the bit pattern of a 64-bit binary floating-point value.
///
/// The cell stores and hands back raw bit patterns only; turning a pattern
/// into a number, or adding two patterns, is arithmetic this crate keeps
/// out, so the cell offers no increment operation.
#[derive(Debug)]
pub struct AtomicF64 {
    inner: u64,
}

impl View for AtomicF64 {
    type V = u64;

    closed spec fn view(&self) -> u64 {
        self.inner
    }
}

impl AtomicF64 {
    /// Create a new cell holding the bit pattern `bits`.
    pub fn new(bits: u64) -> (r: AtomicF64)
        ensures
            r@ == bits,
    {
        AtomicF64 { inner: bits }
    }

    /// Replace the stored bit pattern.
    pub fn set(&mut self, bits: u64)
        ensures
            final(self)@ == bits,
    {
        self.inner = bits;
    }

    /// Read the stored bit pattern.
    pub fn get(&self) -> (bits: u64)
        ensures
            bits == self@,
    {
        self.inner
    }

    /// Store a bit pattern, returning the previous one.
    pub fn swap(&mut self, bits: u64, ordering: Ordering) -> (r: u64)
        ensures
            final(self)@ == bits,
            r == old(self)@,
    {
        let _ = ordering;
        let prev = self.inner;
        self.inner = bits;
        prev
    }
}

/// A run of increments always lands on the start plus the run's exact total,
/// reduced to the cell's 64-bit range.
pub proof fn lemma_apply_incs_total(start: u64, deltas: Seq<u64>)
    ensures
        apply_incs(start, deltas) == (start + deltas_total(deltas)) % 0x1_0000_0000_0000_0000,
    decreases deltas.len(),
{
    if deltas.len() == 0 {
    } else {
        let w = vstd::wrapping::u64_specs::wrapping_add(start, deltas[0]);
        lemma_apply_incs_total(w, deltas.drop_first());
        assert((start + deltas[0] + deltas_total(deltas.drop_first()))
            % 0x1_0000_0000_0000_0000 == (w + deltas_total(deltas.drop_first()))
            % 0x1_0000_0000_0000_0000) by (nonlinear_arith)
            requires
                w == (start + deltas[0]) % 0x1_0000_0000_0000_0000,
        ;
    }
}

/// Reordering a run of deltas does not change its exact total.
pub proof fn lemma_total_permutation(s1: Seq<u64>, s2: Seq<u64>)
    requires
        s1.to_multiset() == s2.to_multiset(),
    ensures
        deltas_total(s1) == deltas_total(s2),
    decreases s1.len(),
{
    broadcast use vstd::seq_lib::group_to_multiset_ensures;

    if s1.len() == 0 {
        assert(s2.to_multiset().len() == 0);
    } else {
        let x = s1[0];
        assert(s1.to_multiset().count(x) > 0);
        assert(s2.contains(x));
        let i = choose|i: int| 0 <= i < s2.len() && s2[i] == x;
        let s1r = s1.drop_first();
        let s2r = s2.remove(i);
        assert(s1r =~= s1.remove(0));
        assert(s1r.to_multiset() =~= s2r.to_multiset());
        lemma_total_permutation(s1r, s2r);
        lemma_total_remove(s2, i);
    }
}

/// Removing one delta from a run lowers its exact total by that delta.
proof fn lemma_total_remove(s: Seq<u64>, i: int)
    requires
        0 <= i < s.len(),
    ensures
        deltas_total(s) == deltas_total(s.remove(i)) + s[i],
    decreases s.len(),
{
    if i == 0 {
        assert(s.remove(0) =~= s.drop_first());
    } else {
        lemma_total_remove(s.drop_first(), i - 1);
        assert(s.remove(i).drop_first() =~= s.drop_first().remove(i - 1));
    }
}

/// Atomic correctness: however a set of concurrent increments interleaves,
/// the cell ends on the same value, namely the start plus the multiset's
/// total; a run of `n` unit increments on a fresh cell therefore always
/// yields exactly `n` whenever `n` fits in the cell.
pub proof fn lemma_increments_commute(start: u64, s1: Seq<u64>, s2: Seq<u64>)
    requires
        s1.to_multiset() == s2.to_multiset(),
    ensures
        apply_incs(start, s1) == apply_incs(start, s2),
{
    lemma_apply_incs_total(start, s1);
    lemma_apply_incs_total(start, s2);
    lemma_total_permutation(s1, s2);
}

/// A run of `n` unit increments on a fresh zero cell yields exactly `n`.
pub proof fn lemma_unit_increments_count(n: nat)
    requires
        n <= u64::MAX,
    ensures
        apply_incs(0, Seq::new(n, |i: int| 1u64)) == n,
{
    let ones = Seq::new(n, |i: int| 1u64);
    lemma_apply_incs_total(0, ones);
    lemma_total_ones(n);
    assert(n % 0x1_0000_0000_0000_0000 == n) by (nonlinear_arith)
        requires
            0 <= n <= u64::MAX,
    ;
}

/// The exact total of `n` unit deltas is `n`.
proof fn lemma_total_ones(n: nat)
    ensures
        deltas_total(Seq::new(n, |i: int| 1u64)) == n,
    decreases n,
{
    if n > 0 {
        lemma_total_ones((n - 1) as nat);
        assert(Seq::new(n, |i: int| 1u64).drop_first() =~= Seq::new(
            (n - 1) as nat,
            |i: int| 1u64,
        ));
    }
}

} // verus!
