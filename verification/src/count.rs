//! Counter-width abstraction for histogram bucket counts.
//!
//! [`Count`] is implemented for `u32` and `u64`; [`AtomicCount`] for the
//! matching atomic primitives. Both traits are sealed.
use vstd::prelude::*;
use core::sync::atomic::{AtomicU32, AtomicU64, Ordering};

mod sealed;

pub use sealed::Sealed;

verus! {

/// The sum `a + b` taken modulo `max + 1`, for `a` and `b` no greater than `max`.
pub open spec fn wrapped_sum(a: nat, b: nat, max: nat) -> nat {
    if a + b > max {
        (a + b - (max + 1)) as nat
    } else {
        a + b
    }
}

/// The difference `a - b` taken modulo `max + 1`, for `a` and `b` no greater than `max`.
pub open spec fn wrapped_difference(a: nat, b: nat, max: nat) -> nat {
    if a >= b {
        (a - b) as nat
    } else {
        (a + (max + 1) - b) as nat
    }
}

/// A counter type usable for histogram bucket counts.
///
/// Sealed: implemented only for `u32` and `u64` inside this crate.
pub trait Count: Sealed + Copy + Default + Eq + Ord + core::fmt::Debug + 'static {
    /// The atomic-primitive counterpart used by the atomic histograms.
    type Atomic: AtomicCount<Value = Self>;

    /// The additive identity for this counter type.
    const ZERO: Self;
    /// The multiplicative identity (used by `increment`).
    const ONE: Self;

    /// The counter as a natural number.
    spec fn spec_value(self) -> nat;

    /// The largest value the counter can hold.
    spec fn spec_max() -> nat;

    /// Basic facts about the counter: the constants, the range, and that a
    /// counter is determined by its value.
    proof fn lemma_count_facts()
        ensures
            Self::ZERO.spec_value() == 0,
            Self::ONE.spec_value() == 1,
            1 <= Self::spec_max() <= u64::MAX,
            forall|c: Self| #[trigger] c.spec_value() <= Self::spec_max(),
            forall|a: Self, b: Self| a.spec_value() == b.spec_value() ==> a == b,
            0 < vstd::layout::size_of::<Self>() <= 8,
    ;

    /// Addition that wraps around at the counter's limit.
    fn wrapping_add(self, other: Self) -> (r: Self)
        ensures
            r.spec_value() == wrapped_sum(self.spec_value(), other.spec_value(), Self::spec_max()),
    ;

    /// Subtraction that wraps around at zero.
    fn wrapping_sub(self, other: Self) -> (r: Self)
        ensures
            r.spec_value() == wrapped_difference(
                self.spec_value(),
                other.spec_value(),
                Self::spec_max(),
            ),
    ;

    /// Addition that fails instead of exceeding the counter's limit.
    fn checked_add(self, other: Self) -> (r: Option<Self>)
        ensures
            r is Some <==> self.spec_value() + other.spec_value() <= Self::spec_max(),
            r matches Some(c) ==> c.spec_value() == self.spec_value() + other.spec_value(),
    ;

    /// Subtraction that fails instead of going below zero.
    fn checked_sub(self, other: Self) -> (r: Option<Self>)
        ensures
            r is Some <==> other.spec_value() <= self.spec_value(),
            r matches Some(c) ==> c.spec_value() == self.spec_value() - other.spec_value(),
    ;

    /// Widen to `u128` for partial-sum aggregation.
    fn as_u128(self) -> (r: u128)
        ensures
            r == self.spec_value(),
    ;

    /// Narrow from `u64`. Returns `None` if `v` exceeds the range of `Self`.
    fn try_from_u64(v: u64) -> (r: Option<Self>)
        ensures
            r is Some <==> v <= Self::spec_max(),
            r matches Some(c) ==> c.spec_value() == v,
    ;
}

/// Atomic counterpart of a [`Count`] type.
///
/// Sealed: implemented only for `AtomicU32` and `AtomicU64` inside this crate.
/// The value an atomic holds can change at any time through other threads, so
/// the operations promise nothing about the values they observe.
pub trait AtomicCount: Sealed + Sized {
    /// The plain counter type stored in the atomic.
    type Value: Copy;

    /// A new atomic holding `v`.
    fn new(v: Self::Value) -> Self;

    /// Reads the current value.
    fn load_relaxed(&self) -> Self::Value;

    /// Overwrites the current value.
    fn store_relaxed(&self, v: Self::Value);

    /// Adds `v`, wrapping around at the counter's limit.
    fn fetch_add_relaxed(&self, v: Self::Value);

    /// Replaces the current value with `v` and returns the previous one.
    fn swap_relaxed(&self, v: Self::Value) -> Self::Value;
}

impl Sealed for u32 {}

impl Sealed for u64 {}

impl Sealed for AtomicU32 {}

impl Sealed for AtomicU64 {}

impl Count for u32 {
    type Atomic = AtomicU32;

    const ZERO: Self = 0;

    const ONE: Self = 1;

    open spec fn spec_value(self) -> nat {
        self as nat
    }

    open spec fn spec_max() -> nat {
        u32::MAX as nat
    }

    proof fn lemma_count_facts() {
        broadcast use vstd::layout::layout_of_primitives;
    }

    fn wrapping_add(self, other: Self) -> (r: Self) {
        u32::wrapping_add(self, other)
    }

    fn wrapping_sub(self, other: Self) -> (r: Self) {
        u32::wrapping_sub(self, other)
    }

    fn checked_add(self, other: Self) -> (r: Option<Self>) {
        u32::checked_add(self, other)
    }

    fn checked_sub(self, other: Self) -> (r: Option<Self>) {
        u32::checked_sub(self, other)
    }

    fn as_u128(self) -> (r: u128) {
        self as u128
    }

    fn try_from_u64(v: u64) -> (r: Option<Self>) {
        if v <= u32::MAX as u64 {
            Some(v as u32)
        } else {
            None
        }
    }
}

impl Count for u64 {
    type Atomic = AtomicU64;

    const ZERO: Self = 0;

    const ONE: Self = 1;

    open spec fn spec_value(self) -> nat {
        self as nat
    }

    open spec fn spec_max() -> nat {
        u64::MAX as nat
    }

    proof fn lemma_count_facts() {
        broadcast use vstd::layout::layout_of_primitives;
    }

    fn wrapping_add(self, other: Self) -> (r: Self) {
        u64::wrapping_add(self, other)
    }

    fn wrapping_sub(self, other: Self) -> (r: Self) {
        u64::wrapping_sub(self, other)
    }

    fn checked_add(self, other: Self) -> (r: Option<Self>) {
        u64::checked_add(self, other)
    }

    fn checked_sub(self, other: Self) -> (r: Option<Self>) {
        u64::checked_sub(self, other)
    }

    fn as_u128(self) -> (r: u128) {
        self as u128
    }

    fn try_from_u64(v: u64) -> (r: Option<Self>) {
        Some(v)
    }
}

impl AtomicCount for AtomicU32 {
    type Value = u32;

    fn new(v: u32) -> Self {
        AtomicU32::new(v)
    }

    fn load_relaxed(&self) -> u32 {
        self.load(Ordering::Relaxed)
    }

    fn store_relaxed(&self, v: u32) {
        self.store(v, Ordering::Relaxed)
    }

    fn fetch_add_relaxed(&self, v: u32) {
        self.fetch_add(v, Ordering::Relaxed);
    }

    fn swap_relaxed(&self, v: u32) -> u32 {
        self.swap(v, Ordering::Relaxed)
    }
}

impl AtomicCount for AtomicU64 {
    type Value = u64;

    fn new(v: u64) -> Self {
        AtomicU64::new(v)
    }

    fn load_relaxed(&self) -> u64 {
        self.load(Ordering::Relaxed)
    }

    fn store_relaxed(&self, v: u64) {
        self.store(v, Ordering::Relaxed)
    }

    fn fetch_add_relaxed(&self, v: u64) {
        self.fetch_add(v, Ordering::Relaxed);
    }

    fn swap_relaxed(&self, v: u64) -> u64 {
        self.swap(v, Ordering::Relaxed)
    }
}

} // verus!
