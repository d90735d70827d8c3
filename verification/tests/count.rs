use histogram::{AtomicCount, Count};
use std::sync::atomic::{AtomicU32, AtomicU64};

#[test]
fn u32_const_values() {
    assert_eq!(<u32 as Count>::ZERO, 0u32);
    assert_eq!(<u32 as Count>::ONE, 1u32);
}

#[test]
fn u64_const_values() {
    assert_eq!(<u64 as Count>::ZERO, 0u64);
    assert_eq!(<u64 as Count>::ONE, 1u64);
}

#[test]
fn u32_wrapping_arithmetic() {
    assert_eq!(<u32 as Count>::wrapping_add(u32::MAX, 1), 0);
    assert_eq!(<u32 as Count>::wrapping_sub(0, 1), u32::MAX);
}

#[test]
fn u32_checked_arithmetic() {
    assert_eq!(<u32 as Count>::checked_add(u32::MAX, 1), None);
    assert_eq!(<u32 as Count>::checked_sub(0u32, 1), None);
    assert_eq!(<u32 as Count>::checked_add(1u32, 1), Some(2));
}

#[test]
fn try_from_u64_narrowing() {
    assert_eq!(<u32 as Count>::try_from_u64(42), Some(42u32));
    assert_eq!(
        <u32 as Count>::try_from_u64(u32::MAX as u64),
        Some(u32::MAX)
    );
    assert_eq!(<u32 as Count>::try_from_u64(u32::MAX as u64 + 1), None);
    assert_eq!(<u64 as Count>::try_from_u64(u64::MAX), Some(u64::MAX));
}

#[test]
fn as_u128_widening() {
    assert_eq!(<u32 as Count>::as_u128(u32::MAX), u32::MAX as u128);
    assert_eq!(<u64 as Count>::as_u128(u64::MAX), u64::MAX as u128);
}

#[test]
fn atomic_u32_basic() {
    let a = <AtomicU32 as AtomicCount>::new(0);
    a.fetch_add_relaxed(5);
    assert_eq!(a.load_relaxed(), 5);
    let prev = a.swap_relaxed(10);
    assert_eq!(prev, 5);
    assert_eq!(a.load_relaxed(), 10);
}

#[test]
fn atomic_u64_basic() {
    let a = <AtomicU64 as AtomicCount>::new(0);
    a.fetch_add_relaxed(5);
    assert_eq!(a.load_relaxed(), 5);
}

#[test]
fn u64_wrapping_and_checked_arithmetic() {
    assert_eq!(<u64 as Count>::wrapping_add(u64::MAX, 2), 1);
    assert_eq!(<u64 as Count>::wrapping_sub(1, 2), u64::MAX);
    assert_eq!(<u64 as Count>::checked_add(u64::MAX, 1), None);
    assert_eq!(<u64 as Count>::checked_sub(7u64, 3), Some(4));
    assert_eq!(<u64 as Count>::checked_sub(3u64, 7), None);
}

#[test]
fn atomic_store_and_wrapping_fetch_add() {
    let a = <AtomicU32 as AtomicCount>::new(u32::MAX);
    a.fetch_add_relaxed(2);
    assert_eq!(a.load_relaxed(), 1);
    a.store_relaxed(9);
    assert_eq!(a.swap_relaxed(0), 9);
    assert_eq!(a.load_relaxed(), 0);
}
