//! Simultaneous mutable access to several elements of one slice.
//!
//! Distinct positions of a slice are distinct memory, so they can be written
//! at the same time. The functions here cut the slice at the positions asked
//! for and hand out one reference into each piece.

use vstd::prelude::*;

verus! {

/// Mutable references to the elements at `a` and `b`, in that order. Each
/// reference changes its own element and nothing else.
pub fn pick_two<X>(items: &mut [X], a: usize, b: usize) -> (picked: (&mut X, &mut X))
    requires
        a != b,
        a < old(items)@.len(),
        b < old(items)@.len(),
    ensures
        *picked.0 == old(items)@[a as int],
        *picked.1 == old(items)@[b as int],
        final(items)@ == old(items)@.update(a as int, *final(picked.0)).update(
            b as int,
            *final(picked.1),
        ),
{
    if a < b {
        let (low, high) = items.split_at_mut(b);
        let first = &mut low[a];
        let second = &mut high[0];
        (first, second)
    } else {
        let (low, high) = items.split_at_mut(a);
        let second = &mut low[b];
        let first = &mut high[0];
        (first, second)
    }
}

/// Mutable references to the elements at `a`, `b` and `c`, in that order.
pub fn pick_three<X>(items: &mut [X], a: usize, b: usize, c: usize) -> (picked: (
    &mut X,
    &mut X,
    &mut X,
))
    requires
        a != b,
        a != c,
        b != c,
        a < old(items)@.len(),
        b < old(items)@.len(),
        c < old(items)@.len(),
    ensures
        *picked.0 == old(items)@[a as int],
        *picked.1 == old(items)@[b as int],
        *picked.2 == old(items)@[c as int],
        final(items)@ == old(items)@.update(a as int, *final(picked.0)).update(
            b as int,
            *final(picked.1),
        ).update(c as int, *final(picked.2)),
{
    if a > b && a > c {
        let (low, high) = items.split_at_mut(a);
        let first = &mut high[0];
        let (second, third) = pick_two(low, b, c);
        (first, second, third)
    } else if b > c {
        let (low, high) = items.split_at_mut(b);
        let second = &mut high[0];
        let (first, third) = pick_two(low, a, c);
        (first, second, third)
    } else {
        let (low, high) = items.split_at_mut(c);
        let third = &mut high[0];
        let (first, second) = pick_two(low, a, b);
        (first, second, third)
    }
}

/// Mutable references to the elements at `a`, `b`, `c` and `d`, in that order.
pub fn pick_four<X>(items: &mut [X], a: usize, b: usize, c: usize, d: usize) -> (picked: (
    &mut X,
    &mut X,
    &mut X,
    &mut X,
))
    requires
        a != b,
        a != c,
        a != d,
        b != c,
        b != d,
        c != d,
        a < old(items)@.len(),
        b < old(items)@.len(),
        c < old(items)@.len(),
        d < old(items)@.len(),
    ensures
        *picked.0 == old(items)@[a as int],
        *picked.1 == old(items)@[b as int],
        *picked.2 == old(items)@[c as int],
        *picked.3 == old(items)@[d as int],
        final(items)@ == old(items)@.update(a as int, *final(picked.0)).update(
            b as int,
            *final(picked.1),
        ).update(c as int, *final(picked.2)).update(d as int, *final(picked.3)),
{
    if a > b && a > c && a > d {
        let (low, high) = items.split_at_mut(a);
        let first = &mut high[0];
        let (second, third, fourth) = pick_three(low, b, c, d);
        (first, second, third, fourth)
    } else if b > c && b > d {
        let (low, high) = items.split_at_mut(b);
        let second = &mut high[0];
        let (first, third, fourth) = pick_three(low, a, c, d);
        (first, second, third, fourth)
    } else if c > d {
        let (low, high) = items.split_at_mut(c);
        let third = &mut high[0];
        let (first, second, fourth) = pick_three(low, a, b, d);
        (first, second, third, fourth)
    } else {
        let (low, high) = items.split_at_mut(d);
        let fourth = &mut high[0];
        let (first, second, third) = pick_three(low, a, b, c);
        (first, second, third, fourth)
    }
}

} // verus!
