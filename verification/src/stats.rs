//! The order-dependent core of the flight statistics engine: extremum
//! selection with first-occurrence tie-breaking. The engine's physical
//! quantities are floating point and are computed in the unverified shell;
//! the shell maps each record's quantity to an order-preserving integer key,
//! and which record is reported — top speed, apogee, the temperature
//! extremes, each resolved to the earliest record in file order on a tie —
//! is decided and proved here.

use vstd::prelude::*;

verus! {

/// The index of the first occurrence of the largest key.
pub fn first_max_index(keys: &Vec<u64>) -> (r: usize)
    requires
        keys@.len() > 0,
    ensures
        0 <= r < keys@.len(),
        forall|j: int| 0 <= j < keys@.len() ==> keys@[j] <= keys@[r as int],
        forall|j: int| 0 <= j < r ==> keys@[j] < keys@[r as int],
{
    let mut best: usize = 0;
    let mut i: usize = 1;
    while i < keys.len()
        invariant
            0 <= best < i <= keys@.len(),
            forall|j: int| 0 <= j < i ==> keys@[j] <= keys@[best as int],
            forall|j: int| 0 <= j < best ==> keys@[j] < keys@[best as int],
        decreases keys@.len() - i,
    {
        if keys[i] > keys[best] {
            best = i;
        }
        i = i + 1;
    }
    best
}

/// The index of the first occurrence of the smallest key.
pub fn first_min_index(keys: &Vec<u64>) -> (r: usize)
    requires
        keys@.len() > 0,
    ensures
        0 <= r < keys@.len(),
        forall|j: int| 0 <= j < keys@.len() ==> keys@[j] >= keys@[r as int],
        forall|j: int| 0 <= j < r ==> keys@[j] > keys@[r as int],
{
    let mut best: usize = 0;
    let mut i: usize = 1;
    while i < keys.len()
        invariant
            0 <= best < i <= keys@.len(),
            forall|j: int| 0 <= j < i ==> keys@[j] >= keys@[best as int],
            forall|j: int| 0 <= j < best ==> keys@[j] > keys@[best as int],
        decreases keys@.len() - i,
    {
        if keys[i] < keys[best] {
            best = i;
        }
        i = i + 1;
    }
    best
}

} // verus!
