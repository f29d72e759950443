//! The allocator of node indices.

use vstd::prelude::*;
use std::sync::Arc;
use std::sync::atomic::AtomicUsize;
use std::sync::atomic::Ordering;

verus! {

/// A shared counter that hands out distinct positive numbers.
///
/// Copies made with [`IdDistributer::share`] draw from the same counter, from
/// any thread. The counter is shared state, so a contract can say of a number
/// only that it lies above the count that the counter was made with; that it
/// is new is checked where the number is used as a key.
#[derive(Debug)]
pub struct IdDistributer {
    cnt: Arc<AtomicUsize>,
    floor: usize,
}

/// The number handed out when the counter read `c` before the increment:
/// `c + 1`, or none where that does not fit.
pub open spec fn id_after(c: usize) -> Option<usize> {
    if c < usize::MAX {
        Some((c + 1) as usize)
    } else {
        None
    }
}

/// Computes [`id_after`].
pub fn next_id(c: usize) -> (r: Option<usize>)
    ensures
        r == id_after(c),
{
    if c < usize::MAX {
        Some(c + 1)
    } else {
        None
    }
}

/// The number `got`, if there is one and it lies above `floor`.
pub open spec fn kept(got: Option<usize>, floor: usize) -> Option<usize> {
    match got {
        Some(n) => if n > floor {
            Some(n)
        } else {
            None
        },
        None => None,
    }
}

/// Computes [`kept`].
pub fn keep_above(got: Option<usize>, floor: usize) -> (r: Option<usize>)
    ensures
        r == kept(got, floor),
{
    match got {
        Some(n) => if n > floor {
            Some(n)
        } else {
            None
        },
        None => None,
    }
}

impl IdDistributer {
    /// A counter whose first number is `1`.
    pub fn new() -> (r: IdDistributer)
        ensures
            r.floor() == 0,
    {
        IdDistributer { cnt: Arc::new(AtomicUsize::new(0)), floor: 0 }
    }

    /// A counter whose first number is `cnt + 1`.
    pub fn from_count(cnt: usize) -> (r: IdDistributer)
        ensures
            r.floor() == cnt,
    {
        IdDistributer { cnt: Arc::new(AtomicUsize::new(cnt)), floor: cnt }
    }

    /// Takes the next number: the counter's value before the call, plus one.
    /// Gives nothing where that number does not fit: the counter stood at
    /// its largest value, and starts over after this call. Gives nothing
    /// either where the number does not lie above the floor, as it may
    /// after the counter has started over. A number that is handed out is
    /// never `0`.
    pub fn allocate(&self) -> (r: Option<usize>)
        ensures
            r matches Some(n) ==> n > self.floor(),
    {
        let c: usize = self.cnt.fetch_add(1, Ordering::Relaxed);
        keep_above(next_id(c), self.floor)
    }

    /// The count that the counter was made with. Every number that is
    /// handed out lies above it.
    pub closed spec fn floor(&self) -> usize {
        self.floor
    }

    /// Another handle on the same counter: as a value it is this handle.
    pub fn share(&self) -> (r: IdDistributer)
        ensures
            r == *self,
    {
        IdDistributer { cnt: self.cnt.clone(), floor: self.floor }
    }
}

impl Default for IdDistributer {
    fn default() -> IdDistributer {
        IdDistributer::new()
    }
}

impl Clone for IdDistributer {
    fn clone(&self) -> IdDistributer {
        self.share()
    }
}

} // verus!
