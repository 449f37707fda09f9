//! The search for the size of a filter: a bisection between one byte and a
//! cap, steered by the answer to one question per probe, whether the rate
//! of false positives at the probed size is above the rate asked for.

use vstd::prelude::*;

verus! {

/// The bounds between which the size is still sought. The upper bound is a
/// size that is known to be large enough.
#[derive(Clone, Copy, Debug, PartialEq, Eq, Structural)]
pub struct SizeSearch {
    pub lo: usize,
    pub hi: usize,
}

/// The size that the search probes next: the middle of the bounds, or
/// nothing when the bounds have met.
pub open spec fn probe_of(search: SizeSearch) -> Option<usize> {
    if search.lo < search.hi {
        Some((search.lo + (search.hi - search.lo) / 2) as usize)
    } else {
        None
    }
}

/// The bounds after the probe was answered: a rate that is too high moves
/// the lower bound above the probe, any other rate moves the upper bound
/// down to it.
pub open spec fn narrowed(search: SizeSearch, too_high: bool) -> SizeSearch {
    match probe_of(search) {
        Some(mid) => if too_high {
            SizeSearch { lo: (mid + 1) as usize, hi: search.hi }
        } else {
            SizeSearch { lo: search.lo, hi: mid }
        },
        None => search,
    }
}

/// The size on which the search settles when every probe is answered by
/// `too_high`.
pub open spec fn settled(search: SizeSearch, too_high: spec_fn(usize) -> bool) -> usize
    decreases search.hi - search.lo,
{
    match probe_of(search) {
        Some(mid) => settled(narrowed(search, too_high(mid)), too_high),
        None => search.hi,
    }
}

/// Law: the search settles on a size that is large enough. Where the rate
/// at the upper bound is not too high, the rate at the size that the
/// search settles on is not too high either, whatever the answers in
/// between.
pub proof fn law_search_finds_sufficient_size(
    search: SizeSearch,
    too_high: spec_fn(usize) -> bool,
)
    requires
        search.lo <= search.hi,
        !too_high(search.hi),
    ensures
        !too_high(settled(search, too_high)),
        search.lo <= settled(search, too_high) <= search.hi,
    decreases search.hi - search.lo,
{
    match probe_of(search) {
        Some(mid) => {
            law_search_finds_sufficient_size(narrowed(search, too_high(mid)), too_high);
        },
        None => {},
    }
}

/// Law: the search settles on the least size that is large enough. Where
/// a rate that is too high at one size is too high at every smaller size,
/// and every size below the lower bound is too small, every size below the
/// one that the search settles on is too small.
pub proof fn law_search_finds_least_size(search: SizeSearch, too_high: spec_fn(usize) -> bool)
    requires
        search.lo <= search.hi,
        forall|a: usize, b: usize| a <= b && #[trigger] too_high(b) ==> #[trigger] too_high(a),
        forall|m: usize| m < search.lo ==> #[trigger] too_high(m),
    ensures
        forall|m: usize| m < settled(search, too_high) ==> #[trigger] too_high(m),
    decreases search.hi - search.lo,
{
    match probe_of(search) {
        Some(mid) => {
            let next = narrowed(search, too_high(mid));
            assert forall|m: usize| m < next.lo implies #[trigger] too_high(m) by {
                if too_high(mid) && m >= search.lo {
                    assert(m <= mid);
                }
            }
            law_search_finds_least_size(next, too_high);
        },
        None => {},
    }
}

/// The number of bytes of the words of a filter of `size_in_bytes`: whole
/// words of four bytes only.
pub fn aligned_size(size_in_bytes: usize) -> (aligned: usize)
    ensures
        aligned == size_in_bytes / 4 * 4,
        aligned <= size_in_bytes,
        aligned % 4 == 0,
{
    size_in_bytes / 4 * 4
}

/// The number of bits of a filter of `size_in_bytes`, counted wide enough
/// for any size.
pub fn size_in_bits(size_in_bytes: usize) -> (bits: u128)
    ensures
        bits == size_in_bytes * 8,
{
    size_in_bytes as u128 * 8
}

/// The number of hashers of a new filter: the number that was asked for,
/// and the optimal number where none was asked for, which zero stands for.
pub fn number_of_hashers(requested: usize, optimal: usize) -> (hashers: usize)
    ensures
        hashers == if requested == 0 {
            optimal
        } else {
            requested
        },
{
    if requested == 0 {
        optimal
    } else {
        requested
    }
}

impl SizeSearch {
    /// The search between one byte and the cap, which is taken to be large
    /// enough.
    pub fn new(cap: usize) -> (search: SizeSearch)
        ensures
            search == (SizeSearch {
                lo: if cap >= 1 {
                    1
                } else {
                    cap
                },
                hi: cap,
            }),
    {
        SizeSearch { lo: if cap >= 1 { 1 } else { cap }, hi: cap }
    }

    /// The size to probe next, or nothing when the search is over and
    /// `result` holds the size.
    pub fn probe(&self) -> (mid: Option<usize>)
        ensures
            mid == probe_of(*self),
            mid matches Some(m) ==> self.lo <= m < self.hi,
    {
        if self.lo < self.hi {
            Some(self.lo + (self.hi - self.lo) / 2)
        } else {
            None
        }
    }

    /// Takes the answer to the probe: whether the rate of false positives at
    /// the probed size is above the rate asked for. The bounds move closer,
    /// so that the search ends.
    pub fn narrow(&mut self, too_high: bool)
        ensures
            *final(self) == narrowed(*old(self), too_high),
            probe_of(*old(self)) is Some ==> final(self).hi - final(self).lo < old(self).hi - old(
                self,
            ).lo,
            old(self).lo <= old(self).hi ==> final(self).lo <= final(self).hi,
    {
        match self.probe() {
            Some(mid) => {
                if too_high {
                    self.lo = mid + 1;
                } else {
                    self.hi = mid;
                }
            },
            None => {},
        }
    }

    /// The size that the search settles on: its upper bound.
    pub fn result(&self) -> (size: usize)
        ensures
            size == self.hi,
    {
        self.hi
    }
}

} // verus!
