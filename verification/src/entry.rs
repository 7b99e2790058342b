//! One remembered directory and its score.

use crate::rank::Rank;
use vstd::arithmetic::div_mod::lemma_div_is_ordered_by_denominator;
use vstd::prelude::*;

verus! {

/// What an entry is, as plain values: its path, its rank in millionths, and
/// the second of its last visit.
pub struct EntryView {
    pub path: Seq<char>,
    pub rank: nat,
    pub time: nat,
}

/// A remembered directory: where it is, how much it was visited, and when it
/// was visited last (seconds since the epoch).
#[derive(Debug)]
pub struct DirEntry {
    pub path: String,
    pub rank: Rank,
    pub time: u64,
}

impl View for DirEntry {
    type V = EntryView;

    open spec fn view(&self) -> EntryView {
        EntryView { path: self.path@, rank: self.rank@, time: self.time as nat }
    }
}

/// The seconds from the last visit to `now`. A last visit that lies after
/// `now` counts as made at `now`.
pub open spec fn elapsed(time: nat, now: nat) -> nat {
    if now >= time {
        (now - time) as nat
    } else {
        0
    }
}

/// The score `10000 * rank * 3.75 / (0.0001 * elapsed + 1.25)`, rounded down.
///
/// With the rank in millionths, and numerator and denominator both scaled by
/// ten thousand, the quotient is `375 * rank_micros / (elapsed + 12500)`.
pub open spec fn raw_score(rank_micros: nat, elapsed: nat) -> nat {
    (375 * rank_micros) / (elapsed + 12_500)
}

/// The score of an entry at the instant `now`: its raw score, held at the
/// largest `i32`.
pub open spec fn frecency_of(rank_micros: nat, time: nat, now: nat) -> int {
    let raw = raw_score(rank_micros, elapsed(time, now));
    if raw > i32::MAX {
        i32::MAX as int
    } else {
        raw as int
    }
}

impl Clone for DirEntry {
    fn clone(&self) -> (copy: Self)
        ensures
            copy@ == self@,
    {
        DirEntry { path: self.path.clone(), rank: self.rank, time: self.time }
    }
}

impl DirEntry {
    /// An entry made of its three parts.
    pub fn new(path: String, rank: Rank, time: u64) -> (entry: Self)
        ensures
            entry.path == path,
            entry.rank == rank,
            entry.time == time,
    {
        Self { path, rank, time }
    }

    /// The entry's score at the instant `now`.
    pub fn frecency(&self, now: u64) -> (score: i32)
        ensures
            score == frecency_of(self.rank@, self.time as nat, now as nat),
    {
        let dx: u64 = if now >= self.time {
            now - self.time
        } else {
            0
        };
        let numerator: u128 = 375 * (self.rank.micros as u128);
        let denominator: u128 = dx as u128 + 12_500;
        let quotient: u128 = numerator / denominator;
        if quotient > i32::MAX as u128 {
            i32::MAX
        } else {
            quotient as i32
        }
    }
}

/// Of two entries of equal rank, scored at the same instant, the one visited
/// later never scores lower.
pub proof fn lemma_frecency_monotone(rank_micros: nat, earlier: nat, later: nat, now: nat)
    requires
        earlier <= later,
    ensures
        frecency_of(rank_micros, later, now) >= frecency_of(rank_micros, earlier, now),
{
    let short = elapsed(later, now);
    let long = elapsed(earlier, now);
    assert(short <= long);
    lemma_div_is_ordered_by_denominator(
        (375 * rank_micros) as int,
        (short + 12_500) as int,
        (long + 12_500) as int,
    );
}

/// Of two entries of equal rank, scored at the same instant, the one visited
/// later scores strictly higher, provided that less time has passed since
/// its visit, that the scores before rounding differ by one or more, and
/// that the higher one is within `i32`.
///
/// Without the provisos the scores can be equal: rounding down makes
/// neighbouring scores meet, and so does the hold at the largest `i32`.
pub proof fn lemma_frecency_strictly_decreasing(
    rank_micros: nat,
    earlier: nat,
    later: nat,
    now: nat,
)
    requires
        elapsed(later, now) < elapsed(earlier, now),
        375 * rank_micros * (elapsed(earlier, now) - elapsed(later, now)) >= (elapsed(later, now)
            + 12_500) * (elapsed(earlier, now) + 12_500),
        raw_score(rank_micros, elapsed(later, now)) <= i32::MAX,
    ensures
        frecency_of(rank_micros, later, now) > frecency_of(rank_micros, earlier, now),
{
    let a: int = (375 * rank_micros) as int;
    let d1: int = (elapsed(later, now) + 12_500) as int;
    let d2: int = (elapsed(earlier, now) + 12_500) as int;
    assert(375 * rank_micros * (elapsed(earlier, now) - elapsed(later, now)) == a * (d2 - d1))
        by (nonlinear_arith)
        requires
            a == 375 * rank_micros,
            d2 - d1 == elapsed(earlier, now) - elapsed(later, now),
    ;
    assert(d1 * d2 == (elapsed(later, now) + 12_500) * (elapsed(earlier, now) + 12_500));
    assert(a / d1 > a / d2) by (nonlinear_arith)
        requires
            a >= 0,
            0 < d1 < d2,
            a * (d2 - d1) >= d1 * d2,
    {
        let q = a / d2;
        assert(q * d2 <= a);
        assert(a < (a / d1 + 1) * d1);
        if a / d1 <= q {
            assert((q + 1) * d1 > a);
            assert(a * d2 < (q + 1) * d1 * d2);
            assert((q + 1) * d1 * d2 == q * d2 * d1 + d1 * d2);
            assert(q * d2 * d1 <= a * d1);
            assert(false);
        }
    }
}

} // verus!
