//! Visit weights in fixed point.
//!
//! A rank counts millionths, so that every operation on it is exact integer
//! arithmetic: one visit is `1_000_000`, and decay rounds down to the next
//! millionth. A rank lies between zero and the largest `u64`; where a visit
//! or a text would lead out of that range, the rank is held at its end.

use vstd::prelude::*;

verus! {

/// Millionths in one whole unit of rank.
pub const MICROS_PER_UNIT: u64 = 1_000_000;

/// The accumulated visit weight of a directory, in millionths.
#[derive(Clone, Copy, Debug, PartialEq, Eq, Structural)]
pub struct Rank {
    pub micros: u64,
}

/// A rank one visit higher, held at the largest representable rank.
pub open spec fn bumped(micros: nat) -> nat {
    if micros + MICROS_PER_UNIT <= u64::MAX {
        micros + MICROS_PER_UNIT as nat
    } else {
        u64::MAX as nat
    }
}

/// A rank decayed to 99 percent, rounded down to a whole millionth.
pub open spec fn decayed(micros: nat) -> nat {
    (micros * 99) / 100
}

impl View for Rank {
    type V = nat;

    open spec fn view(&self) -> nat {
        self.micros as nat
    }
}

impl Rank {
    /// The weight of a single visit.
    pub fn one() -> (r: Rank)
        ensures
            r@ == MICROS_PER_UNIT,
    {
        Rank { micros: MICROS_PER_UNIT }
    }

    /// The rank that counts `micros` millionths.
    pub fn from_micros(micros: u64) -> (r: Rank)
        ensures
            r@ == micros,
    {
        Rank { micros }
    }

    /// The rank in millionths.
    pub fn micros(&self) -> (m: u64)
        ensures
            m == self@,
    {
        self.micros
    }

    /// The rank after one more visit.
    pub fn bump(&self) -> (r: Rank)
        ensures
            r@ == bumped(self@),
    {
        if self.micros <= u64::MAX - MICROS_PER_UNIT {
            Rank { micros: self.micros + MICROS_PER_UNIT }
        } else {
            Rank { micros: u64::MAX }
        }
    }

    /// The rank after one round of decay.
    pub fn decay(&self) -> (r: Rank)
        ensures
            r@ == decayed(self@),
            r@ <= self@,
    {
        let wide: u128 = self.micros as u128 * 99;
        let aged: u128 = wide / 100;
        Rank { micros: aged as u64 }
    }
}

} // verus!
