use vstd::prelude::*;

verus! {

/// A phase of the hand, by the number of community cards that are showing.
#[derive(PartialEq, Eq, Structural, Clone, Copy, Debug)]
pub enum Street {
    Pref,
    Flop,
    Turn,
    Rive,
}

impl Street {
    /// Position of the street in the order Preflop < Flop < Turn < River.
    pub open spec fn ord(self) -> nat {
        match self {
            Street::Pref => 0,
            Street::Flop => 1,
            Street::Turn => 2,
            Street::Rive => 3,
        }
    }

    /// The street whose position is `n`, for `n < 4`.
    pub open spec fn at(n: nat) -> Street {
        if n == 0 {
            Street::Pref
        } else if n == 1 {
            Street::Flop
        } else if n == 2 {
            Street::Turn
        } else {
            Street::Rive
        }
    }

    pub fn index(&self) -> (r: u64)
        ensures
            r == self.ord(),
            r < 4,
    {
        match self {
            Street::Pref => 0,
            Street::Flop => 1,
            Street::Turn => 2,
            Street::Rive => 3,
        }
    }

    pub fn from_index(n: u64) -> (r: Street)
        requires
            n < 4,
        ensures
            r == Street::at(n as nat),
            r.ord() == n,
    {
        if n == 0 {
            Street::Pref
        } else if n == 1 {
            Street::Flop
        } else if n == 2 {
            Street::Turn
        } else {
            Street::Rive
        }
    }

    /// The street before this one, toward Preflop; Preflop has none.
    pub fn prev(&self) -> (r: Option<Street>)
        ensures
            *self == Street::Pref <==> r.is_none(),
            r matches Some(s) ==> s.ord() + 1 == self.ord(),
    {
        match self {
            Street::Pref => None,
            Street::Flop => Some(Street::Pref),
            Street::Turn => Some(Street::Flop),
            Street::Rive => Some(Street::Turn),
        }
    }

    /// The street after this one, toward River; River has none.
    pub fn next(&self) -> (r: Option<Street>)
        ensures
            *self == Street::Rive <==> r.is_none(),
            r matches Some(s) ==> s.ord() == self.ord() + 1,
    {
        match self {
            Street::Pref => Some(Street::Flop),
            Street::Flop => Some(Street::Turn),
            Street::Turn => Some(Street::Rive),
            Street::Rive => None,
        }
    }

    /// Number of community cards showing on this street.
    pub fn n_observed(&self) -> (r: u64)
        ensures
            r == match *self {
                Street::Pref => 0u64,
                Street::Flop => 3,
                Street::Turn => 4,
                Street::Rive => 5,
            },
    {
        match self {
            Street::Pref => 0,
            Street::Flop => 3,
            Street::Turn => 4,
            Street::Rive => 5,
        }
    }

    /// Number of observations on the next street that one observation on
    /// this street leads to: the ways to deal the next community cards from
    /// the cards not yet seen. River leads nowhere.
    pub fn n_children(&self) -> (r: u64)
        ensures
            r == match *self {
                Street::Pref => 19600u64,
                Street::Flop => 47,
                Street::Turn => 46,
                Street::Rive => 0,
            },
    {
        match self {
            Street::Pref => 19600,
            Street::Flop => 47,
            Street::Turn => 46,
            Street::Rive => 0,
        }
    }
}

} // verus!
