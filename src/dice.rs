use vstd::prelude::*;

verus! {

/// A kind of die, named by its number of faces.
#[derive(Clone, Copy, Debug, PartialEq, Eq, Structural)]
pub enum Die {
    D4,
    D6,
    D8,
    D10,
    D12,
    D20,
    D100,
}

/// The die that has `n` faces, if such a die is supported.
pub open spec fn die_with_faces(n: int) -> Option<Die> {
    if n == 4 {
        Some(Die::D4)
    } else if n == 6 {
        Some(Die::D6)
    } else if n == 8 {
        Some(Die::D8)
    } else if n == 10 {
        Some(Die::D10)
    } else if n == 12 {
        Some(Die::D12)
    } else if n == 20 {
        Some(Die::D20)
    } else if n == 100 {
        Some(Die::D100)
    } else {
        None
    }
}

impl Die {
    /// The number of faces of the die.
    pub open spec fn faces(self) -> nat {
        match self {
            Die::D4 => 4,
            Die::D6 => 6,
            Die::D8 => 8,
            Die::D10 => 10,
            Die::D12 => 12,
            Die::D20 => 20,
            Die::D100 => 100,
        }
    }

    /// The number of faces of the die.
    pub fn sides(&self) -> (r: u32)
        ensures
            r == self.faces(),
    {
        match self {
            Die::D4 => 4,
            Die::D6 => 6,
            Die::D8 => 8,
            Die::D10 => 10,
            Die::D12 => 12,
            Die::D20 => 20,
            Die::D100 => 100,
        }
    }

    /// The die with `n` faces, or `None` where no supported die has `n` faces.
    pub fn from_sides(n: u32) -> (r: Option<Die>)
        ensures
            r == die_with_faces(n as int),
    {
        match n {
            4 => Some(Die::D4),
            6 => Some(Die::D6),
            8 => Some(Die::D8),
            10 => Some(Die::D10),
            12 => Some(Die::D12),
            20 => Some(Die::D20),
            100 => Some(Die::D100),
            _ => None,
        }
    }
}

/// A number of dice of one kind to be rolled together, such as `2d6`.
#[derive(Clone, Copy, Debug, PartialEq, Eq, Structural)]
pub struct DiceToRoll {
    pub die: Die,
    pub number: u32,
}

impl DiceToRoll {
    /// `number` dice of kind `die`.
    pub fn new(number: u32, die: Die) -> (r: DiceToRoll)
        ensures
            r == (DiceToRoll { die, number }),
    {
        DiceToRoll { die, number }
    }
}

} // verus!
