//! The reservation namespaces and their wire codes.
//!
//! A reservation targets one content namespace: songs, modules, customize
//! items, or one per-character costume namespace. Namespaces are independent:
//! the same integer can be a valid song id and a valid module id at once.

use vstd::prelude::*;

verus! {

/// A playable character, naming one costume namespace.
#[derive(Clone, Copy, PartialEq, Eq, Structural, Debug)]
pub enum Character {
    Miku,
    Rin,
    Len,
    Luka,
    Neru,
    Haku,
    Kaito,
    Meiko,
    Sakine,
    Teto,
}

/// A content namespace that a reservation targets.
#[derive(Clone, Copy, PartialEq, Eq, Structural, Debug)]
pub enum ReservationType {
    Song,
    Module,
    CustomizeItem,
    Costume(Character),
}

impl Character {
    /// The character's index within the costume code block.
    pub fn index(self) -> (r: i32)
        ensures
            r == self.spec_index(),
            0 <= r < 10,
    {
        match self {
            Character::Miku => 0,
            Character::Rin => 1,
            Character::Len => 2,
            Character::Luka => 3,
            Character::Neru => 4,
            Character::Haku => 5,
            Character::Kaito => 6,
            Character::Meiko => 7,
            Character::Sakine => 8,
            Character::Teto => 9,
        }
    }

    pub open spec fn spec_index(self) -> int {
        match self {
            Character::Miku => 0,
            Character::Rin => 1,
            Character::Len => 2,
            Character::Luka => 3,
            Character::Neru => 4,
            Character::Haku => 5,
            Character::Kaito => 6,
            Character::Meiko => 7,
            Character::Sakine => 8,
            Character::Teto => 9,
        }
    }

    fn from_index(value: i32) -> (r: Character)
        requires
            0 <= value < 10,
        ensures
            r.spec_index() == value,
    {
        match value {
            0 => Character::Miku,
            1 => Character::Rin,
            2 => Character::Len,
            3 => Character::Luka,
            4 => Character::Neru,
            5 => Character::Haku,
            6 => Character::Kaito,
            7 => Character::Meiko,
            8 => Character::Sakine,
            _ => Character::Teto,
        }
    }
}

impl ReservationType {
    /// The integer code under which the namespace is persisted: songs are 0,
    /// modules 1, customize items 2, and costumes 10 plus the character's
    /// index.
    pub open spec fn spec_code(self) -> int {
        match self {
            ReservationType::Song => 0,
            ReservationType::Module => 1,
            ReservationType::CustomizeItem => 2,
            ReservationType::Costume(c) => 10 + c.spec_index(),
        }
    }

    pub fn code(self) -> (r: i32)
        ensures
            r == self.spec_code(),
    {
        match self {
            ReservationType::Song => 0,
            ReservationType::Module => 1,
            ReservationType::CustomizeItem => 2,
            ReservationType::Costume(c) => 10 + c.index(),
        }
    }
}

impl From<i32> for ReservationType {
    /// Decodes a persisted namespace code; every integer outside the known
    /// codes falls back to the song namespace.
    fn from(value: i32) -> (r: ReservationType) {
        if value == 1 {
            ReservationType::Module
        } else if value == 2 {
            ReservationType::CustomizeItem
        } else if 10 <= value && value < 20 {
            ReservationType::Costume(Character::from_index(value - 10))
        } else {
            ReservationType::Song
        }
    }
}

impl vstd::std_specs::convert::FromSpecImpl<i32> for ReservationType {
    open spec fn obeys_from_spec() -> bool {
        true
    }

    open spec fn from_spec(value: i32) -> ReservationType {
        if value == 1 {
            ReservationType::Module
        } else if value == 2 {
            ReservationType::CustomizeItem
        } else if value == 10 {
            ReservationType::Costume(Character::Miku)
        } else if value == 11 {
            ReservationType::Costume(Character::Rin)
        } else if value == 12 {
            ReservationType::Costume(Character::Len)
        } else if value == 13 {
            ReservationType::Costume(Character::Luka)
        } else if value == 14 {
            ReservationType::Costume(Character::Neru)
        } else if value == 15 {
            ReservationType::Costume(Character::Haku)
        } else if value == 16 {
            ReservationType::Costume(Character::Kaito)
        } else if value == 17 {
            ReservationType::Costume(Character::Meiko)
        } else if value == 18 {
            ReservationType::Costume(Character::Sakine)
        } else if value == 19 {
            ReservationType::Costume(Character::Teto)
        } else {
            ReservationType::Song
        }
    }
}

} // verus!
