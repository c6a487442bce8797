use vstd::prelude::*;

use crate::dice::Dice;
use crate::modifier::Modifier;

verus! {

/// The closed catalog of unit kinds.  The last two kinds can never be bought
/// from the shop: they are only created by abilities during a battle.
#[derive(Copy, Clone, Debug, PartialEq, Eq, PartialOrd, Ord, Hash, Structural)]
pub enum Species {
    Ant,
    Beaver,
    Cricket,
    Duck,
    Fish,
    Horse,
    Mosquito,
    Otter,
    Pig,

    GhostCricket,
    Bee,
}

impl Species {
    /// Whether this kind can be offered by the shop.
    pub open spec fn is_purchasable(self) -> bool {
        !(self == Species::GhostCricket || self == Species::Bee)
    }

    /// The glyph used when rendering a unit of this kind.
    pub fn emoji(&self) -> (c: char)
        ensures
            c == self.emoji_spec(),
    {
        match self {
            Species::Ant => '\u{1F41C}',
            Species::Beaver => '\u{1F9AB}',
            Species::Cricket => '\u{1F997}',
            Species::Duck => '\u{1F986}',
            Species::Fish => '\u{1F41F}',
            Species::Horse => '\u{1F434}',
            Species::Mosquito => '\u{1F99F}',
            Species::Otter => '\u{1F9A6}',
            Species::Pig => '\u{1F437}',
            Species::GhostCricket => '\u{1F997}',
            Species::Bee => '\u{1F41D}',
        }
    }

    pub open spec fn emoji_spec(self) -> char {
        match self {
            Species::Ant => '\u{1F41C}',
            Species::Beaver => '\u{1F9AB}',
            Species::Cricket => '\u{1F997}',
            Species::Duck => '\u{1F986}',
            Species::Fish => '\u{1F41F}',
            Species::Horse => '\u{1F434}',
            Species::Mosquito => '\u{1F99F}',
            Species::Otter => '\u{1F9A6}',
            Species::Pig => '\u{1F437}',
            Species::GhostCricket => '\u{1F997}',
            Species::Bee => '\u{1F41D}',
        }
    }

    /// Base (health, attack) of a purchasable kind.
    pub open spec fn default_power_spec(self) -> (usize, usize) {
        match self {
            Species::Ant => (2usize, 1usize),
            Species::Beaver => (2, 2),
            Species::Cricket => (1, 2),
            Species::Duck => (1, 2),
            Species::Fish => (2, 3),
            Species::Horse => (2, 1),
            Species::Mosquito => (2, 2),
            Species::Otter => (1, 2),
            Species::Pig => (3, 1),
            Species::GhostCricket => (0, 0),
            Species::Bee => (0, 0),
        }
    }

    /// Returns the base health and attack for a purchasable kind.  Kinds that
    /// only come from abilities have no shop stats, so they are excluded.
    pub fn default_power(&self) -> (p: (usize, usize))
        requires
            self.is_purchasable(),
        ensures
            p == self.default_power_spec(),
            p.0 >= 1 && p.1 >= 1,
    {
        match self {
            Species::Ant => (2, 1),
            Species::Beaver => (2, 2),
            Species::Cricket => (1, 2),
            Species::Duck => (1, 2),
            Species::Fish => (2, 3),
            Species::Horse => (2, 1),
            Species::Mosquito => (2, 2),
            Species::Otter => (1, 2),
            Species::Pig => (3, 1),
            Species::GhostCricket => (0, 0),
            Species::Bee => (0, 0),
        }
    }

    /// Whether this unit reacts to summons by buffing the newcomer.
    pub fn is_horse(&self) -> (r: bool)
        ensures
            r == (self == Species::Horse),
    {
        match self {
            Species::Horse => true,
            _ => false,
        }
    }

    /// The passive modifier a freshly bought unit starts with; none of the
    /// current catalog starts with one.
    pub fn default_modifier(&self) -> (m: Option<Modifier>)
        ensures
            m is None,
    {
        None
    }

    /// Draws a uniformly random purchasable kind.
    pub fn sample<D: Dice>(dice: &mut D) -> (s: Species)
        ensures
            s.is_purchasable(),
    {
        match dice.roll(0, 9) {
            0 => Species::Ant,
            1 => Species::Beaver,
            2 => Species::Cricket,
            3 => Species::Duck,
            4 => Species::Fish,
            5 => Species::Horse,
            6 => Species::Mosquito,
            7 => Species::Otter,
            8 => Species::Pig,
            _ => Species::Ant,
        }
    }

    /// A stable one-byte code for each kind, used when a team is flattened
    /// to plain records for storage.
    pub open spec fn code_spec(self) -> u8 {
        match self {
            Species::Ant => 0u8,
            Species::Beaver => 1u8,
            Species::Cricket => 2u8,
            Species::Duck => 3u8,
            Species::Fish => 4u8,
            Species::Horse => 5u8,
            Species::Mosquito => 6u8,
            Species::Otter => 7u8,
            Species::Pig => 8u8,
            Species::GhostCricket => 9u8,
            Species::Bee => 10u8,
        }
    }

    pub fn code(&self) -> (c: u8)
        ensures
            c == self.code_spec(),
    {
        match self {
            Species::Ant => 0,
            Species::Beaver => 1,
            Species::Cricket => 2,
            Species::Duck => 3,
            Species::Fish => 4,
            Species::Horse => 5,
            Species::Mosquito => 6,
            Species::Otter => 7,
            Species::Pig => 8,
            Species::GhostCricket => 9,
            Species::Bee => 10,
        }
    }

    pub open spec fn from_code_spec(c: u8) -> Option<Species> {
        if c == 0 {
            Some(Species::Ant)
        } else if c == 1 {
            Some(Species::Beaver)
        } else if c == 2 {
            Some(Species::Cricket)
        } else if c == 3 {
            Some(Species::Duck)
        } else if c == 4 {
            Some(Species::Fish)
        } else if c == 5 {
            Some(Species::Horse)
        } else if c == 6 {
            Some(Species::Mosquito)
        } else if c == 7 {
            Some(Species::Otter)
        } else if c == 8 {
            Some(Species::Pig)
        } else if c == 9 {
            Some(Species::GhostCricket)
        } else if c == 10 {
            Some(Species::Bee)
        } else {
            None
        }
    }

    pub fn from_code(c: u8) -> (s: Option<Species>)
        ensures
            s == Species::from_code_spec(c),
    {
        if c == 0 {
            Some(Species::Ant)
        } else if c == 1 {
            Some(Species::Beaver)
        } else if c == 2 {
            Some(Species::Cricket)
        } else if c == 3 {
            Some(Species::Duck)
        } else if c == 4 {
            Some(Species::Fish)
        } else if c == 5 {
            Some(Species::Horse)
        } else if c == 6 {
            Some(Species::Mosquito)
        } else if c == 7 {
            Some(Species::Otter)
        } else if c == 8 {
            Some(Species::Pig)
        } else if c == 9 {
            Some(Species::GhostCricket)
        } else if c == 10 {
            Some(Species::Bee)
        } else {
            None
        }
    }
}

/// The one-byte codes decode back to the kinds they stand for.
pub proof fn lemma_species_code_round_trip(s: Species)
    ensures
        Species::from_code_spec(s.code_spec()) == Some(s),
{
}

} // verus!
