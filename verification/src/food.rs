use vstd::prelude::*;

use crate::dice::Dice;

verus! {

/// A consumable offered by the shop, applied to one unit of the team.
#[derive(Copy, Clone, Debug, PartialEq, Eq, Hash, Structural)]
pub enum Food {
    /// A flat +1 health, +1 attack buff.
    Apple,
    /// Attaches the sweetener modifier, overwriting any prior one.
    Honey,
}

impl Food {
    /// The glyph used when rendering this consumable.
    pub fn emoji(&self) -> (c: char)
        ensures
            c == self.emoji_spec(),
    {
        match self {
            Food::Apple => '\u{1F34E}',
            Food::Honey => '\u{1F36F}',
        }
    }

    pub open spec fn emoji_spec(self) -> char {
        match self {
            Food::Apple => '\u{1F34E}',
            Food::Honey => '\u{1F36F}',
        }
    }

    /// Draws a uniformly random consumable.
    pub fn sample<D: Dice>(dice: &mut D) -> (f: Food) {
        match dice.roll(0, 2) {
            0 => Food::Apple,
            _ => Food::Honey,
        }
    }
}

} // verus!
