use vstd::prelude::*;

verus! {

/// A passive effect granted by a consumable and attached to a unit.
#[derive(Copy, Clone, Debug, PartialEq, Eq, PartialOrd, Ord, Hash, Structural)]
pub enum Modifier {
    /// Spawns a 1/1 helper unit when the carrier dies.
    Honey,
}

impl Modifier {
    /// The glyph used when rendering a unit that carries this modifier.
    pub fn emoji(&self) -> (c: char)
        ensures
            c == self.emoji_spec(),
    {
        match self {
            Modifier::Honey => '\u{1F36F}',
        }
    }

    pub open spec fn emoji_spec(self) -> char {
        match self {
            Modifier::Honey => '\u{1F36F}',
        }
    }
}

/// The sweetener is the only modifier in the catalog.
pub proof fn lemma_modifier_is_honey(m: Modifier)
    ensures
        m == Modifier::Honey,
{
    match m {
        Modifier::Honey => {
        },
    }
}

} // verus!
