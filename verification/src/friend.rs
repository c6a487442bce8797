use vstd::prelude::*;

use crate::modifier::Modifier;
use crate::species::Species;

verus! {

/// Highest experience a unit can accumulate; combining past this point
/// saturates.
pub const MAX_EXP: usize = 6;

/// A unit instantiated onto a team or a shop slot.
#[derive(Copy, Clone, Debug, PartialEq, Eq, PartialOrd, Ord, Hash)]
pub struct Friend {
    pub species: Species,
    pub attack: usize,
    pub health: usize,
    pub modifier: Option<Modifier>,
    pub exp: usize,
}

/// Saturating clamp of an unbounded stat computation into `usize`.
pub open spec fn sat(v: int) -> usize {
    if v > usize::MAX {
        usize::MAX
    } else {
        v as usize
    }
}

impl Friend {
    /// A unit is well formed when its stats stay in the range the rest of the
    /// engine relies on: a positive attack value and bounded experience.
    pub open spec fn wf(self) -> bool {
        self.attack >= 1 && self.exp <= MAX_EXP
    }

    /// Creates a fresh, unleveled unit of a purchasable kind at its base
    /// stats.
    pub fn new(species: Species) -> (f: Friend)
        requires
            species.is_purchasable(),
        ensures
            f.species == species,
            f.health == species.default_power_spec().0,
            f.attack == species.default_power_spec().1,
            f.modifier is None,
            f.exp == 0,
            f.wf(),
    {
        let (health, attack) = species.default_power();
        let modifier = species.default_modifier();
        Friend { species, attack, health, modifier, exp: 0 }
    }

    /// The level a unit reaches at a given experience total.  The staircase
    /// is reproduced from the game rules as they stand, including the jump
    /// straight from level 1 to level 3 at full experience.
    pub open spec fn level_spec(self) -> usize {
        if self.exp <= 5 {
            1usize
        } else {
            3usize
        }
    }

    /// Returns the unit's level, derived from accumulated experience.
    pub fn level(&self) -> (l: usize)
        requires
            self.exp <= MAX_EXP,
        ensures
            l == self.level_spec(),
            1 <= l <= 3,
    {
        if self.exp <= 5 {
            1
        } else {
            3
        }
    }

    /// Raises the unit's health and attack, saturating at the integer limit.
    pub fn buff(&mut self, health: usize, attack: usize)
        ensures
            final(self).health == sat(old(self).health + health),
            final(self).attack == sat(old(self).attack + attack),
            final(self).species == old(self).species,
            final(self).modifier == old(self).modifier,
            final(self).exp == old(self).exp,
            old(self).wf() ==> final(self).wf(),
    {
        self.health = self.health.saturating_add(health);
        self.attack = self.attack.saturating_add(attack);
    }

    /// Whether the unit still has the base stats of its kind; units that can
    /// only be created by abilities never count as stock.
    pub open spec fn has_default_power_spec(self) -> bool {
        self.species.is_purchasable() && self.health == self.species.default_power_spec().0
            && self.attack == self.species.default_power_spec().1
    }

    pub fn has_default_power(&self) -> (r: bool)
        ensures
            r == self.has_default_power_spec(),
    {
        match self.species {
            Species::GhostCricket | Species::Bee => false,
            _ => {
                let (health, attack) = self.species.default_power();
                self.health == health && self.attack == attack
            },
        }
    }
}

} // verus!
