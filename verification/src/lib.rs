use vstd::prelude::*;

mod battle;
mod dice;
mod food;
mod friend;
mod modifier;
mod shop;
mod species;
mod team;

pub use battle::{Battle, Winner};
pub use dice::{pick_one, pick_some, Dice, DeterministicDice, RandomDice};
pub use food::Food;
pub use friend::Friend;
pub use modifier::Modifier;
pub use shop::Shop;
pub use species::Species;
pub use team::{SlotRecord, Team};

verus! {

/// Number of slots on a team; index 0 is the front.
pub const TEAM_SIZE: usize = 5;

/// Number of unit offers a shop holds after a reroll.
pub const SHOP_FRIEND_COUNT: usize = 3;

/// Number of consumable offers a shop holds after a reroll.
pub const SHOP_FOOD_COUNT: usize = 1;

/// The fixed price of a unit or a consumable, in gold.
pub const UNIT_COST: usize = 3;

} // verus!
