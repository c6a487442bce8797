use vstd::prelude::*;

use crate::dice::{count_somes, count_trues, pick_one, Dice};
use crate::food::Food;
use crate::friend::{sat, Friend, MAX_EXP};
use crate::modifier::Modifier;
use crate::species::Species;
use crate::team::{slot_compatible, slots_wf, Team};
use crate::{SHOP_FOOD_COUNT, SHOP_FRIEND_COUNT, TEAM_SIZE, UNIT_COST};

verus! {

/// The transient purchasable inventory: a team under construction, a gold
/// balance, and fixed-capacity racks of unit and consumable offers that are
/// resampled on every reroll.
#[derive(Clone, Debug, PartialEq, Eq, Hash)]
pub struct Shop {
    pub team: Team,
    pub gold: usize,
    pub shop_friends: Vec<Option<Friend>>,
    pub shop_foods: Vec<Option<Food>>,
}

/// One stat under the combine rule: the better of the two values, plus one,
/// saturating at the integer limit.
pub open spec fn combine_stat(x: usize, y: usize) -> usize {
    sat(1 + if x >= y {
        x
    } else {
        y
    })
}

/// The combine rule: merging two units of one kind keeps the better of each
/// stat plus one, and grants one experience point, saturating at the cap.
pub open spec fn combined(target: Friend, incoming: Friend) -> Friend {
    Friend {
        health: combine_stat(target.health, incoming.health),
        attack: combine_stat(target.attack, incoming.attack),
        exp: if target.exp + 1 <= MAX_EXP {
            (target.exp + 1) as usize
        } else {
            MAX_EXP
        },
        ..target
    }
}

/// The combine rule's stat formula is associative whenever the shared
/// middle operand dominates the outer two, which is the only way three
/// values meet it pairwise (all three equal is the common case): merging
/// one unit in and then the result into a third gives the same stats as
/// merging the far pair first.  The grouping does not hold for arbitrary
/// stat triples.
pub proof fn lemma_combine_stat_assoc(a: usize, b: usize, c: usize)
    requires
        a <= b,
        c <= b,
    ensures
        combine_stat(combine_stat(a, b), c) == combine_stat(a, combine_stat(b, c)),
{
}

/// A unit granted extra health by an ability, attack untouched.
pub open spec fn healed(g: Friend, amount: nat) -> Friend {
    Friend { health: sat(g.health + amount), ..g }
}

/// Slot `j` holds a same-kind partner for the unit at slot `i`.
pub open spec fn partner_of(s: Seq<Option<Friend>>, i: int, j: int) -> bool {
    j != i && (s[j] matches Some(g) && (s[i] matches Some(f) && g.species == f.species))
}

/// Slot `i` holds a unit with a same-kind partner somewhere else on the team.
pub open spec fn has_partner(s: Seq<Option<Friend>>, i: int) -> bool {
    exists|j: int| 0 <= j < s.len() && #[trigger] partner_of(s, i, j)
}

/// Buffs never change which slots are occupied, so they keep the unit count.
proof fn lemma_count_after_buffs(b: Seq<Option<Friend>>, a: Seq<Option<Friend>>)
    requires
        a.len() == b.len(),
        forall|j: int| 0 <= j < a.len() ==> match (#[trigger] a[j], b[j]) {
            (Some(x), Some(y)) => x.species == y.species && x.modifier == y.modifier && x.health
                >= y.health,
            (None, None) => true,
            _ => false,
        },
    ensures
        count_somes(a) == count_somes(b),
{
    assert forall|j: int| 0 <= j < b.len() implies ((#[trigger] b[j]) is Some <==> a[j] is Some)
        && crate::team::slot_tokens(b[j]) == crate::team::slot_tokens(a[j])
        && crate::team::slot_health(b[j]) <= crate::team::slot_health(a[j]) by {
        assert(a[j] is Some ==> a[j]->0.species == b[j]->0.species && a[j]->0.modifier
            == b[j]->0.modifier);
    }
    crate::team::lemma_measures_pointwise(b, a);
}

impl Shop {
    /// Offer racks at their fixed sizes and every unit in range.
    pub open spec fn wf(self) -> bool {
        &&& self.team.wf()
        &&& self.shop_friends@.len() == SHOP_FRIEND_COUNT
        &&& self.shop_foods@.len() == SHOP_FOOD_COUNT
        &&& slots_wf(self.shop_friends@)
    }

    /// Opens a shop with the starting gold, an empty team, and freshly
    /// sampled offers.
    pub fn new<D: Dice>(dice: &mut D) -> (s: Shop)
        ensures
            s.wf(),
            s.gold == 10,
            count_somes(s.team@) == 0,
            forall|i: int| 0 <= i < s.shop_friends@.len() ==> ((#[trigger] s.shop_friends@[i])
                matches Some(g) && g.has_default_power_spec() && g.exp == 0 && g.modifier
                is None),
            forall|i: int| 0 <= i < s.shop_foods@.len() ==> (#[trigger] s.shop_foods@[i]) is Some,
    {
        let mut out = Shop {
            team: Team::new(),
            gold: 10,
            shop_friends: Vec::new(),
            shop_foods: Vec::new(),
        };
        let ghost fresh = out;
        let mut i: usize = 0;
        while i < SHOP_FRIEND_COUNT
            invariant
                i <= SHOP_FRIEND_COUNT,
                out.shop_friends@.len() == i,
                out.team == fresh.team,
                out.gold == fresh.gold,
                out.shop_foods@.len() == 0,
                slots_wf(out.shop_friends@),
            decreases SHOP_FRIEND_COUNT - i,
        {
            out.shop_friends.push(None);
            proof {
                assert(slots_wf(out.shop_friends@));
            }
            i = i + 1;
        }
        let mut i: usize = 0;
        while i < SHOP_FOOD_COUNT
            invariant
                i <= SHOP_FOOD_COUNT,
                out.shop_foods@.len() == i,
                out.team == fresh.team,
                out.gold == fresh.gold,
                out.shop_friends@.len() == SHOP_FRIEND_COUNT,
                slots_wf(out.shop_friends@),
            decreases SHOP_FOOD_COUNT - i,
        {
            out.shop_foods.push(None);
            i = i + 1;
        }
        proof {
            crate::team::lemma_occupied_len(out.team@);
        }
        out.reroll(dice);
        out
    }

    /// Resamples every offer slot from the catalog, units and consumables
    /// alike.  The team and the gold balance are untouched; paying for the
    /// reroll is the caller's business.
    pub fn reroll<D: Dice>(&mut self, dice: &mut D)
        requires
            old(self).wf(),
        ensures
            final(self).wf(),
            final(self).team == old(self).team,
            final(self).gold == old(self).gold,
            forall|i: int| 0 <= i < final(self).shop_friends@.len() ==> ((#[trigger] final(self).shop_friends@[i]) matches Some(g) && g.has_default_power_spec() && g.exp == 0
                && g.modifier is None),
            forall|i: int| 0 <= i < final(self).shop_foods@.len() ==> (#[trigger] final(self).shop_foods@[i]) is Some,
    {
        let mut i: usize = 0;
        while i < SHOP_FRIEND_COUNT
            invariant
                i <= SHOP_FRIEND_COUNT,
                self.wf(),
                self.team == old(self).team,
                self.gold == old(self).gold,
                self.shop_foods == old(self).shop_foods,
                forall|j: int| 0 <= j < i ==> ((#[trigger] self.shop_friends@[j]) matches Some(
                g) && g.has_default_power_spec() && g.exp == 0 && g.modifier is None),
            decreases SHOP_FRIEND_COUNT - i,
        {
            let species = Species::sample(dice);
            let f = Friend::new(species);
            let ghost pre = self.shop_friends@;
            self.shop_friends[i] = Some(f);
            proof {
                assert(self.shop_friends@ =~= pre.update(i as int, Some(f)));
            }
            i = i + 1;
        }
        let mut i: usize = 0;
        while i < SHOP_FOOD_COUNT
            invariant
                i <= SHOP_FOOD_COUNT,
                self.wf(),
                self.team == old(self).team,
                self.gold == old(self).gold,
                forall|j: int| 0 <= j < self.shop_friends@.len() ==> ((
                #[trigger] self.shop_friends@[j]) matches Some(g) && g.has_default_power_spec()
                    && g.exp == 0 && g.modifier is None),
                forall|j: int| 0 <= j < i ==> (#[trigger] self.shop_foods@[j]) is Some,
            decreases SHOP_FOOD_COUNT - i,
        {
            let food = Food::sample(dice);
            let ghost pre = self.shop_foods@;
            self.shop_foods[i] = Some(food);
            proof {
                assert(self.shop_foods@ =~= pre.update(i as int, Some(food)));
            }
            i = i + 1;
        }
    }

    /// Picks a random offered unit's rack index, or `None` on an empty rack.
    pub fn random_friend<D: Dice>(&self, dice: &mut D) -> (r: Option<usize>)
        ensures
            r is Some <==> count_somes(self.shop_friends@) > 0,
            r matches Some(k) ==> k < self.shop_friends@.len() && self.shop_friends@[k as int]
                is Some,
            count_somes(self.shop_friends@) == 0 ==> *final(dice) == *old(dice),
    {
        pick_one(dice, &self.shop_friends)
    }

    /// Picks a random offered consumable's rack index, or `None` when none
    /// is offered.
    pub fn random_food<D: Dice>(&self, dice: &mut D) -> (r: Option<usize>)
        ensures
            r is Some <==> count_somes(self.shop_foods@) > 0,
            r matches Some(k) ==> k < self.shop_foods@.len() && self.shop_foods@[k as int]
                is Some,
            count_somes(self.shop_foods@) == 0 ==> *final(dice) == *old(dice),
    {
        pick_one(dice, &self.shop_foods)
    }

    /// Merges an incoming unit into the same-kind unit at `team_pos` by the
    /// combine rule.  Gold and the offer racks are untouched.
    pub fn combine_friends(&mut self, team_pos: usize, g: Friend)
        requires
            old(self).wf(),
            team_pos < TEAM_SIZE,
            old(self).team@[team_pos as int] matches Some(t) && t.species == g.species,
        ensures
            final(self).wf(),
            final(self).gold == old(self).gold,
            final(self).shop_friends == old(self).shop_friends,
            final(self).shop_foods == old(self).shop_foods,
            final(self).team@ == old(self).team@.update(
                team_pos as int,
                Some(combined(old(self).team@[team_pos as int]->0, g)),
            ),
    {
        let mut f = self.team.0[team_pos].unwrap();
        let health = if f.health >= g.health {
            f.health
        } else {
            g.health
        };
        let attack = if f.attack >= g.attack {
            f.attack
        } else {
            g.attack
        };
        f.health = health.saturating_add(1);
        f.attack = attack.saturating_add(1);
        f.exp = if f.exp < MAX_EXP {
            f.exp + 1
        } else {
            MAX_EXP
        };
        let ghost pre = self.team@;
        self.team.0[team_pos] = Some(f);
        proof {
            assert(self.team@ =~= pre.update(team_pos as int, Some(f)));
            assert forall|p: int| 0 <= p < self.team@.len() implies (#[trigger] self.team@[p]
                matches Some(h) ==> h.wf()) by {
                if p != team_pos {
                    assert(self.team@[p] == pre[p]);
                }
            }
        }
    }

    /// Fires a just-bought unit's on-buy ability; the unit itself is not on
    /// the team yet.  An otter grants a random team mate one health and one
    /// attack.
    pub fn on_buy<D: Dice>(&mut self, f: Friend, dice: &mut D)
        requires
            old(self).wf(),
        ensures
            final(self).wf(),
            final(self).gold == old(self).gold,
            final(self).shop_friends == old(self).shop_friends,
            final(self).shop_foods == old(self).shop_foods,
            f.species != Species::Otter ==> final(self).team == old(self).team && *final(dice)
                == *old(dice),
            f.species == Species::Otter && count_somes(old(self).team@) == 0 ==> final(self).team
                == old(self).team && *final(dice) == *old(dice),
            f.species == Species::Otter && count_somes(old(self).team@) > 0 ==> exists|j: int|
                0 <= j < old(self).team@.len() && old(self).team@[j] is Some && final(self).team@
                    == old(self).team@.update(
                    j,
                    Some(
                        Friend {
                            health: sat((old(self).team@[j]->0).health + 1),
                            attack: sat((old(self).team@[j]->0).attack + 1),
                            ..old(self).team@[j]->0
                        },
                    ),
                ),
            final(self).team@.len() == old(self).team@.len(),
            forall|j: int| 0 <= j < final(self).team@.len() ==> match (
                #[trigger] final(self).team@[j],
                old(self).team@[j],
            ) {
                (Some(x), Some(y)) => x.species == y.species && x.modifier == y.modifier && x.exp
                    == y.exp && x.health >= y.health && x.attack >= y.attack,
                (None, None) => true,
                _ => false,
            },
    {
        let is_otter = match f.species {
            Species::Otter => true,
            _ => false,
        };
        if is_otter {
            let picked = self.team.random_friends(1, dice);
            if picked.len() > 0 {
                let i = picked[0];
                let mut g = self.team.0[i].unwrap();
                g.buff(1, 1);
                let ghost pre = self.team@;
                self.team.0[i] = Some(g);
                proof {
                    assert(self.team@ =~= pre.update(i as int, Some(g)));
                    assert forall|p: int| 0 <= p < self.team@.len() implies (
                    #[trigger] self.team@[p] matches Some(h) ==> h.wf()) by {
                        if p != i {
                            assert(self.team@[p] == pre[p]);
                        }
                    }
                }
            }
        }
    }

    /// Fires a just-sold unit's on-sell ability; the unit has already left
    /// the team.  A beaver grants two random team mates health, a duck
    /// grants every offered unit health, and a pig grants bonus gold, each
    /// scaled by the sold unit's level.
    pub fn on_sell<D: Dice>(&mut self, a: Friend, dice: &mut D)
        requires
            old(self).wf(),
            a.wf(),
        ensures
            final(self).wf(),
            final(self).shop_foods == old(self).shop_foods,
            a.species == Species::Pig ==> final(self).gold == sat(
                old(self).gold + a.level_spec(),
            ) && final(self).team == old(self).team && final(self).shop_friends == old(self).shop_friends,
            a.species == Species::Duck ==> final(self).gold == old(self).gold && final(self).team
                == old(self).team && final(self).shop_friends@.len() == old(self).shop_friends@.len() && forall|k: int|
                0 <= k < old(self).shop_friends@.len() ==> final(self).shop_friends@[k] == match
                    #[trigger] old(self).shop_friends@[k] {
                    Some(g) => Some(
                        Friend { health: sat(g.health + a.level_spec()), ..g },
                    ),
                    None => None,
                },
            a.species == Species::Beaver ==> final(self).gold == old(self).gold && final(self).shop_friends == old(self).shop_friends && final(self).team@.len() == old(self).team@.len() && forall|j: int| 0 <= j < final(self).team@.len() ==> match (
                #[trigger] final(self).team@[j],
                old(self).team@[j],
            ) {
                (Some(x), Some(y)) => x.species == y.species && x.modifier == y.modifier && x.exp
                    == y.exp && x.attack == y.attack && x.health >= y.health,
                (None, None) => true,
                _ => false,
            },
            a.species != Species::Pig && a.species != Species::Duck && a.species
                != Species::Beaver ==> *final(self) == *old(self),
            a.species != Species::Beaver ==> *final(dice) == *old(dice),
            a.species == Species::Beaver && count_somes(old(self).team@) == 0 ==> *final(dice)
                == *old(dice),
            a.species == Species::Beaver && count_somes(old(self).team@) == 0 ==> final(self).team
                == old(self).team,
            a.species == Species::Beaver && count_somes(old(self).team@) == 1 ==> exists|j: int|
                0 <= j < old(self).team@.len() && old(self).team@[j] is Some && final(self).team@
                    == old(self).team@.update(
                    j,
                    Some(healed(old(self).team@[j]->0, a.level_spec() as nat)),
                ),
            a.species == Species::Beaver && count_somes(old(self).team@) >= 2 ==> exists|j1: int, j2: int|
                0 <= j1 < old(self).team@.len() && 0 <= j2 < old(self).team@.len() && j1 != j2
                    && old(self).team@[j1] is Some && old(self).team@[j2] is Some && final(self).team@ == old(self).team@.update(
                    j1,
                    Some(healed(old(self).team@[j1]->0, a.level_spec() as nat)),
                ).update(j2, Some(healed(old(self).team@[j2]->0, a.level_spec() as nat))),
    {
        match a.species {
            Species::Beaver => {
                let delta = a.level();
                let picked = self.team.random_friends(2, dice);
                let ghost pre = self.team@;
                if picked.len() >= 1 {
                    let i = picked[0];
                    let mut g = self.team.0[i].unwrap();
                    g.buff(delta, 0);
                    self.team.0[i] = Some(g);
                    proof {
                        assert(self.team@ =~= pre.update(i as int, Some(g)));
                        assert forall|p: int| 0 <= p < self.team@.len() implies (
                        #[trigger] self.team@[p] matches Some(h) ==> h.wf()) by {
                            if p != i {
                                assert(self.team@[p] == pre[p]);
                            }
                        }
                    }
                }
                if picked.len() >= 2 {
                    let ghost mid = self.team@;
                    let i2 = picked[1];
                    let mut g2 = self.team.0[i2].unwrap();
                    g2.buff(delta, 0);
                    self.team.0[i2] = Some(g2);
                    proof {
                        assert(self.team@ =~= mid.update(i2 as int, Some(g2)));
                        assert forall|p: int| 0 <= p < self.team@.len() implies (
                        #[trigger] self.team@[p] matches Some(h) ==> h.wf()) by {
                            if p != i2 {
                                assert(self.team@[p] == mid[p]);
                            }
                        }
                        let j1 = picked@[0] as int;
                        let j2 = picked@[1] as int;
                        assert(j1 != j2);
                        assert(mid[j2] == pre[j2]);
                        assert(self.team@ =~= pre.update(
                            j1,
                            Some(healed(pre[j1]->0, delta as nat)),
                        ).update(j2, Some(healed(pre[j2]->0, delta as nat))));
                    }
                }
            },
            Species::Duck => {
                let delta = a.level();
                let ghost pre = self.shop_friends@;
                let mut k: usize = 0;
                while k < SHOP_FRIEND_COUNT
                    invariant
                        k <= SHOP_FRIEND_COUNT,
                        self.team == old(self).team,
                        self.gold == old(self).gold,
                        self.shop_foods == old(self).shop_foods,
                        self.team.wf(),
                        pre == old(self).shop_friends@,
                        self.shop_friends@.len() == pre.len() == SHOP_FRIEND_COUNT,
                        slots_wf(self.shop_friends@),
                        forall|j: int| k <= j < pre.len() ==> #[trigger] self.shop_friends@[j]
                            == pre[j],
                        forall|j: int| 0 <= j < k ==> self.shop_friends@[j] == match (
                        #[trigger] pre[j]) {
                            Some(g) => Some(Friend { health: sat(g.health + delta), ..g }),
                            None => None,
                        },
                    decreases SHOP_FRIEND_COUNT - k,
                {
                    let ghost cur = self.shop_friends@;
                    match self.shop_friends[k] {
                        Some(mut g) => {
                            g.buff(delta, 0);
                            self.shop_friends[k] = Some(g);
                            proof {
                                assert(self.shop_friends@ =~= cur.update(k as int, Some(g)));
                                assert forall|p: int|
                                    0 <= p < self.shop_friends@.len() implies (
                                #[trigger] self.shop_friends@[p] matches Some(h) ==> h.wf()) by {
                                    if p != k {
                                        assert(self.shop_friends@[p] == cur[p]);
                                    }
                                }
                            }
                        },
                        None => {},
                    }
                    k = k + 1;
                }
            },
            Species::Pig => {
                let delta = a.level();
                self.gold = self.gold.saturating_add(delta);
            },
            _ => {},
        }
    }

    /// The hook fired on every remaining unit after a team mate is sold.
    /// No catalog unit reacts to it yet; it stays as the extension point.
    fn on_sold(&mut self, _i: usize)
        ensures
            *final(self) == *old(self),
    {
    }

    /// Buys the offered unit at `shop_pos` for the fixed price and places it
    /// at `team_pos`: onto an empty slot it is summoned (after its on-buy
    /// ability fires), onto a same-kind unit it is combined, with the on-buy
    /// ability firing on the leveled-up result.
    pub fn buy_friend<D: Dice>(&mut self, shop_pos: usize, team_pos: usize, dice: &mut D)
        requires
            old(self).wf(),
            old(self).gold >= UNIT_COST,
            shop_pos < SHOP_FRIEND_COUNT,
            old(self).shop_friends@[shop_pos as int] is Some,
            team_pos < TEAM_SIZE,
            slot_compatible(
                old(self).team@[team_pos as int],
                (old(self).shop_friends@[shop_pos as int]->0).species,
            ),
        ensures
            final(self).wf(),
            final(self).gold == old(self).gold - UNIT_COST,
            final(self).shop_friends@ == old(self).shop_friends@.update(
                shop_pos as int,
                Option::<Friend>::None,
            ),
            final(self).shop_foods == old(self).shop_foods,
            final(self).team@[team_pos as int] matches Some(placed) && placed.species == (old(self).shop_friends@[shop_pos as int]->0).species,
            old(self).team@[team_pos as int] matches Some(t) ==> final(self).team@[team_pos as int]
                == Some(combined(t, old(self).shop_friends@[shop_pos as int]->0)),
            old(self).team@[team_pos as int] is None ==> count_somes(final(self).team@)
                == count_somes(old(self).team@) + 1,
            old(self).team@[team_pos as int] is Some ==> count_somes(final(self).team@)
                == count_somes(old(self).team@),
            old(self).team@[team_pos as int] is None ==> (final(self).team@[team_pos as int]
                matches Some(p) && {
                let offer = old(self).shop_friends@[shop_pos as int]->0;
                &&& p.modifier == offer.modifier
                &&& p.exp == offer.exp
                &&& p.health >= offer.health
                &&& p.attack >= offer.attack
            }),
            old(self).team@[team_pos as int] is None && (old(
                self,
            ).shop_friends@[shop_pos as int]->0).species != Species::Otter ==> final(self).team@
                == crate::team::summoned(
                old(self).team@,
                old(self).shop_friends@[shop_pos as int]->0,
                team_pos as int,
            ),
            old(self).team@[team_pos as int] is None && (old(
                self,
            ).shop_friends@[shop_pos as int]->0).species == Species::Otter && count_somes(
                old(self).team@,
            ) == 0 ==> final(self).team@ == crate::team::summoned(
                old(self).team@,
                old(self).shop_friends@[shop_pos as int]->0,
                team_pos as int,
            ),
            old(self).team@[team_pos as int] is None && (old(
                self,
            ).shop_friends@[shop_pos as int]->0).species == Species::Otter && count_somes(
                old(self).team@,
            ) > 0 ==> exists|j: int|
                0 <= j < old(self).team@.len() && old(self).team@[j] is Some && final(self).team@
                    == crate::team::summoned(
                    old(self).team@.update(
                        j,
                        Some(
                            Friend {
                                health: sat((old(self).team@[j]->0).health + 1),
                                attack: sat((old(self).team@[j]->0).attack + 1),
                                ..old(self).team@[j]->0
                            },
                        ),
                    ),
                    old(self).shop_friends@[shop_pos as int]->0,
                    team_pos as int,
                ),
            forall|j: int| 0 <= j < TEAM_SIZE && j != team_pos ==> match (
                #[trigger] final(self).team@[j],
                old(self).team@[j],
            ) {
                (Some(x), Some(y)) => x.species == y.species && x.modifier == y.modifier && x.exp
                    == y.exp && x.health >= y.health && x.attack >= y.attack,
                (None, None) => true,
                _ => false,
            },
    {
        let friend = self.shop_friends[shop_pos].unwrap();
        self.gold = self.gold - UNIT_COST;
        let ghost racks = self.shop_friends@;
        self.shop_friends[shop_pos] = None;
        proof {
            assert(self.shop_friends@ =~= racks.update(shop_pos as int, Option::<Friend>::None));
        }
        let target = self.team.0[team_pos];
        match target {
            None => {
                let ghost pre_team = self.team@;
                self.on_buy(friend, dice);
                proof {
                    lemma_count_after_buffs(pre_team, self.team@);
                }
                self.team.summon(friend, team_pos);
            },
            Some(_) => {
                self.combine_friends(team_pos, friend);
                // The on-buy ability fires only after the combine, so a
                // leveled-up unit reacts at its new level.  The unit leaves
                // the team briefly so the ability cannot target itself.
                let c = self.team.0[team_pos].unwrap();
                let ghost withc = self.team@;
                self.team.0[team_pos] = None;
                proof {
                    assert(self.team@ =~= withc.update(team_pos as int, Option::<Friend>::None));
                    crate::team::lemma_update_measures(
                        withc,
                        team_pos as int,
                        Option::<Friend>::None,
                    );
                }
                let ghost takeout = self.team@;
                self.on_buy(c, dice);
                let ghost buffed = self.team@;
                self.team.0[team_pos] = Some(c);
                proof {
                    lemma_count_after_buffs(takeout, buffed);
                    assert(self.team@ =~= buffed.update(team_pos as int, Some(c)));
                    crate::team::lemma_update_measures(buffed, team_pos as int, Some(c));
                    crate::team::lemma_update_measures(
                        old(self).team@,
                        team_pos as int,
                        Some(combined(old(self).team@[team_pos as int]->0, friend)),
                    );
                    assert forall|p: int| 0 <= p < self.team@.len() implies (
                    #[trigger] self.team@[p] matches Some(h) ==> h.wf()) by {
                        if p != team_pos {
                            assert(self.team@[p] == buffed[p]);
                        }
                    }
                }
            },
        }
    }

    /// Sells the unit at `team_pos`: it leaves the team, its level is paid
    /// out in gold, its on-sell ability fires, and the remaining units get
    /// their on-sold hook.
    pub fn sell_friend<D: Dice>(&mut self, team_pos: usize, dice: &mut D)
        requires
            old(self).wf(),
            team_pos < TEAM_SIZE,
            old(self).team@[team_pos as int] is Some,
        ensures
            final(self).wf(),
            final(self).team@[team_pos as int] is None,
            final(self).shop_foods == old(self).shop_foods,
            final(self).gold >= old(self).gold,
            count_somes(final(self).team@) == count_somes(old(self).team@) - 1,
            (old(self).team@[team_pos as int]->0).species != Species::Pig ==> final(self).gold
                == sat(old(self).gold + (old(self).team@[team_pos as int]->0).level_spec()),
            (old(self).team@[team_pos as int]->0).species == Species::Pig ==> final(self).gold
                == sat(old(self).gold + 2 * (old(self).team@[team_pos as int]->0).level_spec()),
            (old(self).team@[team_pos as int]->0).species != Species::Beaver ==> *final(dice)
                == *old(dice),
            forall|j: int| 0 <= j < TEAM_SIZE && j != team_pos ==> match (
                #[trigger] final(self).team@[j],
                old(self).team@[j],
            ) {
                (Some(x), Some(y)) => x.species == y.species && x.modifier == y.modifier && x.exp
                    == y.exp && x.attack == y.attack && x.health >= y.health,
                (None, None) => true,
                _ => false,
            },
    {
        let a = self.team.0[team_pos].unwrap();
        let ghost pre = self.team@;
        self.team.0[team_pos] = None;
        proof {
            assert(self.team@ =~= pre.update(team_pos as int, Option::<Friend>::None));
            crate::team::lemma_update_measures(pre, team_pos as int, Option::<Friend>::None);
            assert forall|p: int| 0 <= p < self.team@.len() implies (#[trigger] self.team@[p]
                matches Some(h) ==> h.wf()) by {
                if p != team_pos {
                    assert(self.team@[p] == pre[p]);
                }
            }
        }
        self.gold = self.gold.saturating_add(a.level());
        let ghost mid = *self;
        self.on_sell(a, dice);
        proof {
            if a.species == Species::Beaver {
                lemma_count_after_buffs(mid.team@, self.team@);
            } else {
                assert(self.team == mid.team);
            }
        }
        let ghost done = *self;
        let mut i: usize = 0;
        while i < TEAM_SIZE
            invariant
                *self == done,
                done.team@.len() == TEAM_SIZE,
            decreases TEAM_SIZE - i,
        {
            if i != team_pos {
                let here = self.team.0[i].is_some();
                if here {
                    self.on_sold(i);
                }
            }
            i = i + 1;
        }
    }
}

/// Marks every slot holding a unit with at least one same-kind partner.
fn partner_mask(team: &Team) -> (mask: Vec<bool>)
    requires
        team@.len() == TEAM_SIZE,
    ensures
        mask@.len() == TEAM_SIZE,
        forall|i: int| 0 <= i < TEAM_SIZE ==> mask@[i] == has_partner(team@, i),
{
    let mut mask: Vec<bool> = Vec::new();
    let mut i: usize = 0;
    while i < TEAM_SIZE
        invariant
            i <= TEAM_SIZE,
            team@.len() == TEAM_SIZE,
            mask@.len() == i,
            forall|p: int| 0 <= p < i ==> mask@[p] == has_partner(team@, p),
        decreases TEAM_SIZE - i,
    {
        let here = partners_exist(team, i);
        mask.push(here);
        i = i + 1;
    }
    mask
}

/// Whether the unit at slot `i` has a same-kind partner somewhere else.
fn partners_exist(team: &Team, i: usize) -> (r: bool)
    requires
        team@.len() == TEAM_SIZE,
        i < TEAM_SIZE,
    ensures
        r == has_partner(team@, i as int),
{
    let f = match team.0[i] {
        Some(f) => f,
        None => {
            return false;
        },
    };
    let mut j: usize = 0;
    while j < TEAM_SIZE
        invariant
            j <= TEAM_SIZE,
            team@.len() == TEAM_SIZE,
            i < TEAM_SIZE,
            team@[i as int] == Some(f),
            forall|p: int| 0 <= p < j ==> !partner_of(team@, i as int, p),
        decreases TEAM_SIZE - j,
    {
        if j != i {
            match team.0[j] {
                Some(g) => {
                    if g.species == f.species {
                        proof {
                            assert(partner_of(team@, i as int, j as int));
                        }
                        return true;
                    }
                },
                None => {},
            }
        }
        j = j + 1;
    }
    false
}

/// Marks every slot holding a same-kind partner for the unit at slot `i`.
fn partners_of(team: &Team, i: usize) -> (mask: Vec<bool>)
    requires
        team@.len() == TEAM_SIZE,
        i < TEAM_SIZE,
    ensures
        mask@.len() == TEAM_SIZE,
        forall|p: int| 0 <= p < TEAM_SIZE ==> mask@[p] == partner_of(team@, i as int, p),
{
    let mut mask: Vec<bool> = Vec::new();
    let mut j: usize = 0;
    while j < TEAM_SIZE
        invariant
            j <= TEAM_SIZE,
            team@.len() == TEAM_SIZE,
            i < TEAM_SIZE,
            mask@.len() == j,
            forall|p: int| 0 <= p < j ==> mask@[p] == partner_of(team@, i as int, p),
        decreases TEAM_SIZE - j,
    {
        let ok = if j == i {
            false
        } else {
            match (team.0[j], team.0[i]) {
                (Some(g), Some(f)) => g.species == f.species,
                _ => false,
            }
        };
        mask.push(ok);
        j = j + 1;
    }
    mask
}

/// The offered unit at rack slot `i` has nowhere to go: no team slot is
/// empty or holds its kind.
pub open spec fn offer_unplaceable(pre: Shop, i: int) -> bool {
    pre.shop_friends@[i] matches Some(g) && (forall|j: int|
        0 <= j < pre.team@.len() ==> !slot_compatible(#[trigger] pre.team@[j], g.species))
}

/// Some pair of same-kind units could be merged.
pub open spec fn merge_available(pre: Shop) -> bool {
    exists|i: int| 0 <= i < pre.team@.len() && #[trigger] has_partner(pre.team@, i)
}

/// At least one of the five actions has no legal target or cannot be paid
/// for; only then can a step end the exploration branch.
pub open spec fn step_blocked(pre: Shop) -> bool {
    ||| pre.gold < UNIT_COST
    ||| count_somes(pre.shop_friends@) == 0
    ||| exists|i: int| 0 <= i < pre.shop_friends@.len() && #[trigger] offer_unplaceable(pre, i)
    ||| count_somes(pre.shop_foods@) == 0
    ||| count_somes(pre.team@) == 0
    ||| pre.gold == 0
    ||| !merge_available(pre)
}

/// One unit was bought: the price paid, the rack slot emptied, and a unit
/// of the offered kind placed (or combined) at a compatible team slot.
pub open spec fn stepped_buy(pre: Shop, post: Shop) -> bool {
    exists|i: int, j: int|
        {
            &&& 0 <= i < pre.shop_friends@.len()
            &&& #[trigger] pre.shop_friends@[i] is Some
            &&& 0 <= j < pre.team@.len()
            &&& slot_compatible(#[trigger] pre.team@[j], (pre.shop_friends@[i]->0).species)
            &&& pre.gold >= UNIT_COST
            &&& post.gold == pre.gold - UNIT_COST
            &&& post.shop_friends@ == pre.shop_friends@.update(i, Option::<Friend>::None)
            &&& post.shop_foods == pre.shop_foods
            &&& (post.team@[j] matches Some(p) && p.species == (
            pre.shop_friends@[i]->0).species)
        }
}

/// One consumable was bought and applied to an occupied team slot.
pub open spec fn stepped_food(pre: Shop, post: Shop) -> bool {
    exists|i: int, j: int|
        {
            &&& 0 <= i < pre.shop_foods@.len()
            &&& #[trigger] pre.shop_foods@[i] is Some
            &&& 0 <= j < pre.team@.len()
            &&& #[trigger] pre.team@[j] is Some
            &&& pre.gold >= UNIT_COST
            &&& post.gold == pre.gold - UNIT_COST
            &&& post.shop_friends == pre.shop_friends
            &&& post.shop_foods@ == pre.shop_foods@.update(i, Option::<Food>::None)
            &&& post.team@ == pre.team@.update(
                j,
                match pre.shop_foods@[i]->0 {
                    Food::Apple => Some(
                        Friend {
                            health: sat((pre.team@[j]->0).health + 1),
                            attack: sat((pre.team@[j]->0).attack + 1),
                            ..pre.team@[j]->0
                        },
                    ),
                    Food::Honey => Some(
                        Friend { modifier: Some(Modifier::Honey), ..pre.team@[j]->0 },
                    ),
                },
            )
        }
}

/// One unit was sold: it left the team and its level was paid out, twice
/// over for a pig.
pub open spec fn stepped_sell(pre: Shop, post: Shop) -> bool {
    exists|j: int|
        {
            &&& 0 <= j < pre.team@.len()
            &&& #[trigger] pre.team@[j] is Some
            &&& post.team@[j] is None
            &&& count_somes(post.team@) + 1 == count_somes(pre.team@)
            &&& post.shop_foods == pre.shop_foods
            &&& post.gold == sat(
                pre.gold + (if (pre.team@[j]->0).species == Species::Pig {
                    2 * (pre.team@[j]->0).level_spec()
                } else {
                    (pre.team@[j]->0).level_spec() as int
                }),
            )
        }
}

/// The offers were rerolled for one gold: every rack slot holds a fresh
/// stock unit or consumable again.
pub open spec fn stepped_reroll(pre: Shop, post: Shop) -> bool {
    &&& pre.gold >= 1
    &&& post.gold == pre.gold - 1
    &&& post.team == pre.team
    &&& (forall|i: int|
        0 <= i < post.shop_friends@.len() ==> ((#[trigger] post.shop_friends@[i]) matches Some(g)
            && g.has_default_power_spec() && g.exp == 0 && g.modifier is None))
    &&& (forall|i: int| 0 <= i < post.shop_foods@.len() ==> (#[trigger] post.shop_foods@[i])
        is Some)
}

/// Two same-kind units were merged: the one at `i` was folded into the one
/// at `j` under the combine rule, gold and racks untouched.
pub open spec fn stepped_merge(pre: Shop, post: Shop) -> bool {
    exists|i: int, j: int|
        {
            &&& 0 <= i < pre.team@.len()
            &&& 0 <= j < pre.team@.len()
            &&& #[trigger] partner_of(pre.team@, i, j)
            &&& post.gold == pre.gold
            &&& post.shop_friends == pre.shop_friends
            &&& post.shop_foods == pre.shop_foods
            &&& post.team@ == pre.team@.update(i, Option::<Friend>::None).update(
                j,
                Some(combined(pre.team@[j]->0, pre.team@[i]->0)),
            )
        }
}

impl Shop {
    /// Buys the consumable at `shop_pos` for the fixed price and applies it
    /// to the unit at `team_pos`: an apple buffs it by one health and one
    /// attack; the sweetener attaches its modifier, overwriting any prior
    /// one.
    pub fn buy_food(&mut self, shop_pos: usize, team_pos: usize)
        requires
            old(self).wf(),
            old(self).gold >= UNIT_COST,
            shop_pos < SHOP_FOOD_COUNT,
            old(self).shop_foods@[shop_pos as int] is Some,
            team_pos < TEAM_SIZE,
            old(self).team@[team_pos as int] is Some,
        ensures
            final(self).wf(),
            final(self).gold == old(self).gold - UNIT_COST,
            final(self).shop_friends == old(self).shop_friends,
            final(self).shop_foods@ == old(self).shop_foods@.update(
                shop_pos as int,
                Option::<Food>::None,
            ),
            forall|j: int| 0 <= j < TEAM_SIZE && j != team_pos ==> final(self).team@[j] == old(self).team@[j],
            final(self).team@[team_pos as int] == match old(self).shop_foods@[shop_pos as int]->0 {
                Food::Apple => Some(
                    Friend {
                        health: sat((old(self).team@[team_pos as int]->0).health + 1),
                        attack: sat((old(self).team@[team_pos as int]->0).attack + 1),
                        ..old(self).team@[team_pos as int]->0
                    },
                ),
                Food::Honey => Some(
                    Friend {
                        modifier: Some(Modifier::Honey),
                        ..old(self).team@[team_pos as int]->0
                    },
                ),
            },
    {
        let food = self.shop_foods[shop_pos].unwrap();
        let ghost rack = self.shop_foods@;
        self.shop_foods[shop_pos] = None;
        self.gold = self.gold - UNIT_COST;
        let mut f = self.team.0[team_pos].unwrap();
        match food {
            Food::Apple => {
                f.buff(1, 1);
            },
            Food::Honey => {
                f.modifier = Some(Modifier::Honey);
            },
        }
        let ghost pre = self.team@;
        self.team.0[team_pos] = Some(f);
        proof {
            assert(self.shop_foods@ =~= rack.update(shop_pos as int, Option::<Food>::None));
            assert(self.team@ =~= pre.update(team_pos as int, Some(f)));
            assert forall|p: int| 0 <= p < self.team@.len() implies (#[trigger] self.team@[p]
                matches Some(h) ==> h.wf()) by {
                if p != team_pos {
                    assert(self.team@[p] == pre[p]);
                }
            }
        }
    }

    /// Takes one shop action chosen by a draw: buy a unit, buy a consumable,
    /// sell, reroll, or merge two same-kind units.  Returns true when the
    /// chosen action has no legal target (or the gold does not cover it),
    /// which ends this exploration branch; the shop is then left as it was.
    pub fn step<D: Dice>(&mut self, dice: &mut D) -> (done: bool)
        requires
            old(self).wf(),
        ensures
            final(self).wf(),
            done ==> *final(self) == *old(self),
            done ==> step_blocked(*old(self)),
            !done ==> stepped_buy(*old(self), *final(self)) || stepped_food(
                *old(self),
                *final(self),
            ) || stepped_sell(*old(self), *final(self)) || stepped_reroll(
                *old(self),
                *final(self),
            ) || stepped_merge(*old(self), *final(self)),
    {
        let action = dice.roll(0, 5);
        match action {
            // Buy a unit.
            0 => {
                if self.gold < UNIT_COST {
                    return true;
                }
                let i = match self.random_friend(dice) {
                    Some(i) => i,
                    None => {
                        return true;
                    },
                };
                let species = self.shop_friends[i].unwrap().species;
                let j = match self.team.random_compatible_slot(species, dice) {
                    Some(j) => j,
                    None => {
                        proof {
                            assert forall|j2: int|
                                0 <= j2 < self.team@.len() implies !slot_compatible(
                                #[trigger] self.team@[j2],
                                species,
                            ) by {
                                if slot_compatible(self.team@[j2], species) {
                                }
                            }
                            assert(offer_unplaceable(*old(self), i as int));
                        }
                        return true;
                    },
                };
                self.buy_friend(i, j, dice);
                proof {
                    assert(old(self).shop_friends@[i as int] is Some);
                    assert(slot_compatible(
                        old(self).team@[j as int],
                        (old(self).shop_friends@[i as int]->0).species,
                    ));
                    assert(stepped_buy(*old(self), *self));
                }
            },
            // Buy a consumable.
            1 => {
                if self.gold < UNIT_COST {
                    return true;
                }
                let i = match self.random_food(dice) {
                    Some(i) => i,
                    None => {
                        return true;
                    },
                };
                let j = match self.team.random_friend(dice) {
                    Some(j) => j,
                    None => {
                        return true;
                    },
                };
                self.buy_food(i, j);
                proof {
                    assert(old(self).shop_foods@[i as int] is Some);
                    assert(old(self).team@[j as int] is Some);
                    assert(self.team@ =~= old(self).team@.update(
                        j as int,
                        match old(self).shop_foods@[i as int]->0 {
                            Food::Apple => Some(
                                Friend {
                                    health: sat((old(self).team@[j as int]->0).health + 1),
                                    attack: sat((old(self).team@[j as int]->0).attack + 1),
                                    ..old(self).team@[j as int]->0
                                },
                            ),
                            Food::Honey => Some(
                                Friend {
                                    modifier: Some(Modifier::Honey),
                                    ..old(self).team@[j as int]->0
                                },
                            ),
                        },
                    ));
                    assert(stepped_food(*old(self), *self));
                }
            },
            // Sell a unit.
            2 => {
                let j = match self.team.random_friend(dice) {
                    Some(j) => j,
                    None => {
                        return true;
                    },
                };
                self.sell_friend(j, dice);
                proof {
                    assert(old(self).team@[j as int] is Some);
                    assert(stepped_sell(*old(self), *self));
                }
            },
            // Reroll the offers.
            3 => {
                if self.gold == 0 {
                    return true;
                }
                self.reroll(dice);
                self.gold = self.gold - 1;
                proof {
                    assert(stepped_reroll(*old(self), *self));
                }
            },
            // Merge two same-kind units.
            _ => {
                let mask = partner_mask(&self.team);
                let num = crate::dice::count_set(&mask);
                if num == 0 {
                    proof {
                        crate::dice::lemma_count_trues_zero(mask@);
                        if merge_available(*old(self)) {
                            let iw = choose|i: int|
                                0 <= i < old(self).team@.len() && #[trigger] has_partner(
                                    old(self).team@,
                                    i,
                                );
                            assert(mask@[iw]);
                        }
                    }
                    return true;
                }
                let pick = dice.roll(0, num);
                let i = crate::dice::nth_set(&mask, pick);
                let mask2 = partners_of(&self.team, i);
                let num2 = crate::dice::count_set(&mask2);
                proof {
                    assert(has_partner(self.team@, i as int));
                    let jw = choose|j: int|
                        0 <= j < self.team@.len() && #[trigger] partner_of(self.team@, i as int, j);
                    assert(mask2@[jw]);
                    if count_trues(mask2@) == 0 {
                        crate::dice::lemma_count_trues_zero(mask2@);
                    }
                }
                let pick2 = dice.roll(0, num2);
                let j = crate::dice::nth_set(&mask2, pick2);
                let friend = self.team.0[i].unwrap();
                let ghost pre = self.team@;
                self.team.0[i] = None;
                proof {
                    assert(self.team@ =~= pre.update(i as int, Option::<Friend>::None));
                    assert forall|p: int| 0 <= p < self.team@.len() implies (
                    #[trigger] self.team@[p] matches Some(h) ==> h.wf()) by {
                        if p != i {
                            assert(self.team@[p] == pre[p]);
                        }
                    }
                    assert(self.team@[j as int] == pre[j as int]);
                }
                self.combine_friends(j, friend);
                proof {
                    assert(partner_of(old(self).team@, i as int, j as int));
                    assert(self.team@ =~= old(self).team@.update(
                        i as int,
                        Option::<Friend>::None,
                    ).update(
                        j as int,
                        Some(combined(old(self).team@[j as int]->0, old(self).team@[i as int]->0)),
                    ));
                    assert(stepped_merge(*old(self), *self));
                }
            },
        }
        false
    }
}

} // verus!
