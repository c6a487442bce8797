use vstd::prelude::*;

use crate::dice::{count_somes, Dice};
use crate::friend::Friend;
use crate::species::Species;
use crate::team::{
    all_alive, is_compact, lemma_compact_front, lemma_count_somes_pos, lemma_update_measures,
    slot_species, team_health, team_species, team_tokens, Team,
};
use crate::TEAM_SIZE;

verus! {

/// The outcome of one simulated battle.
#[derive(Copy, Clone, Debug, PartialEq, Eq, Hash, Structural)]
pub enum Winner {
    TeamA,
    TeamB,
    Tied,
}

/// An ordered pair of teams engaged in combat.  The battle owns both teams
/// for the duration of one simulated fight; nothing outside them is shared.
#[derive(Clone, Debug, PartialEq, Eq)]
pub struct Battle(pub Team, pub Team);

/// No unit of the sequence carries an ability whose targets are drawn at
/// random, so the battle's outcome does not depend on the dice.
pub open spec fn team_deterministic(s: Seq<Option<Friend>>) -> bool {
    forall|j: int| 0 <= j < s.len() ==> (#[trigger] s[j] matches Some(f) ==> f.species
        != Species::Mosquito && f.species != Species::Ant)
}

impl Battle {
    /// Both teams well formed and packed against the front.
    pub open spec fn wf(self) -> bool {
        self.0.wf() && self.1.wf() && is_compact(self.0@) && is_compact(self.1@)
    }

    /// Simulates the battle to its end, returning the winner.  Termination
    /// is structural: every clash strictly shrinks the teams' combined
    /// (death-trigger tokens, unit count, total health), ordered
    /// lexicographically.
    pub fn run<D: Dice>(self, dice: &mut D) -> (w: Winner)
        requires
            self.wf(),
        ensures
            count_somes(self.0@) == 0 && count_somes(self.1@) == 0 ==> w == Winner::Tied,
            count_somes(self.0@) > 0 && all_alive(self.0@) && count_somes(self.1@) == 0 ==> w
                == Winner::TeamA,
            count_somes(self.1@) > 0 && all_alive(self.1@) && count_somes(self.0@) == 0 ==> w
                == Winner::TeamB,
            det_pre(self.0@, self.1@) ==> w == det_battle(self.0@, self.1@),
    {
        let mut battle = self;
        battle.run_rounds(dice)
    }

    /// Simulates the battle in place to its end.  The winner is exactly the
    /// side still holding units when the other is empty; a tie means both
    /// ended empty.
    pub fn run_rounds<D: Dice>(&mut self, dice: &mut D) -> (w: Winner)
        requires
            old(self).wf(),
        ensures
            final(self).wf(),
            w == Winner::Tied <==> count_somes(final(self).0@) == 0 && count_somes(final(self).1@)
                == 0,
            w == Winner::TeamA <==> count_somes(final(self).0@) > 0 && count_somes(
                final(self).1@,
            ) == 0,
            w == Winner::TeamB <==> count_somes(final(self).1@) > 0 && count_somes(
                final(self).0@,
            ) == 0,
            team_tokens(final(self).0@) + team_tokens(final(self).1@) <= team_tokens(old(self).0@)
                + team_tokens(old(self).1@),
            count_somes(old(self).0@) == 0 && count_somes(old(self).1@) == 0 ==> final(self).0@
                == old(self).0@ && final(self).1@ == old(self).1@,
            count_somes(old(self).0@) > 0 && all_alive(old(self).0@) && count_somes(
                old(self).1@,
            ) == 0 ==> final(self).0@ == old(self).0@ && final(self).1@ == old(self).1@,
            count_somes(old(self).1@) > 0 && all_alive(old(self).1@) && count_somes(
                old(self).0@,
            ) == 0 ==> final(self).0@ == old(self).0@ && final(self).1@ == old(self).1@,
            det_pre(old(self).0@, old(self).1@) ==> w == det_battle(
                old(self).0@,
                old(self).1@,
            ),
    {
        let ghost entry = *old(self);
        proof {
            if count_somes(entry.0@) == 0 {
                assert forall|j: int| 0 <= j < entry.0@.len() implies !((#[trigger] entry.0@[j])
                    is Some) by {
                    if entry.0@[j] is Some {
                        lemma_count_somes_pos(entry.0@, j);
                    }
                }
                assert(all_alive(entry.0@));
            }
            if count_somes(entry.1@) == 0 {
                assert forall|j: int| 0 <= j < entry.1@.len() implies !((#[trigger] entry.1@[j])
                    is Some) by {
                    if entry.1@[j] is Some {
                        lemma_count_somes_pos(entry.1@, j);
                    }
                }
                assert(all_alive(entry.1@));
            }
        }
        self.before_battle(dice);
        loop
            invariant
                self.wf(),
                entry == *old(self),
                team_tokens(self.0@) + team_tokens(self.1@) <= team_tokens(entry.0@) + team_tokens(
                    entry.1@,
                ),
                count_somes(entry.0@) == 0 && count_somes(entry.1@) == 0 ==> self.0@ == entry.0@
                    && self.1@ == entry.1@,
                count_somes(entry.0@) > 0 && all_alive(entry.0@) && count_somes(entry.1@) == 0
                    ==> self.0@ == entry.0@ && self.1@ == entry.1@,
                count_somes(entry.1@) > 0 && all_alive(entry.1@) && count_somes(entry.0@) == 0
                    ==> self.0@ == entry.0@ && self.1@ == entry.1@,
                det_pre(entry.0@, entry.1@) ==> det_pre(self.0@, self.1@) && det_battle(
                    self.0@,
                    self.1@,
                ) == det_battle(entry.0@, entry.1@),
            decreases
                    team_tokens(self.0@) + team_tokens(self.1@),
                    count_somes(self.0@) + count_somes(self.1@),
                    team_health(self.0@) + team_health(self.1@),
        {
            let a_empty = self.0.is_empty();
            let b_empty = self.1.is_empty();
            if a_empty && b_empty {
                return Winner::Tied;
            } else if b_empty {
                return Winner::TeamA;
            } else if a_empty {
                return Winner::TeamB;
            }
            self.step(dice);
        }
    }

    /// Whether the battle plays out the same way every time: true when no
    /// unit on either side has a randomized ability.  A deterministic
    /// battle need be simulated only once.
    pub fn is_deterministic(&self) -> (r: bool)
        ensures
            r == (team_deterministic(self.0@) && team_deterministic(self.1@)),
    {
        self.0.is_deterministic_team() && self.1.is_deterministic_team()
    }

    /// Fires every unit's battle-start ability, the first team's units
    /// first, then removes the dead from both sides once.  Simultaneous
    /// battle-start kills are not re-resolved recursively.
    fn before_battle<D: Dice>(&mut self, dice: &mut D)
        requires
            old(self).wf(),
        ensures
            final(self).wf(),
            team_tokens(final(self).0@) + team_tokens(final(self).1@) <= team_tokens(old(self).0@)
                + team_tokens(old(self).1@),
            count_somes(old(self).1@) == 0 && all_alive(old(self).0@) ==> final(self).0@ == old(self).0@ && final(self).1@ == old(self).1@,
            count_somes(old(self).0@) == 0 && all_alive(old(self).1@) ==> final(self).0@ == old(self).0@ && final(self).1@ == old(self).1@,
            team_deterministic(old(self).0@) && team_deterministic(old(self).1@) && all_alive(
                old(self).0@,
            ) && all_alive(old(self).1@) ==> final(self).0@ == old(self).0@ && final(self).1@
                == old(self).1@,
    {
        let mut i: usize = 0;
        while i < TEAM_SIZE
            invariant
                self.0.wf(),
                self.1.wf(),
                is_compact(self.0@),
                is_compact(self.1@),
                self.0@.len() == TEAM_SIZE,
                self.1@.len() == TEAM_SIZE,
                team_tokens(self.0@) == team_tokens(old(self).0@),
                team_tokens(self.1@) == team_tokens(old(self).1@),
                count_somes(old(self).0@) == 0 || count_somes(old(self).1@) == 0 ==> *self
                    == *old(self),
                team_deterministic(old(self).0@) && team_deterministic(old(self).1@) ==> *self
                    == *old(self),
            decreases TEAM_SIZE - i,
        {
            proof {
                if self.0@[i as int] is Some {
                    lemma_count_somes_pos(self.0@, i as int);
                }
            }
            let ghost before = *self;
            self.on_battle_start(i, true, dice);
            proof {
                assert(is_compact(self.1@)) by {
                    assert(forall|p: int| 0 <= p < self.1@.len() ==> ((#[trigger] self.1@[p])
                        is Some <==> before.1@[p] is Some));
                }
            }
            i = i + 1;
        }
        let mut i: usize = 0;
        while i < TEAM_SIZE
            invariant
                self.0.wf(),
                self.1.wf(),
                is_compact(self.0@),
                is_compact(self.1@),
                self.0@.len() == TEAM_SIZE,
                self.1@.len() == TEAM_SIZE,
                team_tokens(self.0@) == team_tokens(old(self).0@),
                team_tokens(self.1@) == team_tokens(old(self).1@),
                count_somes(old(self).0@) == 0 || count_somes(old(self).1@) == 0 ==> *self
                    == *old(self),
                team_deterministic(old(self).0@) && team_deterministic(old(self).1@) ==> *self
                    == *old(self),
            decreases TEAM_SIZE - i,
        {
            proof {
                if self.1@[i as int] is Some {
                    lemma_count_somes_pos(self.1@, i as int);
                }
            }
            let ghost before = *self;
            self.on_battle_start(i, false, dice);
            proof {
                assert(is_compact(self.0@)) by {
                    assert(forall|p: int| 0 <= p < self.0@.len() ==> ((#[trigger] self.0@[p])
                        is Some <==> before.0@[p] is Some));
                }
            }
            i = i + 1;
        }
        let ghost mid = *self;
        proof {
            assert forall|j: int|
                0 <= j < self.0@.len() && count_somes(self.0@) == 0 implies !(self.0@[j]
                is Some) by {
                if self.0@[j] is Some {
                    lemma_count_somes_pos(self.0@, j);
                }
            }
            assert forall|j: int|
                0 <= j < self.1@.len() && count_somes(self.1@) == 0 implies !(self.1@[j]
                is Some) by {
                if self.1@[j] is Some {
                    lemma_count_somes_pos(self.1@, j);
                }
            }
        }
        self.0.remove_dead(dice);
        self.1.remove_dead(dice);
        proof {
            if count_somes(old(self).1@) == 0 && all_alive(old(self).0@) {
                assert(mid.0@ == old(self).0@ && mid.1@ == old(self).1@);
                assert(all_alive(mid.0@));
                assert(all_alive(mid.1@));
            }
            if count_somes(old(self).0@) == 0 && all_alive(old(self).1@) {
                assert(mid.0@ == old(self).0@ && mid.1@ == old(self).1@);
                assert(all_alive(mid.0@));
                assert(all_alive(mid.1@));
            }
        }
    }

    /// Fires the battle-start ability of the unit at slot `i` of the given
    /// side against the opposing team: a mosquito shoots `level` one-damage
    /// shots at randomly chosen occupied enemy slots, health floored at
    /// zero.  Only enemy healths can change.
    #[verifier::rlimit(50)]
    fn on_battle_start<D: Dice>(&mut self, i: usize, team: bool, dice: &mut D)
        requires
            i < TEAM_SIZE,
            old(self).0.wf(),
            old(self).1.wf(),
        ensures
            final(self).0.wf(),
            final(self).1.wf(),
            team ==> final(self).0 == old(self).0,
            !team ==> final(self).1 == old(self).1,
            team_tokens(final(self).0@) == team_tokens(old(self).0@),
            team_tokens(final(self).1@) == team_tokens(old(self).1@),
            health_bounded(
                if team {
                    final(self).1@
                } else {
                    final(self).0@
                },
                if team {
                    old(self).1@
                } else {
                    old(self).0@
                },
            ),
            count_somes(
                if team {
                    old(self).1@
                } else {
                    old(self).0@
                },
            ) == 0 ==> *final(self) == *old(self),
            (if team {
                old(self).0@[i as int]
            } else {
                old(self).1@[i as int]
            }) is None ==> *final(self) == *old(self) && *final(dice) == *old(dice),
            ((if team {
                old(self).0@[i as int]
            } else {
                old(self).1@[i as int]
            }) matches Some(f) && f.species != Species::Mosquito) ==> *final(self) == *old(self)
                && *final(dice) == *old(dice),
            ((if team {
                old(self).0@[i as int]
            } else {
                old(self).1@[i as int]
            }) matches Some(f) && f.species == Species::Mosquito) ==> exists|picks: Seq<int>|
                ({
                    let opp_old = if team {
                        old(self).1@
                    } else {
                        old(self).0@
                    };
                    let opp_new = if team {
                        final(self).1@
                    } else {
                        final(self).0@
                    };
                    &&& #[trigger] picks.len() == (if ((if team {
                        old(self).0@[i as int]
                    } else {
                        old(self).1@[i as int]
                    })->0).level_spec() <= count_somes(opp_old) {
                        ((if team {
                            old(self).0@[i as int]
                        } else {
                            old(self).1@[i as int]
                        })->0).level_spec() as nat
                    } else {
                        count_somes(opp_old)
                    })
                    &&& (forall|a: int| 0 <= a < picks.len() ==> 0 <= #[trigger] picks[a]
                        < opp_old.len() && opp_old[picks[a]] is Some)
                    &&& (forall|a: int, b: int| 0 <= a < b < picks.len() ==> picks[a] != picks[b])
                    &&& (forall|p: int| 0 <= p < opp_new.len() ==> #[trigger] opp_new[p] == (
                    if picks.contains(p) {
                        Some(stung(opp_old[p]->0))
                    } else {
                        opp_old[p]
                    }))
                }),
    {
        let actor = if team {
            self.0.0[i]
        } else {
            self.1.0[i]
        };
        let f = match actor {
            Some(f) => f,
            None => {
                return ;
            },
        };
        match f.species {
            Species::Mosquito => {
                let lvl = f.level();
                let targets = if team {
                    self.1.random_friends(lvl, dice)
                } else {
                    self.0.random_friends(lvl, dice)
                };
                let ghost pre = *self;
                let n = targets.len();
                if n == 0 {
                    proof {
                        let picks = Seq::<int>::empty();
                        assert(picks.len() == 0);
                        assert(forall|p: int| !picks.contains(p));
                        assert(forall|p: int|
                            0 <= p < opp_view(*self, team).len() ==> #[trigger] opp_view(
                                *self,
                                team,
                            )[p] == opp_view(pre, team)[p]);
                    }
                    return ;
                }
                let mut k: usize = 0;
                while k < n
                    invariant
                        pre == *old(self),
                        n == targets@.len(),
                        n > 0,
                        k <= n,
                        self.0.wf(),
                        self.1.wf(),
                        team ==> self.0 == pre.0,
                        !team ==> self.1 == pre.1,
                        (if team {
                            self.1@
                        } else {
                            self.0@
                        }).len() == (if team {
                            pre.1@
                        } else {
                            pre.0@
                        }).len(),
                        forall|a: int| 0 <= a < n ==> #[trigger] targets@[a] < (if team {
                            pre.1@
                        } else {
                            pre.0@
                        }).len() && (if team {
                            pre.1@
                        } else {
                            pre.0@
                        })[targets@[a] as int] is Some,
                        forall|a: int, b: int| 0 <= a < b < n ==> targets@[a] != targets@[b],
                        forall|p: int| 0 <= p < opp_view(*self, team).len() ==> #[trigger] opp_view(
                            *self,
                            team,
                        )[p] == (if (exists|a: int| 0 <= a < k && targets@[a] == p) {
                            Some(stung(opp_view(pre, team)[p]->0))
                        } else {
                            opp_view(pre, team)[p]
                        }),
                        health_bounded(
                            if team {
                                self.1@
                            } else {
                                self.0@
                            },
                            if team {
                                pre.1@
                            } else {
                                pre.0@
                            },
                        ),
                    decreases n - k,
                {
                    let j = targets[k];
                    let ghost opp_pre = opp_view(*self, team);
                    proof {
                        if exists|a: int| 0 <= a < k && targets@[a] == j {
                            let a = choose|a: int| 0 <= a < k && targets@[a] == j;
                            assert(targets@[a] == targets@[k as int]);
                            assert(false);
                        }
                        assert(opp_pre[j as int] == opp_view(pre, team)[j as int]);
                    }
                    let slot = if team {
                        self.1.0[j]
                    } else {
                        self.0.0[j]
                    };
                    match slot {
                        Some(mut g) => {
                            g.health = g.health.saturating_sub(1);
                            if team {
                                self.1.0[j] = Some(g);
                            } else {
                                self.0.0[j] = Some(g);
                            }
                            proof {
                                let opp_now = opp_view(*self, team);
                                assert(opp_now =~= opp_pre.update(j as int, Some(g)));
                                assert(g == stung(opp_view(pre, team)[j as int]->0));
                                assert forall|p: int|
                                    0 <= p < opp_now.len() implies #[trigger] opp_now[p] == (
                                if (exists|a: int| 0 <= a < k + 1 && targets@[a] == p) {
                                    Some(stung(opp_view(pre, team)[p]->0))
                                } else {
                                    opp_view(pre, team)[p]
                                }) by {
                                    if p == j {
                                        assert(targets@[k as int] == p);
                                    } else {
                                        assert(opp_now[p] == opp_pre[p]);
                                        if exists|a: int| 0 <= a < k + 1 && targets@[a] == p {
                                            let a = choose|a: int|
                                                0 <= a < k + 1 && targets@[a] == p;
                                            assert(0 <= a < k);
                                        }
                                    }
                                }
                            }
                        },
                        None => {
                            proof {
                                assert(false);
                            }
                        },
                    }
                    k = k + 1;
                }
                proof {
                    let picks = targets@.map_values(|u: usize| u as int);
                    let opp_old = if team {
                        pre.1@
                    } else {
                        pre.0@
                    };
                    let opp_new = if team {
                        self.1@
                    } else {
                        self.0@
                    };
                    assert forall|p: int| 0 <= p < opp_new.len() implies #[trigger] opp_new[p]
                        == (if picks.contains(p) {
                        Some(stung(opp_old[p]->0))
                    } else {
                        opp_old[p]
                    }) by {
                        assert(opp_new[p] == opp_view(*self, team)[p]);
                        assert(opp_old[p] == opp_view(pre, team)[p]);
                        if picks.contains(p) {
                            let a = choose|a: int| 0 <= a < picks.len() && picks[a] == p;
                            assert(targets@[a] == p);
                            assert(exists|a2: int| 0 <= a2 < n && targets@[a2] == p);
                        }
                        if exists|a: int| 0 <= a < n && targets@[a] == p {
                            let a = choose|a: int| 0 <= a < n && targets@[a] == p;
                            assert(picks[a] == p);
                            assert(picks.contains(p));
                        }
                    }
                    assert forall|a: int| 0 <= a < picks.len() implies 0 <= #[trigger] picks[a]
                        < opp_old.len() && opp_old[picks[a]] is Some by {
                        assert(picks[a] == targets@[a] as int);
                    }
                    assert forall|a: int, b: int| 0 <= a < b < picks.len() implies picks[a]
                        != picks[b] by {
                        assert(picks[a] == targets@[a] as int && picks[b] == targets@[b] as int);
                    }
                }
                proof {
                    lemma_health_bounded_measures(
                        opp_view(*self, team),
                        opp_view(pre, team),
                    );
                }
            },
            _ => {},
        }
    }

    /// One clash: the two front units strike each other simultaneously for
    /// their attack values, then the dead are removed from both sides.
    fn step<D: Dice>(&mut self, dice: &mut D)
        requires
            old(self).wf(),
            count_somes(old(self).0@) > 0,
            count_somes(old(self).1@) > 0,
        ensures
            final(self).wf(),
            team_tokens(final(self).0@) + team_tokens(final(self).1@) < team_tokens(old(self).0@)
                + team_tokens(old(self).1@) || (team_tokens(final(self).0@) + team_tokens(
                final(self).1@,
            ) == team_tokens(old(self).0@) + team_tokens(old(self).1@) && (count_somes(
                final(self).0@,
            ) + count_somes(final(self).1@) < count_somes(old(self).0@) + count_somes(
                old(self).1@,
            ) || (count_somes(final(self).0@) + count_somes(final(self).1@) == count_somes(
                old(self).0@,
            ) + count_somes(old(self).1@) && team_health(final(self).0@) + team_health(
                final(self).1@,
            ) < team_health(old(self).0@) + team_health(old(self).1@)))),
            trigger_free(old(self).0@) && trigger_free(old(self).1@) ==> final(self).0@
                == crate::team::swept(clashed(old(self).0@, old(self).1@)) && final(self).1@
                == crate::team::swept(clashed(old(self).1@, old(self).0@)),
            all_alive(final(self).0@),
            all_alive(final(self).1@),
            team_deterministic(old(self).0@) && team_deterministic(old(self).1@) ==> final(self).0@ == crate::team::spec_remove_dead(clashed(old(self).0@, old(self).1@)) && final(self).1@ == crate::team::spec_remove_dead(clashed(old(self).1@, old(self).0@)),
            det_pre(old(self).0@, old(self).1@) ==> det_pre(final(self).0@, final(self).1@),
    {
        proof {
            lemma_compact_front(self.0@);
            lemma_compact_front(self.1@);
        }
        let f0 = self.0.0[0].unwrap();
        let g0 = self.1.0[0].unwrap();
        let mut f = f0;
        let mut g = g0;
        f.health = f0.health.saturating_sub(g0.attack);
        g.health = g0.health.saturating_sub(f0.attack);
        self.0.0[0] = Some(f);
        self.1.0[0] = Some(g);
        let ghost a0 = old(self).0@;
        let ghost b0 = old(self).1@;
        let ghost a1 = self.0@;
        let ghost b1 = self.1@;
        proof {
            assert(a1 =~= a0.update(0, Some(f)));
            assert(b1 =~= b0.update(0, Some(g)));
            lemma_update_measures(a0, 0, Some(f));
            lemma_update_measures(b0, 0, Some(g));
        }
        proof {
            assert(team_tokens(a1) == team_tokens(a0));
            assert(team_tokens(b1) == team_tokens(b0));
            assert(count_somes(a1) == count_somes(a0));
            assert(count_somes(b1) == count_somes(b0));
            assert(team_health(a1) + f0.health as nat == team_health(a0) + f.health as nat);
            assert(team_health(b1) + g0.health as nat == team_health(b0) + g.health as nat);
            assert(is_compact(a1)) by {
                assert(forall|p: int| 0 <= p < a1.len() ==> ((#[trigger] a1[p]) is Some <==> a0[p]
                    is Some));
            }
            assert(is_compact(b1)) by {
                assert(forall|p: int| 0 <= p < b1.len() ==> ((#[trigger] b1[p]) is Some <==> b0[p]
                    is Some));
            }
            if trigger_free(a0) && trigger_free(b0) {
                assert(f == struck(f0, g0.attack));
                assert(g == struck(g0, f0.attack));
                assert forall|p: int| 0 <= p < a1.len() implies crate::team::slot_tokens(
                    #[trigger] a1[p],
                ) == 0 by {
                    assert(crate::team::slot_tokens(a0[p]) == 0);
                }
                assert forall|p: int| 0 <= p < b1.len() implies crate::team::slot_tokens(
                    #[trigger] b1[p],
                ) == 0 by {
                    assert(crate::team::slot_tokens(b0[p]) == 0);
                }
            }
        }
        self.0.remove_dead(dice);
        self.1.remove_dead(dice);
        proof {
            let a2 = self.0@;
            let b2 = self.1@;
            // Each side strictly shrinks: either a death consumed the front
            // unit (or a token), or the front survived a real hit.
            if f.health == 0 {
                assert(a1[0] matches Some(h) && h.health == 0);
            } else {
                assert(f0.health > g0.attack);
                assert(team_health(a1) < team_health(a0));
            }
            assert(team_tokens(a2) < team_tokens(a0) || (team_tokens(a2) == team_tokens(a0)
                && count_somes(a2) < count_somes(a0) && team_health(a2) <= team_health(a0)) || (
            team_tokens(a2) == team_tokens(a0) && count_somes(a2) == count_somes(a0)
                && team_health(a2) < team_health(a0)));
            if g.health == 0 {
                assert(b1[0] matches Some(h) && h.health == 0);
            } else {
                assert(g0.health > f0.attack);
                assert(team_health(b1) < team_health(b0));
            }
            assert(team_tokens(b2) < team_tokens(b0) || (team_tokens(b2) == team_tokens(b0)
                && count_somes(b2) < count_somes(b0) && team_health(b2) <= team_health(b0)) || (
            team_tokens(b2) == team_tokens(b0) && count_somes(b2) == count_somes(b0)
                && team_health(b2) < team_health(b0)));
            if team_deterministic(a0) && team_deterministic(b0) {
                assert(team_species(a1, Species::Mosquito) == team_species(a0, Species::Mosquito)
                    && team_species(a1, Species::Ant) == team_species(a0, Species::Ant)
                    && team_species(b1, Species::Mosquito) == team_species(b0, Species::Mosquito)
                    && team_species(b1, Species::Ant) == team_species(b0, Species::Ant));
                assert forall|p: int|
                    0 <= p < a0.len() implies crate::team::slot_species(
                    #[trigger] a0[p],
                    Species::Ant,
                ) == 0 by {}
                assert forall|p: int|
                    0 <= p < b0.len() implies crate::team::slot_species(
                    #[trigger] b0[p],
                    Species::Ant,
                ) == 0 by {}
                crate::team::lemma_team_species_zero(a0, Species::Ant);
                crate::team::lemma_team_species_zero(b0, Species::Ant);
                assert(team_species(a1, Species::Ant) == 0);
                assert(team_species(b1, Species::Ant) == 0);
                lemma_det_preserved(a0, a2);
                lemma_det_preserved(b0, b2);
            }
        }
    }
}

/// The team opposing the given side's actor.
pub open spec fn opp_view(b: Battle, team: bool) -> Seq<Option<Friend>> {
    if team {
        b.1@
    } else {
        b.0@
    }
}

/// No unit of the sequence carries a death trigger: no cricket, no ant, no
/// sweetener.
pub open spec fn trigger_free(s: Seq<Option<Friend>>) -> bool {
    forall|p: int| 0 <= p < s.len() ==> crate::team::slot_tokens(#[trigger] s[p]) == 0
}

/// A unit after taking a hit: the damage comes off its health, floored at
/// zero.
pub open spec fn struck(f: Friend, damage: usize) -> Friend {
    Friend {
        health: if f.health >= damage {
            (f.health - damage) as usize
        } else {
            0usize
        },
        ..f
    }
}

/// A unit after one mosquito shot: one health lost, floored at zero.
pub open spec fn stung(g: Friend) -> Friend {
    Friend {
        health: if g.health >= 1 {
            (g.health - 1) as usize
        } else {
            0usize
        },
        ..g
    }
}

/// A pointwise health bound keeps the token count and unit count, and
/// bounds the total health.
proof fn lemma_health_bounded_measures(a: Seq<Option<Friend>>, b: Seq<Option<Friend>>)
    requires
        health_bounded(a, b),
    ensures
        team_tokens(a) == team_tokens(b),
        count_somes(a) == count_somes(b),
        team_health(a) <= team_health(b),
{
    assert forall|j: int|
        0 <= j < a.len() implies ((#[trigger] a[j]) is Some <==> b[j] is Some)
            && crate::team::slot_tokens(a[j]) == crate::team::slot_tokens(b[j])
            && crate::team::slot_health(a[j]) <= crate::team::slot_health(b[j]) by {
        assert(0 <= j < b.len());
    }
    crate::team::lemma_measures_pointwise(a, b);
}

/// Both sides inside the fragment the battle rules make fully
/// deterministic: nobody draws from the dice (no mosquito, no ant), slots
/// well formed, packed against the front, and nobody already dead.
/// Crickets and sweetened units are fine: their death effects are fixed.
pub open spec fn det_pre(a: Seq<Option<Friend>>, b: Seq<Option<Friend>>) -> bool {
    &&& a.len() == TEAM_SIZE
    &&& b.len() == TEAM_SIZE
    &&& crate::team::slots_wf(a)
    &&& crate::team::slots_wf(b)
    &&& is_compact(a)
    &&& is_compact(b)
    &&& all_alive(a)
    &&& all_alive(b)
    &&& team_deterministic(a)
    &&& team_deterministic(b)
}

/// One side after the front-line clash against the other.
pub open spec fn clashed(
    s: Seq<Option<Friend>>,
    other: Seq<Option<Friend>>,
) -> Seq<Option<Friend>> {
    s.update(0, Some(struck(s[0]->0, (other[0]->0).attack)))
}

/// The battle's outcome on the deterministic fragment: clash the fronts,
/// remove the dead with their death effects, repeat until a side is empty.
/// Every round strictly shrinks the combined (death tokens, units, health)
/// measure, which bounds the recursion.
pub open spec fn det_battle(a: Seq<Option<Friend>>, b: Seq<Option<Friend>>) -> Winner
    decreases
            team_tokens(a) + team_tokens(b),
            count_somes(a) + count_somes(b),
            team_health(a) + team_health(b),
        when det_pre(a, b)
        via det_battle_decreases
{
    if count_somes(a) == 0 && count_somes(b) == 0 {
        Winner::Tied
    } else if count_somes(b) == 0 {
        Winner::TeamA
    } else if count_somes(a) == 0 {
        Winner::TeamB
    } else {
        det_battle(
            crate::team::spec_remove_dead(clashed(a, b)),
            crate::team::spec_remove_dead(clashed(b, a)),
        )
    }
}

#[via_fn]
proof fn det_battle_decreases(a: Seq<Option<Friend>>, b: Seq<Option<Friend>>) {
    if det_pre(a, b) && count_somes(a) > 0 && count_somes(b) > 0 {
        lemma_compact_front(a);
        lemma_compact_front(b);
        let a1 = clashed(a, b);
        let b1 = clashed(b, a);
        lemma_update_measures(a, 0, a1[0]);
        lemma_update_measures(b, 0, b1[0]);
        let a2 = crate::team::spec_remove_dead(a1);
        let b2 = crate::team::spec_remove_dead(b1);
        crate::team::lemma_spec_remove_dead_measures(a1);
        crate::team::lemma_spec_remove_dead_measures(b1);
        // Each side strictly shrinks: either the front died (or somebody
        // was already dead cannot happen here), or it survived a real hit.
        if (a1[0]->0).health == 0 {
            assert(a1[0] is Some && (a1[0]->0).health == 0);
            assert(exists|j: int|
                0 <= j < a1.len() && (#[trigger] a1[j]) is Some && (a1[j]->0).health == 0);
        } else {
            assert forall|j: int|
                0 <= j < a1.len() implies !((#[trigger] a1[j]) is Some && (a1[j]->0).health
                == 0) by {
                if j != 0 {
                    assert(a1[j] == a[j]);
                }
            }
            assert(a2 == a1);
            assert(team_health(a1) < team_health(a));
        }
        if (b1[0]->0).health == 0 {
            assert(b1[0] is Some && (b1[0]->0).health == 0);
            assert(exists|j: int|
                0 <= j < b1.len() && (#[trigger] b1[j]) is Some && (b1[j]->0).health == 0);
        } else {
            assert forall|j: int|
                0 <= j < b1.len() implies !((#[trigger] b1[j]) is Some && (b1[j]->0).health
                == 0) by {
                if j != 0 {
                    assert(b1[j] == b[j]);
                }
            }
            assert(b2 == b1);
            assert(team_health(b1) < team_health(b));
        }
        assert(team_tokens(a2) < team_tokens(a) || (team_tokens(a2) == team_tokens(a)
            && count_somes(a2) < count_somes(a) && team_health(a2) <= team_health(a)) || (
        team_tokens(a2) == team_tokens(a) && count_somes(a2) == count_somes(a) && team_health(a2)
            < team_health(a)));
        assert(team_tokens(b2) < team_tokens(b) || (team_tokens(b2) == team_tokens(b)
            && count_somes(b2) < count_somes(b) && team_health(b2) <= team_health(b)) || (
        team_tokens(b2) == team_tokens(b) && count_somes(b2) == count_somes(b) && team_health(b2)
            < team_health(b)));
    }
}

/// Losing no more units of a kind than before keeps a dice-free team
/// dice-free.
proof fn lemma_det_preserved(pre: Seq<Option<Friend>>, post: Seq<Option<Friend>>)
    requires
        team_species(post, Species::Mosquito) <= team_species(pre, Species::Mosquito),
        team_species(post, Species::Ant) <= team_species(pre, Species::Ant),
        team_deterministic(pre),
    ensures
        team_deterministic(post),
{
    crate::team::lemma_team_species_zero(pre, Species::Mosquito);
    crate::team::lemma_team_species_zero(post, Species::Mosquito);
    crate::team::lemma_team_species_zero(pre, Species::Ant);
    crate::team::lemma_team_species_zero(post, Species::Ant);
    assert forall|p: int|
        0 <= p < post.len() implies (#[trigger] post[p] matches Some(f) ==> f.species
        != Species::Mosquito && f.species != Species::Ant) by {
        assert(slot_species(post[p], Species::Mosquito) == 0);
        assert(slot_species(post[p], Species::Ant) == 0);
    }
}

/// Pointwise: same slots and units, health no greater.
pub open spec fn health_bounded(a: Seq<Option<Friend>>, b: Seq<Option<Friend>>) -> bool {
    a.len() == b.len() && forall|j: int| 0 <= j < a.len() ==> match (#[trigger] a[j], b[j]) {
        (Some(x), Some(y)) => x.species == y.species && x.attack == y.attack && x.modifier
            == y.modifier && x.exp == y.exp && x.health <= y.health,
        (None, None) => true,
        _ => false,
    }
}

impl Team {
    /// Whether none of the team's units carries a randomized ability.
    pub fn is_deterministic_team(&self) -> (r: bool)
        ensures
            r == team_deterministic(self@),
    {
        let len = self.0.len();
        for i in 0..len
            invariant
                len == self@.len(),
                forall|j: int| 0 <= j < i ==> (#[trigger] self@[j] matches Some(f) ==> f.species
                    != Species::Mosquito && f.species != Species::Ant),
        {
            match &self.0[i] {
                Some(f) => {
                    let mosquito = match f.species {
                        Species::Mosquito => true,
                        _ => false,
                    };
                    let ant = match f.species {
                        Species::Ant => true,
                        _ => false,
                    };
                    if mosquito || ant {
                        return false;
                    }
                },
                None => {},
            }
        }
        true
    }
}

} // verus!
