use autobattler::{
    Battle, DeterministicDice, Food, Friend, Modifier, Shop, Species, Team, Winner,
    SHOP_FOOD_COUNT, SHOP_FRIEND_COUNT,
};

fn unit(species: Species, health: usize, attack: usize) -> Friend {
    Friend { species, health, attack, modifier: None, exp: 0 }
}

fn empty_shop(team: Team, gold: usize) -> Shop {
    Shop {
        team,
        gold,
        shop_friends: vec![None; SHOP_FRIEND_COUNT],
        shop_foods: vec![None; SHOP_FOOD_COUNT],
    }
}

#[test]
fn new_shop_offers_everything_and_starts_with_ten_gold() {
    let mut dice = DeterministicDice::new();
    assert!(dice.next());
    let shop = Shop::new(&mut dice);
    assert_eq!(shop.gold, 10);
    assert_eq!(shop.team.count(), 0);
    assert!(shop.shop_friends.iter().all(|f| f.is_some()));
    assert!(shop.shop_foods.iter().all(|f| f.is_some()));
}

#[test]
fn combining_two_stock_units_applies_the_max_plus_one_rule() {
    let mut team = Team::new();
    team.0[0] = Some(unit(Species::Fish, 2, 1));
    let mut shop = empty_shop(team, 10);
    shop.combine_friends(0, unit(Species::Fish, 2, 1));
    let merged = shop.team.0[0].unwrap();
    assert_eq!((merged.health, merged.attack), (3, 2));
    assert_eq!(merged.exp, 1);
}

#[test]
fn combining_keeps_the_better_of_each_stat() {
    let mut team = Team::new();
    team.0[0] = Some(unit(Species::Ant, 5, 1));
    let mut shop = empty_shop(team, 10);
    shop.combine_friends(0, unit(Species::Ant, 2, 4));
    let merged = shop.team.0[0].unwrap();
    assert_eq!((merged.health, merged.attack), (6, 5));
}

#[test]
fn buying_onto_an_empty_slot_summons_and_pays() {
    let mut dice = DeterministicDice::new();
    assert!(dice.next());
    let mut shop = empty_shop(Team::new(), 10);
    shop.shop_friends[1] = Some(Friend::new(Species::Pig));
    shop.buy_friend(1, 0, &mut dice);
    assert_eq!(shop.gold, 7);
    assert!(shop.shop_friends[1].is_none());
    let placed = shop.team.0[0].unwrap();
    assert_eq!(placed.species, Species::Pig);
    assert_eq!((placed.health, placed.attack), (3, 1));
}

#[test]
fn a_bought_otter_buffs_a_team_mate_before_arriving() {
    let mut dice = DeterministicDice::new();
    assert!(dice.next());
    let mut team = Team::new();
    team.0[0] = Some(unit(Species::Ant, 2, 1));
    let mut shop = empty_shop(team, 10);
    shop.shop_friends[0] = Some(Friend::new(Species::Otter));
    shop.buy_friend(0, 1, &mut dice);
    let ant = shop.team.0[0].unwrap();
    assert_eq!((ant.health, ant.attack), (3, 2));
    let otter = shop.team.0[1].unwrap();
    assert_eq!((otter.health, otter.attack), (1, 2));
}

#[test]
fn selling_a_pig_pays_its_level_twice() {
    let mut dice = DeterministicDice::new();
    assert!(dice.next());
    let mut team = Team::new();
    team.0[0] = Some(Friend::new(Species::Pig));
    let mut shop = empty_shop(team, 10);
    shop.sell_friend(0, &mut dice);
    assert_eq!(shop.gold, 12);
    assert_eq!(shop.team.count(), 0);
}

#[test]
fn selling_a_duck_buffs_the_remaining_offers() {
    let mut dice = DeterministicDice::new();
    assert!(dice.next());
    let mut team = Team::new();
    team.0[0] = Some(Friend::new(Species::Duck));
    let mut shop = empty_shop(team, 10);
    shop.shop_friends[0] = Some(Friend::new(Species::Ant));
    shop.shop_friends[2] = Some(Friend::new(Species::Fish));
    shop.sell_friend(0, &mut dice);
    assert_eq!(shop.gold, 11);
    assert_eq!(shop.shop_friends[0].unwrap().health, 3);
    assert!(shop.shop_friends[1].is_none());
    assert_eq!(shop.shop_friends[2].unwrap().health, 3);
}

#[test]
fn selling_a_beaver_heals_two_survivors() {
    let mut dice = DeterministicDice::new();
    assert!(dice.next());
    let mut team = Team::new();
    team.0[0] = Some(Friend::new(Species::Beaver));
    team.0[1] = Some(unit(Species::Ant, 2, 1));
    team.0[2] = Some(unit(Species::Fish, 2, 3));
    let mut shop = empty_shop(team, 0);
    shop.sell_friend(0, &mut dice);
    assert_eq!(shop.gold, 1);
    assert_eq!(shop.team.0[1].unwrap().health, 3);
    assert_eq!(shop.team.0[2].unwrap().health, 3);
}

#[test]
fn an_apple_buffs_and_honey_attaches_its_modifier() {
    let mut team = Team::new();
    team.0[0] = Some(unit(Species::Ant, 2, 1));
    team.0[1] = Some(unit(Species::Fish, 2, 3));
    let mut shop = empty_shop(team, 10);
    shop.shop_foods[0] = Some(Food::Apple);
    shop.buy_food(0, 0);
    assert_eq!(shop.gold, 7);
    assert!(shop.shop_foods[0].is_none());
    let ant = shop.team.0[0].unwrap();
    assert_eq!((ant.health, ant.attack), (3, 2));

    shop.shop_foods[0] = Some(Food::Honey);
    shop.buy_food(0, 1);
    assert_eq!(shop.gold, 4);
    assert_eq!(shop.team.0[1].unwrap().modifier, Some(Modifier::Honey));
}

#[test]
fn the_first_enumerated_step_buys_the_first_offer() {
    let mut dice = DeterministicDice::new();
    assert!(dice.next());
    let mut shop = Shop::new(&mut dice);
    let offered = shop.shop_friends[0].unwrap().species;
    let done = shop.step(&mut dice);
    assert!(!done);
    assert_eq!(shop.gold, 7);
    assert_eq!(shop.team.0[0].unwrap().species, offered);
}

#[test]
fn a_step_without_gold_ends_the_branch() {
    let mut dice = DeterministicDice::new();
    assert!(dice.next());
    let mut shop = empty_shop(Team::new(), 0);
    shop.shop_friends[0] = Some(Friend::new(Species::Ant));
    let done = shop.step(&mut dice);
    assert!(done);
    assert_eq!(shop.gold, 0);
    assert_eq!(shop.team.count(), 0);
}

#[test]
fn a_merge_step_combines_a_matching_pair() {
    // Drive the action draw to the merge branch by replaying a history.
    let mut dice = DeterministicDice::from_key("4");
    let mut team = Team::new();
    team.0[0] = Some(unit(Species::Ant, 2, 1));
    team.0[1] = Some(unit(Species::Ant, 2, 1));
    let mut shop = empty_shop(team, 5);
    let done = shop.step(&mut dice);
    assert!(!done);
    assert_eq!(shop.gold, 5);
    assert_eq!(shop.team.count(), 1);
    let merged = shop.team.0[1].unwrap();
    assert_eq!((merged.health, merged.attack), (3, 2));
    assert_eq!(merged.exp, 1);
}

#[test]
fn a_merge_step_without_pairs_ends_the_branch() {
    let mut dice = DeterministicDice::from_key("4");
    let mut team = Team::new();
    team.0[0] = Some(unit(Species::Ant, 2, 1));
    team.0[1] = Some(unit(Species::Fish, 2, 3));
    let mut shop = empty_shop(team, 5);
    assert!(shop.step(&mut dice));
}

#[test]
fn a_reroll_step_costs_one_gold_and_restocks() {
    let mut dice = DeterministicDice::from_key("3");
    let mut shop = empty_shop(Team::new(), 5);
    let done = shop.step(&mut dice);
    assert!(!done);
    assert_eq!(shop.gold, 4);
    assert!(shop.shop_friends.iter().all(|f| f.is_some()));
    assert!(shop.shop_foods.iter().all(|f| f.is_some()));
}

#[test]
fn two_matched_single_units_tie_in_two_clashes() {
    let mut a = Team::new();
    a.0[0] = Some(unit(Species::Ant, 2, 1));
    let mut b = Team::new();
    b.0[0] = Some(unit(Species::Ant, 2, 1));
    let mut dice = DeterministicDice::new();
    assert!(dice.next());
    assert_eq!(Battle(a, b).run(&mut dice), Winner::Tied);
}

#[test]
fn the_stronger_single_unit_wins() {
    let mut a = Team::new();
    a.0[0] = Some(unit(Species::Fish, 2, 3));
    let mut b = Team::new();
    b.0[0] = Some(unit(Species::Ant, 2, 1));
    let mut dice = DeterministicDice::new();
    assert!(dice.next());
    assert_eq!(Battle(a, b).run(&mut dice), Winner::TeamA);
}

#[test]
fn an_empty_side_loses_outright() {
    let mut b = Team::new();
    b.0[0] = Some(unit(Species::Ant, 2, 1));
    let mut dice = DeterministicDice::new();
    assert!(dice.next());
    assert_eq!(Battle(Team::new(), b).run(&mut dice), Winner::TeamB);
    let mut dice = DeterministicDice::new();
    assert!(dice.next());
    assert_eq!(Battle(Team::new(), Team::new()).run(&mut dice), Winner::Tied);
}

#[test]
fn a_mosquito_softens_the_enemy_before_the_clash() {
    let mut a = Team::new();
    a.0[0] = Some(Friend::new(Species::Mosquito));
    let mut b = Team::new();
    b.0[0] = Some(unit(Species::Ant, 2, 1));
    let mut dice = DeterministicDice::new();
    assert!(dice.next());
    // The pre-battle shot leaves the ant at one health; the clash then
    // kills it while the mosquito survives the weaker counter-hit.
    assert_eq!(Battle(a, b).run(&mut dice), Winner::TeamA);
}

#[test]
fn a_dying_cricket_fights_on_as_a_ghost() {
    let mut a = Team::new();
    a.0[0] = Some(Friend::new(Species::Cricket));
    let mut b = Team::new();
    b.0[0] = Some(unit(Species::Fish, 2, 3));
    let mut dice = DeterministicDice::new();
    assert!(dice.next());
    // Clash one kills both the cricket and the fish, but the cricket's
    // ghost takes its slot, so the first side keeps a unit.
    assert_eq!(Battle(a, b).run(&mut dice), Winner::TeamA);
}

#[test]
fn a_honey_helper_forces_the_tie() {
    let mut a = Team::new();
    let mut carrier = unit(Species::Ant, 1, 1);
    carrier.modifier = Some(Modifier::Honey);
    a.0[0] = Some(carrier);
    let mut b = Team::new();
    b.0[0] = Some(unit(Species::Fish, 2, 3));
    let mut dice = DeterministicDice::new();
    assert!(dice.next());
    // The carrier dies at once but leaves a helper; the helper and the
    // wounded fish then fell each other simultaneously.
    assert_eq!(Battle(a, b).run(&mut dice), Winner::Tied);
}

#[test]
fn randomized_abilities_make_a_battle_nondeterministic() {
    let mut a = Team::new();
    a.0[0] = Some(Friend::new(Species::Mosquito));
    let mut b = Team::new();
    b.0[0] = Some(unit(Species::Fish, 2, 3));
    assert!(!Battle(a, b).is_deterministic());

    let mut c = Team::new();
    c.0[0] = Some(unit(Species::Fish, 2, 3));
    let mut d = Team::new();
    d.0[0] = Some(Friend::new(Species::Cricket));
    assert!(Battle(c, d).is_deterministic());
}

#[test]
fn run_rounds_reports_the_surviving_side() {
    let mut a = Team::new();
    a.0[0] = Some(unit(Species::Fish, 2, 3));
    let mut b = Team::new();
    b.0[0] = Some(unit(Species::Ant, 2, 1));
    let mut battle = Battle(a, b);
    let mut dice = DeterministicDice::new();
    assert!(dice.next());
    let w = battle.run_rounds(&mut dice);
    assert_eq!(w, Winner::TeamA);
    // The winner is exactly the side still holding units at the end.
    assert_eq!(battle.0.count(), 1);
    assert_eq!(battle.1.count(), 0);
    let survivor = battle.0 .0[0].unwrap();
    assert_eq!(survivor.species, Species::Fish);
    assert_eq!(survivor.health, 1);
}

#[test]
fn an_otter_bought_onto_an_empty_team_buffs_nobody() {
    let mut dice = DeterministicDice::new();
    assert!(dice.next());
    let mut shop = empty_shop(Team::new(), 10);
    shop.shop_friends[0] = Some(Friend::new(Species::Otter));
    shop.buy_friend(0, 0, &mut dice);
    let otter = shop.team.0[0].unwrap();
    assert_eq!((otter.health, otter.attack), (1, 2));
    assert_eq!(shop.team.count(), 1);
}

#[test]
fn a_beaver_sold_off_a_lone_slot_heals_nobody() {
    let mut dice = DeterministicDice::new();
    assert!(dice.next());
    let mut team = Team::new();
    team.0[0] = Some(Friend::new(Species::Beaver));
    let mut shop = empty_shop(team, 0);
    shop.sell_friend(0, &mut dice);
    assert_eq!(shop.gold, 1);
    assert_eq!(shop.team.count(), 0);
}

#[test]
fn plain_matched_units_tie_like_the_rules_say() {
    // The same stand-off as the lone-ant tie, with a trigger-free kind, so
    // the deterministic-battle contract itself pins the outcome.
    let mut a = Team::new();
    a.0[0] = Some(unit(Species::Fish, 2, 1));
    let mut b = Team::new();
    b.0[0] = Some(unit(Species::Fish, 2, 1));
    let mut dice = DeterministicDice::new();
    assert!(dice.next());
    assert_eq!(Battle(a, b).run(&mut dice), Winner::Tied);
}
