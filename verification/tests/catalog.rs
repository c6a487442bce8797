use autobattler::{
    Dice, DeterministicDice, Food, Friend, Modifier, RandomDice, Species, Team,
};

#[test]
fn the_level_staircase_jumps_at_full_experience() {
    let mut f = Friend::new(Species::Ant);
    assert_eq!(f.level(), 1);
    f.exp = 2;
    assert_eq!(f.level(), 1);
    f.exp = 5;
    assert_eq!(f.level(), 1);
    f.exp = 6;
    assert_eq!(f.level(), 3);
}

#[test]
fn base_stats_match_the_catalog() {
    let fish = Friend::new(Species::Fish);
    assert_eq!((fish.health, fish.attack), (2, 3));
    assert_eq!(fish.modifier, None);
    assert_eq!(fish.exp, 0);
    let pig = Friend::new(Species::Pig);
    assert_eq!((pig.health, pig.attack), (3, 1));
    assert!(Friend::new(Species::Cricket).has_default_power());
}

#[test]
fn glyphs_name_the_right_creatures() {
    assert_eq!(Species::Ant.emoji(), '\u{1F41C}');
    assert_eq!(Species::Bee.emoji(), '\u{1F41D}');
    assert_eq!(Species::Cricket.emoji(), Species::GhostCricket.emoji());
    assert_eq!(Food::Apple.emoji(), '\u{1F34E}');
    assert_eq!(Food::Honey.emoji(), Modifier::Honey.emoji());
}

#[test]
fn sampled_species_are_always_purchasable() {
    let mut dice = DeterministicDice::new();
    let mut count = 0;
    while dice.next() {
        let s = Species::sample(&mut dice);
        assert!(s != Species::GhostCricket && s != Species::Bee);
        count += 1;
    }
    // One run per purchasable kind.
    assert_eq!(count, 9);
}

#[test]
fn sampled_food_covers_both_kinds() {
    let mut dice = DeterministicDice::new();
    let mut seen = Vec::new();
    while dice.next() {
        seen.push(Food::sample(&mut dice));
    }
    assert_eq!(seen, vec![Food::Apple, Food::Honey]);
}

#[test]
fn random_mode_stays_inside_the_requested_range() {
    let mut dice = RandomDice::new();
    for _ in 0..100 {
        let v = dice.roll(3, 7);
        assert!((3..7).contains(&v));
    }
    assert_eq!(dice.roll(5, 6), 5);
}

#[test]
fn key_digits_cover_the_whole_base() {
    let mut dice = DeterministicDice::from_key("z");
    assert_eq!(dice.roll(0, 40), 35);
    assert!(!dice.has_failed());
    assert_eq!(dice.key(), "z");
    let mut dice = DeterministicDice::from_key("9a");
    assert_eq!(dice.roll(0, 16), 9);
    assert_eq!(dice.roll(0, 16), 10);
    assert_eq!(dice.key(), "9a");
}

#[test]
fn a_leveled_cricket_leaves_a_leveled_ghost() {
    let mut team = Team::new();
    let mut cricket = Friend::new(Species::Cricket);
    cricket.exp = 6;
    cricket.health = 0;
    team.0[0] = Some(cricket);
    let mut dice = DeterministicDice::new();
    assert!(dice.next());
    team.remove_dead(&mut dice);
    let ghost = team.0[0].unwrap();
    assert_eq!(ghost.species, Species::GhostCricket);
    assert_eq!((ghost.health, ghost.attack), (3, 3));
    assert_eq!(ghost.exp, 0);
}

#[test]
fn a_dying_ant_buffs_a_survivor() {
    let mut team = Team::new();
    let mut ant = Friend::new(Species::Ant);
    ant.health = 0;
    team.0[0] = Some(ant);
    team.0[1] = Some(Friend::new(Species::Fish));
    let mut dice = DeterministicDice::new();
    assert!(dice.next());
    team.remove_dead(&mut dice);
    assert_eq!(team.count(), 1);
    let fish = team.0[0].unwrap();
    assert_eq!(fish.species, Species::Fish);
    // A level-one ant grants one health and two attack on death.
    assert_eq!((fish.health, fish.attack), (3, 5));
}

#[test]
fn an_ant_death_buff_can_revive_an_unscanned_casualty() {
    let mut team = Team::new();
    let mut ant = Friend::new(Species::Ant);
    ant.health = 0;
    team.0[0] = Some(ant);
    let mut fallen = Friend::new(Species::Fish);
    fallen.health = 0;
    team.0[1] = Some(fallen);
    let mut dice = DeterministicDice::new();
    assert!(dice.next());
    team.remove_dead(&mut dice);
    // The ant's death buff lands on the not-yet-scanned fish and brings it
    // back over zero health, so it is never removed.
    assert_eq!(team.count(), 1);
    let fish = team.0[0].unwrap();
    assert_eq!(fish.species, Species::Fish);
    assert_eq!((fish.health, fish.attack), (1, 5));
}
