use autobattler::{DeterministicDice, Friend, Modifier, Species, Team, TEAM_SIZE};

fn unit(species: Species, health: usize, attack: usize) -> Friend {
    Friend { species, health, attack, modifier: None, exp: 0 }
}

#[test]
fn compact_removes_gaps_and_keeps_order() {
    let mut team = Team::new();
    team.0[1] = Some(unit(Species::Ant, 2, 1));
    team.0[3] = Some(unit(Species::Fish, 2, 3));
    team.compact();
    assert_eq!(team.0[0].unwrap().species, Species::Ant);
    assert_eq!(team.0[1].unwrap().species, Species::Fish);
    assert!(team.0[2].is_none());
    assert!(team.0[3].is_none());
    assert!(team.0[4].is_none());
    assert_eq!(team.count(), 2);
}

#[test]
fn make_space_on_empty_slot_changes_nothing() {
    let mut team = Team::new();
    team.0[0] = Some(unit(Species::Pig, 3, 1));
    let before = team.clone();
    assert!(team.make_space_at(2));
    assert_eq!(team, before);
}

#[test]
fn make_space_shifts_towards_the_back_first() {
    let mut team = Team::new();
    team.0[0] = Some(unit(Species::Ant, 2, 1));
    team.0[1] = Some(unit(Species::Fish, 2, 3));
    team.0[2] = Some(unit(Species::Pig, 3, 1));
    assert_eq!(team.count(), 3);
    assert!(team.make_space_at(1));
    assert!(team.0[1].is_none());
    assert_eq!(team.count(), 3);
    assert_eq!(team.0[0].unwrap().species, Species::Ant);
    assert_eq!(team.0[2].unwrap().species, Species::Fish);
    assert_eq!(team.0[3].unwrap().species, Species::Pig);
}

#[test]
fn make_space_shifts_forward_when_the_back_is_full() {
    let mut team = Team::new();
    team.0[1] = Some(unit(Species::Ant, 2, 1));
    team.0[2] = Some(unit(Species::Fish, 2, 3));
    team.0[3] = Some(unit(Species::Pig, 3, 1));
    team.0[4] = Some(unit(Species::Duck, 1, 2));
    assert!(team.make_space_at(3));
    assert!(team.0[3].is_none());
    assert_eq!(team.count(), 4);
    assert_eq!(team.0[0].unwrap().species, Species::Ant);
    assert_eq!(team.0[1].unwrap().species, Species::Fish);
    assert_eq!(team.0[2].unwrap().species, Species::Pig);
    assert_eq!(team.0[4].unwrap().species, Species::Duck);
}

#[test]
fn make_space_on_a_full_team_fails_and_changes_nothing() {
    let mut team = Team::new();
    for i in 0..TEAM_SIZE {
        team.0[i] = Some(unit(Species::Ant, 2, 1));
    }
    let before = team.clone();
    assert!(!team.make_space_at(2));
    assert_eq!(team, before);
}

#[test]
fn without_exp_resets_experience_only() {
    let mut team = Team::new();
    let mut f = unit(Species::Beaver, 4, 5);
    f.exp = 3;
    team.0[0] = Some(f);
    let stripped = team.without_exp();
    let g = stripped.0[0].unwrap();
    assert_eq!(g.exp, 0);
    assert_eq!(g.health, 4);
    assert_eq!(g.attack, 5);
    assert_eq!(g.species, Species::Beaver);
}

#[test]
fn three_stock_units_without_modifiers_are_dumb() {
    let mut team = Team::new();
    for i in 0..3 {
        team.0[i] = Some(Friend::new(Species::Ant));
    }
    assert!(team.is_dumb());
}

#[test]
fn a_modifier_saves_a_team_from_being_dumb() {
    let mut team = Team::new();
    for i in 0..3 {
        team.0[i] = Some(Friend::new(Species::Ant));
    }
    let mut f = team.0[1].unwrap();
    f.modifier = Some(Modifier::Honey);
    team.0[1] = Some(f);
    assert!(!team.is_dumb());
}

#[test]
fn buffed_stats_are_not_dumb_either() {
    let mut team = Team::new();
    team.0[0] = Some(Friend::new(Species::Ant));
    let mut f = Friend::new(Species::Ant);
    f.health += 1;
    team.0[1] = Some(f);
    assert!(!team.is_dumb());
}

#[test]
fn compact_permutations_enumerate_all_orders() {
    let mut team = Team::new();
    team.0[0] = Some(unit(Species::Ant, 2, 1));
    team.0[1] = Some(unit(Species::Fish, 2, 3));
    let perms = team.compact_permutations();
    assert_eq!(perms.len(), 2);
    let mut species: Vec<Vec<u8>> = perms
        .iter()
        .map(|t| t.friends().iter().map(|f| f.species.code()).collect())
        .collect();
    species.sort();
    assert_eq!(
        species,
        vec![
            vec![Species::Ant.code(), Species::Fish.code()],
            vec![Species::Fish.code(), Species::Ant.code()],
        ]
    );
    for t in &perms {
        assert_eq!(t.count(), 2);
        assert!(t.0[2].is_none());
    }
}

#[test]
fn summon_lets_horses_buff_the_newcomer() {
    let mut team = Team::new();
    team.0[0] = Some(Friend::new(Species::Horse));
    team.summon(unit(Species::Ant, 2, 1), 1);
    let summoned = team.0[1].unwrap();
    assert_eq!(summoned.health, 3);
    assert_eq!(summoned.attack, 2);
    // The horse itself is untouched.
    let horse = team.0[0].unwrap();
    assert_eq!((horse.health, horse.attack), (2, 1));
}

#[test]
fn dead_cricket_leaves_a_ghost_behind() {
    let mut team = Team::new();
    let mut cricket = Friend::new(Species::Cricket);
    cricket.health = 0;
    team.0[0] = Some(cricket);
    team.0[1] = Some(unit(Species::Fish, 2, 3));
    let mut dice = DeterministicDice::new();
    assert!(dice.next());
    team.remove_dead(&mut dice);
    assert_eq!(team.count(), 2);
    let ghost = team.0[0].unwrap();
    assert_eq!(ghost.species, Species::GhostCricket);
    assert_eq!((ghost.health, ghost.attack), (1, 1));
    assert_eq!(team.0[1].unwrap().species, Species::Fish);
}

#[test]
fn dead_honey_carrier_spawns_a_helper() {
    let mut team = Team::new();
    let mut carrier = unit(Species::Fish, 0, 3);
    carrier.modifier = Some(Modifier::Honey);
    team.0[0] = Some(carrier);
    let mut dice = DeterministicDice::new();
    assert!(dice.next());
    team.remove_dead(&mut dice);
    assert_eq!(team.count(), 1);
    let bee = team.0[0].unwrap();
    assert_eq!(bee.species, Species::Bee);
    assert_eq!((bee.health, bee.attack), (1, 1));
    assert_eq!(bee.modifier, None);
}

#[test]
fn records_round_trip_bit_for_bit() {
    let mut team = Team::new();
    let mut f = unit(Species::Mosquito, 7, 9);
    f.exp = 4;
    f.modifier = Some(Modifier::Honey);
    team.0[0] = Some(f);
    team.0[2] = Some(unit(Species::Bee, 1, 1));
    let records = team.records();
    let bytes = bincode::serialize(&records).expect("encoding a team never fails");
    let decoded: Vec<(bool, u8, usize, usize, u8, usize)> =
        bincode::deserialize(&bytes).expect("decoding what was just encoded never fails");
    let rebuilt = Team::from_records(&decoded).expect("round-tripped records always parse");
    assert_eq!(rebuilt, team);
}

#[test]
fn records_with_unknown_codes_are_rejected() {
    let mut records = Team::new().records();
    records[0] = (true, 99, 1, 1, 0, 0);
    assert!(Team::from_records(&records).is_none());
    let mut records = Team::new().records();
    records[1] = (true, 0, 1, 1, 7, 0);
    assert!(Team::from_records(&records).is_none());
    let short = vec![(false, 0u8, 0usize, 0usize, 0u8, 0usize)];
    assert!(Team::from_records(&short).is_none());
}
