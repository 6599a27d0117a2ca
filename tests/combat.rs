use immune_sim::combat::{
    attack_order, attack_phase, end_condition, execute_attack, target_selection_phase, selection_order,
    Battle, GroupRef, Selections,
};
use immune_sim::group::{Army, Group, COLD, FIRE, RADIATION, SLASHING};

fn group(units: u32, hp: u32, damage: u32, kind: u32, init: u32) -> Group {
    Group {
        units,
        hit_points: hp,
        attack_damage: damage,
        attack_kind: kind,
        weak: 0,
        immune: 0,
        initiative: init,
    }
}

#[test]
fn effective_power_is_units_times_damage() {
    assert_eq!(group(3, 10, 6, FIRE, 1).effective_power(), 18);
    assert_eq!(group(0, 10, 6, FIRE, 1).effective_power(), 0);
    let big = group(u32::MAX, 1, u32::MAX, FIRE, 1);
    assert_eq!(big.effective_power(), (u32::MAX as u64) * (u32::MAX as u64));
}

#[test]
fn damage_plain_weak_immune() {
    let a = group(3, 10, 6, FIRE, 1);
    let mut d = group(5, 7, 1, COLD, 2);
    assert_eq!(a.calculate_damage(&d), 18);
    d.weak = FIRE;
    assert_eq!(a.calculate_damage(&d), 36);
    d.weak = COLD;
    assert_eq!(a.calculate_damage(&d), 18);
    d.weak = 0;
    d.immune = FIRE | RADIATION;
    assert_eq!(a.calculate_damage(&d), 0);
}

#[test]
fn immunity_wins_over_weakness() {
    let a = group(4, 10, 5, SLASHING, 1);
    let mut d = group(5, 7, 1, COLD, 2);
    d.weak = SLASHING;
    d.immune = SLASHING;
    assert_eq!(a.calculate_damage(&d), 0);
}

#[test]
fn weakness_doubles_regardless_of_hit_points() {
    let a = group(3, 10, 6, FIRE, 1);
    let mut d = group(5, 1, 1, COLD, 2);
    d.weak = FIRE;
    assert_eq!(a.calculate_damage(&d), 36);
    d.hit_points = 1000;
    assert_eq!(a.calculate_damage(&d), 36);
}

#[test]
fn attack_kills_whole_units_only() {
    let a = group(3, 10, 6, FIRE, 1);
    let mut d = group(10, 5, 1, COLD, 2);
    a.attack(&mut d);
    assert_eq!(d.units, 7);
    let mut e = group(2, 5, 1, COLD, 2);
    a.attack(&mut e);
    assert_eq!(e.units, 0);
    let mut f = group(10, 19, 1, COLD, 2);
    a.attack(&mut f);
    assert_eq!(f.units, 10);
    assert_eq!(f.hit_points, 19);
}

#[test]
fn two_single_groups_scenario() {
    let mut b = Battle::new(
        vec![group(10, 10, 10, FIRE, 5)],
        vec![group(10, 10, 10, FIRE, 3)],
    );
    let sel = target_selection_phase(&b);
    assert_eq!(sel.immune_targets, vec![Some(0)]);
    assert_eq!(sel.infection_targets, vec![Some(0)]);
    let ord = attack_order(&b);
    assert_eq!(
        ord,
        vec![
            GroupRef { army: Army::Immune, index: 0 },
            GroupRef { army: Army::Infection, index: 0 }
        ]
    );
    assert!(b.simulate());
    assert_eq!(b.infection[0].units, 0);
    assert_eq!(b.immune[0].units, 10);
    assert!(end_condition(&b.immune, &b.infection));
    assert_eq!(b.remaining_units(), 10);
}

#[test]
fn selection_skips_targets_taking_no_damage() {
    let mut d = group(10, 10, 10, COLD, 3);
    d.immune = FIRE;
    let b = Battle::new(vec![group(10, 10, 10, FIRE, 5)], vec![d]);
    let sel = target_selection_phase(&b);
    assert_eq!(sel.immune_targets, vec![None]);
    assert_eq!(sel.infection_targets, vec![Some(0)]);
}

#[test]
fn selection_never_shares_a_target() {
    let b = Battle::new(
        vec![group(10, 10, 10, FIRE, 5), group(10, 10, 5, FIRE, 4)],
        vec![group(10, 10, 1, COLD, 3)],
    );
    let sel = target_selection_phase(&b);
    assert_eq!(sel.immune_targets, vec![Some(0), None]);
}

#[test]
fn selection_prefers_damage_then_power_then_initiative() {
    let mut weak = group(1, 10, 1, COLD, 1);
    weak.weak = FIRE;
    let strong = group(100, 10, 100, COLD, 2);
    let b = Battle::new(vec![group(10, 10, 10, FIRE, 9)], vec![strong, weak]);
    let sel = target_selection_phase(&b);
    assert_eq!(sel.immune_targets, vec![Some(1)]);

    let b = Battle::new(
        vec![group(10, 10, 10, FIRE, 9)],
        vec![group(1, 10, 1, COLD, 1), group(5, 10, 1, COLD, 2)],
    );
    assert_eq!(target_selection_phase(&b).immune_targets, vec![Some(1)]);

    let b = Battle::new(
        vec![group(10, 10, 10, FIRE, 9)],
        vec![group(5, 10, 1, COLD, 1), group(5, 10, 1, COLD, 7)],
    );
    assert_eq!(target_selection_phase(&b).immune_targets, vec![Some(1)]);

    let b = Battle::new(
        vec![group(10, 10, 10, FIRE, 9)],
        vec![group(5, 10, 1, COLD, 7), group(5, 10, 1, COLD, 7)],
    );
    assert_eq!(target_selection_phase(&b).immune_targets, vec![Some(0)]);
}

#[test]
fn dead_groups_neither_pick_nor_are_picked() {
    let b = Battle::new(
        vec![group(0, 10, 10, FIRE, 5)],
        vec![group(0, 10, 10, FIRE, 3), group(4, 10, 10, FIRE, 2)],
    );
    let sel = target_selection_phase(&b);
    assert_eq!(sel.immune_targets, vec![None]);
    assert_eq!(sel.infection_targets, vec![None, None]);
}

#[test]
fn selection_order_by_power_then_initiative() {
    let b = Battle::new(
        vec![group(1, 10, 10, FIRE, 1), group(2, 10, 10, FIRE, 2)],
        vec![group(1, 10, 10, FIRE, 3)],
    );
    let ord = selection_order(&b);
    assert_eq!(
        ord,
        vec![
            GroupRef { army: Army::Immune, index: 1 },
            GroupRef { army: Army::Infection, index: 0 },
            GroupRef { army: Army::Immune, index: 0 }
        ]
    );
}

#[test]
fn attack_order_by_initiative_alone() {
    let b = Battle::new(
        vec![group(100, 10, 100, FIRE, 1), group(1, 10, 1, FIRE, 4)],
        vec![group(50, 10, 1, FIRE, 3), group(1, 10, 1, FIRE, 2)],
    );
    let ord = attack_order(&b);
    let inits: Vec<u32> = ord
        .iter()
        .map(|r| match r.army {
            Army::Immune => b.immune[r.index].initiative,
            Army::Infection => b.infection[r.index].initiative,
        })
        .collect();
    assert_eq!(inits, vec![4, 3, 2, 1]);
}

#[test]
fn attacker_killed_earlier_in_round_deals_nothing() {
    let mut b = Battle::new(
        vec![group(10, 10, 10, FIRE, 5)],
        vec![group(10, 10, 10, FIRE, 3)],
    );
    let sel = Selections {
        immune_targets: vec![Some(0)],
        infection_targets: vec![Some(0)],
    };
    attack_phase(&mut b, &sel);
    assert_eq!(b.infection[0].units, 0);
    assert_eq!(b.immune[0].units, 10);
}

#[test]
fn execute_attack_hits_the_named_target() {
    let mut im = vec![group(10, 10, 10, FIRE, 5)];
    let mut inf = vec![group(10, 10, 10, FIRE, 3), group(4, 10, 1, FIRE, 1)];
    execute_attack(Army::Immune, 0, 1, &mut im, &mut inf);
    assert_eq!(inf[1].units, 0);
    assert_eq!(inf[0].units, 10);
    execute_attack(Army::Infection, 0, 0, &mut im, &mut inf);
    assert_eq!(im[0].units, 0);
}

#[test]
fn attack_phase_skips_groups_without_target() {
    let mut b = Battle::new(
        vec![group(10, 10, 10, FIRE, 5)],
        vec![group(10, 10, 10, FIRE, 3)],
    );
    let sel = Selections {
        immune_targets: vec![None],
        infection_targets: vec![None],
    };
    attack_phase(&mut b, &sel);
    assert_eq!(b.infection[0].units, 10);
    assert_eq!(b.immune[0].units, 10);
}

#[test]
fn mutual_immunity_is_a_stalemate() {
    let mut a = group(10, 10, 10, FIRE, 5);
    a.immune = COLD;
    let mut d = group(10, 10, 10, COLD, 3);
    d.immune = FIRE;
    let mut b = Battle::new(vec![a], vec![d]);
    assert!(!b.simulate());
    assert_eq!(b.immune[0].units, 10);
    assert_eq!(b.infection[0].units, 10);
    assert!(!end_condition(&b.immune, &b.infection));
}

#[test]
fn units_never_rise_over_a_battle() {
    let mut b = Battle::new(
        vec![group(17, 5390, 4507, FIRE, 2), group(989, 1274, 25, SLASHING, 3)],
        vec![group(801, 4706, 116, COLD, 1), group(4485, 2961, 12, SLASHING, 4)],
    );
    let before: Vec<u32> = b.immune.iter().chain(b.infection.iter()).map(|g| g.units).collect();
    for _ in 0..3 {
        b.fight_round();
    }
    let after: Vec<u32> = b.immune.iter().chain(b.infection.iter()).map(|g| g.units).collect();
    for (x, y) in before.iter().zip(after.iter()) {
        assert!(y <= x);
    }
}

#[test]
fn report_takes_the_surviving_army() {
    let b = Battle::new(
        vec![group(0, 10, 10, FIRE, 5), group(0, 10, 10, FIRE, 4)],
        vec![group(7, 10, 10, FIRE, 3), group(0, 10, 10, FIRE, 2), group(5, 1, 1, FIRE, 1)],
    );
    assert!(end_condition(&b.immune, &b.infection));
    assert_eq!(b.remaining_units(), 12);
    let b = Battle::new(vec![group(3, 10, 10, FIRE, 5)], vec![group(0, 10, 10, FIRE, 3)]);
    assert_eq!(b.remaining_units(), 3);
    let b = Battle::new(vec![], vec![]);
    assert!(end_condition(&b.immune, &b.infection));
    assert_eq!(b.remaining_units(), 0);
}

#[test]
fn battle_validity_needs_positive_hit_points() {
    let b = Battle::new(vec![group(1, 1, 1, FIRE, 1)], vec![group(1, 2, 1, FIRE, 2)]);
    assert!(b.is_valid());
    let b = Battle::new(vec![group(1, 1, 1, FIRE, 1)], vec![group(1, 0, 1, FIRE, 2)]);
    assert!(!b.is_valid());
}
