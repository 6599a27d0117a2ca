use immune_sim::group::{BLUDGEONING, COLD, FIRE, RADIATION, SLASHING};
use immune_sim::parse::{
    chars_of, kind_lookup, line_to_group, line_to_group_with_weak_immune, lines_to_groups,
    parse_group_line, parse_input, parse_number, parse_weak_and_immune, parse_weak_or_immune,
    seperate_and_filter_lines, split_pieces,
};

fn cs(s: &str) -> Vec<char> {
    s.chars().collect()
}

const EXAMPLE: &str = "Immune System:
17 units each with 5390 hit points (weak to radiation, bludgeoning) with an attack that does 4507 fire damage at initiative 2
989 units each with 1274 hit points (immune to fire; weak to bludgeoning, slashing) with an attack that does 25 slashing damage at initiative 3

Infection:
801 units each with 4706 hit points (weak to radiation) with an attack that does 116 bludgeoning damage at initiative 1
4485 units each with 2961 hit points (immune to radiation; weak to fire, cold) with an attack that does 12 slashing damage at initiative 4
";

#[test]
fn kind_names() {
    assert_eq!(kind_lookup(&cs("cold")), COLD);
    assert_eq!(kind_lookup(&cs("radiation")), RADIATION);
    assert_eq!(kind_lookup(&cs("slashing")), SLASHING);
    assert_eq!(kind_lookup(&cs("fire")), FIRE);
    assert_eq!(kind_lookup(&cs("bludgeoning")), BLUDGEONING);
    assert_eq!(kind_lookup(&cs("acid")), 0);
    assert_eq!(kind_lookup(&cs("")), 0);
    assert_eq!(kind_lookup(&cs("Fire")), 0);
}

#[test]
fn kind_lists() {
    assert_eq!(parse_weak_or_immune(&cs("weak to fire, cold")), FIRE | COLD);
    assert_eq!(parse_weak_or_immune(&cs("immune to acid, slashing")), SLASHING);
    assert_eq!(parse_weak_or_immune(&cs("weak to")), 0);
}

#[test]
fn clause_in_either_order() {
    let a = parse_weak_and_immune(&cs("weak to fire, cold; immune to slashing"));
    let b = parse_weak_and_immune(&cs("immune to slashing; weak to fire, cold"));
    assert_eq!(a, (FIRE | COLD, SLASHING));
    assert_eq!(a, b);
    assert_eq!(parse_weak_and_immune(&cs("weak to radiation")), (RADIATION, 0));
    assert_eq!(parse_weak_and_immune(&cs("immune to fire")), (0, FIRE));
}

#[test]
fn numbers() {
    assert_eq!(parse_number(&cs("0")), Some(0));
    assert_eq!(parse_number(&cs("4507")), Some(4507));
    assert_eq!(parse_number(&cs("4294967295")), Some(u32::MAX));
    assert_eq!(parse_number(&cs("4294967296")), None);
    assert_eq!(parse_number(&cs("99999999999x")), None);
    assert_eq!(parse_number(&cs("")), None);
    assert_eq!(parse_number(&cs("12a")), None);
}

#[test]
fn splitting_keeps_empty_pieces() {
    let p = split_pieces(&cs("a, b"), &vec![',', ' ']);
    assert_eq!(p, vec![cs("a"), cs(""), cs("b")]);
    assert_eq!(split_pieces(&cs(""), &vec!['\n']), vec![cs("")]);
    assert_eq!(chars_of("ab"), vec!['a', 'b']);
}

#[test]
fn plain_line() {
    let g = line_to_group(&cs(
        "18 units each with 729 hit points with an attack that does 8 radiation damage at initiative 10",
    ))
    .unwrap();
    assert_eq!(g.units, 18);
    assert_eq!(g.hit_points, 729);
    assert_eq!(g.attack_damage, 8);
    assert_eq!(g.attack_kind, RADIATION);
    assert_eq!(g.initiative, 10);
    assert_eq!((g.weak, g.immune), (0, 0));
}

#[test]
fn line_with_clause() {
    let line = cs("989 units each with 1274 hit points (immune to fire; weak to bludgeoning, slashing) with an attack that does 25 slashing damage at initiative 3");
    let g = line_to_group_with_weak_immune(&line).unwrap();
    assert_eq!(g.units, 989);
    assert_eq!(g.hit_points, 1274);
    assert_eq!(g.weak, BLUDGEONING | SLASHING);
    assert_eq!(g.immune, FIRE);
    assert_eq!(g.attack_damage, 25);
    assert_eq!(g.attack_kind, SLASHING);
    assert_eq!(g.initiative, 3);
    assert_eq!(parse_group_line(&line), Some(g));
}

#[test]
fn malformed_lines() {
    assert_eq!(line_to_group(&cs("17 units each with 5390 hit points")), None);
    assert_eq!(
        line_to_group(&cs(
            "x units each with 729 hit points with an attack that does 8 radiation damage at initiative 10"
        )),
        None
    );
    assert_eq!(
        parse_group_line(&cs(
            "18 units each with 9 hit points (weak to fire with an attack that does 8 radiation damage at initiative 10"
        )),
        None
    );
}

#[test]
fn filtering_lines() {
    let lines = seperate_and_filter_lines(&cs("Immune System:\n\n18 units each with 729 hit points with an attack that does 8 radiation damage at initiative 10\nshort\n"));
    assert_eq!(lines.len(), 1);
    let gs = lines_to_groups(&lines).unwrap();
    assert_eq!(gs.len(), 1);
    assert_eq!(gs[0].units, 18);
    assert_eq!(lines_to_groups(&vec![cs("this line is long but no group")]), None);
}

#[test]
fn whole_example() {
    let mut b = parse_input(EXAMPLE).unwrap();
    assert_eq!(b.immune.len(), 2);
    assert_eq!(b.infection.len(), 2);
    assert_eq!(b.immune[0].weak, RADIATION | BLUDGEONING);
    assert_eq!(b.infection[1].immune, RADIATION);
    assert_eq!(b.infection[1].weak, FIRE | COLD);
    assert!(b.simulate());
    assert_eq!(b.remaining_units(), 5216);
}

#[test]
fn two_single_groups_from_text() {
    let text = "Immune System:
10 units each with 10 hit points with an attack that does 10 fire damage at initiative 5

Infection:
10 units each with 10 hit points with an attack that does 10 fire damage at initiative 3
";
    let mut b = parse_input(text).unwrap();
    assert!(b.simulate());
    assert_eq!(b.remaining_units(), 10);
}

#[test]
fn marker_must_occur_once() {
    assert!(parse_input("Immune System:\n").is_none());
    let twice = format!("{}Infection", EXAMPLE);
    assert!(parse_input(&twice).is_none());
}

#[test]
fn fixed_words_are_required() {
    assert_eq!(
        line_to_group(&cs(
            "18 soldiers each with 729 hit points with an attack that does 8 radiation damage at initiative 10"
        )),
        None
    );
    assert_eq!(
        line_to_group(&cs(
            "18 units each with 729 hit points with an attack that deals 8 radiation damage at initiative 10"
        )),
        None
    );
    assert_eq!(
        line_to_group(&cs(
            "18 units each with 729 hit points and more with an attack that does 8 radiation damage at initiative 10"
        )),
        None
    );
    assert!(line_to_group(&cs(
        "18  units each with 729 hit points with an attack that does 8 radiation damage at initiative 10"
    ))
    .is_some());
}

#[test]
fn zero_hit_points_read_but_refused_for_battle() {
    let g = line_to_group(&cs(
        "18 units each with 0 hit points with an attack that does 8 radiation damage at initiative 10",
    ))
    .unwrap();
    assert_eq!(g.hit_points, 0);
    assert_eq!(g.units, 18);
    let g = line_to_group_with_weak_immune(&cs(
        "18 units each with 0 hit points (weak to fire) with an attack that does 8 radiation damage at initiative 10",
    ))
    .unwrap();
    assert_eq!((g.hit_points, g.weak), (0, FIRE));
    let text = "Immune System:
10 units each with 0 hit points with an attack that does 10 fire damage at initiative 5

Infection:
10 units each with 10 hit points with an attack that does 10 fire damage at initiative 3
";
    assert!(parse_input(text).is_none());
}
