use workout_rs::bar::Bar;
use workout_rs::bar_kind::BarKind;
use workout_rs::dumbbell::Dumbbell;
use workout_rs::gym::Gym;
use workout_rs::gym_error::GymError;
use workout_rs::gym_state::GymStateId;
use workout_rs::plate::Plate;
use workout_rs::requirement::Requirement;
use workout_rs::state_space::MAX_UNITS;
use workout_rs::workout::Workout;

fn copies(weight: u32, gauge: u32, count: usize) -> Vec<Plate> {
    vec![Plate::new(weight, gauge); count]
}

fn weights(dumbbell: &Dumbbell) -> Vec<u32> {
    dumbbell.plates().iter().map(|p| p.weight()).collect()
}

fn small_bar() -> Bar {
    Bar::new(2000, 1, BarKind::Dumbbell)
}

/// One dumbbell bar with one unit of 1.25 kg and one of 2.5 kg.
fn small_gym() -> Gym {
    let mut inventory = copies(1250, 1, 4);
    inventory.extend(copies(2500, 1, 4));
    Gym::with_ceiling(inventory, vec![small_bar()], MAX_UNITS).unwrap()
}

fn rack_bars() -> (Bar, Bar) {
    (Bar::new(15000, 2, BarKind::Barbell), Bar::new(10000, 2, BarKind::Barbell))
}

/// Two barbell bars that share one unit of 5 kg and one of 2.5 kg.
fn rack_gym() -> Gym {
    let mut inventory = copies(5000, 2, 2);
    inventory.extend(copies(2500, 2, 2));
    let (a, b) = rack_bars();
    Gym::with_ceiling(inventory, vec![a, b], MAX_UNITS).unwrap()
}

/// One barbell bar that reaches 25 kg in two ways.
fn twin_gym() -> (Gym, Bar) {
    let mut inventory = copies(1250, 1, 4);
    inventory.extend(copies(2500, 1, 2));
    let bar = Bar::new(20000, 1, BarKind::Barbell);
    (Gym::with_ceiling(inventory, vec![bar], MAX_UNITS).unwrap(), bar)
}

fn ids(numbers: &[usize]) -> Vec<GymStateId> {
    numbers.iter().map(|n| GymStateId(*n)).collect()
}

#[test]
fn whole_groups_of_four_give_the_dumbbell_its_units() {
    let gym = small_gym();
    assert_eq!(gym.weights(), &vec![(small_bar(), vec![2000, 4500, 7000, 9500])]);
    let bar = small_bar();
    let listed: Vec<Vec<u32>> = gym
        .states(BarKind::Dumbbell)
        .iter()
        .map(|s| weights(s.get(&bar).unwrap()))
        .collect();
    assert_eq!(listed, vec![vec![], vec![1250], vec![2500], vec![2500, 1250]]);
}

#[test]
fn groups_that_are_not_whole_give_no_unit() {
    let mut inventory = copies(1250, 1, 3);
    inventory.extend(copies(2500, 1, 7));
    let gym = Gym::with_ceiling(inventory, vec![small_bar()], MAX_UNITS).unwrap();
    assert_eq!(gym.weights(), &vec![(small_bar(), vec![2000, 7000])]);
}

#[test]
fn weights_are_listed_once_in_ascending_order() {
    let (gym, bar) = twin_gym();
    assert_eq!(gym.weights(), &vec![(bar, vec![20000, 22500, 25000, 27500, 30000])]);
}

#[test]
fn weights_list_dumbbell_bars_before_barbell_bars() {
    let mut inventory = copies(1250, 1, 4);
    inventory.extend(copies(5000, 2, 2));
    let rack = Bar::new(15000, 2, BarKind::Barbell);
    let hand = small_bar();
    let gym = Gym::new(inventory, vec![rack, hand, rack]);
    assert_eq!(
        gym.weights(),
        &vec![(hand, vec![2000, 4500]), (rack, vec![15000, 25000])]
    );
    assert_eq!(gym.bars(BarKind::Dumbbell), &vec![hand]);
    assert_eq!(gym.bars(BarKind::Barbell), &vec![rack]);
}

#[test]
fn a_kind_without_bars_has_the_one_empty_state() {
    let gym = small_gym();
    assert!(gym.bars(BarKind::Barbell).is_empty());
    assert_eq!(gym.states(BarKind::Barbell).len(), 1);
    assert_eq!(gym.states(BarKind::Dumbbell).len(), 4);
}

#[test]
fn admits_checks_units_and_weights() {
    let bar = Bar::new(15000, 2, BarKind::Barbell);
    let inventory = copies(2500, 2, 8);
    assert!(Gym::admits(&inventory, &vec![bar], 4));
    assert!(!Gym::admits(&inventory, &vec![bar], 3));
    let twin = Bar::new(10000, 2, BarKind::Barbell);
    assert!(!Gym::admits(&inventory, &vec![bar, twin], 7));
    assert!(Gym::admits(&inventory, &vec![bar, twin, bar], 8));
    let hand = Bar::new(2000, 2, BarKind::Dumbbell);
    assert!(Gym::admits(&inventory, &vec![bar, hand], 4));
    let heavy = Bar::new(u32::MAX - 9999, 2, BarKind::Barbell);
    assert!(!Gym::admits(&inventory, &vec![heavy], 4));
    assert!(Gym::admits(&copies(2500, 2, 3), &vec![heavy], 4));
}

#[test]
fn with_ceiling_refuses_what_is_not_admitted() {
    let bar = Bar::new(15000, 2, BarKind::Barbell);
    assert!(Gym::with_ceiling(copies(2500, 2, 8), vec![bar], 3).is_none());
    assert!(Gym::with_ceiling(copies(2500, 2, 8), vec![bar], 4).is_some());
    assert!(Gym::with_ceiling(copies(2500, 2, 32), vec![bar], 100).is_none());
    let heavy = Bar::new(u32::MAX, 2, BarKind::Barbell);
    assert!(Gym::with_ceiling(copies(2500, 2, 2), vec![heavy], 4).is_none());
    assert!(Gym::with_ceiling(Vec::new(), Vec::new(), 0).is_some());
}

#[test]
fn candidates_come_in_ascending_order() {
    let gym = rack_gym();
    let found = gym.find_states_for_requirement(Requirement::new(15000, BarKind::Barbell));
    assert_eq!(found, ids(&[0, 1, 2, 3, 5, 9, 13]));
    let heavy = gym.find_states_for_requirement(Requirement::new(25000, BarKind::Barbell));
    assert_eq!(heavy, ids(&[3, 7, 8, 9, 10, 11, 15]));
    assert!(gym.find_states_for_requirement(Requirement::new(15000, BarKind::Dumbbell)).is_empty());
    assert!(gym.find_states_for_requirement(Requirement::new(12345, BarKind::Barbell)).is_empty());
}

#[test]
fn distance_counts_plate_changes() {
    let gym = small_gym();
    let d = |a: usize, b: usize| gym.distance(BarKind::Dumbbell, GymStateId(a), GymStateId(b));
    assert_eq!(d(0, 0), Some(0));
    assert_eq!(d(0, 1), Some(1));
    assert_eq!(d(0, 2), Some(1));
    assert_eq!(d(2, 3), Some(1));
    assert_eq!(d(0, 3), Some(2));
    assert_eq!(d(1, 2), Some(2));
    assert_eq!(d(1, 3), Some(3));
    assert_eq!(d(3, 1), Some(3));
    assert_eq!(d(0, 4), None);
    assert_eq!(d(7, 7), None);
}

#[test]
fn distance_adds_up_over_bars() {
    let gym = rack_gym();
    let d = |a: usize, b: usize| gym.distance(BarKind::Barbell, GymStateId(a), GymStateId(b));
    assert_eq!(d(0, 15), Some(4));
    assert_eq!(d(5, 10), Some(4));
    assert_eq!(d(1, 4), Some(2));
    assert_eq!(d(3, 12), Some(4));
    assert_eq!(d(7, 13), Some(6));
}

#[test]
fn distance_obeys_the_triangle_inequality() {
    let gym = rack_gym();
    let d = |a: usize, b: usize| {
        gym.distance(BarKind::Barbell, GymStateId(a), GymStateId(b)).unwrap()
    };
    for a in 0..16 {
        for b in 0..16 {
            assert_eq!(d(a, b), d(b, a));
            for c in [0, 3, 6, 9, 15] {
                assert!(d(a, c) <= d(a, b) + d(b, c));
            }
        }
    }
}

#[test]
fn two_single_plate_changes_cost_two() {
    let gym = small_gym();
    let requirements = vec![
        Requirement::new(9500, BarKind::Dumbbell),
        Requirement::new(2000, BarKind::Dumbbell),
    ];
    let (path, cost) = gym.find_optimal_sequence(BarKind::Dumbbell, &requirements).unwrap();
    assert_eq!(path, ids(&[3, 0]));
    assert_eq!(cost, 2);
    let steps = vec![
        Requirement::new(2000, BarKind::Dumbbell),
        Requirement::new(7000, BarKind::Dumbbell),
        Requirement::new(9500, BarKind::Dumbbell),
    ];
    let (path, cost) = gym.find_optimal_sequence(BarKind::Dumbbell, &steps).unwrap();
    assert_eq!(path, ids(&[0, 2, 3]));
    assert_eq!(cost, 2);
}

#[test]
fn an_unreachable_weight_names_the_requirement() {
    let gym = small_gym();
    let odd = Requirement::new(3000, BarKind::Dumbbell);
    assert_eq!(gym.workout(vec![odd]).err(), Some(GymError::InvalidRequirement(odd)));
    let fine = Requirement::new(4500, BarKind::Dumbbell);
    assert_eq!(
        gym.workout(vec![fine, odd, Requirement::new(1, BarKind::Dumbbell)]).err(),
        Some(GymError::InvalidRequirement(odd))
    );
    assert_eq!(
        gym.find_optimal_sequence(BarKind::Dumbbell, &vec![fine, fine, odd]).err(),
        Some(GymError::InvalidRequirement(odd))
    );
    assert_eq!(
        gym.order_by_kind(BarKind::Dumbbell, &vec![odd, fine]).err(),
        Some(GymError::InvalidRequirement(odd))
    );
}

#[test]
fn a_requirement_for_a_kind_without_bars_cannot_be_served() {
    let gym = small_gym();
    let racked = Requirement::new(2000, BarKind::Barbell);
    assert_eq!(gym.workout(vec![racked]).err(), Some(GymError::InvalidRequirement(racked)));
}

#[test]
fn the_first_unserved_requirement_is_reported_across_kinds() {
    let gym = small_gym();
    let fine = Requirement::new(4500, BarKind::Dumbbell);
    let odd = Requirement::new(3000, BarKind::Dumbbell);
    let racked = Requirement::new(2000, BarKind::Barbell);
    assert_eq!(
        gym.workout(vec![fine, racked, odd]).err(),
        Some(GymError::InvalidRequirement(racked))
    );
    assert_eq!(
        gym.workout(vec![fine, odd, racked]).err(),
        Some(GymError::InvalidRequirement(odd))
    );
}

#[test]
fn no_requirements_give_an_empty_plan() {
    let gym = small_gym();
    let plan = gym.workout(Vec::new()).unwrap();
    assert!(plan.bars().is_empty());
    assert!(plan.get(small_bar()).is_empty());
    assert!(plan.into_entries().is_empty());
    assert_eq!(
        gym.find_optimal_sequence(BarKind::Dumbbell, &Vec::new()),
        Ok((Vec::new(), 0))
    );
    assert_eq!(gym.order_by_kind(BarKind::Barbell, &Vec::new()), Ok(Vec::new()));
}

#[test]
fn a_single_requirement_takes_the_lowest_state() {
    let (gym, _) = twin_gym();
    let requirement = Requirement::new(25000, BarKind::Barbell);
    assert_eq!(gym.find_states_for_requirement(requirement), ids(&[2, 3]));
    assert_eq!(
        gym.find_optimal_sequence(BarKind::Barbell, &vec![requirement]),
        Ok((ids(&[2]), 0))
    );
}

#[test]
fn the_cheaper_of_two_ways_is_taken() {
    let (gym, bar) = twin_gym();
    let requirements = vec![
        Requirement::new(22500, BarKind::Barbell),
        Requirement::new(25000, BarKind::Barbell),
    ];
    assert_eq!(
        gym.find_optimal_sequence(BarKind::Barbell, &requirements),
        Ok((ids(&[1, 3]), 1))
    );
    let plan = gym.workout(requirements).unwrap();
    let listed: Vec<Vec<u32>> = plan.get(bar).iter().map(weights).collect();
    assert_eq!(listed, vec![vec![1250], vec![1250, 1250]]);
    let back = vec![
        Requirement::new(27500, BarKind::Barbell),
        Requirement::new(25000, BarKind::Barbell),
        Requirement::new(22500, BarKind::Barbell),
    ];
    assert_eq!(gym.find_optimal_sequence(BarKind::Barbell, &back), Ok((ids(&[4, 2, 1]), 3)));
}

#[test]
fn equal_costs_go_to_the_lower_state() {
    let (gym, _) = twin_gym();
    let requirements = vec![
        Requirement::new(20000, BarKind::Barbell),
        Requirement::new(25000, BarKind::Barbell),
    ];
    assert_eq!(
        gym.find_optimal_sequence(BarKind::Barbell, &requirements),
        Ok((ids(&[0, 2]), 1))
    );
    let there_and_back = vec![
        Requirement::new(25000, BarKind::Barbell),
        Requirement::new(20000, BarKind::Barbell),
    ];
    assert_eq!(
        gym.find_optimal_sequence(BarKind::Barbell, &there_and_back),
        Ok((ids(&[2, 0]), 1))
    );
}

#[test]
fn the_cost_is_the_sum_of_the_distances() {
    let gym = rack_gym();
    let requirements = vec![
        Requirement::new(30000, BarKind::Barbell),
        Requirement::new(10000, BarKind::Barbell),
        Requirement::new(20000, BarKind::Barbell),
        Requirement::new(25000, BarKind::Barbell),
    ];
    let (path, cost) = gym.find_optimal_sequence(BarKind::Barbell, &requirements).unwrap();
    assert_eq!(path.len(), 4);
    let mut sum: u128 = 0;
    for pair in path.windows(2) {
        sum += gym.distance(BarKind::Barbell, pair[0], pair[1]).unwrap() as u128;
    }
    assert_eq!(cost, sum);
    assert_eq!(cost, 2);
    assert_eq!(path, ids(&[12, 8, 10, 10]));
}

#[test]
fn no_sequence_is_cheaper_than_the_one_found() {
    let gym = rack_gym();
    let requirements = vec![
        Requirement::new(30000, BarKind::Barbell),
        Requirement::new(10000, BarKind::Barbell),
        Requirement::new(25000, BarKind::Barbell),
    ];
    let stages: Vec<Vec<GymStateId>> =
        requirements.iter().map(|r| gym.find_states_for_requirement(*r)).collect();
    let d = |a: GymStateId, b: GymStateId| gym.distance(BarKind::Barbell, a, b).unwrap() as u128;
    let mut least = u128::MAX;
    for a in &stages[0] {
        for b in &stages[1] {
            for c in &stages[2] {
                least = least.min(d(*a, *b) + d(*b, *c));
            }
        }
    }
    let (path, cost) = gym.find_optimal_sequence(BarKind::Barbell, &requirements).unwrap();
    assert_eq!(cost, least);
    assert_eq!(cost, d(path[0], path[1]) + d(path[1], path[2]));
}

#[test]
fn one_state_can_serve_two_bars() {
    let gym = rack_gym();
    let (a, b) = rack_bars();
    let requirements = vec![
        Requirement::new(15000, BarKind::Barbell),
        Requirement::new(25000, BarKind::Barbell),
    ];
    assert_eq!(
        gym.find_optimal_sequence(BarKind::Barbell, &requirements),
        Ok((ids(&[3, 3]), 0))
    );
    let plan = gym.workout(requirements).unwrap();
    assert_eq!(plan.bars(), vec![a, b]);
    let on_a: Vec<(u32, Vec<u32>)> = plan.get(a).iter().map(|d| (d.weight(), weights(d))).collect();
    let on_b: Vec<(u32, Vec<u32>)> = plan.get(b).iter().map(|d| (d.weight(), weights(d))).collect();
    assert_eq!(on_a, vec![(15000, vec![])]);
    assert_eq!(on_b, vec![(25000, vec![5000, 2500])]);
}

#[test]
fn every_requirement_gets_its_weight_on_a_bar_of_its_kind() {
    let mut inventory = copies(5000, 2, 2);
    inventory.extend(copies(2500, 2, 2));
    inventory.extend(copies(1250, 1, 4));
    inventory.extend(copies(2500, 1, 4));
    let (a, b) = rack_bars();
    let hand = small_bar();
    let gym = Gym::with_ceiling(inventory, vec![a, hand, b], MAX_UNITS).unwrap();
    let requirements = vec![
        Requirement::new(9500, BarKind::Dumbbell),
        Requirement::new(30000, BarKind::Barbell),
        Requirement::new(4500, BarKind::Dumbbell),
        Requirement::new(20000, BarKind::Barbell),
        Requirement::new(2000, BarKind::Dumbbell),
    ];
    let plan = gym.workout(requirements.clone()).unwrap();
    let on_hand: Vec<u32> = plan.get(hand).iter().map(|d| d.weight()).collect();
    assert_eq!(on_hand, vec![9500, 4500, 2000]);
    for requirement in &requirements {
        let served = plan.bars().iter().any(|bar| {
            *bar.kind() == requirement.bar_kind()
                && plan.get(*bar).iter().any(|d| requirement.matches(d) && d.bar() == bar)
        });
        assert!(served);
    }
    for bar in plan.bars() {
        for d in plan.get(bar) {
            assert_eq!(*d.bar(), bar);
            assert!(requirements.iter().any(|r| r.matches(&d)));
        }
    }
}

#[test]
fn arrange_reads_the_plan_off_the_states() {
    let gym = rack_gym();
    let (a, b) = rack_bars();
    let requirements = vec![
        Requirement::new(15000, BarKind::Barbell),
        Requirement::new(20000, BarKind::Barbell),
        Requirement::new(20000, BarKind::Barbell),
    ];
    let plan = gym.arrange(BarKind::Barbell, &requirements, &ids(&[5, 6, 0]));
    let listed: Vec<(Bar, Vec<Vec<u32>>)> =
        plan.iter().map(|(bar, list)| (*bar, list.iter().map(weights).collect())).collect();
    assert_eq!(listed, vec![(a, vec![vec![2500]]), (b, vec![vec![2500], vec![5000]])]);
    assert!(gym.arrange(BarKind::Barbell, &requirements, &ids(&[15])).is_empty());
}

#[test]
fn planning_twice_gives_the_same_plan() {
    let requirements = vec![
        Requirement::new(25000, BarKind::Barbell),
        Requirement::new(15000, BarKind::Barbell),
        Requirement::new(20000, BarKind::Barbell),
        Requirement::new(30000, BarKind::Barbell),
    ];
    let first = rack_gym();
    let second = rack_gym();
    let one = first.find_optimal_sequence(BarKind::Barbell, &requirements);
    assert_eq!(one, first.find_optimal_sequence(BarKind::Barbell, &requirements));
    assert_eq!(one, second.find_optimal_sequence(BarKind::Barbell, &requirements));
    assert_eq!(
        first.workout(requirements.clone()).unwrap().into_entries(),
        second.workout(requirements).unwrap().into_entries()
    );
    assert_eq!(first.weights(), second.weights());
}

#[test]
fn workout_lists_entries_by_bar() {
    let (a, b) = rack_bars();
    let light = Dumbbell::new(vec![], a);
    let heavy = Dumbbell::new(vec![Plate::new(5000, 2)], a);
    let other = Dumbbell::new(vec![Plate::new(2500, 2)], b);
    let plan = Workout::new(vec![
        (a, vec![light.duplicate()]),
        (b, vec![other.duplicate()]),
        (a, vec![heavy.duplicate()]),
    ]);
    assert_eq!(plan.bars(), vec![a, b]);
    assert_eq!(plan.get(a), vec![light, heavy]);
    assert_eq!(plan.get(b), vec![other]);
    assert!(plan.get(small_bar()).is_empty());
    assert!(Workout::default().bars().is_empty());
}
