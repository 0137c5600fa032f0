use workout_rs::bar::Bar;
use workout_rs::bar_kind::BarKind;
use workout_rs::configurations::{configurations_from, dumbbells};
use workout_rs::dumbbell::Dumbbell;
use workout_rs::gym_state::{GymState, GymStateId};
use workout_rs::inventory::usable_units;
use workout_rs::plate::Plate;
use workout_rs::state_space::joint_states;

fn stack(weights: &[u32], bar: Bar) -> Dumbbell {
    Dumbbell::new(weights.iter().map(|w| Plate::new(*w, bar.gauge())).collect(), bar)
}

fn weights(dumbbell: &Dumbbell) -> Vec<u32> {
    dumbbell.plates().iter().map(|p| p.weight()).collect()
}

fn copies(weight: u32, gauge: u32, count: usize) -> Vec<Plate> {
    vec![Plate::new(weight, gauge); count]
}

#[test]
fn state_id_wraps_a_number() {
    assert_eq!(GymStateId(3).0, 3);
    assert!(GymStateId(1) < GymStateId(2));
}

#[test]
fn gym_state_get_finds_the_configuration_of_a_bar() {
    let a = Bar::new(15000, 2, BarKind::Barbell);
    let b = Bar::new(10000, 2, BarKind::Barbell);
    let c = Bar::new(10000, 2, BarKind::Dumbbell);
    let state = GymState::new(vec![stack(&[5000], a), stack(&[2500, 1250], b)]);
    assert_eq!(weights(state.get(&a).unwrap()), vec![5000]);
    assert_eq!(*state.get(&a).unwrap().bar(), a);
    assert_eq!(weights(state.get(&b).unwrap()), vec![2500, 1250]);
    assert!(state.get(&c).is_none());
}

#[test]
fn gym_state_new_keeps_the_last_configuration_of_a_bar() {
    let a = Bar::new(15000, 2, BarKind::Barbell);
    let state = GymState::new(vec![stack(&[5000], a), stack(&[2500], a)]);
    assert_eq!(weights(state.get(&a).unwrap()), vec![2500]);
    assert_eq!(state.value().len(), 1);
}

#[test]
fn gym_state_value_lists_every_bar_once() {
    let a = Bar::new(15000, 2, BarKind::Barbell);
    let b = Bar::new(10000, 2, BarKind::Barbell);
    let state = GymState::new(vec![stack(&[5000], a), stack(&[], b)]);
    let mut listed: Vec<(Bar, Vec<u32>)> =
        state.value().iter().map(|d| (*d.bar(), weights(d))).collect();
    listed.sort();
    assert_eq!(listed, vec![(b, vec![]), (a, vec![5000])]);
    assert!(GymState::new(vec![]).value().is_empty());
}

#[test]
fn gym_state_plates_counts_all_bars() {
    let a = Bar::new(15000, 2, BarKind::Barbell);
    let b = Bar::new(10000, 2, BarKind::Barbell);
    assert_eq!(GymState::new(vec![]).plates(), 0);
    assert_eq!(GymState::new(vec![stack(&[], a), stack(&[], b)]).plates(), 0);
    assert_eq!(GymState::new(vec![stack(&[5000, 2500], a), stack(&[2500], b)]).plates(), 3);
    assert_eq!(GymState::new(vec![stack(&[5000], a), stack(&[2500, 2500], a)]).plates(), 2);
}

#[test]
fn gym_state_adjacent_needs_exactly_one_plate_change() {
    let a = Bar::new(15000, 2, BarKind::Barbell);
    let b = Bar::new(10000, 2, BarKind::Barbell);
    let base = GymState::new(vec![stack(&[], a), stack(&[], b)]);
    let one = GymState::new(vec![stack(&[5000], a), stack(&[], b)]);
    let other = GymState::new(vec![stack(&[], a), stack(&[2500], b)]);
    let both = GymState::new(vec![stack(&[5000], a), stack(&[2500], b)]);
    let two_plates = GymState::new(vec![stack(&[5000, 2500], a), stack(&[], b)]);
    let swapped = GymState::new(vec![stack(&[2500], a), stack(&[], b)]);
    assert!(base.adjacent(&one));
    assert!(base.adjacent(&other));
    assert!(!base.adjacent(&both));
    assert!(one.adjacent(&both));
    assert!(!base.adjacent(&two_plates));
    assert!(one.adjacent(&two_plates));
    assert!(!one.adjacent(&swapped));
    assert!(!one.adjacent(&other));
}

#[test]
fn gym_state_adjacent_is_symmetric_and_irreflexive() {
    let a = Bar::new(15000, 2, BarKind::Barbell);
    let b = Bar::new(10000, 2, BarKind::Barbell);
    let loads: [&[u32]; 4] = [&[], &[2500], &[5000], &[5000, 2500]];
    let mut states = Vec::new();
    for x in loads {
        for y in loads {
            states.push(GymState::new(vec![stack(x, a), stack(y, b)]));
        }
    }
    for s in &states {
        assert!(!s.adjacent(s));
        for t in &states {
            assert_eq!(s.adjacent(t), t.adjacent(s));
        }
    }
}

#[test]
fn gym_state_adjacent_compares_shared_bars_only() {
    let a = Bar::new(15000, 2, BarKind::Barbell);
    let b = Bar::new(10000, 2, BarKind::Barbell);
    let small = GymState::new(vec![stack(&[], a)]);
    let large = GymState::new(vec![stack(&[5000], a), stack(&[2500], b)]);
    assert!(small.adjacent(&large));
    assert!(large.adjacent(&small));
    let apart = GymState::new(vec![stack(&[], b)]);
    assert!(!small.adjacent(&apart));
}

#[test]
fn usable_units_take_whole_groups_of_the_right_gauge() {
    let mut inventory = copies(1250, 1, 4);
    inventory.extend(copies(2500, 1, 4));
    inventory.extend(copies(500, 1, 3));
    inventory.extend(copies(5000, 2, 8));
    let dumbbell = Bar::new(2000, 1, BarKind::Dumbbell);
    assert_eq!(
        usable_units(&inventory, &dumbbell),
        vec![Plate::new(2500, 1), Plate::new(1250, 1)]
    );
    let barbell = Bar::new(2000, 1, BarKind::Barbell);
    assert_eq!(
        usable_units(&inventory, &barbell),
        vec![
            Plate::new(2500, 1),
            Plate::new(2500, 1),
            Plate::new(1250, 1),
            Plate::new(1250, 1),
            Plate::new(500, 1),
        ]
    );
    let wide = Bar::new(5000, 2, BarKind::Dumbbell);
    assert_eq!(usable_units(&inventory, &wide), vec![Plate::new(5000, 2), Plate::new(5000, 2)]);
    assert!(usable_units(&Vec::new(), &wide).is_empty());
}

#[test]
fn usable_units_count_plates_wherever_they_stand() {
    let inventory = vec![
        Plate::new(2500, 1),
        Plate::new(1250, 1),
        Plate::new(2500, 1),
        Plate::new(1250, 1),
        Plate::new(1250, 1),
    ];
    let bar = Bar::new(2000, 1, BarKind::Barbell);
    assert_eq!(usable_units(&inventory, &bar), vec![Plate::new(2500, 1), Plate::new(1250, 1)]);
}

#[test]
fn dumbbells_list_every_selection_once_lightest_first() {
    let mut inventory = copies(1250, 1, 4);
    inventory.extend(copies(2500, 1, 2));
    let bar = Bar::new(20000, 1, BarKind::Barbell);
    let configs = dumbbells(&inventory, &bar);
    let listed: Vec<(u32, Vec<u32>)> = configs.iter().map(|d| (d.weight(), weights(d))).collect();
    assert_eq!(
        listed,
        vec![
            (20000, vec![]),
            (22500, vec![1250]),
            (25000, vec![2500]),
            (25000, vec![1250, 1250]),
            (27500, vec![2500, 1250]),
            (30000, vec![2500, 1250, 1250]),
        ]
    );
}

#[test]
fn dumbbells_of_an_empty_inventory_are_the_bare_bar() {
    let bar = Bar::new(20000, 1, BarKind::Barbell);
    let configs = dumbbells(&Vec::new(), &bar);
    assert_eq!(configs.len(), 1);
    assert_eq!(configs[0].weight(), 20000);
    assert!(configs[0].plates().is_empty());
}

#[test]
fn configurations_from_drops_repetitions_and_orders_by_weight() {
    let bar = Bar::new(1000, 1, BarKind::Barbell);
    let subsets = vec![
        vec![Plate::new(300, 1), Plate::new(100, 1)],
        vec![Plate::new(200, 1)],
        vec![Plate::new(100, 1), Plate::new(300, 1)],
        vec![Plate::new(100, 1), Plate::new(100, 1), Plate::new(900, 2)],
        vec![],
        vec![Plate::new(200, 1)],
    ];
    let configs = configurations_from(&subsets, &bar);
    let listed: Vec<(u32, Vec<u32>)> = configs.iter().map(|d| (d.weight(), weights(d))).collect();
    assert_eq!(
        listed,
        vec![
            (1000, vec![]),
            (1400, vec![200]),
            (1400, vec![100, 100]),
            (1800, vec![300, 100]),
        ]
    );
}

#[test]
fn joint_states_pair_every_configuration_with_every_other() {
    let mut inventory = copies(5000, 2, 2);
    inventory.extend(copies(2500, 2, 2));
    let a = Bar::new(15000, 2, BarKind::Barbell);
    let b = Bar::new(10000, 2, BarKind::Barbell);
    let states = joint_states(&inventory, &vec![a, b]);
    assert_eq!(states.len(), 16);
    let listed: Vec<(Vec<u32>, Vec<u32>)> = states
        .iter()
        .map(|s| (weights(s.get(&a).unwrap()), weights(s.get(&b).unwrap())))
        .collect();
    let order: [Vec<u32>; 4] = [vec![], vec![2500], vec![5000], vec![5000, 2500]];
    let mut expected = Vec::new();
    for x in &order {
        for y in &order {
            expected.push((x.clone(), y.clone()));
        }
    }
    assert_eq!(listed, expected);
}

#[test]
fn joint_states_of_no_bars_are_the_one_empty_state() {
    let states = joint_states(&copies(5000, 2, 2), &Vec::new());
    assert_eq!(states.len(), 1);
    assert!(states[0].value().is_empty());
}
