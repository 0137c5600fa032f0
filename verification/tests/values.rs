use std::collections::HashMap;

use workout_rs::bar::Bar;
use workout_rs::bar_kind::BarKind;
use workout_rs::dumbbell::Dumbbell;
use workout_rs::plate::Plate;
use workout_rs::requirement::Requirement;

fn weights(dumbbell: &Dumbbell) -> Vec<u32> {
    dumbbell.plates().iter().map(|p| p.weight()).collect()
}

#[test]
fn bar_kind_plates_per_unit() {
    assert_eq!(BarKind::Dumbbell.required_similar_plates(), 4);
    assert_eq!(BarKind::Barbell.required_similar_plates(), 2);
}

#[test]
fn bar_kind_reads_its_code() {
    assert_eq!(BarKind::from_code("d"), Ok(BarKind::Dumbbell));
    assert_eq!(BarKind::from_code("b"), Ok(BarKind::Barbell));
    assert_eq!(BarKind::from_code("D"), Err("Invalid bar kind.".to_string()));
    assert_eq!(BarKind::from_code(""), Err("Invalid bar kind.".to_string()));
    assert_eq!(BarKind::from_code("db"), Err("Invalid bar kind.".to_string()));
    assert_eq!("b".parse::<BarKind>(), Ok(BarKind::Barbell));
    assert_eq!("x".parse::<BarKind>(), Err("Invalid bar kind.".to_string()));
}

#[test]
fn bar_and_plate_getters() {
    let bar = Bar::new(15000, 2, BarKind::Barbell);
    assert_eq!(bar.weight(), 15000);
    assert_eq!(bar.gauge(), 2);
    assert_eq!(*bar.kind(), BarKind::Barbell);
    assert_eq!(bar.key(), (15000, 2, true));
    assert_eq!(Bar::new(2000, 1, BarKind::Dumbbell).key(), (2000, 1, false));
    let plate = Plate::new(1250, 1);
    assert_eq!(plate.weight(), 1250);
    assert_eq!(plate.gauge(), 1);
}

#[test]
fn plate_from_weights_keeps_order() {
    let plates = Plate::from_weights(vec![500, 2500, 500], 3);
    assert_eq!(plates, vec![Plate::new(500, 3), Plate::new(2500, 3), Plate::new(500, 3)]);
    assert!(Plate::from_weights(vec![], 3).is_empty());
}

#[test]
fn plate_from_weights_map_lists_every_weight_once() {
    let mut table = HashMap::new();
    table.insert(500u32, 4usize);
    table.insert(1250, 8);
    table.insert(2500, 1);
    let mut counted = Plate::from_weights_map(table, 2);
    counted.sort();
    assert_eq!(
        counted,
        vec![(Plate::new(500, 2), 4), (Plate::new(1250, 2), 8), (Plate::new(2500, 2), 1)]
    );
    assert!(Plate::from_weights_map(HashMap::new(), 2).is_empty());
}

#[test]
fn dumbbell_new_filters_gauge_and_sorts_descending() {
    let bar = Bar::new(15000, 2, BarKind::Barbell);
    let d = Dumbbell::new(
        vec![
            Plate::new(2500, 2),
            Plate::new(20000, 1),
            Plate::new(5000, 2),
            Plate::new(1250, 2),
            Plate::new(5000, 2),
        ],
        bar,
    );
    assert_eq!(weights(&d), vec![5000, 5000, 2500, 1250]);
    assert!(d.plates().iter().all(|p| p.gauge() == 2));
    assert_eq!(*d.bar(), bar);
    assert_eq!(d.plate_count(), 4);
    assert_eq!(d.plates_owned(), vec![
        Plate::new(5000, 2),
        Plate::new(5000, 2),
        Plate::new(2500, 2),
        Plate::new(1250, 2),
    ]);
}

#[test]
fn dumbbell_new_rc_matches_new() {
    let bar = Bar::new(2000, 1, BarKind::Dumbbell);
    let plates = vec![Plate::new(500, 1), Plate::new(2500, 1)];
    let shared = Dumbbell::new_rc(plates.clone(), &bar);
    assert_eq!(*shared, Dumbbell::new(plates, bar));
}

#[test]
fn dumbbell_weight_is_bar_plus_twice_the_plates() {
    let bar = Bar::new(15000, 2, BarKind::Barbell);
    assert_eq!(Dumbbell::new(vec![], bar).weight(), 15000);
    let d = Dumbbell::new(vec![Plate::new(2500, 2), Plate::new(5000, 2)], bar);
    assert_eq!(d.weight(), 30000);
    assert_eq!(d.checked_weight(), Some(30000));
    let ignored = Dumbbell::new(vec![Plate::new(2500, 1)], bar);
    assert_eq!(ignored.weight(), 15000);
}

#[test]
fn dumbbell_checked_weight_reports_what_does_not_fit() {
    let bar = Bar::new(u32::MAX - 1, 2, BarKind::Barbell);
    assert_eq!(Dumbbell::new(vec![], bar).checked_weight(), Some(u32::MAX - 1));
    assert_eq!(Dumbbell::new(vec![Plate::new(1, 2)], bar).checked_weight(), None);
    let light = Bar::new(1, 2, BarKind::Barbell);
    let exact = Dumbbell::new(vec![Plate::new(u32::MAX / 2, 2)], light);
    assert_eq!(exact.checked_weight(), Some(u32::MAX));
    let heavy = Dumbbell::new(vec![Plate::new(u32::MAX, 2), Plate::new(u32::MAX, 2)], light);
    assert_eq!(heavy.checked_weight(), None);
}

#[test]
fn dumbbell_adjacent_adds_or_removes_the_outermost_plate() {
    let bar = Bar::new(15000, 2, BarKind::Barbell);
    let empty = Dumbbell::new(vec![], bar);
    let single_2_5 = Dumbbell::new(vec![Plate::new(2500, 2)], bar);
    let single_5 = Dumbbell::new(vec![Plate::new(5000, 2)], bar);
    let double_2_5 = Dumbbell::new(vec![Plate::new(2500, 2), Plate::new(2500, 2)], bar);
    let mixed = Dumbbell::new(vec![Plate::new(2500, 2), Plate::new(5000, 2)], bar);
    assert!(empty.adjacent(&single_2_5));
    assert!(empty.adjacent(&single_5));
    assert!(single_2_5.adjacent(&double_2_5));
    assert!(!single_2_5.adjacent(&mixed));
    assert!(single_5.adjacent(&mixed));
    assert!(!empty.adjacent(&double_2_5));
    assert!(!single_5.adjacent(&single_2_5));
}

#[test]
fn dumbbell_adjacent_is_symmetric_and_irreflexive() {
    let bar = Bar::new(15000, 2, BarKind::Barbell);
    let all = vec![
        Dumbbell::new(vec![], bar),
        Dumbbell::new(vec![Plate::new(2500, 2)], bar),
        Dumbbell::new(vec![Plate::new(5000, 2)], bar),
        Dumbbell::new(vec![Plate::new(5000, 2), Plate::new(2500, 2)], bar),
        Dumbbell::new(vec![Plate::new(2500, 2), Plate::new(2500, 2)], bar),
    ];
    for a in &all {
        assert!(!a.adjacent(a));
        for b in &all {
            assert_eq!(a.adjacent(b), b.adjacent(a));
        }
    }
}

#[test]
fn dumbbell_adjacent_needs_the_same_bar() {
    let one = Bar::new(15000, 2, BarKind::Barbell);
    let other = Bar::new(10000, 2, BarKind::Barbell);
    let a = Dumbbell::new(vec![], one);
    let b = Dumbbell::new(vec![Plate::new(2500, 2)], other);
    assert!(!a.adjacent(&b));
    assert!(!b.adjacent(&a));
}

#[test]
fn dumbbell_same_load_and_duplicate() {
    let bar = Bar::new(15000, 2, BarKind::Barbell);
    let a = Dumbbell::new(vec![Plate::new(2500, 2), Plate::new(5000, 2)], bar);
    let b = Dumbbell::new(vec![Plate::new(5000, 2), Plate::new(2500, 2)], bar);
    let c = Dumbbell::new(vec![Plate::new(5000, 2)], bar);
    let d = Dumbbell::new(vec![Plate::new(5000, 2)], Bar::new(15000, 2, BarKind::Dumbbell));
    assert!(a.same_load(&b));
    assert!(!a.same_load(&c));
    assert!(!c.same_load(&d));
    let copy = a.duplicate();
    assert!(copy.same_load(&a));
    assert_eq!(copy, a);
}

#[test]
fn requirement_matches_weight_and_kind() {
    let bar = Bar::new(15000, 2, BarKind::Barbell);
    let d = Dumbbell::new(vec![Plate::new(2500, 2)], bar);
    let r = Requirement::new(20000, BarKind::Barbell);
    assert_eq!(r.weight(), 20000);
    assert_eq!(r.bar_kind(), BarKind::Barbell);
    assert!(r.matches(&d));
    assert!(!Requirement::new(20000, BarKind::Dumbbell).matches(&d));
    assert!(!Requirement::new(20001, BarKind::Barbell).matches(&d));
    let too_heavy = Dumbbell::new(vec![Plate::new(u32::MAX, 2)], bar);
    assert!(!Requirement::new(u32::MAX, BarKind::Barbell).matches(&too_heavy));
}
