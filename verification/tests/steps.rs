use std::cell::Cell;

use rip::steps::{
    exhume_list, in_graveyard_action, placement, proceed_after_inspection, InGraveyardAction,
    Placement,
};

fn strings(v: &[&str]) -> Vec<String> {
    v.iter().map(|s| s.to_string()).collect()
}

#[test]
fn inspection_goes_on_when_answered_yes_or_confirmed() {
    assert!(proceed_after_inspection(true, false));
    assert!(proceed_after_inspection(false, true));
    assert!(proceed_after_inspection(true, true));
    assert!(!proceed_after_inspection(false, false));
}

#[test]
fn placement_of_targets_inside_and_outside_the_graveyard() {
    assert!(matches!(placement("/tmp/g/home/me/a", "/tmp/g"), Placement::AlreadyInGraveyard));
    assert!(matches!(placement("/tmp/g", "/tmp/g/"), Placement::AlreadyInGraveyard));
    match placement("/home/me/a", "/tmp/g") {
        Placement::Grave(g) => assert_eq!(g, "/tmp/g/home/me/a"),
        Placement::AlreadyInGraveyard => panic!("outside the graveyard"),
    }
    match placement("/tmp/gx/a", "/tmp/g") {
        Placement::Grave(g) => assert_eq!(g, "/tmp/g/tmp/gx/a"),
        Placement::AlreadyInGraveyard => panic!("outside the graveyard"),
    }
}

#[test]
fn buried_targets_are_unlinked_only_when_confirmed() {
    assert!(matches!(in_graveyard_action(true, false), InGraveyardAction::Unlink));
    assert!(matches!(in_graveyard_action(false, true), InGraveyardAction::Unlink));
    assert!(matches!(in_graveyard_action(false, false), InGraveyardAction::Stop));
}

#[test]
fn exhume_list_asks_for_the_last_burial_only_when_nothing_is_named() {
    let asked = Cell::new(0);
    let list = exhume_list(strings(&["/g/a"]), strings(&["/g/b"]), || {
        asked.set(asked.get() + 1);
        Some("/g/last".to_string())
    });
    assert_eq!(list, strings(&["/g/a", "/g/b"]));
    assert_eq!(asked.get(), 0);

    let list = exhume_list(Vec::new(), Vec::new(), || {
        asked.set(asked.get() + 1);
        Some("/g/last".to_string())
    });
    assert_eq!(list, strings(&["/g/last"]));
    assert_eq!(asked.get(), 1);

    assert!(exhume_list(Vec::new(), Vec::new(), || None).is_empty());
}
