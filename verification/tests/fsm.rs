use mealy_fsm::mealy::{Mealy, MealyDoc, TransitionKey, TransitionValue};
use mealy_fsm::{StateRole, UnknownStateError, FSM};

fn example() -> Mealy<i32, &'static str, String> {
    let mut fsm = Mealy::new("Start".to_string());
    fsm.add_state("Go".into());
    fsm.add_state("Completed".into());
    fsm.add_state("Failed".into());
    fsm.try_add_transition("Start".into(), 0, "Go".into(), "A")
        .unwrap();
    fsm.try_add_transition("Go".into(), 1, "Completed".into(), "B")
        .unwrap();
    fsm.try_add_transition("Go".into(), 2, "Failed".into(), "C")
        .unwrap();
    fsm
}

#[test]
fn mealy() {
    let mut fsm = Mealy::new("Start".to_string());
    fsm.add_state("Go".into());
    fsm.add_state("Completed".into());
    fsm.add_state("Failed".into());
    fsm.try_add_transition("Start".into(), 0, "Go".into(), "A")
        .unwrap();
    fsm.try_add_transition("Go".into(), 1, "Completed".into(), "B")
        .unwrap();
    fsm.try_add_transition("Go".into(), 2, "Failed".into(), "C")
        .unwrap();
    assert_eq!("Start", fsm.state());
    assert_eq!(None, fsm.next(3));
    assert_eq!("Start", fsm.state());
    assert_eq!(Some("A"), fsm.next(0));
    assert_eq!("Go", fsm.state());
    assert_eq!(Some("B"), fsm.next(1));
    assert_eq!("Completed", fsm.state());
}

#[test]
fn mealy_round_trip_doc() {
    let fsm = example();
    let doc = fsm.to_doc();
    let decoded = Mealy::from_doc(doc).unwrap();
    assert_eq!(fsm, decoded);
}

#[test]
fn round_trip_preserves_behavior() {
    let fsm = example();
    let mut decoded = Mealy::from_doc(fsm.to_doc()).unwrap();
    assert_eq!("Start", decoded.state());
    assert_eq!(Some("A"), decoded.next(0));
    assert_eq!(Some("B"), decoded.next(1));
    assert_eq!("Completed", decoded.state());
}

#[test]
fn round_trip_empty_table() {
    let fsm: Mealy<i32, &'static str, String> = Mealy::new("Start".to_string());
    let decoded = Mealy::from_doc(fsm.to_doc()).unwrap();
    assert_eq!(fsm, decoded);
    assert_eq!("Start", decoded.state());
}

#[test]
fn unknown_origin_is_rejected() {
    let mut fsm = example();
    let before = Mealy::from_doc(fsm.to_doc()).unwrap();
    let err = fsm
        .try_add_transition("Missing".into(), 0, "Go".into(), "X")
        .unwrap_err();
    assert_eq!(
        err,
        UnknownStateError {
            state: "Missing".to_string(),
            role: StateRole::Origin,
        }
    );
    assert_eq!(before, fsm);
}

#[test]
fn unknown_destination_is_rejected() {
    let mut fsm = example();
    let before = Mealy::from_doc(fsm.to_doc()).unwrap();
    let err = fsm
        .try_add_transition("Start".into(), 0, "Missing".into(), "X")
        .unwrap_err();
    assert_eq!(
        err,
        UnknownStateError {
            state: "Missing".to_string(),
            role: StateRole::Destination,
        }
    );
    assert_eq!(before, fsm);
}

#[test]
fn origin_reported_when_both_endpoints_unknown() {
    let mut fsm = example();
    let err = fsm
        .try_add_transition("Nowhere".into(), 5, "Elsewhere".into(), "X")
        .unwrap_err();
    assert_eq!(
        err,
        UnknownStateError {
            state: "Nowhere".to_string(),
            role: StateRole::Origin,
        }
    );
}

#[test]
fn set_state_guard() {
    let mut fsm = example();
    let err = fsm.try_set_state("Missing".to_string()).unwrap_err();
    assert_eq!(
        err,
        UnknownStateError {
            state: "Missing".to_string(),
            role: StateRole::Target,
        }
    );
    assert_eq!("Start", fsm.state());
    fsm.try_set_state("Go".to_string()).unwrap();
    assert_eq!("Go", fsm.state());
}

#[test]
fn overwriting_transition_replaces_entry() {
    let mut fsm = example();
    fsm.try_add_transition("Start".into(), 0, "Failed".into(), "Z")
        .unwrap();
    assert_eq!(Some("Z"), fsm.next(0));
    assert_eq!("Failed", fsm.state());
}

#[test]
fn steps_are_deterministic() {
    let mut a = example();
    let mut b = example();
    assert_eq!(a.next(0), b.next(0));
    assert_eq!(a.state(), b.state());
    assert_eq!(a.next(1), b.next(1));
    assert_eq!(a.state(), b.state());
}

#[test]
fn no_match_leaves_state_untouched() {
    let mut fsm = example();
    fsm.try_set_state("Completed".to_string()).unwrap();
    assert_eq!(None, fsm.next(0));
    assert_eq!("Completed", fsm.state());
    assert_eq!(None, fsm.next(0));
    assert_eq!("Completed", fsm.state());
}

#[test]
fn add_state_is_idempotent() {
    let mut a = example();
    let b = example();
    a.add_state("Go".into());
    assert_eq!(a, b);
}

#[test]
fn equality_sees_current_state() {
    let mut a = example();
    let b = example();
    assert_eq!(a, b);
    a.try_set_state("Go".to_string()).unwrap();
    assert_ne!(a, b);
}

#[test]
fn equality_sees_transition_table() {
    let mut a = example();
    let b = example();
    a.try_add_transition("Completed".into(), 9, "Start".into(), "R")
        .unwrap();
    assert_ne!(a, b);
}

#[test]
fn decoding_rejects_unknown_endpoint() {
    let doc: MealyDoc<i32, &'static str, String> = MealyDoc {
        current: "Start".to_string(),
        states: vec!["Go".to_string()],
        transitions: vec![(
            TransitionKey(("Start".to_string(), 0)),
            TransitionValue(("Missing".to_string(), "A")),
        )],
    };
    let err = Mealy::from_doc(doc).unwrap_err();
    assert_eq!(
        err,
        UnknownStateError {
            state: "Missing".to_string(),
            role: StateRole::Destination,
        }
    );
}

#[test]
fn decoding_counts_current_state_as_known() {
    let doc: MealyDoc<i32, &'static str, String> = MealyDoc {
        current: "Start".to_string(),
        states: vec!["Go".to_string()],
        transitions: vec![(
            TransitionKey(("Start".to_string(), 0)),
            TransitionValue(("Go".to_string(), "A")),
        )],
    };
    let mut fsm = Mealy::from_doc(doc).unwrap();
    assert_eq!(Some("A"), fsm.next(0));
    assert_eq!("Go", fsm.state());
}
