use smb3r::overworld_build::{LockHint, SlotAssignment, SlotKind};

#[test]
fn lock_hint_defaults_to_unhinted() {
    assert_eq!(LockHint::default(), LockHint::Unhinted);
    assert_ne!(LockHint::default(), LockHint::World8);
}

#[test]
fn slot_assignment_carries_its_fields() {
    let slot = SlotAssignment {
        pos: (4, 18),
        kind: SlotKind::Fortress,
        section: 2,
        is_hand_trap: false,
        is_troll_pipe: false,
        lock_hint: LockHint::OwnWorld,
    };
    let copy = slot;
    assert_eq!(copy.pos, (4, 18));
    assert_eq!(copy.kind, SlotKind::Fortress);
    assert_eq!(copy.section, 2);
    assert_eq!(copy.lock_hint, LockHint::OwnWorld);
    assert_ne!(copy.kind, SlotKind::Level);
}
