use encrypted_notes_backend::identity::Identity;
use encrypted_notes_backend::notes::{EncryptedNote, Notes};

fn id(b: u8) -> Identity {
    Identity::from_bytes(vec![b])
}

fn s(text: &str) -> String {
    String::from(text)
}

fn contents(n: &Notes, i: &Identity) -> Vec<(u128, String)> {
    n.get_notes(i).into_iter().map(|x| (x.id, x.data)).collect()
}

#[test]
fn note_ids_count_up_from_zero() {
    let mut n = Notes::new();
    let i = id(1);
    assert_eq!(n.add_note(&i, s("ct1")), 0);
    assert_eq!(n.add_note(&i, s("ct2")), 1);
    assert_eq!(contents(&n, &i), vec![(0, s("ct1")), (1, s("ct2"))]);
    assert_eq!(n.get_notes(&id(9)).len(), 0);
}

#[test]
fn note_counter_is_process_wide() {
    let mut n = Notes::new();
    assert_eq!(n.add_note(&id(1), s("a")), 0);
    // a different identity draws from the same counter: ids are never reused
    assert_eq!(n.add_note(&id(2), s("b")), 1);
    assert_eq!(n.add_note(&id(1), s("c")), 2);
    assert_eq!(contents(&n, &id(1)), vec![(0, s("a")), (2, s("c"))]);
    assert_eq!(contents(&n, &id(2)), vec![(1, s("b"))]);
}

#[test]
fn update_note_changes_only_its_target() {
    let mut n = Notes::new();
    let i = id(1);
    n.add_note(&i, s("ct1"));
    n.add_note(&i, s("ct2"));
    n.update_note(&i, EncryptedNote { id: 0, data: s("ct1-updated") });
    assert_eq!(contents(&n, &i), vec![(0, s("ct1-updated")), (1, s("ct2"))]);
    // an unknown id is a silent no-op
    n.update_note(&i, EncryptedNote { id: 99, data: s("x") });
    assert_eq!(contents(&n, &i), vec![(0, s("ct1-updated")), (1, s("ct2"))]);
    // so is an unknown identity
    n.update_note(&id(9), EncryptedNote { id: 0, data: s("x") });
    assert_eq!(n.get_notes(&id(9)).len(), 0);
}

#[test]
fn delete_note_is_idempotent() {
    let mut n = Notes::new();
    let i = id(1);
    n.add_note(&i, s("ct1"));
    n.add_note(&i, s("ct2"));
    n.delete_note(&i, 0);
    assert_eq!(contents(&n, &i), vec![(1, s("ct2"))]);
    // deleting again is a no-op, not an error
    n.delete_note(&i, 0);
    assert_eq!(contents(&n, &i), vec![(1, s("ct2"))]);
    n.delete_note(&id(9), 0);
}

#[test]
fn deleted_ids_are_never_reused() {
    let mut n = Notes::new();
    let i = id(1);
    assert_eq!(n.add_note(&i, s("a")), 0);
    n.delete_note(&i, 0);
    assert_eq!(n.add_note(&i, s("b")), 1);
    assert_eq!(contents(&n, &i), vec![(1, s("b"))]);
}

#[test]
fn notes_round_trip_preserves_queries() {
    let mut n = Notes::new();
    let i1 = id(1);
    let i2 = id(2);
    n.add_note(&i1, s("ct1"));
    n.add_note(&i2, s("ct2"));
    n.add_note(&i1, s("ct3"));
    n.delete_note(&i1, 0);

    let (entries, counter) = n.to_entries();
    let mut n2 = Notes::from_entries(&entries, counter);

    assert_eq!(contents(&n2, &i1), contents(&n, &i1));
    assert_eq!(contents(&n2, &i2), contents(&n, &i2));
    // the counter survives: fresh ids continue where the old store stopped
    assert_eq!(n2.add_note(&i1, s("ct4")), 3);
}
