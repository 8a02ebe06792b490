use encrypted_notes_backend::devices_store::{DevicesStore, SecretError};
use encrypted_notes_backend::identity::Identity;
use encrypted_notes_backend::notes_store::NotesStore;

fn id(b: u8) -> Identity {
    Identity::from_bytes(vec![b])
}

fn s(text: &str) -> String {
    String::from(text)
}

fn contents(n: &NotesStore, i: &Identity) -> Vec<(u128, String)> {
    n.get_notes(i).into_iter().map(|x| (x.id, x.encrypted_text)).collect()
}

#[test]
fn first_registration_assigns_note_storage() {
    let mut ds = DevicesStore::new();
    let mut ns = NotesStore::new();
    let i = id(1);
    assert!(!ns.has_note(&i));
    assert!(ds.register_device(&mut ns, &i, s("A1"), s("K1")));
    assert!(ds.is_user_registered(&i));
    assert!(ns.has_note(&i));
    assert_eq!(ns.get_notes(&i).len(), 0);
    // a second device does not reallocate storage
    assert!(ds.register_device(&mut ns, &i, s("A2"), s("K2")));
    let mut pairs = ds.get_devices(&i);
    pairs.sort();
    assert_eq!(pairs, vec![(s("A1"), s("K1")), (s("A2"), s("K2"))]);
}

#[test]
fn duplicate_alias_is_reported_and_ignored() {
    let mut ds = DevicesStore::new();
    let mut ns = NotesStore::new();
    let i = id(1);
    assert!(ds.register_device(&mut ns, &i, s("A1"), s("K1")));
    assert!(!ds.register_device(&mut ns, &i, s("A1"), s("K2")));
    assert_eq!(ds.get_devices(&i), vec![(s("A1"), s("K1"))]);
}

#[test]
fn is_seed_follows_the_ledger() {
    let mut ds = DevicesStore::new();
    let mut ns = NotesStore::new();
    let i = id(1);
    assert_eq!(ds.is_seed(&i), Err(SecretError::DeviceNotRegistered));
    ds.register_device(&mut ns, &i, s("A1"), s("K1"));
    assert_eq!(ds.is_seed(&i), Ok(true));
    assert_eq!(ds.upload_seed_secret(&i, s("K1"), s("sec1")), Ok(()));
    // the moment one entry exists the identity is no longer a seed
    assert_eq!(ds.is_seed(&i), Ok(false));
}

#[test]
fn seed_secret_is_uploaded_exactly_once() {
    let mut ds = DevicesStore::new();
    let mut ns = NotesStore::new();
    let i = id(1);
    ds.register_device(&mut ns, &i, s("A1"), s("K1"));
    assert_eq!(
        ds.upload_seed_secret(&i, s("KX"), s("x")),
        Err(SecretError::Unknown)
    );
    assert_eq!(ds.upload_seed_secret(&i, s("K1"), s("first")), Ok(()));
    assert_eq!(
        ds.upload_seed_secret(&i, s("K1"), s("second")),
        Err(SecretError::AlreadyRegistered)
    );
    assert_eq!(ds.get_encrypted_secrets(&i, s("K1")), Ok(s("first")));
}

#[test]
fn joining_device_polls_until_synced() {
    let mut ds = DevicesStore::new();
    let mut ns = NotesStore::new();
    let i = id(1);
    ds.register_device(&mut ns, &i, s("A1"), s("K1"));
    ds.upload_seed_secret(&i, s("K1"), s("sec1")).unwrap();
    ds.register_device(&mut ns, &i, s("A2"), s("K2"));

    // the new device is not synced yet
    assert_eq!(ds.get_encrypted_secrets(&i, s("K2")), Err(SecretError::NotSynced));
    assert_eq!(ds.get_unsynced_public_keys(&i), vec![s("K2")]);
    // an already-synced device pushes the re-encrypted secret
    assert_eq!(
        ds.upload_encrypted_secrets(&i, vec![(s("K2"), s("sec2"))]),
        Ok(())
    );
    assert_eq!(ds.get_encrypted_secrets(&i, s("K2")), Ok(s("sec2")));
    assert_eq!(ds.get_unsynced_public_keys(&i), Vec::<String>::new());
}

#[test]
fn store_secret_queries_report_each_error() {
    let mut ds = DevicesStore::new();
    let mut ns = NotesStore::new();
    let i = id(1);
    assert_eq!(
        ds.get_encrypted_secrets(&i, s("K1")),
        Err(SecretError::DeviceNotRegistered)
    );
    assert_eq!(
        ds.upload_encrypted_secrets(&i, vec![(s("K1"), s("x"))]),
        Err(SecretError::DeviceNotRegistered)
    );
    ds.register_device(&mut ns, &i, s("A1"), s("K1"));
    assert_eq!(ds.get_encrypted_secrets(&i, s("KX")), Err(SecretError::Unknown));
    assert_eq!(
        ds.upload_encrypted_secrets(&i, vec![(s("K1"), s("ok")), (s("KX"), s("x"))]),
        Err(SecretError::Unknown)
    );
    // the strict batch left no partial write behind
    assert_eq!(ds.get_encrypted_secrets(&i, s("K1")), Err(SecretError::NotSynced));
}

#[test]
fn store_delete_device_keeps_the_last_alias() {
    let mut ds = DevicesStore::new();
    let mut ns = NotesStore::new();
    let i = id(1);
    ds.register_device(&mut ns, &i, s("A1"), s("K1"));
    assert!(!ds.try_delete_device(&i, s("A1")));
    assert_eq!(ds.get_devices(&i), vec![(s("A1"), s("K1"))]);

    ds.register_device(&mut ns, &i, s("A2"), s("K2"));
    ds.delete_device(&i, s("A2"));
    assert_eq!(ds.get_devices(&i), vec![(s("A1"), s("K1"))]);
}

#[test]
fn store_notes_follow_the_same_rules() {
    let mut ds = DevicesStore::new();
    let mut ns = NotesStore::new();
    let i = id(1);
    ds.register_device(&mut ns, &i, s("A1"), s("K1"));

    assert_eq!(ns.add_note(&i, s("ct1")), 0);
    assert_eq!(ns.add_note(&i, s("ct2")), 1);
    assert_eq!(contents(&ns, &i), vec![(0, s("ct1")), (1, s("ct2"))]);

    let first = ns.get_note(&i, 0);
    assert_eq!((first.id, first.encrypted_text), (0, s("ct1")));

    ns.update_note(&i, 0, s("ct1-updated"));
    assert_eq!(contents(&ns, &i), vec![(0, s("ct1-updated")), (1, s("ct2"))]);
    ns.update_note(&i, 99, s("x"));
    assert_eq!(contents(&ns, &i), vec![(0, s("ct1-updated")), (1, s("ct2"))]);

    ns.delete_note(&i, 0);
    assert_eq!(contents(&ns, &i), vec![(1, s("ct2"))]);
    ns.delete_note(&i, 0);
    assert_eq!(contents(&ns, &i), vec![(1, s("ct2"))]);
}
