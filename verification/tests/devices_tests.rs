use encrypted_notes_backend::devices::{DeviceError, Devices};
use encrypted_notes_backend::identity::Identity;

fn id(b: u8) -> Identity {
    Identity::from_bytes(vec![b])
}

fn s(text: &str) -> String {
    String::from(text)
}

#[test]
fn register_first_device_makes_a_seed() {
    let mut d = Devices::new();
    let i = id(1);
    d.register_device(&i, s("A1"), s("K1"));
    assert_eq!(d.get_device_aliases(&i), vec![s("A1")]);
    assert!(d.is_registered(&i));
    // no encrypted key uploaded yet: the ledger is empty
    assert!(!d.is_encrypted_symmetric_key_registered(&i));
}

#[test]
fn aliases_of_unknown_identity_are_empty() {
    let d = Devices::new();
    assert_eq!(d.get_device_aliases(&id(9)), Vec::<String>::new());
    assert!(!d.is_registered(&id(9)));
}

#[test]
fn duplicate_alias_registration_is_a_no_op() {
    let mut d = Devices::new();
    let i = id(1);
    d.register_device(&i, s("A1"), s("K1"));
    // same alias, different key: silently ignored, the key is not re-bound
    d.register_device(&i, s("A1"), s("K2"));
    assert_eq!(d.get_device_aliases(&i), vec![s("A1")]);
    let mut unsynced = d.get_unsynced_public_keys(&i);
    unsynced.sort();
    assert_eq!(unsynced, vec![s("K1")]);
}

#[test]
fn unsynced_keys_shrink_as_secrets_arrive() {
    let mut d = Devices::new();
    let i = id(1);
    d.register_device(&i, s("A1"), s("K1"));
    d.register_device(&i, s("A2"), s("K2"));
    let mut unsynced = d.get_unsynced_public_keys(&i);
    unsynced.sort();
    assert_eq!(unsynced, vec![s("K1"), s("K2")]);

    assert_eq!(d.register_encrypted_symmetric_key(&i, s("K1"), s("sec-for-K1")), Ok(()));
    assert_eq!(d.get_unsynced_public_keys(&i), vec![s("K2")]);

    assert_eq!(
        d.upload_encrypted_symmetric_keys(&i, vec![(s("K2"), s("sec-for-K2"))]),
        Ok(())
    );
    assert_eq!(d.get_unsynced_public_keys(&i), Vec::<String>::new());
    assert_eq!(d.get_unsynced_public_keys(&id(9)), Vec::<String>::new());
}

#[test]
fn seed_upload_is_valid_exactly_once() {
    let mut d = Devices::new();
    let i = id(1);
    d.register_device(&i, s("A1"), s("K1"));
    assert_eq!(d.register_encrypted_symmetric_key(&i, s("K1"), s("first")), Ok(()));
    // second upload fails and the first entry is unchanged
    assert_eq!(
        d.register_encrypted_symmetric_key(&i, s("K1"), s("second")),
        Err(DeviceError::AlreadyRegistered)
    );
    assert_eq!(d.get_encrypted_symmetric_key(&i, &s("K1")), Ok(s("first")));
    assert!(d.is_encrypted_symmetric_key_registered(&i));
}

#[test]
fn secret_queries_report_each_error() {
    let mut d = Devices::new();
    let i = id(1);
    assert_eq!(
        d.get_encrypted_symmetric_key(&i, &s("K1")),
        Err(DeviceError::DeviceNotRegistered)
    );
    assert_eq!(
        d.register_encrypted_symmetric_key(&i, s("K1"), s("x")),
        Err(DeviceError::DeviceNotRegistered)
    );
    assert_eq!(
        d.upload_encrypted_symmetric_keys(&i, vec![(s("K1"), s("x"))]),
        Err(DeviceError::DeviceNotRegistered)
    );
    d.register_device(&i, s("A1"), s("K1"));
    assert_eq!(
        d.get_encrypted_symmetric_key(&i, &s("KX")),
        Err(DeviceError::UnknownPublicKey)
    );
    assert_eq!(
        d.register_encrypted_symmetric_key(&i, s("KX"), s("x")),
        Err(DeviceError::UnknownPublicKey)
    );
    assert_eq!(
        d.get_encrypted_symmetric_key(&i, &s("K1")),
        Err(DeviceError::KeyNotSynchronized)
    );
}

#[test]
fn deleting_the_sole_alias_is_refused() {
    let mut d = Devices::new();
    let i = id(1);
    d.register_device(&i, s("A1"), s("K1"));
    assert!(!d.try_delete_device(&i, &s("A1")));
    // the refusal left the record untouched
    assert_eq!(d.get_device_aliases(&i), vec![s("A1")]);
    // deleting an unknown alias is allowed and a no-op
    assert!(d.try_delete_device(&i, &s("AX")));
    assert_eq!(d.get_device_aliases(&i), vec![s("A1")]);
    // unknown identity: nothing to refuse
    assert!(d.try_delete_device(&id(9), &s("A1")));
}

#[test]
fn deleting_one_of_two_aliases_drops_its_ledger_entry() {
    let mut d = Devices::new();
    let i = id(1);
    d.register_device(&i, s("A1"), s("K1"));
    d.register_device(&i, s("A2"), s("K2"));
    assert_eq!(d.register_encrypted_symmetric_key(&i, s("K1"), s("s1")), Ok(()));
    assert_eq!(d.upload_encrypted_symmetric_keys(&i, vec![(s("K2"), s("s2"))]), Ok(()));

    d.delete_device(&i, &s("A2"));
    assert_eq!(d.get_device_aliases(&i), vec![s("A1")]);
    // K2 is no longer a registered key and its secret is gone
    assert_eq!(
        d.get_encrypted_symmetric_key(&i, &s("K2")),
        Err(DeviceError::UnknownPublicKey)
    );
    // the change shows up immediately in the unsynced set
    assert_eq!(d.get_unsynced_public_keys(&i), Vec::<String>::new());
}

#[test]
fn shared_public_key_keeps_its_ledger_entry() {
    let mut d = Devices::new();
    let i = id(1);
    // two aliases sharing one device key
    d.register_device(&i, s("A1"), s("K1"));
    d.register_device(&i, s("A2"), s("K1"));
    assert_eq!(d.register_encrypted_symmetric_key(&i, s("K1"), s("s1")), Ok(()));
    d.delete_device(&i, &s("A2"));
    // another alias still references K1, so the secret stays
    assert_eq!(d.get_encrypted_symmetric_key(&i, &s("K1")), Ok(s("s1")));
}

#[test]
fn batch_upload_is_all_or_nothing() {
    let mut d = Devices::new();
    let i = id(1);
    d.register_device(&i, s("A1"), s("K1"));
    // the unknown key aborts the whole batch: no partial write
    assert_eq!(
        d.upload_encrypted_symmetric_keys(&i, vec![(s("K1"), s("s1")), (s("KX"), s("sx"))]),
        Err(DeviceError::UnknownPublicKey)
    );
    assert!(!d.is_encrypted_symmetric_key_registered(&i));
    // an empty batch succeeds and changes nothing
    assert_eq!(d.upload_encrypted_symmetric_keys(&i, vec![]), Ok(()));
    assert!(!d.is_encrypted_symmetric_key_registered(&i));
}

#[test]
fn batch_upload_never_overwrites() {
    let mut d = Devices::new();
    let i = id(1);
    d.register_device(&i, s("A1"), s("K1"));
    assert_eq!(d.register_encrypted_symmetric_key(&i, s("K1"), s("stored")), Ok(()));
    // an idempotent re-push is safe: the stored secret stays
    assert_eq!(
        d.upload_encrypted_symmetric_keys(&i, vec![(s("K1"), s("replacement"))]),
        Ok(())
    );
    assert_eq!(d.get_encrypted_symmetric_key(&i, &s("K1")), Ok(s("stored")));
}

#[test]
fn registry_round_trip_preserves_queries() {
    let mut d = Devices::new();
    let i1 = id(1);
    let i2 = id(2);
    d.register_device(&i1, s("A1"), s("K1"));
    d.register_device(&i1, s("A2"), s("K2"));
    d.register_device(&i2, s("B1"), s("L1"));
    assert_eq!(d.register_encrypted_symmetric_key(&i1, s("K1"), s("s1")), Ok(()));

    let entries = d.to_entries();
    let mut d2 = Devices::from_entries(&entries);

    assert_eq!(d2.get_device_aliases(&i1), d.get_device_aliases(&i1));
    assert_eq!(d2.get_device_aliases(&i2), d.get_device_aliases(&i2));
    assert_eq!(
        d2.get_unsynced_public_keys(&i1),
        d.get_unsynced_public_keys(&i1)
    );
    assert_eq!(
        d2.get_encrypted_symmetric_key(&i1, &s("K1")),
        d.get_encrypted_symmetric_key(&i1, &s("K1"))
    );
    assert_eq!(
        d2.is_encrypted_symmetric_key_registered(&i2),
        d.is_encrypted_symmetric_key_registered(&i2)
    );
}
