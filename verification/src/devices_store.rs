//! The eager-allocation variant of the registry: registering an identity's
//! first device also assigns its (empty) note collection, so the device
//! registry and the note store of `crate::notes_store` always agree on who
//! is registered.  The registry and ledger logic itself is the verified core
//! in `crate::devices`; this store adds the coupling and reports errors in
//! its own vocabulary.

use vstd::prelude::*;
use crate::assoc::{map_of, uniq_keys, in_values, lemma_map_of_dom, lemma_map_of_index};
use crate::identity::Identity;
use crate::devices::{
    Devices, DeviceDataView, DeviceError, find_id, sole_alias, spec_delete_device,
    spec_add_entries,
};
use crate::notes::NoteView;
use crate::notes_store::NotesStore;
use crate::strmap;

verus! {

pub type EncryptedSecret = String;

pub type DeviceAlias = String;

pub type PublicKey = String;

/// Recoverable, caller-visible failures of the secret distribution ledger.
#[derive(Debug, PartialEq, Eq, Structural)]
pub enum SecretError {
    Unknown,
    NotSynced,
    AlreadyRegistered,
    DeviceNotRegistered,
}

pub type UploadSecretResult = Result<(), SecretError>;

pub type GetSecretResult = Result<EncryptedSecret, SecretError>;

/// Device registry and secret ledger of the eager-allocation variant.
pub struct DevicesStore {
    pub devices: Devices,
}

impl View for DevicesStore {
    type V = Map<Seq<u8>, DeviceDataView>;

    open spec fn view(&self) -> Map<Seq<u8>, DeviceDataView> {
        self.devices@
    }
}

/// Registration and note storage move together: exactly the identities that
/// own a device record own a note collection.
pub open spec fn coupled(d: DevicesStore, n: NotesStore) -> bool {
    &&& forall|id: Seq<u8>| #[trigger] d@.contains_key(id) ==> n@.contains_key(id)
    &&& forall|id: Seq<u8>| #[trigger] n@.contains_key(id) ==> d@.contains_key(id)
}

impl Default for DevicesStore {
    fn default() -> (r: DevicesStore)
        ensures
            r.wf(),
            r@ == Map::<Seq<u8>, DeviceDataView>::empty(),
    {
        DevicesStore::new()
    }
}

impl DevicesStore {
    /// An empty registry.
    pub fn new() -> (r: DevicesStore)
        ensures
            r.wf(),
            r@ == Map::<Seq<u8>, DeviceDataView>::empty(),
    {
        DevicesStore { devices: Devices::new() }
    }

    pub open spec fn wf(&self) -> bool {
        self.devices.wf()
    }

    /// The user owns a device record.
    pub fn is_user_registered(&self, user: &Identity) -> (r: bool)
        ensures
            r == self@.contains_key(user@),
    {
        self.devices.is_registered(user)
    }

    /// All (alias, public key) pairs of the caller; empty when unknown.
    pub fn get_devices(&self, caller: &Identity) -> (r: Vec<(DeviceAlias, PublicKey)>)
        requires
            self.wf(),
        ensures
            self@.contains_key(caller@) ==> map_of(r@) == self@[caller@].aliases && uniq_keys(r@),
            !self@.contains_key(caller@) ==> r@.len() == 0,
    {
        proof {
            lemma_map_of_dom(self.devices.devices@);
        }
        match find_id(&self.devices.devices, caller) {
            Some(i) => {
                proof {
                    lemma_map_of_index(self.devices.devices@, i as int);
                }
                strmap::clone_pairs(&self.devices.devices[i].1.aliases)
            },
            None => Vec::new(),
        }
    }

    /// Registers a device and, for a brand-new identity, assigns its note
    /// collection in the same step.  Returns `false`, changing nothing, when
    /// the alias is already taken (the explicit-collision policy of this
    /// variant), so an alias is never re-bound to a different key.
    pub fn register_device(
        &mut self,
        notes: &mut NotesStore,
        caller: &Identity,
        device_alias: DeviceAlias,
        public_key: PublicKey,
    ) -> (r: bool)
        requires
            old(self).wf(),
            old(notes).wf(),
            coupled(*old(self), *old(notes)),
        ensures
            final(self).wf(),
            final(notes).wf(),
            coupled(*final(self), *final(notes)),
            final(notes).counter() == old(notes).counter(),
            r == !(old(self)@.contains_key(caller@) && old(self)@[caller@].aliases.contains_key(
                device_alias@,
            )),
            final(self)@ == (if old(self)@.contains_key(caller@) {
                if old(self)@[caller@].aliases.contains_key(device_alias@) {
                    old(self)@
                } else {
                    old(self)@.insert(
                        caller@,
                        (DeviceDataView {
                            aliases: old(self)@[caller@].aliases.insert(device_alias@, public_key@),
                            keys: old(self)@[caller@].keys,
                        }),
                    )
                }
            } else {
                old(self)@.insert(
                    caller@,
                    (DeviceDataView {
                        aliases: Map::<Seq<char>, Seq<char>>::empty().insert(
                            device_alias@,
                            public_key@,
                        ),
                        keys: Map::<Seq<char>, Seq<char>>::empty(),
                    }),
                )
            }),
            final(notes)@ == (if old(self)@.contains_key(caller@) {
                old(notes)@
            } else {
                old(notes)@.insert(caller@, Seq::<NoteView>::empty())
            }),
    {
        let first = !self.devices.is_registered(caller);
        let taken = self.devices.has_alias(caller, &device_alias);
        self.devices.register_device(caller, device_alias, public_key);
        if first {
            notes.assign_note(caller);
        }
        proof {
            assert forall|id: Seq<u8>| #[trigger] self@.contains_key(id) implies notes@.contains_key(
                id,
            ) by {
                if id != caller@ {
                    assert(old(self)@.contains_key(id));
                }
            }
            assert forall|id: Seq<u8>| #[trigger] notes@.contains_key(id) implies self@.contains_key(
                id,
            ) by {
                if id != caller@ {
                    assert(old(notes)@.contains_key(id));
                }
            }
        }
        !taken
    }

    /// Deletes the device registered under `device_alias`; unknown users and
    /// aliases are silent no-ops, and the orphaned ledger entry goes with
    /// the alias.  Stripping a user of their last device is excluded by
    /// contract; the boundary refuses it via `try_delete_device`.
    pub fn delete_device(&mut self, caller: &Identity, device_alias: DeviceAlias)
        requires
            old(self).wf(),
            old(self)@.contains_key(caller@) ==> !sole_alias(old(self)@[caller@], device_alias@),
        ensures
            final(self).wf(),
            final(self)@ == spec_delete_device(old(self)@, caller@, device_alias@),
    {
        self.devices.delete_device(caller, &device_alias);
    }

    /// Boundary form of the deletion: refuses, instead of trapping, the call
    /// that would strip a user of their last device.
    pub fn try_delete_device(&mut self, caller: &Identity, device_alias: DeviceAlias) -> (r: bool)
        requires
            old(self).wf(),
        ensures
            final(self).wf(),
            r == !(old(self)@.contains_key(caller@) && sole_alias(
                old(self)@[caller@],
                device_alias@,
            )),
            r ==> final(self)@ == spec_delete_device(old(self)@, caller@, device_alias@),
            !r ==> *final(self) == *old(self),
    {
        self.devices.try_delete_device(caller, &device_alias)
    }

    /// The caller's device is the seed exactly when the ledger is still
    /// empty: no device has received the symmetric key yet, so the caller
    /// must generate it rather than fetch it.
    pub fn is_seed(&self, caller: &Identity) -> (r: Result<bool, SecretError>)
        requires
            self.wf(),
        ensures
            match r {
                Ok(b) => self@.contains_key(caller@) && b == (self@[caller@].keys == Map::<
                    Seq<char>,
                    Seq<char>,
                >::empty()),
                Err(e) => e == SecretError::DeviceNotRegistered && !self@.contains_key(caller@),
            },
    {
        proof {
            lemma_map_of_dom(self.devices.devices@);
        }
        match find_id(&self.devices.devices, caller) {
            None => Err(SecretError::DeviceNotRegistered),
            Some(i) => {
                proof {
                    lemma_map_of_index(self.devices.devices@, i as int);
                    let ks = self.devices.devices@[i as int].1.keys@;
                    if ks.len() > 0 {
                        lemma_map_of_index(ks, ks.len() - 1);
                        assert(map_of(ks).contains_key(ks.last().0@));
                    }
                }
                Ok(self.devices.devices[i].1.keys.len() == 0)
            },
        }
    }

    /// The seed upload: stores the first ledger entry, the symmetric key the
    /// seed device generated and encrypted under its own public key.  Valid
    /// exactly once per user; a non-empty ledger refuses the call with
    /// `AlreadyRegistered` and keeps its first entry untouched.
    pub fn upload_seed_secret(
        &mut self,
        caller: &Identity,
        public_key: PublicKey,
        encrypted_secret: EncryptedSecret,
    ) -> (r: UploadSecretResult)
        requires
            old(self).wf(),
        ensures
            final(self).wf(),
            match r {
                Ok(u) => old(self)@.contains_key(caller@) && in_values(
                    old(self)@[caller@].aliases,
                    public_key@,
                ) && old(self)@[caller@].keys == Map::<Seq<char>, Seq<char>>::empty() && final(self)@ == old(self)@.insert(
                    caller@,
                    (DeviceDataView {
                        aliases: old(self)@[caller@].aliases,
                        keys: old(self)@[caller@].keys.insert(public_key@, encrypted_secret@),
                    }),
                ),
                Err(e) => *final(self) == *old(self) && match e {
                    SecretError::DeviceNotRegistered => !old(self)@.contains_key(caller@),
                    SecretError::Unknown => old(self)@.contains_key(caller@) && !in_values(
                        old(self)@[caller@].aliases,
                        public_key@,
                    ),
                    SecretError::AlreadyRegistered => old(self)@.contains_key(caller@)
                        && in_values(old(self)@[caller@].aliases, public_key@) && old(self)@[caller@].keys != Map::<Seq<char>, Seq<char>>::empty(),
                    SecretError::NotSynced => false,
                },
            },
    {
        match self.devices.register_encrypted_symmetric_key(caller, public_key, encrypted_secret) {
            Ok(u) => Ok(u),
            Err(DeviceError::DeviceNotRegistered) => Err(SecretError::DeviceNotRegistered),
            Err(DeviceError::UnknownPublicKey) => Err(SecretError::Unknown),
            Err(DeviceError::AlreadyRegistered) => Err(SecretError::AlreadyRegistered),
            Err(DeviceError::KeyNotSynchronized) => Err(SecretError::NotSynced),
        }
    }

    /// The public keys still waiting for the secret; empty when the caller
    /// is unknown or fully synced.
    pub fn get_unsynced_public_keys(&self, caller: &Identity) -> (r: Vec<PublicKey>)
        requires
            self.wf(),
        ensures
            forall|pk: Seq<char>|
                #[trigger] crate::strmap::contains_str(r@, pk) <==> (self@.contains_key(caller@)
                    && in_values(self@[caller@].aliases, pk) && !self@[caller@].keys.contains_key(
                    pk,
                )),
    {
        self.devices.unsynced_keys(caller)
    }

    /// Batch push by an already-synced device: all-or-nothing, the first
    /// unknown public key aborts with no partial writes, and entries whose
    /// key is already in the ledger are left as they are.
    pub fn upload_encrypted_secrets(
        &mut self,
        caller: &Identity,
        keys: Vec<(PublicKey, EncryptedSecret)>,
    ) -> (r: UploadSecretResult)
        requires
            old(self).wf(),
        ensures
            final(self).wf(),
            match r {
                Ok(u) => old(self)@.contains_key(caller@) && (forall|x: int|
                    0 <= x < keys@.len() ==> in_values(
                        old(self)@[caller@].aliases,
                        (#[trigger] keys@[x]).0@,
                    )) && final(self)@ == old(self)@.insert(
                    caller@,
                    (DeviceDataView {
                        aliases: old(self)@[caller@].aliases,
                        keys: spec_add_entries(old(self)@[caller@].keys, keys.deep_view()),
                    }),
                ),
                Err(e) => *final(self) == *old(self) && match e {
                    SecretError::DeviceNotRegistered => !old(self)@.contains_key(caller@),
                    SecretError::Unknown => old(self)@.contains_key(caller@) && (exists|x: int|
                        0 <= x < keys@.len() && !in_values(
                            old(self)@[caller@].aliases,
                            (#[trigger] keys@[x]).0@,
                        )),
                    SecretError::AlreadyRegistered => false,
                    SecretError::NotSynced => false,
                },
            },
    {
        match self.devices.upload_encrypted_symmetric_keys(caller, keys) {
            Ok(u) => Ok(u),
            Err(DeviceError::DeviceNotRegistered) => Err(SecretError::DeviceNotRegistered),
            Err(DeviceError::UnknownPublicKey) => Err(SecretError::Unknown),
            Err(DeviceError::AlreadyRegistered) => Err(SecretError::AlreadyRegistered),
            Err(DeviceError::KeyNotSynchronized) => Err(SecretError::NotSynced),
        }
    }

    /// The encrypted secret stored for `public_key`: the call a joining
    /// device polls until an already-synced device has pushed the secret.
    pub fn get_encrypted_secrets(
        &self,
        caller: &Identity,
        public_key: PublicKey,
    ) -> (r: GetSecretResult)
        requires
            self.wf(),
        ensures
            match r {
                Ok(sk) => self@.contains_key(caller@) && in_values(
                    self@[caller@].aliases,
                    public_key@,
                ) && self@[caller@].keys.contains_key(public_key@) && sk@ == self@[caller@].keys[public_key@],
                Err(e) => match e {
                    SecretError::DeviceNotRegistered => !self@.contains_key(caller@),
                    SecretError::Unknown => self@.contains_key(caller@) && !in_values(
                        self@[caller@].aliases,
                        public_key@,
                    ),
                    SecretError::NotSynced => self@.contains_key(caller@) && in_values(
                        self@[caller@].aliases,
                        public_key@,
                    ) && !self@[caller@].keys.contains_key(public_key@),
                    SecretError::AlreadyRegistered => false,
                },
            },
    {
        match self.devices.lookup_secret(caller, &public_key) {
            Ok(sk) => Ok(sk),
            Err(DeviceError::DeviceNotRegistered) => Err(SecretError::DeviceNotRegistered),
            Err(DeviceError::UnknownPublicKey) => Err(SecretError::Unknown),
            Err(DeviceError::AlreadyRegistered) => Err(SecretError::AlreadyRegistered),
            Err(DeviceError::KeyNotSynchronized) => Err(SecretError::NotSynced),
        }
    }
}

} // verus!
