//! The device registry and secret distribution ledger.
//!
//! Every identity owns a set of devices, each under an alias that is unique
//! for that identity and carrying a device-generated public key.  Beside the
//! aliases lives the ledger: for each public key that has already received
//! the (client-encrypted) symmetric note key, the ledger stores that opaque
//! blob.  The ledger never holds a key that no alias references, and an
//! identity with a record always keeps at least one alias.
//!
//! An empty ledger means the identity is still in its seed phase: the first
//! device must generate the symmetric key itself and upload it encrypted
//! under its own public key, exactly once.  Devices that join later poll
//! until an already-synced device pushes the secret re-encrypted for them.

use vstd::prelude::*;
use crate::assoc::{
    map_of, has_key, uniq_keys, in_values, lemma_map_of_dom, lemma_map_of_index,
    lemma_map_of_push, lemma_map_of_update, lemma_map_of_remove, lemma_map_of_values,
};
use crate::identity::Identity;
use crate::strmap;

verus! {

pub type DeviceAlias = String;

pub type PublicKey = String;

pub type EncryptedSymmetricKey = String;

/// Recoverable, caller-visible failures of the registry and ledger.
#[derive(Debug, PartialEq, Eq, Structural)]
pub enum DeviceError {
    AlreadyRegistered,
    DeviceNotRegistered,
    KeyNotSynchronized,
    UnknownPublicKey,
}

pub type RegisterKeyResult = Result<(), DeviceError>;

pub type SynchronizeKeyResult = Result<EncryptedSymmetricKey, DeviceError>;

/// One identity's devices: the alias registry and the secret ledger.
pub struct DeviceData {
    /// device alias -> public key of that device
    pub aliases: Vec<(DeviceAlias, PublicKey)>,
    /// public key -> symmetric key encrypted under it
    pub keys: Vec<(PublicKey, EncryptedSymmetricKey)>,
}

/// The mathematical reading of a `DeviceData`.
pub ghost struct DeviceDataView {
    pub aliases: Map<Seq<char>, Seq<char>>,
    pub keys: Map<Seq<char>, Seq<char>>,
}

impl DeepView for DeviceData {
    type V = DeviceDataView;

    open spec fn deep_view(&self) -> DeviceDataView {
        DeviceDataView { aliases: map_of(self.aliases@), keys: map_of(self.keys@) }
    }
}

/// `a` is the one and only alias of the record.
pub open spec fn sole_alias(dd: DeviceDataView, a: Seq<char>) -> bool {
    dd.aliases.contains_key(a) && (forall|b: Seq<char>|
        #[trigger] dd.aliases.contains_key(b) ==> b == a)
}

/// The abstract effect of deleting alias `a` of identity `id`: the alias
/// goes, and the ledger entry of its public key goes with it unless another
/// alias of the same identity still references that key.
pub open spec fn spec_delete_device(
    m: Map<Seq<u8>, DeviceDataView>,
    id: Seq<u8>,
    a: Seq<char>,
) -> Map<Seq<u8>, DeviceDataView> {
    if m.contains_key(id) && m[id].aliases.contains_key(a) {
        let pk = m[id].aliases[a];
        let aliases2 = m[id].aliases.remove(a);
        let keys2 = if in_values(aliases2, pk) {
            m[id].keys
        } else {
            m[id].keys.remove(pk)
        };
        m.insert(id, (DeviceDataView { aliases: aliases2, keys: keys2 }))
    } else {
        m
    }
}

/// The ledger after pushing a batch: entries are added left to right and an
/// already-present key keeps its stored secret (a re-push never overwrites).
pub open spec fn spec_add_entries(
    m: Map<Seq<char>, Seq<char>>,
    entries: Seq<(Seq<char>, Seq<char>)>,
) -> Map<Seq<char>, Seq<char>>
    decreases entries.len(),
{
    if entries.len() == 0 {
        m
    } else {
        let prev = spec_add_entries(m, entries.drop_last());
        if prev.contains_key(entries.last().0) {
            prev
        } else {
            prev.insert(entries.last().0, entries.last().1)
        }
    }
}

/// Some alias entry carries public key `pk`.
pub open spec fn key_of_some_alias(aliases: Seq<(DeviceAlias, PublicKey)>, pk: Seq<char>) -> bool {
    exists|j: int| 0 <= j < aliases.len() && (#[trigger] aliases[j]).1@ == pk
}

impl DeviceData {
    /// Internal consistency of one identity's record: unique aliases, unique
    /// ledger keys, at least one device, and no ledger entry without a
    /// referencing alias.
    pub open spec fn wf(&self) -> bool {
        &&& uniq_keys(self.aliases@)
        &&& uniq_keys(self.keys@)
        &&& self.aliases@.len() >= 1
        &&& forall|i: int|
            0 <= i < self.keys@.len() ==> key_of_some_alias(
                self.aliases@,
                (#[trigger] self.keys@[i]).0@,
            )
    }
}

/// The device registry of all identities.
pub struct Devices {
    pub devices: Vec<(Identity, DeviceData)>,
}

impl View for Devices {
    type V = Map<Seq<u8>, DeviceDataView>;

    open spec fn view(&self) -> Map<Seq<u8>, DeviceDataView> {
        map_of(self.devices@)
    }
}

/// Position of the record owned by `id`, if any.
pub fn find_id<V>(v: &Vec<(Identity, V)>, id: &Identity) -> (r: Option<usize>)
    ensures
        match r {
            Some(i) => i < v@.len() && v@[i as int].0@ == id@,
            None => forall|j: int| 0 <= j < v@.len() ==> (#[trigger] v@[j]).0@ != id@,
        },
{
    let mut i: usize = 0;
    while i < v.len()
        invariant
            i <= v.len(),
            forall|j: int| 0 <= j < i ==> (#[trigger] v@[j]).0@ != id@,
        decreases v.len() - i,
    {
        if v[i].0.same_as(id) {
            return Some(i);
        }
        i += 1;
    }
    None
}

impl Default for Devices {
    fn default() -> (r: Devices)
        ensures
            r.wf(),
            r@ == Map::<Seq<u8>, DeviceDataView>::empty(),
    {
        Devices::new()
    }
}

impl Devices {
    /// An empty registry.
    pub fn new() -> (r: Devices)
        ensures
            r.wf(),
            r@ == Map::<Seq<u8>, DeviceDataView>::empty(),
    {
        Devices { devices: Vec::new() }
    }

    /// Every record is well formed and no identity owns two records.
    pub open spec fn wf(&self) -> bool {
        &&& uniq_keys(self.devices@)
        &&& forall|i: int| 0 <= i < self.devices@.len() ==> (#[trigger] self.devices@[i]).1.wf()
    }

    /// The caller owns a record.
    pub fn is_registered(&self, caller: &Identity) -> (r: bool)
        ensures
            r == self@.contains_key(caller@),
    {
        proof {
            lemma_map_of_dom(self.devices@);
        }
        find_id(&self.devices, caller).is_some()
    }

    /// Registers a device under `alias`.  A brand-new identity gets a fresh
    /// record whose sole entry is this device and an empty ledger; a known
    /// identity gains the alias if it is unused.  Registration under an
    /// already-taken alias is a silent no-op (the pinned policy), so an
    /// existing alias is never re-bound to a different key.
    pub fn register_device(&mut self, caller: &Identity, alias: DeviceAlias, public_key: PublicKey)
        requires
            old(self).wf(),
        ensures
            final(self).wf(),
            final(self)@ == (if old(self)@.contains_key(caller@) {
                if old(self)@[caller@].aliases.contains_key(alias@) {
                    old(self)@
                } else {
                    old(self)@.insert(
                        caller@,
                        (DeviceDataView {
                            aliases: old(self)@[caller@].aliases.insert(alias@, public_key@),
                            keys: old(self)@[caller@].keys,
                        }),
                    )
                }
            } else {
                old(self)@.insert(
                    caller@,
                    (DeviceDataView {
                        aliases: Map::<Seq<char>, Seq<char>>::empty().insert(alias@, public_key@),
                        keys: Map::<Seq<char>, Seq<char>>::empty(),
                    }),
                )
            }),
    {
        proof {
            lemma_map_of_dom(self.devices@);
        }
        match find_id(&self.devices, caller) {
            Some(i) => {
                proof {
                    lemma_map_of_index(self.devices@, i as int);
                    lemma_map_of_dom(self.devices@[i as int].1.aliases@);
                }
                match strmap::find_key(&self.devices[i].1.aliases, &alias) {
                    Some(_) => {
                        proof {
                            assert(old(self)@[caller@].aliases.contains_key(alias@));
                        }
                    },
                    None => {
                        let ghost old_seq = self.devices@;
                        let ghost old_aliases = self.devices@[i as int].1.aliases@;
                        self.devices[i].1.aliases.push((alias, public_key));
                        proof {
                            let p = self.devices@[i as int];
                            assert(p.1.aliases@ =~= old_aliases.push((alias, public_key)));
                            lemma_map_of_push(old_aliases, p.1.aliases@.last().0, p.1.aliases@.last().1);
                            assert(old_aliases.push(p.1.aliases@.last()) =~= p.1.aliases@);
                            lemma_map_of_update(old_seq, i as int, p);
                            assert(p.1.deep_view() == (DeviceDataView {
                                aliases: old(self)@[caller@].aliases.insert(alias@, public_key@),
                                keys: old(self)@[caller@].keys,
                            }));
                            assert forall|x: int, y: int|
                                0 <= x < y < p.1.aliases@.len() implies (#[trigger] p.1.aliases@[x]).0.deep_view()
                                    != (#[trigger] p.1.aliases@[y]).0.deep_view() by {
                                if y < p.1.aliases@.len() - 1 {
                                    assert(p.1.aliases@[x] == old_aliases[x]);
                                    assert(p.1.aliases@[y] == old_aliases[y]);
                                } else {
                                    assert(p.1.aliases@[x] == old_aliases[x]);
                                    assert(!has_key(old_aliases, alias@));
                                    assert(old_aliases[x].0.deep_view() != alias@);
                                }
                            }
                            assert forall|x: int|
                                0 <= x < p.1.keys@.len() implies key_of_some_alias(
                                    p.1.aliases@,
                                    (#[trigger] p.1.keys@[x]).0@,
                                ) by {
                                assert(old_seq[i as int].1.wf());
                                let j = choose|j: int|
                                    0 <= j < old_aliases.len() && (#[trigger] old_aliases[j]).1@
                                        == old_seq[i as int].1.keys@[x].0@;
                                assert(p.1.aliases@[j].1@ == p.1.keys@[x].0@);
                            }
                            assert(p.1.wf());
                            assert forall|x: int|
                                0 <= x < self.devices@.len() implies (#[trigger] self.devices@[x]).1.wf() by {
                                if x != i {
                                    assert(self.devices@[x] == old_seq[x]);
                                }
                            }
                        }
                    },
                }
            },
            None => {
                let mut data = DeviceData { aliases: Vec::new(), keys: Vec::new() };
                data.aliases.push((alias, public_key));
                proof {
                    let s1 = data.aliases@;
                    assert(s1.drop_last() =~= Seq::<(DeviceAlias, PublicKey)>::empty());
                    assert(map_of(s1.drop_last()) == Map::<Seq<char>, Seq<char>>::empty());
                    assert(s1.last() == (alias, public_key));
                    assert(map_of(s1) == Map::<Seq<char>, Seq<char>>::empty().insert(
                        alias@,
                        public_key@,
                    ));
                    assert(map_of(data.keys@) == Map::<Seq<char>, Seq<char>>::empty());
                }
                let ghost old_seq = self.devices@;
                self.devices.push((caller.clone(), data));
                proof {
                    let p = self.devices@.last();
                    lemma_map_of_push(old_seq, p.0, p.1);
                    assert(old_seq.push(p) =~= self.devices@);
                    assert(p.1.deep_view() == (DeviceDataView {
                        aliases: Map::<Seq<char>, Seq<char>>::empty().insert(alias@, public_key@),
                        keys: Map::<Seq<char>, Seq<char>>::empty(),
                    }));
                    assert forall|x: int|
                        0 <= x < self.devices@.len() implies (#[trigger] self.devices@[x]).1.wf() by {
                        if x < self.devices@.len() - 1 {
                            assert(self.devices@[x] == old_seq[x]);
                        }
                    }
                    assert forall|x: int, y: int|
                        0 <= x < y < self.devices@.len() implies (#[trigger] self.devices@[x]).0.deep_view()
                            != (#[trigger] self.devices@[y]).0.deep_view() by {
                        if y < self.devices@.len() - 1 {
                            assert(self.devices@[x] == old_seq[x]);
                            assert(self.devices@[y] == old_seq[y]);
                        } else {
                            assert(self.devices@[x] == old_seq[x]);
                        }
                    }
                }
            },
        }
    }
    /// The alias names registered for the caller, in registration order;
    /// empty when the caller has no record.
    pub fn get_device_aliases(&self, caller: &Identity) -> (r: Vec<DeviceAlias>)
        requires
            self.wf(),
        ensures
            forall|a: Seq<char>|
                #[trigger] crate::strmap::contains_str(r@, a) <==> (self@.contains_key(caller@)
                    && self@[caller@].aliases.contains_key(a)),
            forall|x: int, y: int| 0 <= x < y < r@.len() ==> r@[x]@ != r@[y]@,
            !self@.contains_key(caller@) ==> r@.len() == 0,
    {
        proof {
            lemma_map_of_dom(self.devices@);
        }
        match find_id(&self.devices, caller) {
            Some(i) => {
                proof {
                    lemma_map_of_index(self.devices@, i as int);
                    lemma_map_of_dom(self.devices@[i as int].1.aliases@);
                }
                let device_data = &self.devices[i].1;
                let mut out: Vec<DeviceAlias> = Vec::new();
                let mut j: usize = 0;
                while j < device_data.aliases.len()
                    invariant
                        j <= device_data.aliases.len(),
                        out@.len() == j,
                        forall|x: int| 0 <= x < j ==> (#[trigger] out@[x])@ == device_data.aliases@[x].0@,
                    decreases device_data.aliases.len() - j,
                {
                    out.push(device_data.aliases[j].0.clone());
                    j += 1;
                }
                proof {
                    assert forall|a: Seq<char>| #[trigger] crate::strmap::contains_str(out@, a)
                        implies self@[caller@].aliases.contains_key(a) by {
                        let x = choose|x: int| 0 <= x < out@.len() && (#[trigger] out@[x])@ == a;
                        assert(device_data.aliases@[x].0.deep_view() == a);
                    }
                    assert forall|a: Seq<char>| self@[caller@].aliases.contains_key(a)
                        implies #[trigger] crate::strmap::contains_str(out@, a) by {
                        let x = choose|x: int|
                            0 <= x < device_data.aliases@.len() && (#[trigger] device_data.aliases@[x]).0.deep_view() == a;
                        assert(out@[x]@ == a);
                    }
                    assert forall|x: int, y: int| 0 <= x < y < out@.len() implies out@[x]@ != out@[y]@ by {
                        assert(device_data.aliases@[x].0.deep_view() != device_data.aliases@[y].0.deep_view());
                    }
                }
                out
            },
            None => {
                Vec::new()
            },
        }
    }

    /// Some alias of this record carries `public_key`.
    fn is_registered_public_key(device_data: &DeviceData, public_key: &PublicKey) -> (r: bool)
        requires
            device_data.wf(),
        ensures
            r == in_values(device_data.deep_view().aliases, public_key@),
    {
        proof {
            lemma_map_of_values(device_data.aliases@);
        }
        strmap::find_value(&device_data.aliases, public_key).is_some()
    }

    /// The caller's ledger already holds at least one encrypted symmetric
    /// key; a caller in this state must not call the seed upload again.
    pub fn is_encrypted_symmetric_key_registered(&self, caller: &Identity) -> (r: bool)
        requires
            self.wf(),
        ensures
            r == (self@.contains_key(caller@) && self@[caller@].keys != Map::<
                Seq<char>,
                Seq<char>,
            >::empty()),
    {
        proof {
            lemma_map_of_dom(self.devices@);
        }
        match find_id(&self.devices, caller) {
            Some(i) => {
                proof {
                    lemma_map_of_index(self.devices@, i as int);
                    let ks = self.devices@[i as int].1.keys@;
                    if ks.len() > 0 {
                        lemma_map_of_index(ks, ks.len() - 1);
                        assert(map_of(ks).contains_key(ks.last().0@));
                    }
                }
                self.devices[i].1.keys.len() > 0
            },
            None => false,
        }
    }

    /// Deletes the device registered under `alias`; unknown identities and
    /// unknown aliases are silent no-ops.  The ledger entry of the device's
    /// public key is dropped too, unless another remaining alias still
    /// references that key.  Deleting the sole remaining alias would violate
    /// the minimum-one-device invariant and is excluded by contract; the
    /// boundary uses `try_delete_device` to refuse such a call.
    pub fn delete_device(&mut self, caller: &Identity, alias: &DeviceAlias)
        requires
            old(self).wf(),
            old(self)@.contains_key(caller@) ==> !sole_alias(old(self)@[caller@], alias@),
        ensures
            final(self).wf(),
            final(self)@ == spec_delete_device(old(self)@, caller@, alias@),
    {
        proof {
            lemma_map_of_dom(self.devices@);
        }
        match find_id(&self.devices, caller) {
            None => {},
            Some(i) => {
                proof {
                    lemma_map_of_index(self.devices@, i as int);
                    lemma_map_of_dom(self.devices@[i as int].1.aliases@);
                }
                match strmap::find_key(&self.devices[i].1.aliases, alias) {
                    None => {},
                    Some(j) => {
                        let ghost old_seq = self.devices@;
                        let ghost old_aliases = self.devices@[i as int].1.aliases@;
                        let ghost old_keys = self.devices@[i as int].1.keys@;
                        proof {
                            lemma_map_of_index(old_aliases, j as int);
                            lemma_map_of_remove(old_aliases, j as int);
                        }
                        let removed = self.devices[i].1.aliases.remove(j);
                        let public_key = removed.1;
                        proof {
                            lemma_map_of_values(self.devices@[i as int].1.aliases@);
                        }
                        let other = strmap::find_value(&self.devices[i].1.aliases, &public_key);
                        if other.is_none() {
                            match strmap::find_key(&self.devices[i].1.keys, &public_key) {
                                Some(kj) => {
                                    proof {
                                        lemma_map_of_index(old_keys, kj as int);
                                        lemma_map_of_remove(old_keys, kj as int);
                                    }
                                    self.devices[i].1.keys.remove(kj);
                                },
                                None => {
                                    proof {
                                        lemma_map_of_dom(old_keys);
                                        assert(map_of(old_keys).remove(public_key@) =~= map_of(
                                            old_keys,
                                        ));
                                    }
                                },
                            }
                        }
                        proof {
                            let p = self.devices@[i as int];
                            assert(self.devices@ =~= old_seq.update(i as int, p));
                            lemma_map_of_update(old_seq, i as int, p);
                            let ghost pk = public_key@;
                            let ghost aliases2 = old(self)@[caller@].aliases.remove(alias@);
                            // the two branches yield exactly the ledger the
                            // abstract deletion prescribes
                            if other is Some {
                                assert(in_values(aliases2, pk));
                            } else {
                                lemma_map_of_dom(p.1.aliases@);
                                assert forall|k: Seq<char>| #[trigger] aliases2.dom().contains(k)
                                    implies aliases2[k] != pk by {
                                    let y = choose|y: int|
                                        0 <= y < p.1.aliases@.len() && (#[trigger] p.1.aliases@[y]).0.deep_view() == k;
                                    lemma_map_of_index(p.1.aliases@, y);
                                }
                                assert(!in_values(aliases2, pk));
                            }
                            assert(p.1.deep_view() == (DeviceDataView {
                                aliases: aliases2,
                                keys: spec_delete_device(old(self)@, caller@, alias@)[caller@].keys,
                            }));
                            // well-formedness of the shrunk record
                            assert(!sole_alias(old(self)@[caller@], alias@));
                            let b = choose|b: Seq<char>|
                                #[trigger] old(self)@[caller@].aliases.contains_key(b) && b
                                    != alias@;
                            let bx = choose|bx: int|
                                0 <= bx < old_aliases.len() && (#[trigger] old_aliases[bx]).0.deep_view() == b;
                            assert(bx != j);
                            assert(p.1.aliases@.len() >= 1);
                            assert forall|x: int|
                                0 <= x < p.1.keys@.len() implies key_of_some_alias(
                                    p.1.aliases@,
                                    (#[trigger] p.1.keys@[x]).0@,
                                ) by {
                                let kv = p.1.keys@[x].0@;
                                // locate the surviving entry in the old ledger
                                let x0: int = if other is None && p.1.keys@.len() < old_keys.len() {
                                    let kj = choose|kj: int|
                                        0 <= kj < old_keys.len() && (#[trigger] old_keys[kj]).0@
                                            == pk;
                                    if x < kj {
                                        x
                                    } else {
                                        x + 1
                                    }
                                } else {
                                    x
                                };
                                assert(old_keys[x0] == p.1.keys@[x]);
                                assert(old_seq[i as int].1.wf());
                                let w = choose|w: int|
                                    0 <= w < old_aliases.len() && (#[trigger] old_aliases[w]).1@
                                        == kv;
                                if w == j {
                                    // the removed alias carried `kv`, so `kv`
                                    // is the deleted key and another alias
                                    // still references it
                                    assert(kv == pk);
                                    if other is None {
                                        // all entries under `pk` were removed
                                        assert(false);
                                    }
                                } else {
                                    let y: int = if w < j {
                                        w
                                    } else {
                                        w - 1
                                    };
                                    assert(p.1.aliases@[y] == old_aliases[w]);
                                }
                            }
                            assert(p.1.wf());
                            assert forall|x: int|
                                0 <= x < self.devices@.len() implies (#[trigger] self.devices@[x]).1.wf() by {
                                if x != i {
                                    assert(self.devices@[x] == old_seq[x]);
                                }
                            }
                        }
                    },
                }
            },
        }
    }

    /// Boundary form of the deletion: refuses, instead of trapping, the call
    /// that would strip an identity of its last device, and reports whether
    /// the deletion was carried out.  On refusal the state is untouched.
    pub fn try_delete_device(&mut self, caller: &Identity, alias: &DeviceAlias) -> (r: bool)
        requires
            old(self).wf(),
        ensures
            final(self).wf(),
            r == !(old(self)@.contains_key(caller@) && sole_alias(old(self)@[caller@], alias@)),
            r ==> final(self)@ == spec_delete_device(old(self)@, caller@, alias@),
            !r ==> *final(self) == *old(self),
    {
        proof {
            lemma_map_of_dom(self.devices@);
        }
        let blocked = match find_id(&self.devices, caller) {
            Some(i) => {
                proof {
                    lemma_map_of_index(self.devices@, i as int);
                    lemma_map_of_dom(self.devices@[i as int].1.aliases@);
                }
                match strmap::find_key(&self.devices[i].1.aliases, alias) {
                    Some(j) => {
                        let sole = self.devices[i].1.aliases.len() == 1;
                        proof {
                            let als = self.devices@[i as int].1.aliases@;
                            if sole {
                                assert forall|b: Seq<char>|
                                    #[trigger] old(self)@[caller@].aliases.contains_key(b) implies b
                                    == alias@ by {
                                    let y = choose|y: int|
                                        0 <= y < als.len() && (#[trigger] als[y]).0.deep_view()
                                            == b;
                                    assert(y == 0);
                                    assert(als[j as int].0@ == alias@);
                                }
                            } else {
                                let z: int = if j == 0 {
                                    1
                                } else {
                                    0
                                };
                                assert(als[z].0.deep_view() != alias@);
                                assert(old(self)@[caller@].aliases.contains_key(
                                    als[z].0.deep_view(),
                                ));
                            }
                        }
                        sole
                    },
                    None => false,
                }
            },
            None => false,
        };
        if blocked {
            false
        } else {
            self.delete_device(caller, alias);
            true
        }
    }

    /// Hands back the encrypted symmetric key stored for `public_key`, the
    /// call a joining device polls until an already-synced device has pushed
    /// the secret for it.
    /// Shared lookup behind `get_encrypted_symmetric_key` and the other
    /// store variant's secret query.
    pub(crate) fn lookup_secret(
        &self,
        caller: &Identity,
        public_key: &PublicKey,
    ) -> (r: SynchronizeKeyResult)
        requires
            self.wf(),
        ensures
            match r {
                Ok(sk) => self@.contains_key(caller@) && in_values(
                    self@[caller@].aliases,
                    public_key@,
                ) && self@[caller@].keys.contains_key(public_key@) && sk@ == self@[caller@].keys[public_key@],
                Err(e) => match e {
                    DeviceError::DeviceNotRegistered => !self@.contains_key(caller@),
                    DeviceError::UnknownPublicKey => self@.contains_key(caller@)
                        && !in_values(self@[caller@].aliases, public_key@),
                    DeviceError::KeyNotSynchronized => self@.contains_key(caller@)
                        && in_values(self@[caller@].aliases, public_key@) && !self@[caller@].keys.contains_key(public_key@),
                    DeviceError::AlreadyRegistered => false,
                },
            },
    {
        proof {
            lemma_map_of_dom(self.devices@);
        }
        match find_id(&self.devices, caller) {
            Some(i) => {
                proof {
                    lemma_map_of_index(self.devices@, i as int);
                    lemma_map_of_dom(self.devices@[i as int].1.keys@);
                }
                let device_data = &self.devices[i].1;
                if !Self::is_registered_public_key(device_data, public_key) {
                    return Err(DeviceError::UnknownPublicKey);
                }
                match strmap::find_key(&device_data.keys, public_key) {
                    Some(j) => {
                        proof {
                            lemma_map_of_index(device_data.keys@, j as int);
                        }
                        Ok(device_data.keys[j].1.clone())
                    },
                    None => Err(DeviceError::KeyNotSynchronized),
                }
            },
            None => Err(DeviceError::DeviceNotRegistered),
        }
    }

    /// Hands back the encrypted symmetric key stored for `public_key`, the
    /// call a joining device polls until an already-synced device has pushed
    /// the secret for it.
    pub fn get_encrypted_symmetric_key(
        &mut self,
        caller: &Identity,
        public_key: &PublicKey,
    ) -> (r: SynchronizeKeyResult)
        requires
            old(self).wf(),
        ensures
            *final(self) == *old(self),
            match r {
                Ok(sk) => old(self)@.contains_key(caller@) && in_values(
                    old(self)@[caller@].aliases,
                    public_key@,
                ) && old(self)@[caller@].keys.contains_key(public_key@) && sk@ == old(self)@[caller@].keys[public_key@],
                Err(e) => match e {
                    DeviceError::DeviceNotRegistered => !old(self)@.contains_key(caller@),
                    DeviceError::UnknownPublicKey => old(self)@.contains_key(caller@)
                        && !in_values(old(self)@[caller@].aliases, public_key@),
                    DeviceError::KeyNotSynchronized => old(self)@.contains_key(caller@)
                        && in_values(old(self)@[caller@].aliases, public_key@) && !old(self)@[caller@].keys.contains_key(public_key@),
                    DeviceError::AlreadyRegistered => false,
                },
            },
    {
        self.lookup_secret(caller, public_key)
    }

    /// The record exists and already uses `alias`.
    pub fn has_alias(&self, caller: &Identity, alias: &DeviceAlias) -> (r: bool)
        requires
            self.wf(),
        ensures
            r == (self@.contains_key(caller@) && self@[caller@].aliases.contains_key(alias@)),
    {
        proof {
            lemma_map_of_dom(self.devices@);
        }
        match find_id(&self.devices, caller) {
            Some(i) => {
                proof {
                    lemma_map_of_index(self.devices@, i as int);
                    lemma_map_of_dom(self.devices@[i as int].1.aliases@);
                }
                strmap::find_key(&self.devices[i].1.aliases, alias).is_some()
            },
            None => false,
        }
    }
    /// The seed upload: stores the very first ledger entry, the symmetric
    /// key that the seed device generated and encrypted under its own public
    /// key.  Valid exactly once per identity; a non-empty ledger refuses the
    /// call and keeps its first entry untouched.
    pub fn register_encrypted_symmetric_key(
        &mut self,
        caller: &Identity,
        public_key: PublicKey,
        encrypted_symmetric_key: EncryptedSymmetricKey,
    ) -> (r: RegisterKeyResult)
        requires
            old(self).wf(),
        ensures
            final(self).wf(),
            match r {
                Ok(u) => old(self)@.contains_key(caller@) && in_values(
                    old(self)@[caller@].aliases,
                    public_key@,
                ) && old(self)@[caller@].keys == Map::<Seq<char>, Seq<char>>::empty() && final(self)@ == old(self)@.insert(
                    caller@,
                    (DeviceDataView {
                        aliases: old(self)@[caller@].aliases,
                        keys: old(self)@[caller@].keys.insert(
                            public_key@,
                            encrypted_symmetric_key@,
                        ),
                    }),
                ),
                Err(e) => *final(self) == *old(self) && match e {
                    DeviceError::DeviceNotRegistered => !old(self)@.contains_key(caller@),
                    DeviceError::UnknownPublicKey => old(self)@.contains_key(caller@)
                        && !in_values(old(self)@[caller@].aliases, public_key@),
                    DeviceError::AlreadyRegistered => old(self)@.contains_key(caller@)
                        && in_values(old(self)@[caller@].aliases, public_key@) && old(self)@[caller@].keys != Map::<Seq<char>, Seq<char>>::empty(),
                    DeviceError::KeyNotSynchronized => false,
                },
            },
    {
        proof {
            lemma_map_of_dom(self.devices@);
        }
        match find_id(&self.devices, caller) {
            None => Err(DeviceError::DeviceNotRegistered),
            Some(i) => {
                proof {
                    lemma_map_of_index(self.devices@, i as int);
                }
                if !Self::is_registered_public_key(&self.devices[i].1, &public_key) {
                    return Err(DeviceError::UnknownPublicKey);
                }
                if self.devices[i].1.keys.len() > 0 {
                    proof {
                        let ks = self.devices@[i as int].1.keys@;
                        lemma_map_of_index(ks, ks.len() - 1);
                        assert(map_of(ks).contains_key(ks.last().0@));
                    }
                    return Err(DeviceError::AlreadyRegistered);
                }
                let ghost old_seq = self.devices@;
                let ghost old_keys = self.devices@[i as int].1.keys@;
                let ghost old_aliases = self.devices@[i as int].1.aliases@;
                self.devices[i].1.keys.push((public_key, encrypted_symmetric_key));
                proof {
                    let p = self.devices@[i as int];
                    assert(p.1.keys@ =~= old_keys.push(p.1.keys@.last()));
                    lemma_map_of_push(old_keys, p.1.keys@.last().0, p.1.keys@.last().1);
                    lemma_map_of_update(old_seq, i as int, p);
                    assert(map_of(old_keys) == Map::<Seq<char>, Seq<char>>::empty());
                    assert(p.1.deep_view() == (DeviceDataView {
                        aliases: old(self)@[caller@].aliases,
                        keys: old(self)@[caller@].keys.insert(public_key@, encrypted_symmetric_key@),
                    }));
                    // the new sole ledger entry is backed by an alias
                    lemma_map_of_values(old_aliases);
                    assert forall|x: int|
                        0 <= x < p.1.keys@.len() implies key_of_some_alias(
                            p.1.aliases@,
                            (#[trigger] p.1.keys@[x]).0@,
                        ) by {
                        assert(x == 0);
                        assert(p.1.keys@[0].0@ == public_key@);
                    }
                    assert(p.1.wf());
                    assert forall|x: int|
                        0 <= x < self.devices@.len() implies (#[trigger] self.devices@[x]).1.wf() by {
                        if x != i {
                            assert(self.devices@[x] == old_seq[x]);
                        }
                    }
                }
                Ok(())
            },
        }
    }

    /// Batch push by an already-synced device: one entry per newly joined
    /// device, each the symmetric key re-encrypted under that device's
    /// public key.  All-or-nothing: the first unknown public key aborts the
    /// whole batch with no partial writes, and entries whose key is already
    /// in the ledger are left as they are.
    pub fn upload_encrypted_symmetric_keys(
        &mut self,
        caller: &Identity,
        keys: Vec<(PublicKey, EncryptedSymmetricKey)>,
    ) -> (r: RegisterKeyResult)
        requires
            old(self).wf(),
        ensures
            final(self).wf(),
            match r {
                Ok(u) => old(self)@.contains_key(caller@) && (forall|x: int|
                    0 <= x < keys@.len() ==> in_values(
                        old(self)@[caller@].aliases,
                        (#[trigger] keys@[x]).0@,
                    )) && final(self)@ == old(self)@.insert(
                    caller@,
                    (DeviceDataView {
                        aliases: old(self)@[caller@].aliases,
                        keys: spec_add_entries(old(self)@[caller@].keys, keys.deep_view()),
                    }),
                ),
                Err(e) => *final(self) == *old(self) && match e {
                    DeviceError::DeviceNotRegistered => !old(self)@.contains_key(caller@),
                    DeviceError::UnknownPublicKey => old(self)@.contains_key(caller@) && (exists|
                        x: int,
                    |
                        0 <= x < keys@.len() && !in_values(
                            old(self)@[caller@].aliases,
                            (#[trigger] keys@[x]).0@,
                        )),
                    DeviceError::AlreadyRegistered => false,
                    DeviceError::KeyNotSynchronized => false,
                },
            },
    {
        proof {
            lemma_map_of_dom(self.devices@);
        }
        match find_id(&self.devices, caller) {
            None => Err(DeviceError::DeviceNotRegistered),
            Some(i) => {
                proof {
                    lemma_map_of_index(self.devices@, i as int);
                    lemma_map_of_values(self.devices@[i as int].1.aliases@);
                }
                let mut x: usize = 0;
                while x < keys.len()
                    invariant
                        x <= keys@.len(),
                        i < self.devices@.len(),
                        old(self).wf(),
                        *self == *old(self),
                        self.devices@[i as int].0@ == caller@,
                        old(self)@[caller@] == self.devices@[i as int].1.deep_view(),
                        forall|y: int|
                            0 <= y < x ==> in_values(
                                old(self)@[caller@].aliases,
                                (#[trigger] keys@[y]).0@,
                            ),
                    decreases keys@.len() - x,
                {
                    proof {
                        lemma_map_of_values(self.devices@[i as int].1.aliases@);
                        lemma_map_of_dom(self.devices@);
                        assert(self.devices@[i as int].0.deep_view() == caller@);
                    }
                    if strmap::find_value(&self.devices[i].1.aliases, &keys[x].0).is_none() {
                        proof {
                            assert(old(self)@.contains_key(caller@));
                            assert(!in_values(old(self)@[caller@].aliases, keys@[x as int].0@));
                        }
                        return Err(DeviceError::UnknownPublicKey);
                    }
                    x += 1;
                }
                let ghost old_seq = self.devices@;
                let ghost old_aliases = self.devices@[i as int].1.aliases@;
                let ghost old_keys = self.devices@[i as int].1.keys@;
                let mut x: usize = 0;
                while x < keys.len()
                    invariant
                        x <= keys@.len(),
                        i < self.devices@.len(),
                        old(self).wf(),
                        old_seq == old(self).devices@,
                        old_aliases == old_seq[i as int].1.aliases@,
                        old_keys == old_seq[i as int].1.keys@,
                        self.devices@.len() == old_seq.len(),
                        self.devices@[i as int].0 == old_seq[i as int].0,
                        self.devices@[i as int].0@ == caller@,
                        self.devices@[i as int].1.aliases == old_seq[i as int].1.aliases,
                        old(self)@[caller@] == old_seq[i as int].1.deep_view(),
                        forall|y: int|
                            0 <= y < old_seq.len() && y != i ==> self.devices@[y] == #[trigger] old_seq[y],
                        uniq_keys(self.devices@[i as int].1.keys@),
                        map_of(self.devices@[i as int].1.keys@) == spec_add_entries(
                            map_of(old_keys),
                            keys.deep_view().take(x as int),
                        ),
                        forall|y: int|
                            0 <= y < self.devices@[i as int].1.keys@.len() ==> key_of_some_alias(
                                old_aliases,
                                (#[trigger] self.devices@[i as int].1.keys@[y]).0@,
                            ),
                        forall|y: int|
                            0 <= y < keys@.len() ==> in_values(
                                old(self)@[caller@].aliases,
                                (#[trigger] keys@[y]).0@,
                            ),
                    decreases keys@.len() - x,
                {
                    let pk = keys[x].0.clone();
                    let sk = keys[x].1.clone();
                    let ghost cur_keys = self.devices@[i as int].1.keys@;
                    proof {
                        lemma_map_of_dom(cur_keys);
                        lemma_map_of_values(old_aliases);
                        assert(keys.deep_view().take(x as int + 1).drop_last() =~= keys.deep_view()
                            .take(x as int));
                        assert(keys.deep_view().take(x as int + 1).last() == (pk@, sk@));
                    }
                    match strmap::find_key(&self.devices[i].1.keys, &pk) {
                        Some(_) => {
                            proof {
                                assert(map_of(cur_keys).contains_key(pk@));
                            }
                        },
                        None => {
                            self.devices[i].1.keys.push((pk, sk));
                            proof {
                                let p = self.devices@[i as int];
                                assert(p.1.keys@ =~= cur_keys.push(p.1.keys@.last()));
                                lemma_map_of_push(cur_keys, p.1.keys@.last().0, p.1.keys@.last().1);
                                assert forall|a: int, b: int|
                                    0 <= a < b < p.1.keys@.len() implies (#[trigger] p.1.keys@[a]).0.deep_view()
                                        != (#[trigger] p.1.keys@[b]).0.deep_view() by {
                                    if b < p.1.keys@.len() - 1 {
                                        assert(p.1.keys@[a] == cur_keys[a]);
                                        assert(p.1.keys@[b] == cur_keys[b]);
                                    } else {
                                        assert(p.1.keys@[a] == cur_keys[a]);
                                        assert(!has_key(cur_keys, p.1.keys@[b].0@));
                                    }
                                }
                                let w = choose|w: int|
                                    0 <= w < old_aliases.len() && (#[trigger] old_aliases[w]).1@
                                        == keys@[x as int].0@;
                                assert(old_aliases[w].1@ == p.1.keys@[p.1.keys@.len() - 1].0@);
                            }
                        },
                    }
                    x += 1;
                }
                proof {
                    assert(keys.deep_view().take(keys@.len() as int) =~= keys.deep_view());
                    let p = self.devices@[i as int];
                    assert(self.devices@ =~= old_seq.update(i as int, p));
                    lemma_map_of_update(old_seq, i as int, p);
                    assert(p.1.deep_view() == (DeviceDataView {
                        aliases: old(self)@[caller@].aliases,
                        keys: spec_add_entries(old(self)@[caller@].keys, keys.deep_view()),
                    }));
                    assert forall|y: int|
                        0 <= y < p.1.keys@.len() implies key_of_some_alias(
                            p.1.aliases@,
                            (#[trigger] p.1.keys@[y]).0@,
                        ) by {
                        let w = choose|w: int|
                            0 <= w < old_aliases.len() && (#[trigger] old_aliases[w]).1@
                                == p.1.keys@[y].0@;
                        assert(p.1.aliases@[w].1@ == p.1.keys@[y].0@);
                    }
                    assert(p.1.wf());
                    assert forall|y: int|
                        0 <= y < self.devices@.len() implies (#[trigger] self.devices@[y]).1.wf() by {
                        if y != i {
                            assert(self.devices@[y] == old_seq[y]);
                        }
                    }
                }
                Ok(())
            },
        }
    }

    /// The public keys still waiting for the secret: registered for some
    /// alias of the caller, but absent from the ledger.  Empty when the
    /// caller is unknown or fully synced.  An already-synced device polls
    /// this to learn which joining devices it must push the secret to.
    pub(crate) fn unsynced_keys(&self, caller: &Identity) -> (r: Vec<PublicKey>)
        requires
            self.wf(),
        ensures
            forall|pk: Seq<char>|
                #[trigger] crate::strmap::contains_str(r@, pk) <==> (self@.contains_key(
                    caller@,
                ) && in_values(self@[caller@].aliases, pk) && !self@[caller@].keys.contains_key(pk)),
    {
        proof {
            lemma_map_of_dom(self.devices@);
        }
        match find_id(&self.devices, caller) {
            None => {
                Vec::new()
            },
            Some(i) => {
                proof {
                    lemma_map_of_index(self.devices@, i as int);
                    lemma_map_of_values(self.devices@[i as int].1.aliases@);
                    lemma_map_of_dom(self.devices@[i as int].1.keys@);
                }
                let device_data = &self.devices[i].1;
                let mut out: Vec<PublicKey> = Vec::new();
                let mut j: usize = 0;
                while j < device_data.aliases.len()
                    invariant
                        j <= device_data.aliases@.len(),
                        forall|y: int|
                            0 <= y < out@.len() ==> key_of_some_alias(
                                device_data.aliases@.take(j as int),
                                (#[trigger] out@[y])@,
                            ),
                        forall|y: int|
                            0 <= y < out@.len() ==> !has_key(device_data.keys@, (#[trigger] out@[y])@),
                        forall|y: int|
                            0 <= y < j && !has_key(
                                device_data.keys@,
                                (#[trigger] device_data.aliases@[y]).1@,
                            ) ==> crate::strmap::contains_str(out@, device_data.aliases@[y].1@),
                    decreases device_data.aliases@.len() - j,
                {
                    let pk = &device_data.aliases[j].1;
                    if strmap::find_key(&device_data.keys, pk).is_none() {
                        let ghost old_out = out@;
                        out.push(pk.clone());
                        proof {
                            assert(device_data.aliases@.take(j as int + 1)[j as int]
                                == device_data.aliases@[j as int]);
                            assert forall|y: int|
                                0 <= y < out@.len() implies key_of_some_alias(
                                    device_data.aliases@.take(j as int + 1),
                                    (#[trigger] out@[y])@,
                                ) by {
                                if y < out@.len() - 1 {
                                    assert(out@[y] == old_out[y]);
                                    let w = choose|w: int|
                                        0 <= w < j && (#[trigger] device_data.aliases@.take(
                                            j as int,
                                        )[w]).1@ == out@[y]@;
                                    assert(device_data.aliases@.take(j as int + 1)[w].1@
                                        == out@[y]@);
                                }
                            }
                            assert forall|y: int|
                                0 <= y < j + 1 && !has_key(
                                    device_data.keys@,
                                    (#[trigger] device_data.aliases@[y]).1@,
                                ) implies crate::strmap::contains_str(
                                out@,
                                device_data.aliases@[y].1@,
                            ) by {
                                if y < j {
                                    let w = choose|w: int|
                                        0 <= w < old_out.len() && (#[trigger] old_out[w])@
                                            == device_data.aliases@[y].1@;
                                    assert(out@[w]@ == device_data.aliases@[y].1@);
                                } else {
                                    assert(out@[out@.len() - 1]@ == device_data.aliases@[y].1@);
                                }
                            }
                        }
                    } else {
                        proof {
                            assert forall|y: int|
                                0 <= y < out@.len() implies key_of_some_alias(
                                    device_data.aliases@.take(j as int + 1),
                                    (#[trigger] out@[y])@,
                                ) by {
                                let w = choose|w: int|
                                    0 <= w < j && (#[trigger] device_data.aliases@.take(
                                        j as int,
                                    )[w]).1@ == out@[y]@;
                                assert(device_data.aliases@.take(j as int + 1)[w].1@ == out@[y]@);
                            }
                        }
                    }
                    j += 1;
                }
                proof {
                    let als = device_data.aliases@;
                    assert(als.take(als.len() as int) =~= als);
                    assert forall|pk: Seq<char>| #[trigger] crate::strmap::contains_str(out@, pk)
                        implies (in_values(self@[caller@].aliases, pk) && !self@[caller@].keys.contains_key(pk)) by {
                        let y = choose|y: int| 0 <= y < out@.len() && (#[trigger] out@[y])@ == pk;
                        let w = choose|w: int|
                            0 <= w < als.len() && (#[trigger] als.take(als.len() as int)[w]).1@
                                == pk;
                        assert(als[w].1@ == pk);
                    }
                    assert forall|pk: Seq<char>|
                        (in_values(self@[caller@].aliases, pk) && !self@[caller@].keys.contains_key(pk)) implies #[trigger] crate::strmap::contains_str(
                        out@,
                        pk,
                    ) by {
                        let w = choose|w: int| 0 <= w < als.len() && (#[trigger] als[w]).1@ == pk;
                    }
                }
                out
            },
        }
    }

    /// The public keys still waiting for the secret: registered for some
    /// alias of the caller, but absent from the ledger.  Empty when the
    /// caller is unknown or fully synced.  An already-synced device polls
    /// this to learn which joining devices it must push the secret to.
    pub fn get_unsynced_public_keys(&mut self, caller: &Identity) -> (r: Vec<PublicKey>)
        requires
            old(self).wf(),
        ensures
            *final(self) == *old(self),
            forall|pk: Seq<char>|
                #[trigger] crate::strmap::contains_str(r@, pk) <==> (old(self)@.contains_key(
                    caller@,
                ) && in_values(old(self)@[caller@].aliases, pk) && !old(self)@[caller@].keys.contains_key(pk)),
    {
        self.unsynced_keys(caller)
    }

    /// Serializes the whole registry into plain values, one entry per
    /// identity: its token bytes, its alias pairs and its ledger pairs.
    pub fn to_entries(&self) -> (r: Vec<DeviceEntry>)
        requires
            self.wf(),
        ensures
            entries_wf(r@),
            entries_map(r@) == self@,
    {
        let mut out: Vec<DeviceEntry> = Vec::new();
        let mut i: usize = 0;
        while i < self.devices.len()
            invariant
                i <= self.devices@.len(),
                out@.len() == i,
                forall|x: int|
                    0 <= x < i ==> (#[trigger] out@[x]).0@ == self.devices@[x].0@ && out@[x].1@
                        == self.devices@[x].1.aliases@ && out@[x].2@ == self.devices@[x].1.keys@,
            decreases self.devices@.len() - i,
        {
            let d = &self.devices[i];
            let entry = (
                crate::identity::clone_bytes(&d.0.bytes),
                strmap::clone_pairs(&d.1.aliases),
                strmap::clone_pairs(&d.1.keys),
            );
            out.push(entry);
            i += 1;
        }
        proof {
            lemma_entries_map_align(out@, self.devices@);
            assert forall|x: int| 0 <= x < out@.len() implies entry_wf(#[trigger] out@[x]) by {
                assert(self.devices@[x].1.wf());
            }
        }
        out
    }

    /// Rebuilds a registry from its serialized form.
    pub fn from_entries(entries: &Vec<DeviceEntry>) -> (r: Devices)
        requires
            entries_wf(entries@),
        ensures
            r.wf(),
            r@ == entries_map(entries@),
    {
        let mut devices: Vec<(Identity, DeviceData)> = Vec::new();
        let mut i: usize = 0;
        while i < entries.len()
            invariant
                i <= entries@.len(),
                devices@.len() == i,
                entries_wf(entries@),
                forall|x: int|
                    0 <= x < i ==> (#[trigger] devices@[x]).0@ == entries@[x].0@
                        && devices@[x].1.aliases@ == entries@[x].1@ && devices@[x].1.keys@
                        == entries@[x].2@,
            decreases entries@.len() - i,
        {
            let e = &entries[i];
            let record = (
                Identity::from_bytes(crate::identity::clone_bytes(&e.0)),
                (DeviceData {
                    aliases: strmap::clone_pairs(&e.1),
                    keys: strmap::clone_pairs(&e.2),
                }),
            );
            devices.push(record);
            i += 1;
        }
        let r = Devices { devices };
        proof {
            lemma_entries_map_align(entries@, r.devices@);
            assert forall|x: int|
                0 <= x < r.devices@.len() implies (#[trigger] r.devices@[x]).1.wf() by {
                assert(entry_wf(entries@[x]));
            }
        }
        r
    }
}

/// One identity's serialized record: token bytes, alias pairs, ledger pairs.
pub type DeviceEntry = (Vec<u8>, Vec<(DeviceAlias, PublicKey)>, Vec<(PublicKey, EncryptedSymmetricKey)>);

/// The registry a serialized entry sequence denotes.
pub open spec fn entries_map(s: Seq<DeviceEntry>) -> Map<Seq<u8>, DeviceDataView>
    decreases s.len(),
{
    if s.len() == 0 {
        Map::empty()
    } else {
        entries_map(s.drop_last()).insert(
            s.last().0@,
            DeviceDataView { aliases: map_of(s.last().1@), keys: map_of(s.last().2@) },
        )
    }
}

/// One serialized record is internally consistent.
pub open spec fn entry_wf(e: DeviceEntry) -> bool {
    &&& uniq_keys(e.1@)
    &&& uniq_keys(e.2@)
    &&& e.1@.len() >= 1
    &&& forall|x: int| 0 <= x < e.2@.len() ==> key_of_some_alias(e.1@, (#[trigger] e.2@[x]).0@)
}

/// A serialized registry is internally consistent: one entry per identity,
/// each a well-formed record.
pub open spec fn entries_wf(s: Seq<DeviceEntry>) -> bool {
    &&& forall|i: int, j: int| #![trigger s[i], s[j]] 0 <= i < j < s.len() ==> s[i].0@ != s[j].0@
    &&& forall|i: int| 0 <= i < s.len() ==> entry_wf(#[trigger] s[i])
}

/// Entry sequences and record sequences that agree pointwise denote the
/// same registry.
proof fn lemma_entries_map_align(es: Seq<DeviceEntry>, ds: Seq<(Identity, DeviceData)>)
    requires
        es.len() == ds.len(),
        forall|x: int|
            0 <= x < es.len() ==> (#[trigger] es[x]).0@ == ds[x].0@ && es[x].1@ == ds[x].1.aliases@
                && es[x].2@ == ds[x].1.keys@,
    ensures
        entries_map(es) == map_of(ds),
    decreases es.len(),
{
    if es.len() == 0 {
    } else {
        assert forall|x: int|
            0 <= x < es.drop_last().len() implies (#[trigger] es.drop_last()[x]).0@
                == ds.drop_last()[x].0@ && es.drop_last()[x].1@ == ds.drop_last()[x].1.aliases@
                && es.drop_last()[x].2@ == ds.drop_last()[x].1.keys@ by {
            assert(es.drop_last()[x] == es[x]);
            assert(ds.drop_last()[x] == ds[x]);
        }
        lemma_entries_map_align(es.drop_last(), ds.drop_last());
        assert(es[es.len() - 1].0@ == ds[ds.len() - 1].0@);
        assert(es[es.len() - 1].1@ == ds[ds.len() - 1].1.aliases@);
        assert(es[es.len() - 1].2@ == ds[ds.len() - 1].1.keys@);
    }
}

/// A ledger that just received its seed entry is not empty: immediately
/// after a successful seed upload the identity is no longer a seed.
pub proof fn lemma_seed_upload_fills_ledger(
    m: Map<Seq<char>, Seq<char>>,
    pk: Seq<char>,
    sk: Seq<char>,
)
    ensures
        m.insert(pk, sk) != Map::<Seq<char>, Seq<char>>::empty(),
{
    assert(m.insert(pk, sk).contains_key(pk));
}

/// A batch push loses no ledger entry and covers every key of the batch;
/// in particular, after a successful non-empty batch the identity is no
/// longer a seed.
pub proof fn lemma_add_entries_covers(
    m: Map<Seq<char>, Seq<char>>,
    entries: Seq<(Seq<char>, Seq<char>)>,
)
    ensures
        forall|k: Seq<char>|
            #[trigger] m.contains_key(k) ==> spec_add_entries(m, entries).contains_key(k),
        forall|x: int|
            0 <= x < entries.len() ==> spec_add_entries(m, entries).contains_key(
                (#[trigger] entries[x]).0,
            ),
        entries.len() > 0 ==> spec_add_entries(m, entries) != Map::<Seq<char>, Seq<char>>::empty(),
    decreases entries.len(),
{
    if entries.len() == 0 {
    } else {
        lemma_add_entries_covers(m, entries.drop_last());
        assert forall|x: int|
            0 <= x < entries.len() implies spec_add_entries(m, entries).contains_key(
            (#[trigger] entries[x]).0,
        ) by {
            if x < entries.len() - 1 {
                assert(entries.drop_last()[x] == entries[x]);
            }
        }
        assert(spec_add_entries(m, entries).contains_key(entries[0].0));
    }
}

/// Round trip: the registry a serialized form denotes is the registry it
/// was taken from, so after deserializing, every query of the registry
/// answers exactly as before.
pub proof fn lemma_devices_round_trip(d: Devices, es: Seq<DeviceEntry>, d2: Devices)
    requires
        d.wf(),
        entries_map(es) == d@,
        d2@ == entries_map(es),
    ensures
        d2@ == d@,
{
}

} // verus!
