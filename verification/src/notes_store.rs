//! The note store variant whose storage is allocated eagerly: an identity
//! gets its (empty) collection the moment its first device is registered,
//! and every note operation demands that the collection exists.
//!
//! The collection logic itself is the verified core in `crate::notes`; this
//! store adds the eager-allocation discipline on top of it.

use vstd::prelude::*;
use crate::assoc::{map_of, uniq_keys, lemma_map_of_dom, lemma_map_of_index, lemma_map_of_push};
use crate::identity::Identity;
use crate::devices::find_id;
use crate::notes::{Notes, NoteView, has_id, idx_of_id, ids_ok, spec_delete_note};

verus! {

/// An encrypted note: the identifier and the ciphertext a client stored.
pub struct EncryptedNote {
    pub id: u128,
    pub encrypted_text: String,
}

impl DeepView for EncryptedNote {
    type V = NoteView;

    open spec fn deep_view(&self) -> NoteView {
        NoteView { id: self.id, data: self.encrypted_text@ }
    }
}

impl Clone for EncryptedNote {
    fn clone(&self) -> (r: EncryptedNote)
        ensures
            r == *self,
    {
        EncryptedNote { id: self.id, encrypted_text: self.encrypted_text.clone() }
    }
}

/// Per-identity note collections with eagerly assigned storage.
pub struct NotesStore {
    pub notes: Notes,
}

impl View for NotesStore {
    type V = Map<Seq<u8>, Seq<NoteView>>;

    open spec fn view(&self) -> Map<Seq<u8>, Seq<NoteView>> {
        self.notes@
    }
}

impl Default for NotesStore {
    fn default() -> (r: NotesStore)
        ensures
            r.wf(),
            r@ == Map::<Seq<u8>, Seq<NoteView>>::empty(),
            r.counter() == 0,
    {
        NotesStore::new()
    }
}

impl NotesStore {
    /// An empty store with a fresh counter.
    pub fn new() -> (r: NotesStore)
        ensures
            r.wf(),
            r@ == Map::<Seq<u8>, Seq<NoteView>>::empty(),
            r.counter() == 0,
    {
        NotesStore { notes: Notes::new() }
    }

    pub open spec fn wf(&self) -> bool {
        self.notes.wf()
    }

    /// The identifier the next added note will receive.
    pub open spec fn counter(&self) -> u128 {
        self.notes.counter
    }

    /// The caller's notes in insertion order; empty if the caller owns none.
    pub fn get_notes(&self, caller: &Identity) -> (r: Vec<EncryptedNote>)
        requires
            self.wf(),
        ensures
            self@.contains_key(caller@) ==> r.deep_view() == self@[caller@],
            !self@.contains_key(caller@) ==> r@.len() == 0,
    {
        let inner = self.notes.get_notes(caller);
        let mut out: Vec<EncryptedNote> = Vec::new();
        let mut j: usize = 0;
        while j < inner.len()
            invariant
                j <= inner@.len(),
                out@.len() == j,
                forall|x: int| 0 <= x < j ==> (#[trigger] out@[x]).deep_view() == inner@[x].deep_view(),
            decreases inner@.len() - j,
        {
            let n = EncryptedNote { id: inner[j].id, encrypted_text: inner[j].data.clone() };
            out.push(n);
            j += 1;
        }
        proof {
            assert(out.deep_view() =~= inner.deep_view());
        }
        out
    }

    /// The note at position `id` of the caller's collection, which the
    /// caller must own and which must be long enough.
    pub fn get_note(&self, caller: &Identity, id: u128) -> (r: EncryptedNote)
        requires
            self.wf(),
            self@.contains_key(caller@),
            id < self@[caller@].len(),
        ensures
            r.deep_view() == self@[caller@][id as int],
    {
        proof {
            lemma_map_of_dom(self.notes.notes@);
        }
        match find_id(&self.notes.notes, caller) {
            Some(i) => {
                proof {
                    lemma_map_of_index(self.notes.notes@, i as int);
                }
                let row = &self.notes.notes[i].1;
                proof {
                    assert(row.len() == row@.len());
                    assert(id < row@.len());
                }
                let n = &row[id as usize];
                EncryptedNote { id: n.id, encrypted_text: n.data.clone() }
            },
            None => {
                proof {
                    assert(false);
                }
                EncryptedNote { id: 0, encrypted_text: String::new() }
            },
        }
    }

    /// Appends a note for the caller, who must already own a collection,
    /// and hands back its identifier.
    pub fn add_note(&mut self, caller: &Identity, encrypted_text: String) -> (id: u128)
        requires
            old(self).wf(),
            old(self)@.contains_key(caller@),
            old(self).counter() < u128::MAX,
        ensures
            final(self).wf(),
            id == old(self).counter(),
            final(self).counter() == old(self).counter() + 1,
            final(self)@ == old(self)@.insert(
                caller@,
                old(self)@[caller@].push((NoteView { id: old(self).counter(), data: encrypted_text@ })),
            ),
    {
        self.notes.add_note(caller, encrypted_text)
    }

    /// Replaces the ciphertext of the caller's note bearing `update_id`;
    /// an unknown identifier is a silent no-op.
    pub fn update_note(&mut self, caller: &Identity, update_id: u128, update_text: String)
        requires
            old(self).wf(),
            old(self)@.contains_key(caller@),
        ensures
            final(self).wf(),
            final(self).counter() == old(self).counter(),
            final(self)@ == (if has_id(old(self)@[caller@], update_id) {
                old(self)@.insert(
                    caller@,
                    old(self)@[caller@].update(
                        idx_of_id(old(self)@[caller@], update_id),
                        (NoteView { id: update_id, data: update_text@ }),
                    ),
                )
            } else {
                old(self)@
            }),
    {
        let new_note = crate::notes::EncryptedNote { id: update_id, data: update_text };
        self.notes.update_note(caller, new_note)
    }

    /// Removes the caller's note bearing `delete_id`; deleting an unknown
    /// identifier is a silent no-op.
    pub fn delete_note(&mut self, caller: &Identity, delete_id: u128)
        requires
            old(self).wf(),
            old(self)@.contains_key(caller@),
        ensures
            final(self).wf(),
            final(self).counter() == old(self).counter(),
            final(self)@ == old(self)@.insert(
                caller@,
                spec_delete_note(old(self)@[caller@], delete_id),
            ),
    {
        self.notes.delete_note(caller, delete_id)
    }

    /// Assigns an empty collection to a brand-new identity; called exactly
    /// once, at first device registration.
    pub fn assign_note(&mut self, caller: &Identity)
        requires
            old(self).wf(),
            !old(self)@.contains_key(caller@),
        ensures
            final(self).wf(),
            final(self).counter() == old(self).counter(),
            final(self)@ == old(self)@.insert(caller@, Seq::<NoteView>::empty()),
    {
        proof {
            lemma_map_of_dom(self.notes.notes@);
        }
        let ghost old_seq = self.notes.notes@;
        let row: Vec<crate::notes::EncryptedNote> = Vec::new();
        self.notes.notes.push((caller.clone(), row));
        proof {
            let p = self.notes.notes@.last();
            lemma_map_of_push(old_seq, p.0, p.1);
            assert(old_seq.push(p) =~= self.notes.notes@);
            assert(p.1.deep_view() =~= Seq::<NoteView>::empty());
            assert forall|x: int|
                0 <= x < self.notes.notes@.len() implies ids_ok(
                    (#[trigger] self.notes.notes@[x]).1.deep_view(),
                    self.notes.counter,
                ) by {
                if x < self.notes.notes@.len() - 1 {
                    assert(self.notes.notes@[x] == old_seq[x]);
                }
            }
            assert forall|x: int, y: int|
                0 <= x < y < self.notes.notes@.len() implies (#[trigger] self.notes.notes@[x]).0.deep_view()
                    != (#[trigger] self.notes.notes@[y]).0.deep_view() by {
                assert(self.notes.notes@[x] == old_seq[x]);
                if y < self.notes.notes@.len() - 1 {
                    assert(self.notes.notes@[y] == old_seq[y]);
                }
            }
        }
    }

    /// The caller already owns a collection.
    pub fn has_note(&self, caller: &Identity) -> (r: bool)
        ensures
            r == self@.contains_key(caller@),
    {
        proof {
            lemma_map_of_dom(self.notes.notes@);
        }
        find_id(&self.notes.notes, caller).is_some()
    }
}

} // verus!
