//! Per-identity encrypted note collections.
//!
//! Notes are opaque ciphertexts under identifiers drawn from one
//! monotonically increasing counter: an identifier is never reused and never
//! reordered, so each owner's collection is kept in insertion order with
//! strictly increasing identifiers.

use vstd::prelude::*;
use crate::assoc::{
    map_of, uniq_keys, lemma_map_of_dom, lemma_map_of_index, lemma_map_of_push,
    lemma_map_of_update,
};
use crate::identity::Identity;
use crate::devices::find_id;

verus! {

/// An encrypted note: the identifier and the ciphertext a client stored.
pub struct EncryptedNote {
    pub id: u128,
    pub data: String,
}

/// The mathematical reading of a note.
pub ghost struct NoteView {
    pub id: u128,
    pub data: Seq<char>,
}

impl DeepView for EncryptedNote {
    type V = NoteView;

    open spec fn deep_view(&self) -> NoteView {
        NoteView { id: self.id, data: self.data@ }
    }
}

impl Clone for EncryptedNote {
    fn clone(&self) -> (r: EncryptedNote)
        ensures
            r == *self,
    {
        EncryptedNote { id: self.id, data: self.data.clone() }
    }
}

/// Identifiers below the counter, strictly increasing left to right.
pub open spec fn ids_ok(s: Seq<NoteView>, c: u128) -> bool {
    &&& forall|x: int| 0 <= x < s.len() ==> (#[trigger] s[x]).id < c
    &&& forall|x: int, y: int| #![trigger s[x], s[y]] 0 <= x < y < s.len() ==> s[x].id < s[y].id
}

/// Some note in `s` bears identifier `id`.
pub open spec fn has_id(s: Seq<NoteView>, id: u128) -> bool {
    exists|i: int| 0 <= i < s.len() && (#[trigger] s[i]).id == id
}

/// The position of the note bearing `id` (unique under `ids_ok`).
pub open spec fn idx_of_id(s: Seq<NoteView>, id: u128) -> int {
    choose|i: int| 0 <= i < s.len() && (#[trigger] s[i]).id == id
}

/// The note sequence with every note of identifier `id` removed; the rest
/// keep their order.
pub open spec fn spec_delete_note(s: Seq<NoteView>, id: u128) -> Seq<NoteView>
    decreases s.len(),
{
    if s.len() == 0 {
        Seq::empty()
    } else {
        let rest = spec_delete_note(s.drop_last(), id);
        if s.last().id == id {
            rest
        } else {
            rest.push(s.last())
        }
    }
}

/// Deleting an identifier removes exactly the notes bearing it: a note
/// survives the deletion if and only if it was there and bears another
/// identifier.
pub proof fn lemma_delete_note_contains(s: Seq<NoteView>, id: u128)
    ensures
        forall|n: NoteView|
            #[trigger] spec_delete_note(s, id).contains(n) <==> (s.contains(n) && n.id != id),
    decreases s.len(),
{
    let r = spec_delete_note(s, id);
    if s.len() == 0 {
        assert forall|n: NoteView| #[trigger] r.contains(n) implies (s.contains(n) && n.id != id) by {
            let w = choose|w: int| 0 <= w < r.len() && r[w] == n;
        }
        assert forall|n: NoteView| (s.contains(n) && n.id != id) implies #[trigger] r.contains(n) by {
            let w = choose|w: int| 0 <= w < s.len() && s[w] == n;
        }
    } else {
        lemma_delete_note_contains(s.drop_last(), id);
        let rest = spec_delete_note(s.drop_last(), id);
        assert forall|n: NoteView| #[trigger] r.contains(n) implies (s.contains(n) && n.id != id) by {
            let w = choose|w: int| 0 <= w < r.len() && r[w] == n;
            if s.last().id == id || w < r.len() - 1 {
                assert(rest[w] == n);
                assert(rest.contains(n));
                let w2 = choose|w2: int|
                    0 <= w2 < s.drop_last().len() && s.drop_last()[w2] == n;
                assert(s[w2] == n);
                assert(s.contains(n));
            } else {
                assert(n == s.last());
                assert(s[s.len() - 1] == n);
                assert(s.contains(n));
            }
        }
        assert forall|n: NoteView| (s.contains(n) && n.id != id) implies #[trigger] r.contains(n) by {
            let w = choose|w: int| 0 <= w < s.len() && s[w] == n;
            if w < s.len() - 1 {
                assert(s.drop_last()[w] == n);
                assert(s.drop_last().contains(n));
                assert(rest.contains(n));
                let w3 = choose|w3: int| 0 <= w3 < rest.len() && rest[w3] == n;
                if s.last().id != id {
                    assert(r[w3] == n);
                }
            } else {
                assert(n == s.last());
                assert(r[r.len() - 1] == n);
            }
        }
    }
}

/// Deletion keeps well-formed identifiers well formed.
pub proof fn lemma_delete_note_ids_ok(s: Seq<NoteView>, id: u128, c: u128)
    requires
        ids_ok(s, c),
    ensures
        ids_ok(spec_delete_note(s, id), c),
    decreases s.len(),
{
    if s.len() == 0 {
    } else {
        assert(ids_ok(s.drop_last(), c));
        lemma_delete_note_ids_ok(s.drop_last(), id, c);
        lemma_delete_note_contains(s.drop_last(), id);
        let rest = spec_delete_note(s.drop_last(), id);
        let r = spec_delete_note(s, id);
        if s.last().id != id {
            assert forall|x: int, y: int| #![trigger r[x], r[y]] 0 <= x < y < r.len() implies r[x].id
                < r[y].id by {
                if y == r.len() - 1 {
                    assert(rest.contains(rest[x]));
                    assert(s.drop_last().contains(r[x]));
                    let w = choose|w: int|
                        0 <= w < s.drop_last().len() && s.drop_last()[w] == r[x];
                    assert(s[w].id < s.last().id);
                } else {
                    assert(r[x] == rest[x] && r[y] == rest[y]);
                }
            }
            assert forall|x: int| 0 <= x < r.len() implies (#[trigger] r[x]).id < c by {
                if x < r.len() - 1 {
                    assert(r[x] == rest[x]);
                }
            }
        }
    }
}

/// The per-identity note store with its shared identifier counter.
pub struct Notes {
    pub notes: Vec<(Identity, Vec<EncryptedNote>)>,
    pub counter: u128,
}

impl View for Notes {
    type V = Map<Seq<u8>, Seq<NoteView>>;

    open spec fn view(&self) -> Map<Seq<u8>, Seq<NoteView>> {
        map_of(self.notes@)
    }
}

impl Default for Notes {
    fn default() -> (r: Notes)
        ensures
            r.wf(),
            r@ == Map::<Seq<u8>, Seq<NoteView>>::empty(),
            r.counter == 0,
    {
        Notes::new()
    }
}

impl Notes {
    /// An empty store with a fresh counter.
    pub fn new() -> (r: Notes)
        ensures
            r.wf(),
            r@ == Map::<Seq<u8>, Seq<NoteView>>::empty(),
            r.counter == 0,
    {
        Notes { notes: Vec::new(), counter: 0 }
    }

    /// One owner per collection, and every stored identifier was drawn from
    /// the counter: below it, never reused, in insertion order.
    pub open spec fn wf(&self) -> bool {
        &&& uniq_keys(self.notes@)
        &&& forall|i: int|
            0 <= i < self.notes@.len() ==> ids_ok(
                (#[trigger] self.notes@[i]).1.deep_view(),
                self.counter,
            )
    }

    /// The caller's notes in insertion order; empty if the caller owns none.
    pub fn get_notes(&self, caller: &Identity) -> (r: Vec<EncryptedNote>)
        requires
            self.wf(),
        ensures
            self@.contains_key(caller@) ==> r.deep_view() == self@[caller@],
            !self@.contains_key(caller@) ==> r@.len() == 0,
    {
        proof {
            lemma_map_of_dom(self.notes@);
        }
        match find_id(&self.notes, caller) {
            None => Vec::new(),
            Some(i) => {
                proof {
                    lemma_map_of_index(self.notes@, i as int);
                }
                let row = &self.notes[i].1;
                let mut out: Vec<EncryptedNote> = Vec::new();
                let mut j: usize = 0;
                while j < row.len()
                    invariant
                        j <= row@.len(),
                        out@ == row@.take(j as int),
                    decreases row@.len() - j,
                {
                    out.push(row[j].clone());
                    proof {
                        assert(out@ =~= row@.take(j as int + 1));
                    }
                    j += 1;
                }
                proof {
                    assert(out@ =~= row@);
                    assert(out.deep_view() =~= self.notes@[i as int].1.deep_view());
                }
                out
            },
        }
    }

    /// Appends a note for the caller under the next identifier and hands the
    /// identifier back; a caller without a collection gets one (allocation
    /// is lazy here).
    pub fn add_note(&mut self, caller: &Identity, data: String) -> (id: u128)
        requires
            old(self).wf(),
            old(self).counter < u128::MAX,
        ensures
            final(self).wf(),
            id == old(self).counter,
            final(self).counter == old(self).counter + 1,
            final(self)@ == (if old(self)@.contains_key(caller@) {
                old(self)@.insert(
                    caller@,
                    old(self)@[caller@].push((NoteView { id: old(self).counter, data: data@ })),
                )
            } else {
                old(self)@.insert(
                    caller@,
                    seq![(NoteView { id: old(self).counter, data: data@ })],
                )
            }),
    {
        proof {
            lemma_map_of_dom(self.notes@);
        }
        let id = self.counter;
        let note = EncryptedNote { id, data };
        match find_id(&self.notes, caller) {
            Some(i) => {
                proof {
                    lemma_map_of_index(self.notes@, i as int);
                }
                let ghost old_seq = self.notes@;
                self.notes[i].1.push(note);
                self.counter = self.counter + 1;
                proof {
                    let p = self.notes@[i as int];
                    lemma_map_of_update(old_seq, i as int, p);
                    assert(p.1.deep_view() =~= old_seq[i as int].1.deep_view().push(
                        (NoteView { id: id, data: note.data@ }),
                    ));
                    assert forall|x: int|
                        0 <= x < self.notes@.len() implies ids_ok(
                            (#[trigger] self.notes@[x]).1.deep_view(),
                            self.counter,
                        ) by {
                        if x != i {
                            assert(self.notes@[x] == old_seq[x]);
                            assert(ids_ok(old_seq[x].1.deep_view(), id));
                        } else {
                            assert(ids_ok(old_seq[x].1.deep_view(), id));
                            assert(p.1.deep_view().last().id == id);
                        }
                    }
                }
                id
            },
            None => {
                let mut row: Vec<EncryptedNote> = Vec::new();
                row.push(note);
                let ghost old_seq = self.notes@;
                self.notes.push((caller.clone(), row));
                self.counter = self.counter + 1;
                proof {
                    let p = self.notes@.last();
                    lemma_map_of_push(old_seq, p.0, p.1);
                    assert(old_seq.push(p) =~= self.notes@);
                    assert(p.1.deep_view() =~= seq![(NoteView { id: id, data: p.1@[0].data@ })]);
                    assert forall|x: int|
                        0 <= x < self.notes@.len() implies ids_ok(
                            (#[trigger] self.notes@[x]).1.deep_view(),
                            self.counter,
                        ) by {
                        if x < self.notes@.len() - 1 {
                            assert(self.notes@[x] == old_seq[x]);
                            assert(ids_ok(old_seq[x].1.deep_view(), id));
                        }
                    }
                    assert forall|x: int, y: int|
                        0 <= x < y < self.notes@.len() implies (#[trigger] self.notes@[x]).0.deep_view()
                            != (#[trigger] self.notes@[y]).0.deep_view() by {
                        assert(self.notes@[x] == old_seq[x]);
                        if y < self.notes@.len() - 1 {
                            assert(self.notes@[y] == old_seq[y]);
                        }
                    }
                }
                id
            },
        }
    }

    /// Removes the caller's note bearing `id`; unknown callers and unknown
    /// identifiers are silent no-ops (deletion is idempotent).
    pub fn delete_note(&mut self, caller: &Identity, id: u128)
        requires
            old(self).wf(),
        ensures
            final(self).wf(),
            final(self).counter == old(self).counter,
            final(self)@ == (if old(self)@.contains_key(caller@) {
                old(self)@.insert(caller@, spec_delete_note(old(self)@[caller@], id))
            } else {
                old(self)@
            }),
    {
        proof {
            lemma_map_of_dom(self.notes@);
        }
        match find_id(&self.notes, caller) {
            None => {},
            Some(i) => {
                proof {
                    lemma_map_of_index(self.notes@, i as int);
                }
                let row = &self.notes[i].1;
                let mut out: Vec<EncryptedNote> = Vec::new();
                let mut j: usize = 0;
                while j < row.len()
                    invariant
                        j <= row@.len(),
                        out.deep_view() == spec_delete_note(row@.take(j as int).map_values(
                            |n: EncryptedNote| n.deep_view(),
                        ), id),
                        out.deep_view() == spec_delete_note(row.deep_view().take(j as int), id),
                    decreases row@.len() - j,
                {
                    proof {
                        assert(row.deep_view().take(j as int + 1).drop_last() =~= row.deep_view()
                            .take(j as int));
                        assert(row.deep_view().take(j as int + 1).last() == row@[j as int].deep_view());
                    }
                    if row[j].id != id {
                        out.push(row[j].clone());
                        proof {
                            assert(out.deep_view() =~= spec_delete_note(
                                row.deep_view().take(j as int),
                                id,
                            ).push(row@[j as int].deep_view()));
                        }
                    }
                    j += 1;
                    proof {
                        assert(out.deep_view() == spec_delete_note(
                            row.deep_view().take(j as int),
                            id,
                        ));
                        assert(out.deep_view() == spec_delete_note(row@.take(j as int).map_values(
                            |n: EncryptedNote| n.deep_view(),
                        ), id)) by {
                            assert(row@.take(j as int).map_values(|n: EncryptedNote| n.deep_view())
                                =~= row.deep_view().take(j as int));
                        }
                    }
                }
                proof {
                    assert(row.deep_view().take(row@.len() as int) =~= row.deep_view());
                }
                let ghost old_seq = self.notes@;
                self.notes[i].1 = out;
                proof {
                    let p = self.notes@[i as int];
                    lemma_map_of_update(old_seq, i as int, p);
                    lemma_delete_note_ids_ok(old_seq[i as int].1.deep_view(), id, self.counter);
                    assert forall|x: int|
                        0 <= x < self.notes@.len() implies ids_ok(
                            (#[trigger] self.notes@[x]).1.deep_view(),
                            self.counter,
                        ) by {
                        if x != i {
                            assert(self.notes@[x] == old_seq[x]);
                        }
                    }
                }
            },
        }
    }

    /// Replaces the ciphertext of the caller's note that bears the incoming
    /// note's identifier; the identifier and owner are immutable, and an
    /// unknown identifier or caller is a silent no-op.
    pub fn update_note(&mut self, caller: &Identity, new_note: EncryptedNote)
        requires
            old(self).wf(),
        ensures
            final(self).wf(),
            final(self).counter == old(self).counter,
            final(self)@ == (if old(self)@.contains_key(caller@) && has_id(
                old(self)@[caller@],
                new_note.id,
            ) {
                old(self)@.insert(
                    caller@,
                    old(self)@[caller@].update(
                        idx_of_id(old(self)@[caller@], new_note.id),
                        (NoteView { id: new_note.id, data: new_note.data@ }),
                    ),
                )
            } else {
                old(self)@
            }),
    {
        proof {
            lemma_map_of_dom(self.notes@);
        }
        match find_id(&self.notes, caller) {
            None => {},
            Some(i) => {
                proof {
                    lemma_map_of_index(self.notes@, i as int);
                }
                let target = new_note.id;
                let mut j: usize = 0;
                let mut found: Option<usize> = None;
                let row_len = self.notes[i].1.len();
                while j < row_len
                    invariant
                        i < self.notes@.len(),
                        j <= row_len,
                        row_len == self.notes@[i as int].1@.len(),
                        match found {
                            Some(f) => f < j && self.notes@[i as int].1.deep_view()[f as int].id
                                == target,
                            None => forall|y: int|
                                0 <= y < j ==> (#[trigger] self.notes@[i as int].1.deep_view()[y]).id
                                    != target,
                        },
                    decreases row_len - j,
                {
                    if found.is_none() && self.notes[i].1[j].id == target {
                        found = Some(j);
                    }
                    j += 1;
                }
                match found {
                    None => {
                        proof {
                            assert(!has_id(old(self)@[caller@], new_note.id));
                        }
                    },
                    Some(f) => {
                        let ghost old_seq = self.notes@;
                        let ghost old_row = self.notes@[i as int].1.deep_view();
                        let row = &mut self.notes[i].1;
                        row[f].data = new_note.data;
                        proof {
                            let p = self.notes@[i as int];
                            lemma_map_of_update(old_seq, i as int, p);
                            assert(has_id(old_row, target));
                            // identifiers are unique, so the found position
                            // is the position the contract names
                            let w = idx_of_id(old_row, target);
                            assert(old_row[w].id == target);
                            assert(w == f as int) by {
                                if w < f as int {
                                    assert(old_row[w].id < old_row[f as int].id);
                                } else if w > f as int {
                                    assert(old_row[f as int].id < old_row[w].id);
                                }
                            }
                            assert(p.1.deep_view() =~= old_row.update(
                                f as int,
                                (NoteView { id: target, data: new_note.data@ }),
                            ));
                            assert forall|x: int|
                                0 <= x < self.notes@.len() implies ids_ok(
                                    (#[trigger] self.notes@[x]).1.deep_view(),
                                    self.counter,
                                ) by {
                                if x != i {
                                    assert(self.notes@[x] == old_seq[x]);
                                } else {
                                    assert(ids_ok(old_row, self.counter));
                                    let q = self.notes@[x].1.deep_view();
                                    assert forall|a: int, b: int| #![trigger q[a], q[b]]
                                        0 <= a < b < q.len() implies q[a].id < q[b].id by {
                                        assert(old_row[a].id < old_row[b].id);
                                    }
                                    assert forall|a: int| 0 <= a < q.len() implies (#[trigger] q[a]).id
                                        < self.counter by {
                                        assert(old_row[a].id < self.counter);
                                    }
                                }
                            }
                        }
                    },
                }
            },
        }
    }
    /// Serializes the store into plain values: one entry per identity with
    /// its (identifier, ciphertext) pairs, plus the counter.
    pub fn to_entries(&self) -> (r: (Vec<NoteEntry>, u128))
        requires
            self.wf(),
        ensures
            r.1 == self.counter,
            note_entries_wf(r.0@, self.counter),
            notes_entries_map(r.0@) == self@,
    {
        let mut out: Vec<NoteEntry> = Vec::new();
        let mut i: usize = 0;
        while i < self.notes.len()
            invariant
                i <= self.notes@.len(),
                out@.len() == i,
                forall|x: int|
                    0 <= x < i ==> (#[trigger] out@[x]).0@ == self.notes@[x].0@ && note_rows(
                        out@[x].1@,
                    ) == self.notes@[x].1.deep_view(),
            decreases self.notes@.len() - i,
        {
            let row = &self.notes[i].1;
            let mut pairs: Vec<(u128, String)> = Vec::new();
            let mut j: usize = 0;
            while j < row.len()
                invariant
                    j <= row@.len(),
                    pairs@.len() == j,
                    forall|y: int|
                        0 <= y < j ==> (#[trigger] pairs@[y]).0 == row@[y].id && pairs@[y].1@
                            == row@[y].data@,
                decreases row@.len() - j,
            {
                pairs.push((row[j].id, row[j].data.clone()));
                j += 1;
            }
            proof {
                assert(note_rows(pairs@) =~= self.notes@[i as int].1.deep_view());
            }
            out.push((crate::identity::clone_bytes(&self.notes[i].0.bytes), pairs));
            i += 1;
        }
        proof {
            lemma_notes_entries_align(out@, self.notes@);
            assert forall|x: int|
                0 <= x < out@.len() implies ids_ok(note_rows((#[trigger] out@[x]).1@), self.counter) by {
                assert(ids_ok(self.notes@[x].1.deep_view(), self.counter));
            }
        }
        (out, self.counter)
    }

    /// Rebuilds a store from its serialized form.
    pub fn from_entries(entries: &Vec<NoteEntry>, counter: u128) -> (r: Notes)
        requires
            note_entries_wf(entries@, counter),
        ensures
            r.wf(),
            r.counter == counter,
            r@ == notes_entries_map(entries@),
    {
        let mut notes: Vec<(Identity, Vec<EncryptedNote>)> = Vec::new();
        let mut i: usize = 0;
        while i < entries.len()
            invariant
                i <= entries@.len(),
                notes@.len() == i,
                note_entries_wf(entries@, counter),
                forall|x: int|
                    0 <= x < i ==> (#[trigger] notes@[x]).0@ == entries@[x].0@ && notes@[x].1.deep_view()
                        == note_rows(entries@[x].1@),
            decreases entries@.len() - i,
        {
            let e = &entries[i];
            let mut row: Vec<EncryptedNote> = Vec::new();
            let mut j: usize = 0;
            while j < e.1.len()
                invariant
                    j <= e.1@.len(),
                    row@.len() == j,
                    forall|y: int|
                        0 <= y < j ==> (#[trigger] row@[y]).id == e.1@[y].0 && row@[y].data@
                            == e.1@[y].1@,
                decreases e.1@.len() - j,
            {
                row.push(EncryptedNote { id: e.1[j].0, data: e.1[j].1.clone() });
                j += 1;
            }
            proof {
                assert(row.deep_view() =~= note_rows(entries@[i as int].1@));
            }
            notes.push((Identity::from_bytes(crate::identity::clone_bytes(&e.0)), row));
            i += 1;
        }
        let r = Notes { notes, counter };
        proof {
            lemma_notes_entries_align(entries@, r.notes@);
            assert forall|x: int|
                0 <= x < r.notes@.len() implies ids_ok(
                    (#[trigger] r.notes@[x]).1.deep_view(),
                    counter,
                ) by {
                assert(ids_ok(note_rows(entries@[x].1@), counter));
            }
        }
        r
    }
}

/// One identity's serialized notes: token bytes and (id, ciphertext) pairs.
pub type NoteEntry = (Vec<u8>, Vec<(u128, String)>);

/// The note sequence a serialized row denotes.
pub open spec fn note_rows(s: Seq<(u128, String)>) -> Seq<NoteView> {
    s.map_values(|p: (u128, String)| NoteView { id: p.0, data: p.1@ })
}

/// The store a serialized entry sequence denotes.
pub open spec fn notes_entries_map(s: Seq<NoteEntry>) -> Map<Seq<u8>, Seq<NoteView>>
    decreases s.len(),
{
    if s.len() == 0 {
        Map::empty()
    } else {
        notes_entries_map(s.drop_last()).insert(s.last().0@, note_rows(s.last().1@))
    }
}

/// A serialized store is internally consistent: one entry per identity,
/// every row with well-formed identifiers below the counter.
pub open spec fn note_entries_wf(s: Seq<NoteEntry>, c: u128) -> bool {
    &&& forall|i: int, j: int| #![trigger s[i], s[j]] 0 <= i < j < s.len() ==> s[i].0@ != s[j].0@
    &&& forall|i: int| 0 <= i < s.len() ==> ids_ok(note_rows((#[trigger] s[i]).1@), c)
}

/// Entry sequences and record sequences that agree pointwise denote the
/// same store.
proof fn lemma_notes_entries_align(es: Seq<NoteEntry>, ds: Seq<(Identity, Vec<EncryptedNote>)>)
    requires
        es.len() == ds.len(),
        forall|x: int|
            0 <= x < es.len() ==> (#[trigger] es[x]).0@ == ds[x].0@ && note_rows(es[x].1@)
                == ds[x].1.deep_view(),
    ensures
        notes_entries_map(es) == map_of(ds),
    decreases es.len(),
{
    if es.len() == 0 {
    } else {
        assert forall|x: int|
            0 <= x < es.drop_last().len() implies (#[trigger] es.drop_last()[x]).0@
                == ds.drop_last()[x].0@ && note_rows(es.drop_last()[x].1@) == ds.drop_last()[x].1.deep_view() by {
            assert(es.drop_last()[x] == es[x]);
            assert(ds.drop_last()[x] == ds[x]);
        }
        lemma_notes_entries_align(es.drop_last(), ds.drop_last());
        assert(es[es.len() - 1].0@ == ds[ds.len() - 1].0@);
        assert(note_rows(es[es.len() - 1].1@) == ds[ds.len() - 1].1.deep_view());
    }
}

/// Round trip: the store a serialized form denotes is the store it was
/// taken from, so after deserializing, every query answers exactly as
/// before.
pub proof fn lemma_notes_round_trip(n: Notes, es: Seq<NoteEntry>, n2: Notes)
    requires
        n.wf(),
        notes_entries_map(es) == n@,
        n2@ == notes_entries_map(es),
    ensures
        n2@ == n@,
{
}

} // verus!
