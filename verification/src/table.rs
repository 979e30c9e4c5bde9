use vstd::prelude::*;

use crate::codec::decode_table;
use crate::codec::encode_table;
use crate::codec::spec_enc_current;
use crate::codec::spec_restore;
use crate::note::bytes_eq;
use crate::note::MAX_NOTE_SIZE_BYTES;
use crate::note::Note;
use crate::note::NoteError;
use crate::note::NoteView;

verus! {

/// Mathematical model of the note table: the stored notes in insertion order,
/// and the value the identifier allocator will hand out next.
#[verifier::ext_equal]
pub struct TableView {
    pub notes: Seq<NoteView>,
    pub next_id: u64,
}

impl TableView {
    /// The state of a freshly initialized table.
    pub open spec fn empty() -> TableView {
        TableView { notes: Seq::empty(), next_id: 1 }
    }

    /// Well-formedness: the allocator starts at 1 and stays ahead of every
    /// stored id, and ids appear in strictly increasing order (each note was
    /// appended with a fresh id), so no two notes share an id.
    pub open spec fn wf(self) -> bool {
        &&& 1 <= self.next_id
        &&& forall|i: int| 0 <= i < self.notes.len() ==> (#[trigger] self.notes[i]).id < self.next_id
        &&& forall|i: int, j: int|
            0 <= i < j < self.notes.len() ==> (#[trigger] self.notes[i]).id < (
            #[trigger] self.notes[j]).id
    }

    /// Whether some stored note carries the given id.
    pub open spec fn has_id(self, id: u64) -> bool {
        exists|i: int| 0 <= i < self.notes.len() && (#[trigger] self.notes[i]).id == id
    }

    /// The position of the note carrying the given id (well-defined whenever
    /// the table is well-formed and the id is present).
    pub open spec fn idx_of(self, id: u64) -> int {
        choose|i: int| 0 <= i < self.notes.len() && (#[trigger] self.notes[i]).id == id
    }

    /// The note stored under the given id.
    pub open spec fn note_of(self, id: u64) -> NoteView {
        self.notes[self.idx_of(id)]
    }
}

/// In a well-formed table, a note found at some position is the one and only
/// note with its id, and the lookup functions point at exactly that position.
pub proof fn lemma_unique_index(t: TableView, i: int, id: u64)
    requires
        t.wf(),
        0 <= i < t.notes.len(),
        t.notes[i].id == id,
    ensures
        t.has_id(id),
        t.idx_of(id) == i,
        t.note_of(id) == t.notes[i],
{
    assert(t.has_id(id));
    let k = t.idx_of(id);
    if k < i {
        assert(t.notes[k].id < t.notes[i].id);
    } else if k > i {
        assert(t.notes[i].id < t.notes[k].id);
    }
}

/// Uniqueness law: a well-formed table never stores two notes with the same
/// id. Together with `lemma_created_ids_distinct` this says that no two
/// creations ever hand out equal ids.
pub proof fn lemma_note_ids_unique(t: TableView)
    requires
        t.wf(),
    ensures
        forall|i: int, j: int|
            0 <= i < t.notes.len() && 0 <= j < t.notes.len() && i != j ==> (
            #[trigger] t.notes[i]).id != (#[trigger] t.notes[j]).id,
{
}

/// Uniqueness law across calls: `create_note` returns the allocator value and
/// leaves the allocator strictly larger, so along any sequence of creations
/// the returned ids strictly increase. Hence an id handed out when the
/// allocator stood at `t1.next_id` differs from one handed out at any later
/// state `t2`, even if the first note was deleted in between.
pub proof fn lemma_created_ids_distinct(t1: TableView, t2: TableView, id1: u64, id2: u64)
    requires
        id1 == t1.next_id,
        t1.next_id < t2.next_id,
        id2 == t2.next_id,
    ensures
        id1 != id2,
{
}

/// Validation outcome for a note's text fields, checked in this order: empty
/// title, empty content, combined size over the limit.
pub open spec fn spec_validate(title: Seq<u8>, content: Seq<u8>) -> Option<NoteError> {
    if title.len() == 0 {
        Some(NoteError::EmptyTitle)
    } else if content.len() == 0 {
        Some(NoteError::EmptyContent)
    } else if title.len() + content.len() > MAX_NOTE_SIZE_BYTES {
        Some(NoteError::SizeLimitExceeded)
    } else {
        None
    }
}

/// The predicate `get_notes` filters with: the note belongs to `owner`.
pub open spec fn owned_by(owner: Seq<u8>) -> spec_fn(NoteView) -> bool {
    |nv: NoteView| nv.owner == owner
}

/// The in-memory note store: notes keyed by their id, plus the monotonic
/// identifier allocator.
pub struct NoteTable {
    notes: Vec<Note>,
    next_id: u64,
}

impl View for NoteTable {
    type V = TableView;

    closed spec fn view(&self) -> TableView {
        TableView { notes: self.notes@.map_values(|n: Note| n@), next_id: self.next_id }
    }
}

/// Checks the text fields of a note, in the order the errors are defined.
fn validate_fields(title: &Vec<u8>, content: &Vec<u8>) -> (r: Option<NoteError>)
    ensures
        r == spec_validate(title@, content@),
{
    if title.len() == 0 {
        Some(NoteError::EmptyTitle)
    } else if content.len() == 0 {
        Some(NoteError::EmptyContent)
    } else if title.len() > MAX_NOTE_SIZE_BYTES || content.len() > MAX_NOTE_SIZE_BYTES
        - title.len() {
        Some(NoteError::SizeLimitExceeded)
    } else {
        None
    }
}

impl NoteTable {
    /// An empty table whose allocator starts at 1.
    pub fn new() -> (r: NoteTable)
        ensures
            r@ == TableView::empty(),
            r@.wf(),
    {
        let r = NoteTable { notes: Vec::new(), next_id: 1 };
        proof {
            assert(r@.notes =~= Seq::<NoteView>::empty());
            assert(r@ =~= TableView::empty());
        }
        r
    }

    /// Empties the table and resets the allocator, as state reconstruction does.
    pub fn clear(&mut self)
        ensures
            final(self)@ == TableView::empty(),
            final(self)@.wf(),
    {
        self.notes.clear();
        self.next_id = 1;
        proof {
            assert(final(self)@.notes =~= Seq::<NoteView>::empty());
            assert(final(self)@ =~= TableView::empty());
        }
    }

    /// How many notes the table holds.
    pub fn note_count(&self) -> (r: usize)
        ensures
            r == self@.notes.len(),
    {
        self.notes.len()
    }

    /// The value the allocator will hand out next.
    pub fn next_id(&self) -> (r: u64)
        ensures
            r == self@.next_id,
    {
        self.next_id
    }

    /// Returns the next unused identifier and advances the allocator by one.
    pub fn get_next_id(&mut self) -> (id: u64)
        requires
            old(self)@.next_id < u64::MAX,
        ensures
            id == old(self)@.next_id,
            final(self)@.notes == old(self)@.notes,
            final(self)@.next_id == old(self)@.next_id + 1,
            old(self)@.wf() ==> final(self)@.wf(),
    {
        let id = self.next_id;
        self.next_id = self.next_id + 1;
        proof {
            assert(final(self)@.notes =~= old(self)@.notes);
        }
        id
    }

    /// Validates the fields, then stores a new note under a fresh id owned by
    /// `owner` with creation time `now`, and returns the id.
    pub fn create_note(
        &mut self,
        owner: Vec<u8>,
        title: Vec<u8>,
        content: Vec<u8>,
        now: u64,
    ) -> (r: Result<u64, NoteError>)
        requires
            old(self)@.wf(),
            old(self)@.next_id < u64::MAX,
        ensures
            final(self)@.wf(),
            match spec_validate(title@, content@) {
                Some(e) => r == Err::<u64, NoteError>(e) && final(self)@ == old(self)@,
                None => {
                    &&& r == Ok::<u64, NoteError>(old(self)@.next_id)
                    &&& final(self)@.notes == old(self)@.notes.push(
                        NoteView {
                            id: old(self)@.next_id,
                            owner: owner@,
                            title: title@,
                            content: content@,
                            created_at: now,
                        },
                    )
                    &&& final(self)@.next_id == old(self)@.next_id + 1
                },
            },
    {
        if let Some(e) = validate_fields(&title, &content) {
            return Err(e);
        }
        let new_id = self.get_next_id();
        let note = Note { id: new_id, owner, title, content, created_at: now };
        let ghost nv = note@;
        self.notes.push(note);
        proof {
            assert(final(self)@.notes =~= old(self)@.notes.push(nv));
            assert forall|i: int| 0 <= i < final(self)@.notes.len() implies (
            #[trigger] final(self)@.notes[i]).id < final(self)@.next_id by {
                if i < old(self)@.notes.len() {
                    assert(old(self)@.notes[i].id < old(self)@.next_id);
                }
            }
            assert forall|i: int, j: int| 0 <= i < j < final(self)@.notes.len() implies (
            #[trigger] final(self)@.notes[i]).id < (#[trigger] final(self)@.notes[j]).id by {
                if j < old(self)@.notes.len() {
                } else {
                    assert(final(self)@.notes[j].id == old(self)@.next_id);
                    assert(old(self)@.notes[i].id < old(self)@.next_id);
                }
            }
        }
        Ok(new_id)
    }

    /// Returns a copy of the note stored under `id`, if any. No ownership
    /// check: anyone who knows an id may read the note.
    pub fn get_note_by_id(&self, id: u64) -> (r: Option<Note>)
        requires
            self@.wf(),
        ensures
            r is Some <==> self@.has_id(id),
            r is Some ==> r.unwrap()@ == self@.note_of(id),
    {
        let n = self.notes.len();
        let mut i: usize = 0;
        while i < n
            invariant
                n == self@.notes.len(),
                i <= n,
                self@.wf(),
                forall|k: int| 0 <= k < i ==> (#[trigger] self@.notes[k]).id != id,
            decreases n - i,
        {
            if self.notes[i].id == id {
                let found = self.notes[i].duplicate();
                proof {
                    lemma_unique_index(self@, i as int, id);
                }
                return Some(found);
            }
            i = i + 1;
        }
        None
    }

    /// Returns copies of all notes owned by `owner`, in storage order.
    pub fn get_notes(&self, owner: &Vec<u8>) -> (r: Vec<Note>)
        ensures
            r@.map_values(|n: Note| n@) == self@.notes.filter(owned_by(owner@)),
    {
        let n = self.notes.len();
        let mut out: Vec<Note> = Vec::new();
        let mut i: usize = 0;
        proof {
            assert(out@.map_values(|n: Note| n@) =~= self@.notes.take(0).filter(
                owned_by(owner@),
            ));
        }
        while i < n
            invariant
                n == self@.notes.len(),
                i <= n,
                out@.map_values(|n: Note| n@) == self@.notes.take(i as int).filter(
                    owned_by(owner@),
                ),
            decreases n - i,
        {
            let ghost taken = self@.notes.take(i as int);
            let ghost taken1 = self@.notes.take(i + 1 as int);
            proof {
                assert(taken1.drop_last() =~= taken);
                assert(taken1.last() == self@.notes[i as int]);
                reveal_with_fuel(Seq::filter, 2);
            }
            if bytes_eq(&self.notes[i].owner, owner) {
                let copy = self.notes[i].duplicate();
                out.push(copy);
                proof {
                    assert(owned_by(owner@)(self@.notes[i as int]));
                    assert(taken1.filter(owned_by(owner@)) == taken.filter(owned_by(owner@)).push(
                        self@.notes[i as int],
                    ));
                    assert(out@.map_values(|n: Note| n@) =~= taken1.filter(owned_by(owner@)));
                }
            } else {
                proof {
                    assert(self.notes[i as int].owner@ != owner@);
                    assert(!owned_by(owner@)(self@.notes[i as int]));
                    assert(taken1.filter(owned_by(owner@)) == taken.filter(owned_by(owner@)));
                }
            }
            i = i + 1;
        }
        proof {
            assert(self@.notes.take(n as int) =~= self@.notes);
        }
        out
    }

    /// Replaces the title and content of the note under `id`, provided the
    /// note exists and `caller` is its owner; otherwise fails without change.
    /// Field validation comes before the existence and ownership checks.
    pub fn update_note(
        &mut self,
        id: u64,
        caller: &Vec<u8>,
        title: Vec<u8>,
        content: Vec<u8>,
    ) -> (r: Result<(), NoteError>)
        requires
            old(self)@.wf(),
        ensures
            final(self)@.wf(),
            match spec_validate(title@, content@) {
                Some(e) => r == Err::<(), NoteError>(e) && final(self)@ == old(self)@,
                None => {
                    if !old(self)@.has_id(id) {
                        r == Err::<(), NoteError>(NoteError::NotFound) && final(self)@ == old(
                            self,
                        )@
                    } else if old(self)@.note_of(id).owner != caller@ {
                        r == Err::<(), NoteError>(NoteError::NotOwner) && final(self)@ == old(
                            self,
                        )@
                    } else {
                        &&& r == Ok::<(), NoteError>(())
                        &&& final(self)@.notes == old(self)@.notes.update(
                            old(self)@.idx_of(id),
                            NoteView { title: title@, content: content@, ..old(self)@.note_of(id) },
                        )
                        &&& final(self)@.next_id == old(self)@.next_id
                    }
                },
            },
    {
        if let Some(e) = validate_fields(&title, &content) {
            return Err(e);
        }
        let n = self.notes.len();
        let mut i: usize = 0;
        while i < n
            invariant
                n == self@.notes.len(),
                i <= n,
                self@.wf(),
                self == old(self),
                spec_validate(title@, content@) is None,
                forall|k: int| 0 <= k < i ==> (#[trigger] self@.notes[k]).id != id,
            decreases n - i,
        {
            if self.notes[i].id == id {
                proof {
                    lemma_unique_index(self@, i as int, id);
                }
                if !bytes_eq(&self.notes[i].owner, caller) {
                    return Err(NoteError::NotOwner);
                }
                let updated = Note {
                    id: self.notes[i].id,
                    owner: self.notes[i].owner.clone(),
                    title,
                    content,
                    created_at: self.notes[i].created_at,
                };
                let ghost uv = updated@;
                proof {
                    assert(uv.owner =~= old(self)@.note_of(id).owner);
                    assert(uv =~= NoteView {
                        title: title@,
                        content: content@,
                        ..old(self)@.note_of(id)
                    });
                }
                self.notes[i] = updated;
                proof {
                    assert(final(self)@.notes =~= old(self)@.notes.update(i as int, uv));
                    assert forall|p: int, q: int| 0 <= p < q < final(self)@.notes.len() implies (
                    #[trigger] final(self)@.notes[p]).id < (#[trigger] final(self)@.notes[q]).id by {
                        assert(final(self)@.notes[p].id == old(self)@.notes[p].id);
                        assert(final(self)@.notes[q].id == old(self)@.notes[q].id);
                    }
                }
                return Ok(());
            }
            i = i + 1;
        }
        proof {
            assert(!old(self)@.has_id(id));
        }
        Err(NoteError::NotFound)
    }

    /// Deletes the note under `id`, provided it exists and `caller` is its
    /// owner; otherwise fails without change.
    pub fn delete_note(&mut self, id: u64, caller: &Vec<u8>) -> (r: Result<(), NoteError>)
        requires
            old(self)@.wf(),
        ensures
            final(self)@.wf(),
            if !old(self)@.has_id(id) {
                r == Err::<(), NoteError>(NoteError::NotFound) && final(self)@ == old(self)@
            } else if old(self)@.note_of(id).owner != caller@ {
                r == Err::<(), NoteError>(NoteError::NotOwner) && final(self)@ == old(self)@
            } else {
                &&& r == Ok::<(), NoteError>(())
                &&& final(self)@.notes == old(self)@.notes.remove(old(self)@.idx_of(id))
                &&& final(self)@.next_id == old(self)@.next_id
            },
    {
        let n = self.notes.len();
        let mut i: usize = 0;
        while i < n
            invariant
                n == self@.notes.len(),
                i <= n,
                self@.wf(),
                self == old(self),
                forall|k: int| 0 <= k < i ==> (#[trigger] self@.notes[k]).id != id,
            decreases n - i,
        {
            if self.notes[i].id == id {
                proof {
                    lemma_unique_index(self@, i as int, id);
                }
                if !bytes_eq(&self.notes[i].owner, caller) {
                    return Err(NoteError::NotOwner);
                }
                self.notes.remove(i);
                proof {
                    assert(final(self)@.notes =~= old(self)@.notes.remove(i as int));
                    assert forall|p: int| 0 <= p < final(self)@.notes.len() implies (
                    #[trigger] final(self)@.notes[p]).id < final(self)@.next_id by {
                        if p < i {
                            assert(final(self)@.notes[p] == old(self)@.notes[p]);
                        } else {
                            assert(final(self)@.notes[p] == old(self)@.notes[p + 1]);
                        }
                    }
                    assert forall|p: int, q: int| 0 <= p < q < final(self)@.notes.len() implies (
                    #[trigger] final(self)@.notes[p]).id < (#[trigger] final(self)@.notes[q]).id by {
                        let p0 = if p < i { p } else { p + 1 };
                        let q0 = if q < i { q } else { q + 1 };
                        assert(final(self)@.notes[p] == old(self)@.notes[p0]);
                        assert(final(self)@.notes[q] == old(self)@.notes[q0]);
                        assert(old(self)@.notes[p0].id < old(self)@.notes[q0].id);
                    }
                }
                return Ok(());
            }
            i = i + 1;
        }
        proof {
            assert(!old(self)@.has_id(id));
        }
        Err(NoteError::NotFound)
    }

    /// Serializes the table into the current versioned snapshot layout, ready
    /// to be written to the durable storage medium. Never fails.
    pub fn save_snapshot(&self) -> (r: Vec<u8>)
        ensures
            r@ == spec_enc_current(self@),
    {
        encode_table(&self.notes, self.next_id)
    }

    /// Rebuilds a table from the durable snapshot read after a restart,
    /// trying the current layout first, then the legacy bare pair, and
    /// falling back to an empty table when neither can be read. Never fails.
    pub fn restore_from_bytes(b: &Vec<u8>) -> (r: NoteTable)
        ensures
            r@ == spec_restore(b@),
            r@.wf(),
    {
        match decode_table(b) {
            Some(v) => {
                let (notes, next_id) = v;
                let t = NoteTable { notes, next_id };
                proof {
                    assert(t@ =~= spec_restore(b@));
                }
                t
            },
            None => NoteTable::new(),
        }
    }
}

} // verus!
