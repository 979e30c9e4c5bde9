use vstd::prelude::*;

verus! {

/// Combined byte-length limit for a note's title plus content.
pub const MAX_NOTE_SIZE_BYTES: usize = 1024;

/// A stored note. The owner is an opaque caller identifier, kept as its raw
/// bytes; title and content are kept as their byte encoding, whose lengths the
/// size limit speaks of.
pub struct Note {
    pub id: u64,
    pub owner: Vec<u8>,
    pub title: Vec<u8>,
    pub content: Vec<u8>,
    pub created_at: u64,
}

/// Mathematical model of a note: the same fields over sequences.
#[verifier::ext_equal]
pub struct NoteView {
    pub id: u64,
    pub owner: Seq<u8>,
    pub title: Seq<u8>,
    pub content: Seq<u8>,
    pub created_at: u64,
}

impl View for Note {
    type V = NoteView;

    open spec fn view(&self) -> NoteView {
        NoteView {
            id: self.id,
            owner: self.owner@,
            title: self.title@,
            content: self.content@,
            created_at: self.created_at,
        }
    }
}

impl Note {
    /// An exact copy; unlike a derived `Clone`, its contract says the views match.
    pub fn duplicate(&self) -> (r: Note)
        ensures
            r@ == self@,
    {
        let r = Note {
            id: self.id,
            owner: self.owner.clone(),
            title: self.title.clone(),
            content: self.content.clone(),
            created_at: self.created_at,
        };
        proof {
            assert(r.owner@ =~= self.owner@);
            assert(r.title@ =~= self.title@);
            assert(r.content@ =~= self.content@);
            assert(r@ =~= self@);
        }
        r
    }
}

/// Whether two byte strings hold the same bytes.
pub fn bytes_eq(a: &Vec<u8>, b: &Vec<u8>) -> (r: bool)
    ensures
        r == (a@ == b@),
{
    if a.len() != b.len() {
        return false;
    }
    let n = a.len();
    let mut i: usize = 0;
    while i < n
        invariant
            n == a@.len(),
            n == b@.len(),
            i <= n,
            forall|k: int| 0 <= k < i ==> a@[k] == b@[k],
        decreases n - i,
    {
        if a[i] != b[i] {
            return false;
        }
        i = i + 1;
    }
    proof {
        assert(a@ =~= b@);
    }
    true
}

/// Why a table operation was refused. Validation failures are checked before
/// existence and ownership, in this order: empty title, empty content, size.
#[derive(Clone, Copy, Debug, PartialEq, Eq, Structural)]
pub enum NoteError {
    EmptyTitle,
    EmptyContent,
    SizeLimitExceeded,
    NotFound,
    NotOwner,
}

impl NoteError {
    /// A human-readable description of the failure.
    pub fn message(&self) -> String {
        match self {
            NoteError::EmptyTitle => "Title cannot be empty.".to_string(),
            NoteError::EmptyContent => "Content cannot be empty.".to_string(),
            NoteError::SizeLimitExceeded => "Note (title + content) exceeds the byte limit.".to_string(),
            NoteError::NotFound => "Note not found.".to_string(),
            NoteError::NotOwner => "You can only modify your own notes.".to_string(),
        }
    }
}

} // verus!
