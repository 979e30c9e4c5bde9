use vstd::prelude::*;

use crate::note::Note;
use crate::note::NoteView;
use crate::table::TableView;

verus! {

/// First byte of a durable snapshot in the bare pair layout (table, allocator
/// value): the container is a pair and carries no version number.
pub const TAG_LEGACY: u8 = 1;

/// First byte of a durable snapshot in the versioned layout: a container that
/// carries a version number before the pair.
pub const TAG_VERSIONED: u8 = 2;

/// The version written by the save path today.
pub const CURRENT_VERSION: u32 = 1;

// ---------------------------------------------------------------------------
// The snapshot byte format, as spec functions.
//
// An unsigned 64-bit value is eight bytes, least significant first. A byte
// string is its length followed by its bytes. A note is id, creation time,
// owner, title, content. A body is the note count, the notes in storage
// order, and the allocator value; a body must use up its input exactly and
// must describe a well-formed table, or it is rejected in its entirety.
// ---------------------------------------------------------------------------

pub open spec fn spec_enc_u64(x: u64) -> Seq<u8> {
    seq![
        (x & 0xff) as u8,
        ((x >> 8) & 0xff) as u8,
        ((x >> 16) & 0xff) as u8,
        ((x >> 24) & 0xff) as u8,
        ((x >> 32) & 0xff) as u8,
        ((x >> 40) & 0xff) as u8,
        ((x >> 48) & 0xff) as u8,
        ((x >> 56) & 0xff) as u8,
    ]
}

pub open spec fn spec_dec_u64(b: Seq<u8>) -> u64 {
    (b[0] as u64) | ((b[1] as u64) << 8) | ((b[2] as u64) << 16) | ((b[3] as u64) << 24) | ((
    b[4] as u64) << 32) | ((b[5] as u64) << 40) | ((b[6] as u64) << 48) | ((b[7] as u64) << 56)
}

pub open spec fn spec_take_u64(b: Seq<u8>) -> Option<(u64, Seq<u8>)> {
    if b.len() >= 8 {
        Some((spec_dec_u64(b.take(8)), b.skip(8)))
    } else {
        None
    }
}

pub open spec fn spec_take_chunk(b: Seq<u8>) -> Option<(Seq<u8>, Seq<u8>)> {
    match spec_take_u64(b) {
        Some((n, rest)) => if rest.len() >= n {
            Some((rest.take(n as int), rest.skip(n as int)))
        } else {
            None
        },
        None => None,
    }
}

pub open spec fn spec_take_note(b: Seq<u8>) -> Option<(NoteView, Seq<u8>)> {
    match spec_take_u64(b) {
        None => None,
        Some((id, b1)) => match spec_take_u64(b1) {
            None => None,
            Some((created_at, b2)) => match spec_take_chunk(b2) {
                None => None,
                Some((owner, b3)) => match spec_take_chunk(b3) {
                    None => None,
                    Some((title, b4)) => match spec_take_chunk(b4) {
                        None => None,
                        Some((content, b5)) => Some(
                            (NoteView { id, owner, title, content, created_at }, b5),
                        ),
                    },
                },
            },
        },
    }
}

pub open spec fn spec_take_notes(b: Seq<u8>, count: nat) -> Option<(Seq<NoteView>, Seq<u8>)>
    decreases count,
{
    if count == 0 {
        Some((Seq::empty(), b))
    } else {
        match spec_take_note(b) {
            None => None,
            Some((n, rest)) => match spec_take_notes(rest, (count - 1) as nat) {
                None => None,
                Some((s, rest2)) => Some((seq![n] + s, rest2)),
            },
        }
    }
}

pub open spec fn spec_take_body(b: Seq<u8>) -> Option<TableView> {
    match spec_take_u64(b) {
        None => None,
        Some((count, b1)) => match spec_take_notes(b1, count as nat) {
            None => None,
            Some((notes, b2)) => match spec_take_u64(b2) {
                None => None,
                Some((next_id, b3)) => if b3.len() == 0 {
                    let t = TableView { notes, next_id };
                    if t.wf() {
                        Some(t)
                    } else {
                        None
                    }
                } else {
                    None
                },
            },
        },
    }
}

/// The current, versioned layout: its tag, the version, then the body. A
/// readable container whose version is not the current one is not adopted.
pub open spec fn spec_dec_current(b: Seq<u8>) -> Option<TableView> {
    if b.len() >= 1 && b[0] == TAG_VERSIONED {
        match spec_take_u64(b.skip(1)) {
            Some((v, rest)) => if v == CURRENT_VERSION as u64 {
                spec_take_body(rest)
            } else {
                None
            },
            None => None,
        }
    } else {
        None
    }
}

/// The legacy bare pair layout: its tag, then the body.
pub open spec fn spec_dec_legacy(b: Seq<u8>) -> Option<TableView> {
    if b.len() >= 1 && b[0] == TAG_LEGACY {
        spec_take_body(b.skip(1))
    } else {
        None
    }
}

/// The whole restore chain: the current layout first, then the legacy layout,
/// and an empty table with allocator 1 when neither can be read.
pub open spec fn spec_restore(b: Seq<u8>) -> TableView {
    match spec_dec_current(b) {
        Some(t) => t,
        None => match spec_dec_legacy(b) {
            Some(t) => t,
            None => TableView::empty(),
        },
    }
}

pub open spec fn spec_enc_chunk(s: Seq<u8>) -> Seq<u8> {
    spec_enc_u64(s.len() as u64) + s
}

pub open spec fn spec_enc_note(n: NoteView) -> Seq<u8> {
    spec_enc_u64(n.id) + spec_enc_u64(n.created_at) + spec_enc_chunk(n.owner) + spec_enc_chunk(
        n.title,
    ) + spec_enc_chunk(n.content)
}

pub open spec fn spec_enc_notes(s: Seq<NoteView>) -> Seq<u8>
    decreases s.len(),
{
    if s.len() == 0 {
        Seq::empty()
    } else {
        spec_enc_note(s[0]) + spec_enc_notes(s.skip(1))
    }
}

pub open spec fn spec_enc_body(t: TableView) -> Seq<u8> {
    spec_enc_u64(t.notes.len() as u64) + spec_enc_notes(t.notes) + spec_enc_u64(t.next_id)
}

/// What the save path writes for a table.
pub open spec fn spec_enc_current(t: TableView) -> Seq<u8> {
    seq![TAG_VERSIONED] + spec_enc_u64(CURRENT_VERSION as u64) + spec_enc_body(t)
}

/// What the save path of the pre-versioning system wrote for a table.
pub open spec fn spec_enc_legacy(t: TableView) -> Seq<u8> {
    seq![TAG_LEGACY] + spec_enc_body(t)
}

/// The field lengths a note must stay under for its length prefixes to be
/// exact; every note held in memory satisfies this by construction.
pub open spec fn note_bounded(n: NoteView) -> bool {
    &&& n.owner.len() <= u64::MAX
    &&& n.title.len() <= u64::MAX
    &&& n.content.len() <= u64::MAX
}

pub open spec fn table_bounded(t: TableView) -> bool {
    &&& t.notes.len() <= u64::MAX
    &&& forall|i: int| 0 <= i < t.notes.len() ==> note_bounded(#[trigger] t.notes[i])
}

// ---------------------------------------------------------------------------
// Round-trip laws.
// ---------------------------------------------------------------------------

pub proof fn lemma_u64_round_trip(x: u64)
    ensures
        spec_dec_u64(spec_enc_u64(x)) == x,
{
    let e = spec_enc_u64(x);
    assert(e[0] == (x & 0xff) as u8);
    assert(e[1] == ((x >> 8) & 0xff) as u8);
    assert(e[2] == ((x >> 16) & 0xff) as u8);
    assert(e[3] == ((x >> 24) & 0xff) as u8);
    assert(e[4] == ((x >> 32) & 0xff) as u8);
    assert(e[5] == ((x >> 40) & 0xff) as u8);
    assert(e[6] == ((x >> 48) & 0xff) as u8);
    assert(e[7] == ((x >> 56) & 0xff) as u8);
    assert((((x & 0xff) as u8) as u64) | (((((x >> 8) & 0xff) as u8) as u64) << 8) | (((((x >> 16)
        & 0xff) as u8) as u64) << 16) | (((((x >> 24) & 0xff) as u8) as u64) << 24) | (((((x >> 32)
        & 0xff) as u8) as u64) << 32) | (((((x >> 40) & 0xff) as u8) as u64) << 40) | (((((x >> 48)
        & 0xff) as u8) as u64) << 48) | (((((x >> 56) & 0xff) as u8) as u64) << 56) == x)
        by (bit_vector);
}

pub proof fn lemma_take_u64_enc(x: u64, rest: Seq<u8>)
    ensures
        spec_take_u64(spec_enc_u64(x) + rest) == Some((x, rest)),
{
    let b = spec_enc_u64(x) + rest;
    assert(b.take(8) =~= spec_enc_u64(x));
    assert(b.skip(8) =~= rest);
    lemma_u64_round_trip(x);
}

pub proof fn lemma_take_chunk_enc(s: Seq<u8>, rest: Seq<u8>)
    requires
        s.len() <= u64::MAX,
    ensures
        spec_take_chunk(spec_enc_chunk(s) + rest) == Some((s, rest)),
{
    let tail = s + rest;
    vstd::seq_lib::lemma_concat_associative(spec_enc_u64(s.len() as u64), s, rest);
    assert(spec_enc_chunk(s) + rest == spec_enc_u64(s.len() as u64) + tail);
    lemma_take_u64_enc(s.len() as u64, tail);
    assert(tail.take(s.len() as int) =~= s);
    assert(tail.skip(s.len() as int) =~= rest);
}

pub proof fn lemma_take_note_enc(n: NoteView, rest: Seq<u8>)
    requires
        note_bounded(n),
    ensures
        spec_take_note(spec_enc_note(n) + rest) == Some((n, rest)),
{
    let t4 = spec_enc_chunk(n.content) + rest;
    let t3 = spec_enc_chunk(n.title) + t4;
    let t2 = spec_enc_chunk(n.owner) + t3;
    let t1 = spec_enc_u64(n.created_at) + t2;
    let a = spec_enc_u64(n.id);
    let bb = spec_enc_u64(n.created_at);
    let c = spec_enc_chunk(n.owner);
    let d = spec_enc_chunk(n.title);
    let e = spec_enc_chunk(n.content);
    vstd::seq_lib::lemma_concat_associative(a + bb + c + d, e, rest);
    vstd::seq_lib::lemma_concat_associative(a + bb + c, d, t4);
    vstd::seq_lib::lemma_concat_associative(a + bb, c, t3);
    vstd::seq_lib::lemma_concat_associative(a, bb, t2);
    assert(spec_enc_note(n) + rest == a + t1);
    lemma_take_u64_enc(n.id, t1);
    lemma_take_u64_enc(n.created_at, t2);
    lemma_take_chunk_enc(n.owner, t3);
    lemma_take_chunk_enc(n.title, t4);
    lemma_take_chunk_enc(n.content, rest);
    assert(NoteView {
        id: n.id,
        owner: n.owner,
        title: n.title,
        content: n.content,
        created_at: n.created_at,
    } =~= n);
}

#[verifier::rlimit(50)]
pub proof fn lemma_take_notes_enc(s: Seq<NoteView>, rest: Seq<u8>)
    requires
        forall|i: int| 0 <= i < s.len() ==> note_bounded(#[trigger] s[i]),
    ensures
        spec_take_notes(spec_enc_notes(s) + rest, s.len()) == Some((s, rest)),
    decreases s.len(),
{
    if s.len() == 0 {
        assert(spec_enc_notes(s) + rest =~= rest);
        assert(spec_take_notes(rest, 0) == Some((Seq::<NoteView>::empty(), rest)));
        assert(Seq::<NoteView>::empty() =~= s);
    } else {
        let tail = spec_enc_notes(s.skip(1)) + rest;
        vstd::seq_lib::lemma_concat_associative(spec_enc_note(s[0]), spec_enc_notes(s.skip(1)), rest);
        assert(spec_enc_notes(s) + rest == spec_enc_note(s[0]) + tail);
        lemma_take_note_enc(s[0], tail);
        assert(forall|i: int|
            0 <= i < s.skip(1).len() ==> note_bounded(#[trigger] s.skip(1)[i]));
        lemma_take_notes_enc(s.skip(1), rest);
        assert(spec_take_notes(spec_enc_notes(s) + rest, s.len()) == Some(
            (seq![s[0]] + s.skip(1), rest),
        ));
        assert(seq![s[0]] + s.skip(1) =~= s);
    }
}

pub proof fn lemma_take_body_enc(t: TableView)
    requires
        t.wf(),
        table_bounded(t),
    ensures
        spec_take_body(spec_enc_body(t)) == Some(t),
{
    let count = t.notes.len() as u64;
    let t2 = spec_enc_u64(t.next_id);
    let t1 = spec_enc_notes(t.notes) + t2;
    vstd::seq_lib::lemma_concat_associative(spec_enc_u64(count), spec_enc_notes(t.notes), t2);
    assert(spec_enc_body(t) == spec_enc_u64(count) + t1);
    lemma_take_u64_enc(count, t1);
    lemma_take_notes_enc(t.notes, t2);
    lemma_take_u64_enc(t.next_id, Seq::empty());
    assert(t2 + Seq::<u8>::empty() =~= t2);
    assert(TableView { notes: t.notes, next_id: t.next_id } =~= t);
}

/// Round trip: restoring what the save path wrote for a table yields that
/// very table — same notes, same allocator value — with no fallback involved.
pub proof fn lemma_save_restore_round_trip(t: TableView)
    requires
        t.wf(),
        table_bounded(t),
    ensures
        spec_dec_current(spec_enc_current(t)) == Some(t),
        spec_restore(spec_enc_current(t)) == t,
{
    let b = spec_enc_current(t);
    let ver = spec_enc_u64(CURRENT_VERSION as u64);
    let body = spec_enc_body(t);
    vstd::seq_lib::lemma_concat_associative(seq![TAG_VERSIONED], ver, body);
    assert(b == seq![TAG_VERSIONED] + (ver + body));
    assert(b[0] == TAG_VERSIONED);
    assert(b.skip(1) =~= ver + body);
    lemma_take_u64_enc(CURRENT_VERSION as u64, body);
    lemma_take_body_enc(t);
}

/// Backward compatibility: a snapshot written in the legacy bare pair layout
/// restores to the identical table, as if it had been the current layout. The
/// current layout never matches such bytes, so the chain falls through to the
/// legacy attempt.
pub proof fn lemma_legacy_restore_round_trip(t: TableView)
    requires
        t.wf(),
        table_bounded(t),
    ensures
        spec_dec_current(spec_enc_legacy(t)) is None,
        spec_restore(spec_enc_legacy(t)) == t,
{
    let b = spec_enc_legacy(t);
    assert(b[0] == TAG_LEGACY);
    assert(b.skip(1) =~= spec_enc_body(t));
    lemma_take_body_enc(t);
}

/// Whatever a body parse accepts is a well-formed table.
pub proof fn lemma_take_body_wf(b: Seq<u8>)
    ensures
        spec_take_body(b) is Some ==> spec_take_body(b).unwrap().wf(),
{
}

/// Fail-safe restore: the restore chain always yields a well-formed table,
/// and when neither layout matches — corrupt or unreadable bytes — it yields
/// the empty table with allocator 1, raising no error.
pub proof fn lemma_restore_fail_safe(b: Seq<u8>)
    ensures
        spec_restore(b).wf(),
        spec_dec_current(b) is None && spec_dec_legacy(b) is None ==> spec_restore(b)
            == TableView::empty(),
{
    assert(TableView::empty().wf());
    if spec_dec_current(b) is Some {
        if b.len() >= 1 && b[0] == TAG_VERSIONED {
            if spec_take_u64(b.skip(1)) is Some {
                let (v, rest) = spec_take_u64(b.skip(1)).unwrap();
                lemma_take_body_wf(rest);
            }
        }
    } else if spec_dec_legacy(b) is Some {
        lemma_take_body_wf(b.skip(1));
    }
}

// ---------------------------------------------------------------------------
// The executable encoder.
// ---------------------------------------------------------------------------

fn enc_u64_into(out: &mut Vec<u8>, x: u64)
    ensures
        final(out)@ == old(out)@ + spec_enc_u64(x),
{
    out.push((x & 0xff) as u8);
    out.push(((x >> 8) & 0xff) as u8);
    out.push(((x >> 16) & 0xff) as u8);
    out.push(((x >> 24) & 0xff) as u8);
    out.push(((x >> 32) & 0xff) as u8);
    out.push(((x >> 40) & 0xff) as u8);
    out.push(((x >> 48) & 0xff) as u8);
    out.push(((x >> 56) & 0xff) as u8);
    proof {
        assert(out@ =~= old(out)@ + spec_enc_u64(x));
    }
}

fn enc_bytes_into(out: &mut Vec<u8>, s: &Vec<u8>)
    ensures
        final(out)@ == old(out)@ + spec_enc_chunk(s@),
{
    let ghost out0 = out@;
    enc_u64_into(out, s.len() as u64);
    let n = s.len();
    let mut i: usize = 0;
    while i < n
        invariant
            n == s@.len(),
            i <= n,
            out@ == out0 + spec_enc_u64(s@.len() as u64) + s@.take(i as int),
        decreases n - i,
    {
        out.push(s[i]);
        proof {
            assert(s@.take(i + 1 as int) =~= s@.take(i as int).push(s@[i as int]));
            assert(out@ =~= out0 + spec_enc_u64(s@.len() as u64) + s@.take(i + 1 as int));
        }
        i = i + 1;
    }
    proof {
        assert(s@.take(n as int) =~= s@);
        assert(out@ =~= out0 + spec_enc_chunk(s@));
    }
}

fn enc_note_into(out: &mut Vec<u8>, n: &Note)
    ensures
        final(out)@ == old(out)@ + spec_enc_note(n@),
{
    let ghost out0 = out@;
    enc_u64_into(out, n.id);
    enc_u64_into(out, n.created_at);
    enc_bytes_into(out, &n.owner);
    enc_bytes_into(out, &n.title);
    enc_bytes_into(out, &n.content);
    proof {
        assert(out@ =~= out0 + spec_enc_note(n@));
    }
}

/// Serializes a table into the current versioned snapshot layout. Never
/// fails: every in-memory table can be written down.
pub(crate) fn encode_table(notes: &Vec<Note>, next_id: u64) -> (r: Vec<u8>)
    ensures
        r@ == spec_enc_current(
            TableView { notes: notes@.map_values(|n: Note| n@), next_id: next_id },
        ),
{
    let ghost t = TableView { notes: notes@.map_values(|n: Note| n@), next_id: next_id };
    let mut out: Vec<u8> = Vec::new();
    out.push(TAG_VERSIONED);
    let ghost head = seq![TAG_VERSIONED];
    enc_u64_into(&mut out, CURRENT_VERSION as u64);
    enc_u64_into(&mut out, notes.len() as u64);
    let ghost prefix = head + spec_enc_u64(CURRENT_VERSION as u64) + spec_enc_u64(
        t.notes.len() as u64,
    );
    proof {
        assert(t.notes.len() == notes@.len());
        assert(out@ =~= prefix);
        assert(t.notes.take(0) =~= Seq::<NoteView>::empty());
        assert(out@ =~= prefix + spec_enc_notes(t.notes.take(0)));
    }
    let n = notes.len();
    let mut i: usize = 0;
    while i < n
        invariant
            n == notes@.len(),
            n == t.notes.len(),
            t.notes == notes@.map_values(|n: Note| n@),
            i <= n,
            out@ == prefix + spec_enc_notes(t.notes.take(i as int)),
        decreases n - i,
    {
        enc_note_into(&mut out, &notes[i]);
        proof {
            assert(t.notes[i as int] == notes@[i as int]@);
            assert(t.notes.take(i + 1 as int) =~= t.notes.take(i as int).push(t.notes[i as int]));
            lemma_enc_notes_push(t.notes.take(i as int), t.notes[i as int]);
            assert(out@ =~= prefix + spec_enc_notes(t.notes.take(i + 1 as int)));
        }
        i = i + 1;
    }
    enc_u64_into(&mut out, next_id);
    proof {
        assert(t.notes.take(n as int) =~= t.notes);
        assert(out@ =~= spec_enc_current(t));
    }
    out
}

proof fn lemma_enc_notes_push(s: Seq<NoteView>, x: NoteView)
    ensures
        spec_enc_notes(s.push(x)) == spec_enc_notes(s) + spec_enc_note(x),
    decreases s.len(),
{
    if s.len() == 0 {
        assert(s.push(x)[0] == x);
        assert(s.push(x).skip(1) =~= Seq::<NoteView>::empty());
        assert(spec_enc_notes(s.push(x)) == spec_enc_note(x) + spec_enc_notes(
            Seq::<NoteView>::empty(),
        ));
        assert(spec_enc_notes(Seq::<NoteView>::empty()) == Seq::<u8>::empty());
        assert(spec_enc_notes(s) == Seq::<u8>::empty());
        assert(spec_enc_notes(s.push(x)) =~= spec_enc_notes(s) + spec_enc_note(x));
    } else {
        assert(s.push(x)[0] == s[0]);
        assert(s.push(x).skip(1) =~= s.skip(1).push(x));
        lemma_enc_notes_push(s.skip(1), x);
        assert(spec_enc_notes(s.push(x)) =~= spec_enc_notes(s) + spec_enc_note(x));
    }
}

// ---------------------------------------------------------------------------
// The executable decoder.
// ---------------------------------------------------------------------------

fn dec_u64_at(b: &Vec<u8>, pos: usize) -> (r: Option<(u64, usize)>)
    requires
        pos <= b@.len(),
    ensures
        match r {
            Some(v) => {
                &&& spec_take_u64(b@.skip(pos as int)) == Some((v.0, b@.skip(v.1 as int)))
                &&& v.1 == pos + 8
                &&& v.1 <= b@.len()
            },
            None => spec_take_u64(b@.skip(pos as int)) is None,
        },
{
    if b.len() - pos < 8 {
        return None;
    }
    let x = (b[pos] as u64) | ((b[pos + 1] as u64) << 8) | ((b[pos + 2] as u64) << 16) | ((b[pos
        + 3] as u64) << 24) | ((b[pos + 4] as u64) << 32) | ((b[pos + 5] as u64) << 40) | ((b[pos
        + 6] as u64) << 48) | ((b[pos + 7] as u64) << 56);
    proof {
        let s = b@.skip(pos as int);
        assert(s.take(8)[0] == b@[pos as int]);
        assert(s.take(8)[1] == b@[pos + 1]);
        assert(s.take(8)[2] == b@[pos + 2]);
        assert(s.take(8)[3] == b@[pos + 3]);
        assert(s.take(8)[4] == b@[pos + 4]);
        assert(s.take(8)[5] == b@[pos + 5]);
        assert(s.take(8)[6] == b@[pos + 6]);
        assert(s.take(8)[7] == b@[pos + 7]);
        assert(spec_dec_u64(s.take(8)) == x);
        assert(s.skip(8) =~= b@.skip((pos + 8) as int));
    }
    Some((x, pos + 8))
}

fn dec_chunk_at(b: &Vec<u8>, pos: usize) -> (r: Option<(Vec<u8>, usize)>)
    requires
        pos <= b@.len(),
    ensures
        match r {
            Some(v) => {
                &&& spec_take_chunk(b@.skip(pos as int)) == Some((v.0@, b@.skip(v.1 as int)))
                &&& pos <= v.1 <= b@.len()
            },
            None => spec_take_chunk(b@.skip(pos as int)) is None,
        },
{
    let (n64, p1) = match dec_u64_at(b, pos) {
        Some(v) => v,
        None => {
            return None;
        },
    };
    if n64 > (b.len() - p1) as u64 {
        proof {
            assert(b@.skip(p1 as int).len() < n64);
        }
        return None;
    }
    let len = n64 as usize;
    let mut chunk: Vec<u8> = Vec::new();
    let mut i: usize = 0;
    while i < len
        invariant
            p1 + len <= b@.len(),
            p1 + len <= usize::MAX,
            i <= len,
            chunk@ == b@.subrange(p1 as int, p1 + i as int),
        decreases len - i,
    {
        proof {
            assert(p1 + i < b@.len());
        }
        chunk.push(b[p1 + i]);
        proof {
            assert(chunk@ =~= b@.subrange(p1 as int, p1 + (i + 1) as int));
        }
        i = i + 1;
    }
    proof {
        let rest = b@.skip(p1 as int);
        assert(rest.len() >= n64);
        assert(rest.take(n64 as int) =~= b@.subrange(p1 as int, p1 + len as int));
        assert(rest.skip(n64 as int) =~= b@.skip((p1 + len) as int));
        assert(chunk@ =~= rest.take(n64 as int));
    }
    Some((chunk, p1 + len))
}

fn dec_note_at(b: &Vec<u8>, pos: usize) -> (r: Option<(Note, usize)>)
    requires
        pos <= b@.len(),
    ensures
        match r {
            Some(v) => {
                &&& spec_take_note(b@.skip(pos as int)) == Some((v.0@, b@.skip(v.1 as int)))
                &&& pos <= v.1 <= b@.len()
            },
            None => spec_take_note(b@.skip(pos as int)) is None,
        },
{
    let (id, p1) = match dec_u64_at(b, pos) {
        Some(v) => v,
        None => {
            return None;
        },
    };
    let (created_at, p2) = match dec_u64_at(b, p1) {
        Some(v) => v,
        None => {
            return None;
        },
    };
    let (owner, p3) = match dec_chunk_at(b, p2) {
        Some(v) => v,
        None => {
            return None;
        },
    };
    let (title, p4) = match dec_chunk_at(b, p3) {
        Some(v) => v,
        None => {
            return None;
        },
    };
    let (content, p5) = match dec_chunk_at(b, p4) {
        Some(v) => v,
        None => {
            return None;
        },
    };
    let note = Note { id, owner, title, content, created_at };
    proof {
        assert(note@ =~= NoteView {
            id,
            owner: note.owner@,
            title: note.title@,
            content: note.content@,
            created_at,
        });
    }
    Some((note, p5))
}

fn check_wf(notes: &Vec<Note>, next_id: u64) -> (r: bool)
    ensures
        r == (TableView { notes: notes@.map_values(|n: Note| n@), next_id: next_id }).wf(),
{
    let ghost t = TableView { notes: notes@.map_values(|n: Note| n@), next_id: next_id };
    if next_id == 0 {
        return false;
    }
    let n = notes.len();
    let mut i: usize = 0;
    while i < n
        invariant
            n == notes@.len(),
            n == t.notes.len(),
            t.notes == notes@.map_values(|n: Note| n@),
            t.next_id == next_id,
            next_id >= 1,
            i <= n,
            forall|k: int| 0 <= k < i ==> (#[trigger] t.notes[k]).id < next_id,
            forall|k: int| 0 <= k < i - 1 ==> (#[trigger] t.notes[k]).id < t.notes[k + 1].id,
        decreases n - i,
    {
        if notes[i].id >= next_id {
            proof {
                assert(t.notes[i as int].id >= next_id);
                assert(!t.wf());
            }
            return false;
        }
        if i > 0 && notes[i - 1].id >= notes[i].id {
            proof {
                assert(t.notes[i - 1].id >= t.notes[i as int].id);
                assert(!t.wf());
            }
            return false;
        }
        i = i + 1;
    }
    proof {
        lemma_adjacent_implies_sorted(t.notes);
        assert(t.wf());
    }
    true
}

proof fn lemma_sorted_span(s: Seq<NoteView>, i: int, j: int)
    requires
        forall|k: int| 0 <= k < s.len() - 1 ==> (#[trigger] s[k]).id < s[k + 1].id,
        0 <= i < j < s.len(),
    ensures
        s[i].id < s[j].id,
    decreases j - i,
{
    if i + 1 == j {
        assert(s[i].id < s[i + 1].id);
    } else {
        lemma_sorted_span(s, i, j - 1);
        assert(s[j - 1].id < s[j].id);
    }
}

proof fn lemma_adjacent_implies_sorted(s: Seq<NoteView>)
    requires
        forall|k: int| 0 <= k < s.len() - 1 ==> (#[trigger] s[k]).id < s[k + 1].id,
    ensures
        forall|i: int, j: int| 0 <= i < j < s.len() ==> s[i].id < s[j].id,
{
    assert forall|i: int, j: int| 0 <= i < j < s.len() implies s[i].id < s[j].id by {
        lemma_sorted_span(s, i, j);
    }
}

#[verifier::rlimit(80)]
fn decode_body_at(b: &Vec<u8>, pos: usize) -> (r: Option<(Vec<Note>, u64)>)
    requires
        pos <= b@.len(),
    ensures
        match r {
            Some(v) => {
                &&& spec_take_body(b@.skip(pos as int)) == Some(
                    TableView { notes: v.0@.map_values(|n: Note| n@), next_id: v.1 },
                )
                &&& TableView { notes: v.0@.map_values(|n: Note| n@), next_id: v.1 }.wf()
            },
            None => spec_take_body(b@.skip(pos as int)) is None,
        },
{
    let (count, p1) = match dec_u64_at(b, pos) {
        Some(v) => v,
        None => {
            return None;
        },
    };
    let mut notes: Vec<Note> = Vec::new();
    let mut k: u64 = 0;
    let mut p: usize = p1;
    proof {
        assert(notes@.map_values(|n: Note| n@) =~= Seq::<NoteView>::empty());
    }
    while k < count
        invariant
            pos <= b@.len(),
            p <= b@.len(),
            k <= count,
            spec_take_u64(b@.skip(pos as int)) == Some((count, b@.skip(p1 as int))),
            spec_take_notes(b@.skip(p1 as int), count as nat) == (match spec_take_notes(
                b@.skip(p as int),
                (count - k) as nat,
            ) {
                Some(v) => Some((notes@.map_values(|n: Note| n@) + v.0, v.1)),
                None => None::<(Seq<NoteView>, Seq<u8>)>,
            }),
        decreases count - k,
    {
        match dec_note_at(b, p) {
            None => {
                proof {
                    assert(spec_take_notes(b@.skip(p as int), (count - k) as nat) is None);
                    assert(spec_take_notes(b@.skip(p1 as int), count as nat) is None);
                }
                return None;
            },
            Some(v) => {
                let (note, p2) = v;
                proof {
                    let rest0 = b@.skip(p as int);
                    let rest2 = b@.skip(p2 as int);
                    assert(spec_take_note(rest0) == Some((note@, rest2)));
                    let inner = spec_take_notes(rest2, (count - (k + 1)) as nat);
                    assert(spec_take_notes(rest0, (count - k) as nat) == (match inner {
                        Some(w) => Some((seq![note@] + w.0, w.1)),
                        None => None::<(Seq<NoteView>, Seq<u8>)>,
                    }));
                    if inner is Some {
                        let w0 = inner.unwrap().0;
                        let old_views = notes@.map_values(|n: Note| n@);
                        assert(old_views + (seq![note@] + w0) =~= (old_views + seq![note@]) + w0);
                        assert(notes@.push(note).map_values(|n: Note| n@) =~= old_views + seq![
                            note@,
                        ]);
                    }
                }
                notes.push(note);
                p = p2;
                k = k + 1;
            },
        }
    }
    let (nid, p3) = match dec_u64_at(b, p) {
        Some(v) => v,
        None => {
            proof {
                assert(spec_take_notes(b@.skip(p1 as int), count as nat) == Some(
                    (notes@.map_values(|n: Note| n@), b@.skip(p as int)),
                ));
            }
            return None;
        },
    };
    proof {
        assert(spec_take_notes(b@.skip(p1 as int), count as nat) == Some(
            (notes@.map_values(|n: Note| n@), b@.skip(p as int)),
        ));
    }
    if p3 != b.len() {
        proof {
            assert(b@.skip(p3 as int).len() != 0);
        }
        return None;
    }
    proof {
        assert(b@.skip(p3 as int).len() == 0);
    }
    if !check_wf(&notes, nid) {
        return None;
    }
    Some((notes, nid))
}

/// Reads a durable snapshot: the current layout first, then the legacy bare
/// pair, rejecting a container whose version is unknown or whose content is
/// not a well-formed table. `None` means the restore chain falls back to the
/// empty table.
pub(crate) fn decode_table(b: &Vec<u8>) -> (r: Option<(Vec<Note>, u64)>)
    ensures
        match r {
            Some(v) => {
                &&& spec_restore(b@) == TableView {
                    notes: v.0@.map_values(|n: Note| n@),
                    next_id: v.1,
                }
                &&& TableView { notes: v.0@.map_values(|n: Note| n@), next_id: v.1 }.wf()
            },
            None => spec_restore(b@) == TableView::empty(),
        },
{
    if b.len() >= 1 && b[0] == TAG_VERSIONED {
        match dec_u64_at(b, 1) {
            None => {
                return None;
            },
            Some(v) => {
                let (ver, p) = v;
                if ver != CURRENT_VERSION as u64 {
                    return None;
                }
                match decode_body_at(b, p) {
                    Some(w) => {
                        return Some(w);
                    },
                    None => {
                        return None;
                    },
                }
            },
        }
    }
    if b.len() >= 1 && b[0] == TAG_LEGACY {
        match decode_body_at(b, 1) {
            Some(w) => {
                return Some(w);
            },
            None => {
                return None;
            },
        }
    }
    None
}

} // verus!
