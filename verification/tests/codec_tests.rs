use note_canister::note::NoteError;
use note_canister::table::NoteTable;

fn test_principal(id: u8) -> Vec<u8> {
    vec![id; 29]
}

fn push_u64(out: &mut Vec<u8>, x: u64) {
    for k in 0..8 {
        out.push((x >> (8 * k)) as u8);
    }
}

fn push_chunk(out: &mut Vec<u8>, s: &[u8]) {
    push_u64(out, s.len() as u64);
    out.extend_from_slice(s);
}

fn push_note(out: &mut Vec<u8>, id: u64, created_at: u64, owner: &[u8], title: &[u8], content: &[u8]) {
    push_u64(out, id);
    push_u64(out, created_at);
    push_chunk(out, owner);
    push_chunk(out, title);
    push_chunk(out, content);
}

#[test]
fn round_trip_preserves_notes_and_allocator() {
    let mut table = NoteTable::new();
    let owner = test_principal(1);
    table.create_note(owner.clone(), b"First".to_vec(), b"one".to_vec(), 10).unwrap();
    let second = table.create_note(owner.clone(), b"Second".to_vec(), b"two".to_vec(), 20).unwrap();
    table.create_note(test_principal(2), b"Third".to_vec(), b"three".to_vec(), 30).unwrap();
    table.delete_note(second, &owner).unwrap();

    let bytes = table.save_snapshot();
    let restored = NoteTable::restore_from_bytes(&bytes);

    assert_eq!(restored.note_count(), 2);
    assert_eq!(restored.next_id(), 4);
    let first = restored.get_note_by_id(1).unwrap();
    assert_eq!(first.title, b"First".to_vec());
    assert_eq!(first.content, b"one".to_vec());
    assert_eq!(first.owner, owner);
    assert_eq!(first.created_at, 10);
    assert!(restored.get_note_by_id(second).is_none());
    let third = restored.get_note_by_id(3).unwrap();
    assert_eq!(third.title, b"Third".to_vec());
}

#[test]
fn legacy_bare_pair_snapshot_restores() {
    // A snapshot written by the pre-versioning save path: the pair tag, the
    // note count, the notes, the allocator value — and no version number.
    let mut bytes: Vec<u8> = vec![1];
    push_u64(&mut bytes, 1);
    push_note(&mut bytes, 1, 7, &test_principal(5), b"Groceries", b"milk, eggs");
    push_u64(&mut bytes, 2);

    let restored = NoteTable::restore_from_bytes(&bytes);
    assert_eq!(restored.note_count(), 1);
    assert_eq!(restored.next_id(), 2);
    let note = restored.get_note_by_id(1).unwrap();
    assert_eq!(note.owner, test_principal(5));
    assert_eq!(note.title, b"Groceries".to_vec());
    assert_eq!(note.content, b"milk, eggs".to_vec());
    assert_eq!(note.created_at, 7);
}

#[test]
fn corrupt_snapshot_restores_empty() {
    let garbage = vec![0xde, 0xad, 0xbe, 0xef];
    let restored = NoteTable::restore_from_bytes(&garbage);
    assert_eq!(restored.note_count(), 0);
    assert_eq!(restored.next_id(), 1);

    let empty: Vec<u8> = Vec::new();
    let restored = NoteTable::restore_from_bytes(&empty);
    assert_eq!(restored.note_count(), 0);
    assert_eq!(restored.next_id(), 1);
}

#[test]
fn truncated_snapshot_restores_empty() {
    let mut table = NoteTable::new();
    table.create_note(test_principal(1), b"T".to_vec(), b"C".to_vec(), 0).unwrap();
    let mut bytes = table.save_snapshot();
    bytes.truncate(bytes.len() / 2);
    let restored = NoteTable::restore_from_bytes(&bytes);
    assert_eq!(restored.note_count(), 0);
    assert_eq!(restored.next_id(), 1);
}

#[test]
fn unknown_version_restores_empty() {
    // A container tagged as versioned, carrying version 2 over an otherwise
    // valid body: not adopted, and the legacy attempt cannot match either.
    let mut bytes: Vec<u8> = vec![2];
    push_u64(&mut bytes, 2);
    push_u64(&mut bytes, 0);
    push_u64(&mut bytes, 1);
    let restored = NoteTable::restore_from_bytes(&bytes);
    assert_eq!(restored.note_count(), 0);
    assert_eq!(restored.next_id(), 1);
}

#[test]
fn inconsistent_snapshot_restores_empty() {
    // Structurally readable, but the allocator value does not stay ahead of
    // the stored ids: rejected in its entirety.
    let mut bytes: Vec<u8> = vec![1];
    push_u64(&mut bytes, 1);
    push_note(&mut bytes, 9, 0, &test_principal(1), b"T", b"C");
    push_u64(&mut bytes, 1);
    let restored = NoteTable::restore_from_bytes(&bytes);
    assert_eq!(restored.note_count(), 0);
    assert_eq!(restored.next_id(), 1);
}

#[test]
fn scenario_create_list_delete() {
    let mut table = NoteTable::new();
    let owner = test_principal(7);

    let id = table
        .create_note(owner.clone(), b"Groceries".to_vec(), b"milk, eggs".to_vec(), 100)
        .unwrap();
    assert_eq!(id, 1);

    let notes = table.get_notes(&owner);
    assert_eq!(notes.len(), 1);
    assert_eq!(notes[0].id, 1);
    assert_eq!(notes[0].title, b"Groceries".to_vec());

    let id2 = table
        .create_note(owner.clone(), b"Chores".to_vec(), b"sweep".to_vec(), 200)
        .unwrap();
    assert_eq!(id2, 2);

    table.delete_note(1, &owner).unwrap();
    assert!(table.get_note_by_id(1).is_none());

    let notes = table.get_notes(&owner);
    assert_eq!(notes.len(), 1);
    assert_eq!(notes[0].id, 2);
}

#[test]
fn update_missing_note_is_not_found() {
    let mut table = NoteTable::new();
    let owner = test_principal(1);
    table.create_note(owner.clone(), b"Keep".to_vec(), b"me".to_vec(), 0).unwrap();

    let result = table.update_note(5, &owner, b"New".to_vec(), b"text".to_vec());
    assert_eq!(result.unwrap_err(), NoteError::NotFound);
    assert_eq!(table.note_count(), 1);
    assert_eq!(table.next_id(), 2);
    assert_eq!(table.get_note_by_id(1).unwrap().title, b"Keep".to_vec());
}

#[test]
fn update_by_non_owner_is_rejected() {
    let mut table = NoteTable::new();
    let owner = test_principal(1);
    let other = test_principal(2);
    let id = table.create_note(owner.clone(), b"Mine".to_vec(), b"secret".to_vec(), 0).unwrap();

    let result = table.update_note(id, &other, b"Taken".to_vec(), b"over".to_vec());
    assert_eq!(result.unwrap_err(), NoteError::NotOwner);
    let note = table.get_note_by_id(id).unwrap();
    assert_eq!(note.title, b"Mine".to_vec());
    assert_eq!(note.content, b"secret".to_vec());
}

#[test]
fn delete_by_non_owner_is_rejected() {
    let mut table = NoteTable::new();
    let owner = test_principal(1);
    let other = test_principal(2);
    let id = table.create_note(owner.clone(), b"Mine".to_vec(), b"still".to_vec(), 0).unwrap();

    let result = table.delete_note(id, &other);
    assert_eq!(result.unwrap_err(), NoteError::NotOwner);
    assert!(table.get_note_by_id(id).is_some());
}

#[test]
fn save_failure_keeps_previous_snapshot() {
    // The host writes a snapshot, more work happens, and the next save is
    // lost to a fault at the storage medium. The medium then still holds the
    // older complete snapshot — never a half-written one — and restore reads
    // that stale state.
    let mut table = NoteTable::new();
    let owner = test_principal(3);
    table.create_note(owner.clone(), b"One".to_vec(), b"1".to_vec(), 0).unwrap();
    table.create_note(owner.clone(), b"Two".to_vec(), b"2".to_vec(), 0).unwrap();
    table.create_note(owner.clone(), b"Three".to_vec(), b"3".to_vec(), 0).unwrap();

    let durable = table.save_snapshot();

    table.create_note(owner.clone(), b"Four".to_vec(), b"4".to_vec(), 0).unwrap();
    let _lost = table.save_snapshot();
    // The fault: `_lost` never reaches the medium; `durable` stays as it was.

    let restored = NoteTable::restore_from_bytes(&durable);
    assert_eq!(restored.note_count(), 3);
    assert_eq!(restored.next_id(), 4);
    assert!(restored.get_note_by_id(4).is_none());
}

#[test]
fn clear_resets_table_and_allocator() {
    let mut table = NoteTable::new();
    table.create_note(test_principal(1), b"T".to_vec(), b"C".to_vec(), 0).unwrap();
    table.clear();
    assert_eq!(table.note_count(), 0);
    assert_eq!(table.next_id(), 1);
}
