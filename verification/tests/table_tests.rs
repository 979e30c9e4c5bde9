use note_canister::note::NoteError;
use note_canister::table::NoteTable;

/// The anonymous caller identifier: a single marker byte.
fn anon() -> Vec<u8> {
    vec![4]
}

fn test_principal(id: u8) -> Vec<u8> {
    vec![id; 29]
}

#[test]
fn test_create_note_success() {
    let mut table = NoteTable::new();
    let expected_owner = anon();
    let title = b"Test Note".to_vec();
    let content = b"This is a test note.".to_vec();

    let id = table
        .create_note(expected_owner.clone(), title.clone(), content.clone(), 0)
        .expect("creation should succeed");
    assert_eq!(id, 1);
    let note = table.get_note_by_id(id).expect("stored note should be readable");
    assert_eq!(note.title, title);
    assert_eq!(note.content, content);
    assert_eq!(note.owner, expected_owner);
    assert_eq!(table.next_id(), 2);
}

#[test]
fn test_create_note_empty_title() {
    let mut table = NoteTable::new();
    let result = table.create_note(test_principal(1), b"".to_vec(), b"Content".to_vec(), 0);
    assert!(result.is_err());
    assert_eq!(result.unwrap_err(), NoteError::EmptyTitle);
    assert_eq!(table.note_count(), 0);
}

#[test]
fn test_create_note_exceeds_limit() {
    let mut table = NoteTable::new();
    let long_content = vec![b'a'; 1025];
    let result = table.create_note(test_principal(1), b"Title".to_vec(), long_content, 0);
    assert!(result.is_err());
    assert_eq!(result.unwrap_err(), NoteError::SizeLimitExceeded);
    assert_eq!(table.note_count(), 0);
}

#[test]
fn test_get_notes_for_owner() {
    let mut table = NoteTable::new();
    let owner1 = test_principal(1);
    let owner2 = test_principal(2);
    table.create_note(owner1.clone(), b"N1".to_vec(), b"C1".to_vec(), 0).unwrap();
    table.create_note(owner1.clone(), b"N2".to_vec(), b"C2".to_vec(), 0).unwrap();
    table.create_note(owner2.clone(), b"N3".to_vec(), b"C3".to_vec(), 0).unwrap();

    let notes = table.get_notes(&owner1);
    assert_eq!(notes.len(), 2);
    assert_eq!(notes[0].title, b"N1".to_vec());
    assert_eq!(notes[1].title, b"N2".to_vec());
    let notes2 = table.get_notes(&owner2);
    assert_eq!(notes2.len(), 1);
    assert_eq!(notes2[0].title, b"N3".to_vec());
}

#[test]
fn test_get_notes_anonymous_returns_empty() {
    let table = NoteTable::new();
    let notes = table.get_notes(&anon());
    assert!(notes.is_empty());
}

#[test]
fn test_get_note_by_id_success() {
    let mut table = NoteTable::new();
    let note_id = 1;
    let expected_title = b"Specific Note".to_vec();
    let id = table
        .create_note(test_principal(1), expected_title.clone(), b"Details".to_vec(), 12345)
        .unwrap();
    assert_eq!(id, note_id);

    match table.get_note_by_id(note_id) {
        Some(note) => {
            assert_eq!(note.id, note_id);
            assert_eq!(note.title, expected_title);
            assert_eq!(note.created_at, 12345);
        },
        None => panic!("Note not found by ID"),
    }
}

#[test]
fn test_get_note_by_id_not_found() {
    let table = NoteTable::new();
    let note = table.get_note_by_id(999);
    assert!(note.is_none());
}

#[test]
fn update_rewrites_title_and_content() {
    let mut table = NoteTable::new();
    let owner = test_principal(3);
    let id = table.create_note(owner.clone(), b"Old".to_vec(), b"OldC".to_vec(), 5).unwrap();
    table.update_note(id, &owner, b"New".to_vec(), b"NewC".to_vec()).unwrap();
    let note = table.get_note_by_id(id).unwrap();
    assert_eq!(note.title, b"New".to_vec());
    assert_eq!(note.content, b"NewC".to_vec());
    assert_eq!(note.created_at, 5);
    assert_eq!(note.owner, owner);
}

#[test]
fn update_validates_before_lookup() {
    let mut table = NoteTable::new();
    let result = table.update_note(5, &test_principal(1), b"".to_vec(), b"C".to_vec());
    assert_eq!(result.unwrap_err(), NoteError::EmptyTitle);
    let result = table.update_note(5, &test_principal(1), b"T".to_vec(), b"".to_vec());
    assert_eq!(result.unwrap_err(), NoteError::EmptyContent);
}

#[test]
fn created_ids_are_never_reused() {
    let mut table = NoteTable::new();
    let owner = test_principal(9);
    let first = table.create_note(owner.clone(), b"A".to_vec(), b"a".to_vec(), 0).unwrap();
    table.delete_note(first, &owner).unwrap();
    let second = table.create_note(owner.clone(), b"B".to_vec(), b"b".to_vec(), 0).unwrap();
    assert_ne!(first, second);
    assert_eq!(second, 2);
}

#[test]
fn error_messages_name_the_failure() {
    assert_eq!(NoteError::EmptyTitle.message(), "Title cannot be empty.");
    assert_eq!(NoteError::EmptyContent.message(), "Content cannot be empty.");
    assert_eq!(NoteError::NotFound.message(), "Note not found.");
    assert!(NoteError::SizeLimitExceeded.message().contains("byte limit"));
    assert!(NoteError::NotOwner.message().contains("your own notes"));
}
