use vault_publish::bytes::same_bytes;
use vault_publish::destination::{Destination, EmitError};
use vault_publish::entry::{
    artifact_name, classify, has_note_extension, is_reserved_directory, select_note, Artifact,
    EntryKind, Skipped, Visit,
};
use vault_publish::note::NoteError;

fn artifact(name: &str, body: &str) -> Artifact {
    Artifact { name: name.as_bytes().to_vec(), body: body.as_bytes().to_vec() }
}

#[test]
fn reserved_directories_are_skipped() {
    assert_eq!(classify(EntryKind::Directory, b".obsidian"), Visit::Skip);
    assert_eq!(classify(EntryKind::Directory, b".trash"), Visit::Skip);
    assert!(is_reserved_directory(b".obsidian"));
    assert!(is_reserved_directory(b".trash"));
}

#[test]
fn other_directories_are_walked() {
    assert_eq!(classify(EntryKind::Directory, b"notes"), Visit::Descend);
    assert_eq!(classify(EntryKind::Directory, b"notes.md"), Visit::Descend);
    assert_eq!(classify(EntryKind::Directory, b".git"), Visit::Descend);
    assert_eq!(classify(EntryKind::Directory, b""), Visit::Descend);
}

#[test]
fn reserved_names_are_matched_byte_for_byte() {
    assert!(!is_reserved_directory(b".Obsidian"));
    assert!(!is_reserved_directory(b".Trash"));
    assert!(!is_reserved_directory(b"obsidian"));
    assert!(!is_reserved_directory(b"trash"));
    assert!(!is_reserved_directory(b".obsidian "));
    assert!(!is_reserved_directory(b".trash2"));
    assert!(!is_reserved_directory(b".tras"));
    assert!(!is_reserved_directory(b"x.trash"));
    assert!(!is_reserved_directory(b""));
}

#[test]
fn files_with_the_extension_md_are_read() {
    assert_eq!(classify(EntryKind::File, b"a.md"), Visit::Read);
    assert_eq!(classify(EntryKind::File, b"My note.md"), Visit::Read);
    assert_eq!(classify(EntryKind::File, b"a.b.md"), Visit::Read);
    assert_eq!(classify(EntryKind::File, b".hidden.md"), Visit::Read);
    assert_eq!(classify(EntryKind::File, b"..md"), Visit::Read);
    assert_eq!(classify(EntryKind::File, b".trash.md"), Visit::Read);
    assert!(has_note_extension("Ünïcode.md".as_bytes()));
    assert!(has_note_extension(&[0xff, 0x2e, 0x6d, 0x64]));
}

#[test]
fn other_files_are_ignored() {
    assert_eq!(classify(EntryKind::File, b"a.txt"), Visit::Ignore);
    assert_eq!(classify(EntryKind::File, b"a.MD"), Visit::Ignore);
    assert_eq!(classify(EntryKind::File, b"a.Md"), Visit::Ignore);
    assert_eq!(classify(EntryKind::File, b"a.mD"), Visit::Ignore);
    assert_eq!(classify(EntryKind::File, b"a.md "), Visit::Ignore);
    assert_eq!(classify(EntryKind::File, b"a.mdx"), Visit::Ignore);
    assert_eq!(classify(EntryKind::File, b"a.md.bak"), Visit::Ignore);
    assert_eq!(classify(EntryKind::File, b"a.markdown"), Visit::Ignore);
    assert_eq!(classify(EntryKind::File, b"amd"), Visit::Ignore);
    assert_eq!(classify(EntryKind::File, b"md"), Visit::Ignore);
    assert_eq!(classify(EntryKind::File, b".md"), Visit::Ignore);
    assert_eq!(classify(EntryKind::File, b"a."), Visit::Ignore);
    assert_eq!(classify(EntryKind::File, b"a"), Visit::Ignore);
    assert_eq!(classify(EntryKind::File, b""), Visit::Ignore);
    assert_eq!(classify(EntryKind::File, b".obsidian"), Visit::Ignore);
}

#[test]
fn what_is_neither_file_nor_directory_is_ignored() {
    assert_eq!(classify(EntryKind::Other, b"a.md"), Visit::Ignore);
    assert_eq!(classify(EntryKind::Other, b".trash"), Visit::Ignore);
    assert_eq!(classify(EntryKind::Other, b"notes"), Visit::Ignore);
}

#[test]
fn artifact_keeps_the_name_of_its_note() {
    assert_eq!(artifact_name(b"a.md"), b"a.md".to_vec());
    assert_eq!(artifact_name("Grüße.md".as_bytes()), "Grüße.md".as_bytes().to_vec());
    assert_eq!(artifact_name(b""), Vec::<u8>::new());
}

#[test]
fn name_that_is_no_text_becomes_error_md() {
    assert_eq!(artifact_name(&[0xff, 0x2e, 0x6d, 0x64]), b"error.md".to_vec());
    assert_eq!(artifact_name(&[0x61, 0xc3, 0x2e, 0x6d, 0x64]), b"error.md".to_vec());
}

#[test]
fn selected_note_gives_its_artifact() {
    assert_eq!(
        select_note(b"a.md", b"---\ntags: [publish]\n---\nhello"),
        Ok(artifact("a.md", "hello"))
    );
    assert_eq!(
        select_note(&[0xfe, 0x2e, 0x6d, 0x64], b"---\ntags: [x, publish]\n---\n"),
        Ok(artifact("error.md", ""))
    );
}

#[test]
fn note_that_is_not_selected_is_skipped() {
    assert_eq!(select_note(b"b.md", b"---\ntags: [draft]\n---\nbody"), Err(Skipped::NotSelected));
    assert_eq!(select_note(b"c.md", b"---\ntags: not-a-list\n---\nC"), Err(Skipped::NotSelected));
    assert_eq!(select_note(b"d.md", b"plain text"), Err(Skipped::NotSelected));
    assert_eq!(select_note(b"e.md", b"---\n---\nE"), Err(Skipped::NotSelected));
    assert_eq!(select_note(b"f.md", b"tags: [publish]\n"), Err(Skipped::NotSelected));
}

#[test]
fn note_that_cannot_be_read_is_skipped() {
    assert_eq!(
        select_note(b"g.md", b"---\ntags: [publish]\n"),
        Err(Skipped::Unreadable(NoteError::UnclosedPreamble))
    );
    assert_eq!(
        select_note(b"h.md", b"---\ntags: [publish]\n---\n\xff"),
        Err(Skipped::Unreadable(NoteError::NotText))
    );
}

#[test]
fn names_are_tested_for_utf8() {
    assert_eq!(artifact_name(b"plain"), b"plain".to_vec());
    let greeting = "Grüße 世界 🌍".as_bytes();
    assert_eq!(artifact_name(greeting), greeting.to_vec());
    assert_eq!(artifact_name(&[0xff]), b"error.md".to_vec());
    assert_eq!(artifact_name(&[0xc3]), b"error.md".to_vec());
    assert_eq!(artifact_name(&[0xc0, 0xaf]), b"error.md".to_vec());
    assert_eq!(artifact_name(&[0xed, 0xa0, 0x80]), b"error.md".to_vec());
    assert_eq!(artifact_name(&[0xf4, 0x90, 0x80, 0x80]), b"error.md".to_vec());
    assert_eq!(artifact_name(&[0x80]), b"error.md".to_vec());
}

#[test]
fn byte_strings_are_compared() {
    assert!(same_bytes(b"", b""));
    assert!(same_bytes(b"abc", b"abc"));
    assert!(!same_bytes(b"abc", b"abd"));
    assert!(!same_bytes(b"abc", b"ab"));
    assert!(!same_bytes(b"", b"a"));
    assert!(!same_bytes(b"xbc", b"abc"));
}

#[test]
fn destination_takes_files_by_name() {
    let mut destination = Destination::new();
    assert!(destination.is_present());
    assert!(destination.is_empty());
    assert_eq!(destination.len(), 0);
    assert_eq!(destination.get(b"a.md"), None);
    assert_eq!(destination.emit(artifact("a.md", "A")), Ok(()));
    assert_eq!(destination.emit(artifact("b.md", "B")), Ok(()));
    assert!(!destination.is_empty());
    assert_eq!(destination.len(), 2);
    assert_eq!(destination.get(b"a.md"), Some(&b"A".to_vec()));
    assert_eq!(destination.get(b"b.md"), Some(&b"B".to_vec()));
    assert_eq!(destination.get(b"c.md"), None);
}

#[test]
fn destination_replaces_a_file_of_the_same_name() {
    let mut destination = Destination::new();
    assert_eq!(destination.emit(artifact("a.md", "old")), Ok(()));
    assert_eq!(destination.emit(artifact("b.md", "B")), Ok(()));
    assert_eq!(destination.emit(artifact("a.md", "new")), Ok(()));
    assert_eq!(destination.len(), 2);
    assert_eq!(destination.get(b"a.md"), Some(&b"new".to_vec()));
    assert_eq!(destination.get(b"b.md"), Some(&b"B".to_vec()));
    assert_eq!(destination.emit(artifact("a.md", "")), Ok(()));
    assert_eq!(destination.get(b"a.md"), Some(&Vec::new()));
    assert!(!destination.is_empty());
}

#[test]
fn missing_destination_takes_no_file() {
    let mut destination = Destination::missing();
    assert!(!destination.is_present());
    assert!(destination.is_empty());
    assert_eq!(
        destination.emit(artifact("a.md", "A")),
        Err(EmitError::MissingDestination)
    );
    assert_eq!(destination.len(), 0);
    assert_eq!(destination.get(b"a.md"), None);
}
