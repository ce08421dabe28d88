//! The rules of the walk for one directory entry, and the artifact of one note.

use vstd::prelude::*;
use vstd::slice::{slice_subrange, slice_to_vec};
use vstd::string::StringSliceAdditionalSpecFns;
use vstd::utf8::{encode_utf8_valid_utf8, is_ascii_chars_encode_utf8, valid_utf8};
use crate::bytes::{is_utf8, same_bytes};
use crate::note::{note_of, read_note, NoteError};
use crate::selector::{decode_preamble, selector_of, selects};

verus! {

/// The byte that stands before the extension of a file name.
pub const DOT: u8 = 0x2e;

/// What kind of thing a directory entry is, as the file system reports it.
#[derive(Debug, Clone, Copy, PartialEq, Eq, Structural)]
pub enum EntryKind {
    /// A directory, or a link that leads to one.
    Directory,
    /// A regular file.
    File,
    /// Anything else.
    Other,
}

/// What the walk does with a directory entry.
#[derive(Debug, Clone, Copy, PartialEq, Eq, Structural)]
pub enum Visit {
    /// Walk the entries of this directory too.
    Descend,
    /// Leave this directory out, with all that is beneath it.
    Skip,
    /// Read this file as a note.
    Read,
    /// Leave this entry alone.
    Ignore,
}

/// Whether `name` is the name of a directory that the walk leaves out: `.obsidian` or
/// `.trash`, byte for byte.
pub open spec fn is_reserved(name: Seq<u8>) -> bool {
    name == ".obsidian".spec_bytes() || name == ".trash".spec_bytes()
}

/// Whether `name` is a stem of at least one byte, a dot, and then `extension`. Where
/// `extension` holds no dot, that is to say that `extension` is what follows the last dot of
/// `name`, and that this dot is not the first byte of `name`.
pub open spec fn has_extension(name: Seq<u8>, extension: Seq<u8>) -> bool {
    &&& name.len() > extension.len() + 1
    &&& name[name.len() - extension.len() - 1] == DOT
    &&& name.subrange(name.len() - extension.len(), name.len() as int) == extension
}

/// Whether `name` is the name of a note: its extension is `md`, in lower case.
pub open spec fn is_note_name(name: Seq<u8>) -> bool {
    has_extension(name, "md".spec_bytes())
}

/// What the walk does with an entry of the given kind and name.
pub open spec fn visit_of(kind: EntryKind, name: Seq<u8>) -> Visit {
    match kind {
        EntryKind::Directory => if is_reserved(name) {
            Visit::Skip
        } else {
            Visit::Descend
        },
        EntryKind::File => if is_note_name(name) {
            Visit::Read
        } else {
            Visit::Ignore
        },
        EntryKind::Other => Visit::Ignore,
    }
}

/// Whether the walk leaves a directory of this name out.
pub fn is_reserved_directory(name: &[u8]) -> (reserved: bool)
    ensures
        reserved == is_reserved(name@),
{
    same_bytes(name, ".obsidian".as_bytes()) || same_bytes(name, ".trash".as_bytes())
}

/// Whether a file of this name is a note.
pub fn has_note_extension(name: &[u8]) -> (note: bool)
    ensures
        note == is_note_name(name@),
{
    let extension = "md".as_bytes();
    let n = name.len();
    let m = extension.len();
    if n <= m || n - m <= 1 {
        return false;
    }
    name[n - m - 1] == DOT && same_bytes(slice_subrange(name, n - m, n), extension)
}

/// Decides what the walk does with a directory entry.
pub fn classify(kind: EntryKind, name: &[u8]) -> (visit: Visit)
    ensures
        visit == visit_of(kind, name@),
{
    match kind {
        EntryKind::Directory => if is_reserved_directory(name) {
            Visit::Skip
        } else {
            Visit::Descend
        },
        EntryKind::File => if has_note_extension(name) {
            Visit::Read
        } else {
            Visit::Ignore
        },
        EntryKind::Other => Visit::Ignore,
    }
}

/// What is published of a note: a file for the destination directory.
#[derive(Debug, Clone, PartialEq, Eq)]
pub struct Artifact {
    /// The name of the file, which is always text.
    pub name: Vec<u8>,
    /// The bytes of the file.
    pub body: Vec<u8>,
}

/// An artifact as two byte sequences.
pub ghost struct ArtifactView {
    pub name: Seq<u8>,
    pub body: Seq<u8>,
}

impl View for Artifact {
    type V = ArtifactView;

    open spec fn view(&self) -> ArtifactView {
        ArtifactView { name: self.name@, body: self.body@ }
    }
}

/// Why a note is not published.
#[derive(Debug, Clone, Copy, PartialEq, Eq, Structural)]
pub enum Skipped {
    /// The note could not be read.
    Unreadable(NoteError),
    /// The tags of the note do not ask for its publication.
    NotSelected,
}

/// The name under which a note of the given name is published: its own name, or `error.md`
/// where its own name is not text.
pub open spec fn artifact_name_of(name: Seq<u8>) -> Seq<u8> {
    if valid_utf8(name) {
        name
    } else {
        "error.md".spec_bytes()
    }
}

/// What becomes of a note with the given name and bytes: the artifact that holds its body
/// under its name where it can be read and its tags select it, and the reason why it is
/// passed over where not.
pub open spec fn outcome_of(name: Seq<u8>, text: Seq<u8>) -> Result<ArtifactView, Skipped> {
    match note_of(text) {
        Err(error) => Err(Skipped::Unreadable(error)),
        Ok(note) => if selects(selector_of(note.preamble)) {
            Ok(ArtifactView { name: artifact_name_of(name), body: note.body })
        } else {
            Err(Skipped::NotSelected)
        },
    }
}

/// The name under which a note of the given name is published.
pub fn artifact_name(name: &[u8]) -> (published: Vec<u8>)
    ensures
        published@ == artifact_name_of(name@),
        valid_utf8(published@),
{
    if is_utf8(name) {
        slice_to_vec(name)
    } else {
        proof {
            encode_utf8_valid_utf8("error.md"@);
        }
        slice_to_vec("error.md".as_bytes())
    }
}

/// Takes a note through the pipeline: reads it, decodes its preamble, and decides on its
/// publication.
pub fn select_note(name: &[u8], text: &[u8]) -> (outcome: Result<Artifact, Skipped>)
    ensures
        match outcome {
            Ok(artifact) => outcome_of(name@, text@) == Ok::<ArtifactView, Skipped>(artifact@),
            Err(skipped) => outcome_of(name@, text@) == Err::<ArtifactView, Skipped>(skipped),
        },
{
    match read_note(text) {
        Err(error) => Err(Skipped::Unreadable(error)),
        Ok(note) => {
            let selector = decode_preamble(note.preamble.as_slice());
            if selector.should_publish() {
                Ok(Artifact { name: artifact_name(name), body: note.body })
            } else {
                Err(Skipped::NotSelected)
            }
        },
    }
}

/// The names that the rules speak of, byte by byte.
pub proof fn lemma_names_spelled()
    ensures
        ".obsidian".spec_bytes() == seq![0x2eu8, 0x6f, 0x62, 0x73, 0x69, 0x64, 0x69, 0x61, 0x6e],
        ".trash".spec_bytes() == seq![0x2eu8, 0x74, 0x72, 0x61, 0x73, 0x68],
        "md".spec_bytes() == seq![0x6du8, 0x64],
        "error.md".spec_bytes() == seq![0x65u8, 0x72, 0x72, 0x6f, 0x72, 0x2e, 0x6d, 0x64],
{
    reveal_strlit(".obsidian");
    reveal_strlit(".trash");
    reveal_strlit("md");
    reveal_strlit("error.md");
    is_ascii_chars_encode_utf8(".obsidian"@);
    is_ascii_chars_encode_utf8(".trash"@);
    is_ascii_chars_encode_utf8("md"@);
    is_ascii_chars_encode_utf8("error.md"@);
    assert(".obsidian".spec_bytes() =~= seq![
        0x2eu8, 0x6f, 0x62, 0x73, 0x69, 0x64, 0x69, 0x61, 0x6e,
    ]);
    assert(".trash".spec_bytes() =~= seq![0x2eu8, 0x74, 0x72, 0x61, 0x73, 0x68]);
    assert("md".spec_bytes() =~= seq![0x6du8, 0x64]);
    assert("error.md".spec_bytes() =~= seq![0x65u8, 0x72, 0x72, 0x6f, 0x72, 0x2e, 0x6d, 0x64]);
}

/// A name is the name of a note exactly where it ends in `.md` and holds at least one byte
/// before that; and since `md` holds no dot, the extension is then what follows the last dot
/// of the name.
pub proof fn lemma_note_names_end_in_md(name: Seq<u8>)
    ensures
        is_note_name(name) <==> {
            &&& name.len() > 3
            &&& name[name.len() - 3] == DOT
            &&& name[name.len() - 2] == 0x6du8
            &&& name[name.len() - 1] == 0x64u8
        },
        is_note_name(name) ==> forall|i: int| name.len() - 3 < i < name.len() ==> name[i] != DOT,
{
    lemma_names_spelled();
    let extension = "md".spec_bytes();
    if name.len() > 3 {
        let tail = name.subrange(name.len() - 2, name.len() as int);
        if tail == extension {
            assert(tail[0] == name[name.len() - 2]);
            assert(tail[1] == name[name.len() - 1]);
        }
        if name[name.len() - 2] == 0x6du8 && name[name.len() - 1] == 0x64u8 {
            assert(tail =~= extension);
        }
    }
}

} // verus!
