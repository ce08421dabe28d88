//! The walk through a vault that is held in memory.
//!
//! The walk takes the entries of a directory in the order in which the directory lists them,
//! and each to its end before the next: a directory is walked with all that is beneath it, a
//! note is taken through the pipeline and published where its tags ask for it. A directory
//! named `.obsidian` or `.trash` is left out. A note that cannot be read, or cannot be
//! written, is passed over, and the walk goes on; a directory that cannot be listed ends it.

use vstd::prelude::*;
use vstd::utf8::valid_utf8;
use crate::destination::{
    after, last_named, lemma_last_write_wins, lemma_received_in_turn, lemma_received_one,
    lemma_received_twice, received, Destination,
};
use crate::entry::{
    artifact_name_of, classify, is_note_name, is_reserved, outcome_of, select_note, visit_of,
    ArtifactView, EntryKind, Skipped, Visit,
};
use crate::note::note_of;
use crate::selector::{selector_of, selects};

verus! {

/// An entry of a directory of the vault, with all that is beneath it.
#[derive(Debug, PartialEq, Eq)]
pub enum Entry {
    /// A directory and its entries, in the order of its listing.
    Directory { name: Vec<u8>, entries: Vec<Entry> },
    /// A regular file and its bytes; `None` where the file cannot be read.
    File { name: Vec<u8>, contents: Option<Vec<u8>> },
    /// Anything that is neither a directory nor a regular file.
    Other { name: Vec<u8> },
    /// What cannot be examined. In the listing of a directory it marks the place at which the
    /// listing fails; as the root of a walk it stands for a path that leads nowhere.
    Failure,
}

/// Why a walk ended before its time.
#[derive(Debug, Clone, Copy, PartialEq, Eq, Structural)]
pub enum WalkError {
    /// A directory could not be listed to its end.
    UnreadableDirectory,
}

/// One publication: the artifact, and where in the vault its note stands.
pub ghost struct Emission {
    /// The names on the way from the root of the walk to the note, the name of the note last.
    pub source: Seq<Seq<u8>>,
    /// What is published of the note.
    pub artifact: ArtifactView,
}

/// The course of a walk: what it published, in that order, and whether a directory that could
/// not be listed ended it.
pub ghost struct Walk {
    pub emitted: Seq<Emission>,
    pub failed: bool,
}

/// The walk that meets nothing.
pub open spec fn idle() -> Walk {
    Walk { emitted: Seq::empty(), failed: false }
}

/// The publications of a directory of the given name, as its parent sees them.
pub open spec fn beneath(name: Seq<u8>, emitted: Seq<Emission>) -> Seq<Emission> {
    emitted.map_values(
        |emission: Emission|
            Emission { source: seq![name] + emission.source, artifact: emission.artifact },
    )
}

/// The artifacts of some publications, in their order.
pub open spec fn artifacts(emitted: Seq<Emission>) -> Seq<ArtifactView> {
    emitted.map_values(|emission: Emission| emission.artifact)
}

/// The walk through one entry.
pub open spec fn walk_of(entry: Entry) -> Walk
    decreases entry,
{
    match entry {
        Entry::Directory { name, entries } => if visit_of(EntryKind::Directory, name@)
            == Visit::Descend {
            let below = walk_all(entries@);
            Walk { emitted: beneath(name@, below.emitted), failed: below.failed }
        } else {
            idle()
        },
        Entry::File { name, contents } => if visit_of(EntryKind::File, name@) == Visit::Read
            && contents is Some && outcome_of(name@, contents->0@) is Ok {
            Walk {
                emitted: seq![
                    Emission {
                        source: seq![name@],
                        artifact: outcome_of(name@, contents->0@)->Ok_0,
                    },
                ],
                failed: false,
            }
        } else {
            idle()
        },
        Entry::Other { name } => idle(),
        Entry::Failure => Walk { emitted: Seq::empty(), failed: true },
    }
}

/// The walk through the entries of a directory: through each in its turn, up to the first at
/// which the walk fails.
pub open spec fn walk_all(entries: Seq<Entry>) -> Walk
    decreases entries,
{
    if entries.len() == 0 {
        idle()
    } else {
        let before = walk_all(entries.drop_last());
        if before.failed {
            before
        } else {
            let last = walk_of(entries.last());
            Walk { emitted: before.emitted + last.emitted, failed: last.failed }
        }
    }
}

/// The walk from a root: through the entries of a directory, whatever its name. A root that
/// is something else than a directory is left alone, and one that cannot be examined fails
/// the walk.
pub open spec fn run_of(root: Entry) -> Walk {
    match root {
        Entry::Directory { name, entries } => walk_all(entries@),
        Entry::File { name, contents } => idle(),
        Entry::Other { name } => idle(),
        Entry::Failure => Walk { emitted: Seq::empty(), failed: true },
    }
}

/// Whether the entry is, or holds at the end of the given way, a file with the given bytes.
/// The way is the names from the entry down to the file, the entry's own name first.
pub open spec fn holds_file(entry: Entry, way: Seq<Seq<u8>>, text: Seq<u8>) -> bool
    decreases entry,
{
    match entry {
        Entry::Directory { name, entries } => way.len() > 0 && way[0] == name@ && any_holds_file(
            entries@,
            way.drop_first(),
            text,
        ),
        Entry::File { name, contents } => way == seq![name@] && contents is Some
            && contents->0@ == text,
        Entry::Other { name } => false,
        Entry::Failure => false,
    }
}

/// Whether one of the entries is, or holds at the end of the given way, a file with the given
/// bytes.
pub open spec fn any_holds_file(entries: Seq<Entry>, way: Seq<Seq<u8>>, text: Seq<u8>) -> bool
    decreases entries,
{
    entries.len() > 0 && (holds_file(entries.last(), way, text) || any_holds_file(
        entries.drop_last(),
        way,
        text,
    ))
}

/// Whether the vault under `root` holds, at the end of the given way, a file with the given
/// bytes. The way begins beneath the root.
pub open spec fn vault_holds(root: Entry, way: Seq<Seq<u8>>, text: Seq<u8>) -> bool {
    match root {
        Entry::Directory { name, entries } => any_holds_file(entries@, way, text),
        _ => false,
    }
}

/// Whether no directory on the way is one that the walk leaves out. The last name of the way
/// is that of the file.
pub open spec fn clear_of_reserved(way: Seq<Seq<u8>>) -> bool {
    forall|k: int| 0 <= k < way.len() - 1 ==> !is_reserved(#[trigger] way[k])
}

/// Whether the publication is that of a note with the given bytes: the way names a note, and
/// the note, taken through the pipeline under its name, gives the artifact.
pub open spec fn publishes(emission: Emission, text: Seq<u8>) -> bool {
    &&& emission.source.len() > 0
    &&& clear_of_reserved(emission.source)
    &&& is_note_name(emission.source.last())
    &&& outcome_of(emission.source.last(), text) == Ok::<ArtifactView, Skipped>(
        emission.artifact,
    )
}

/// Each publication of the walk through an entry has its note in that entry.
proof fn lemma_source_in(entry: Entry, i: int) -> (text: Seq<u8>)
    requires
        0 <= i < walk_of(entry).emitted.len(),
    ensures
        holds_file(entry, walk_of(entry).emitted[i].source, text),
        publishes(walk_of(entry).emitted[i], text),
    decreases entry,
{
    match entry {
        Entry::Directory { name, entries } => {
            let below = walk_all(entries@).emitted;
            let text = lemma_source_among(entries@, i);
            let way = walk_of(entry).emitted[i].source;
            assert(way == seq![name@] + below[i].source);
            assert(way.drop_first() =~= below[i].source);
            assert(way.last() == below[i].source.last());
            assert forall|k: int| 0 <= k < way.len() - 1 implies !is_reserved(
                #[trigger] way[k],
            ) by {
                if k > 0 {
                    assert(way[k] == below[i].source[k - 1]);
                }
            }
            text
        },
        Entry::File { name, contents } => contents->0@,
        Entry::Other { name } => Seq::empty(),
        Entry::Failure => Seq::empty(),
    }
}

/// Each publication of the walk through some entries has its note in one of them.
proof fn lemma_source_among(entries: Seq<Entry>, i: int) -> (text: Seq<u8>)
    requires
        0 <= i < walk_all(entries).emitted.len(),
    ensures
        any_holds_file(entries, walk_all(entries).emitted[i].source, text),
        publishes(walk_all(entries).emitted[i], text),
    decreases entries,
{
    let before = walk_all(entries.drop_last());
    if before.failed || i < before.emitted.len() {
        lemma_source_among(entries.drop_last(), i)
    } else {
        lemma_source_in(entries.last(), i - before.emitted.len())
    }
}

/// Every publication has its source: the vault holds, at the place that the publication
/// names, a note that the pipeline takes to the published artifact. On the way to it no
/// directory is named `.obsidian` or `.trash`.
pub proof fn lemma_publication_has_source(root: Entry, i: int)
    requires
        0 <= i < run_of(root).emitted.len(),
    ensures
        exists|text: Seq<u8>|
            vault_holds(root, run_of(root).emitted[i].source, text) && #[trigger] publishes(
                run_of(root).emitted[i],
                text,
            ),
{
    match root {
        Entry::Directory { name, entries } => {
            let text = lemma_source_among(entries@, i);
            assert(publishes(run_of(root).emitted[i], text));
        },
        _ => {},
    }
}

/// Nothing is published from beneath a directory named `.obsidian` or `.trash`.
pub proof fn lemma_nothing_published_from_reserved(root: Entry, i: int, k: int)
    requires
        0 <= i < run_of(root).emitted.len(),
        0 <= k < run_of(root).emitted[i].source.len() - 1,
    ensures
        !is_reserved(run_of(root).emitted[i].source[k]),
{
    lemma_publication_has_source(root, i);
}

/// Every file of the destination has a source. After a walk, a file of the destination
/// either was there before and was not touched, or it holds the body of a note of the vault:
/// of one that the walk reaches, whose tags select it, and whose name is that of the file.
/// Only a note whose name is not text has another name than its file, which is `error.md`.
pub proof fn lemma_published_file_has_source(
    root: Entry,
    files: Map<Seq<u8>, Seq<u8>>,
    name: Seq<u8>,
)
    requires
        received(files, artifacts(run_of(root).emitted)).dom().contains(name),
    ensures
        ({
            &&& files.dom().contains(name)
            &&& received(files, artifacts(run_of(root).emitted))[name] == files[name]
        }) || exists|way: Seq<Seq<u8>>, text: Seq<u8>|
            {
                &&& #[trigger] vault_holds(root, way, text)
                &&& way.len() > 0
                &&& clear_of_reserved(way)
                &&& is_note_name(way.last())
                &&& name == artifact_name_of(way.last())
                &&& valid_utf8(way.last()) ==> name == way.last()
                &&& note_of(text) is Ok
                &&& selects(selector_of(note_of(text)->Ok_0.preamble))
                &&& note_of(text)->Ok_0.body == received(
                    files,
                    artifacts(run_of(root).emitted),
                )[name]
            },
{
    let emitted = run_of(root).emitted;
    let sent = artifacts(emitted);
    lemma_last_write_wins(files, sent, name);
    let last = last_named(sent, name);
    if last >= 0 {
        assert(sent[last] == emitted[last].artifact);
        lemma_publication_has_source(root, last);
        let text = choose|text: Seq<u8>|
            vault_holds(root, emitted[last].source, text) && #[trigger] publishes(
                emitted[last],
                text,
            );
        assert(vault_holds(root, emitted[last].source, text));
    }
}

/// Publishing a vault a second time changes nothing in the destination.
pub proof fn lemma_publishing_twice_is_publishing_once(
    root: Entry,
    destination: Option<Map<Seq<u8>, Seq<u8>>>,
)
    ensures
        after(
            after(destination, artifacts(run_of(root).emitted)),
            artifacts(run_of(root).emitted),
        ) == after(destination, artifacts(run_of(root).emitted)),
{
    if destination is Some {
        lemma_received_twice(destination->0, artifacts(run_of(root).emitted));
    }
}

/// An empty vault publishes nothing: the walk ends well and the destination stays as it was.
pub proof fn lemma_empty_vault_publishes_nothing(
    root: Entry,
    destination: Option<Map<Seq<u8>, Seq<u8>>>,
)
    requires
        root is Directory,
        root->entries@.len() == 0,
    ensures
        run_of(root) == idle(),
        after(destination, artifacts(run_of(root).emitted)) == destination,
{
    assert(artifacts(Seq::<Emission>::empty()) =~= Seq::<ArtifactView>::empty());
}

/// The artifacts of a directory are those of its publications, whatever its name.
proof fn lemma_artifacts_beneath(name: Seq<u8>, emitted: Seq<Emission>)
    ensures
        artifacts(beneath(name, emitted)) == artifacts(emitted),
{
    assert(artifacts(beneath(name, emitted)) =~= artifacts(emitted));
}

/// A walk that has failed stays as it is, whatever entries follow.
proof fn lemma_failure_ends_walk(entries: Seq<Entry>, met: int)
    requires
        0 <= met <= entries.len(),
        walk_all(entries.take(met)).failed,
    ensures
        walk_all(entries) == walk_all(entries.take(met)),
    decreases entries.len() - met,
{
    if met == entries.len() {
        assert(entries.take(met) =~= entries);
    } else {
        assert(entries.take(met + 1).drop_last() =~= entries.take(met));
        lemma_failure_ends_walk(entries, met + 1);
    }
}

/// Walks through one entry and writes what is published on the way.
fn visit(entry: &Entry, destination: &mut Destination) -> (ok: bool)
    ensures
        final(destination)@ == after(old(destination)@, artifacts(walk_of(*entry).emitted)),
        ok == !walk_of(*entry).failed,
    decreases *entry,
{
    proof {
        assert(artifacts(Seq::<Emission>::empty()) =~= Seq::<ArtifactView>::empty());
    }
    match entry {
        Entry::Directory { name, entries } => {
            match classify(EntryKind::Directory, name.as_slice()) {
                Visit::Descend => {
                    proof {
                        lemma_artifacts_beneath(name@, walk_all(entries@).emitted);
                    }
                    visit_all(entries, destination)
                },
                _ => true,
            }
        },
        Entry::File { name, contents } => {
            if let Visit::Read = classify(EntryKind::File, name.as_slice()) {
                match contents {
                    Some(bytes) => match select_note(name.as_slice(), bytes.as_slice()) {
                        Ok(artifact) => {
                            proof {
                                assert(artifacts(walk_of(*entry).emitted) =~= seq![artifact@]);
                                if destination@ is Some {
                                    lemma_received_one(destination@->0, artifact@);
                                }
                            }
                            let _written = destination.emit(artifact);
                        },
                        Err(_) => {},
                    },
                    None => {},
                }
            }
            true
        },
        Entry::Other { name } => true,
        Entry::Failure => false,
    }
}

/// Walks through the entries of a directory and writes what is published on the way.
fn visit_all(entries: &Vec<Entry>, destination: &mut Destination) -> (ok: bool)
    ensures
        final(destination)@ == after(old(destination)@, artifacts(walk_all(entries@).emitted)),
        ok == !walk_all(entries@).failed,
    decreases entries@,
{
    proof {
        assert(artifacts(Seq::<Emission>::empty()) =~= Seq::<ArtifactView>::empty());
        assert(entries@.take(0) =~= Seq::<Entry>::empty());
    }
    let mut i: usize = 0;
    while i < entries.len()
        invariant
            i <= entries.len(),
            !walk_all(entries@.take(i as int)).failed,
            destination@ == after(
                old(destination)@,
                artifacts(walk_all(entries@.take(i as int)).emitted),
            ),
        decreases entries.len() - i,
    {
        let ghost before = walk_all(entries@.take(i as int));
        let ghost met = walk_of(entries@[i as int]);
        let ok = visit(&entries[i], destination);
        proof {
            assert(entries@.take(i + 1).drop_last() =~= entries@.take(i as int));
            assert(entries@.take(i + 1).last() == entries@[i as int]);
            assert(artifacts(before.emitted + met.emitted) =~= artifacts(before.emitted)
                + artifacts(met.emitted));
            if old(destination)@ is Some {
                lemma_received_in_turn(
                    old(destination)@->0,
                    artifacts(before.emitted),
                    artifacts(met.emitted),
                );
            }
        }
        i += 1;
        if !ok {
            proof {
                lemma_failure_ends_walk(entries@, i as int);
            }
            return false;
        }
    }
    proof {
        assert(entries@.take(i as int) =~= entries@);
    }
    true
}

/// Publishes a vault: walks from `root` and writes to `destination` the body of each note
/// whose tags ask for it, under the name of the note. Where `root` is a file or another thing
/// that is no directory, nothing is done.
///
/// A note that cannot be read is passed over, and so is one that cannot be written because
/// the destination is missing. The walk fails where `root` cannot be examined, and at the
/// first directory that cannot be listed to its end; what was published up to there stays.
pub fn publish(root: &Entry, destination: &mut Destination) -> (done: Result<(), WalkError>)
    ensures
        final(destination)@ == after(old(destination)@, artifacts(run_of(*root).emitted)),
        done is Err <==> run_of(*root).failed,
{
    match root {
        Entry::Directory { name, entries } => {
            if visit_all(entries, destination) {
                Ok(())
            } else {
                Err(WalkError::UnreadableDirectory)
            }
        },
        Entry::Failure => {
            proof {
                assert(artifacts(Seq::<Emission>::empty()) =~= Seq::<ArtifactView>::empty());
            }
            Err(WalkError::UnreadableDirectory)
        },
        _ => {
            proof {
                assert(artifacts(Seq::<Emission>::empty()) =~= Seq::<ArtifactView>::empty());
            }
            Ok(())
        },
    }
}

} // verus!
