//! A destination directory held in memory: the files that were published, by name.

use vstd::prelude::*;
use crate::bytes::same_bytes;
use crate::entry::{Artifact, ArtifactView};

verus! {

/// Why an artifact could not be written.
#[derive(Debug, Clone, Copy, PartialEq, Eq, Structural)]
pub enum EmitError {
    /// The destination directory does not exist.
    MissingDestination,
}

/// A destination directory. It is flat: it holds files and no directory, and no two of its
/// files have the same name. It may also be missing, and then it holds nothing and takes
/// nothing.
#[derive(Debug)]
pub struct Destination {
    present: bool,
    files: Vec<Artifact>,
}

/// The files of a directory after the given artifacts were written to it, one after the
/// other: each takes the place of an earlier file of its name.
pub open spec fn received(files: Map<Seq<u8>, Seq<u8>>, artifacts: Seq<ArtifactView>) -> Map<
    Seq<u8>,
    Seq<u8>,
>
    decreases artifacts.len(),
{
    if artifacts.len() == 0 {
        files
    } else {
        received(files, artifacts.drop_last()).insert(
            artifacts.last().name,
            artifacts.last().body,
        )
    }
}

/// A destination after the given artifacts were sent to it: a missing one stays missing, and
/// the files of one that is there take them up.
pub open spec fn after(
    destination: Option<Map<Seq<u8>, Seq<u8>>>,
    artifacts: Seq<ArtifactView>,
) -> Option<Map<Seq<u8>, Seq<u8>>> {
    match destination {
        None => None,
        Some(files) => Some(received(files, artifacts)),
    }
}

/// Writing one run of artifacts and then another is writing the two as one run.
pub proof fn lemma_received_in_turn(
    files: Map<Seq<u8>, Seq<u8>>,
    first: Seq<ArtifactView>,
    second: Seq<ArtifactView>,
)
    ensures
        received(files, first + second) == received(received(files, first), second),
    decreases second.len(),
{
    if second.len() == 0 {
        assert(first + second =~= first);
    } else {
        lemma_received_in_turn(files, first, second.drop_last());
        assert((first + second).drop_last() =~= first + second.drop_last());
        assert((first + second).last() == second.last());
    }
}

/// Writing one artifact creates the file of its name, or replaces what the file held.
pub proof fn lemma_received_one(files: Map<Seq<u8>, Seq<u8>>, artifact: ArtifactView)
    ensures
        received(files, seq![artifact]) == files.insert(artifact.name, artifact.body),
{
    assert(seq![artifact].drop_last() =~= Seq::<ArtifactView>::empty());
    reveal_with_fuel(received, 2);
}

/// Where the last of the artifacts with the given name stands, or -1 where none has it.
pub open spec fn last_named(artifacts: Seq<ArtifactView>, name: Seq<u8>) -> int
    decreases artifacts.len(),
{
    if artifacts.len() == 0 {
        -1
    } else if artifacts.last().name == name {
        artifacts.len() - 1
    } else {
        last_named(artifacts.drop_last(), name)
    }
}

/// The last write wins: after a run of artifacts, the file of a name holds the body of the
/// last artifact of that name, and a name that no artifact has is as it was before.
pub proof fn lemma_last_write_wins(
    files: Map<Seq<u8>, Seq<u8>>,
    artifacts: Seq<ArtifactView>,
    name: Seq<u8>,
)
    ensures
        -1 <= last_named(artifacts, name) < artifacts.len(),
        forall|later: int|
            last_named(artifacts, name) < later < artifacts.len() ==> artifacts[later].name
                != name,
        last_named(artifacts, name) >= 0 ==> {
            &&& artifacts[last_named(artifacts, name)].name == name
            &&& received(files, artifacts).dom().contains(name)
            &&& received(files, artifacts)[name] == artifacts[last_named(artifacts, name)].body
        },
        last_named(artifacts, name) < 0 ==> {
            &&& received(files, artifacts).dom().contains(name) == files.dom().contains(name)
            &&& files.dom().contains(name) ==> received(files, artifacts)[name] == files[name]
        },
    decreases artifacts.len(),
{
    if artifacts.len() > 0 {
        let most = artifacts.drop_last();
        lemma_last_write_wins(files, most, name);
        assert forall|later: int|
            last_named(artifacts, name) < later < artifacts.len() implies artifacts[later].name
            != name by {
            if later < most.len() {
                assert(most[later].name != name);
            }
        }
    }
}

/// Nothing is deleted: a file that was there before a run of artifacts is there after it.
pub proof fn lemma_files_stay(
    files: Map<Seq<u8>, Seq<u8>>,
    artifacts: Seq<ArtifactView>,
    name: Seq<u8>,
)
    requires
        files.dom().contains(name),
    ensures
        received(files, artifacts).dom().contains(name),
{
    lemma_last_write_wins(files, artifacts, name);
}

/// Whether no two of the artifacts have the same name.
pub open spec fn names_are_distinct(artifacts: Seq<ArtifactView>) -> bool {
    forall|i: int, j: int|
        0 <= i < j < artifacts.len() ==> artifacts[i].name != artifacts[j].name
}

/// Where no two artifacts have the same name, the order of writing is immaterial: the same
/// artifacts in another order leave the same files.
pub proof fn lemma_order_is_immaterial(
    files: Map<Seq<u8>, Seq<u8>>,
    one: Seq<ArtifactView>,
    other: Seq<ArtifactView>,
)
    requires
        names_are_distinct(one),
        one.to_multiset() == other.to_multiset(),
    ensures
        received(files, one) == received(files, other),
{
    let left = received(files, one);
    let right = received(files, other);
    assert forall|name: Seq<u8>| #[trigger]
        left.dom().contains(name) == right.dom().contains(name) by {
        lemma_same_artifact_wins(files, one, other, name);
    }
    assert forall|name: Seq<u8>| left.dom().contains(name) implies #[trigger] left[name]
        == right[name] by {
        lemma_same_artifact_wins(files, one, other, name);
    }
    assert(left.dom() =~= right.dom());
    assert(left =~= right);
}

/// Where no two artifacts have the same name, the file of a name is the same after the
/// artifacts were written in one order and in another.
proof fn lemma_same_artifact_wins(
    files: Map<Seq<u8>, Seq<u8>>,
    one: Seq<ArtifactView>,
    other: Seq<ArtifactView>,
    name: Seq<u8>,
)
    requires
        names_are_distinct(one),
        one.to_multiset() == other.to_multiset(),
    ensures
        received(files, one).dom().contains(name) == received(files, other).dom().contains(
            name,
        ),
        received(files, one).dom().contains(name) ==> received(files, one)[name] == received(
            files,
            other,
        )[name],
{
    one.to_multiset_ensures();
    other.to_multiset_ensures();
    lemma_last_write_wins(files, one, name);
    lemma_last_write_wins(files, other, name);
    let i = last_named(one, name);
    let j = last_named(other, name);
    if i >= 0 {
        assert(one.contains(one[i]));
        assert(other.to_multiset().count(one[i]) > 0);
        assert(other.contains(one[i]));
        let k = choose|k: int| 0 <= k < other.len() && other[k] == one[i];
        assert(other[k].name == name);
    }
    if j >= 0 {
        assert(other.contains(other[j]));
        assert(one.to_multiset().count(other[j]) > 0);
        assert(one.contains(other[j]));
        let k = choose|k: int| 0 <= k < one.len() && one[k] == other[j];
        assert(one[k].name == name);
        assert(k == i);
    }
}

/// Writing a run of artifacts a second time changes nothing.
pub proof fn lemma_received_twice(files: Map<Seq<u8>, Seq<u8>>, artifacts: Seq<ArtifactView>)
    ensures
        received(received(files, artifacts), artifacts) == received(files, artifacts),
{
    let once = received(files, artifacts);
    let twice = received(once, artifacts);
    assert forall|name: Seq<u8>| #[trigger]
        twice.dom().contains(name) == once.dom().contains(name) by {
        lemma_last_write_wins(files, artifacts, name);
        lemma_last_write_wins(once, artifacts, name);
    }
    assert forall|name: Seq<u8>| once.dom().contains(name) implies #[trigger] twice[name]
        == once[name] by {
        lemma_last_write_wins(files, artifacts, name);
        lemma_last_write_wins(once, artifacts, name);
    }
    assert(twice.dom() =~= once.dom());
    assert(twice =~= once);
}

impl Destination {
    #[verifier::type_invariant]
    spec fn names_differ(self) -> bool {
        &&& forall|i: int, j: int|
            0 <= i < j < self.files.len() ==> self.files[i].name@ != self.files[j].name@
        &&& !self.present ==> self.files.len() == 0
    }

    /// Whether the directory holds a file of this name.
    spec fn holds(self, name: Seq<u8>) -> bool {
        exists|i: int| 0 <= i < self.files.len() && #[trigger] self.files[i].name@ == name
    }

    /// Where the file of this name stands among the files.
    spec fn place(self, name: Seq<u8>) -> int {
        choose|i: int| 0 <= i < self.files.len() && #[trigger] self.files[i].name@ == name
    }

    /// The files of the directory, the bytes of each under its name.
    spec fn files(self) -> Map<Seq<u8>, Seq<u8>> {
        Map::new(
            |name: Seq<u8>| self.holds(name),
            |name: Seq<u8>| self.files[self.place(name)].body@,
        )
    }
}

impl View for Destination {
    type V = Option<Map<Seq<u8>, Seq<u8>>>;

    /// `None` for a missing directory, else the bytes of each file under its name.
    closed spec fn view(&self) -> Option<Map<Seq<u8>, Seq<u8>>> {
        if self.present {
            Some(self.files())
        } else {
            None
        }
    }
}

impl Destination {
    /// An empty directory.
    pub fn new() -> (destination: Destination)
        ensures
            destination@ == Some(Map::<Seq<u8>, Seq<u8>>::empty()),
    {
        let destination = Destination { present: true, files: Vec::new() };
        assert(destination.files() =~= Map::<Seq<u8>, Seq<u8>>::empty());
        destination
    }

    /// A directory that does not exist.
    pub fn missing() -> (destination: Destination)
        ensures
            destination@ is None,
    {
        Destination { present: false, files: Vec::new() }
    }

    /// Whether the directory is there.
    pub fn is_present(&self) -> (present: bool)
        ensures
            present == self@ is Some,
    {
        self.present
    }

    /// The number of files in the directory.
    pub fn len(&self) -> (count: usize)
        ensures
            self@ is None ==> count == 0,
            self@ is Some ==> count == self@->0.dom().len() && self@->0.dom().finite(),
    {
        proof {
            use_type_invariant(self);
            self.lemma_count();
        }
        self.files.len()
    }

    /// Whether the directory holds no file.
    pub fn is_empty(&self) -> (empty: bool)
        ensures
            empty == (self@ is None || self@ == Some(Map::<Seq<u8>, Seq<u8>>::empty())),
    {
        proof {
            use_type_invariant(self);
            if self.files.len() == 0 {
                assert(self.files() =~= Map::<Seq<u8>, Seq<u8>>::empty());
            } else {
                assert(self.holds(self.files[0].name@));
                assert(self.files().dom().contains(self.files[0].name@));
            }
        }
        self.files.len() == 0
    }

    /// The bytes of the file of this name, if the directory holds one.
    pub fn get(&self, name: &[u8]) -> (bytes: Option<&Vec<u8>>)
        ensures
            match bytes {
                Some(body) => self@ is Some && self@->0.dom().contains(name@) && self@->0[name@]
                    == body@,
                None => self@ is None || !self@->0.dom().contains(name@),
            },
    {
        proof {
            use_type_invariant(self);
        }
        let mut i: usize = 0;
        while i < self.files.len()
            invariant
                i <= self.files.len(),
                forall|k: int| 0 <= k < i ==> self.files[k].name@ != name@,
            decreases self.files.len() - i,
        {
            if same_bytes(self.files[i].name.as_slice(), name) {
                proof {
                    use_type_invariant(self);
                    assert(self.holds(name@));
                    assert(self.place(name@) == i);
                }
                return Some(&self.files[i].body);
            }
            i += 1;
        }
        None
    }

    /// Writes an artifact to the directory: creates the file of its name, or replaces what
    /// the file held. A missing directory takes nothing.
    pub fn emit(&mut self, artifact: Artifact) -> (written: Result<(), EmitError>)
        ensures
            match old(self)@ {
                Some(files) => written is Ok && final(self)@ == Some(
                    files.insert(artifact.name@, artifact.body@),
                ),
                None => written == Err::<(), EmitError>(EmitError::MissingDestination)
                    && final(self)@ is None,
            },
    {
        proof {
            use_type_invariant(&*self);
        }
        if !self.present {
            return Err(EmitError::MissingDestination);
        }
        let ghost before = *self;
        let ghost sent = artifact@;
        assert(before.names_differ());
        let mut files: Vec<Artifact> = Vec::new();
        core::mem::swap(&mut self.files, &mut files);
        let mut i: usize = 0;
        while i < files.len()
            invariant
                *old(self) == before,
                before.names_differ(),
                before.present,
                self.present,
                sent == artifact@,
                files == before.files,
                i <= files.len(),
                forall|k: int| 0 <= k < i ==> files[k].name@ != artifact.name@,
            decreases files.len() - i,
        {
            if same_bytes(files[i].name.as_slice(), artifact.name.as_slice()) {
                files.set(i, artifact);
                self.files = files;
                proof {
                    assert forall|name: Seq<u8>| self.holds(name) == before.holds(name) by {
                        if before.holds(name) {
                            assert(self.files[before.place(name)].name@ == name);
                        }
                        if self.holds(name) {
                            assert(before.files[self.place(name)].name@ == name);
                        }
                    }
                    assert(self.files() =~= before.files().insert(sent.name, sent.body)) by {
                        assert(before.holds(sent.name)) by {
                            assert(before.files[i as int].name@ == sent.name);
                        }
                        assert forall|name: Seq<u8>| self.holds(name) implies self.files()[name]
                            == before.files().insert(sent.name, sent.body)[name] by {
                            let at = self.place(name);
                            if name == sent.name {
                                assert(at == i);
                            } else {
                                assert(before.files[at].name@ == name);
                                assert(before.place(name) == at);
                            }
                        }
                    }
                }
                return Ok(());
            }
            i += 1;
        }
        files.push(artifact);
        self.files = files;
        proof {
            let n = before.files.len() as int;
            assert(self.files[n].name@ == sent.name);
            assert forall|name: Seq<u8>| self.holds(name) == (before.holds(name) || name
                == sent.name) by {
                if before.holds(name) {
                    assert(self.files[before.place(name)].name@ == name);
                }
                if self.holds(name) && name != sent.name {
                    assert(before.files[self.place(name)].name@ == name);
                }
            }
            assert(self.files() =~= before.files().insert(sent.name, sent.body)) by {
                assert forall|name: Seq<u8>| self.holds(name) implies self.files()[name]
                    == before.files().insert(sent.name, sent.body)[name] by {
                    let at = self.place(name);
                    if name == sent.name {
                        assert(at == n);
                    } else {
                        assert(before.files[at].name@ == name);
                        assert(before.place(name) == at);
                    }
                }
            }
        }
        Ok(())
    }

    /// The directory holds as many names as files.
    proof fn lemma_count(self)
        requires
            self.names_differ(),
        ensures
            self.files().dom().finite(),
            self.files().dom().len() == self.files.len(),
    {
        Self::lemma_count_of(self.files@);
        assert(self.files().dom() =~= Self::names(self.files@));
    }

    /// The names of some files.
    spec fn names(files: Seq<Artifact>) -> Set<Seq<u8>> {
        Set::new(
            |name: Seq<u8>|
                exists|i: int| 0 <= i < files.len() && #[trigger] files[i].name@ == name,
        )
    }

    /// Files with different names have as many names as there are files.
    proof fn lemma_count_of(files: Seq<Artifact>)
        requires
            forall|i: int, j: int| 0 <= i < j < files.len() ==> files[i].name@ != files[j].name@,
        ensures
            Self::names(files).finite(),
            Self::names(files).len() == files.len(),
        decreases files.len(),
    {
        if files.len() == 0 {
            assert(Self::names(files) =~= Set::<Seq<u8>>::empty());
        } else {
            let most = files.drop_last();
            Self::lemma_count_of(most);
            let name = files.last().name@;
            assert(!Self::names(most).contains(name)) by {
                if Self::names(most).contains(name) {
                    let i = choose|i: int|
                        0 <= i < most.len() && #[trigger] most[i].name@ == name;
                    assert(files[i].name@ == files[files.len() - 1].name@);
                }
            }
            assert(Self::names(files) =~= Self::names(most).insert(name)) by {
                let grown = Self::names(most).insert(name);
                assert forall|other: Seq<u8>|
                    Self::names(files).contains(other) implies grown.contains(other) by {
                    let i = choose|i: int|
                        0 <= i < files.len() && #[trigger] files[i].name@ == other;
                    if i < most.len() {
                        assert(most[i].name@ == other);
                    }
                }
                assert forall|other: Seq<u8>| grown.contains(other) implies Self::names(
                    files,
                ).contains(other) by {
                    if other == name {
                        assert(files[files.len() - 1].name@ == other);
                    } else {
                        let i = choose|i: int|
                            0 <= i < most.len() && #[trigger] most[i].name@ == other;
                        assert(files[i].name@ == other);
                    }
                }
            }
        }
    }
}

} // verus!
