//! The subset of TUF concepts relevant to this project: targets metadata for
//! each package, and the snapshot metadata that lists them with revisions.
//!
//! Nothing is signed or verified, and the formats are left out.
use crate::authenticator::package_map::{
    entries_map, keys_distinct, lemma_entries_map_dom, lemma_entries_map_index, lemma_entries_map_len,
    lemma_entries_map_update,
};
use crate::log::PackageId;
use vstd::prelude::*;

verus! {

/// A revision number of metadata; the first is zero.
#[derive(Debug, Hash, Clone, Copy, Default, PartialEq, Eq, Structural)]
pub struct Revision(pub u32);

impl Revision {
    /// The revision numbered `value`.
    pub fn from(value: u32) -> (r: Self)
        ensures
            r.0 == value,
    {
        Revision(value)
    }
}

/// The name of a file of a target.
#[derive(Debug, Hash)]
pub struct FileName(pub String);

impl View for FileName {
    type V = Seq<char>;

    open spec fn view(&self) -> Seq<char> {
        self.0@
    }
}

impl FileName {
    /// The file name `name`.
    pub fn from(name: String) -> (r: Self)
        ensures
            r@ == name@,
    {
        FileName(name)
    }

    /// The name as a string.
    pub fn into_string(self) -> (r: String)
        ensures
            r@ == self@,
    {
        self.0
    }

    /// A copy of this name.
    pub fn duplicate(&self) -> (r: Self)
        ensures
            r@ == self@,
    {
        FileName(self.0.clone())
    }
}

/// A file of a target, with its length if known.
#[derive(Debug, Hash)]
pub struct File {
    name: FileName,
    length: Option<u64>,
}

impl View for File {
    type V = (Seq<char>, Option<u64>);

    closed spec fn view(&self) -> (Seq<char>, Option<u64>) {
        (self.name@, self.length)
    }
}

impl File {
    pub fn new(name: FileName, length: Option<u64>) -> (r: Self)
        ensures
            r@ == (name@, length),
    {
        Self { name, length }
    }

    pub fn name(self) -> (r: FileName)
        ensures
            r@ == self@.0,
    {
        self.name
    }

    pub fn length(&self) -> (r: Option<u64>)
        ensures
            r == self@.1,
    {
        self.length
    }

    /// A copy of this file.
    pub fn duplicate(&self) -> (r: Self)
        ensures
            r@ == self@,
    {
        File { name: self.name.duplicate(), length: self.length }
    }
}

/// The views of a list of files.
pub open spec fn file_views(files: Seq<File>) -> Seq<(Seq<char>, Option<u64>)> {
    files.map_values(|f: File| f@)
}

/// The metadata of one target: its files and its revision.
#[derive(Debug, Hash)]
pub struct TargetMetadata {
    /// List of paths in this target.
    files: Vec<File>,
    revision: Revision,
}

impl TargetMetadata {
    /// The files of the target.
    pub closed spec fn files(&self) -> Seq<(Seq<char>, Option<u64>)> {
        file_views(self.files@)
    }

    /// The revision of the target.
    pub closed spec fn revision(&self) -> u32 {
        self.revision.0
    }

    /// The first revision of a target: revision zero with `files`.
    pub fn initial(files: Vec<File>) -> (r: Self)
        ensures
            r.revision() == 0,
            r.files() == file_views(files@),
    {
        Self { files, revision: Revision(0) }
    }

    /// The next revision of this target, with `files`.
    pub fn update(&self, files: Vec<File>) -> (r: Self)
        requires
            self.revision() < u32::MAX,
        ensures
            r.revision() == self.revision() + 1,
            r.files() == file_views(files@),
    {
        Self { files, revision: Revision(self.revision.0 + 1) }
    }

    /// The revision of the target.
    pub fn get_revision(&self) -> (r: Revision)
        ensures
            r.0 == self.revision(),
    {
        self.revision
    }
}

/// The snapshot metadata: every target by name, and the revision of the
/// snapshot.
#[derive(Debug)]
pub struct SnapshotMetadata {
    targets: Vec<(PackageId, TargetMetadata)>,
    revision: Revision,
}

impl SnapshotMetadata {
    #[verifier::type_invariant]
    closed spec fn distinct(&self) -> bool {
        keys_distinct(self.targets@)
    }

    /// The targets by name.
    pub closed spec fn targets(&self) -> Map<Seq<char>, TargetMetadata> {
        entries_map(self.targets@)
    }

    /// The revision of the snapshot.
    pub closed spec fn revision(&self) -> u32 {
        self.revision.0
    }

    /// An empty snapshot at revision zero.
    pub fn new() -> (r: Self)
        ensures
            r.targets() == Map::<Seq<char>, TargetMetadata>::empty(),
            r.revision() == 0,
    {
        let r = SnapshotMetadata { targets: Vec::new(), revision: Revision(0) };
        assert(r.targets() =~= Map::<Seq<char>, TargetMetadata>::empty());
        r
    }

    /// The number of targets.
    pub fn num_targets(&self) -> (r: usize)
        ensures
            r == self.targets().len(),
    {
        proof {
            use_type_invariant(self);
            lemma_entries_map_len(self.targets@);
        }
        self.targets.len()
    }

    /// The revision of the snapshot.
    pub fn get_revision(&self) -> (r: Revision)
        ensures
            r.0 == self.revision(),
    {
        self.revision
    }

    /// The index of the target named `name` among `targets`, if any.
    fn find_in(targets: &Vec<(PackageId, TargetMetadata)>, name: &String) -> (r: Option<usize>)
        ensures
            match r {
                Some(i) => i < targets@.len() && targets@[i as int].0@ == name@,
                None => !entries_map(targets@).contains_key(name@),
            },
    {
        let mut i: usize = 0;
        while i < targets.len()
            invariant
                i <= targets@.len(),
                forall|j: int| 0 <= j < i ==> targets@[j].0@ != name@,
            decreases targets@.len() - i,
        {
            if targets[i].0.0 == *name {
                return Some(i);
            }
            i += 1;
        }
        proof {
            lemma_entries_map_dom(targets@, name@);
        }
        None
    }

    /// The target named `name`, if there is one.
    pub fn get(&self, name: &String) -> (r: Option<&TargetMetadata>)
        ensures
            match r {
                Some(t) => self.targets().contains_key(name@) && *t == self.targets()[name@],
                None => !self.targets().contains_key(name@),
            },
    {
        proof {
            use_type_invariant(self);
        }
        match Self::find_in(&self.targets, name) {
            Some(i) => {
                proof {
                    lemma_entries_map_index(self.targets@, i as int);
                }
                Some(&self.targets[i].1)
            },
            None => None,
        }
    }

    /// Adds a target named `name` with `files` at revision zero, or moves the
    /// existing one to its next revision with `files`; either way the
    /// snapshot moves to its next revision.
    pub fn upsert_target(&mut self, name: String, files: Vec<File>)
        requires
            old(self).revision() < u32::MAX,
            old(self).targets().contains_key(name@) ==> old(self).targets()[name@].revision() < u32::MAX,
        ensures
            final(self).revision() == old(self).revision() + 1,
            final(self).targets().contains_key(name@),
            final(self).targets()[name@].files() == file_views(files@),
            final(self).targets()[name@].revision() == (if old(self).targets().contains_key(name@) {
                old(self).targets()[name@].revision() + 1
            } else {
                0
            }),
            final(self).targets().remove(name@) == old(self).targets().remove(name@),
    {
        proof {
            use_type_invariant(&*self);
        }
        let ghost s = self.targets@;
        let mut targets: Vec<(PackageId, TargetMetadata)> = Vec::new();
        std::mem::swap(&mut targets, &mut self.targets);
        match Self::find_in(&targets, &name) {
            Some(i) => {
                proof {
                    lemma_entries_map_index(s, i as int);
                }
                let new_target = targets[i].1.update(files);
                let key = targets[i].0.duplicate();
                let ghost t = new_target;
                targets.set(i, (key, new_target));
                proof {
                    lemma_entries_map_update(s, i as int, t);
                    assert(targets@ =~= s.update(i as int, (s[i as int].0, t)));
                    assert(keys_distinct(targets@)) by {
                        assert forall|a: int, b: int| 0 <= a < b < targets@.len() implies targets@[a].0@
                            != targets@[b].0@ by {
                            assert(s[a].0@ != s[b].0@);
                        }
                    }
                    assert(entries_map(targets@).remove(name@) =~= entries_map(s).remove(name@));
                }
            },
            None => {
                let ghost key = name@;
                let t = TargetMetadata::initial(files);
                let ghost tv = t;
                targets.push((PackageId(name), t));
                proof {
                    lemma_entries_map_dom(s, key);
                    assert(targets@.drop_last() =~= s);
                    assert(keys_distinct(targets@)) by {
                        assert forall|a: int, b: int| 0 <= a < b < targets@.len() implies targets@[a].0@
                            != targets@[b].0@ by {
                            if b < s.len() {
                                assert(s[a].0@ != s[b].0@);
                            } else {
                                assert(targets@[a] == s[a]);
                            }
                        }
                    }
                    assert(entries_map(targets@) == entries_map(s).insert(key, tv));
                    assert(entries_map(targets@).remove(key) =~= entries_map(s).remove(key));
                }
            },
        }
        self.targets = targets;
        self.revision = Revision(self.revision.0 + 1);
    }
}

impl Default for TargetMetadata {
    /// No files, at revision zero.
    fn default() -> (r: Self)
        ensures
            r.revision() == 0,
            r.files().len() == 0,
    {
        let r = TargetMetadata { files: Vec::new(), revision: Revision(0) };
        assert(r.files() =~= Seq::<(Seq<char>, Option<u64>)>::empty());
        r
    }
}

impl Default for SnapshotMetadata {
    /// No targets, at revision zero.
    fn default() -> (r: Self)
        ensures
            r.targets() == Map::<Seq<char>, TargetMetadata>::empty(),
            r.revision() == 0,
    {
        SnapshotMetadata::new()
    }
}

} // verus!
