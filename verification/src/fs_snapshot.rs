//! Changes that are to be made to a file system.

use vstd::prelude::*;

use crate::name_map::{lemma_all_taken, lemma_taken, NameMap};
use crate::plain::Plain;

verus! {

/// Files and directories that are to be added or removed, by their paths.
#[derive(Debug)]
pub struct FsSnapshot {
    pub added_files: NameMap<Vec<u8>>,
    pub added_dirs: Vec<String>,
    pub removed_files: Vec<String>,
    pub removed_dirs: Vec<String>,
}

/// What an [`FsSnapshot`] holds.
pub struct FsView {
    pub added_files: Map<Seq<char>, Seq<u8>>,
    pub added_dirs: Set<Seq<char>>,
    pub removed_files: Set<Seq<char>>,
    pub removed_dirs: Set<Seq<char>>,
}

impl DeepView for FsSnapshot {
    type V = FsView;

    open spec fn deep_view(&self) -> FsView {
        FsView {
            added_files: self.added_files@,
            added_dirs: self.added_dirs.deep_view().to_set(),
            removed_files: self.removed_files.deep_view().to_set(),
            removed_dirs: self.removed_dirs.deep_view().to_set(),
        }
    }
}

/// No changes.
pub open spec fn no_fs_changes() -> FsView {
    FsView {
        added_files: Map::empty(),
        added_dirs: Set::empty(),
        removed_files: Set::empty(),
        removed_dirs: Set::empty(),
    }
}

/// Changes and further changes: where both add a file, the further ones give
/// its contents.
pub open spec fn merged(first: FsView, second: FsView) -> FsView {
    FsView {
        added_files: first.added_files.union_prefer_right(second.added_files),
        added_dirs: first.added_dirs.union(second.added_dirs),
        removed_files: first.removed_files.union(second.removed_files),
        removed_dirs: first.removed_dirs.union(second.removed_dirs),
    }
}

proof fn lemma_pushed_to_set(list: Seq<Seq<char>>, x: Seq<char>)
    ensures
        list.push(x).to_set() == list.to_set().insert(x),
{
    let more = list.push(x);
    assert forall|y: Seq<char>| more.to_set().contains(y) <==> list.to_set().insert(x).contains(
        y,
    ) by {
        assert(more[list.len() as int] == x);
        if list.contains(y) {
            let k = list.index_of(y);
            assert(more[k] == y);
        }
    }
}

/// Adds the entries of a list to another.
fn extend_with(list: &mut Vec<String>, more: &Vec<String>)
    ensures
        final(list).deep_view().to_set() == old(list).deep_view().to_set().union(
            more.deep_view().to_set(),
        ),
{
    let ghost before = list.deep_view().to_set();
    let ghost names = more.deep_view();
    let mut i: usize = 0;
    while i < more.len()
        invariant
            i <= more@.len(),
            names == more.deep_view(),
            list.deep_view().to_set() == before.union(names.take(i as int).to_set()),
        decreases more@.len() - i,
    {
        let ghost so_far = list.deep_view();
        list.push(more[i].clone());
        proof {
            let x = names[i as int];
            assert(list.deep_view() =~= so_far.push(x));
            lemma_pushed_to_set(so_far, x);
            assert(names.take(i + 1) =~= names.take(i as int).push(x));
            lemma_pushed_to_set(names.take(i as int), x);
        }
        i += 1;
    }
    proof {
        assert(names.take(i as int) =~= names);
    }
}

impl FsSnapshot {
    /// No changes.
    pub fn new() -> (snapshot: FsSnapshot)
        ensures
            snapshot.deep_view() == no_fs_changes(),
    {
        let snapshot = FsSnapshot {
            added_files: NameMap::new(),
            added_dirs: Vec::new(),
            removed_files: Vec::new(),
            removed_dirs: Vec::new(),
        };
        proof {
            assert(snapshot.removed_dirs.deep_view().to_set() =~= Set::<Seq<char>>::empty());
        }
        snapshot
    }

    /// Adds a file with the given contents.
    pub fn add_file(&mut self, path: String, contents: Vec<u8>)
        ensures
            final(self).deep_view() == (FsView {
                added_files: old(self).deep_view().added_files.insert(
                    path@,
                    contents.deep_view(),
                ),
                ..old(self).deep_view()
            }),
    {
        self.added_files.insert(path, contents);
    }

    /// The changes with one more file added.
    pub fn with_added_file(self, path: String, contents: Vec<u8>) -> (snapshot: FsSnapshot)
        ensures
            snapshot.deep_view() == (FsView {
                added_files: self.deep_view().added_files.insert(path@, contents.deep_view()),
                ..self.deep_view()
            }),
    {
        let mut snapshot = self;
        snapshot.add_file(path, contents);
        snapshot
    }

    /// Removes a file.
    pub fn remove_file(&mut self, path: String)
        ensures
            final(self).deep_view() == (FsView {
                removed_files: old(self).deep_view().removed_files.insert(path@),
                ..old(self).deep_view()
            }),
    {
        let ghost before = self.removed_files.deep_view();
        self.removed_files.push(path);
        proof {
            assert(self.removed_files.deep_view() =~= before.push(path@));
            lemma_pushed_to_set(before, path@);
        }
    }

    /// Removes a directory.
    pub fn remove_dir(&mut self, path: String)
        ensures
            final(self).deep_view() == (FsView {
                removed_dirs: old(self).deep_view().removed_dirs.insert(path@),
                ..old(self).deep_view()
            }),
    {
        let ghost before = self.removed_dirs.deep_view();
        self.removed_dirs.push(path);
        proof {
            assert(self.removed_dirs.deep_view() =~= before.push(path@));
            lemma_pushed_to_set(before, path@);
        }
    }

    /// Makes further changes on top of these.
    pub fn merge(&mut self, other: FsSnapshot)
        ensures
            final(self).deep_view() == merged(old(self).deep_view(), other.deep_view()),
    {
        extend_with(&mut self.added_dirs, &other.added_dirs);
        extend_with(&mut self.removed_files, &other.removed_files);
        extend_with(&mut self.removed_dirs, &other.removed_dirs);
        let ghost before = self.added_files@;
        let ghost more = other.added_files@;
        let len: usize = other.added_files.len();
        let mut i: usize = 0;
        while i < len
            invariant
                i <= len,
                len == other.added_files.names().len(),
                more == other.added_files@,
                self.added_dirs.deep_view().to_set() == old(
                    self,
                ).added_dirs.deep_view().to_set().union(other.added_dirs.deep_view().to_set()),
                self.removed_files.deep_view().to_set() == old(
                    self,
                ).removed_files.deep_view().to_set().union(
                    other.removed_files.deep_view().to_set(),
                ),
                self.removed_dirs.deep_view().to_set() == old(
                    self,
                ).removed_dirs.deep_view().to_set().union(other.removed_dirs.deep_view().to_set()),
                forall|name: Seq<char>| #[trigger]
                    self.added_files@.contains_key(name) <==> before.contains_key(name)
                        || other.added_files.names().take(i as int).contains(name),
                forall|name: Seq<char>| #[trigger]
                    self.added_files@.contains_key(name) ==> self.added_files@[name]
                        == if other.added_files.names().take(i as int).contains(name) {
                        more[name]
                    } else {
                        before[name]
                    },
            decreases len - i,
        {
            proof {
                lemma_taken(other.added_files.names(), i as int);
            }
            let name = other.added_files.name_at(i);
            self.added_files.insert(name.clone(), other.added_files.value_at(i).duplicate());
            i += 1;
        }
        proof {
            lemma_all_taken(other.added_files.names(), i as int);
            assert(self.added_files@ =~= before.union_prefer_right(more));
        }
    }
}

} // verus!
