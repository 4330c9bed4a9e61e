//! The in-memory project context: accepted files with their contents, and
//! the parent-to-children directory mapping rooted at the empty (root) path.

use vstd::prelude::*;
use vstd::utf8::{decode_utf8, valid_utf8};
use crate::pathutil::parent_dir_of;
use crate::sniff::{is_binary, is_binary_spec};

verus! {

/// An accepted file: its root-relative path and its textual content (or the
/// binary placeholder).
pub struct FileInfo {
    pub relative_path: String,
    pub content: String,
}

/// A directory and the root-relative paths of its accepted children.
pub struct DirInfo {
    pub relative_path: String,
    pub children: Vec<String>,
}

/// The accumulated result of a scan: accepted files and the directory tree.
pub struct ProjectContext {
    pub files: Vec<FileInfo>,
    pub directories: Vec<DirInfo>,
}

impl ProjectContext {
    /// Whether `p` is a known directory path.
    pub open spec fn is_dir(self, p: Seq<char>) -> bool {
        exists|i: int|
            0 <= i < self.directories@.len() && self.directories@[i].relative_path@ == p
    }

    /// Whether `p` is an accepted file path.
    pub open spec fn is_file(self, p: Seq<char>) -> bool {
        exists|i: int| 0 <= i < self.files@.len() && self.files@[i].relative_path@ == p
    }

    /// Whether `p` appears as a child in some directory's children list.
    pub open spec fn linked(self, p: Seq<char>) -> bool {
        exists|i: int, k: int|
            0 <= i < self.directories@.len() && 0 <= k < self.directories@[i].children@.len()
                && self.directories@[i].children@[k]@ == p
    }

    /// Well-formedness of the accumulated tree: the root exists; directory
    /// and file paths are distinct and never both; every child is a
    /// non-empty path lying directly under its parent directory and is a
    /// known directory or file; no child is recorded twice; every non-root
    /// directory and every file is linked as a child of its parent.
    pub open spec fn wf(self) -> bool {
        &&& self.is_dir(Seq::<char>::empty())
        &&& forall|i: int, j: int|
            0 <= i < j < self.directories@.len() ==> self.directories@[i].relative_path@
                != self.directories@[j].relative_path@
        &&& forall|i: int, j: int|
            0 <= i < j < self.files@.len() ==> self.files@[i].relative_path@
                != self.files@[j].relative_path@
        &&& forall|i: int, j: int|
            0 <= i < self.directories@.len() && 0 <= j < self.files@.len()
                ==> self.directories@[i].relative_path@ != self.files@[j].relative_path@
        &&& forall|i: int, k: int|
            0 <= i < self.directories@.len() && 0 <= k < self.directories@[i].children@.len()
                ==> (#[trigger] self.directories@[i].children@[k]@).len() > 0 && parent_dir_of(
                self.directories@[i].children@[k]@,
            ) == self.directories@[i].relative_path@ && (self.is_dir(
                self.directories@[i].children@[k]@,
            ) || self.is_file(self.directories@[i].children@[k]@))
        &&& forall|i: int, k: int, l: int|
            0 <= i < self.directories@.len() && 0 <= k < l < self.directories@[i].children@.len()
                ==> self.directories@[i].children@[k]@ != self.directories@[i].children@[l]@
        &&& forall|i: int|
            0 <= i < self.directories@.len() && (#[trigger] self.directories@[i].relative_path@).len()
                > 0 ==> self.linked(self.directories@[i].relative_path@)
        &&& forall|i: int|
            0 <= i < self.files@.len() ==> (#[trigger] self.files@[i].relative_path@).len() > 0
                && self.linked(self.files@[i].relative_path@)
    }

    /// A fresh context: the root directory alone, no files.
    pub fn new() -> (c: ProjectContext)
        ensures
            c.wf(),
            c.files@.len() == 0,
            c.directories@.len() == 1,
            c.directories@[0].relative_path@ == Seq::<char>::empty(),
            c.directories@[0].children@.len() == 0,
            forall|p: Seq<char>| c.is_dir(p) ==> p == Seq::<char>::empty(),
            forall|p: Seq<char>| !c.is_file(p),
    {
        let mut directories: Vec<DirInfo> = Vec::new();
        directories.push(DirInfo { relative_path: String::new(), children: Vec::new() });
        let c = ProjectContext { files: Vec::new(), directories };
        proof {
            assert(c.directories@[0].relative_path@ == Seq::<char>::empty());
            assert(c.is_dir(Seq::<char>::empty()));
        }
        c
    }

    /// Finds the index of a directory entry by its path.
    pub(crate) fn find_dir(&self, p: &str) -> (r: Option<usize>)
        ensures
            match r {
                Some(i) => i < self.directories@.len() && self.directories@[i as int].relative_path@
                    == p@,
                None => !self.is_dir(p@),
            },
    {
        let n = self.directories.len();
        let mut i: usize = 0;
        while i < n
            invariant
                0 <= i <= n,
                n == self.directories@.len(),
                forall|j: int| 0 <= j < i ==> self.directories@[j].relative_path@ != p@,
            decreases n - i,
        {
            if crate::pathutil::str_eq(self.directories[i].relative_path.as_str(), p) {
                return Some(i);
            }
            i += 1;
        }
        None
    }

    /// Finds the index of a file entry by its path.
    pub(crate) fn find_file(&self, p: &str) -> (r: Option<usize>)
        ensures
            match r {
                Some(i) => i < self.files@.len() && self.files@[i as int].relative_path@ == p@,
                None => !self.is_file(p@),
            },
    {
        let n = self.files.len();
        let mut i: usize = 0;
        while i < n
            invariant
                0 <= i <= n,
                n == self.files@.len(),
                forall|j: int| 0 <= j < i ==> self.files@[j].relative_path@ != p@,
            decreases n - i,
        {
            if crate::pathutil::str_eq(self.files[i].relative_path.as_str(), p) {
                return Some(i);
            }
            i += 1;
        }
        None
    }

    /// Whether `p` is a known directory path.
    pub fn has_dir(&self, p: &str) -> (r: bool)
        ensures
            r == self.is_dir(p@),
    {
        match self.find_dir(p) {
            Some(i) => {
                proof {
                    assert(self.is_dir(p@));
                }
                true
            },
            None => false,
        }
    }

    /// Whether `p` is an accepted file path.
    pub fn has_file(&self, p: &str) -> (r: bool)
        ensures
            r == self.is_file(p@),
    {
        let n = self.files.len();
        let mut i: usize = 0;
        while i < n
            invariant
                0 <= i <= n,
                n == self.files@.len(),
                forall|j: int| 0 <= j < i ==> self.files@[j].relative_path@ != p@,
            decreases n - i,
        {
            if crate::pathutil::str_eq(self.files[i].relative_path.as_str(), p) {
                proof {
                    assert(self.is_file(p@));
                }
                return true;
            }
            i += 1;
        }
        false
    }

    /// Adds a directory to the tree: a new entry with no children, linked as
    /// a child of its parent, which must already exist; every path is added
    /// at most once (the walker visits parents first and each path once).
    pub fn add_directory(&mut self, relative_path: &str)
        requires
            old(self).wf(),
            relative_path@.len() > 0,
            !old(self).is_dir(relative_path@),
            !old(self).is_file(relative_path@),
            old(self).is_dir(parent_dir_of(relative_path@)),
        ensures
            final(self).wf(),
            final(self).files == old(self).files,
            final(self).is_dir(relative_path@),
            forall|p: Seq<char>|
                #[trigger] final(self).is_dir(p) == (old(self).is_dir(p) || p == relative_path@),
            forall|p: Seq<char>| #[trigger] final(self).is_file(p) == old(self).is_file(p),
            forall|p: Seq<char>|
                #[trigger] final(self).linked(p) == (old(self).linked(p) || p == relative_path@),
            final(self).directories@.len() == old(self).directories@.len() + 1,
            final(self).directories@.last().relative_path@ == relative_path@,
            final(self).directories@.last().children@.len() == 0,
            exists|pi: int|
                {
                    &&& 0 <= pi < old(self).directories@.len()
                    &&& old(self).directories@[pi].relative_path@ == parent_dir_of(relative_path@)
                    &&& #[trigger] final(self).directories@[pi].relative_path@ == old(self).directories@[pi].relative_path@
                    &&& final(self).directories@[pi].children@ == old(self).directories@[pi].children@.push(final(self).directories@[pi].children@.last())
                    &&& final(self).directories@[pi].children@.last()@ == relative_path@
                    &&& forall|j: int|
                        (0 <= j && j < old(self).directories@.len() && j != pi) ==> final(self).directories@[j] == old(self).directories@[j]
                },
    {
        let parent = crate::pathutil::path_parent(relative_path);
        let pi = match self.find_dir(parent.as_str()) {
            Some(i) => i,
            None => {
                proof {
                    assert(false);
                }
                0
            },
        };
        let ghost old_dirs = self.directories@;
        let child = relative_path.to_owned();
        self.directories[pi].children.push(child);
        self.directories.push(
            DirInfo { relative_path: relative_path.to_owned(), children: Vec::new() },
        );
        proof {
            let n = old_dirs.len() as int;
            let fd = self.directories@;
            assert(fd.len() == n + 1);
            assert(fd[n].relative_path@ == relative_path@);
            assert(forall|j: int| 0 <= j < n && j != pi ==> fd[j] == old_dirs[j]);
            assert(fd[pi as int].children@ == old_dirs[pi as int].children@.push(
                fd[pi as int].children@.last(),
            ));
            assert(self.is_dir(relative_path@));
            lemma_add_dir_wf(*old(self), *self, relative_path@, pi as int);
        }
    }

    /// Adds an accepted file to the tree: recorded in the file list and
    /// linked as a child of its parent directory, which must already exist.
    pub fn add_file(&mut self, relative_path: &str, content: String)
        requires
            old(self).wf(),
            relative_path@.len() > 0,
            !old(self).is_dir(relative_path@),
            !old(self).is_file(relative_path@),
            old(self).is_dir(parent_dir_of(relative_path@)),
        ensures
            final(self).wf(),
            final(self).is_file(relative_path@),
            forall|p: Seq<char>| #[trigger] final(self).is_dir(p) == old(self).is_dir(p),
            forall|p: Seq<char>|
                #[trigger] final(self).is_file(p) == (old(self).is_file(p) || p == relative_path@),
            forall|p: Seq<char>|
                #[trigger] final(self).linked(p) == (old(self).linked(p) || p == relative_path@),
            final(self).files@.len() == old(self).files@.len() + 1,
            final(self).files@.last().relative_path@ == relative_path@,
            final(self).files@.last().content == content,
            final(self).files@.drop_last() == old(self).files@,
            final(self).directories@.len() == old(self).directories@.len(),
            exists|pi: int|
                {
                    &&& 0 <= pi < old(self).directories@.len()
                    &&& old(self).directories@[pi].relative_path@ == parent_dir_of(relative_path@)
                    &&& #[trigger] final(self).directories@[pi].relative_path@ == old(self).directories@[pi].relative_path@
                    &&& final(self).directories@[pi].children@ == old(self).directories@[pi].children@.push(final(self).directories@[pi].children@.last())
                    &&& final(self).directories@[pi].children@.last()@ == relative_path@
                    &&& forall|j: int|
                        (0 <= j && j < old(self).directories@.len() && j != pi) ==> final(self).directories@[j] == old(self).directories@[j]
                },
    {
        let parent = crate::pathutil::path_parent(relative_path);
        let pi = match self.find_dir(parent.as_str()) {
            Some(i) => i,
            None => {
                proof {
                    assert(false);
                }
                0
            },
        };
        let ghost old_dirs = self.directories@;
        let ghost old_files = self.files@;
        let child = relative_path.to_owned();
        self.directories[pi].children.push(child);
        self.files.push(FileInfo { relative_path: relative_path.to_owned(), content });
        proof {
            assert(self.files@.drop_last() =~= old_files);
            assert(self.files@[old_files.len() as int].relative_path@ == relative_path@);
            assert(self.is_file(relative_path@));
            lemma_add_file_wf(*old(self), *self, relative_path@, pi as int);
        }
    }
}

/// After a directory insertion the tree is still well formed, and the
/// classification of every path changes only at the inserted one.
proof fn lemma_add_dir_wf(oldc: ProjectContext, newc: ProjectContext, p: Seq<char>, pi: int)
    requires
        oldc.wf(),
        p.len() > 0,
        !oldc.is_dir(p),
        !oldc.is_file(p),
        0 <= pi < oldc.directories@.len(),
        oldc.directories@[pi].relative_path@ == parent_dir_of(p),
        newc.files == oldc.files,
        newc.directories@.len() == oldc.directories@.len() + 1,
        newc.directories@.last().relative_path@ == p,
        newc.directories@.last().children@.len() == 0,
        newc.directories@[pi].relative_path@ == oldc.directories@[pi].relative_path@,
        newc.directories@[pi].children@ == oldc.directories@[pi].children@.push(
            newc.directories@[pi].children@.last(),
        ),
        newc.directories@[pi].children@.last()@ == p,
        forall|j: int|
            0 <= j < oldc.directories@.len() && j != pi ==> newc.directories@[j]
                == oldc.directories@[j],
    ensures
        newc.wf(),
        forall|q: Seq<char>| #[trigger] newc.is_dir(q) == (oldc.is_dir(q) || q == p),
        forall|q: Seq<char>| #[trigger] newc.is_file(q) == oldc.is_file(q),
        forall|q: Seq<char>| #[trigger] newc.linked(q) == (oldc.linked(q) || q == p),
{
    let n = oldc.directories@.len() as int;
    assert forall|q: Seq<char>| #[trigger] newc.is_dir(q) == (oldc.is_dir(q) || q == p) by {
        if newc.is_dir(q) {
            let i = choose|i: int|
                0 <= i < newc.directories@.len() && newc.directories@[i].relative_path@ == q;
            if i < n {
                assert(oldc.directories@[i].relative_path@ == q);
            }
        }
        if oldc.is_dir(q) {
            let i = choose|i: int|
                0 <= i < oldc.directories@.len() && oldc.directories@[i].relative_path@ == q;
            assert(newc.directories@[i].relative_path@ == q);
        }
        if q == p {
            assert(newc.directories@[n].relative_path@ == q);
        }
    }
    assert forall|q: Seq<char>| #[trigger] newc.is_file(q) == oldc.is_file(q) by {}
    assert forall|q: Seq<char>| #[trigger] newc.linked(q) == (oldc.linked(q) || q == p) by {
        if newc.linked(q) {
            let (i, k) = choose|i: int, k: int|
                0 <= i < newc.directories@.len() && 0 <= k < newc.directories@[i].children@.len()
                    && newc.directories@[i].children@[k]@ == q;
            if i == pi && k == oldc.directories@[pi].children@.len() {
                assert(q == p);
            } else if i < n {
                assert(oldc.directories@[i].children@[k]@ == q);
                assert(oldc.linked(q));
            }
        }
        if oldc.linked(q) {
            let (i, k) = choose|i: int, k: int|
                0 <= i < oldc.directories@.len() && 0 <= k < oldc.directories@[i].children@.len()
                    && oldc.directories@[i].children@[k]@ == q;
            assert(newc.directories@[i].children@[k]@ == q);
        }
        if q == p {
            assert(newc.directories@[pi].children@[oldc.directories@[pi].children@.len() as int]@
                == q);
        }
    }
    assert(newc.is_dir(Seq::<char>::empty()));
    assert forall|i: int, j: int| 0 <= i < j < newc.directories@.len() implies newc.directories@[i].relative_path@
        != newc.directories@[j].relative_path@ by {
        if j < n {
        } else {
            if newc.directories@[i].relative_path@ == p {
                assert(oldc.is_dir(p));
            }
        }
    }
    assert forall|i: int, k: int|
        0 <= i < newc.directories@.len() && 0 <= k < newc.directories@[i].children@.len() implies (
    #[trigger] newc.directories@[i].children@[k]@).len() > 0 && parent_dir_of(
        newc.directories@[i].children@[k]@,
    ) == newc.directories@[i].relative_path@ && (newc.is_dir(newc.directories@[i].children@[k]@)
        || newc.is_file(newc.directories@[i].children@[k]@)) by {
        if i == pi && k == oldc.directories@[pi].children@.len() {
            assert(newc.directories@[i].children@[k]@ == p);
        } else if i < n {
            assert(oldc.directories@[i].children@[k]@ == newc.directories@[i].children@[k]@);
            assert(oldc.is_dir(oldc.directories@[i].children@[k]@) || oldc.is_file(
                oldc.directories@[i].children@[k]@,
            ));
        }
    }
    assert forall|i: int, k: int, l: int|
        0 <= i < newc.directories@.len() && 0 <= k < l < newc.directories@[i].children@.len()
        implies newc.directories@[i].children@[k]@ != newc.directories@[i].children@[l]@ by {
        if i == pi && l == oldc.directories@[pi].children@.len() {
            assert(oldc.directories@[i].children@[k]@ == newc.directories@[i].children@[k]@);
            if newc.directories@[i].children@[k]@ == p {
                assert(oldc.linked(p));
                let (x, y) = choose|x: int, y: int|
                    0 <= x < oldc.directories@.len() && 0 <= y
                        < oldc.directories@[x].children@.len()
                        && oldc.directories@[x].children@[y]@ == p;
                assert(oldc.is_dir(p) || oldc.is_file(p));
                assert(false);
            }
        }
    }
    assert forall|i: int|
        0 <= i < newc.directories@.len() && (#[trigger] newc.directories@[i].relative_path@).len()
            > 0 implies newc.linked(newc.directories@[i].relative_path@) by {
        if i < n {
            if newc.directories@[i].relative_path@.len() > 0 {
                assert(oldc.linked(oldc.directories@[i].relative_path@));
            }
        } else {
            assert(newc.linked(p));
        }
    }
    assert forall|i: int| 0 <= i < newc.files@.len() implies (
    #[trigger] newc.files@[i].relative_path@).len() > 0 && newc.linked(
        newc.files@[i].relative_path@,
    ) by {
        assert(oldc.linked(oldc.files@[i].relative_path@));
    }
}

/// After a file insertion the tree is still well formed, and the
/// classification of every path changes only at the inserted one.
proof fn lemma_add_file_wf(oldc: ProjectContext, newc: ProjectContext, p: Seq<char>, pi: int)
    requires
        oldc.wf(),
        p.len() > 0,
        !oldc.is_dir(p),
        !oldc.is_file(p),
        0 <= pi < oldc.directories@.len(),
        oldc.directories@[pi].relative_path@ == parent_dir_of(p),
        newc.files@.len() == oldc.files@.len() + 1,
        newc.files@.drop_last() == oldc.files@,
        newc.files@.last().relative_path@ == p,
        newc.directories@.len() == oldc.directories@.len(),
        newc.directories@[pi].relative_path@ == oldc.directories@[pi].relative_path@,
        newc.directories@[pi].children@ == oldc.directories@[pi].children@.push(
            newc.directories@[pi].children@.last(),
        ),
        newc.directories@[pi].children@.last()@ == p,
        forall|j: int|
            0 <= j < oldc.directories@.len() && j != pi ==> newc.directories@[j]
                == oldc.directories@[j],
    ensures
        newc.wf(),
        forall|q: Seq<char>| #[trigger] newc.is_dir(q) == oldc.is_dir(q),
        forall|q: Seq<char>| #[trigger] newc.is_file(q) == (oldc.is_file(q) || q == p),
        forall|q: Seq<char>| #[trigger] newc.linked(q) == (oldc.linked(q) || q == p),
{
    let n = oldc.directories@.len() as int;
    let m = oldc.files@.len() as int;
    assert forall|q: Seq<char>| #[trigger] newc.is_dir(q) == oldc.is_dir(q) by {
        if newc.is_dir(q) {
            let i = choose|i: int|
                0 <= i < newc.directories@.len() && newc.directories@[i].relative_path@ == q;
            assert(oldc.directories@[i].relative_path@ == q);
        }
        if oldc.is_dir(q) {
            let i = choose|i: int|
                0 <= i < oldc.directories@.len() && oldc.directories@[i].relative_path@ == q;
            assert(newc.directories@[i].relative_path@ == q);
        }
    }
    assert forall|q: Seq<char>| #[trigger] newc.is_file(q) == (oldc.is_file(q) || q == p) by {
        if newc.is_file(q) {
            let i = choose|i: int|
                0 <= i < newc.files@.len() && newc.files@[i].relative_path@ == q;
            if i < m {
                assert(newc.files@.drop_last()[i] == newc.files@[i]);
                assert(oldc.files@[i].relative_path@ == q);
            }
        }
        if oldc.is_file(q) {
            let i = choose|i: int| 0 <= i < oldc.files@.len() && oldc.files@[i].relative_path@ == q;
            assert(newc.files@.drop_last()[i] == oldc.files@[i]);
            assert(newc.files@[i].relative_path@ == q);
        }
        if q == p {
            assert(newc.files@[m].relative_path@ == q);
        }
    }
    assert forall|q: Seq<char>| #[trigger] newc.linked(q) == (oldc.linked(q) || q == p) by {
        if newc.linked(q) {
            let (i, k) = choose|i: int, k: int|
                0 <= i < newc.directories@.len() && 0 <= k < newc.directories@[i].children@.len()
                    && newc.directories@[i].children@[k]@ == q;
            if i == pi && k == oldc.directories@[pi].children@.len() {
                assert(q == p);
            } else {
                assert(oldc.directories@[i].children@[k]@ == q);
                assert(oldc.linked(q));
            }
        }
        if oldc.linked(q) {
            let (i, k) = choose|i: int, k: int|
                0 <= i < oldc.directories@.len() && 0 <= k < oldc.directories@[i].children@.len()
                    && oldc.directories@[i].children@[k]@ == q;
            assert(newc.directories@[i].children@[k]@ == q);
        }
        if q == p {
            assert(newc.directories@[pi].children@[oldc.directories@[pi].children@.len() as int]@
                == q);
        }
    }
    assert(newc.is_dir(Seq::<char>::empty()));
    assert forall|i: int, j: int| 0 <= i < j < newc.files@.len() implies newc.files@[i].relative_path@
        != newc.files@[j].relative_path@ by {
        if j < m {
            assert(newc.files@.drop_last()[i] == newc.files@[i]);
            assert(newc.files@.drop_last()[j] == newc.files@[j]);
        } else {
            assert(newc.files@.drop_last()[i] == newc.files@[i]);
            if newc.files@[i].relative_path@ == p {
                assert(oldc.is_file(p));
            }
        }
    }
    assert forall|i: int, j: int|
        0 <= i < newc.directories@.len() && 0 <= j < newc.files@.len() implies newc.directories@[i].relative_path@
        != newc.files@[j].relative_path@ by {
        if j < m {
            assert(newc.files@.drop_last()[j] == newc.files@[j]);
        } else {
            if newc.directories@[i].relative_path@ == p {
                assert(oldc.is_dir(p));
            }
        }
    }
    assert forall|i: int, k: int|
        0 <= i < newc.directories@.len() && 0 <= k < newc.directories@[i].children@.len() implies (
    #[trigger] newc.directories@[i].children@[k]@).len() > 0 && parent_dir_of(
        newc.directories@[i].children@[k]@,
    ) == newc.directories@[i].relative_path@ && (newc.is_dir(newc.directories@[i].children@[k]@)
        || newc.is_file(newc.directories@[i].children@[k]@)) by {
        if i == pi && k == oldc.directories@[pi].children@.len() {
            assert(newc.directories@[i].children@[k]@ == p);
        } else {
            assert(oldc.directories@[i].children@[k]@ == newc.directories@[i].children@[k]@);
            assert(oldc.is_dir(oldc.directories@[i].children@[k]@) || oldc.is_file(
                oldc.directories@[i].children@[k]@,
            ));
        }
    }
    assert forall|i: int, k: int, l: int|
        0 <= i < newc.directories@.len() && 0 <= k < l < newc.directories@[i].children@.len()
        implies newc.directories@[i].children@[k]@ != newc.directories@[i].children@[l]@ by {
        if i == pi && l == oldc.directories@[pi].children@.len() {
            assert(oldc.directories@[i].children@[k]@ == newc.directories@[i].children@[k]@);
            if newc.directories@[i].children@[k]@ == p {
                assert(oldc.linked(p));
                assert(oldc.is_dir(p) || oldc.is_file(p));
                assert(false);
            }
        }
    }
    assert forall|i: int|
        0 <= i < newc.directories@.len() && (#[trigger] newc.directories@[i].relative_path@).len()
            > 0 implies newc.linked(newc.directories@[i].relative_path@) by {
        assert(oldc.linked(oldc.directories@[i].relative_path@));
    }
    assert forall|i: int| 0 <= i < newc.files@.len() implies (
    #[trigger] newc.files@[i].relative_path@).len() > 0 && newc.linked(
        newc.files@[i].relative_path@,
    ) by {
        if i < m {
            assert(newc.files@.drop_last()[i] == newc.files@[i]);
            assert(oldc.linked(oldc.files@[i].relative_path@));
        } else {
            assert(newc.files@[i].relative_path@ == p);
            assert(newc.linked(p));
        }
    }
}

/// In a well-formed context the accepted files are exactly the leaf entries
/// of the tree: the children that are not themselves directories. The
/// content renderer emits exactly the file paths, the tree renderer's leaf
/// lines exactly the non-directory children, so the two outputs list the
/// same set of paths.
pub proof fn lemma_files_are_leaves(ctx: ProjectContext)
    requires
        ctx.wf(),
    ensures
        forall|c: Seq<char>| ctx.linked(c) && !ctx.is_dir(c) ==> #[trigger] ctx.is_file(c),
        forall|c: Seq<char>| #[trigger] ctx.is_file(c) ==> ctx.linked(c) && !ctx.is_dir(c),
{
    assert forall|c: Seq<char>| ctx.linked(c) && !ctx.is_dir(c) implies #[trigger] ctx.is_file(
        c,
    ) by {
        let (i, k) = choose|i: int, k: int|
            0 <= i < ctx.directories@.len() && 0 <= k < ctx.directories@[i].children@.len()
                && ctx.directories@[i].children@[k]@ == c;
        assert(ctx.is_dir(ctx.directories@[i].children@[k]@) || ctx.is_file(
            ctx.directories@[i].children@[k]@,
        ));
    }
    assert forall|c: Seq<char>| #[trigger] ctx.is_file(c) implies ctx.linked(c) && !ctx.is_dir(
        c,
    ) by {
        let i = choose|i: int| 0 <= i < ctx.files@.len() && ctx.files@[i].relative_path@ == c;
        assert(ctx.linked(ctx.files@[i].relative_path@));
        if ctx.is_dir(c) {
            let j = choose|j: int|
                0 <= j < ctx.directories@.len() && ctx.directories@[j].relative_path@ == c;
            assert(ctx.directories@[j].relative_path@ != ctx.files@[i].relative_path@);
        }
    }
}

/// What becomes of a candidate file, given its raw bytes: skipped when over
/// the size limit, when binary (by the leading-sample NUL test) and binary
/// inclusion is off, or when not valid text and binary inclusion is off;
/// decoded text otherwise, with a fixed placeholder for binary content when
/// binary inclusion is on.
pub open spec fn file_decision(bytes: Seq<u8>, max_file_size: u64, include_binary: bool) -> Option<
    Seq<char>,
> {
    if bytes.len() > max_file_size {
        None
    } else if !include_binary && is_binary_spec(bytes, 1024) {
        None
    } else if valid_utf8(bytes) {
        Some(decode_utf8(bytes))
    } else if include_binary {
        Some("[Binary content]"@)
    } else {
        None
    }
}

/// Relies on String::from_utf8: returns the decoded string exactly when the
/// bytes are valid UTF-8, and fails exactly otherwise.
#[verifier::external_body]
fn decode_text(bytes: Vec<u8>) -> (r: Option<String>)
    ensures
        r is Some <==> valid_utf8(bytes@),
        r matches Some(s) ==> s@ == decode_utf8(bytes@),
{
    match String::from_utf8(bytes) {
        Ok(s) => Some(s),
        Err(_) => None,
    }
}

/// Decides whether a candidate file is accepted and with what content,
/// from its raw bytes and the size and binary filters.
pub fn collect_file_info(
    relative_path: String,
    bytes: Vec<u8>,
    max_file_size: u64,
    include_binary: bool,
) -> (r: Option<FileInfo>)
    ensures
        match r {
            Some(fi) => file_decision(bytes@, max_file_size, include_binary) == Some(fi.content@)
                && fi.relative_path == relative_path,
            None => file_decision(bytes@, max_file_size, include_binary) is None,
        },
{
    if bytes.len() as u64 > max_file_size {
        return None;
    }
    if !include_binary && is_binary(bytes.as_slice(), 1024) {
        return None;
    }
    match decode_text(bytes) {
        Some(content) => Some(FileInfo { relative_path, content }),
        None => {
            if include_binary {
                Some(
                    FileInfo {
                        relative_path,
                        content: "[Binary content]".to_owned(),
                    },
                )
            } else {
                None
            }
        },
    }
}

} // verus!
