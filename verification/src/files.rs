use vstd::prelude::*;

verus! {

// The plan of inputs for one run: standard input and/or a list of paths,
// with the chosen directory-recursion behaviour.  Walking the file system
// itself is left to the surrounding application; this module only builds
// and holds the plan.

/// Whether to descend into directories, and how to treat symbolic links to
/// them.
#[derive(Clone, Copy, Debug, PartialEq, Eq, Structural)]
pub enum RecurseHaystacks {
    No,
    FollowDirectories,
    FollowDirectorySymlinks,
}

/// One planned input source.
#[derive(Debug, PartialEq, Eq)]
pub enum FileEntry {
    Stdin,
    FollowPath(String),
    NoFollowPath(String),
}

/// The ordered plan of input sources.
pub struct FileSourceIter {
    pub stack: Vec<FileEntry>,
    pub recurse: RecurseHaystacks,
}

impl FileSourceIter {
    /// An empty plan: no inputs, no recursion.
    pub fn new() -> (r: Self)
        ensures
            r.stack@.len() == 0,
            r.recurse == RecurseHaystacks::No,
    {
        FileSourceIter { stack: Vec::new(), recurse: RecurseHaystacks::No }
    }

    /// Choose the recursion behaviour.
    pub fn set_recursion(self, recurse: RecurseHaystacks) -> (r: Self)
        ensures
            r.stack@ == self.stack@,
            r.recurse == recurse,
    {
        let mut s = self;
        s.recurse = recurse;
        s
    }

    /// Plan to read standard input.
    pub fn add_stdin(self) -> (r: Self)
        ensures
            r.stack@ == self.stack@.push(FileEntry::Stdin),
            r.recurse == self.recurse,
    {
        let mut s = self;
        s.stack.push(FileEntry::Stdin);
        s
    }

    /// Plan to read the given files or directories, in order.
    pub fn add_files(self, files: &Vec<String>) -> (r: Self)
        ensures
            r.stack@.len() == self.stack@.len() + files@.len(),
            forall|k: int| 0 <= k < self.stack@.len() ==> r.stack@[k] == self.stack@[k],
            forall|k: int|
                0 <= k < files@.len() ==> r.stack@[self.stack@.len() + k]
                    == FileEntry::FollowPath(files@[k]),
            r.recurse == self.recurse,
    {
        let ghost n0 = self.stack@.len();
        let mut s = self;
        let mut i: usize = 0;
        while i < files.len()
            invariant
                i <= files@.len(),
                s.stack@.len() == n0 + i,
                s.recurse == self.recurse,
                forall|k: int| 0 <= k < n0 ==> s.stack@[k] == self.stack@[k],
                forall|k: int|
                    0 <= k < i ==> s.stack@[n0 + k] == FileEntry::FollowPath(files@[k]),
            decreases files@.len() - i,
        {
            s.stack.push(FileEntry::FollowPath(files[i].clone()));
            i = i + 1;
        }
        s
    }
}

} // verus!
