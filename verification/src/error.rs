//! What can go wrong.
use vstd::prelude::*;

verus! {

#[derive(Debug, Clone, Copy, PartialEq, Eq, Structural)]
pub enum WorktreeError {
    /// A path was asked for an inode that the worktree does not hold.
    NotInWorktree,
    /// A file handle was asked for an inode that the worktree does not hold.
    NotInTree,
    /// The file system could not tell what lies at a path.
    Unreadable,
}

impl WorktreeError {
    /// The error in words.
    pub fn message(&self) -> (text: &'static str)
        ensures
            text@ == (match *self {
                WorktreeError::NotInWorktree => "entry does not exist in worktree"@,
                WorktreeError::NotInTree => "entry does not exist in tree"@,
                WorktreeError::Unreadable => "error reading file"@,
            }),
    {
        match self {
            WorktreeError::NotInWorktree => "entry does not exist in worktree",
            WorktreeError::NotInTree => "entry does not exist in tree",
            WorktreeError::Unreadable => "error reading file",
        }
    }
}

} // verus!
