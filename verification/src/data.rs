//! The operations of a plan and the options of a run.

use vstd::prelude::*;

verus! {

#[verifier::external_type_specification]
#[verifier::external_body]
pub struct ExPathBuf(std::path::PathBuf);

/// What is to be done with one entry of the tree.
#[derive(Clone, Debug, PartialEq, Eq)]
pub enum Operation {
    /// The entry stays as it is.
    Keep,
    /// The entry is deleted, for the given reason: the pattern that matched
    /// it, the pattern and the content digest, or `<EMPTY_DIR>`.
    Delete(String),
    /// The entry gets the given new name.
    Rename(String),
    /// The entry is a directory whose name was cleaned away altogether: its
    /// contents move one level up and the directory is removed.
    MoveToParent,
}

/// An [`Operation`] as a mathematical value.
pub enum OperationView {
    Keep,
    Delete(Seq<char>),
    Rename(Seq<char>),
    MoveToParent,
}

impl View for Operation {
    type V = OperationView;

    open spec fn view(&self) -> OperationView {
        match self {
            Operation::Keep => OperationView::Keep,
            Operation::Delete(reason) => OperationView::Delete(reason@),
            Operation::Rename(name) => OperationView::Rename(name@),
            Operation::MoveToParent => OperationView::MoveToParent,
        }
    }
}

impl Operation {
    /// Whether the operation deletes the entry.
    pub fn is_delete(&self) -> (r: bool)
        ensures
            r == (self@ is Delete),
    {
        match self {
            Operation::Delete(_) => true,
            _ => false,
        }
    }
}

/// The reason given for the deletion of a directory that has nothing left
/// in it.
pub open spec fn empty_dir_reason() -> Seq<char> {
    "<EMPTY_DIR>"@
}

/// The options of a run.
#[derive(Debug)]
pub struct AppOptions {
    /// Whether entries are deleted by name.
    pub enable_deletion: bool,
    /// Whether files are deleted by name and content digest.
    pub enable_hash_matching: bool,
    /// Whether names are cleaned.
    pub enable_renaming: bool,
    /// Whether empty directories are deleted.
    pub enable_prune_empty_dir: bool,
    /// Whether the `.tmp` directory is passed over.
    pub skip_parent_tmp: bool,
    /// Whether the plan is carried out; without it the run only shows the plan.
    pub prune: bool,
    /// How much the run reports.
    pub verbose: u8,
    /// The file that holds the patterns.
    pub config_file: std::path::PathBuf,
    /// The root of the tree to clean.
    pub target_path: std::path::PathBuf,
}

impl AppOptions {
    /// Whether the run reports all it can: from the third level of
    /// verbosity on.
    pub fn is_debug_mode(&self) -> (r: bool)
        ensures
            r == (self.verbose >= 3),
    {
        self.verbose >= 3
    }
}

} // verus!
