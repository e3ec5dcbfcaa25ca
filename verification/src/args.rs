use vstd::prelude::*;

use crate::paths::ShadowPath;

verus! {

/// The parsed command line: global options plus the selected command.  The
/// surrounding binary parses `argv` and the environment into this value;
/// the library only carries it.
#[derive(Debug, Clone, PartialEq, Eq)]
pub struct Args {
    pub git_dir: Option<String>,
    pub substance_dir: Option<String>,
    pub read_only: bool,
    pub verbosity: u64,
    pub command: Command,
}

#[derive(Debug, Clone, PartialEq, Eq)]
pub enum Command {
    Snapshot {
        subject: String,
        relative_path: ShadowPath,
        force: bool,
        remove_after: bool,
        snapshot_dir: String,
    },
    Mount { mountpoint: String, tree: String, uid: u32, gid: u32 },
    Diff { tree_a: String, tree_b: String },
    Check { tree: String },
    UniqueBlobs { tree: String },
    CheckBlobs { tree: String, deep: bool },
    Sha256Sum { path: String },
    TakeSnapshot { subject: String, out: String },
    PlantSnapshot { snapshot: String },
    StoreSnapshot { tree: String, subject: String },
    Append { big_tree: String, relative_path: ShadowPath, mode: String, object: String, force: bool },
    Remove { big_tree: String, relative_path: ShadowPath },
    AddToIndex { mode: String, tree: String, relative_path: ShadowPath },
}

} // verus!
