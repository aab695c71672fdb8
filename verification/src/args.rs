//! The command line as the library takes it: already parsed and checked.

use crate::tree::{limit_view, Config, TreeDisplay};
use vstd::prelude::*;

verus! {

/// The command line, parsed and checked by the caller.
#[derive(Debug)]
pub struct Args {
    /// Directory path to display (default: current directory)
    pub path: Option<String>,
    /// Maximum depth to display
    pub depth: Option<usize>,
    /// Show files only
    pub files_only: bool,
    /// Show directories only
    pub dirs_only: bool,
}

impl Args {
    /// The display settings that the command line asks for.
    pub fn tree_display(&self) -> (display: TreeDisplay)
        ensures
            display@ == (Config {
                show_files: self.files_only,
                show_dirs: self.dirs_only,
                max_depth: limit_view(self.depth),
            }),
    {
        TreeDisplay::new(self.files_only, self.dirs_only, self.depth)
    }
}

} // verus!
