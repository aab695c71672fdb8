//! The display settings.

use vstd::prelude::*;

verus! {

/// What a `TreeDisplay` stands for in contracts.
pub struct Config {
    pub show_files: bool,
    pub show_dirs: bool,
    pub max_depth: Option<nat>,
}

impl Config {
    /// Whether an entry passes the display filter. Setting both flags, or
    /// neither, shows everything.
    pub open spec fn shows(self, is_dir: bool) -> bool {
        if self.show_files && !self.show_dirs {
            !is_dir
        } else if self.show_dirs && !self.show_files {
            is_dir
        } else {
            true
        }
    }

    /// Whether a directory whose children sit at `depth` is listed at all.
    /// The root's children sit at depth 0.
    pub open spec fn opens(self, depth: nat) -> bool {
        match self.max_depth {
            Some(limit) => depth < limit,
            None => true,
        }
    }
}

/// Display settings: the two filter flags and the optional depth limit.
#[derive(Clone, Copy, Debug)]
pub struct TreeDisplay {
    show_files: bool,
    show_dirs: bool,
    max_depth: Option<usize>,
}

impl View for TreeDisplay {
    type V = Config;

    closed spec fn view(&self) -> Config {
        Config {
            show_files: self.show_files,
            show_dirs: self.show_dirs,
            max_depth: limit_view(self.max_depth),
        }
    }
}

/// A depth limit as contracts see it.
pub open spec fn limit_view(max_depth: Option<usize>) -> Option<nat> {
    match max_depth {
        Some(limit) => Some(limit as nat),
        None => None,
    }
}

impl TreeDisplay {
    /// Settings that show files only, directories only, or, with both flags
    /// alike, everything, down to `max_depth` levels below the root.
    pub fn new(show_files: bool, show_dirs: bool, max_depth: Option<usize>) -> (display: Self)
        ensures
            display@ == (Config { show_files, show_dirs, max_depth: limit_view(max_depth) }),
    {
        Self { show_files, show_dirs, max_depth }
    }

    /// The depth limit, if there is one.
    pub fn max_depth(&self) -> (limit: Option<usize>)
        ensures
            self@.max_depth == limit_view(limit),
    {
        self.max_depth
    }

    /// The display filter of one entry.
    pub fn should_show(&self, is_dir: bool) -> (shown: bool)
        ensures
            shown == self@.shows(is_dir),
    {
        match (self.show_files, self.show_dirs) {
            (true, false) => !is_dir,
            (false, true) => is_dir,
            (false, false) => true,
            (true, true) => true,
        }
    }
}

} // verus!
