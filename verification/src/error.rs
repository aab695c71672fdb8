//! The ways in which a rendering fails.

use vstd::prelude::*;
use vstd::string::StringExecFns;

verus! {

/// What a `TreeError` stands for in contracts.
pub enum ErrorView {
    PathNotFound { path: Seq<char> },
    DirectoryReadError { path: Seq<char>, reason: Seq<char> },
}

impl ErrorView {
    /// The text shown to the user.
    pub open spec fn message(self) -> Seq<char> {
        match self {
            ErrorView::PathNotFound { path } => "Path does not exist: "@ + path,
            ErrorView::DirectoryReadError { path, reason } => reason,
        }
    }
}

/// Why a rendering stopped.
#[derive(Debug)]
pub enum TreeError {
    /// The root path did not exist when the rendering began.
    PathNotFound { path: String },
    /// A directory could not be listed; `reason` is what the system said.
    DirectoryReadError { path: String, reason: String },
}

impl View for TreeError {
    type V = ErrorView;

    open spec fn view(&self) -> ErrorView {
        match self {
            TreeError::PathNotFound { path } => ErrorView::PathNotFound { path: path@ },
            TreeError::DirectoryReadError { path, reason } => ErrorView::DirectoryReadError {
                path: path@,
                reason: reason@,
            },
        }
    }
}

impl TreeError {
    /// The text shown to the user.
    pub fn message(&self) -> (text: String)
        ensures
            text@ == self@.message(),
    {
        match self {
            TreeError::PathNotFound { path } => {
                let mut text = String::from_str("Path does not exist: ");
                text.append(path.as_str());
                text
            },
            TreeError::DirectoryReadError { path, reason } => reason.clone(),
        }
    }

    /// The path that could not be found or listed.
    pub fn path(&self) -> (path: &String)
        ensures
            path@ == match self@ {
                ErrorView::PathNotFound { path } => path,
                ErrorView::DirectoryReadError { path, reason } => path,
            },
    {
        match self {
            TreeError::PathNotFound { path } => path,
            TreeError::DirectoryReadError { path, reason } => path,
        }
    }
}

} // verus!
