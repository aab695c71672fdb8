//! Renders a directory subtree as indented text with box-drawing connectors.
//!
//! The library decides what is shown: it orders each listing by name, applies
//! the display filter and the depth limit, and formats every line. Reading
//! the filesystem and writing the lines are left to the caller, who takes
//! the walk step by step and feeds each requested listing back into it:
//!
//! ```text
//! let mut step = display.display(path, base_name, exists)?;
//! loop {
//!     let walk = match step {
//!         Step::Finished => break,
//!         Step::Line { text, walk } => { write(text); walk }
//!         Step::Open { text, request } => {
//!             write(text);
//!             let listing = list(request.path());
//!             request.supply(listing)?
//!         }
//!     };
//!     step = walk.step();
//! }
//! ```
//!
//! The contracts of `display`, `step` and `supply` say exactly which line and
//! which request each call gives. `render::render` puts them together into
//! the whole output of such a loop, and the lemmas beside it state what holds
//! of that output; `descent` shows it to be the familiar descent into the
//! tree.

pub mod args;
pub mod descent;
pub mod entry;
pub mod error;
pub mod filter;
pub mod line;
pub mod order;
pub mod render;
pub mod sort;
pub mod tree;
pub mod walk;

pub use args::Args;
pub use entry::DirectoryEntry;
pub use error::TreeError;
pub use tree::TreeDisplay;
pub use walk::{ListRequest, Step, TreeWalk};
