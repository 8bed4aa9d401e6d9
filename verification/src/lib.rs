//! Walks a directory tree for the paths that match a list of shell-style patterns.
//!
//! The patterns are clustered into groups by their literal prefix ([`cluster`]), each group
//! is planned as a tree of path segments ([`plan`]) and compiled into matchers ([`compile`]),
//! and a stack of walkers goes through the compiled plans ([`walk`]). The walk never touches
//! the file system itself: it says what it needs to know next, and takes the answer. What
//! holds of every walk is proved in [`laws`], [`literal`] and [`recursive`].

pub mod builder;
pub mod cluster;
pub mod compile;
pub mod dir;
pub mod glob;
pub mod laws;
pub mod literal;
pub mod path;
pub mod plan;
pub mod recursive;
pub mod render;
pub mod util;
pub mod walk;

pub use crate::builder::MultiGlobBuilder;
pub use crate::dir::DirEntry;
pub use crate::glob::GlobError;
pub use crate::util::is_glob_like;
pub use crate::walk::MultiGlobWalker;
