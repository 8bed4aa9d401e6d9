//! Directory entries, as the walk hands them out.

use crate::path::{final_component, path_final};
use vstd::prelude::*;

verus! {

/// What kind of file an entry is. The kinds exclude one another.
#[derive(Clone, Copy, Debug, PartialEq, Eq, Structural)]
pub enum FileKind {
    Dir,
    File,
    Symlink,
    Other,
}

impl FileKind {
    /// Whether this is the kind of a directory.
    pub fn is_dir(&self) -> (r: bool)
        ensures
            r == (*self == FileKind::Dir),
    {
        match self {
            FileKind::Dir => true,
            _ => false,
        }
    }

    /// Whether this is the kind of a regular file.
    pub fn is_file(&self) -> (r: bool)
        ensures
            r == (*self == FileKind::File),
    {
        match self {
            FileKind::File => true,
            _ => false,
        }
    }

    /// Whether this is the kind of a symbolic link.
    pub fn is_symlink(&self) -> (r: bool)
        ensures
            r == (*self == FileKind::Symlink),
    {
        match self {
            FileKind::Symlink => true,
            _ => false,
        }
    }
}

/// A directory entry as the contracts see it.
pub struct DirEntryView {
    /// The path as it was joined from the base of the walk: never the target of a link.
    pub path: Seq<char>,
    /// The kind of the file; that of the target where the link was followed.
    pub kind: FileKind,
    /// Whether the entry is a symbolic link that was followed.
    pub follow_link: bool,
}

/// A directory entry: what the walk yields.
///
/// The kind of the file is stored, so that reading it costs nothing. Where links are followed
/// the entry speaks of the target of the link in all but its path.
#[derive(Debug)]
pub struct DirEntry {
    path: String,
    ty: FileKind,
    follow_link: bool,
}

impl View for DirEntry {
    type V = DirEntryView;

    closed spec fn view(&self) -> DirEntryView {
        DirEntryView { path: self.path@, kind: self.ty, follow_link: self.follow_link }
    }
}

impl DirEntryView {
    /// The last component of the path, or the whole path where it ends in no name.
    pub open spec fn file_name(self) -> Seq<char> {
        match path_final(self.path) {
            Some(name) => name,
            None => self.path,
        }
    }

    /// Whether the entry came from a symbolic link, followed or not.
    pub open spec fn path_is_symlink(self) -> bool {
        self.kind == FileKind::Symlink || self.follow_link
    }
}

impl DirEntry {
    /// The entry for a path that was probed by itself: `kind` is what the probe found, and
    /// `follow` says whether the probe went through a symbolic link.
    pub fn from_meta(path: String, kind: FileKind, follow: bool) -> (entry: Self)
        ensures
            entry@ == (DirEntryView { path: path@, kind, follow_link: follow }),
    {
        DirEntry { path, ty: kind, follow_link: follow }
    }

    /// The entry for what a recursive walk reported: its path, its kind, and whether the path
    /// is a symbolic link. A link whose kind is not that of a link was followed.
    pub fn from_walk(path: String, kind: FileKind, path_is_symlink: bool) -> (entry: Self)
        ensures
            entry@ == (DirEntryView {
                path: path@,
                kind,
                follow_link: path_is_symlink && kind != FileKind::Symlink,
            }),
    {
        let follow_link = path_is_symlink && !kind.is_symlink();
        DirEntry { path, ty: kind, follow_link }
    }

    /// The full path that this entry represents: the path as joined from the base of the
    /// walk, even where a symbolic link was followed.
    pub fn path(&self) -> (path: &str)
        ensures
            path@ == self@.path,
    {
        self.path.as_str()
    }

    /// The full path that this entry represents, handed over.
    pub fn into_path(self) -> (path: String)
        ensures
            path@ == self@.path,
    {
        self.path
    }

    /// Whether this entry was created from a symbolic link, whether or not links are
    /// followed.
    pub fn path_is_symlink(&self) -> (r: bool)
        ensures
            r == self@.path_is_symlink(),
    {
        self.ty.is_symlink() || self.follow_link
    }

    /// Whether the entry speaks of the target of a symbolic link: its metadata is then that
    /// of the target.
    pub fn follows_link(&self) -> (r: bool)
        ensures
            r == self@.follow_link,
    {
        self.follow_link
    }

    /// The kind of the file that this entry points to; that of the target where the link
    /// was followed.
    pub fn file_type(&self) -> (kind: FileKind)
        ensures
            kind == self@.kind,
    {
        self.ty
    }

    /// The file name of this entry: the last component of its path, or the full path where
    /// the path has no last component, as `/` has none.
    pub fn file_name(&self) -> (name: String)
        ensures
            name@ == self@.file_name(),
    {
        match final_component(self.path.as_str()) {
            Some(name) => name,
            None => self.path.clone(),
        }
    }
}

impl Clone for DirEntry {
    fn clone(&self) -> (copy: Self)
        ensures
            copy@ == self@,
    {
        DirEntry { path: self.path.clone(), ty: self.ty, follow_link: self.follow_link }
    }
}

} // verus!
