//! Borrowed views of the entries of a file tree.
use vstd::prelude::*;

verus! {

/// A file of a tree, with its path and its data borrowed for change.
pub struct FileMut<'a, T> {
    path: &'a str,
    data: &'a mut T,
}

/// An entry of a tree: a file that can be changed, or a folder.
pub enum ItemMut<'a, T> {
    File { file: FileMut<'a, T> },
    Folder { path: &'a str },
}

} // verus!
