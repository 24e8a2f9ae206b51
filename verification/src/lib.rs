//! Change detection for directory trees and files.
//!
//! The crate decides whether two directory trees, or two files, differ. Two
//! trees differ when their entries differ by name or nesting, or else when a
//! file of the first has a content that no file of the second has. Two files
//! differ when their contents do.
//!
//! The crate never touches the file system itself. A caller lists the
//! directories and reads the files that a comparison asks for, and hands the
//! results over as plain values: see [`dir_diff`] and [`run::DirDiffRun`].

pub mod diff;
pub mod faithful;
pub mod run;
pub mod tree;
pub mod walk;

use crate::diff::DirDiff;
use crate::run::{DirDiffRun, RunView};
use crate::walk::excluded_names;
use vstd::prelude::*;

verus! {

/// Starts the comparison of the two directories that the options name. The
/// run that comes back asks for each listing and each content it needs, and
/// ends with the answer: `true` if the directories differ.
pub fn dir_diff(dir_diff_options: DirDiff) -> (run: DirDiffRun)
    ensures
        run@ == RunView::start(
            dir_diff_options.dir@,
            dir_diff_options.dir_comp@,
            excluded_names(dir_diff_options.excluding),
            dir_diff_options.recursive_excluding,
        ),
{
    DirDiffRun::new(dir_diff_options)
}

/// Compares the contents of two files and answers whether they differ.
pub fn file_diff(file: &String, file_comp: &String) -> (differ: bool)
    ensures
        file@ == file_comp@ ==> !differ,
        file@ != file_comp@ ==> differ,
{
    *file != *file_comp
}

} // verus!
