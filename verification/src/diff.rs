use vstd::prelude::*;

verus! {

/// What to compare when two directory trees are held against each other.
pub struct DirDiff {
    /// directory to compare
    pub dir: String,
    /// directory it is compared with
    pub dir_comp: String,
    /// names of directories or files left out of the comparison
    pub excluding: Option<Vec<String>>,
    /// whether the names are left out at every depth or only directly under the roots
    pub recursive_excluding: bool,
}

/// What to compare when two files are held against each other.
pub struct FileDiff {
    /// file to compare
    pub file: String,
    /// file it is compared with
    pub file_comp: String,
}

} // verus!
