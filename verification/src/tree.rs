use vstd::prelude::*;

verus! {

/// One entry of a directory tree: a file, or a directory with its entries.
///
/// `subdir` alone tells the two apart: it is `None` for a file and `Some` for
/// a directory, an empty one included.
#[derive(Debug, PartialEq)]
pub struct Tree {
    pub name: String,
    pub path: String,
    pub subdir: Option<Vec<Tree>>,
}

/// What a [`Tree`] stands for: its name, its path and, for a directory, what
/// its entries stand for, in their order.
pub ghost struct TreeView {
    pub name: Seq<char>,
    pub path: Seq<char>,
    pub subdir: Option<Seq<TreeView>>,
}

/// What a comparison of two trees looks at: names and nesting, no paths.
pub ghost struct Shape {
    pub name: Seq<char>,
    pub subdir: Option<Seq<Shape>>,
}

/// What each tree of a sequence stands for.
pub open spec fn tree_views(trees: Seq<Tree>) -> Seq<TreeView>
    decreases trees, 0nat,
{
    Seq::new(
        trees.len(),
        |i: int|
            if 0 <= i < trees.len() {
                trees[i].view()
            } else {
                arbitrary()
            },
    )
}

impl View for Tree {
    type V = TreeView;

    open spec fn view(&self) -> TreeView
        decreases self, 1nat,
    {
        TreeView {
            name: self.name@,
            path: self.path@,
            subdir: match self.subdir {
                None => None,
                Some(entries) => Some(tree_views(entries@)),
            },
        }
    }
}

impl Clone for Tree {
    /// Copies the tree, at every depth.
    fn clone(&self) -> (copy: Tree)
        ensures
            copy@ == self@,
        decreases self,
    {
        let subdir = match &self.subdir {
            None => None,
            Some(entries) => {
                let mut copies: Vec<Tree> = Vec::new();
                let mut i: usize = 0;
                while i < entries.len()
                    invariant
                        i <= entries.len(),
                        self.subdir == Some(*entries),
                        copies.len() == i,
                        forall|k: int| 0 <= k < i ==> copies@[k]@ == entries@[k]@,
                    decreases entries.len() - i,
                {
                    assert(decreases_to!(self => self.subdir->0));
                    copies.push(entries[i].clone());
                    i += 1;
                }
                assert(tree_views(copies@) =~= tree_views(entries@));
                Some(copies)
            },
        };
        Tree { name: self.name.clone(), path: self.path.clone(), subdir }
    }
}

impl DeepView for Tree {
    type V = TreeView;

    open spec fn deep_view(&self) -> TreeView {
        self.view()
    }
}

/// The shapes of a sequence of trees, in its order.
pub open spec fn shapes(trees: Seq<TreeView>) -> Seq<Shape>
    decreases trees, 0nat,
{
    Seq::new(
        trees.len(),
        |i: int|
            if 0 <= i < trees.len() {
                trees[i].shape()
            } else {
                arbitrary()
            },
    )
}

impl TreeView {
    /// The tree without its paths.
    pub open spec fn shape(self) -> Shape
        decreases self, 1nat,
    {
        Shape {
            name: self.name,
            subdir: match self.subdir {
                None => None,
                Some(entries) => Some(shapes(entries)),
            },
        }
    }
}

/// The order of the entries counts: two entries that differ in shape, taken
/// in the one order and in the other, make two shapes.
pub proof fn lemma_order_counts(first: TreeView, second: TreeView)
    requires
        first.shape() != second.shape(),
    ensures
        shapes(seq![first, second]) != shapes(seq![second, first]),
{
    assert(shapes(seq![first, second])[0] == first.shape());
    assert(shapes(seq![second, first])[0] == second.shape());
}

/// A tree reduced to what a comparison looks at.
#[derive(Debug, PartialEq)]
pub struct TreeComp {
    pub name: String,
    pub subdir: Option<Vec<TreeComp>>,
}

/// What each reduced tree of a sequence stands for.
pub open spec fn comp_views(comps: Seq<TreeComp>) -> Seq<Shape>
    decreases comps, 0nat,
{
    Seq::new(
        comps.len(),
        |i: int|
            if 0 <= i < comps.len() {
                comps[i].view()
            } else {
                arbitrary()
            },
    )
}

impl View for TreeComp {
    type V = Shape;

    open spec fn view(&self) -> Shape
        decreases self, 1nat,
    {
        Shape {
            name: self.name@,
            subdir: match self.subdir {
                None => None,
                Some(entries) => Some(comp_views(entries@)),
            },
        }
    }
}

impl DeepView for TreeComp {
    type V = Shape;

    open spec fn deep_view(&self) -> Shape {
        self.view()
    }
}

/// A specification cannot write a `TreeComp` down, for the `Vec` in it: what
/// `from` returns is said by its own `ensures`, over the views.
impl vstd::std_specs::convert::FromSpecImpl<Tree> for TreeComp {
    open spec fn obeys_from_spec() -> bool {
        false
    }

    open spec fn from_spec(tree: Tree) -> TreeComp {
        arbitrary()
    }
}

impl From<Tree> for TreeComp {
    /// Strips the paths from a tree, at every depth.
    fn from(tree: Tree) -> (comp: TreeComp)
        ensures
            comp@ == tree@.shape(),
        decreases tree, 1nat,
    {
        let Tree { name, path: _, subdir } = tree;
        TreeComp {
            name,
            subdir: if let Some(entry) = subdir {
                assert(decreases_to!(tree => tree.subdir->0));
                let below = TreeComp::from_trees(entry);
                assert(comp_views(below@) =~= shapes(tree_views(entry@))) by {
                    assert(below.deep_view() =~= comp_views(below@));
                    assert(entry.deep_view() =~= tree_views(entry@));
                }
                Some(below)
            } else {
                None
            },
        }
    }
}

impl TreeComp {
    /// Strips the paths from each tree of a sequence, keeping the order.
    pub fn from_trees(trees: Vec<Tree>) -> (comps: Vec<TreeComp>)
        ensures
            comps.deep_view() == shapes(trees.deep_view()),
        decreases trees, 0nat,
    {
        let ghost all = trees@;
        let mut comps: Vec<TreeComp> = Vec::new();
        for tree in it: trees
            invariant
                it.seq() == all,
                all == trees@,
                comps@.len() == it.index(),
                forall|k: int| 0 <= k < it.index() ==> comps@[k]@ == all[k]@.shape(),
        {
            comps.push(TreeComp::from(tree));
        }
        assert(comps.deep_view() =~= shapes(trees.deep_view()));
        comps
    }
}

/// Whether two sequences of reduced trees are the same: as long as each
/// other, and entry by entry of one name and of one nesting.
pub fn same_shapes(comps: &Vec<TreeComp>, others: &Vec<TreeComp>) -> (same: bool)
    ensures
        same == (comps.deep_view() == others.deep_view()),
    decreases comps,
{
    if comps.len() != others.len() {
        assert(comps.deep_view().len() != others.deep_view().len());
        return false;
    }
    let mut i: usize = 0;
    while i < comps.len()
        invariant
            i <= comps.len(),
            comps.len() == others.len(),
            forall|k: int| 0 <= k < i ==> comps@[k]@ == others@[k]@,
        decreases comps.len() - i,
    {
        let comp = &comps[i];
        let other = &others[i];
        let same_entry = comp.name == other.name && match (&comp.subdir, &other.subdir) {
            (None, None) => true,
            (Some(entries), Some(other_entries)) => {
                assert(decreases_to!(comps@[i as int] => comps@[i as int].subdir->0));
                assert(entries.deep_view() =~= comp_views(entries@));
                assert(other_entries.deep_view() =~= comp_views(other_entries@));
                same_shapes(entries, other_entries)
            },
            _ => false,
        };
        if !same_entry {
            assert(comps.deep_view()[i as int] != others.deep_view()[i as int]);
            return false;
        }
        i += 1;
    }
    assert(comps.deep_view() =~= others.deep_view());
    true
}

/// A file found in a tree: its name and where to read it.
#[derive(Debug, PartialEq)]
pub struct ExtratedFile {
    pub name: String,
    pub path: String,
}

/// What an [`ExtratedFile`] stands for.
pub ghost struct FileView {
    pub name: Seq<char>,
    pub path: Seq<char>,
}

impl View for ExtratedFile {
    type V = FileView;

    open spec fn view(&self) -> FileView {
        FileView { name: self.name@, path: self.path@ }
    }
}

impl DeepView for ExtratedFile {
    type V = FileView;

    open spec fn deep_view(&self) -> FileView {
        self.view()
    }
}

/// The files of each tree of a sequence.
pub open spec fn files_by_tree(trees: Seq<TreeView>) -> Seq<Seq<FileView>>
    decreases trees, 0nat,
{
    Seq::new(
        trees.len(),
        |i: int|
            if 0 <= i < trees.len() {
                trees[i].files()
            } else {
                arbitrary()
            },
    )
}

/// The files of a sequence of trees: those of the first tree, then those of
/// the second, and so on.
pub open spec fn files_of(trees: Seq<TreeView>) -> Seq<FileView>
    decreases trees, 1nat,
{
    files_by_tree(trees).flatten()
}

impl TreeView {
    /// The files of the tree, depth first: a file is its own only file, a
    /// directory has the files of its entries and is none itself.
    pub open spec fn files(self) -> Seq<FileView>
        decreases self, 2nat,
    {
        match self.subdir {
            None => seq![FileView { name: self.name, path: self.path }],
            Some(entries) => files_of(entries),
        }
    }
}

/// The files of a tree, in the order in which a walk depth first meets them.
#[derive(Debug, PartialEq)]
pub struct TreeFlatted(pub Vec<ExtratedFile>);

impl View for TreeFlatted {
    type V = Seq<FileView>;

    open spec fn view(&self) -> Seq<FileView> {
        self.0.deep_view()
    }
}

/// Taking one more tree into account adds its files behind the others.
pub proof fn lemma_files_of_push(trees: Seq<TreeView>, tree: TreeView)
    ensures
        files_of(trees.push(tree)) == files_of(trees) + tree.files(),
{
    assert(files_by_tree(trees.push(tree)) =~= files_by_tree(trees).push(tree.files()));
    files_by_tree(trees).lemma_flatten_push(tree.files());
}

impl TreeFlatted {
    /// No files yet.
    pub fn new() -> (flat: TreeFlatted)
        ensures
            flat@ == Seq::<FileView>::empty(),
    {
        let flat = TreeFlatted(Vec::new());
        assert(flat@ =~= Seq::<FileView>::empty());
        flat
    }

    /// Puts one file behind those already held.
    pub fn add(&mut self, elem: ExtratedFile)
        ensures
            final(self)@ == old(self)@.push(elem@),
    {
        self.0.push(elem);
        assert(self@ =~= old(self)@.push(elem@));
    }

    /// Flattens trees to their files: depth first, the files of a directory
    /// where the directory stands, the directory itself left out.
    pub fn from_iter(iter: Vec<Tree>) -> (flat: TreeFlatted)
        ensures
            flat@ == files_of(iter.deep_view()),
        decreases iter,
    {
        let ghost trees = iter@;
        let mut tree_flatted = TreeFlatted::new();
        for tree in it: iter
            invariant
                it.seq() == trees,
                trees == iter@,
                tree_flatted@ == files_of(tree_views(trees.take(it.index() as int))),
        {
            let ghost before = tree_flatted@;
            proof {
                assert(tree_views(trees.take(it.index() + 1)) =~= tree_views(
                    trees.take(it.index() as int),
                ).push(tree@));
                lemma_files_of_push(tree_views(trees.take(it.index() as int)), tree@);
            }
            let Tree { name, path, subdir } = tree;
            if let Some(entry) = subdir {
                assert(decreases_to!(tree => tree.subdir->0));
                let ghost below = entry@;
                let sub = TreeFlatted::from_iter(entry);
                assert(sub@ == tree@.files()) by {
                    assert(sub@ == files_of(entry.deep_view()));
                    assert(entry.deep_view() =~= tree_views(below));
                }
                let ghost sub_files = sub.0@;
                for sub_iter in sub_it: sub.0
                    invariant
                        sub_it.seq() == sub_files,
                        sub_files == sub.0@,
                        tree_flatted@ == before + sub@.take(sub_it.index() as int),
                {
                    tree_flatted.add(sub_iter);
                    assert(sub@.take(sub_it.index() + 1) =~= sub@.take(sub_it.index() as int).push(
                        sub_iter@,
                    ));
                }
                assert(sub@.take(sub@.len() as int) =~= sub@);
            } else {
                let extrated_file = ExtratedFile { name, path };
                tree_flatted.add(extrated_file);
                assert(tree@.files() =~= seq![extrated_file@]);
                assert(before.push(extrated_file@) =~= before + tree@.files());
            }
        }
        proof {
            assert(trees.take(trees.len() as int) =~= trees);
            assert(iter.deep_view() =~= tree_views(trees));
        }
        tree_flatted
    }
}

/// Whether every content of the first sequence occurs somewhere in the
/// second. Nothing is asked of the second beyond that: it may hold more, and
/// may hold a content more often than the first does.
pub open spec fn contained_in(contents: Seq<Seq<char>>, others: Seq<Seq<char>>) -> bool {
    forall|i: int| 0 <= i < contents.len() ==> others.contains(#[trigger] contents[i])
}

/// Whether a content occurs in a list of contents.
pub fn occurs_in(content: &String, others: &Vec<String>) -> (found: bool)
    ensures
        found == others.deep_view().contains(content@),
{
    let mut j: usize = 0;
    while j < others.len()
        invariant
            j <= others.len(),
            forall|k: int| 0 <= k < j ==> others@[k]@ != content@,
        decreases others.len() - j,
    {
        if others[j] == *content {
            assert(others.deep_view()[j as int] == content@);
            return true;
        }
        j += 1;
    }
    false
}

/// The operations on trees that a comparison of two directories is made of.
pub trait TreeBuilder {
    /// Compares two trees by names and nesting and answers whether they differ.
    /// The paths play no part, the order of the entries does.
    fn tree_diff(dir_tree: Vec<Tree>, dir_tree_comp: Vec<Tree>) -> (diff: bool)
        ensures
            diff == (shapes(dir_tree.deep_view()) != shapes(dir_tree_comp.deep_view())),
    ;

    /// Compares the contents of two directories and answers whether the second
    /// holds every content of the first.
    fn compare_dir_content(dir_content: Vec<String>, dir_content_comp: Vec<String>) -> (equal: bool)
        ensures
            equal == contained_in(dir_content.deep_view(), dir_content_comp.deep_view()),
    ;
}

impl TreeBuilder for Tree {
    fn tree_diff(dir_tree: Vec<Tree>, dir_tree_comp: Vec<Tree>) -> (diff: bool) {
        let dir_tree_from = TreeComp::from_trees(dir_tree);
        let dir_tree_comp_from = TreeComp::from_trees(dir_tree_comp);
        !same_shapes(&dir_tree_from, &dir_tree_comp_from)
    }

    fn compare_dir_content(dir_content: Vec<String>, dir_content_comp: Vec<String>) -> (equal:
        bool) {
        let mut i: usize = 0;
        while i < dir_content.len()
            invariant
                i <= dir_content.len(),
                forall|k: int|
                    0 <= k < i ==> dir_content_comp.deep_view().contains(
                        #[trigger] dir_content.deep_view()[k],
                    ),
            decreases dir_content.len() - i,
        {
            if !occurs_in(&dir_content[i], &dir_content_comp) {
                assert(dir_content.deep_view()[i as int] == dir_content@[i as int]@);
                return false;
            }
            i += 1;
        }
        true
    }
}

} // verus!
