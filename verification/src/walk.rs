use crate::tree::{occurs_in, Tree, TreeView};
use vstd::prelude::*;

verus! {

/// One entry of a directory, as a listing of the directory gives it.
#[derive(Debug, PartialEq)]
pub struct Listed {
    /// the entry's name within its directory
    pub name: String,
    /// where the entry is found
    pub path: String,
    /// whether the entry is a directory
    pub is_dir: bool,
}

/// What a [`Listed`] stands for.
pub ghost struct ListedView {
    pub name: Seq<char>,
    pub path: Seq<char>,
    pub is_dir: bool,
}

impl View for Listed {
    type V = ListedView;

    open spec fn view(&self) -> ListedView {
        ListedView { name: self.name@, path: self.path@, is_dir: self.is_dir }
    }
}

impl DeepView for Listed {
    type V = ListedView;

    open spec fn deep_view(&self) -> ListedView {
        self.view()
    }
}

/// The test that an entry passes when its name is not among the excluded ones.
pub open spec fn passes(exclude: Seq<Seq<char>>) -> spec_fn(ListedView) -> bool {
    |entry: ListedView| !exclude.contains(entry.name)
}

/// The entries of a listing whose names are not excluded, in the listing's
/// order.
pub open spec fn kept(listing: Seq<ListedView>, exclude: Seq<Seq<char>>) -> Seq<ListedView> {
    listing.filter(passes(exclude))
}

/// The names that are excluded inside the directories of a directory in which
/// `exclude` is excluded: the same names where exclusion is recursive, none
/// where it is not.
pub open spec fn passed_down(exclude: Seq<Seq<char>>, recursive: bool) -> Seq<Seq<char>> {
    if recursive {
        exclude
    } else {
        Seq::empty()
    }
}

/// Drops the excluded entries of a listing. The entries that stay come out
/// last first, so that `pop` hands them out in the listing's order.
fn keep(listing: Vec<Listed>, exclude: &Vec<String>) -> (later: Vec<Listed>)
    ensures
        later.deep_view().reverse() == kept(listing.deep_view(), exclude.deep_view()),
{
    let ghost all = listing.deep_view();
    let ghost names = exclude.deep_view();
    let mut listing = listing;
    let mut later: Vec<Listed> = Vec::new();
    proof {
        assert(all.skip(all.len() as int) =~= Seq::<ListedView>::empty());
        reveal(Seq::filter);
        assert(later.deep_view().reverse() =~= kept(all.skip(all.len() as int), names));
    }
    while listing.len() > 0
        invariant
            names == exclude.deep_view(),
            listing.len() <= all.len(),
            listing.deep_view() == all.take(listing.len() as int),
            later.deep_view().reverse() == kept(all.skip(listing.len() as int), names),
        decreases listing.len(),
    {
        let ghost n = listing.len() as int;
        let ghost before = later.deep_view();
        let ghost left = listing.deep_view();
        let entry = listing.pop().unwrap();
        proof {
            assert(entry@ == left[n - 1]);
            assert(entry@ == all[n - 1]);
            assert(listing.deep_view() =~= all.take(n - 1));
            assert(all.skip(n - 1) =~= seq![entry@] + all.skip(n));
            all.skip(n).lemma_filter_prepend(entry@, passes(names));
        }
        if !occurs_in(&entry.name, exclude) {
            later.push(entry);
            assert(later.deep_view().reverse() =~= seq![entry@] + before.reverse());
        } else {
            assert(later.deep_view().reverse() =~= Seq::<ListedView>::empty() + before.reverse());
        }
    }
    proof {
        assert(all.skip(0) =~= all);
    }
    later
}

/// The tree node of a file entry.
pub open spec fn leaf(entry: ListedView) -> TreeView {
    TreeView { name: entry.name, path: entry.path, subdir: None }
}

/// The tree node of a directory with the given nodes for its entries.
pub open spec fn branch(name: Seq<char>, path: Seq<char>, entries: Seq<TreeView>) -> TreeView {
    TreeView { name, path, subdir: Some(entries) }
}

/// A directory that a walk has entered and not left: the walk is below one of
/// its entries.
struct Level {
    /// the nodes of the entries before that one
    done: Vec<Tree>,
    /// that entry's name
    name: String,
    /// that entry's path
    path: String,
    /// the entries behind that one, last first
    later: Vec<Listed>,
}

/// What a level of a walk stands for.
pub ghost struct LevelView {
    /// the nodes of the entries that are settled
    pub done: Seq<TreeView>,
    /// the name of the directory that the walk is in, an entry of this level
    pub name: Seq<char>,
    /// the path of that directory
    pub path: Seq<char>,
    /// the entries that follow it, in the listing's order
    pub rest: Seq<ListedView>,
}

impl View for Level {
    type V = LevelView;

    closed spec fn view(&self) -> LevelView {
        LevelView {
            done: self.done.deep_view(),
            name: self.name@,
            path: self.path@,
            rest: self.later.deep_view().reverse(),
        }
    }
}

impl DeepView for Level {
    type V = LevelView;

    closed spec fn deep_view(&self) -> LevelView {
        self.view()
    }
}

/// Where a walk stands once the entries `rest` of the directory it is in are
/// gone through, `done` being the nodes of the entries before them: the levels
/// above it, and the whole tree if the walk is over.
///
/// A file becomes a leaf. The first directory among the entries stops the
/// walk, which goes a level down and asks for that directory's listing. With
/// no entry left the directory is complete: at the top its nodes are the tree,
/// elsewhere they make the node of the directory in the level above, where the
/// walk goes on.
pub open spec fn settle(above: Seq<LevelView>, done: Seq<TreeView>, rest: Seq<ListedView>) -> (
    Seq<LevelView>,
    Option<Seq<TreeView>>,
)
    decreases above.len(), rest.len(),
{
    if rest.len() > 0 {
        let entry = rest.first();
        if entry.is_dir {
            (
                above.push(
                    LevelView { done, name: entry.name, path: entry.path, rest: rest.drop_first() },
                ),
                None,
            )
        } else {
            settle(above, done.push(leaf(entry)), rest.drop_first())
        }
    } else if above.len() == 0 {
        (above, Some(done))
    } else {
        let up = above.last();
        settle(above.drop_last(), up.done.push(branch(up.name, up.path, done)), up.rest)
    }
}

/// Goes through the entries left of a directory, as [`settle`] says.
fn settle_down(above: &mut Vec<Level>, done: Vec<Tree>, later: Vec<Listed>) -> (tree: Option<
    Vec<Tree>,
>)
    ensures
        (final(above).deep_view(), tree.deep_view()) == settle(
            old(above).deep_view(),
            done.deep_view(),
            later.deep_view().reverse(),
        ),
{
    let ghost goal = settle(above.deep_view(), done.deep_view(), later.deep_view().reverse());
    let mut nodes = done;
    let mut queue = later;
    loop
        invariant
            goal == settle(old(above).deep_view(), done.deep_view(), later.deep_view().reverse()),
            goal == settle(above.deep_view(), nodes.deep_view(), queue.deep_view().reverse()),
        decreases above.len(), queue.len(),
    {
        let ghost levels = above.deep_view();
        let ghost settled = nodes.deep_view();
        let ghost rest = queue.deep_view().reverse();
        match queue.pop() {
            Some(entry) => {
                assert(entry@ == rest.first());
                assert(queue.deep_view().reverse() =~= rest.drop_first());
                if entry.is_dir {
                    let level = Level {
                        done: nodes,
                        name: entry.name,
                        path: entry.path,
                        later: queue,
                    };
                    above.push(level);
                    assert(above.deep_view() =~= levels.push(level@));
                    return None;
                } else {
                    let node = Tree { name: entry.name, path: entry.path, subdir: None };
                    nodes.push(node);
                    assert(nodes.deep_view() =~= settled.push(leaf(entry@)));
                }
            },
            None => {
                assert(rest.len() == 0);
                match above.pop() {
                    None => {
                        assert(above.deep_view() =~= levels);
                        let tree = Some(nodes);
                        assert(tree.deep_view() == Some(settled));
                        return tree;
                    },
                    Some(up) => {
                        assert(up@ == levels.last());
                        assert(above.deep_view() =~= levels.drop_last());
                        let Level { done: mut up_nodes, name, path, later: up_queue } = up;
                        let ghost up_settled = up_nodes.deep_view();
                        let node = Tree { name, path, subdir: Some(nodes) };
                        assert(node@ == branch(name@, path@, settled)) by {
                            assert(crate::tree::tree_views(nodes@) =~= settled);
                        }
                        up_nodes.push(node);
                        assert(up_nodes.deep_view() =~= up_settled.push(node@));
                        nodes = up_nodes;
                        queue = up_queue;
                    },
                }
            },
        }
    }
}

/// The names that an optional list of names excludes: none where there is
/// no list.
pub open spec fn excluded_names(excluding: Option<Vec<String>>) -> Seq<Seq<char>> {
    match excluding {
        None => Seq::empty(),
        Some(names) => names.deep_view(),
    }
}

/// The building of a directory's tree, one listing at a time.
///
/// The walk itself lists nothing. It says which directory it needs listed
/// next ([`TreeWalk::next_dir`]), takes the listing ([`TreeWalk::listed`]) and
/// goes on from there, depth first, until no directory is left to list. A
/// directory whose name is excluded is never asked for.
pub struct TreeWalk {
    /// the directory whose tree is built
    root: String,
    /// the names excluded among the root's entries
    exclude: Vec<String>,
    /// whether they are excluded at every depth
    recursive: bool,
    /// the directories entered and not left, the outermost first
    above: Vec<Level>,
    /// the tree, once the walk is over
    tree: Option<Vec<Tree>>,
}

/// What a [`TreeWalk`] stands for.
pub ghost struct WalkView {
    pub root: Seq<char>,
    pub exclude: Seq<Seq<char>>,
    pub recursive: bool,
    pub above: Seq<LevelView>,
    pub tree: Option<Seq<TreeView>>,
}

impl WalkView {
    /// A walk that has not listed anything yet.
    pub open spec fn start(root: Seq<char>, exclude: Seq<Seq<char>>, recursive: bool) -> WalkView {
        WalkView { root, exclude, recursive, above: Seq::empty(), tree: None }
    }

    /// The directory whose listing the walk waits for: the root at first, then
    /// the directory it went down into last; none once the tree is there.
    pub open spec fn awaited(self) -> Option<Seq<char>> {
        if self.tree is Some {
            None
        } else if self.above.len() == 0 {
            Some(self.root)
        } else {
            Some(self.above.last().path)
        }
    }

    /// The names excluded from the listing that the walk waits for.
    pub open spec fn excluded_here(self) -> Seq<Seq<char>> {
        if self.above.len() == 0 {
            self.exclude
        } else {
            passed_down(self.exclude, self.recursive)
        }
    }

    /// The walk after the listing it waited for has come. A walk that is over
    /// stays as it is.
    pub open spec fn listed(self, listing: Seq<ListedView>) -> WalkView {
        if self.tree is Some {
            self
        } else {
            let (above, tree) = settle(
                self.above,
                Seq::empty(),
                kept(listing, self.excluded_here()),
            );
            WalkView { above, tree, ..self }
        }
    }
}

impl View for TreeWalk {
    type V = WalkView;

    closed spec fn view(&self) -> WalkView {
        WalkView {
            root: self.root@,
            exclude: self.exclude.deep_view(),
            recursive: self.recursive,
            above: self.above.deep_view(),
            tree: self.tree.deep_view(),
        }
    }
}

impl TreeWalk {
    /// Starts the walk of the directory `dir_path`. The names in `excluding`
    /// are left out among its entries, and at every depth below if
    /// `recursive_excluding` is set.
    pub fn new(dir_path: String, excluding: Option<Vec<String>>, recursive_excluding: bool) -> (walk:
        TreeWalk)
        ensures
            walk@ == WalkView::start(dir_path@, excluded_names(excluding), recursive_excluding),
    {
        let mut exclude: Vec<String> = Vec::new();
        if let Some(mut item) = excluding {
            exclude.append(&mut item);
        }
        let walk = TreeWalk {
            root: dir_path,
            exclude,
            recursive: recursive_excluding,
            above: Vec::new(),
            tree: None,
        };
        proof {
            assert(walk.exclude.deep_view() =~= excluded_names(excluding));
            assert(walk.above.deep_view() =~= Seq::<LevelView>::empty());
        }
        walk
    }

    /// The directory to list next, or `None` when the tree is complete.
    pub fn next_dir(&self) -> (dir: Option<&String>)
        ensures
            match dir {
                Some(path) => self@.awaited() == Some(path@),
                None => self@.awaited() is None,
            },
    {
        if self.tree.is_some() {
            None
        } else if self.above.len() == 0 {
            Some(&self.root)
        } else {
            let top = &self.above[self.above.len() - 1];
            assert(top@ == self.above.deep_view().last());
            Some(&top.path)
        }
    }

    /// Takes the listing of the directory that [`TreeWalk::next_dir`] named.
    pub fn listed(&mut self, listing: Vec<Listed>)
        ensures
            final(self)@ == old(self)@.listed(listing.deep_view()),
    {
        if self.tree.is_some() {
            return ;
        }
        let later = if self.above.len() == 0 || self.recursive {
            keep(listing, &self.exclude)
        } else {
            let none: Vec<String> = Vec::new();
            assert(none.deep_view() =~= Seq::<Seq<char>>::empty());
            keep(listing, &none)
        };
        let ghost first: Seq<TreeView> = Seq::empty();
        let done: Vec<Tree> = Vec::new();
        assert(done.deep_view() =~= first);
        let tree = settle_down(&mut self.above, done, later);
        self.tree = tree;
    }

    /// Whether the tree is complete.
    pub fn is_over(&self) -> (over: bool)
        ensures
            over == (self@.tree is Some),
    {
        self.tree.is_some()
    }

    /// The tree, or `None` while directories are left to list.
    pub fn tree(&self) -> (tree: Option<&Vec<Tree>>)
        ensures
            tree.deep_view() == self@.tree,
    {
        self.tree.as_ref()
    }

    /// Ends the walk and hands out its tree, or `None` while directories are
    /// left to list.
    pub fn into_tree(self) -> (tree: Option<Vec<Tree>>)
        ensures
            tree.deep_view() == self@.tree,
    {
        self.tree
    }
}

} // verus!
