//! What a walk builds and what a run answers, said without either: the tree
//! that the listings of a file system show under a directory, and whether two
//! such trees differ, by their shapes or by the texts of their files.

use crate::run::{RequestView, RunView};
use crate::tree::{contained_in, files_of, shapes, FileView, TreeView};
use crate::walk::{branch, kept, leaf, passed_down, settle, LevelView, ListedView, WalkView};
use vstd::prelude::*;

verus! {

/// Whether `tree` is what the listings `fs` show under the directory `dir`
/// when the names in `exclude` are left out: one node for each entry of the
/// directory that is not excluded, in the listing's order, a file a leaf and
/// a directory holding what `fs` shows under it, with the names excluded there
/// that `exclude` passes down.
pub open spec fn shows(
    fs: spec_fn(Seq<char>) -> Seq<ListedView>,
    dir: Seq<char>,
    exclude: Seq<Seq<char>>,
    recursive: bool,
    tree: Seq<TreeView>,
) -> bool
    decreases tree, 1nat,
{
    let entries = kept(fs(dir), exclude);
    &&& tree.len() == entries.len()
    &&& forall|i: int|
        0 <= i < tree.len() ==> node_shows(
            fs,
            entries[i],
            passed_down(exclude, recursive),
            recursive,
            #[trigger] tree[i],
        )
}

/// Whether `node` is the node of the entry `entry`: of its name and path, a
/// leaf for a file, and for a directory holding what `fs` shows under it.
pub open spec fn node_shows(
    fs: spec_fn(Seq<char>) -> Seq<ListedView>,
    entry: ListedView,
    exclude: Seq<Seq<char>>,
    recursive: bool,
    node: TreeView,
) -> bool
    decreases node, 0nat,
{
    &&& node.name == entry.name
    &&& node.path == entry.path
    &&& match node.subdir {
        None => !entry.is_dir,
        Some(entries) => entry.is_dir && shows(fs, entry.path, exclude, recursive, entries),
    }
}

/// Whether a level of a walk fits the listing of its directory: the nodes
/// that are settled are those of the first entries, the directory that the
/// walk is in comes next, and the rest follows.
pub open spec fn level_agrees(
    fs: spec_fn(Seq<char>) -> Seq<ListedView>,
    dir: Seq<char>,
    exclude: Seq<Seq<char>>,
    recursive: bool,
    level: LevelView,
) -> bool {
    let entries = kept(fs(dir), exclude);
    let n = level.done.len() as int;
    &&& n < entries.len()
    &&& forall|i: int|
        0 <= i < n ==> node_shows(
            fs,
            entries[i],
            passed_down(exclude, recursive),
            recursive,
            #[trigger] level.done[i],
        )
    &&& entries[n] == (ListedView { name: level.name, path: level.path, is_dir: true })
    &&& entries.skip(n + 1) == level.rest
}

/// The directory that the level `k` of a walk lists: the root at the top, and
/// below it the directory that the level above is in.
pub open spec fn dir_at(root: Seq<char>, above: Seq<LevelView>, k: int) -> Seq<char> {
    if k == 0 {
        root
    } else {
        above[k - 1].path
    }
}

/// The names excluded at the level `k` of a walk.
pub open spec fn excluded_at(exclude: Seq<Seq<char>>, recursive: bool, k: int) -> Seq<Seq<char>> {
    if k == 0 {
        exclude
    } else {
        passed_down(exclude, recursive)
    }
}

/// Whether every level fits the listings `fs`.
pub open spec fn levels_agree(
    fs: spec_fn(Seq<char>) -> Seq<ListedView>,
    root: Seq<char>,
    exclude: Seq<Seq<char>>,
    recursive: bool,
    above: Seq<LevelView>,
) -> bool {
    forall|k: int|
        0 <= k < above.len() ==> level_agrees(
            fs,
            dir_at(root, above, k),
            excluded_at(exclude, recursive, k),
            recursive,
            #[trigger] above[k],
        )
}

/// Whether all that a walk holds is what the listings `fs` show: each of its
/// levels while it goes on, its tree once it is over.
pub open spec fn agrees(walk: WalkView, fs: spec_fn(Seq<char>) -> Seq<ListedView>) -> bool {
    match walk.tree {
        Some(tree) => shows(fs, walk.root, walk.exclude, walk.recursive, tree),
        None => levels_agree(fs, walk.root, walk.exclude, walk.recursive, walk.above),
    }
}

/// Going through the entries left of a directory keeps a walk in agreement
/// with the file system, given that the levels above agree and that `done` and
/// `rest` make up the directory's listing.
proof fn lemma_settle_agrees(
    fs: spec_fn(Seq<char>) -> Seq<ListedView>,
    root: Seq<char>,
    exclude: Seq<Seq<char>>,
    recursive: bool,
    above: Seq<LevelView>,
    done: Seq<TreeView>,
    rest: Seq<ListedView>,
)
    requires
        levels_agree(fs, root, exclude, recursive, above),
        ({
            let k = above.len() as int;
            let here = excluded_at(exclude, recursive, k);
            let entries = kept(fs(dir_at(root, above, k)), here);
            &&& done.len() <= entries.len()
            &&& entries.skip(done.len() as int) == rest
            &&& forall|i: int|
                0 <= i < done.len() ==> node_shows(
                    fs,
                    entries[i],
                    passed_down(here, recursive),
                    recursive,
                    #[trigger] done[i],
                )
        }),
    ensures
        ({
            let (levels, tree) = settle(above, done, rest);
            agrees(WalkView { root, exclude, recursive, above: levels, tree }, fs)
        }),
    decreases above.len(), rest.len(),
{
    let k = above.len() as int;
    let here = excluded_at(exclude, recursive, k);
    let below = passed_down(here, recursive);
    let entries = kept(fs(dir_at(root, above, k)), here);
    let n = done.len() as int;
    assert(below =~= passed_down(exclude, recursive));
    if rest.len() > 0 {
        let entry = rest.first();
        assert(entry == entries[n]);
        assert(entries.skip(n + 1) =~= rest.drop_first());
        if entry.is_dir {
            let level = LevelView {
                done,
                name: entry.name,
                path: entry.path,
                rest: rest.drop_first(),
            };
            let levels = above.push(level);
            assert forall|j: int| 0 <= j < levels.len() implies level_agrees(
                fs,
                dir_at(root, levels, j),
                excluded_at(exclude, recursive, j),
                recursive,
                #[trigger] levels[j],
            ) by {
                if j < k {
                    assert(levels[j] == above[j]);
                    assert(dir_at(root, levels, j) == dir_at(root, above, j));
                }
            }
        } else {
            let longer = done.push(leaf(entry));
            assert forall|i: int| 0 <= i < longer.len() implies node_shows(
                fs,
                entries[i],
                below,
                recursive,
                #[trigger] longer[i],
            ) by {
                if i < n {
                    assert(longer[i] == done[i]);
                }
            }
            lemma_settle_agrees(fs, root, exclude, recursive, above, longer, rest.drop_first());
        }
    } else if above.len() == 0 {
        assert(shows(fs, root, exclude, recursive, done));
    } else {
        let up = above.last();
        let outer = above.drop_last();
        let up_here = excluded_at(exclude, recursive, k - 1);
        let up_entries = kept(fs(dir_at(root, above, k - 1)), up_here);
        let m = up.done.len() as int;
        assert(level_agrees(fs, dir_at(root, above, k - 1), up_here, recursive, above[k - 1]));
        assert(passed_down(up_here, recursive) =~= here);
        assert(dir_at(root, above, k) == up.path);
        assert(shows(fs, up.path, here, recursive, done));
        let node = branch(up.name, up.path, done);
        assert(node_shows(fs, up_entries[m], here, recursive, node));
        let longer = up.done.push(node);
        assert forall|i: int| 0 <= i < longer.len() implies node_shows(
            fs,
            up_entries[i],
            passed_down(up_here, recursive),
            recursive,
            #[trigger] longer[i],
        ) by {
            if i < m {
                assert(longer[i] == up.done[i]);
            }
        }
        assert forall|j: int| 0 <= j < outer.len() implies level_agrees(
            fs,
            dir_at(root, outer, j),
            excluded_at(exclude, recursive, j),
            recursive,
            #[trigger] outer[j],
        ) by {
            assert(outer[j] == above[j]);
            assert(dir_at(root, outer, j) == dir_at(root, above, j));
        }
        assert(dir_at(root, outer, k - 1) == dir_at(root, above, k - 1));
        lemma_settle_agrees(fs, root, exclude, recursive, outer, longer, up.rest);
    }
}

/// A walk that has listed nothing agrees with every file system.
pub proof fn lemma_start_agrees(
    fs: spec_fn(Seq<char>) -> Seq<ListedView>,
    root: Seq<char>,
    exclude: Seq<Seq<char>>,
    recursive: bool,
)
    ensures
        agrees(WalkView::start(root, exclude, recursive), fs),
{
}

/// A walk that agrees with a file system still does after it has been given
/// that file system's listing of the directory it waited for. So the tree that
/// it ends with is the one that the file system shows under the root.
pub proof fn lemma_listed_agrees(walk: WalkView, fs: spec_fn(Seq<char>) -> Seq<ListedView>)
    requires
        agrees(walk, fs),
        walk.awaited() is Some,
    ensures
        agrees(walk.listed(fs(walk.awaited()->0)), fs),
{
    let k = walk.above.len() as int;
    let here = excluded_at(walk.exclude, walk.recursive, k);
    let entries = kept(fs(dir_at(walk.root, walk.above, k)), here);
    assert(entries.skip(0) =~= entries);
    lemma_settle_agrees(
        fs,
        walk.root,
        walk.exclude,
        walk.recursive,
        walk.above,
        Seq::empty(),
        entries,
    );
}

/// A walk asks only for directories that a listing named and that are not
/// excluded: below the root, the directory it waits for is an entry of the
/// listing of the directory above, a directory by that listing, and of a name
/// that is not excluded there.
pub proof fn lemma_asks_for_listed_directories_only(
    walk: WalkView,
    fs: spec_fn(Seq<char>) -> Seq<ListedView>,
)
    requires
        agrees(walk, fs),
        walk.tree is None,
        walk.above.len() > 0,
    ensures
        ({
            let k = walk.above.len() - 1;
            let listing = fs(dir_at(walk.root, walk.above, k));
            exists|i: int|
                0 <= i < listing.len() && (#[trigger] listing[i]).is_dir && Some(listing[i].path)
                    == walk.awaited() && !excluded_at(walk.exclude, walk.recursive, k).contains(
                    listing[i].name,
                )
        }),
{
    let k = walk.above.len() - 1;
    let here = excluded_at(walk.exclude, walk.recursive, k);
    let listing = fs(dir_at(walk.root, walk.above, k));
    let entries = kept(listing, here);
    let level = walk.above[k];
    let n = level.done.len() as int;
    assert(level_agrees(fs, dir_at(walk.root, walk.above, k), here, walk.recursive, level));
    let entry = entries[n];
    listing.lemma_filter_pred(crate::walk::passes(here), n);
    assert(entries.contains(entry));
    listing.lemma_filter_contains_rev(crate::walk::passes(here), entry);
    let i = choose|i: int| 0 <= i < listing.len() && listing[i] == entry;
    assert(listing[i].is_dir && Some(listing[i].path) == walk.awaited());
}

/// A file system shows one tree at most under a directory.
pub proof fn lemma_shows_one_tree(
    fs: spec_fn(Seq<char>) -> Seq<ListedView>,
    dir: Seq<char>,
    exclude: Seq<Seq<char>>,
    recursive: bool,
    tree: Seq<TreeView>,
    other: Seq<TreeView>,
)
    requires
        shows(fs, dir, exclude, recursive, tree),
        shows(fs, dir, exclude, recursive, other),
    ensures
        tree == other,
    decreases tree, 1nat,
{
    let entries = kept(fs(dir), exclude);
    assert forall|i: int| 0 <= i < tree.len() implies tree[i] == other[i] by {
        lemma_node_shows_one_node(
            fs,
            entries[i],
            passed_down(exclude, recursive),
            recursive,
            tree[i],
            other[i],
        );
    }
    assert(tree =~= other);
}

/// A file system shows one node at most for an entry.
proof fn lemma_node_shows_one_node(
    fs: spec_fn(Seq<char>) -> Seq<ListedView>,
    entry: ListedView,
    exclude: Seq<Seq<char>>,
    recursive: bool,
    node: TreeView,
    other: TreeView,
)
    requires
        node_shows(fs, entry, exclude, recursive, node),
        node_shows(fs, entry, exclude, recursive, other),
    ensures
        node == other,
    decreases node, 0nat,
{
    if let Some(entries) = node.subdir {
        lemma_shows_one_tree(fs, entry.path, exclude, recursive, entries, other.subdir->0);
    }
}

/// Whether the name occurs in the tree, at whatever depth.
pub open spec fn mentions(tree: Seq<TreeView>, name: Seq<char>) -> bool
    decreases tree, 1nat,
{
    exists|i: int| 0 <= i < tree.len() && node_mentions(#[trigger] tree[i], name)
}

/// Whether the node has the name, or something in it has.
pub open spec fn node_mentions(node: TreeView, name: Seq<char>) -> bool
    decreases node, 0nat,
{
    node.name == name || match node.subdir {
        None => false,
        Some(entries) => mentions(entries, name),
    }
}

/// With no name excluded, a listing is kept whole.
pub proof fn lemma_kept_whole(listing: Seq<ListedView>)
    ensures
        kept(listing, Seq::empty()) == listing,
    decreases listing.len(),
{
    reveal(Seq::filter);
    if listing.len() > 0 {
        lemma_kept_whole(listing.drop_last());
        assert(listing.drop_last().push(listing.last()) =~= listing);
    }
}

/// Under recursive exclusion an excluded name occurs nowhere in the tree,
/// however deep the entry of that name lies.
pub proof fn lemma_recursive_exclusion_reaches_every_depth(
    fs: spec_fn(Seq<char>) -> Seq<ListedView>,
    dir: Seq<char>,
    exclude: Seq<Seq<char>>,
    tree: Seq<TreeView>,
    name: Seq<char>,
)
    requires
        shows(fs, dir, exclude, true, tree),
        exclude.contains(name),
    ensures
        !mentions(tree, name),
    decreases tree,
{
    let entries = kept(fs(dir), exclude);
    assert forall|i: int| 0 <= i < tree.len() implies !node_mentions(#[trigger] tree[i], name) by {
        fs(dir).lemma_filter_pred(crate::walk::passes(exclude), i);
        assert(node_shows(fs, entries[i], exclude, true, tree[i]));
        if let Some(below) = tree[i].subdir {
            lemma_recursive_exclusion_reaches_every_depth(fs, entries[i].path, exclude, below, name);
        }
    }
}

/// Under recursive exclusion the tree is made of the listings without their
/// excluded entries, and of nothing else: two file systems whose listings are
/// the same but for entries of excluded names show the same tree.
pub proof fn lemma_recursive_exclusion_hides_entries(
    fs: spec_fn(Seq<char>) -> Seq<ListedView>,
    other: spec_fn(Seq<char>) -> Seq<ListedView>,
    dir: Seq<char>,
    exclude: Seq<Seq<char>>,
    tree: Seq<TreeView>,
)
    requires
        shows(fs, dir, exclude, true, tree),
        forall|path: Seq<char>| kept(#[trigger] fs(path), exclude) == kept(other(path), exclude),
    ensures
        shows(other, dir, exclude, true, tree),
    decreases tree,
{
    let entries = kept(fs(dir), exclude);
    assert(entries == kept(other(dir), exclude));
    assert forall|i: int| 0 <= i < tree.len() implies node_shows(
        other,
        entries[i],
        exclude,
        true,
        #[trigger] tree[i],
    ) by {
        assert(node_shows(fs, entries[i], exclude, true, tree[i]));
        if let Some(below) = tree[i].subdir {
            lemma_recursive_exclusion_hides_entries(fs, other, entries[i].path, exclude, below);
        }
    }
}

/// Under exclusion that is not recursive the excluded names are missing
/// among the entries of the root and there only: what the tree holds of a
/// directory below the root is what the file system shows under it with
/// nothing excluded.
pub proof fn lemma_plain_exclusion_stops_at_root(
    fs: spec_fn(Seq<char>) -> Seq<ListedView>,
    dir: Seq<char>,
    exclude: Seq<Seq<char>>,
    tree: Seq<TreeView>,
)
    requires
        shows(fs, dir, exclude, false, tree),
    ensures
        forall|i: int| 0 <= i < tree.len() ==> !exclude.contains(#[trigger] tree[i].name),
        forall|i: int|
            0 <= i < tree.len() ==> match (#[trigger] tree[i]).subdir {
                None => true,
                Some(below) => shows(fs, tree[i].path, Seq::empty(), false, below),
            },
{
    let entries = kept(fs(dir), exclude);
    assert forall|i: int| 0 <= i < tree.len() implies !exclude.contains(#[trigger] tree[i].name) by {
        fs(dir).lemma_filter_pred(crate::walk::passes(exclude), i);
        assert(node_shows(fs, entries[i], Seq::empty(), false, tree[i]));
    }
    assert forall|i: int| 0 <= i < tree.len() implies match (#[trigger] tree[i]).subdir {
        None => true,
        Some(below) => shows(fs, tree[i].path, Seq::empty(), false, below),
    } by {
        assert(node_shows(fs, entries[i], Seq::empty(), false, tree[i]));
    }
}

/// With nothing excluded the tree has a node for every entry of the
/// directory, whatever its name.
pub proof fn lemma_without_exclusion_nothing_is_missing(
    fs: spec_fn(Seq<char>) -> Seq<ListedView>,
    dir: Seq<char>,
    recursive: bool,
    tree: Seq<TreeView>,
)
    requires
        shows(fs, dir, Seq::empty(), recursive, tree),
    ensures
        tree.len() == fs(dir).len(),
        forall|i: int| 0 <= i < tree.len() ==> (#[trigger] tree[i]).name == fs(dir)[i].name,
{
    lemma_kept_whole(fs(dir));
    assert forall|i: int| 0 <= i < tree.len() implies (#[trigger] tree[i]).name == fs(
        dir,
    )[i].name by {
        assert(node_shows(
            fs,
            fs(dir)[i],
            passed_down(Seq::empty(), recursive),
            recursive,
            tree[i],
        ));
    }
}

/// The texts of the files, each read at its path, in the files' order.
pub open spec fn texts_of(files: Seq<FileView>, text: spec_fn(Seq<char>) -> Seq<char>) -> Seq<
    Seq<char>,
> {
    Seq::new(files.len(), |i: int| text(files[i].path))
}

/// Whether two trees differ: by names or nesting, or else by a file of the
/// first whose text is the text of no file of the second.
pub open spec fn differ(
    tree: Seq<TreeView>,
    tree_comp: Seq<TreeView>,
    text: spec_fn(Seq<char>) -> Seq<char>,
) -> bool {
    shapes(tree) != shapes(tree_comp) || !contained_in(
        texts_of(files_of(tree), text),
        texts_of(files_of(tree_comp), text),
    )
}

/// Whether the contents read so far on one side are the texts of the first
/// files of that side's tree. Nothing is read before the tree is there.
pub open spec fn contents_agree(
    walk: WalkView,
    contents: Seq<Seq<char>>,
    text: spec_fn(Seq<char>) -> Seq<char>,
) -> bool {
    match walk.tree {
        None => contents.len() == 0,
        Some(tree) => contents.is_prefix_of(texts_of(files_of(tree), text)),
    }
}

/// Whether all that a run holds is what a file system shows: `fs` gives the
/// listing of each directory and `text` the text of each file.
pub open spec fn run_agrees(
    run: RunView,
    fs: spec_fn(Seq<char>) -> Seq<ListedView>,
    text: spec_fn(Seq<char>) -> Seq<char>,
) -> bool {
    &&& agrees(run.walk, fs)
    &&& agrees(run.walk_comp, fs)
    &&& contents_agree(run.walk, run.contents, text)
    &&& contents_agree(run.walk_comp, run.contents_comp, text)
    &&& run.walk_comp.tree is None ==> run.contents.len() == 0
}

/// A run that has asked for nothing agrees with every file system.
pub proof fn lemma_run_start_agrees(
    fs: spec_fn(Seq<char>) -> Seq<ListedView>,
    text: spec_fn(Seq<char>) -> Seq<char>,
    dir: Seq<char>,
    dir_comp: Seq<char>,
    exclude: Seq<Seq<char>>,
    recursive: bool,
)
    ensures
        run_agrees(RunView::start(dir, dir_comp, exclude, recursive), fs, text),
{
}

/// A run that agrees with a file system still does after it has been given
/// what it asked for: that file system's listing of the directory, or its text
/// of the file.
pub proof fn lemma_run_step_agrees(
    run: RunView,
    fs: spec_fn(Seq<char>) -> Seq<ListedView>,
    text: spec_fn(Seq<char>) -> Seq<char>,
)
    requires
        run_agrees(run, fs, text),
    ensures
        match run.request() {
            RequestView::List(dir) => run_agrees(run.listed(fs(dir)), fs, text),
            RequestView::Read(path) => run_agrees(run.read(text(path)), fs, text),
            RequestView::Done(_) => true,
        },
{
    match run.request() {
        RequestView::List(dir) => {
            if run.walk.awaited() is Some {
                lemma_listed_agrees(run.walk, fs);
            } else {
                lemma_listed_agrees(run.walk_comp, fs);
            }
        },
        RequestView::Read(path) => {},
        RequestView::Done(_) => {},
    }
}

/// The answer of a run that agrees with a file system is whether the trees
/// that the file system shows under the two directories differ.
pub proof fn lemma_run_answer(
    run: RunView,
    fs: spec_fn(Seq<char>) -> Seq<ListedView>,
    text: spec_fn(Seq<char>) -> Seq<char>,
)
    requires
        run_agrees(run, fs, text),
        run.request() is Done,
    ensures
        run.walk.tree is Some,
        run.walk_comp.tree is Some,
        shows(fs, run.walk.root, run.walk.exclude, run.walk.recursive, run.walk.tree->0),
        shows(
            fs,
            run.walk_comp.root,
            run.walk_comp.exclude,
            run.walk_comp.recursive,
            run.walk_comp.tree->0,
        ),
        run.request() == RequestView::Done(differ(run.walk.tree->0, run.walk_comp.tree->0, text)),
{
    let tree = run.walk.tree->0;
    let tree_comp = run.walk_comp.tree->0;
    if shapes(tree) == shapes(tree_comp) {
        assert(run.contents =~= texts_of(files_of(tree), text));
        assert(run.contents_comp =~= texts_of(files_of(tree_comp), text));
    }
}

/// A directory compared with itself does not differ: two walks of one
/// directory of one file system, with the same names excluded, build one tree,
/// and every text of it is a text of it.
pub proof fn lemma_same_directory_no_difference(
    run: RunView,
    fs: spec_fn(Seq<char>) -> Seq<ListedView>,
    text: spec_fn(Seq<char>) -> Seq<char>,
)
    requires
        run_agrees(run, fs, text),
        run.walk.root == run.walk_comp.root,
        run.walk.exclude == run.walk_comp.exclude,
        run.walk.recursive == run.walk_comp.recursive,
        run.request() is Done,
    ensures
        run.request() == RequestView::Done(false),
{
    lemma_run_answer(run, fs, text);
    lemma_shows_one_tree(
        fs,
        run.walk.root,
        run.walk.exclude,
        run.walk.recursive,
        run.walk.tree->0,
        run.walk_comp.tree->0,
    );
    let texts = texts_of(files_of(run.walk.tree->0), text);
    assert forall|i: int| 0 <= i < texts.len() implies texts.contains(#[trigger] texts[i]) by {}
}

/// Trees that differ by names or nesting end the run with the answer that the
/// directories differ, whatever has been read; and a run asks for a file's
/// content only when both trees are there and alike. So no file is read for
/// trees that differ in shape.
pub proof fn lemma_shape_decides_first(run: RunView)
    ensures
        run.walk.tree is Some && run.walk_comp.tree is Some && shapes(run.walk.tree->0) != shapes(
            run.walk_comp.tree->0,
        ) ==> run.request() == RequestView::Done(true),
        run.request() is Read ==> run.walk.tree is Some && run.walk_comp.tree is Some && shapes(
            run.walk.tree->0,
        ) == shapes(run.walk_comp.tree->0),
{
}

/// Trees that are alike differ all the same when a file of the first has a
/// text that no file of the second has.
pub proof fn lemma_content_decides(
    tree: Seq<TreeView>,
    tree_comp: Seq<TreeView>,
    text: spec_fn(Seq<char>) -> Seq<char>,
    i: int,
)
    requires
        0 <= i < files_of(tree).len(),
        forall|j: int|
            0 <= j < files_of(tree_comp).len() ==> text(#[trigger] files_of(tree_comp)[j].path)
                != text(files_of(tree)[i].path),
    ensures
        differ(tree, tree_comp, text),
{
    let texts = texts_of(files_of(tree), text);
    let texts_comp = texts_of(files_of(tree_comp), text);
    assert(texts[i] == text(files_of(tree)[i].path));
    assert(!texts_comp.contains(texts[i])) by {
        if texts_comp.contains(texts[i]) {
            let j = choose|j: int| 0 <= j < texts_comp.len() && texts_comp[j] == texts[i];
            assert(text(files_of(tree_comp)[j].path) != text(files_of(tree)[i].path));
        }
    }
}

} // verus!
