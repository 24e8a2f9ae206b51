use crate::diff::DirDiff;
use crate::tree::{contained_in, files_of, shapes, FileView, Tree, TreeBuilder, TreeFlatted};
use crate::walk::{excluded_names, Listed, ListedView, TreeWalk, WalkView};
use vstd::prelude::*;

verus! {

/// What a comparison needs next from whoever drives it, or its answer.
#[derive(Debug, PartialEq)]
pub enum Request {
    /// list the directory at this path
    List(String),
    /// read the file at this path as text
    Read(String),
    /// nothing more: whether the two directories differ
    Done(bool),
}

/// What a [`Request`] stands for.
pub ghost enum RequestView {
    List(Seq<char>),
    Read(Seq<char>),
    Done(bool),
}

impl View for Request {
    type V = RequestView;

    open spec fn view(&self) -> RequestView {
        match self {
            Request::List(path) => RequestView::List(path@),
            Request::Read(path) => RequestView::Read(path@),
            Request::Done(differ) => RequestView::Done(*differ),
        }
    }
}

/// What is settled once both trees are there.
enum Plan {
    /// a tree is still being built
    Listing,
    /// the trees differ by names or nesting
    Differ,
    /// the trees are alike: the files of each, whose contents decide
    Read(TreeFlatted, TreeFlatted),
}

ghost enum PlanView {
    Listing,
    Differ,
    Read(Seq<FileView>, Seq<FileView>),
}

impl View for Plan {
    type V = PlanView;

    closed spec fn view(&self) -> PlanView {
        match self {
            Plan::Listing => PlanView::Listing,
            Plan::Differ => PlanView::Differ,
            Plan::Read(files, files_comp) => PlanView::Read(files@, files_comp@),
        }
    }
}

/// The comparison of two directories, one listing or one file's content at a
/// time.
///
/// The run itself lists and reads nothing: [`DirDiffRun::request`] says what
/// it needs, and [`DirDiffRun::listed`] and [`DirDiffRun::read`] take it and
/// give the run to go on with. It builds the tree of the first directory, then that of the second. Trees that
/// differ by names or nesting end the run: no file is read. Else it asks for
/// the content of each file of the first tree, then of the second, and the
/// directories differ unless every content of the first is one of the second.
pub struct DirDiffRun {
    walk: TreeWalk,
    walk_comp: TreeWalk,
    plan: Plan,
    contents: Vec<String>,
    contents_comp: Vec<String>,
}

/// What a [`DirDiffRun`] stands for: the two walks, and the contents read so
/// far on each side.
pub ghost struct RunView {
    pub walk: WalkView,
    pub walk_comp: WalkView,
    pub contents: Seq<Seq<char>>,
    pub contents_comp: Seq<Seq<char>>,
}

impl RunView {
    /// A run that has asked for nothing yet.
    pub open spec fn start(
        dir: Seq<char>,
        dir_comp: Seq<char>,
        exclude: Seq<Seq<char>>,
        recursive: bool,
    ) -> RunView {
        RunView {
            walk: WalkView::start(dir, exclude, recursive),
            walk_comp: WalkView::start(dir_comp, exclude, recursive),
            contents: Seq::empty(),
            contents_comp: Seq::empty(),
        }
    }

    /// What the run needs next. While a tree is incomplete, the listing that
    /// its walk waits for, the first tree first. With both trees there: the
    /// answer that they differ, if they do by names or nesting; else the
    /// content of the next file not read yet, the first tree's files first;
    /// and with every content read, the answer that the contents give.
    pub open spec fn request(self) -> RequestView {
        if let Some(dir) = self.walk.awaited() {
            RequestView::List(dir)
        } else if let Some(dir) = self.walk_comp.awaited() {
            RequestView::List(dir)
        } else {
            let files = files_of(self.walk.tree->0);
            let files_comp = files_of(self.walk_comp.tree->0);
            if shapes(self.walk.tree->0) != shapes(self.walk_comp.tree->0) {
                RequestView::Done(true)
            } else if self.contents.len() < files.len() {
                RequestView::Read(files[self.contents.len() as int].path)
            } else if self.contents_comp.len() < files_comp.len() {
                RequestView::Read(files_comp[self.contents_comp.len() as int].path)
            } else {
                RequestView::Done(!contained_in(self.contents, self.contents_comp))
            }
        }
    }

    /// The run after a listing has come: it goes to the walk that waited for
    /// one, the first tree's first. A run that waits for no listing stays as
    /// it is.
    pub open spec fn listed(self, listing: Seq<ListedView>) -> RunView {
        if self.walk.awaited() is Some {
            RunView { walk: self.walk.listed(listing), ..self }
        } else if self.walk_comp.awaited() is Some {
            RunView { walk_comp: self.walk_comp.listed(listing), ..self }
        } else {
            self
        }
    }

    /// The run after a file's content has come: it joins the contents of the
    /// side whose file was asked for. A run that waits for no content stays as
    /// it is.
    pub open spec fn read(self, content: Seq<char>) -> RunView {
        if self.request() is Read {
            if self.contents.len() < files_of(self.walk.tree->0).len() {
                RunView { contents: self.contents.push(content), ..self }
            } else {
                RunView { contents_comp: self.contents_comp.push(content), ..self }
            }
        } else {
            self
        }
    }
}

/// What is settled by two walks: nothing while one of them goes on.
spec fn plan_of(walk: WalkView, walk_comp: WalkView) -> PlanView {
    match (walk.tree, walk_comp.tree) {
        (Some(tree), Some(tree_comp)) => if shapes(tree) != shapes(tree_comp) {
            PlanView::Differ
        } else {
            PlanView::Read(files_of(tree), files_of(tree_comp))
        },
        _ => PlanView::Listing,
    }
}

impl View for DirDiffRun {
    type V = RunView;

    closed spec fn view(&self) -> RunView {
        RunView {
            walk: self.walk@,
            walk_comp: self.walk_comp@,
            contents: self.contents.deep_view(),
            contents_comp: self.contents_comp.deep_view(),
        }
    }
}

/// Settles what two walks settle: compares the trees if both are there, and
/// flattens them if they are alike.
fn settle_plan(walk: &TreeWalk, walk_comp: &TreeWalk) -> (plan: Plan)
    ensures
        plan@ == plan_of(walk@, walk_comp@),
{
    match (walk.tree(), walk_comp.tree()) {
        (Some(tree), Some(tree_comp)) => {
            if Tree::tree_diff(tree.clone(), tree_comp.clone()) {
                Plan::Differ
            } else {
                Plan::Read(
                    TreeFlatted::from_iter(tree.clone()),
                    TreeFlatted::from_iter(tree_comp.clone()),
                )
            }
        },
        _ => Plan::Listing,
    }
}

impl DirDiffRun {
    #[verifier::type_invariant]
    spec fn settled(self) -> bool {
        self.plan@ == plan_of(self.walk@, self.walk_comp@)
    }

    /// Starts the comparison that the options describe.
    pub fn new(dir_diff_options: DirDiff) -> (run: DirDiffRun)
        ensures
            run@ == RunView::start(
                dir_diff_options.dir@,
                dir_diff_options.dir_comp@,
                excluded_names(dir_diff_options.excluding),
                dir_diff_options.recursive_excluding,
            ),
    {
        let DirDiff { dir, dir_comp, excluding, recursive_excluding } = dir_diff_options;
        let walk = TreeWalk::new(dir, excluding.clone(), recursive_excluding);
        let walk_comp = TreeWalk::new(dir_comp, excluding, recursive_excluding);
        let run = DirDiffRun {
            walk,
            walk_comp,
            plan: Plan::Listing,
            contents: Vec::new(),
            contents_comp: Vec::new(),
        };
        proof {
            assert(run.contents.deep_view() =~= Seq::<Seq<char>>::empty());
            assert(run.contents_comp.deep_view() =~= Seq::<Seq<char>>::empty());
        }
        run
    }

    /// What the run needs next, or its answer.
    pub fn request(&self) -> (request: Request)
        ensures
            request@ == self@.request(),
    {
        proof {
            use_type_invariant(self);
        }
        if let Some(dir) = self.walk.next_dir() {
            Request::List(dir.clone())
        } else if let Some(dir) = self.walk_comp.next_dir() {
            Request::List(dir.clone())
        } else {
            // Both trees are there, so the plan is no longer `Listing`.
            match &self.plan {
                Plan::Listing | Plan::Differ => Request::Done(true),
                Plan::Read(files, files_comp) => {
                    if self.contents.len() < files.0.len() {
                        Request::Read(files.0[self.contents.len()].path.clone())
                    } else if self.contents_comp.len() < files_comp.0.len() {
                        Request::Read(files_comp.0[self.contents_comp.len()].path.clone())
                    } else {
                        Request::Done(
                            !Tree::compare_dir_content(
                                self.contents.clone(),
                                self.contents_comp.clone(),
                            ),
                        )
                    }
                },
            }
        }
    }

    /// Takes the listing of the directory that the run asked for.
    pub fn listed(self, listing: Vec<Listed>) -> (next: DirDiffRun)
        ensures
            next@ == self@.listed(listing.deep_view()),
    {
        proof {
            use_type_invariant(&self);
        }
        let DirDiffRun { mut walk, mut walk_comp, plan, contents, contents_comp } = self;
        if !walk.is_over() {
            walk.listed(listing);
        } else if !walk_comp.is_over() {
            walk_comp.listed(listing);
        } else {
            return DirDiffRun { walk, walk_comp, plan, contents, contents_comp };
        }
        let plan = settle_plan(&walk, &walk_comp);
        DirDiffRun { walk, walk_comp, plan, contents, contents_comp }
    }

    /// Takes the content of the file that the run asked for.
    pub fn read(self, content: String) -> (next: DirDiffRun)
        ensures
            next@ == self@.read(content@),
    {
        proof {
            use_type_invariant(&self);
        }
        let DirDiffRun { walk, walk_comp, plan, mut contents, mut contents_comp } = self;
        if let Plan::Read(files, files_comp) = &plan {
            if contents.len() < files.0.len() {
                contents.push(content);
                assert(contents.deep_view() =~= self@.contents.push(content@));
            } else if contents_comp.len() < files_comp.0.len() {
                contents_comp.push(content);
                assert(contents_comp.deep_view() =~= self@.contents_comp.push(content@));
            }
        }
        DirDiffRun { walk, walk_comp, plan, contents, contents_comp }
    }
}

} // verus!
