use spielrs_diff::diff::{DirDiff, FileDiff};
use spielrs_diff::run::{DirDiffRun, Request};
use spielrs_diff::tree::{Tree, TreeBuilder, TreeFlatted};
use spielrs_diff::walk::{Listed, TreeWalk};
use spielrs_diff::{dir_diff, file_diff};
use std::cell::RefCell;
use std::collections::HashMap;

/// A file system held in memory. It keeps a record of what was listed and
/// read, and panics when asked for a directory or a file it does not hold.
struct Mock {
    dirs: HashMap<String, Vec<(String, bool)>>,
    files: HashMap<String, String>,
    listed: RefCell<Vec<String>>,
    read: RefCell<Vec<String>>,
}

impl Mock {
    fn new() -> Mock {
        Mock {
            dirs: HashMap::new(),
            files: HashMap::new(),
            listed: RefCell::new(Vec::new()),
            read: RefCell::new(Vec::new()),
        }
    }

    fn dir(&mut self, path: &str, entries: &[(&str, bool)]) {
        let entries = entries.iter().map(|(name, is_dir)| (name.to_string(), *is_dir)).collect();
        self.dirs.insert(path.to_string(), entries);
    }

    fn file(&mut self, path: &str, content: &str) {
        self.files.insert(path.to_string(), content.to_string());
    }

    fn list(&self, path: &str) -> Vec<Listed> {
        self.listed.borrow_mut().push(path.to_string());
        match self.dirs.get(path) {
            Some(entries) => entries
                .iter()
                .map(|(name, is_dir)| Listed {
                    name: name.clone(),
                    path: format!("{}/{}", path, name),
                    is_dir: *is_dir,
                })
                .collect(),
            None => panic!("no directory at {}", path),
        }
    }

    fn text(&self, path: &str) -> String {
        self.read.borrow_mut().push(path.to_string());
        match self.files.get(path) {
            Some(content) => content.clone(),
            None => panic!("no readable file at {}", path),
        }
    }
}

const MAIN_V: &str = "fn main() {\n    println(\"hello world\")\n}\n";

/// A project directory under `root`. `purpose` is the text of the file that
/// lies two directories deep, `hello` the text of the file at the top.
fn project(mock: &mut Mock, root: &str, hello: &str, purpose: &str) {
    mock.dir(root, &[("hello.txt", false), ("python", true), ("vlang", true)]);
    mock.file(&format!("{}/hello.txt", root), hello);
    mock.dir(&format!("{}/python", root), &[("main.py", false)]);
    mock.file(&format!("{}/python/main.py", root), "print(\"This line will be printed.\")");
    mock.dir(&format!("{}/vlang", root), &[("purpose", true), ("main.v", false)]);
    mock.dir(&format!("{}/vlang/purpose", root), &[("purpose.txt", false)]);
    mock.file(&format!("{}/vlang/purpose/purpose.txt", root), purpose);
    mock.file(&format!("{}/vlang/main.v", root), MAIN_V);
}

/// Five directories: the first two alike, the third with another entry, the
/// fourth with another text at the top, the fifth with another text two
/// directories deep.
fn mocks() -> Mock {
    let mut mock = Mock::new();
    project(&mut mock, "./mocks/dir_one", "Hello world", "new language");
    project(&mut mock, "./mocks/dir_two", "Hello world", "new language");
    project(&mut mock, "./mocks/dir_three", "Hello world", "new language");
    mock.dir(
        "./mocks/dir_three",
        &[("hello.txt", false), ("python", true), ("rust", true), ("vlang", true)],
    );
    mock.dir("./mocks/dir_three/rust", &[]);
    project(&mut mock, "./mocks/dir_four", "Hello there", "new language");
    project(&mut mock, "./mocks/dir_five", "Hello world", "old language");
    mock
}

fn build_tree(
    mock: &Mock,
    dir_path: &str,
    excluding: Option<Vec<String>>,
    recursive_excluding: bool,
) -> Vec<Tree> {
    let mut walk = TreeWalk::new(dir_path.to_string(), excluding, recursive_excluding);
    loop {
        let dir = match walk.next_dir() {
            Some(dir) => dir.clone(),
            None => break,
        };
        walk.listed(mock.list(&dir));
    }
    walk.into_tree().unwrap()
}

fn get_content_files(mock: &Mock, dir_tree: Vec<Tree>) -> Vec<String> {
    TreeFlatted::from_iter(dir_tree).0.into_iter().map(|file| mock.text(&file.path)).collect()
}

fn drive(mock: &Mock, run: DirDiffRun) -> bool {
    let mut run = run;
    loop {
        run = match run.request() {
            Request::List(dir) => run.listed(mock.list(&dir)),
            Request::Read(file) => run.read(mock.text(&file)),
            Request::Done(differ) => return differ,
        };
    }
}

fn options(dir: &str, dir_comp: &str, excluding: Option<Vec<String>>, recursive: bool) -> DirDiff {
    DirDiff {
        dir: dir.to_string(),
        dir_comp: dir_comp.to_string(),
        excluding,
        recursive_excluding: recursive,
    }
}

#[test]
fn should_return_true_if_both_dir_tree_are_different() {
    let mock = mocks();
    let diff = drive(
        &mock,
        dir_diff(DirDiff {
            dir: "./mocks/dir_one".to_string(),
            dir_comp: "./mocks/dir_three".to_string(),
            excluding: None,
            recursive_excluding: false,
        }),
    );
    assert_eq!(diff, true);
}

#[test]
fn should_return_false_if_both_dir_tree_are_equal() {
    let mock = mocks();
    let diff = drive(
        &mock,
        dir_diff(DirDiff {
            dir: "./mocks/dir_one".to_string(),
            dir_comp: "./mocks/dir_two".to_string(),
            excluding: None,
            recursive_excluding: false,
        }),
    );
    assert_eq!(diff, false);
}

#[test]
fn should_return_true_if_both_dir_tree_have_different_content() {
    let mock = mocks();
    let diff = drive(
        &mock,
        dir_diff(DirDiff {
            dir: "./mocks/dir_one".to_string(),
            dir_comp: "./mocks/dir_four".to_string(),
            excluding: None,
            recursive_excluding: false,
        }),
    );
    assert_eq!(diff, true);
}

#[test]
fn should_return_false_if_both_dir_have_different_subdir_excluded_recursively() {
    let mock = mocks();
    let diff = drive(
        &mock,
        dir_diff(DirDiff {
            dir: "./mocks/dir_one".to_string(),
            dir_comp: "./mocks/dir_five".to_string(),
            excluding: Some(vec!["purpose".to_string()]),
            recursive_excluding: true,
        }),
    );
    assert_eq!(diff, false);
}

#[test]
fn should_return_true_if_both_dir_have_different_subdir_excluded_not_recursively() {
    let mock = mocks();
    let diff = drive(
        &mock,
        dir_diff(DirDiff {
            dir: "./mocks/dir_one".to_string(),
            dir_comp: "./mocks/dir_five".to_string(),
            excluding: Some(vec!["purpose".to_string()]),
            recursive_excluding: false,
        }),
    );
    assert_eq!(diff, true);
}

#[test]
fn should_return_false_if_both_files_are_equal() {
    let mock = mocks();
    let options = FileDiff {
        file: "./mocks/dir_one/hello.txt".to_string(),
        file_comp: "./mocks/dir_two/hello.txt".to_string(),
    };
    let diff = file_diff(&mock.text(&options.file), &mock.text(&options.file_comp));

    assert_eq!(diff, false);
}

#[test]
fn should_return_true_if_both_files_are_not_equal() {
    let mock = mocks();
    let options = FileDiff {
        file: "./mocks/dir_one/vlang/purpose/purpose.txt".to_string(),
        file_comp: "./mocks/dir_five/vlang/purpose/purpose.txt".to_string(),
    };
    let diff = file_diff(&mock.text(&options.file), &mock.text(&options.file_comp));

    assert_eq!(diff, true);
}

#[test]
fn should_return_false_equal_dir_tree() {
    let mock = mocks();
    let dir_one = build_tree(&mock, "./mocks/dir_one", None, false);
    let dir_two = build_tree(&mock, "./mocks/dir_two", None, false);

    let diff = Tree::tree_diff(dir_one, dir_two);

    assert_eq!(diff, false);
}

#[test]
fn should_return_true_different_dir_tree() {
    let mock = mocks();
    let dir_one = build_tree(&mock, "./mocks/dir_one", None, false);
    let dir_three = build_tree(&mock, "./mocks/dir_three", None, false);

    let diff = Tree::tree_diff(dir_one, dir_three);

    assert_eq!(diff, true);
}

#[test]
fn should_return_all_file_content() {
    let mock = mocks();
    let dir_one = build_tree(&mock, "./mocks/dir_one", None, false);
    let content = get_content_files(&mock, dir_one);

    assert_eq!(
        content,
        vec!(
            "Hello world",
            "print(\"This line will be printed.\")",
            "new language",
            "fn main() {\n    println(\"hello world\")\n}\n",
        )
    )
}

#[test]
fn should_return_true_if_both_dir_content_are_equal() {
    let mock = mocks();
    let dir_one = build_tree(&mock, "./mocks/dir_one", None, false);
    let content_one = get_content_files(&mock, dir_one);

    let dir_two = build_tree(&mock, "./mocks/dir_two", None, false);
    let content_two = get_content_files(&mock, dir_two);

    assert_eq!(Tree::compare_dir_content(content_one, content_two), true);
}

#[test]
fn should_return_false_if_both_dir_content_are_differents() {
    let mock = mocks();
    let dir_one = build_tree(&mock, "./mocks/dir_one", None, false);
    let content_one = get_content_files(&mock, dir_one);

    let dir_four = build_tree(&mock, "./mocks/dir_four", None, false);
    let content_four = get_content_files(&mock, dir_four);

    assert_eq!(Tree::compare_dir_content(content_one, content_four), false);
}

#[test]
fn should_return_true_if_both_dir_tree_have_different_subdir_excluded_recursively() {
    let mock = mocks();
    let dir_one = build_tree(&mock, "./mocks/dir_one", Some(vec!["purpose".to_string()]), true);
    let content_one = get_content_files(&mock, dir_one);

    let dir_five = build_tree(&mock, "./mocks/dir_five", Some(vec!["purpose".to_string()]), true);
    let content_five = get_content_files(&mock, dir_five);

    assert_eq!(Tree::compare_dir_content(content_one, content_five), true);
}

#[test]
fn should_return_false_if_both_dir_tree_have_different_subdir_excluded_not_recursively() {
    let mock = mocks();
    let dir_one = build_tree(&mock, "./mocks/dir_one", Some(vec!["purpose".to_string()]), false);
    let content_one = get_content_files(&mock, dir_one);

    let dir_five = build_tree(&mock, "./mocks/dir_five", Some(vec!["purpose".to_string()]), false);
    let content_five = get_content_files(&mock, dir_five);

    assert_eq!(Tree::compare_dir_content(content_one, content_five), false);
}

#[test]
fn a_directory_does_not_differ_from_itself() {
    let mock = mocks();
    let run = dir_diff(options("./mocks/dir_one", "./mocks/dir_one", None, false));
    assert_eq!(drive(&mock, run), false);
}

#[test]
fn trees_of_different_shape_are_told_apart_without_reading() {
    let mut mock = Mock::new();
    mock.dir("/a", &[("same.txt", false), ("only_here.txt", false)]);
    mock.dir("/b", &[("same.txt", false)]);
    let run = dir_diff(options("/a", "/b", None, false));
    assert_eq!(drive(&mock, run), true);
    assert_eq!(*mock.read.borrow(), Vec::<String>::new());
    assert_eq!(*mock.listed.borrow(), vec!["/a".to_string(), "/b".to_string()]);
}

#[test]
fn a_file_and_an_empty_directory_of_one_name_differ_without_reading() {
    let mut mock = Mock::new();
    mock.dir("/a", &[("thing", true)]);
    mock.dir("/a/thing", &[]);
    mock.dir("/b", &[("thing", false)]);
    let run = dir_diff(options("/a", "/b", None, false));
    assert_eq!(drive(&mock, run), true);
    assert_eq!(*mock.read.borrow(), Vec::<String>::new());
}

#[test]
fn the_run_lists_the_first_tree_then_the_second_then_reads_in_order() {
    let mut mock = Mock::new();
    for root in ["/a", "/b"] {
        mock.dir(root, &[("x", false), ("d", true), ("z", false)]);
        mock.dir(&format!("{}/d", root), &[("y", false)]);
        mock.file(&format!("{}/x", root), "1");
        mock.file(&format!("{}/d/y", root), "2");
        mock.file(&format!("{}/z", root), "3");
    }
    let run = dir_diff(options("/a", "/b", None, false));
    assert_eq!(drive(&mock, run), false);
    assert_eq!(*mock.listed.borrow(), vec!["/a", "/a/d", "/b", "/b/d"]);
    assert_eq!(*mock.read.borrow(), vec!["/a/x", "/a/d/y", "/a/z", "/b/x", "/b/d/y", "/b/z"]);
}

#[test]
fn an_excluded_directory_is_neither_listed_nor_read() {
    let mut mock = Mock::new();
    for root in ["/a", "/b"] {
        mock.dir(root, &[("keep", true), ("skip", true)]);
        mock.dir(&format!("{}/keep", root), &[("f", false)]);
        mock.file(&format!("{}/keep/f", root), "text");
    }
    let run = dir_diff(options("/a", "/b", Some(vec!["skip".to_string()]), false));
    assert_eq!(drive(&mock, run), false);
    assert_eq!(*mock.listed.borrow(), vec!["/a", "/a/keep", "/b", "/b/keep"]);
}

#[test]
fn the_answer_is_one_sided_in_the_contents() {
    let mut mock = Mock::new();
    mock.dir("/a", &[("f", false), ("g", false)]);
    mock.file("/a/f", "hello");
    mock.file("/a/g", "hello");
    mock.dir("/b", &[("f", false), ("g", false)]);
    mock.file("/b/f", "hello");
    mock.file("/b/g", "world");
    assert_eq!(drive(&mock, dir_diff(options("/a", "/b", None, false))), false);
    assert_eq!(drive(&mock, dir_diff(options("/b", "/a", None, false))), true);
}

#[test]
fn contents_that_changed_places_do_not_count_as_a_difference() {
    let mut mock = Mock::new();
    mock.dir("/a", &[("f", false), ("g", false)]);
    mock.file("/a/f", "x");
    mock.file("/a/g", "y");
    mock.dir("/b", &[("f", false), ("g", false)]);
    mock.file("/b/f", "y");
    mock.file("/b/g", "x");
    assert_eq!(drive(&mock, dir_diff(options("/a", "/b", None, false))), false);
}

#[test]
fn two_listings_in_reverse_order_differ() {
    let mut mock = Mock::new();
    mock.dir("/a", &[("f", false), ("g", false)]);
    mock.dir("/b", &[("g", false), ("f", false)]);
    assert_eq!(drive(&mock, dir_diff(options("/a", "/b", None, false))), true);
    assert_eq!(*mock.read.borrow(), Vec::<String>::new());
}

#[test]
fn two_empty_directories_do_not_differ() {
    let mut mock = Mock::new();
    mock.dir("/a", &[]);
    mock.dir("/b", &[]);
    let run = dir_diff(options("/a", "/b", None, false));
    assert_eq!(run.request(), Request::List("/a".to_string()));
    let run = run.listed(mock.list("/a"));
    assert_eq!(run.request(), Request::List("/b".to_string()));
    let run = run.listed(mock.list("/b"));
    assert_eq!(run.request(), Request::Done(false));
}

#[test]
fn a_run_takes_only_what_it_asked_for() {
    let mut mock = Mock::new();
    mock.dir("/a", &[("f", false)]);
    mock.dir("/b", &[("f", false)]);
    let run = dir_diff(options("/a", "/b", None, false));
    let run = run.read("stray".to_string());
    assert_eq!(run.request(), Request::List("/a".to_string()));
    let run = run.listed(mock.list("/a")).listed(mock.list("/b"));
    assert_eq!(run.request(), Request::Read("/a/f".to_string()));
    let run = run.listed(vec![]);
    assert_eq!(run.request(), Request::Read("/a/f".to_string()));
    let run = run.read("one".to_string());
    assert_eq!(run.request(), Request::Read("/b/f".to_string()));
    let run = run.read("two".to_string());
    assert_eq!(run.request(), Request::Done(true));
    let run = run.read("one".to_string());
    assert_eq!(run.request(), Request::Done(true));
}

#[test]
fn file_diff_compares_the_whole_text() {
    assert_eq!(file_diff(&"".to_string(), &"".to_string()), false);
    assert_eq!(file_diff(&"abc".to_string(), &"abc".to_string()), false);
    assert_eq!(file_diff(&"abc".to_string(), &"abd".to_string()), true);
    assert_eq!(file_diff(&"abc".to_string(), &"abc\n".to_string()), true);
    assert_eq!(file_diff(&"".to_string(), &" ".to_string()), true);
}
