use std::collections::HashMap;

use tree_rust::{Args, DirectoryEntry, Step, TreeDisplay, TreeError};

/// A tree held in memory, listed in the order in which it is written down.
enum Node {
    File(&'static str),
    Dir(&'static str, Vec<Node>),
    Locked(&'static str, &'static str),
}

use Node::{Dir, File, Locked};

type Listing = Result<Vec<(String, bool)>, String>;

struct Disk {
    listings: HashMap<String, Listing>,
}

fn put(listings: &mut HashMap<String, Listing>, path: &str, children: &[Node]) {
    let mut here = Vec::new();
    for child in children {
        match child {
            File(name) => here.push((name.to_string(), false)),
            Dir(name, below) => {
                here.push((name.to_string(), true));
                put(listings, &format!("{}/{}", path, name), below);
            }
            Locked(name, reason) => {
                here.push((name.to_string(), true));
                listings.insert(format!("{}/{}", path, name), Err(reason.to_string()));
            }
        }
    }
    listings.insert(path.to_string(), Ok(here));
}

fn disk(path: &str, children: &[Node]) -> Disk {
    let mut listings = HashMap::new();
    put(&mut listings, path, children);
    Disk { listings }
}

fn base_name(path: &str) -> &str {
    match path.rfind('/') {
        Some(at) => &path[at + 1..],
        None => path,
    }
}

struct Run {
    lines: Vec<String>,
    asked: Vec<String>,
    error: Option<TreeError>,
}

impl Run {
    fn text(&self) -> String {
        let mut text = String::new();
        for line in &self.lines {
            text.push_str(line);
            text.push('\n');
        }
        text
    }
}

/// Takes a walk to its end the way a program would, with the listings of `disk`.
fn render(display: &TreeDisplay, disk: &Disk, path: &str) -> Run {
    let mut run = Run { lines: Vec::new(), asked: Vec::new(), error: None };
    let exists = disk.listings.contains_key(path);
    let mut step = match display.display(path, base_name(path), exists) {
        Ok(step) => step,
        Err(error) => {
            run.error = Some(error);
            return run;
        }
    };
    loop {
        let walk = match step {
            Step::Finished => return run,
            Step::Line { text, walk } => {
                run.lines.push(text);
                walk
            }
            Step::Open { text, request } => {
                run.lines.push(text);
                let dir = request.path().clone();
                run.asked.push(dir.clone());
                let listing = match disk.listings.get(&dir) {
                    Some(Ok(entries)) => Ok(entries
                        .iter()
                        .map(|(name, is_dir)| {
                            DirectoryEntry::new(name.clone(), *is_dir, format!("{}/{}", dir, name))
                        })
                        .collect()),
                    Some(Err(reason)) => Err(reason.clone()),
                    None => Err(String::from("No such file or directory (os error 2)")),
                };
                match request.supply(listing) {
                    Ok(walk) => walk,
                    Err(error) => {
                        run.error = Some(error);
                        return run;
                    }
                }
            }
        };
        step = walk.step();
    }
}

fn project() -> Disk {
    disk(
        ".",
        &[
            File("README.md"),
            Dir("src", vec![File("main.rs"), File("lib.rs"), File("args.rs"), File("tree.rs")]),
            Dir("docs", vec![File("usage.md")]),
            Dir("tests", vec![File("integration_tests.rs")]),
            File("Cargo.toml"),
        ],
    )
}

#[test]
fn test_basic_tree_display() {
    let run = render(&TreeDisplay::new(false, false, None), &project(), "./src");
    let stdout = run.text();
    assert!(run.error.is_none());
    assert!(stdout.contains("src/"));
    assert!(stdout.contains("main.rs"));
    assert!(stdout.contains("lib.rs"));
    assert!(stdout.contains("args.rs"));
    assert!(stdout.contains("tree.rs"));
}

#[test]
fn test_depth_limit() {
    let run = render(&TreeDisplay::new(false, false, Some(1)), &project(), ".");
    let stdout = run.text();
    assert!(stdout.contains("src/"));
    assert!(stdout.contains("docs/"));
    assert!(!stdout.contains("main.rs"));
}

#[test]
fn test_files_only_filter() {
    let run = render(&TreeDisplay::new(true, false, None), &project(), "./src");
    let stdout = run.text();
    assert!(stdout.contains("main.rs"));
    assert!(stdout.contains("lib.rs"));
    let lines: Vec<&str> = stdout.lines().collect();
    let file_lines: Vec<&str> = lines
        .iter()
        .filter(|line| !line.ends_with("/") || line.trim() == "src/")
        .copied()
        .collect();
    assert!(file_lines.len() > 1);
}

#[test]
fn test_dirs_only_filter() {
    let temp = disk("/tmp/t", &[Dir("subdir", vec![]), File("file.txt")]);
    let run = render(&TreeDisplay::new(false, true, None), &temp, "/tmp/t");
    let stdout = run.text();
    assert!(stdout.contains("subdir/"));
    assert!(!stdout.contains("file.txt"));
}

#[test]
fn test_nonexistent_path() {
    let run = render(&TreeDisplay::new(false, false, None), &project(), "/nonexistent/path");
    let error = run.error.expect("the rendering fails");
    assert!(error.message().contains("Path does not exist"));
    assert!(run.lines.is_empty());
}

#[test]
fn test_empty_directory() {
    let temp = disk("/tmp/empty", &[]);
    let run = render(&TreeDisplay::new(false, false, None), &temp, "/tmp/empty");
    let stdout = run.text();
    assert!(stdout.contains("/"));
    assert_eq!(stdout.lines().count(), 1);
}

#[test]
fn root_is_shown_under_every_setting() {
    let temp = disk("/srv/data", &[File("a"), Dir("b", vec![File("c")])]);
    for show_files in [false, true] {
        for show_dirs in [false, true] {
            for depth in [None, Some(0), Some(1), Some(7)] {
                let display = TreeDisplay::new(show_files, show_dirs, depth);
                let run = render(&display, &temp, "/srv/data");
                assert!(run.error.is_none());
                assert_eq!(run.lines[0], "data/");
            }
        }
    }
}

#[test]
fn root_without_a_base_name_is_a_bare_slash() {
    let root = TreeDisplay::new(false, false, Some(0)).display(".", "", true);
    match root {
        Ok(Step::Line { text, walk }) => {
            assert_eq!(text, "/");
            assert!(matches!(walk.step(), Step::Finished));
        }
        _ => panic!("a depth of zero asks for no listing"),
    }
}

#[test]
fn depth_zero_shows_the_root_alone_and_lists_nothing() {
    let run = render(&TreeDisplay::new(false, false, Some(0)), &project(), ".");
    assert_eq!(run.lines, vec!["./".to_string()]);
    assert!(run.asked.is_empty());
    assert!(run.error.is_none());
}

#[test]
fn depth_limit_bounds_the_levels_shown() {
    let deep = disk(
        "r",
        &[Dir("a", vec![Dir("b", vec![Dir("c", vec![Dir("d", vec![File("e")])])])])],
    );
    let one = render(&TreeDisplay::new(false, false, Some(1)), &deep, "r");
    assert_eq!(one.lines, vec!["r/", "└── a/"]);
    assert_eq!(one.asked, vec!["r"]);
    let two = render(&TreeDisplay::new(false, false, Some(2)), &deep, "r");
    assert_eq!(two.lines, vec!["r/", "└── a/", "    └── b/"]);
    assert_eq!(two.asked, vec!["r", "r/a"]);
    let three = render(&TreeDisplay::new(false, false, Some(3)), &deep, "r");
    assert_eq!(three.lines, vec!["r/", "└── a/", "    └── b/", "        └── c/"]);
    let all = render(&TreeDisplay::new(false, false, None), &deep, "r");
    assert_eq!(
        all.lines,
        vec![
            "r/",
            "└── a/",
            "    └── b/",
            "        └── c/",
            "            └── d/",
            "                └── e",
        ]
    );
    assert_eq!(all.asked, vec!["r", "r/a", "r/a/b", "r/a/b/c", "r/a/b/c/d"]);
}

#[test]
fn largest_depth_limit_is_as_good_as_none() {
    let limited = render(&TreeDisplay::new(false, false, Some(usize::MAX)), &project(), ".");
    let free = render(&TreeDisplay::new(false, false, None), &project(), ".");
    assert_eq!(limited.lines, free.lines);
}

#[test]
fn listing_is_ordered_by_the_bytes_of_the_names() {
    let temp = disk("d", &[File("b"), File("a"), File("C")]);
    let run = render(&TreeDisplay::new(false, false, None), &temp, "d");
    assert_eq!(run.lines, vec!["d/", "├── C", "├── a", "└── b"]);
}

#[test]
fn files_only_hides_directories_and_all_below_them() {
    let temp = disk(
        "root",
        &[
            File("z.txt"),
            Dir("sub", vec![File("inner.txt"), Dir("deep", vec![File("x")])]),
            File("a.txt"),
        ],
    );
    let run = render(&TreeDisplay::new(true, false, None), &temp, "root");
    assert_eq!(run.lines, vec!["root/", "├── a.txt", "└── z.txt"]);
    assert_eq!(run.asked, vec!["root"]);
}

#[test]
fn dirs_only_hides_files_at_every_level() {
    let temp = disk(
        "root",
        &[File("a.txt"), Dir("sub", vec![File("a.txt"), Dir("deep", vec![File("x")])])],
    );
    let run = render(&TreeDisplay::new(false, true, None), &temp, "root");
    assert_eq!(run.lines, vec!["root/", "└── sub/", "    └── deep/"]);
    assert_eq!(run.asked, vec!["root", "root/sub", "root/sub/deep"]);
}

#[test]
fn default_shows_files_and_directories() {
    let temp = disk("root", &[File("a.txt"), Dir("sub", vec![])]);
    let run = render(&TreeDisplay::new(false, false, None), &temp, "root");
    assert_eq!(run.lines, vec!["root/", "├── a.txt", "└── sub/"]);
}

#[test]
fn both_flags_show_files_and_directories() {
    let temp = disk("root", &[File("a.txt"), Dir("sub", vec![File("b.txt")])]);
    let both = render(&TreeDisplay::new(true, true, None), &temp, "root");
    let neither = render(&TreeDisplay::new(false, false, None), &temp, "root");
    assert_eq!(both.lines, vec!["root/", "├── a.txt", "└── sub/", "    └── b.txt"]);
    assert_eq!(both.lines, neither.lines);
}

#[test]
fn nonexistent_path_gives_the_error_with_the_path() {
    let first = TreeDisplay::new(false, false, None).display("/no/such", "such", false);
    match first {
        Err(TreeError::PathNotFound { path }) => assert_eq!(path, "/no/such"),
        _ => panic!("a missing root is an error"),
    }
    let first = TreeDisplay::new(true, false, Some(3)).display("/no/such", "such", false);
    let error = first.err().unwrap();
    assert_eq!(error.message(), "Path does not exist: /no/such");
    assert_eq!(error.path(), "/no/such");
}

#[test]
fn empty_directory_is_one_line() {
    let temp = disk("/data/empty", &[]);
    for display in [
        TreeDisplay::new(false, false, None),
        TreeDisplay::new(true, false, None),
        TreeDisplay::new(false, true, Some(4)),
    ] {
        let run = render(&display, &temp, "/data/empty");
        assert_eq!(run.lines, vec!["empty/"]);
        assert_eq!(run.asked, vec!["/data/empty"]);
        assert!(run.error.is_none());
    }
}

#[test]
fn file_and_subdirectory_scenario() {
    let temp = disk("root", &[File("a.txt"), Dir("sub", vec![File("b.txt")])]);
    let run = render(&TreeDisplay::new(false, false, None), &temp, "root");
    assert_eq!(run.text(), "root/\n├── a.txt\n└── sub/\n    └── b.txt\n");
}

#[test]
fn entries_below_a_middle_directory_continue_the_bar() {
    let temp = disk(
        "root",
        &[Dir("a", vec![File("x"), Dir("y", vec![File("z")])]), File("b")],
    );
    let run = render(&TreeDisplay::new(false, false, None), &temp, "root");
    assert_eq!(
        run.lines,
        vec!["root/", "├── a/", "│   ├── x", "│   └── y/", "│       └── z", "└── b"]
    );
}

#[test]
fn last_mark_goes_by_the_unfiltered_listing() {
    let temp = disk("root", &[File("a.txt"), File("b.txt"), Dir("zdir", vec![File("c")])]);
    let files = render(&TreeDisplay::new(true, false, None), &temp, "root");
    assert_eq!(files.lines, vec!["root/", "├── a.txt", "├── b.txt"]);
    let temp = disk("root", &[Dir("a", vec![Dir("k", vec![]), File("z")]), File("m")]);
    let dirs = render(&TreeDisplay::new(false, true, None), &temp, "root");
    assert_eq!(dirs.lines, vec!["root/", "├── a/", "│   ├── k/"]);
}

#[test]
fn failed_listing_ends_the_rendering_and_keeps_what_was_written() {
    let temp = disk(
        "root",
        &[
            File("a"),
            Locked("private", "Permission denied (os error 13)"),
            Dir("z", vec![File("y")]),
        ],
    );
    let run = render(&TreeDisplay::new(false, false, None), &temp, "root");
    assert_eq!(run.lines, vec!["root/", "├── a", "├── private/"]);
    match run.error {
        Some(TreeError::DirectoryReadError { ref path, ref reason }) => {
            assert_eq!(path, "root/private");
            assert_eq!(reason, "Permission denied (os error 13)");
        }
        _ => panic!("the listing of root/private fails"),
    }
    let error = run.error.unwrap();
    assert_eq!(error.message(), "Permission denied (os error 13)");
    assert_eq!(error.path(), "root/private");
}

#[test]
fn failed_listing_of_the_root_is_an_error_after_its_line() {
    let first = TreeDisplay::new(false, false, None).display("notes.txt", "notes.txt", true);
    let request = match first {
        Ok(Step::Open { text, request }) => {
            assert_eq!(text, "notes.txt/");
            request
        }
        _ => panic!("the root is listed"),
    };
    assert_eq!(request.path(), "notes.txt");
    let error = request.supply(Err(String::from("Not a directory (os error 20)"))).err().unwrap();
    assert!(matches!(error, TreeError::DirectoryReadError { .. }));
    assert_eq!(error.path(), "notes.txt");
}

#[test]
fn unlisted_directories_are_not_asked_for() {
    let temp = disk(
        "root",
        &[Locked("hidden", "Permission denied (os error 13)"), File("f")],
    );
    let files = render(&TreeDisplay::new(true, false, None), &temp, "root");
    assert!(files.error.is_none());
    assert_eq!(files.lines, vec!["root/", "├── f"]);
    let shallow = render(&TreeDisplay::new(false, false, Some(1)), &temp, "root");
    assert!(shallow.error.is_none());
    assert_eq!(shallow.lines, vec!["root/", "├── f", "└── hidden/"]);
}

#[test]
fn command_line_settings_carry_over() {
    let temp = disk("root", &[File("a.txt"), Dir("sub", vec![File("b.txt")])]);
    let args = Args {
        path: Some(String::from("root")),
        depth: Some(1),
        files_only: false,
        dirs_only: true,
    };
    let run = render(&args.tree_display(), &temp, "root");
    assert_eq!(run.lines, vec!["root/", "└── sub/"]);
    assert_eq!(args.tree_display().max_depth(), Some(1));
    let args = Args { path: None, depth: None, files_only: true, dirs_only: false };
    let run = render(&args.tree_display(), &temp, "root");
    assert_eq!(run.lines, vec!["root/", "├── a.txt"]);
    assert_eq!(args.tree_display().max_depth(), None);
}

#[test]
fn filter_of_single_entries() {
    let files = TreeDisplay::new(true, false, None);
    assert!(files.should_show(false));
    assert!(!files.should_show(true));
    let dirs = TreeDisplay::new(false, true, None);
    assert!(!dirs.should_show(false));
    assert!(dirs.should_show(true));
    for display in [TreeDisplay::new(false, false, None), TreeDisplay::new(true, true, None)] {
        assert!(display.should_show(false));
        assert!(display.should_show(true));
    }
}
