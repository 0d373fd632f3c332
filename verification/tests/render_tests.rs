use fsgen::entry::DirectoryEntry;
use fsgen::filter::Filters;
use fsgen::render::{Listing, Renderer};

fn dir(parent: &str, name: &str) -> DirectoryEntry {
    DirectoryEntry { name: name.to_string(), is_directory: true, path: format!("{}/{}", parent, name) }
}

fn file(parent: &str, name: &str) -> DirectoryEntry {
    DirectoryEntry { name: name.to_string(), is_directory: false, path: format!("{}/{}", parent, name) }
}

fn filters(skip_dirs: &[&str], skip_files: &[&str], show_files: bool) -> Filters {
    Filters {
        skip_dirs: skip_dirs.iter().map(|s| s.to_string()).collect(),
        skip_files: skip_files.iter().map(|s| s.to_string()).collect(),
        show_files,
    }
}

/// Draws a tree that `list` describes, and notes each path that was read.
fn draw(
    base: Option<&str>,
    root: &str,
    filters: Filters,
    list: fn(&str) -> Listing,
) -> (Vec<String>, Vec<String>) {
    let (mut renderer, header) = Renderer::start(base, root.to_string(), filters);
    let mut lines = vec![header];
    let mut read = Vec::new();
    loop {
        let awaited = renderer.awaited_path().cloned();
        match awaited {
            Some(path) => {
                read.push(path.clone());
                if let Some(line) = renderer.enter(list(&path)) {
                    lines.push(line);
                }
            }
            None => match renderer.next_line() {
                Some(line) => lines.push(line),
                None => break,
            },
        }
        assert!(lines.len() < 1000);
    }
    (lines, read)
}

fn project(path: &str) -> Listing {
    match path {
        "project" => Listing::Entries(vec![
            file("project", "README.md"),
            dir("project", "src"),
            dir("project", "docs"),
        ]),
        _ => Listing::Entries(vec![]),
    }
}

#[test]
fn project_without_filters() {
    let (lines, read) = draw(Some("project"), "project", filters(&[], &[], true), project);
    assert_eq!(lines, vec!["project", "├── docs", "├── src", "└── README.md"]);
    assert_eq!(read, vec!["project", "project/docs", "project/src"]);
}

#[test]
fn project_skipping_docs() {
    let (lines, read) = draw(Some("project"), "project", filters(&["docs"], &[], true), project);
    assert_eq!(lines, vec!["project", "├── src", "└── README.md"]);
    assert_eq!(read, vec!["project", "project/src"]);
}

#[test]
fn project_without_files() {
    let (lines, _) = draw(Some("project"), "project", filters(&[], &[], false), project);
    assert_eq!(lines, vec!["project", "├── docs", "└── src"]);
}

#[test]
fn project_skipping_the_last_file() {
    let (lines, _) = draw(Some("project"), "project", filters(&[], &["README.md"], true), project);
    assert_eq!(lines, vec!["project", "├── docs", "└── src"]);
}

#[test]
fn skip_lists_go_by_kind() {
    // a file named like a skipped directory stays, and the other way round
    let (lines, _) =
        draw(Some("project"), "project", filters(&["README.md"], &["docs", "src"], true), project);
    assert_eq!(lines, vec!["project", "├── docs", "├── src", "└── README.md"]);
}

#[test]
fn root_is_never_skipped() {
    let (lines, _) = draw(Some("project"), "project", filters(&["project"], &["project"], false), project);
    assert_eq!(lines[0], "project");
    assert_eq!(lines.len(), 3);
}

#[test]
fn header_without_base_name() {
    let (lines, read) = draw(None, "..", filters(&[], &[], true), |_| Listing::Entries(vec![]));
    assert_eq!(lines, vec!["."]);
    assert_eq!(read, vec![".."]);
}

fn with_locked(path: &str) -> Listing {
    match path {
        "root" => Listing::Entries(vec![
            file("root", "z.txt"),
            dir("root", "open"),
            dir("root", "locked"),
        ]),
        "root/locked" => Listing::Failed("Permission denied (os error 13)".to_string()),
        "root/open" => Listing::Entries(vec![file("root/open", "a.txt")]),
        _ => Listing::Entries(vec![]),
    }
}

#[test]
fn unreadable_subdirectory() {
    let (lines, _) = draw(Some("root"), "root", filters(&[], &[], true), with_locked);
    assert_eq!(
        lines,
        vec![
            "root",
            "├── locked",
            "│   ├── Error reading directory: Permission denied (os error 13)",
            "├── open",
            "│   └── a.txt",
            "└── z.txt",
        ]
    );
}

#[test]
fn unreadable_root() {
    let (lines, _) =
        draw(Some("gone"), "gone", filters(&[], &[], true), |_| Listing::Failed("No such file".to_string()));
    assert_eq!(lines, vec!["gone", "├── Error reading directory: No such file"]);
}

#[test]
fn unreadable_last_subdirectory() {
    let (lines, _) = draw(Some("root"), "root", filters(&[], &[], false), |p| match p {
        "root" => Listing::Entries(vec![dir("root", "only")]),
        _ => Listing::Failed("denied".to_string()),
    });
    assert_eq!(lines, vec!["root", "└── only", "    ├── Error reading directory: denied"]);
}

fn nested(path: &str) -> Listing {
    match path {
        "r" => Listing::Entries(vec![dir("r", "c"), dir("r", "a")]),
        "r/a" => Listing::Entries(vec![file("r/a", "x.txt"), dir("r/a", "b")]),
        "r/a/b" => Listing::Entries(vec![file("r/a/b", "deep.txt")]),
        "r/c" => Listing::Entries(vec![file("r/c", "y.txt"), dir("r/c", "d")]),
        "r/c/d" => Listing::Entries(vec![file("r/c/d", "last.txt"), file("r/c/d", "first.txt")]),
        _ => Listing::Entries(vec![]),
    }
}

#[test]
fn nested_prefixes() {
    let (lines, read) = draw(Some("r"), "r", filters(&[], &[], true), nested);
    assert_eq!(
        lines,
        vec![
            "r",
            "├── a",
            "│   ├── b",
            "│   │   └── deep.txt",
            "│   └── x.txt",
            "└── c",
            "    ├── d",
            "    │   ├── first.txt",
            "    │   └── last.txt",
            "    └── y.txt",
        ]
    );
    assert_eq!(read, vec!["r", "r/a", "r/a/b", "r/c", "r/c/d"]);
}

#[test]
fn nested_without_files() {
    let (lines, _) = draw(Some("r"), "r", filters(&[], &[], false), nested);
    assert_eq!(lines, vec!["r", "├── a", "│   └── b", "└── c", "    └── d"]);
}

#[test]
fn nested_skipping_a_subtree() {
    let (lines, read) = draw(Some("r"), "r", filters(&["c"], &["x.txt"], true), nested);
    assert_eq!(lines, vec!["r", "└── a", "    └── b", "        └── deep.txt"]);
    assert_eq!(read, vec!["r", "r/a", "r/a/b"]);
}

#[test]
fn same_tree_twice_gives_same_lines() {
    let first = draw(Some("r"), "r", filters(&["d"], &[], true), nested);
    let second = draw(Some("r"), "r", filters(&["d"], &[], true), nested);
    assert_eq!(first, second);
}

#[test]
fn one_elbow_in_each_group() {
    let (lines, _) = draw(Some("r"), "r", filters(&[], &[], true), nested);
    // five groups of siblings: the children of r, a, b, c and d
    let elbows = lines.iter().filter(|l| l.contains("└── ")).count();
    let tees = lines.iter().filter(|l| l.contains("├── ")).count();
    assert_eq!(elbows, 5);
    assert_eq!(tees, 4);
}

#[test]
fn indentation_is_four_characters_a_level() {
    let (lines, _) = draw(Some("r"), "r", filters(&[], &[], true), nested);
    let depth_of = |line: &str| -> usize {
        let chars: Vec<char> = line.chars().collect();
        let at = chars.iter().position(|c| *c == '├' || *c == '└').unwrap();
        assert_eq!(at % 4, 0);
        for segment in chars[..at].chunks(4) {
            let s: String = segment.iter().collect();
            assert!(s == "    " || s == "│   ");
        }
        at / 4
    };
    assert_eq!(depth_of(&lines[1]), 0);
    assert_eq!(depth_of(&lines[2]), 1);
    assert_eq!(depth_of(&lines[3]), 2);
    assert_eq!(depth_of(&lines[7]), 2);
    assert_eq!(depth_of(&lines[9]), 1);
}

#[test]
fn empty_root() {
    let (lines, _) = draw(Some("empty"), "empty", filters(&[], &[], true), |_| Listing::Entries(vec![]));
    assert_eq!(lines, vec!["empty"]);
}

#[test]
fn steps_one_by_one() {
    let (mut r, header) = Renderer::start(Some("project"), "some/where/project".to_string(), filters(&[], &[], true));
    assert_eq!(header, "project");
    assert_eq!(r.awaited_path().cloned(), Some("some/where/project".to_string()));
    assert_eq!(r.enter(project("project")), None);
    assert_eq!(r.awaited_path(), None);
    assert_eq!(r.next_line(), Some("├── docs".to_string()));
    assert_eq!(r.awaited_path().cloned(), Some("project/docs".to_string()));
    assert_eq!(r.enter(Listing::Failed("busy".to_string())), Some("│   ├── Error reading directory: busy".to_string()));
    assert_eq!(r.awaited_path(), None);
    assert_eq!(r.next_line(), Some("├── src".to_string()));
    assert_eq!(r.enter(Listing::Entries(vec![])), None);
    assert_eq!(r.next_line(), Some("└── README.md".to_string()));
    assert_eq!(r.awaited_path(), None);
    assert_eq!(r.next_line(), None);
    assert_eq!(r.next_line(), None);
}

fn nested_without_c_and_x(path: &str) -> Listing {
    match path {
        "r" => Listing::Entries(vec![dir("r", "a")]),
        "r/a" => Listing::Entries(vec![dir("r/a", "b")]),
        "r/a/b" => Listing::Entries(vec![file("r/a/b", "deep.txt")]),
        _ => Listing::Failed("not there".to_string()),
    }
}

#[test]
fn skipped_entries_are_as_if_absent() {
    let (with_filters, _) = draw(Some("r"), "r", filters(&["c"], &["x.txt"], true), nested);
    let (without, _) = draw(Some("r"), "r", filters(&[], &[], true), nested_without_c_and_x);
    assert_eq!(with_filters, without);
}

#[test]
fn skip_lists_are_sets() {
    let (once, _) = draw(Some("r"), "r", filters(&["c", "b"], &["x.txt"], true), nested);
    let (twice, _) =
        draw(Some("r"), "r", filters(&["b", "c", "b", "c"], &["x.txt", "x.txt"], true), nested);
    assert_eq!(once, twice);
    assert_eq!(once, vec!["r", "└── a"]);
}

#[test]
fn listing_order_does_not_matter() {
    let (lines, _) = draw(Some("p"), "p", filters(&[], &[], true), |_| {
        Listing::Entries(vec![file("p", "b"), file("p", "a"), file("p", "c")])
    });
    let (other, _) = draw(Some("p"), "p", filters(&[], &[], true), |_| {
        Listing::Entries(vec![file("p", "c"), file("p", "b"), file("p", "a")])
    });
    assert_eq!(lines, vec!["p", "├── a", "├── b", "└── c"]);
    assert_eq!(lines, other);
}
