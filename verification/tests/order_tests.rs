use fsgen::entry::{entry_precedes, sort_entries, DirectoryEntry};
use fsgen::filter::{holds_name, is_shown, retain_shown, Filters};
use fsgen::line::{child_prefix, connector_text, entry_line, error_line, header_line, segment_text};
use fsgen::names::name_precedes;

fn entry(name: &str, is_directory: bool) -> DirectoryEntry {
    DirectoryEntry { name: name.to_string(), is_directory, path: format!("/t/{}", name) }
}

fn names(entries: &[DirectoryEntry]) -> Vec<String> {
    entries.iter().map(|e| e.name.clone()).collect()
}

#[test]
fn names_in_code_point_order() {
    assert!(name_precedes("a", "b"));
    assert!(!name_precedes("b", "a"));
    assert!(!name_precedes("a", "a"));
    assert!(name_precedes("", "a"));
    assert!(!name_precedes("a", ""));
    assert!(!name_precedes("", ""));
    assert!(name_precedes("ab", "abc"));
    assert!(!name_precedes("abc", "ab"));
    assert!(name_precedes("abc", "abd"));
    assert!(name_precedes("Zebra", "apple"));
    assert!(name_precedes("README.md", "docs"));
    assert!(name_precedes("file10", "file2"));
    assert!(name_precedes("z", "é"));
    assert!(name_precedes("é", "日本"));
    assert!(!name_precedes("日本", "é"));
}

#[test]
fn names_order_as_strings_do() {
    let samples = ["", "a", "A", "ab", "b", "é", "e", "日本", "𝄞", "~", "a b", "a-b", "_x", ".git"];
    for a in samples {
        for b in samples {
            assert_eq!(name_precedes(a, b), a < b, "{:?} {:?}", a, b);
        }
    }
}

#[test]
fn directories_precede_files() {
    assert!(entry_precedes(&entry("z", true), &entry("a", false)));
    assert!(!entry_precedes(&entry("a", false), &entry("z", true)));
    assert!(entry_precedes(&entry("a", true), &entry("b", true)));
    assert!(entry_precedes(&entry("a", false), &entry("b", false)));
    assert!(!entry_precedes(&entry("a", true), &entry("a", true)));
}

#[test]
fn sort_puts_directories_first_then_names() {
    let sorted = sort_entries(vec![
        entry("main.rs", false),
        entry("target", true),
        entry("Cargo.toml", false),
        entry(".git", true),
        entry("src", true),
        entry("README.md", false),
    ]);
    assert_eq!(names(&sorted), vec![".git", "src", "target", "Cargo.toml", "README.md", "main.rs"]);
    assert!(sorted[..3].iter().all(|e| e.is_directory));
    assert!(sorted[3..].iter().all(|e| !e.is_directory));
}

#[test]
fn sort_keeps_every_entry() {
    let sorted = sort_entries(vec![entry("b", false), entry("a", false), entry("b", false), entry("a", true)]);
    assert_eq!(names(&sorted), vec!["a", "a", "b", "b"]);
    assert!(sorted[0].is_directory);
    assert_eq!(sort_entries(vec![]).len(), 0);
}

#[test]
fn sort_keeps_equal_entries_in_place() {
    let mut first = entry("same", false);
    first.path = "one".to_string();
    let mut second = entry("same", false);
    second.path = "two".to_string();
    let sorted = sort_entries(vec![first, entry("z", false), second, entry("a", false)]);
    assert_eq!(names(&sorted), vec!["a", "same", "same", "z"]);
    assert_eq!(sorted[1].path, "one");
    assert_eq!(sorted[2].path, "two");
}

fn filters(skip_dirs: &[&str], skip_files: &[&str], show_files: bool) -> Filters {
    Filters {
        skip_dirs: skip_dirs.iter().map(|s| s.to_string()).collect(),
        skip_files: skip_files.iter().map(|s| s.to_string()).collect(),
        show_files,
    }
}

#[test]
fn holds_name_finds_exact_names() {
    let list = vec!["target".to_string(), ".git".to_string()];
    assert!(holds_name(&list, &"target".to_string()));
    assert!(holds_name(&list, &".git".to_string()));
    assert!(!holds_name(&list, &"Target".to_string()));
    assert!(!holds_name(&list, &"targe".to_string()));
    assert!(!holds_name(&vec![], &"target".to_string()));
}

#[test]
fn shown_by_kind_and_name() {
    let f = filters(&["target"], &["Cargo.lock"], true);
    assert!(!is_shown(&entry("target", true), &f));
    assert!(is_shown(&entry("target", false), &f));
    assert!(!is_shown(&entry("Cargo.lock", false), &f));
    assert!(is_shown(&entry("Cargo.lock", true), &f));
    assert!(is_shown(&entry("src", true), &f));
    let hidden = filters(&[], &[], false);
    assert!(is_shown(&entry("src", true), &hidden));
    assert!(!is_shown(&entry("main.rs", false), &hidden));
}

#[test]
fn retain_keeps_order_and_drops_skipped() {
    let f = filters(&["b"], &["d"], true);
    let kept = retain_shown(
        vec![entry("a", true), entry("b", true), entry("c", false), entry("d", false), entry("b", false)],
        &f,
    );
    assert_eq!(names(&kept), vec!["a", "c", "b"]);
    let none = retain_shown(vec![entry("c", false), entry("d", false)], &filters(&[], &[], false));
    assert_eq!(none.len(), 0);
}

#[test]
fn connectors_and_segments() {
    assert_eq!(connector_text(true), "└── ");
    assert_eq!(connector_text(false), "├── ");
    assert_eq!(segment_text(true), "    ");
    assert_eq!(segment_text(false), "│   ");
    assert_eq!(connector_text(true).chars().count(), 4);
    assert_eq!(segment_text(false).chars().count(), 4);
}

#[test]
fn lines_are_prefix_connector_name() {
    assert_eq!(entry_line("", false, "src"), "├── src");
    assert_eq!(entry_line("", true, "src"), "└── src");
    assert_eq!(entry_line("│   ", true, "a b"), "│   └── a b");
    assert_eq!(entry_line("    │   ", false, ""), "    │   ├── ");
    assert_eq!(child_prefix("", true), "    ");
    assert_eq!(child_prefix("", false), "│   ");
    assert_eq!(child_prefix("│   ", true), "│       ");
    assert_eq!(child_prefix("    ", false), "    │   ");
}

#[test]
fn error_and_header_lines() {
    assert_eq!(error_line("", "denied"), "├── Error reading directory: denied");
    assert_eq!(error_line("│   ", ""), "│   ├── Error reading directory: ");
    assert_eq!(header_line(Some("project")), "project");
    assert_eq!(header_line(Some("")), "");
    assert_eq!(header_line(None), ".");
}
