use tree_rust::line::{extend_prefix, format_entry, format_root};
use tree_rust::order::name_lt;
use tree_rust::sort::sort_entries;
use tree_rust::DirectoryEntry;

fn entry(name: &str, is_dir: bool) -> DirectoryEntry {
    DirectoryEntry::new(name.to_string(), is_dir, format!("/x/{}", name))
}

fn names(entries: &[DirectoryEntry]) -> Vec<&str> {
    entries.iter().map(|e| e.name.as_str()).collect()
}

#[test]
fn root_line_is_the_base_name_and_a_slash() {
    assert_eq!(format_root("src"), "src/");
    assert_eq!(format_root(""), "/");
    assert_eq!(format_root("mit leerzeichen"), "mit leerzeichen/");
}

#[test]
fn entry_line_joins_prefix_connector_and_name() {
    assert_eq!(format_entry("", false, &entry("a.txt", false)), "├── a.txt");
    assert_eq!(format_entry("", true, &entry("a.txt", false)), "└── a.txt");
    assert_eq!(format_entry("│   ", false, &entry("sub", true)), "│   ├── sub/");
    assert_eq!(format_entry("│       ", true, &entry("sub", true)), "│       └── sub/");
    assert_eq!(format_entry("    ", true, &entry("", false)), "    └── ");
}

#[test]
fn connectors_and_fillers_are_four_characters_wide() {
    assert_eq!(format_entry("", false, &entry("", false)).chars().count(), 4);
    assert_eq!(format_entry("", true, &entry("", false)).chars().count(), 4);
    assert_eq!(extend_prefix("", false).chars().count(), 4);
    assert_eq!(extend_prefix("", true).chars().count(), 4);
}

#[test]
fn prefix_grows_by_a_bar_or_by_blanks() {
    assert_eq!(extend_prefix("", false), "│   ");
    assert_eq!(extend_prefix("", true), "    ");
    assert_eq!(extend_prefix("│   ", true), "│       ");
    assert_eq!(extend_prefix("    ", false), "    │   ");
}

#[test]
fn names_compare_by_their_bytes() {
    assert!(name_lt("C", "a"));
    assert!(name_lt("a", "b"));
    assert!(!name_lt("b", "a"));
    assert!(!name_lt("a", "a"));
    assert!(name_lt("", "a"));
    assert!(!name_lt("a", ""));
    assert!(!name_lt("", ""));
    assert!(name_lt("ab", "abc"));
    assert!(!name_lt("abc", "ab"));
    assert!(name_lt("Z", "a"));
    assert!(name_lt("a10", "a9"));
    assert!(name_lt("z", "é"));
    assert!(name_lt("é", "日本"));
    assert!(name_lt(".hidden", "visible"));
}

#[test]
fn name_order_agrees_with_the_order_of_strings() {
    let samples =
        ["", "a", "A", "ab", "abc", "b", "é", "日本", "~", "a b", "a/b", "Z9", "\u{10FFFF}"];
    for a in samples {
        for b in samples {
            assert_eq!(name_lt(a, b), a < b, "{:?} before {:?}", a, b);
        }
    }
}

#[test]
fn sorting_orders_by_name_and_keeps_every_entry() {
    let sorted = sort_entries(vec![
        entry("b", false),
        entry("a", true),
        entry("C", false),
        entry("abc", false),
        entry("ab", true),
    ]);
    assert_eq!(names(&sorted), vec!["C", "a", "ab", "abc", "b"]);
    assert!(sorted[1].is_dir && sorted[2].is_dir && !sorted[0].is_dir);
    assert_eq!(sorted[3].full_path, "/x/abc");
}

#[test]
fn sorting_goes_by_the_name_and_not_by_the_path() {
    let sorted = sort_entries(vec![
        DirectoryEntry::new("b".to_string(), false, "/1/b".to_string()),
        DirectoryEntry::new("a".to_string(), false, "/2/a".to_string()),
    ]);
    assert_eq!(names(&sorted), vec!["a", "b"]);
}

#[test]
fn sorting_keeps_equal_names_in_their_order() {
    let sorted = sort_entries(vec![
        DirectoryEntry::new("same".to_string(), false, "first".to_string()),
        DirectoryEntry::new("other".to_string(), false, "o".to_string()),
        DirectoryEntry::new("same".to_string(), true, "second".to_string()),
        DirectoryEntry::new("same".to_string(), false, "third".to_string()),
    ]);
    let paths: Vec<&str> = sorted.iter().map(|e| e.full_path.as_str()).collect();
    assert_eq!(paths, vec!["o", "first", "second", "third"]);
}

#[test]
fn sorting_nothing_or_one_entry_changes_nothing() {
    assert!(sort_entries(Vec::new()).is_empty());
    let one = sort_entries(vec![entry("only", true)]);
    assert_eq!(names(&one), vec!["only"]);
}

#[test]
fn sorting_a_long_listing() {
    let mut entries = Vec::new();
    for i in 0..500u32 {
        entries.push(entry(&format!("f{:03}", (i * 7919) % 500), i % 2 == 0));
    }
    let sorted = sort_entries(entries);
    assert_eq!(sorted.len(), 500);
    for (i, e) in sorted.iter().enumerate() {
        assert_eq!(e.name, format!("f{:03}", i));
    }
}

#[test]
fn sorting_ignores_the_order_of_the_listing() {
    let orders: [[&str; 4]; 4] = [
        ["src", "Cargo.toml", "README.md", ".git"],
        [".git", "README.md", "src", "Cargo.toml"],
        ["README.md", "src", ".git", "Cargo.toml"],
        ["Cargo.toml", ".git", "src", "README.md"],
    ];
    for order in orders {
        let sorted = sort_entries(order.iter().map(|name| entry(name, name.len() == 3)).collect());
        assert_eq!(names(&sorted), vec![".git", "Cargo.toml", "README.md", "src"]);
    }
}

#[test]
fn sorting_a_very_long_listing_is_quick() {
    let count: u64 = 200_000;
    let mut entries = Vec::new();
    for i in 0..count {
        entries.push(entry(&format!("{:06}", (i * 7_919_993) % count), false));
    }
    let sorted = sort_entries(entries);
    assert_eq!(sorted.len() as u64, count);
    for (i, e) in sorted.iter().enumerate() {
        assert_eq!(e.name, format!("{:06}", i));
    }
}
