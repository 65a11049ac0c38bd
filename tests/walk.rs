use dirtree::model::{Entry, Kind, Line, Link, Listing, Request};
use dirtree::order::{arrange, is_hidden, is_shown, name_less};
use dirtree::render::{report, walk};
use dirtree::text::{decimal_string, summary_line};

fn entry(name: &str, kind: Kind, link: Link, listing: Listing) -> Entry {
    Entry {
        name: name.as_bytes().to_vec(),
        utf8: true,
        display: name.to_string(),
        kind,
        link,
        listing,
    }
}

fn file(name: &str) -> Entry {
    entry(name, Kind::File, Link::Plain, Listing::Unread)
}

fn dir(name: &str, kids: Vec<Entry>) -> Entry {
    entry(name, Kind::Dir, Link::Plain, Listing::Read(kids))
}

fn request(depth: Option<u32>, show_hidden: bool, follow_symlinks: bool) -> Request {
    Request { depth, show_hidden, follow_symlinks }
}

fn plain() -> Request {
    request(None, false, false)
}

fn tree_text(lines: &[Line]) -> Vec<String> {
    lines
        .iter()
        .filter_map(|l| match l {
            Line::Tree(t) => Some(t.clone()),
            Line::Diag(_) => None,
        })
        .collect()
}

fn diag_text(lines: &[Line]) -> Vec<String> {
    lines
        .iter()
        .filter_map(|l| match l {
            Line::Diag(t) => Some(t.clone()),
            Line::Tree(_) => None,
        })
        .collect()
}

fn run(root: &str, kids: Vec<Entry>, req: &Request) -> Vec<Line> {
    report(&root.to_string(), &Listing::Read(kids), req).expect("root lists")
}

#[test]
fn empty_dir_and_file_scenario() {
    let lines = run("root", vec![file("b.txt"), dir("a", vec![])], &plain());
    assert_eq!(
        tree_text(&lines),
        vec!["root", "\u{251C}\u{2500}\u{2500} a", "\u{2514}\u{2500}\u{2500} b.txt", "", "1 directory, 1 file"]
    );
    assert!(diag_text(&lines).is_empty());
}

#[test]
fn depth_zero_lists_nothing() {
    let lines = run("root", vec![file("x"), dir("d", vec![file("y")])], &request(Some(0), false, false));
    assert_eq!(tree_text(&lines), vec!["root", "", "0 directories, 0 files"]);
}

#[test]
fn depth_zero_never_reports_an_unreadable_root() {
    let r = report(&"root".to_string(), &Listing::Failed("root: denied".to_string()), &request(Some(0), false, false));
    assert!(r.is_ok());
}

#[test]
fn unreadable_root_is_an_error() {
    let r = report(&"root".to_string(), &Listing::Failed("root: Permission denied".to_string()), &plain());
    match r {
        Err(m) => assert_eq!(m, "root: Permission denied"),
        Ok(_) => panic!("expected an error"),
    }
}

#[test]
fn unreadable_child_does_not_stop_the_walk() {
    let locked = entry("locked", Kind::Dir, Link::Plain, Listing::Failed("root/locked: Permission denied".to_string()));
    let lines = run("root", vec![file("z.txt"), locked, dir("after", vec![file("inner")])], &plain());
    assert_eq!(
        tree_text(&lines),
        vec![
            "root",
            "\u{251C}\u{2500}\u{2500} after",
            "\u{2502}   \u{2514}\u{2500}\u{2500} inner",
            "\u{251C}\u{2500}\u{2500} locked",
            "\u{2514}\u{2500}\u{2500} z.txt",
            "",
            "2 directories, 2 files",
        ]
    );
    assert_eq!(diag_text(&lines), vec!["root/locked: Permission denied"]);
}

#[test]
fn symlink_to_dir_is_counted_but_not_entered() {
    let link = entry(
        "link",
        Kind::Dir,
        Link::Target("target".to_string()),
        Listing::Read(vec![file("hidden_inside")]),
    );
    let lines = run("root", vec![link], &plain());
    assert_eq!(
        tree_text(&lines),
        vec!["root", "\u{2514}\u{2500}\u{2500} link -> target", "", "1 directory, 0 files"]
    );
}

#[test]
fn symlink_to_dir_is_entered_when_followed() {
    let link = entry("link", Kind::Dir, Link::Target("target".to_string()), Listing::Read(vec![file("f")]));
    let lines = run("root", vec![link], &request(None, false, true));
    assert_eq!(
        tree_text(&lines),
        vec![
            "root",
            "\u{2514}\u{2500}\u{2500} link -> target",
            "    \u{2514}\u{2500}\u{2500} f",
            "",
            "1 directory, 1 file",
        ]
    );
}

#[test]
fn unresolved_link_reports_and_omits_target() {
    let link = entry("broken", Kind::Other, Link::Unresolved("root/broken: gone".to_string()), Listing::Unread);
    let lines = run("root", vec![link, file("ok")], &plain());
    assert_eq!(
        tree_text(&lines),
        vec!["root", "\u{251C}\u{2500}\u{2500} broken", "\u{2514}\u{2500}\u{2500} ok", "", "0 directories, 1 file"]
    );
    assert_eq!(diag_text(&lines), vec!["root/broken: gone"]);
}

#[test]
fn other_entries_are_shown_but_not_counted() {
    let fifo = entry("pipe", Kind::Other, Link::Plain, Listing::Unread);
    let lines = run("root", vec![fifo], &plain());
    assert_eq!(tree_text(&lines), vec!["root", "\u{2514}\u{2500}\u{2500} pipe", "", "0 directories, 0 files"]);
}

#[test]
fn hidden_entries_are_filtered_unless_asked() {
    let kids = || vec![file(".env"), dir(".git", vec![file("HEAD")]), file("main.rs")];
    let lines = run("root", kids(), &plain());
    assert_eq!(tree_text(&lines), vec!["root", "\u{2514}\u{2500}\u{2500} main.rs", "", "0 directories, 1 file"]);
    let lines = run("root", kids(), &request(None, true, false));
    assert_eq!(
        tree_text(&lines),
        vec![
            "root",
            "\u{251C}\u{2500}\u{2500} .env",
            "\u{251C}\u{2500}\u{2500} .git",
            "\u{2502}   \u{2514}\u{2500}\u{2500} HEAD",
            "\u{2514}\u{2500}\u{2500} main.rs",
            "",
            "1 directory, 3 files",
        ]
    );
}

#[test]
fn sibling_after_nested_dir_drops_its_fragment() {
    let tree = vec![
        dir("a", vec![dir("b", vec![file("c")]), file("d")]),
        file("e"),
    ];
    let lines = run(".", tree, &plain());
    assert_eq!(
        tree_text(&lines),
        vec![
            ".",
            "\u{251C}\u{2500}\u{2500} a",
            "\u{2502}   \u{251C}\u{2500}\u{2500} b",
            "\u{2502}   \u{2502}   \u{2514}\u{2500}\u{2500} c",
            "\u{2502}   \u{2514}\u{2500}\u{2500} d",
            "\u{2514}\u{2500}\u{2500} e",
            "",
            "2 directories, 3 files",
        ]
    );
}

#[test]
fn depth_one_counts_dirs_without_entering() {
    let tree = vec![dir("a", vec![file("deep")]), file("b")];
    let lines = run("r", tree, &request(Some(1), false, false));
    assert_eq!(
        tree_text(&lines),
        vec!["r", "\u{251C}\u{2500}\u{2500} a", "\u{2514}\u{2500}\u{2500} b", "", "1 directory, 1 file"]
    );
}

#[test]
fn order_is_by_bytes() {
    let tree = vec![file("b"), file("a"), file("B"), file("ab"), file("a")];
    let lines = run("r", tree, &plain());
    let names: Vec<String> = tree_text(&lines)[1..6].iter().map(|l| l.chars().skip(4).collect()).collect();
    assert_eq!(names, vec!["B", "a", "a", "ab", "b"]);
}

#[test]
fn running_twice_gives_the_same_output() {
    let make = || vec![dir("x", vec![file("1"), file("2")]), file("y")];
    let a = tree_text(&run("r", make(), &plain()));
    let b = tree_text(&run("r", make(), &plain()));
    assert_eq!(a, b);
}

#[test]
fn one_line_per_shown_entry_within_depth() {
    let tree = vec![
        dir("a", vec![dir("b", vec![file("c"), file("d")]), file("e")]),
        file("f"),
        file(".g"),
    ];
    let mut out = Vec::new();
    let s = walk(&tree, &String::new(), None, &plain(), &mut out);
    assert_eq!(tree_text(&out).len(), 6);
    assert_eq!((s.dirs, s.files), (2, 4));
    let mut out = Vec::new();
    let s = walk(&tree, &String::new(), Some(2), &plain(), &mut out);
    assert_eq!(tree_text(&out).len(), 4);
    assert_eq!((s.dirs, s.files), (2, 2));
    let mut out = Vec::new();
    let s = walk(&tree, &String::new(), Some(1), &plain(), &mut out);
    assert_eq!(tree_text(&out).len(), 2);
    assert_eq!((s.dirs, s.files), (1, 1));
}

#[test]
fn counts_match_full_enumeration() {
    let tree = vec![
        dir(".cfg", vec![file("x"), dir("y", vec![file(".z")])]),
        file("w"),
        entry("sock", Kind::Other, Link::Plain, Listing::Unread),
    ];
    let mut out = Vec::new();
    let s = walk(&tree, &String::new(), None, &request(None, true, false), &mut out);
    assert_eq!((s.dirs, s.files), (2, 3));
}

#[test]
fn walk_uses_the_given_prefix() {
    let tree = vec![file("a"), file("b")];
    let mut out = Vec::new();
    walk(&tree, &"P".to_string(), None, &plain(), &mut out);
    assert_eq!(tree_text(&out), vec!["P\u{251C}\u{2500}\u{2500} a", "P\u{2514}\u{2500}\u{2500} b"]);
}

#[test]
fn summary_pluralises() {
    assert_eq!(summary_line(1, 1), "1 directory, 1 file");
    assert_eq!(summary_line(0, 0), "0 directories, 0 files");
    assert_eq!(summary_line(2, 10), "2 directories, 10 files");
    assert_eq!(summary_line(11, 1), "11 directories, 1 file");
}

#[test]
fn decimal_digits() {
    assert_eq!(decimal_string(0), "0");
    assert_eq!(decimal_string(7), "7");
    assert_eq!(decimal_string(1234567890), "1234567890");
    assert_eq!(decimal_string(u64::MAX), "18446744073709551615");
}

#[test]
fn hidden_names() {
    assert!(is_hidden(&b".git".to_vec(), true));
    assert!(is_hidden(&b".".to_vec(), true));
    assert!(!is_hidden(&b"git".to_vec(), true));
    assert!(!is_hidden(&Vec::new(), true));
    assert!(!is_hidden(&vec![0x2E, 0xFF], false));
}

#[test]
fn name_order() {
    assert!(name_less(&b"a".to_vec(), &b"b".to_vec()));
    assert!(name_less(&b"a".to_vec(), &b"a.txt".to_vec()));
    assert!(!name_less(&b"a".to_vec(), &b"a".to_vec()));
    assert!(name_less(&b"Z".to_vec(), &b"a".to_vec()));
    assert!(!name_less(&b"b".to_vec(), &b"ab".to_vec()));
    assert!(name_less(&Vec::new(), &b"a".to_vec()));
}

#[test]
fn arrange_sorts_and_filters() {
    let kids = vec![file("c"), file(".h"), file("a"), file("b"), file("a")];
    assert_eq!(arrange(&kids, false), vec![2, 4, 3, 0]);
    assert_eq!(arrange(&kids, true), vec![1, 2, 4, 3, 0]);
    assert_eq!(arrange(&Vec::new(), false), Vec::<usize>::new());
}

#[test]
fn name_that_is_not_text_is_never_hidden() {
    let odd = Entry {
        name: vec![0x2E, 0xFF],
        utf8: false,
        display: ".\u{FFFD}".to_string(),
        kind: Kind::File,
        link: Link::Plain,
        listing: Listing::Unread,
    };
    assert!(is_shown(&odd, false));
    let lines = run("root", vec![odd, file(".hidden")], &plain());
    assert_eq!(
        tree_text(&lines),
        vec!["root", "\u{2514}\u{2500}\u{2500} .\u{FFFD}", "", "0 directories, 1 file"]
    );
}

#[test]
fn shown_entries() {
    assert!(!is_shown(&file(".env"), false));
    assert!(is_shown(&file(".env"), true));
    assert!(is_shown(&file("env"), false));
}
