use shelltools::text::Segment;
use shelltools::tree::{
    build_entry, build_tree, examines_children, is_executable_extension, is_executable_mode, needs_listing,
    render_tree, root_line, visibility, DirItem, NameStyle, TreeOptions,
};

fn opts() -> TreeOptions {
    TreeOptions {
        all: false,
        hide_name: vec![],
        depth: 1,
        file_count: false,
        file_sizes: false,
        folder_sizes: false,
        no_sort: false,
        folders_only: false,
        clean: false,
        filter: None,
    }
}

fn file(name: &str, len: u64) -> DirItem {
    DirItem {
        name: name.to_string(),
        raw_name: name.as_bytes().to_vec(),
        type_is_dir: false,
        is_symlink: false,
        is_dir: false,
        is_file: true,
        len,
        is_exec: false,
        link_target: None,
        children: None,
    }
}

fn dir(name: &str, children: Option<Vec<DirItem>>) -> DirItem {
    DirItem {
        name: name.to_string(),
        raw_name: name.as_bytes().to_vec(),
        type_is_dir: true,
        is_symlink: false,
        is_dir: true,
        is_file: false,
        len: 4096,
        is_exec: false,
        link_target: None,
        children,
    }
}

fn link(name: &str, target: Option<&str>) -> DirItem {
    DirItem {
        name: name.to_string(),
        raw_name: name.as_bytes().to_vec(),
        type_is_dir: false,
        is_symlink: true,
        is_dir: false,
        is_file: false,
        len: 12,
        is_exec: false,
        link_target: target.map(|t| t.to_string()),
        children: None,
    }
}

fn text(v: &[Segment]) -> String {
    v.iter().map(|s| s.text.as_str()).collect()
}

fn sample() -> Vec<DirItem> {
    vec![
        file("b.txt", 10),
        file(".hidden", 5),
        dir("a_dir", Some(vec![file("z.rs", 100), file("x.rs", 200), file(".secret", 7)])),
        link("link", Some("b.txt")),
    ]
}

#[test]
fn default_listing_hides_dotfiles_and_links() {
    let o = opts();
    let t = build_tree(&sample(), 0, &o).unwrap();
    let names: Vec<&str> = t.iter().map(|e| e.name.as_str()).collect();
    assert_eq!(names, vec![".hidden", "a_dir", "b.txt", "link"]);
    let shown: Vec<bool> = t.iter().map(|e| e.should_print).collect();
    assert_eq!(shown, vec![false, true, true, false]);
    assert!(t.iter().all(|e| e.children.is_empty()));
    assert_eq!(t[3].symlink_target.as_deref(), Some("b.txt"));
}

#[test]
fn no_sort_keeps_listing_order() {
    let mut o = opts();
    o.no_sort = true;
    let t = build_tree(&sample(), 0, &o).unwrap();
    let names: Vec<&str> = t.iter().map(|e| e.name.as_str()).collect();
    assert_eq!(names, vec!["b.txt", ".hidden", "a_dir", "link"]);
}

#[test]
fn depth_two_keeps_children() {
    let mut o = opts();
    o.depth = 2;
    let t = build_tree(&sample(), 0, &o).unwrap();
    let a = &t[1];
    assert_eq!(a.name, "a_dir");
    assert_eq!(a.child_count, 3);
    let kids: Vec<(&str, bool)> = a.children.iter().map(|e| (e.name.as_str(), e.should_print)).collect();
    assert_eq!(kids, vec![(".secret", false), ("x.rs", true), ("z.rs", true)]);
    assert_eq!(a.total_size, 307);
}

#[test]
fn past_max_depth_nothing_is_built() {
    let o = opts();
    assert!(build_tree(&sample(), 1, &o).unwrap().is_empty());
}

#[test]
fn folder_sizes_count_hidden_entries() {
    let mut o = opts();
    o.folder_sizes = true;
    o.file_count = true;
    let t = build_tree(&sample(), 0, &o).unwrap();
    let a = &t[1];
    assert_eq!(a.total_size, 307);
    assert_eq!(a.child_count, 3);
    assert!(a.children.is_empty());
    let root = root_line(&t, "/tmp/x", &o).unwrap();
    assert_eq!(root.size.as_deref(), Some(" 322.0 B"));
    assert_eq!(root.child_count, Some(4));
    assert_eq!(root.label, "/tmp/x");
    assert!(root.styled);
}

#[test]
fn hidden_by_name_directory_hides_children() {
    let mut o = opts();
    o.depth = 3;
    o.hide_name = vec!["a_dir".to_string()];
    let t = build_tree(&sample(), 0, &o).unwrap();
    let a = &t[1];
    assert!(!a.should_print);
    assert!(a.children.is_empty());
    assert_eq!(a.child_count, 0);
}

#[test]
fn all_shows_dotfiles_and_overrides_hidden_names() {
    let mut o = opts();
    o.all = true;
    o.hide_name = vec!["b.txt".to_string()];
    let t = build_tree(&sample(), 0, &o).unwrap();
    let shown: Vec<(&str, bool)> = t.iter().map(|e| (e.name.as_str(), e.should_print)).collect();
    assert_eq!(shown, vec![(".hidden", true), ("a_dir", true), ("b.txt", true), ("link", false)]);
}

#[test]
fn hidden_names_apply_without_all() {
    let mut o = opts();
    o.hide_name = vec!["b.txt".to_string()];
    let t = build_tree(&sample(), 0, &o).unwrap();
    let shown: Vec<(&str, bool)> = t.iter().map(|e| (e.name.as_str(), e.should_print)).collect();
    assert_eq!(shown, vec![(".hidden", false), ("a_dir", true), ("b.txt", false), ("link", false)]);
}

#[test]
fn filter_finds_matches_below_hidden_directories() {
    let mut o = opts();
    o.depth = 3;
    o.filter = Some("x.rs".to_string());
    o.hide_name = vec!["a_dir".to_string()];
    let t = build_tree(&sample(), 0, &o).unwrap();
    let a = &t[1];
    assert!(a.should_print);
    let kids: Vec<(&str, bool)> = a.children.iter().map(|e| (e.name.as_str(), e.should_print)).collect();
    assert_eq!(kids, vec![(".secret", false), ("x.rs", true), ("z.rs", false)]);
    assert!(!t[2].should_print);
}

#[test]
fn rows_for_a_two_level_tree() {
    let mut o = opts();
    o.depth = 2;
    o.file_sizes = true;
    let t = build_tree(&sample(), 0, &o).unwrap();
    let rows = render_tree(&t, &o);
    let lines: Vec<String> = rows
        .iter()
        .map(|r| {
            let size = r.size.clone().map(|s| format!("{} ", s)).unwrap_or_default();
            let count = r.child_count.map(|c| format!(" ({})", c)).unwrap_or_default();
            format!("{}{}{}{}{}", r.lead, size, text(&r.name), r.suffix, count)
        })
        .collect();
    assert_eq!(
        lines,
        vec![
            " ├── a_dir/".to_string(),
            " │   ├──  200.0 B x.rs".to_string(),
            " │   └──  100.0 B z.rs".to_string(),
            " ├──   10.0 B b.txt".to_string(),
        ]
    );
    assert!(matches!(rows[0].style, NameStyle::Directory));
    assert!(matches!(rows[1].style, NameStyle::Normal));
}

#[test]
fn rows_show_links_and_clean_mode() {
    let mut o = opts();
    o.all = true;
    o.clean = true;
    let items = vec![file(".rc", 1), link("l", None)];
    let t = build_tree(&items, 0, &o).unwrap();
    let rows = render_tree(&t, &o);
    assert_eq!(rows.len(), 1);
    assert_eq!(text(&rows[0].name), ".rc");
    assert!(matches!(rows[0].style, NameStyle::Unstyled));
    assert_eq!(t[1].symlink_target.as_deref(), Some("unknown"));
}

#[test]
fn clean_mode_leaves_sizes_uncolored() {
    let mut o = opts();
    o.file_sizes = true;
    o.folder_sizes = true;
    let items = vec![file("a", 3)];
    let t = build_tree(&items, 0, &o).unwrap();
    let rows = render_tree(&t, &o);
    assert_eq!(rows[0].size.as_deref(), Some("   3.0 B"));
    assert!(rows[0].size_styled);
    assert!(root_line(&t, "/x", &o).unwrap().styled);
    o.clean = true;
    let t = build_tree(&items, 0, &o).unwrap();
    let rows = render_tree(&t, &o);
    assert_eq!(rows[0].size.as_deref(), Some("   3.0 B"));
    assert!(!rows[0].size_styled);
    assert!(!root_line(&t, "/x", &o).unwrap().styled);
}

#[test]
fn entries_sort_by_raw_name_bytes() {
    let o = opts();
    let mut odd = file("\u{FFFD}", 1);
    odd.raw_name = vec![0xff];
    let mut low = file("\u{FFFD}b", 1);
    low.raw_name = vec![0x80, b'b'];
    let items = vec![odd, file("\u{e9}", 1), low, file("Z", 1), file("a", 1)];
    let t = build_tree(&items, 0, &o).unwrap();
    let names: Vec<&str> = t.iter().map(|e| e.name.as_str()).collect();
    assert_eq!(names, vec!["Z", "a", "\u{FFFD}b", "\u{e9}", "\u{FFFD}"]);
}

#[test]
fn executables_by_mode_and_extension() {
    assert!(is_executable_mode(true, 0o755));
    assert!(is_executable_mode(true, 0o100));
    assert!(is_executable_mode(true, 0o001));
    assert!(!is_executable_mode(true, 0o644));
    assert!(!is_executable_mode(false, 0o755));
    assert!(is_executable_extension(Some("exe")));
    assert!(is_executable_extension(Some("EXE")));
    assert!(is_executable_extension(Some("Ps1")));
    assert!(is_executable_extension(Some("cmd")));
    assert!(!is_executable_extension(Some("txt")));
    assert!(!is_executable_extension(Some("exe2")));
    assert!(!is_executable_extension(Some("ex")));
    assert!(!is_executable_extension(None));
}

#[test]
fn filter_matches_are_highlighted_in_rows() {
    let mut o = opts();
    o.filter = Some("a,t".to_string());
    let items = vec![file("data.txt", 1)];
    let t = build_tree(&items, 0, &o).unwrap();
    let rows = render_tree(&t, &o);
    let pieces: Vec<(String, bool)> = rows[0].name.iter().map(|s| (s.text.clone(), s.matched)).collect();
    let expected: Vec<(String, bool)> = vec![
        ("d", false), ("a", true), ("t", true), ("a", true), (".", false), ("t", true), ("x", false), ("t", true),
    ]
    .into_iter()
    .map(|(s, m)| (s.to_string(), m))
    .collect();
    assert_eq!(pieces, expected);
    assert_eq!(text(&rows[0].name), "data.txt");
}

#[test]
fn root_label_strips_verbatim_prefix() {
    let mut o = opts();
    o.clean = true;
    let r = root_line(&vec![], "\\\\?\\C:\\work", &o).unwrap();
    assert_eq!(r.label, "C:\\work");
    assert!(!r.styled);
    assert_eq!(r.size, None);
    assert_eq!(r.child_count, None);
}

#[test]
fn listing_decisions() {
    let mut o = opts();
    o.depth = 2;
    assert!(needs_listing(true, false, 0, &o));
    assert!(!needs_listing(false, false, 0, &o));
    assert!(!needs_listing(true, true, 0, &o));
    assert!(!needs_listing(true, false, 1, &o));
    assert!(examines_children(true, 0, &o));
    assert!(!examines_children(true, 1, &o));
    o.folder_sizes = true;
    assert!(needs_listing(false, true, 5, &o));
    assert!(examines_children(false, 5, &o));
}

#[test]
fn visibility_flags() {
    let mut o = opts();
    o.hide_name = vec!["target".to_string()];
    assert_eq!(visibility(&dir("target", None), &o), (false, true));
    assert_eq!(visibility(&dir("src", None), &o), (true, false));
    assert_eq!(visibility(&file(".env", 1), &o), (false, false));
    o.folders_only = true;
    assert_eq!(visibility(&file("main.rs", 1), &o), (false, false));
}

#[test]
fn sizes_that_overflow_are_reported() {
    let mut o = opts();
    o.folder_sizes = true;
    let items = vec![dir("d", Some(vec![file("a", u64::MAX), file("b", 1)]))];
    assert!(build_tree(&items, 0, &o).is_none());
    let items = vec![file("a", u64::MAX), file("b", 1)];
    let t = build_tree(&items, 0, &o).unwrap();
    assert!(root_line(&t, "/", &o).is_none());
}

#[test]
fn build_entry_facts_on_examples() {
    let mut o = opts();
    o.folder_sizes = true;
    let f = build_entry(&file(".x", 42), false, false, 0, &o).unwrap();
    assert!(f.is_hidden);
    assert_eq!((f.file_size, f.total_size, f.child_count), (42, 42, 0));
    assert!(f.children.is_empty());
    let l = build_entry(&link("l", Some("t")), false, false, 0, &o).unwrap();
    assert!(l.is_symlink && !l.is_hidden);
    assert_eq!(l.symlink_target.as_deref(), Some("t"));
    assert_eq!(l.file_size, 0);
    let d = build_entry(&dir("d", Some(vec![file("a", 5), file(".b", 6)])), true, false, 0, &o).unwrap();
    assert_eq!((d.file_size, d.total_size, d.child_count), (0, 11, 2));
    assert!(d.children.is_empty());
    let big = build_entry(&dir("d", Some(vec![file("a", u64::MAX), file("b", 1)])), true, false, 0, &o);
    assert!(big.is_none());
}

#[test]
fn utf8_names_come_out_in_name_order() {
    let o = opts();
    let items = vec![file("\u{1F600}", 1), file("\u{e9}", 1), file("z", 1), file("\u{20AC}", 1), file("B", 1)];
    let t = build_tree(&items, 0, &o).unwrap();
    let names: Vec<&str> = t.iter().map(|e| e.name.as_str()).collect();
    assert_eq!(names, vec!["B", "z", "\u{e9}", "\u{20AC}", "\u{1F600}"]);
}

#[test]
fn nesting_stops_at_the_maximum_depth() {
    let mut o = opts();
    o.depth = 2;
    let deep = dir("a", Some(vec![dir("b", Some(vec![file("c", 1)]))]));
    let t = build_tree(&vec![deep], 0, &o).unwrap();
    assert_eq!(t[0].children.len(), 1);
    assert!(t[0].children[0].children.is_empty());
}
