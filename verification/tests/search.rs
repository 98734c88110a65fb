use shelltools::search::{
    compile_matcher, default_search_path, file_matches_filter, hit_from_spans, path_action,
    process_line, PathAction,
};
use shelltools::text::{filter_patterns, Segment};

fn pieces(v: &[Segment]) -> Vec<(String, bool)> {
    v.iter().map(|s| (s.text.clone(), s.matched)).collect()
}

fn p(t: &str, m: bool) -> (String, bool) {
    (t.to_string(), m)
}

#[test]
fn filter_patterns_trim_and_drop_empty() {
    assert_eq!(filter_patterns(" .txt, log ,,"), vec![".txt".to_string(), "log".to_string()]);
    assert_eq!(filter_patterns(""), Vec::<String>::new());
    assert_eq!(filter_patterns(" , "), Vec::<String>::new());
}

#[test]
fn files_pass_without_filter() {
    assert!(file_matches_filter(Some("main.rs"), None));
    assert!(file_matches_filter(None, None));
}

#[test]
fn files_pass_with_empty_pattern_list() {
    assert!(file_matches_filter(Some("main.rs"), Some(" , ")));
}

#[test]
fn files_need_a_pattern_in_their_name() {
    assert!(file_matches_filter(Some("notes.txt"), Some(".txt,test")));
    assert!(file_matches_filter(Some("my_test.rs"), Some(".txt, test")));
    assert!(!file_matches_filter(Some("main.rs"), Some(".txt,test")));
    assert!(!file_matches_filter(None, Some(".txt")));
}

#[test]
fn invalid_pattern_is_an_error() {
    let e = compile_matcher("a(b", false);
    assert!(e.is_err());
    let msg = match e {
        Err(err) => err.message,
        Ok(_) => String::new(),
    };
    assert!(msg.starts_with("Syntax("));
}

#[test]
fn matches_are_highlighted_case_insensitively() {
    let m = compile_matcher("fo+", false).ok().unwrap();
    let hit = process_line(&m, "Foo bar foo", "file.txt", true, 4).unwrap();
    assert!(hit.show_path);
    assert_eq!(hit.line_number, Some(5));
    assert_eq!(
        pieces(&hit.segments),
        vec![p("", false), p("Foo", true), p(" bar ", false), p("foo", true), p("", false)]
    );
}

#[test]
fn case_sensitive_search() {
    let m = compile_matcher("fo+", true).ok().unwrap();
    let hit = process_line(&m, "Foo bar foo", "file.txt", false, 0).unwrap();
    assert_eq!(hit.line_number, None);
    assert_eq!(pieces(&hit.segments), vec![p("Foo bar ", false), p("foo", true), p("", false)]);
}

#[test]
fn non_matching_line_gives_nothing() {
    let m = compile_matcher("xyz", false).ok().unwrap();
    assert!(process_line(&m, "nothing here", "f", true, 0).is_none());
}

#[test]
fn stdin_lines_have_no_path_or_number() {
    let m = compile_matcher("b", false).ok().unwrap();
    let hit = process_line(&m, "abc", "-", true, 9).unwrap();
    assert!(!hit.show_path);
    assert_eq!(hit.line_number, None);
    assert_eq!(pieces(&hit.segments), vec![p("a", false), p("b", true), p("c", false)]);
}

#[test]
fn unicode_positions_are_characters() {
    let m = compile_matcher("é+", false).ok().unwrap();
    let hit = process_line(&m, "caféé au lait", "f", false, 0).unwrap();
    assert_eq!(pieces(&hit.segments), vec![p("caf", false), p("éé", true), p(" au lait", false)]);
}

#[test]
fn spans_give_pieces() {
    let spans = vec![(0, 1), (3, 3), (4, 6)];
    let hit = hit_from_spans("abcdefg", &spans, "x", false, 0).unwrap();
    assert_eq!(
        pieces(&hit.segments),
        vec![p("", false), p("a", true), p("bc", false), p("", true), p("d", false), p("ef", true), p("g", false)]
    );
    assert!(hit_from_spans("abc", &vec![], "x", false, 0).is_none());
}

#[test]
fn path_actions() {
    assert!(matches!(path_action(true, false, "dir", true), PathAction::Walk));
    assert!(matches!(path_action(true, false, "dir", false), PathAction::ListChildren));
    assert!(matches!(path_action(false, true, "-", true), PathAction::SearchFile));
    assert!(matches!(path_action(false, false, "-", true), PathAction::SearchStdin));
    assert!(matches!(path_action(false, false, "missing", true), PathAction::Skip));
}

#[test]
fn default_paths() {
    assert_eq!(default_search_path(true), ".");
    assert_eq!(default_search_path(false), "-");
}
