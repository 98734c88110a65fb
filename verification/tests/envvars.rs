use shelltools::envvars::{
    appended_value, classify_env_line, env_line_would_panic, export_line, fallback_rc_file_name,
    file_lines, list_vars, parse_name_value, parse_would_panic, rc_file_name, remove_exports,
    persist_text, select_vars, shell_command_line, EnvLine,
};

fn pair(k: &str, v: &str) -> Option<(String, String)> {
    Some((k.to_string(), v.to_string()))
}

#[test]
fn parse_simple_assignment() {
    assert_eq!(parse_name_value("FOO=bar"), pair("FOO", "bar"));
}

#[test]
fn parse_value_may_contain_equals() {
    assert_eq!(parse_name_value("URL=a=b=c"), pair("URL", "a=b=c"));
}

#[test]
fn parse_trims_name_and_value() {
    assert_eq!(parse_name_value("  _my_var1 =   value  "), pair("_my_var1", "value"));
}

#[test]
fn parse_unquoted_value_takes_first_token() {
    assert_eq!(parse_name_value("A=one two three"), pair("A", "one"));
    assert_eq!(parse_name_value("A=one\ttwo"), pair("A", "one"));
}

#[test]
fn parse_empty_value() {
    assert_eq!(parse_name_value("EMPTY="), pair("EMPTY", ""));
    assert_eq!(parse_name_value("EMPTY=   "), pair("EMPTY", ""));
}

#[test]
fn parse_double_quoted_value_unescapes() {
    assert_eq!(parse_name_value("A=\"hello world\""), pair("A", "hello world"));
    assert_eq!(parse_name_value("A=\"line\\nnext\""), pair("A", "line\nnext"));
    assert_eq!(parse_name_value("A=\"say \\\"hi\\\"\""), pair("A", "say \"hi\""));
    assert_eq!(parse_name_value("A=\"back\\\\slash\""), pair("A", "back\\slash"));
    assert_eq!(parse_name_value("A=\"\""), pair("A", ""));
}

#[test]
fn parse_single_quoted_value_unescapes() {
    assert_eq!(parse_name_value("A='it\\'s here'"), pair("A", "it's here"));
    assert_eq!(parse_name_value("A='a\\\\b'"), pair("A", "a\\b"));
    assert_eq!(parse_name_value("A='no \\n escape'"), pair("A", "no \\n escape"));
}

#[test]
fn parse_mismatched_quotes_is_a_token() {
    assert_eq!(parse_name_value("A=\"abc'"), pair("A", "\"abc'"));
}

#[test]
fn parse_rejects_malformed_names() {
    assert_eq!(parse_name_value("no equals sign"), None);
    assert_eq!(parse_name_value("=value"), None);
    assert_eq!(parse_name_value("   =value"), None);
    assert_eq!(parse_name_value("1ABC=x"), None);
    assert_eq!(parse_name_value("MY-VAR=x"), None);
    assert_eq!(parse_name_value("zz2zd 0do-=0 dsa= adsda"), None);
    assert_eq!(parse_name_value("NAMÉ=x"), None);
}

#[test]
fn lone_quote_values_are_flagged() {
    assert!(parse_would_panic("A=\""));
    assert!(parse_would_panic("A= '  "));
    assert!(!parse_would_panic("A=\"\""));
    assert!(!parse_would_panic("1A=\""));
    assert!(!parse_would_panic("nothing"));
}

#[test]
fn env_lines_are_classified() {
    assert!(matches!(classify_env_line(""), EnvLine::Blank));
    assert!(matches!(classify_env_line("   "), EnvLine::Blank));
    assert!(matches!(classify_env_line("  # comment"), EnvLine::Blank));
    match classify_env_line("export PATH_X=/usr/bin") {
        EnvLine::Assign(k, v) => {
            assert_eq!(k, "PATH_X");
            assert_eq!(v, "/usr/bin");
        }
        _ => panic!("expected an assignment"),
    }
    match classify_env_line("  KEY = 'quoted value'  ") {
        EnvLine::Assign(k, v) => {
            assert_eq!(k, "KEY");
            assert_eq!(v, "quoted value");
        }
        _ => panic!("expected an assignment"),
    }
    match classify_env_line("  not valid  ") {
        EnvLine::Invalid(t) => assert_eq!(t, "not valid"),
        _ => panic!("expected an invalid line"),
    }
}

#[test]
fn env_line_panic_check() {
    assert!(env_line_would_panic("export A=\""));
    assert!(!env_line_would_panic("# A=\""));
    assert!(!env_line_would_panic("A=b"));
}

#[test]
fn file_lines_follow_str_lines() {
    let cases = ["", "a", "a\n", "a\nb", "a\r\nb\r\n", "\n\n", "x\r", "one\ntwo\n\nthree"];
    for c in cases {
        let expected: Vec<String> = c.lines().map(|s| s.to_string()).collect();
        assert_eq!(file_lines(c), expected, "input {:?}", c);
    }
}

#[test]
fn appended_values() {
    assert_eq!(appended_value("", "/opt/bin"), "/opt/bin");
    assert_eq!(appended_value("/usr/bin", "/opt/bin"), "/usr/bin:/opt/bin");
}

#[test]
fn rc_file_names() {
    assert_eq!(rc_file_name("/bin/zsh"), ".zshrc");
    assert_eq!(rc_file_name("/usr/local/bin/zsh"), ".zshrc");
    assert_eq!(rc_file_name("/bin/bash"), ".bashrc");
    assert_eq!(rc_file_name(""), ".bashrc");
    assert_eq!(fallback_rc_file_name(), ".profile");
}

#[test]
fn export_lines_escape_quotes() {
    assert_eq!(export_line("A", "b"), "export A='b'");
    assert_eq!(export_line("A", "it's"), "export A='it'\\''s'");
    assert_eq!(export_line("A", ""), "export A=''");
}

#[test]
fn remove_exports_drops_matching_lines() {
    let content = "alias ll='ls -l'\nexport FOO=1\n  export FOO='x'\nexport FOOBAR=2\nexport BAR=3\n";
    assert_eq!(remove_exports(content, "FOO"), "alias ll='ls -l'\nexport FOOBAR=2\nexport BAR=3");
    assert_eq!(remove_exports(content, "BAR"), "alias ll='ls -l'\nexport FOO=1\n  export FOO='x'\nexport FOOBAR=2");
    assert_eq!(remove_exports("", "FOO"), "");
}

#[test]
fn remove_exports_keeps_longer_names() {
    let content = "export AB='1'\nexport A='2'\nx=1";
    assert_eq!(remove_exports(content, "A"), "export AB='1'\nx=1");
    assert_eq!(remove_exports("export A\nexport A =3\nexport AA\n", "A"), "export AA");
}

#[test]
fn remove_exports_joins_lines_as_str_lines_reads_them() {
    assert_eq!(remove_exports("x=1\n", "A"), "x=1");
    assert_eq!(remove_exports("x=1", "A"), "x=1");
    assert_eq!(remove_exports("a\r\nexport A=1\r\nb\r\n", "A"), "a\nb");
    assert_eq!(remove_exports("a\n\nb\n", "A"), "a\n\nb");
    assert_eq!(remove_exports("a\r", "A"), "a\r");
}

#[test]
fn remove_exports_twice_is_once() {
    let content = "a\r\nexport A=1\r\nb\n\nc";
    let once = remove_exports(content, "A");
    assert_eq!(once, "a\nb\n\nc");
    assert_eq!(remove_exports(&once, "A"), once);
}

#[test]
fn persist_text_starts_a_line_of_its_own() {
    assert_eq!(persist_text("", "A", "1"), "export A='1'\n");
    assert_eq!(persist_text("x=1\n", "A", "1"), "export A='1'\n");
    assert_eq!(persist_text("x=1", "A", "it's"), "\nexport A='it'\\''s'\n");
    let removed = remove_exports("x=1\nexport A='0'\n", "A");
    assert_eq!(removed, "x=1");
    let appended = format!("{}{}", removed, persist_text(&removed, "A", "1"));
    assert_eq!(appended, "x=1\nexport A='1'\n");
}

#[test]
fn remove_undoes_persist_on_example() {
    let base = "alias x=y\nexport OTHER=1\n";
    let persisted = format!("{}{}", base, persist_text(base, "MY_VAR", "it's here"));
    assert_eq!(remove_exports(&persisted, "MY_VAR"), remove_exports(base, "MY_VAR"));
    let unended = "alias x=y";
    let again = format!("{}{}", unended, persist_text(unended, "MY_VAR", "v"));
    assert_eq!(remove_exports(&again, "MY_VAR"), "alias x=y");
}

#[test]
fn shell_command_lines_quote_spaces() {
    let cmd = vec!["echo".to_string(), "hello world".to_string(), "x".to_string()];
    assert_eq!(shell_command_line(&cmd), "echo \"hello world\" x");
    assert_eq!(shell_command_line(&vec![]), "");
}

fn vars(list: &[(&str, &str)]) -> Vec<(String, String)> {
    list.iter().map(|(k, v)| (k.to_string(), v.to_string())).collect()
}

#[test]
fn vars_sorted_case_insensitively() {
    let v = vars(&[("heyy", "1"), ("VSCODE_PID", "2"), ("Apple", "3"), ("apple", "4"), ("HOME", "/root")]);
    let out = list_vars(&v, None);
    let keys: Vec<&str> = out.iter().map(|(k, _)| k.as_str()).collect();
    assert_eq!(keys, vec!["Apple", "apple", "heyy", "HOME", "VSCODE_PID"]);
}

#[test]
fn vars_filtered_by_key_or_value() {
    let v = vars(&[("PATH", "/usr/bin"), ("HOME", "/home/me"), ("EDITOR", "vim"), ("SHELL", "/bin/zsh")]);
    let out = list_vars(&v, Some("home"));
    assert_eq!(out, vars(&[("HOME", "/home/me")]));
    let out = list_vars(&v, Some("BIN"));
    assert_eq!(out, vars(&[("PATH", "/usr/bin"), ("SHELL", "/bin/zsh")]));
    let out = list_vars(&v, Some(""));
    assert_eq!(out.len(), 4);
    assert_eq!(list_vars(&v, Some("nothing")), vec![]);
}

fn strings(list: &[&str]) -> Vec<String> {
    list.iter().map(|s| s.to_string()).collect()
}

#[test]
fn select_vars_uses_the_given_lower_cased_forms() {
    let v = vars(&[("B", "x"), ("a", "Y"), ("C", "zy")]);
    let keys = strings(&["b", "a", "c"]);
    let values = strings(&["x", "y", "zy"]);
    assert_eq!(select_vars(&v, &keys, &values, None), vars(&[("a", "Y"), ("B", "x"), ("C", "zy")]));
    assert_eq!(select_vars(&v, &keys, &values, Some("y")), vars(&[("a", "Y"), ("C", "zy")]));
    assert_eq!(select_vars(&v, &keys, &values, Some("b")), vars(&[("B", "x")]));
    assert_eq!(select_vars(&v, &keys, &values, Some("Y")), vec![]);
    let reordered = strings(&["z", "m", "a"]);
    assert_eq!(select_vars(&v, &reordered, &values, None), vars(&[("C", "zy"), ("a", "Y"), ("B", "x")]));
}

#[test]
fn list_vars_lower_cases_unicode() {
    let v = vars(&[("\u{c9}TAT", "1"), ("x", "\u{c9}t\u{c9}")]);
    assert_eq!(list_vars(&v, Some("\u{e9}t")), v.iter().rev().cloned().collect::<Vec<_>>());
}
