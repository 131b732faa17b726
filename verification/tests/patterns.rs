//! Patterns: globs, extended globs, regular expressions, conditions.
use wasmsh::dbl_bracket::{
    dbl_bracket_eval_or, dbl_bracket_parse_unary_flag, dbl_bracket_value, eval_file_test, eval_int_compare,
    eval_regex_match, glob_compare, is_binary_op, FileStat,
};
use wasmsh::globs::{
    collect_globs, expand_globstar, finalize_glob_matches, glob_plan, list_matches, DirEntry,
    GlobOptions, GlobPlan, MAX_GLOB_RESULTS,
};
use wasmsh::pattern::extglob::{extglob_match, glob_match_ext, has_extglob_pattern};
use wasmsh::pattern::glob::glob_match_inner;
use wasmsh::pattern::posix::posix_pattern_returns;
use wasmsh::pattern::regex::regex_match_with_captures;
use wasmsh::pattern::regex_simple::{regex_like_match, simple_regex_match};
use wasmsh::state::ShellState;

fn glob(pattern: &str, name: &str) -> bool {
    glob_match_inner(pattern.as_bytes(), name.as_bytes())
}

#[test]
fn globs_match_stars_questions_and_classes() {
    assert!(glob("*", ""));
    assert!(glob("a*c", "abbbc"));
    assert!(!glob("a*c", "abb"));
    assert!(glob("a?c", "abc"));
    assert!(!glob("a?c", "ac"));
    assert!(glob("[a-c]x", "bx"));
    assert!(!glob("[!a-c]x", "bx"));
    assert!(glob("[^a-c]x", "dx"));
}

#[test]
fn extended_globs_match_groups() {
    assert!(has_extglob_pattern("@(a|b)"));
    assert!(!has_extglob_pattern("a|b"));
    assert!(extglob_match("@(foo|bar).txt", "bar.txt"));
    assert!(!extglob_match("@(foo|bar).txt", "foobar.txt"));
    assert!(extglob_match("*(ab)", "ababab"));
    assert!(extglob_match("?(ab)c", "c"));
    assert!(extglob_match("+(a)b", "aab"));
    assert!(!extglob_match("+(a)b", "b"));
    assert!(extglob_match("!(foo)", "bar"));
    assert!(!extglob_match("!(foo)", "foo"));
}

#[test]
fn names_that_start_with_a_dot_are_hidden() {
    assert!(!glob_match_ext("*", ".hidden", false, false));
    assert!(glob_match_ext("*", ".hidden", true, false));
    assert!(glob_match_ext(".*", ".hidden", false, false));
}

#[test]
fn regular_expressions_capture_groups() {
    let spans = regex_match_with_captures("abc123", "([a-z]+)([0-9]+)").unwrap();
    assert_eq!(spans, vec!["abc123", "abc", "123"]);
    assert!(regex_match_with_captures("abc", "^b").is_none());
    assert_eq!(regex_match_with_captures("abc", "b").unwrap(), vec!["b"]);
    assert!(simple_regex_match("hello", "^h.*o$"));
    assert!(regex_like_match("hello", "l+"));
    assert!(!regex_like_match("hello", "^l"));
    assert!(regex_like_match("b", "(a|b)"));
    assert!(regex_like_match("xaby", "^x(a|b)+y$"));
    assert!(!regex_like_match("c", "(a|b)"));
    assert!(regex_like_match("(a", "(a"));
    assert!(simple_regex_match("x(ab", "^x(a(b)$"));
    assert!(regex_like_match("((c", "^(*c$"));
    assert!(!regex_like_match("a", "(a"));
}

#[test]
fn anchors_in_unbounded_groups_are_found_out() {
    assert!(posix_pattern_returns("a.*b"));
    assert!(posix_pattern_returns("\\(^a\\)*"));
    assert!(posix_pattern_returns("\\(a$\\)*"));
    assert!(posix_pattern_returns("\\(^\\)\\?"));
    assert!(!posix_pattern_returns("\\(^\\)*"));
    assert!(!posix_pattern_returns("\\(a*$\\)\\+"));
    assert!(!posix_pattern_returns("\\(\\(^\\)a\\)*"));
    assert!(!posix_pattern_returns("\\(a\\|^\\)*"));
}

#[test]
fn back_references_with_room_are_found_out() {
    assert!(posix_pattern_returns("\\(a*\\)\\1"));
    assert!(posix_pattern_returns("\\(a*\\)\\1\\{2\\}"));
    assert!(!posix_pattern_returns("\\(\\)\\1*"));
    assert!(!posix_pattern_returns("\\(a*\\)\\1\\?"));
    assert!(!posix_pattern_returns("\\(a*\\)\\1\\{2,3\\}"));
}

fn tokens(words: &[&str]) -> Vec<String> {
    words.iter().map(|w| w.to_string()).collect()
}

fn condition(words: &[&str]) -> bool {
    let files = [FileStat { path: "/f".to_string(), is_dir: false, size: 3 }];
    let mut state = ShellState::new();
    dbl_bracket_eval_or(&tokens(words), 0, &files, &mut state).0
}

#[test]
fn conditions_combine() {
    assert!(condition(&["a", "==", "a"]));
    assert!(!condition(&["a", "!=", "a"]));
    assert!(condition(&["abc", "==", "a*"]));
    assert!(condition(&["1", "-lt", "2", "&&", "3", "-gt", "2"]));
    assert!(condition(&["1", "-eq", "2", "||", "2", "-eq", "2"]));
    assert!(condition(&["!", "a", "==", "b"]));
    assert!(condition(&["(", "a", "==", "b", "||", "a", "==", "a", ")"]));
    assert!(condition(&["-f", "/f"]));
    assert!(!condition(&["-d", "/f"]));
    assert!(condition(&["-n", "x"]));
    assert!(condition(&["-z", ""]));
    assert!(condition(&["a", "<", "b"]));
    assert!(condition(&["word"]));
}

#[test]
fn parts_of_conditions() {
    let files = [FileStat { path: "/d".to_string(), is_dir: true, size: 0 }];
    assert!(eval_file_test('d', "/d", &files));
    assert!(eval_file_test('e', "/d", &files));
    assert!(!eval_file_test('e', "/none", &files));
    assert!(eval_int_compare("5", "-ge", "5"));
    assert!(!eval_int_compare("5", "-ne", "5"));
    assert!(is_binary_op("-eq"));
    assert!(!is_binary_op("foo"));
    assert_eq!(dbl_bracket_parse_unary_flag("-f"), Some('f'));
    assert_eq!(dbl_bracket_parse_unary_flag("ff"), None);
    let mut state = ShellState::new();
    assert!(!glob_compare("ABC", "abc", &state));
    state.set_var("SHOPT_nocasematch".to_string(), "1".to_string());
    assert!(glob_compare("ABC", "abc", &state));
}

#[test]
fn a_regular_expression_fills_the_match_array() {
    let mut state = ShellState::new();
    assert!(eval_regex_match("key=value", "([a-z]+)=([a-z]+)", &mut state));
    assert_eq!(state.get_array_element("BASH_REMATCH", "0").unwrap(), "key=value");
    assert_eq!(state.get_array_element("BASH_REMATCH", "2").unwrap(), "value");
    assert!(!eval_regex_match("key", "=", &mut state));
    assert_eq!(state.get_array_length("BASH_REMATCH"), 0);
}

fn options() -> GlobOptions {
    GlobOptions { nullglob: false, dotglob: false, globstar: true, extglob: true }
}

#[test]
fn arguments_are_expanded_by_their_shape() {
    assert!(matches!(glob_plan("plain", options()), GlobPlan::Plain));
    assert!(matches!(glob_plan("a*/b", options()), GlobPlan::Nothing));
    match glob_plan("dir/*.rs", options()) {
        GlobPlan::List { dir, pattern } => {
            assert_eq!(dir.unwrap(), "dir/");
            assert_eq!(pattern, "*.rs");
        }
        other => panic!("unexpected plan: {other:?}"),
    }
    match glob_plan("**/x", options()) {
        GlobPlan::Walk { segments } => assert_eq!(segments, vec!["**", "x"]),
        other => panic!("unexpected plan: {other:?}"),
    }
}

#[test]
fn matches_come_in_order_after_their_prefix() {
    let names = tokens(&["c.rs", "a.rs", "b.txt", ".d.rs"]);
    let found = list_matches(&names, "*.rs", "src/", options());
    assert_eq!(found, vec!["src/a.rs", "src/c.rs"]);
    assert_eq!(
        finalize_glob_matches("*.x".to_string(), Vec::new(), false),
        vec!["*.x"]
    );
    assert!(finalize_glob_matches("*.x".to_string(), Vec::new(), true).is_empty());
}

fn file(name: &str) -> DirEntry {
    DirEntry { name: name.to_string(), children: None }
}

#[test]
fn double_stars_walk_the_tree() {
    let tree = vec![
        file("x"),
        DirEntry {
            name: "sub".to_string(),
            children: Some(vec![
                file("x"),
                DirEntry { name: "deep".to_string(), children: Some(vec![file("x")]) },
            ]),
        },
        DirEntry { name: ".git".to_string(), children: Some(vec![file("x")]) },
    ];
    let found = expand_globstar(&tree, &tokens(&["**", "x"]), options());
    assert_eq!(found, vec!["sub/deep/x", "sub/x", "x"]);
    let inside = expand_globstar(&tree, &tokens(&["sub", "**", "x"]), options());
    assert_eq!(inside, vec!["sub/deep/x", "sub/x"]);
}

#[test]
fn expansion_is_limited() {
    let many: Vec<String> = (0..MAX_GLOB_RESULTS + 5).map(|i| i.to_string()).collect();
    let out = collect_globs(&vec![tokens(&["first"]), many]);
    assert_eq!(out.len(), MAX_GLOB_RESULTS);
    assert_eq!(out[0], "first");
    assert_eq!(out[1], "0");
}

#[test]
fn copies_of_a_word_match_by_their_number() {
    for k in 0..=3 {
        let name = "ab".repeat(k);
        assert!(extglob_match("*(ab)", &name));
        assert_eq!(extglob_match("+(ab)", &name), k >= 1);
        assert_eq!(extglob_match("?(ab)", &name), k <= 1);
        assert_eq!(extglob_match("@(ab)", &name), k == 1);
    }
    assert!(extglob_match("*(ab)", &"ab".repeat(20)));
}

#[test]
fn a_leading_star_stands_for_any_beginning() {
    for (rest, name) in [("b", "aab"), ("", "x"), ("[a-c]d", "zzbd"), ("q", "abc")] {
        let some_end = (0..=name.len()).any(|k| glob(rest, &name[k..]));
        assert_eq!(glob(&format!("*{rest}"), name), some_end);
    }
}

#[test]
fn conditions_whose_match_cuts_a_character_have_no_value() {
    let value = |words: &[&str]| {
        let mut state = ShellState::new();
        dbl_bracket_value(&tokens(words), &[], &mut state)
    };
    assert_eq!(value(&["ab", "=~", "a."]), Some(true));
    assert_eq!(value(&["é", "=~", "^.$"]), Some(false));
    assert_eq!(value(&["é", "=~", "^."]), None);
    assert_eq!(value(&["a", "==", "b", "||", "é", "=~", "."]), None);
    assert_eq!(value(&["é", "=~", "é"]), Some(true));
}
