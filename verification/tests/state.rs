//! The shell state: variables, arrays, special parameters.
use wasmsh::state::ShellState;
use wasmsh::vars::{ShellVar, VarValue};

#[test]
fn get_set_variable() {
    let mut state = ShellState::new();
    state.set_var("FOO".into(), "bar".into());
    assert_eq!(state.get_var("FOO").unwrap(), "bar");
}

#[test]
fn special_params() {
    let mut state = ShellState::new();
    state.last_status = 42;
    assert_eq!(state.get_var("?").unwrap(), "42");
    assert_eq!(state.get_var("#").unwrap(), "0");
    assert_eq!(state.get_var("0").unwrap(), "wasmsh");
}

#[test]
fn positional_params() {
    let mut state = ShellState::new();
    state.positional = vec!["a".into(), "b".into(), "c".into()];
    assert_eq!(state.get_var("1").unwrap(), "a");
    assert_eq!(state.get_var("2").unwrap(), "b");
    assert_eq!(state.get_var("3").unwrap(), "c");
    assert!(state.get_var("4").is_none());
    assert_eq!(state.get_var("#").unwrap(), "3");
}

#[test]
fn scope_shadowing() {
    let mut state = ShellState::new();
    state.set_var("X".into(), "global".into());
    state.env.push_scope();
    state.set_var("X".into(), "local".into());
    assert_eq!(state.get_var("X").unwrap(), "local");
    state.env.pop_scope();
    assert_eq!(state.get_var("X").unwrap(), "global");
}

#[test]
fn exported_vars() {
    let mut state = ShellState::new();
    state.env.set(
        "PATH".into(),
        ShellVar {
            value: VarValue::Scalar("/bin".into()),
            exported: true,
            readonly: false,
            integer: false,
            nameref: false,
        },
    );
    state.set_var("LOCAL".into(), "val".into());
    let exports = state.env.exported_vars();
    assert_eq!(exports.len(), 1);
    assert_eq!(exports["PATH"], "/bin");
}

#[test]
fn unset_var_removes() {
    let mut state = ShellState::new();
    state.set_var("X".into(), "val".into());
    assert!(state.get_var("X").is_some());
    state.unset_var("X").unwrap();
    assert!(state.get_var("X").is_none());
}

#[test]
fn readonly_prevents_set() {
    let mut state = ShellState::new();
    state.set_readonly("X".into(), "locked".into());
    assert!(state.set_var_checked("X".into(), "new".into()).is_err());
    assert_eq!(state.get_var("X").unwrap(), "locked");
}

#[test]
fn readonly_prevents_unset() {
    let mut state = ShellState::new();
    state.set_readonly("X".into(), "locked".into());
    assert!(state.unset_var("X").is_err());
    assert!(state.get_var("X").is_some());
}

#[test]
fn set_var_preserves_exported_flag() {
    let mut state = ShellState::new();
    state.env.set(
        "X".into(),
        ShellVar {
            value: VarValue::Scalar("old".into()),
            exported: true,
            readonly: false,
            integer: false,
            nameref: false,
        },
    );
    state.set_var("X".into(), "new".into());
    let var = state.env.get("X").unwrap();
    assert_eq!(var.value.as_scalar(), "new");
    assert!(var.exported); // preserved
}

// ---- Array tests ----

#[test]
fn indexed_array_basics() {
    let mut state = ShellState::new();
    state.init_indexed_array("arr".into());
    state.set_array_element("arr".into(), "0", "zero".into());
    state.set_array_element("arr".into(), "1", "one".into());
    state.set_array_element("arr".into(), "2", "two".into());

    assert_eq!(state.get_array_element("arr", "0").unwrap(), "zero");
    assert_eq!(state.get_array_element("arr", "1").unwrap(), "one");
    assert_eq!(state.get_array_element("arr", "2").unwrap(), "two");
    assert!(state.get_array_element("arr", "3").is_none());

    assert_eq!(state.get_array_length("arr"), 3);
    assert_eq!(state.get_array_keys("arr"), vec!["0", "1", "2"]);
    assert_eq!(
        state.get_array_values("arr"),
        vec![
            String::from("zero"),
            String::from("one"),
            String::from("two")
        ]
    );
}

#[test]
fn assoc_array_basics() {
    let mut state = ShellState::new();
    state.init_assoc_array("map".into());
    state.set_array_element("map".into(), "key1", "val1".into());
    state.set_array_element("map".into(), "key2", "val2".into());

    assert_eq!(state.get_array_element("map", "key1").unwrap(), "val1");
    assert_eq!(state.get_array_element("map", "key2").unwrap(), "val2");
    assert!(state.get_array_element("map", "key3").is_none());

    assert_eq!(state.get_array_length("map"), 2);
}

#[test]
fn array_scalar_access() {
    let mut state = ShellState::new();
    state.init_indexed_array("arr".into());
    state.set_array_element("arr".into(), "0", "a".into());
    state.set_array_element("arr".into(), "1", "b".into());
    // Accessing array as scalar returns space-joined values
    assert_eq!(state.get_var("arr").unwrap(), "a b");
}

#[test]
fn append_array_values() {
    let mut state = ShellState::new();
    state.init_indexed_array("arr".into());
    state.set_array_element("arr".into(), "0", "a".into());
    state.append_array("arr", vec!["b".into(), "c".into()]);
    assert_eq!(state.get_array_length("arr"), 3);
    assert_eq!(state.get_array_element("arr", "1").unwrap(), "b");
    assert_eq!(state.get_array_element("arr", "2").unwrap(), "c");
}

#[test]
fn unset_array_element_removes() {
    let mut state = ShellState::new();
    state.init_indexed_array("arr".into());
    state.set_array_element("arr".into(), "0", "a".into());
    state.set_array_element("arr".into(), "1", "b".into());
    state.unset_array_element("arr", "0");
    assert!(state.get_array_element("arr", "0").is_none());
    assert_eq!(state.get_array_element("arr", "1").unwrap(), "b");
    assert_eq!(state.get_array_length("arr"), 1);
}

#[test]
fn scalar_as_array_element_0() {
    let mut state = ShellState::new();
    state.set_var("X".into(), "hello".into());
    // Scalars can be accessed as element 0
    assert_eq!(state.get_array_element("X", "0").unwrap(), "hello");
    assert!(state.get_array_element("X", "1").is_none());
}

#[test]
fn set_element_creates_indexed_array() {
    let mut state = ShellState::new();
    state.set_array_element("arr".into(), "5", "five".into());
    assert_eq!(state.get_array_element("arr", "5").unwrap(), "five");
    assert_eq!(state.get_array_length("arr"), 1);
}

// ---- Dynamic variable tests ----

#[test]
fn random_returns_bounded_value() {
    let mut state = ShellState::new();
    let val: u32 = state.get_var("RANDOM").unwrap().parse().unwrap();
    assert!(val < 32768);
}

#[test]
fn random_changes_each_call() {
    let mut state = ShellState::new();
    let v1 = state.get_var("RANDOM").unwrap();
    let v2 = state.get_var("RANDOM").unwrap();
    // Successive calls should produce different values
    assert_ne!(v1, v2);
}

#[test]
fn lineno_returns_current_value() {
    let mut state = ShellState::new();
    state.lineno = 42;
    assert_eq!(state.get_var("LINENO").unwrap(), "42");
}

#[test]
fn seconds_returns_value() {
    let mut state = ShellState::new();
    let val = state.get_var("SECONDS").unwrap();
    // Should parse as a number and be >= 0
    let secs: u64 = val.parse().unwrap();
    assert!(secs < 60); // test runs quickly
}

#[test]
fn funcname_empty_by_default() {
    let mut state = ShellState::new();
    assert_eq!(state.get_var("FUNCNAME").unwrap(), "");
}

#[test]
fn funcname_returns_top_of_stack() {
    let mut state = ShellState::new();
    state.func_stack.push("myfunc".into());
    assert_eq!(state.get_var("FUNCNAME").unwrap(), "myfunc");
}

#[test]
fn bash_source_returns_top_of_stack() {
    let mut state = ShellState::new();
    state.source_stack.push("/script.sh".into());
    assert_eq!(state.get_var("BASH_SOURCE").unwrap(), "/script.sh");
}
