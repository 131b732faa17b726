//! The Python membrane.
use wasmsh::membrane::build_preamble;

#[test]
fn preamble_does_not_leak_allowed_hosts() {
    // The policy lives outside Python, where user code cannot change it.
    let p = build_preamble(&[
        "api.example.com".into(),
        "*.internal.test".into(),
    ]);
    assert!(
        !p.contains("api.example.com"),
        "Python preamble must not embed the host allowlist"
    );
    assert!(
        !p.contains("*.internal.test"),
        "Python preamble must not embed the host allowlist"
    );
}

#[test]
fn preamble_is_self_guarded() {
    let p = build_preamble(&[]);
    assert!(p.contains("WASMSH_MEMBRANE_INSTALLED"));
}

#[test]
fn preamble_runs_inside_a_function_scope() {
    // Locals must be sealed away from globals(); the body lives in
    // `def _wasmsh_install_membrane()` which is also deleted after
    // it returns, leaving only the builtins sentinel reachable.
    let p = build_preamble(&[]);
    assert!(p.contains("def _wasmsh_install_membrane"));
    assert!(p.contains("del _wasmsh_install_membrane"));
}

#[test]
fn preamble_fails_closed_on_install_failure() {
    // If no `js` attributes could be denied (no Pyodide / wrong env),
    // the preamble must raise rather than silently let user code run.
    let p = build_preamble(&[]);
    assert!(p.contains("raise RuntimeError"));
}

#[test]
fn the_preamble_holds_no_nul() {
    assert!(!build_preamble(&[]).contains('\0'));
}
