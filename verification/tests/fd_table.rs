//! Descriptor tables and redirections.
use wasmsh::fd_table::{FdTable, InputKind, InputTarget, OutputKind, OutputTarget};
use wasmsh::redirect::{take_for_dup, take_for_file, Moved, FD_BOTH};
use wasmsh::runtime::output::Console;

#[test]
fn opens_file_for_stdout() {
    let mut table = FdTable::default();
    table.open_output(
        1,
        OutputTarget::ProcessSubst {
            path: "/out.txt".into(),
        },
    );

    assert_eq!(
        table.stdout_kind(),
        OutputKind::ProcessSubst {
            path: "/out.txt".into(),
        }
    );
}

#[test]
fn dup_stderr_to_current_stdout_target() {
    let mut table = FdTable::default();
    table.open_output(
        1,
        OutputTarget::ProcessSubst {
            path: "/out.txt".into(),
        },
    );
    table.dup_output(2, 1);

    assert_eq!(table.stderr_kind(), table.stdout_kind());
}

#[test]
fn command_scoped_redirects_restore_by_cloning_base_table() {
    let base = FdTable::default();
    let mut scoped = base.clone();
    scoped.close(1);

    assert_eq!(base.stdout_kind(), OutputKind::InheritStdout);
    assert_eq!(scoped.stdout_kind(), OutputKind::Closed);
}

#[test]
fn pipe_endpoints_can_be_bound_as_fd_targets() {
    let mut table = FdTable::default();
    table.connect_pipe(1, 8);

    assert_eq!(table.stdout_kind(), OutputKind::Pipe);
}

#[test]
fn duplicating_the_input_from_elsewhere_closes_it() {
    let mut table = FdTable::default();
    table.set_input(InputTarget::Bytes(b"in".to_vec()));
    assert_eq!(table.stdin_kind(), InputKind::Bytes(b"in".to_vec()));
    table.dup_input(0, 0);
    table.dup_input(3, 1);
    assert!(matches!(table.stdin_target(), InputTarget::Bytes(d) if d == b"in"));
    table.dup_input(0, 5);
    assert_eq!(table.stdin_kind(), InputKind::Closed);
}

fn console() -> Console {
    let mut console = Console::new(0);
    console.stdout = b"before out".to_vec();
    console.stderr = b"err".to_vec();
    console
}

#[test]
fn output_is_taken_for_files_after_the_fact() {
    let mut c = console();
    assert_eq!(take_for_file(&mut c, 1, false, 7), b"out");
    assert_eq!((c.stdout, c.stderr), (b"before ".to_vec(), b"err".to_vec()));
    let mut c = console();
    assert_eq!(take_for_file(&mut c, 2, false, 7), b"err");
    assert_eq!((c.stdout, c.stderr), (b"before out".to_vec(), Vec::new()));
    let mut c = console();
    assert_eq!(take_for_file(&mut c, FD_BOTH, false, 7), b"outerr");
    assert_eq!((c.stdout, c.stderr), (b"before ".to_vec(), Vec::new()));
}

#[test]
fn duplicated_outputs_move_after_the_fact() {
    let mut c = console();
    assert!(matches!(take_for_dup(&mut c, Some(2), "1", 7), Moved::ToStdout(d) if d == b"err"));
    let mut c = console();
    assert!(matches!(take_for_dup(&mut c, None, "2", 7), Moved::ToStderr(d) if d == b"out"));
    assert!(matches!(take_for_dup(&mut c, Some(1), "1", 7), Moved::Nothing));
}
