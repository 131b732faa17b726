//! The `python` and `python3` commands: which code to run, how it is wrapped, and what its
//! run means.
use crate::base64::{b64_encoded, base64_encode};
use crate::external::ExternalCommandResult;
use crate::text::{
    dec, from_utf8_lossy, parse_i64, parse_signed, str_eq, starts_with, str_starts_with, trim,
    trimmed, u64_to_dec, utf8_lossy,
};
use crate::views::strs;
use vstd::prelude::*;
use vstd::utf8::{decode_utf8, encode_utf8, encode_utf8_decode_utf8, valid_utf8};

verus! {

/// What stands before the encoded code: both output streams are captured.
pub const WRAP_HEAD: &'static str = "import sys, io as _wasmsh_io, base64 as _wasmsh_b64
_wasmsh_old_stdout = sys.stdout
_wasmsh_old_stderr = sys.stderr
sys.stdout = _wasmsh_io.StringIO()
sys.stderr = _wasmsh_io.StringIO()
_wasmsh_exit_code = 0
try:
    _wasmsh_code = compile(_wasmsh_b64.b64decode(\"";

/// What stands between the encoded code and the path of the standard output.
pub const WRAP_TO_STDOUT: &'static str = "\").decode(), \"<string>\", \"exec\")
    exec(_wasmsh_code)
except SystemExit as _e:
    _wasmsh_exit_code = _e.code if isinstance(_e.code, int) else 1
except BaseException:
    import traceback
    traceback.print_exc()
    _wasmsh_exit_code = 1
_wasmsh_stdout_val = sys.stdout.getvalue()
_wasmsh_stderr_val = sys.stderr.getvalue()
sys.stdout = _wasmsh_old_stdout
sys.stderr = _wasmsh_old_stderr
with open(\"";

/// What stands between the paths of the standard output and the standard error.
pub const WRAP_TO_STDERR: &'static str = "\", \"w\") as _f:
    _f.write(_wasmsh_stdout_val)
with open(\"";

/// What stands between the paths of the standard error and the exit status.
pub const WRAP_TO_EXIT: &'static str = "\", \"w\") as _f:
    _f.write(_wasmsh_stderr_val)
with open(\"";

/// What stands after the path of the exit status.
pub const WRAP_TAIL: &'static str = "\", \"w\") as _f:
    _f.write(str(_wasmsh_exit_code))
";

/// Where the code of a Python command comes from.
pub enum CodeSource {
    /// The code itself.
    Code(String),
    /// The path of a script.
    Script(String),
}

/// Where the code of a Python command comes from, as mathematical data.
pub enum SourceView {
    Code(Seq<char>),
    Script(Seq<char>),
}

impl View for CodeSource {
    type V = SourceView;

    open spec fn view(&self) -> SourceView {
        match self {
            CodeSource::Code(s) => SourceView::Code(s@),
            CodeSource::Script(s) => SourceView::Script(s@),
        }
    }
}

/// Whether a command is one that runs Python.
pub open spec fn names_python(name: Seq<char>) -> bool {
    name == "python"@ || name == "python3"@
}

/// Whether a command is one that runs Python.
pub fn is_python_command(cmd_name: &str) -> (r: bool)
    ensures
        r == names_python(cmd_name@),
{
    str_eq(cmd_name, "python") || str_eq(cmd_name, "python3")
}

/// The source that the arguments from the `i`-th on give: the argument after `-c`, or the
/// first that is no flag, as a script; without either, the standard input.
pub open spec fn code_source_from(
    argv: Seq<Seq<char>>,
    i: int,
    stdin: Option<Seq<u8>>,
) -> SourceView
    decreases argv.len() - i,
{
    if i < 0 || i >= argv.len() {
        match stdin {
            Some(data) => if data.len() > 0 {
                SourceView::Code(utf8_lossy(data))
            } else {
                SourceView::Code(Seq::empty())
            },
            None => SourceView::Code(Seq::empty()),
        }
    } else if argv[i] == "-c"@ {
        if i + 1 < argv.len() {
            SourceView::Code(argv[i + 1])
        } else {
            SourceView::Code(Seq::empty())
        }
    } else if starts_with(argv[i], "-"@) {
        code_source_from(argv, i + 1, stdin)
    } else {
        SourceView::Script(argv[i])
    }
}

/// Finds the code of a Python command in its arguments or its standard input.
pub fn extract_code(argv: &[String], stdin: Option<&[u8]>) -> (r: CodeSource)
    ensures
        r@ == code_source_from(
            strs(argv@),
            1,
            match stdin {
                Some(d) => Some(d@),
                None => None,
            },
        ),
{
    let ghost input = match stdin {
        Some(d) => Some(d@),
        None => None,
    };
    let ghost args = strs(argv@);
    let mut i: usize = 1;
    while i < argv.len()
        invariant
            1 <= i,
            args == strs(argv@),
            input == (match stdin {
                Some(d) => Some(d@),
                None => None,
            }),
            code_source_from(args, 1, input) == code_source_from(args, i as int, input),
            argv@.len() >= 1 ==> i <= argv@.len(),
        decreases argv@.len() - i,
    {
        assert(args[i as int] == argv@[i as int]@);
        if str_eq(argv[i].as_str(), "-c") {
            if argv.len() - i > 1 {
                assert(args[i + 1] == argv@[i + 1]@);
                return CodeSource::Code(argv[i + 1].clone());
            }
            return CodeSource::Code(String::new());
        }
        if !str_starts_with(argv[i].as_str(), "-") {
            return CodeSource::Script(argv[i].clone());
        }
        i = i + 1;
    }
    if let Some(data) = stdin {
        if data.len() > 0 {
            return CodeSource::Code(from_utf8_lossy(data));
        }
    }
    CodeSource::Code(String::new())
}

/// The files that one run of wrapped code leaves behind.
pub struct RunPaths {
    pub stdout: String,
    pub stderr: String,
    pub exit: String,
}

/// The names of the files that the run numbered `id` leaves behind.
pub fn run_paths(id: u64) -> (r: RunPaths)
    ensures
        r.stdout@ == "/tmp/_wasmsh_py_stdout_"@ + dec(id as nat),
        r.stderr@ == "/tmp/_wasmsh_py_stderr_"@ + dec(id as nat),
        r.exit@ == "/tmp/_wasmsh_py_exit_"@ + dec(id as nat),
{
    let n = u64_to_dec(id);
    RunPaths {
        stdout: "/tmp/_wasmsh_py_stdout_".to_owned().concat(n.as_str()),
        stderr: "/tmp/_wasmsh_py_stderr_".to_owned().concat(n.as_str()),
        exit: "/tmp/_wasmsh_py_exit_".to_owned().concat(n.as_str()),
    }
}

/// The script that runs `code`, which it carries in Base64, and leaves the output and the exit
/// status in the given files.
pub open spec fn wrapped_code(
    code: Seq<char>,
    stdout: Seq<char>,
    stderr: Seq<char>,
    exit: Seq<char>,
) -> Seq<char> {
    WRAP_HEAD@ + b64_encoded(encode_utf8(code)) + WRAP_TO_STDOUT@ + stdout + WRAP_TO_STDERR@
        + stderr + WRAP_TO_EXIT@ + exit + WRAP_TAIL@
}

/// Wraps code so that its output and exit status can be read back.
pub fn wrap_code(code: &str, paths: &RunPaths) -> (r: String)
    ensures
        r@ == wrapped_code(code@, paths.stdout@, paths.stderr@, paths.exit@),
{
    let encoded = base64_encode(code.as_bytes());
    let mut s = WRAP_HEAD.to_owned();
    s.append(encoded.as_str());
    s.append(WRAP_TO_STDOUT);
    s.append(paths.stdout.as_str());
    s.append(WRAP_TO_STDERR);
    s.append(paths.stderr.as_str());
    s.append(WRAP_TO_EXIT);
    s.append(paths.exit.as_str());
    s.append(WRAP_TAIL);
    s
}

/// The exit status of a run: one where the interpreter failed, else the number in the exit
/// file, or zero where there is none.
pub open spec fn python_status(rc: int, exit: Seq<u8>) -> int {
    if rc != 0 {
        1
    } else if !valid_utf8(exit) {
        0
    } else {
        match parse_signed(trimmed(decode_utf8(exit)), i32::MIN as int, i32::MAX as int) {
            Some(n) => n,
            None => 0,
        }
    }
}

/// What a run means: the interpreter's return code and what the three files held.
pub fn python_result(rc: i32, stdout: Vec<u8>, stderr: Vec<u8>, exit: &[u8]) -> (r:
    ExternalCommandResult)
    ensures
        r.stdout == stdout,
        r.stderr == stderr,
        r.status == python_status(rc as int, exit@),
{
    let status: i32 = if rc != 0 {
        1
    } else {
        match core::str::from_utf8(exit) {
            Ok(s) => {
                proof {
                    encode_utf8_decode_utf8(s@);
                }
                let t = trim(s);
                match parse_i64(t.as_str(), i32::MIN as i64, i32::MAX as i64) {
                    Some(n) => n as i32,
                    None => 0,
                }
            },
            Err(_) => 0,
        }
    };
    ExternalCommandResult { stdout, stderr, status }
}

/// The result where the wrapped code cannot be handed to the interpreter.
pub fn python_internal_error() -> (r: ExternalCommandResult)
    ensures
        r.stdout@.len() == 0,
        r.stderr@ == encode_utf8("wasmsh: python: internal error (null in code)\n"@),
        r.status == 1,
{
    ExternalCommandResult {
        stdout: Vec::new(),
        stderr: "wasmsh: python: internal error (null in code)\n".as_bytes_vec(),
        status: 1,
    }
}

/// The encoded code that the wrapped script carries decodes to the bytes of the code, whatever
/// quotes, backslashes or control characters it holds.
pub proof fn law_wrapped_code_is_kept(code: Seq<char>)
    ensures
        crate::base64::b64_decoded(encode_utf8(b64_encoded(encode_utf8(code)))) == encode_utf8(code),
{
    crate::base64::law_decode_undoes_encode(encode_utf8(code));
}

} // verus!
