//! Where the standard streams of a command go. Pipes and open files are named by numbers that
//! their owner gives out.
use vstd::prelude::*;

verus! {

/// What the standard input is, without the pipe that it may be.
#[derive(Clone, Debug, PartialEq, Eq)]
pub enum InputKind {
    Inherit,
    Bytes(Vec<u8>),
    File { path: String, remove_after_read: bool },
    Pipe,
    Closed,
}

/// What an output is, without the pipe or open file that it may be.
#[derive(Clone, Debug, PartialEq, Eq)]
pub enum OutputKind {
    InheritStdout,
    InheritStderr,
    File { path: String, append: bool },
    ProcessSubst { path: String },
    Pipe,
    Closed,
}

/// Where the standard input comes from.
#[derive(Debug)]
pub enum InputTarget {
    Inherit,
    Bytes(Vec<u8>),
    File { path: String, remove_after_read: bool },
    Pipe(usize),
    Closed,
}

/// Where an output goes.
#[derive(Debug)]
pub enum OutputTarget {
    InheritStdout,
    InheritStderr,
    File { path: String, append: bool, sink: usize },
    ProcessSubst { path: String },
    Pipe(usize),
    Closed,
}

/// An input as mathematical data.
pub enum InputView {
    Inherit,
    Bytes(Seq<u8>),
    File { path: Seq<char>, remove_after_read: bool },
    Pipe(nat),
    Closed,
}

/// An output as mathematical data.
pub enum OutputView {
    InheritStdout,
    InheritStderr,
    File { path: Seq<char>, append: bool, sink: nat },
    ProcessSubst { path: Seq<char> },
    Pipe(nat),
    Closed,
}

impl View for InputTarget {
    type V = InputView;

    open spec fn view(&self) -> InputView {
        match self {
            InputTarget::Inherit => InputView::Inherit,
            InputTarget::Bytes(d) => InputView::Bytes(d@),
            InputTarget::File { path, remove_after_read } => InputView::File {
                path: path@,
                remove_after_read: *remove_after_read,
            },
            InputTarget::Pipe(p) => InputView::Pipe(*p as nat),
            InputTarget::Closed => InputView::Closed,
        }
    }
}

impl View for OutputTarget {
    type V = OutputView;

    open spec fn view(&self) -> OutputView {
        match self {
            OutputTarget::InheritStdout => OutputView::InheritStdout,
            OutputTarget::InheritStderr => OutputView::InheritStderr,
            OutputTarget::File { path, append, sink } => OutputView::File {
                path: path@,
                append: *append,
                sink: *sink as nat,
            },
            OutputTarget::ProcessSubst { path } => OutputView::ProcessSubst { path: path@ },
            OutputTarget::Pipe(p) => OutputView::Pipe(*p as nat),
            OutputTarget::Closed => OutputView::Closed,
        }
    }
}

/// Whether a kind describes an input.
pub open spec fn input_kind_of(k: InputKind, t: InputView) -> bool {
    match t {
        InputView::Inherit => k is Inherit,
        InputView::Bytes(d) => k matches InputKind::Bytes(v) && v@ == d,
        InputView::File { path, remove_after_read } => k matches InputKind::File {
            path: p,
            remove_after_read: r,
        } && p@ == path && r == remove_after_read,
        InputView::Pipe(_) => k is Pipe,
        InputView::Closed => k is Closed,
    }
}

/// Whether a kind describes an output.
pub open spec fn output_kind_of(k: OutputKind, t: OutputView) -> bool {
    match t {
        OutputView::InheritStdout => k is InheritStdout,
        OutputView::InheritStderr => k is InheritStderr,
        OutputView::File { path, append, sink } => k matches OutputKind::File {
            path: p,
            append: a,
        } && p@ == path && a == append,
        OutputView::ProcessSubst { path } => k matches OutputKind::ProcessSubst { path: p } && p@
            == path,
        OutputView::Pipe(_) => k is Pipe,
        OutputView::Closed => k is Closed,
    }
}

impl InputTarget {
    /// What the input is.
    pub fn kind(&self) -> (r: InputKind)
        ensures
            input_kind_of(r, self@),
    {
        match self {
            InputTarget::Inherit => InputKind::Inherit,
            InputTarget::Bytes(d) => InputKind::Bytes(vstd::slice::slice_to_vec(d.as_slice())),
            InputTarget::File { path, remove_after_read } => InputKind::File {
                path: path.clone(),
                remove_after_read: *remove_after_read,
            },
            InputTarget::Pipe(_) => InputKind::Pipe,
            InputTarget::Closed => InputKind::Closed,
        }
    }
}

impl Clone for InputTarget {
    fn clone(&self) -> (r: InputTarget)
        ensures
            r@ == self@,
    {
        match self {
            InputTarget::Inherit => InputTarget::Inherit,
            InputTarget::Bytes(d) => InputTarget::Bytes(vstd::slice::slice_to_vec(d.as_slice())),
            InputTarget::File { path, remove_after_read } => InputTarget::File {
                path: path.clone(),
                remove_after_read: *remove_after_read,
            },
            InputTarget::Pipe(p) => InputTarget::Pipe(*p),
            InputTarget::Closed => InputTarget::Closed,
        }
    }
}

impl OutputTarget {
    /// What the output is.
    pub fn kind(&self) -> (r: OutputKind)
        ensures
            output_kind_of(r, self@),
    {
        match self {
            OutputTarget::InheritStdout => OutputKind::InheritStdout,
            OutputTarget::InheritStderr => OutputKind::InheritStderr,
            OutputTarget::File { path, append, sink: _ } => OutputKind::File {
                path: path.clone(),
                append: *append,
            },
            OutputTarget::ProcessSubst { path } => OutputKind::ProcessSubst { path: path.clone() },
            OutputTarget::Pipe(_) => OutputKind::Pipe,
            OutputTarget::Closed => OutputKind::Closed,
        }
    }
}

impl Clone for OutputTarget {
    fn clone(&self) -> (r: OutputTarget)
        ensures
            r@ == self@,
    {
        match self {
            OutputTarget::InheritStdout => OutputTarget::InheritStdout,
            OutputTarget::InheritStderr => OutputTarget::InheritStderr,
            OutputTarget::File { path, append, sink } => OutputTarget::File {
                path: path.clone(),
                append: *append,
                sink: *sink,
            },
            OutputTarget::ProcessSubst { path } => OutputTarget::ProcessSubst {
                path: path.clone(),
            },
            OutputTarget::Pipe(p) => OutputTarget::Pipe(*p),
            OutputTarget::Closed => OutputTarget::Closed,
        }
    }
}

/// The three standard streams.
#[derive(Debug)]
pub struct FdTable {
    stdin: InputTarget,
    stdout: OutputTarget,
    stderr: OutputTarget,
}

/// The three standard streams as mathematical data.
pub struct FdView {
    pub stdin: InputView,
    pub stdout: OutputView,
    pub stderr: OutputView,
}

impl View for FdTable {
    type V = FdView;

    closed spec fn view(&self) -> FdView {
        FdView { stdin: self.stdin@, stdout: self.stdout@, stderr: self.stderr@ }
    }
}

/// All streams inherited.
pub open spec fn inherited() -> FdView {
    FdView {
        stdin: InputView::Inherit,
        stdout: OutputView::InheritStdout,
        stderr: OutputView::InheritStderr,
    }
}

/// The output that a descriptor stands for: the standard error for two, else the standard
/// output.
pub open spec fn output_of(t: FdView, fd: u32) -> OutputView {
    if fd == 2 {
        t.stderr
    } else {
        t.stdout
    }
}

/// The streams after the output of a descriptor was replaced.
pub open spec fn with_output(t: FdView, fd: u32, target: OutputView) -> FdView {
    if fd == 2 {
        FdView { stderr: target, ..t }
    } else {
        FdView { stdout: target, ..t }
    }
}

/// The streams after a descriptor was closed.
pub open spec fn without_fd(t: FdView, fd: u32) -> FdView {
    if fd == 0 {
        FdView { stdin: InputView::Closed, ..t }
    } else {
        with_output(t, fd, OutputView::Closed)
    }
}

impl Default for FdTable {
    fn default() -> (r: FdTable)
        ensures
            r@ == inherited(),
    {
        FdTable {
            stdin: InputTarget::Inherit,
            stdout: OutputTarget::InheritStdout,
            stderr: OutputTarget::InheritStderr,
        }
    }
}

impl Clone for FdTable {
    fn clone(&self) -> (r: FdTable)
        ensures
            r@ == self@,
    {
        FdTable {
            stdin: self.stdin.clone(),
            stdout: self.stdout.clone(),
            stderr: self.stderr.clone(),
        }
    }
}

impl FdTable {
    /// What the standard input is.
    pub fn stdin_kind(&self) -> (r: InputKind)
        ensures
            input_kind_of(r, self@.stdin),
    {
        self.stdin.kind()
    }

    /// What the standard output is.
    pub fn stdout_kind(&self) -> (r: OutputKind)
        ensures
            output_kind_of(r, self@.stdout),
    {
        self.stdout.kind()
    }

    /// What the standard error is.
    pub fn stderr_kind(&self) -> (r: OutputKind)
        ensures
            output_kind_of(r, self@.stderr),
    {
        self.stderr.kind()
    }

    /// Where the standard input comes from.
    pub fn stdin_target(&self) -> (r: &InputTarget)
        ensures
            r@ == self@.stdin,
    {
        &self.stdin
    }

    /// Where the standard output goes.
    pub fn stdout_target(&self) -> (r: &OutputTarget)
        ensures
            r@ == self@.stdout,
    {
        &self.stdout
    }

    /// Where the standard error goes.
    pub fn stderr_target(&self) -> (r: &OutputTarget)
        ensures
            r@ == self@.stderr,
    {
        &self.stderr
    }

    /// Takes the standard input out; an inherited one is left.
    pub fn take_stdin(&mut self) -> (r: InputTarget)
        ensures
            r@ == old(self)@.stdin,
            final(self)@ == (FdView { stdin: InputView::Inherit, ..old(self)@ }),
    {
        let mut taken = InputTarget::Inherit;
        std::mem::swap(&mut taken, &mut self.stdin);
        taken
    }

    /// Replaces the standard input.
    pub fn set_input(&mut self, target: InputTarget)
        ensures
            final(self)@ == (FdView { stdin: target@, ..old(self)@ }),
    {
        self.stdin = target;
    }

    /// Replaces an output.
    pub fn open_output(&mut self, fd: u32, target: OutputTarget)
        ensures
            final(self)@ == with_output(old(self)@, fd, target@),
    {
        if fd == 2 {
            self.stderr = target;
        } else {
            self.stdout = target;
        }
    }

    /// Makes `source_fd` go where `target_fd` goes now.
    pub fn dup_output(&mut self, source_fd: u32, target_fd: u32)
        ensures
            final(self)@ == with_output(old(self)@, source_fd, output_of(old(self)@, target_fd)),
    {
        let target = if target_fd == 2 {
            self.stderr.clone()
        } else {
            self.stdout.clone()
        };
        self.open_output(source_fd, target);
    }

    /// Makes the standard input come from `target_fd`; only the standard input itself can be
    /// duplicated, anything else closes it.
    pub fn dup_input(&mut self, source_fd: u32, target_fd: u32)
        ensures
            final(self)@ == if source_fd != 0 || target_fd == 0 {
                old(self)@
            } else {
                FdView { stdin: InputView::Closed, ..old(self)@ }
            },
    {
        if source_fd != 0 || target_fd == 0 {
            return;
        }
        self.stdin = InputTarget::Closed;
    }

    /// Closes a descriptor.
    pub fn close(&mut self, fd: u32)
        ensures
            final(self)@ == without_fd(old(self)@, fd),
    {
        if fd == 0 {
            self.stdin = InputTarget::Closed;
        } else if fd == 2 {
            self.stderr = OutputTarget::Closed;
        } else {
            self.stdout = OutputTarget::Closed;
        }
    }

    /// Makes an output go to a pipe.
    pub fn connect_pipe(&mut self, fd: u32, pipe: usize)
        ensures
            final(self)@ == with_output(old(self)@, fd, OutputView::Pipe(pipe as nat)),
    {
        self.open_output(fd, OutputTarget::Pipe(pipe));
    }
}

/// The streams of a command.
#[derive(Debug)]
pub struct ExecIo {
    fds: FdTable,
}

impl View for ExecIo {
    type V = FdView;

    closed spec fn view(&self) -> FdView {
        self.fds@
    }
}

impl Default for ExecIo {
    fn default() -> (r: ExecIo)
        ensures
            r@ == inherited(),
    {
        ExecIo { fds: FdTable::default() }
    }
}

impl Clone for ExecIo {
    fn clone(&self) -> (r: ExecIo)
        ensures
            r@ == self@,
    {
        ExecIo { fds: self.fds.clone() }
    }
}

impl ExecIo {
    /// The streams.
    pub fn fds(&self) -> (r: &FdTable)
        ensures
            r@ == self@,
    {
        &self.fds
    }

    /// The streams, to be changed.
    pub fn fds_mut(&mut self) -> (r: &mut FdTable)
        ensures
            r@ == old(self)@,
            final(self)@ == final(r)@,
    {
        &mut self.fds
    }

    /// Takes the standard input out.
    pub fn take_stdin(&mut self) -> (r: InputTarget)
        ensures
            r@ == old(self)@.stdin,
            final(self)@ == (FdView { stdin: InputView::Inherit, ..old(self)@ }),
    {
        self.fds.take_stdin()
    }

    /// Where one of the outputs goes.
    pub fn output_target(&self, stdout: bool) -> (r: OutputTarget)
        ensures
            r@ == if stdout {
                self@.stdout
            } else {
                self@.stderr
            },
    {
        if stdout {
            self.fds.stdout_target().clone()
        } else {
            self.fds.stderr_target().clone()
        }
    }
}

/// The order of redirections matters: `2>&1` before `> file` leaves the standard error where
/// the standard output was, and after it takes the standard error to the file.
pub proof fn law_redirection_order(t: FdView, file: OutputView)
    ensures
        ({
            let dup_first = with_output(with_output(t, 2, output_of(t, 1)), 1, file);
            &&& dup_first.stdout == file
            &&& dup_first.stderr == t.stdout
        }),
        ({
            let opened = with_output(t, 1, file);
            let dup_last = with_output(opened, 2, output_of(opened, 1));
            &&& dup_last.stdout == file
            &&& dup_last.stderr == file
        }),
{
}

/// The streams after a scope of redirections: those from before it, except that what was read
/// of the standard input stays read.
pub open spec fn after_scope(saved: Option<FdView>, current: Option<FdView>) -> Option<FdView> {
    match (saved, current) {
        (Some(s), Some(c)) => Some(FdView { stdin: c.stdin, ..s }),
        (s, _) => s,
    }
}

/// The model of streams that may be redirected.
pub open spec fn io_view(io: Option<ExecIo>) -> Option<FdView> {
    match io {
        Some(x) => Some(x@),
        None => None,
    }
}

/// Leaves a scope of redirections.
pub fn leave_io_scope(saved: Option<ExecIo>, current: Option<ExecIo>) -> (r: Option<ExecIo>)
    ensures
        io_view(r) == after_scope(io_view(saved), io_view(current)),
{
    match saved {
        Some(s) => match current {
            Some(c) => {
                let mut io = s;
                let mut inner = c;
                let stdin = inner.take_stdin();
                io.fds.set_input(stdin);
                Some(io)
            },
            None => Some(s),
        },
        None => None,
    }
}

} // verus!
