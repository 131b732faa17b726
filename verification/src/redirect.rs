//! Redirections: what each does to the streams of a command.
use crate::fd_table::{
    inherited, io_view, with_output, output_of, ExecIo, FdView, InputTarget, InputView,
    OutputTarget, OutputView,
};
use crate::runtime::output::{
    active_stderr, active_stdout, cut_stdout, no_stderr, Console, ConsoleView,
};
use crate::text::{dec, law_dec_parses, parse_u64, parse_unsigned};
use vstd::prelude::*;
use vstd::utf8::encode_utf8;

verus! {

/// The descriptor that stands for both outputs (`&>`).
pub const FD_BOTH: u32 = 0xffff_ffff;

/// What is at the source of an input redirection.
#[derive(Clone, Copy, Debug, PartialEq, Eq, Structural)]
pub enum SourceKind {
    File,
    Directory,
    Missing,
}

/// What became of the target of an output redirection.
#[derive(Debug)]
pub enum SinkState {
    /// It is a process substitution.
    ProcessSubst,
    /// It was opened under this number.
    Opened(usize),
    /// It could not be opened, for this reason.
    Failed(String),
}

/// A redirection with its words expanded and its files looked up.
#[derive(Debug)]
pub enum ResolvedRedirection {
    /// A here-document, if it has a body.
    HereDoc(Option<Vec<u8>>),
    HereString(String),
    Input { target: String, path: String, kind: SourceKind },
    Output { target: String, path: String, append: bool, fd: Option<u32>, sink: SinkState },
    DupOutput { fd: Option<u32>, target: String },
    /// One that has no effect on the streams.
    Other,
}

/// The message for something that cannot be used.
pub open spec fn refusal(target: Seq<char>, why: Seq<char>) -> Seq<char> {
    "wasmsh: "@ + target + ": "@ + why + "\n"@
}

/// The descriptor that a word names: one where it names none.
pub open spec fn named_fd(s: Seq<char>) -> u32 {
    match parse_unsigned(s, u32::MAX as nat) {
        Some(n) => n as u32,
        None => 1,
    }
}

/// The descriptor of an output redirection: the standard output unless it says otherwise.
pub open spec fn fd_or_one(fd: Option<u32>) -> u32 {
    match fd {
        Some(n) => n,
        None => 1,
    }
}

/// The streams after an output was opened for a descriptor, or for both.
pub open spec fn opened(t: FdView, fd: u32, target: OutputView) -> FdView {
    if fd == FD_BOTH {
        with_output(with_output(t, 1, target), 2, target)
    } else {
        with_output(t, fd, target)
    }
}

/// The streams after a redirection, or the message where it cannot be done.
pub open spec fn redirected(t: FdView, r: ResolvedRedirection) -> Result<FdView, Seq<char>> {
    match r {
        ResolvedRedirection::HereDoc(body) => match body {
            Some(d) => Ok(FdView { stdin: InputView::Bytes(d@), ..t }),
            None => Ok(t),
        },
        ResolvedRedirection::HereString(s) => Ok(
            FdView { stdin: InputView::Bytes(encode_utf8(s@).push(0x0a)), ..t },
        ),
        ResolvedRedirection::Input { target, path, kind } => match kind {
            SourceKind::File => Ok(
                FdView { stdin: InputView::File { path: path@, remove_after_read: false }, ..t },
            ),
            SourceKind::Directory => Err(refusal(target@, "Is a directory"@)),
            SourceKind::Missing => Err(refusal(target@, "No such file or directory"@)),
        },
        ResolvedRedirection::Output { target, path, append, fd, sink } => match sink {
            SinkState::ProcessSubst => Ok(
                opened(t, fd_or_one(fd), OutputView::ProcessSubst { path: path@ }),
            ),
            SinkState::Opened(n) => Ok(
                opened(
                    t,
                    fd_or_one(fd),
                    OutputView::File { path: path@, append, sink: n as nat },
                ),
            ),
            SinkState::Failed(why) => Err(refusal(target@, why@)),
        },
        ResolvedRedirection::DupOutput { fd, target } => Ok(
            with_output(t, fd_or_one(fd), output_of(t, named_fd(target@))),
        ),
        ResolvedRedirection::Other => Ok(t),
    }
}

/// The streams after the redirections from the `i`-th on; the first that cannot be done ends
/// them.
pub open spec fn redirected_all(t: FdView, rs: Seq<ResolvedRedirection>, i: int) -> Result<
    FdView,
    Seq<char>,
>
    decreases rs.len() - i,
{
    if i < 0 || i >= rs.len() {
        Ok(t)
    } else {
        match redirected(t, rs[i]) {
            Ok(u) => redirected_all(u, rs, i + 1),
            Err(m) => Err(m),
        }
    }
}

fn refuse(target: &str, why: &str) -> (r: String)
    ensures
        r@ == refusal(target@, why@),
{
    let mut s = "wasmsh: ".to_owned();
    s.append(target);
    s.append(": ");
    s.append(why);
    s.append("\n");
    s
}

fn read_fd(s: &str) -> (r: u32)
    ensures
        r == named_fd(s@),
{
    match parse_u64(s, u32::MAX as u64) {
        Some(n) => n as u32,
        None => 1,
    }
}

/// Applies one redirection to the streams of a command.
pub fn bind_redirection(io: &mut ExecIo, redirection: ResolvedRedirection) -> (r: Result<
    (),
    String,
>)
    ensures
        match r {
            Ok(()) => redirected(old(io)@, redirection) == Ok::<FdView, Seq<char>>(final(io)@),
            Err(m) => redirected(old(io)@, redirection) == Err::<FdView, Seq<char>>(m@)
                && final(io)@ == old(io)@,
        },
{
    match redirection {
        ResolvedRedirection::HereDoc(body) => {
            if let Some(d) = body {
                io.fds_mut().set_input(InputTarget::Bytes(d));
            }
            Ok(())
        },
        ResolvedRedirection::HereString(s) => {
            let mut data = s.as_str().as_bytes_vec();
            data.push(0x0a);
            io.fds_mut().set_input(InputTarget::Bytes(data));
            Ok(())
        },
        ResolvedRedirection::Input { target, path, kind } => match kind {
            SourceKind::File => {
                io.fds_mut().set_input(InputTarget::File { path, remove_after_read: false });
                Ok(())
            },
            SourceKind::Directory => Err(refuse(target.as_str(), "Is a directory")),
            SourceKind::Missing => Err(refuse(target.as_str(), "No such file or directory")),
        },
        ResolvedRedirection::Output { target, path, append, fd, sink } => {
            let destination = match sink {
                SinkState::ProcessSubst => OutputTarget::ProcessSubst { path },
                SinkState::Opened(n) => OutputTarget::File { path, append, sink: n },
                SinkState::Failed(why) => {
                    return Err(refuse(target.as_str(), why.as_str()));
                },
            };
            let number: u32 = match fd {
                Some(n) => n,
                None => 1,
            };
            if number == FD_BOTH {
                let copy = destination.clone();
                io.fds_mut().open_output(1, copy);
                io.fds_mut().open_output(2, destination);
            } else {
                io.fds_mut().open_output(number, destination);
            }
            Ok(())
        },
        ResolvedRedirection::DupOutput { fd, target } => {
            let source: u32 = match fd {
                Some(n) => n,
                None => 1,
            };
            let to: u32 = read_fd(target.as_str());
            io.fds_mut().dup_output(source, to);
            Ok(())
        },
        ResolvedRedirection::Other => Ok(()),
    }
}

/// Whether a redirection bears on the streams.
pub open spec fn bears(r: ResolvedRedirection) -> bool {
    !(r is Other)
}

/// The streams of a command with its redirections: those around it with each redirection
/// applied in order. Without any that bears on the streams there are none of its own.
pub fn prepare_exec_io(current: &Option<ExecIo>, redirections: Vec<ResolvedRedirection>) -> (r:
    Result<Option<ExecIo>, String>)
    ensures
        ({
            let start = match io_view(*current) {
                Some(t) => t,
                None => inherited(),
            };
            match r {
                Ok(io) => {
                    &&& redirected_all(start, redirections@, 0) is Ok
                    &&& match io {
                        Some(x) => redirected_all(start, redirections@, 0) == Ok::<
                            FdView,
                            Seq<char>,
                        >(x@) && exists|i: int|
                            0 <= i < redirections@.len() && bears(#[trigger] redirections@[i]),
                        None => forall|i: int|
                            0 <= i < redirections@.len() ==> !bears(#[trigger] redirections@[i]),
                    }
                },
                Err(m) => redirected_all(start, redirections@, 0) == Err::<FdView, Seq<char>>(m@),
            }
        }),
{
    let mut io = match current {
        Some(x) => x.clone(),
        None => ExecIo::default(),
    };
    let ghost start = io@;
    let ghost all = redirections@;
    let mut rest = redirections;
    let mut handled: bool = false;
    let mut i: usize = 0;
    let n: usize = rest.len();
    while i < n
        invariant
            i <= n,
            n == all.len(),
            start == (match io_view(*current) {
                Some(t) => t,
                None => inherited(),
            }),
            all == redirections@,
            rest@ == all.skip(i as int),
            redirected_all(start, all, 0) == redirected_all(io@, all, i as int),
            handled == exists|k: int| 0 <= k < i && bears(#[trigger] all[k]),
        decreases n - i,
    {
        let next = rest.remove(0);
        proof {
            assert(next == all[i as int]);
            assert(rest@ =~= all.skip(i + 1));
        }
        let has_effect: bool = match &next {
            ResolvedRedirection::Other => false,
            _ => true,
        };
        let ghost was = handled;
        if has_effect {
            handled = true;
            assert(bears(all[i as int]));
        }
        match bind_redirection(&mut io, next) {
            Ok(()) => {},
            Err(m) => {
                return Err(m);
            },
        }
        proof {
            if was {
                let k = choose|k: int| 0 <= k < i && bears(#[trigger] all[k]);
                assert(bears(all[k]));
            }
        }
        i = i + 1;
    }
    if handled {
        Ok(Some(io))
    } else {
        Ok(None)
    }
}

/// Whether a redirection is one of the input.
pub open spec fn sets_input(r: ResolvedRedirection) -> bool {
    r is HereDoc || r is HereString || r is Input
}

/// The streams after the redirections of the input from the `i`-th on, and the message of the first
/// that cannot be done, which ends them.
pub open spec fn input_collected(t: FdView, rs: Seq<ResolvedRedirection>, i: int) -> (
    FdView,
    Option<Seq<char>>,
)
    decreases rs.len() - i,
{
    if i < 0 || i >= rs.len() {
        (t, None)
    } else if !sets_input(rs[i]) {
        input_collected(t, rs, i + 1)
    } else {
        match redirected(t, rs[i]) {
            Ok(u) => input_collected(u, rs, i + 1),
            Err(m) => (t, Some(m)),
        }
    }
}

/// Applies the redirections of the input and leaves out all others. Returns the message of the
/// first that cannot be done; what stands before it is kept.
pub fn collect_stdin_from_redirections(
    io: &mut ExecIo,
    redirections: Vec<ResolvedRedirection>,
) -> (r: Option<String>)
    ensures
        ({
            let c = input_collected(old(io)@, redirections@, 0);
            &&& final(io)@ == c.0
            &&& match r {
                Some(m) => c.1 == Some(m@),
                None => c.1 is None,
            }
        }),
{
    let ghost start = io@;
    let ghost all = redirections@;
    let mut rest = redirections;
    let mut i: usize = 0;
    let n: usize = rest.len();
    while i < n
        invariant
            i <= n,
            n == all.len(),
            all == redirections@,
            start == old(io)@,
            rest@ == all.skip(i as int),
            input_collected(start, all, 0) == input_collected(io@, all, i as int),
        decreases n - i,
    {
        let next = rest.remove(0);
        proof {
            assert(next == all[i as int]);
            assert(rest@ =~= all.skip(i + 1));
        }
        let counts: bool = match &next {
            ResolvedRedirection::HereDoc(_) => true,
            ResolvedRedirection::HereString(_) => true,
            ResolvedRedirection::Input { target: _, path: _, kind: _ } => true,
            _ => false,
        };
        if counts {
            match bind_redirection(io, next) {
                Ok(()) => {},
                Err(m) => {
                    return Some(m);
                },
            }
        }
        i = i + 1;
    }
    None
}

/// What output that was already produced is taken for a file.
pub open spec fn taken_for_file(c: ConsoleView, fd: u32, append: bool, from: int) -> (
    Seq<u8>,
    ConsoleView,
) {
    if fd == FD_BOTH && !append {
        let cut = cut_stdout(c, from);
        (active_stdout(c).skip(from) + active_stderr(cut), no_stderr(cut))
    } else if fd == 2 {
        (active_stderr(c), no_stderr(c))
    } else {
        (active_stdout(c).skip(from), cut_stdout(c, from))
    }
}

/// Takes the output that a redirection sends to a file after the fact: the standard output
/// since `from`, the standard error, or for `&>` both.
pub fn take_for_file(console: &mut Console, fd: u32, append: bool, from: usize) -> (r: Vec<u8>)
    requires
        from <= active_stdout(old(console)@).len(),
    ensures
        (r@, final(console)@) == taken_for_file(old(console)@, fd, append, from as int),
{
    if fd == FD_BOTH && !append {
        let mut data = console.capture_stdout(from);
        let ghost first = data@;
        let err = console.take_stderr();
        data.extend_from_slice(err.as_slice());
        assert(data@ =~= first + err@);
        data
    } else if fd == 2 {
        console.take_stderr()
    } else {
        console.capture_stdout(from)
    }
}

/// What a duplication moves after the fact.
#[derive(Debug)]
pub enum Moved {
    /// Standard error that goes to the standard output.
    ToStdout(Vec<u8>),
    /// Standard output that goes to the standard error.
    ToStderr(Vec<u8>),
    Nothing,
}

/// Takes the output that a duplication of descriptors moves after the fact.
pub fn take_for_dup(console: &mut Console, fd: Option<u32>, target: &str, from: usize) -> (r: Moved)
    requires
        from <= active_stdout(old(console)@).len(),
    ensures
        ({
            let source = fd_or_one(fd);
            let to = named_fd(target@);
            match r {
                Moved::ToStdout(d) => source == 2 && to == 1 && d@ == active_stderr(old(console)@)
                    && final(console)@ == no_stderr(old(console)@),
                Moved::ToStderr(d) => source == 1 && to == 2 && d@ == active_stdout(
                    old(console)@,
                ).skip(from as int) && final(console)@ == cut_stdout(old(console)@, from as int),
                Moved::Nothing => !(source == 2 && to == 1) && !(source == 1 && to == 2)
                    && final(console)@ == old(console)@,
            }
        }),
{
    let source: u32 = match fd {
        Some(n) => n,
        None => 1,
    };
    let to: u32 = read_fd(target);
    if source == 2 && to == 1 {
        Moved::ToStdout(console.take_stderr())
    } else if source == 1 && to == 2 {
        Moved::ToStderr(console.capture_stdout(from))
    } else {
        Moved::Nothing
    }
}

/// The output that was opened for a redirection.
pub open spec fn destination(path: Seq<char>, append: bool, sink: SinkState) -> OutputView {
    match sink {
        SinkState::Opened(n) => OutputView::File { path, append, sink: n as nat },
        _ => OutputView::ProcessSubst { path },
    }
}

/// `&>` sends both outputs to what was opened, whatever they were before, and leaves the input alone;
/// it does what `>` and then `2>&1` do.
pub proof fn law_both_outputs(
    t: FdView,
    target: String,
    path: String,
    append: bool,
    sink: SinkState,
    to: String,
)
    requires
        !(sink is Failed),
        to@ == dec(1),
    ensures
        ({
            let both = ResolvedRedirection::Output {
                target,
                path,
                append,
                fd: Some(0xffff_ffffu32),
                sink,
            };
            let first = ResolvedRedirection::Output { target, path, append, fd: None, sink };
            let second = ResolvedRedirection::DupOutput { fd: Some(2u32), target: to };
            let file = destination(path@, append, sink);
            &&& redirected(t, both) == Ok::<FdView, Seq<char>>(
                FdView { stdin: t.stdin, stdout: file, stderr: file },
            )
            &&& redirected(t, both) == redirected_all(t, seq![first, second], 0)
        }),
{
    law_dec_parses(1, u32::MAX as nat);
    let first = ResolvedRedirection::Output { target, path, append, fd: None, sink };
    let second = ResolvedRedirection::DupOutput { fd: Some(2u32), target: to };
    let rs = seq![first, second];
    let u = redirected(t, first)->Ok_0;
    assert(rs[0] == first && rs[1] == second);
    assert(redirected_all(redirected(u, second)->Ok_0, rs, 2) == redirected(u, second));
    assert(redirected_all(u, rs, 1) == redirected(u, second));
}

/// `>` and `1>` send the standard output to what was opened, `2>` the standard error; the other
/// streams stay. What could not be opened gives a message that names it and says why, and changes
/// nothing.
pub proof fn law_one_output(
    t: FdView,
    target: String,
    path: String,
    append: bool,
    fd: Option<u32>,
    sink: SinkState,
)
    requires
        fd matches Some(n) ==> n == 1 || n == 2,
    ensures
        ({
            let r = ResolvedRedirection::Output { target, path, append, fd, sink };
            let file = destination(path@, append, sink);
            match sink {
                SinkState::Failed(why) => redirected(t, r) == Err::<FdView, Seq<char>>(
                    "wasmsh: "@ + target@ + ": "@ + why@ + "\n"@,
                ),
                _ => redirected(t, r) == Ok::<FdView, Seq<char>>(
                    if fd == Some(2u32) {
                        FdView { stdin: t.stdin, stdout: t.stdout, stderr: file }
                    } else {
                        FdView { stdin: t.stdin, stdout: file, stderr: t.stderr }
                    },
                ),
            }
        }),
{
}

/// `2>&1` sends the standard error where the standard output goes then, and `>&2` the standard
/// output where the standard error goes; later redirections of the one do not move the other.
pub proof fn law_duplicated_output(t: FdView, one: String, two: String, later: OutputView)
    requires
        one@ == dec(1),
        two@ == dec(2),
    ensures
        redirected(t, ResolvedRedirection::DupOutput { fd: Some(2u32), target: one }) == Ok::<
            FdView,
            Seq<char>,
        >(FdView { stdin: t.stdin, stdout: t.stdout, stderr: t.stdout }),
        redirected(t, ResolvedRedirection::DupOutput { fd: None, target: two }) == Ok::<
            FdView,
            Seq<char>,
        >(FdView { stdin: t.stdin, stdout: t.stderr, stderr: t.stderr }),
        with_output(FdView { stdin: t.stdin, stdout: t.stdout, stderr: t.stdout }, 1, later)
            == (FdView { stdin: t.stdin, stdout: later, stderr: t.stdout }),
{
    law_dec_parses(1, u32::MAX as nat);
    law_dec_parses(2, u32::MAX as nat);
}

/// An input redirection changes the input alone: a here-document is its body, a here-string its text
/// with a newline behind it, a file itself. A directory and a file that is missing are refused.
pub proof fn law_inputs(
    t: FdView,
    body: Vec<u8>,
    text: String,
    target: String,
    path: String,
)
    ensures
        redirected(t, ResolvedRedirection::HereDoc(Some(body))) == Ok::<FdView, Seq<char>>(
            FdView { stdin: InputView::Bytes(body@), stdout: t.stdout, stderr: t.stderr },
        ),
        redirected(t, ResolvedRedirection::HereString(text)) == Ok::<FdView, Seq<char>>(
            FdView {
                stdin: InputView::Bytes(encode_utf8(text@) + seq![0x0au8]),
                stdout: t.stdout,
                stderr: t.stderr,
            },
        ),
        redirected(
            t,
            ResolvedRedirection::Input { target, path, kind: SourceKind::File },
        ) == Ok::<FdView, Seq<char>>(
            FdView {
                stdin: InputView::File { path: path@, remove_after_read: false },
                stdout: t.stdout,
                stderr: t.stderr,
            },
        ),
        redirected(t, ResolvedRedirection::Input { target, path, kind: SourceKind::Missing }) == Err::<
            FdView,
            Seq<char>,
        >("wasmsh: "@ + target@ + ": "@ + "No such file or directory"@ + "\n"@),
        redirected(
            t,
            ResolvedRedirection::Input { target, path, kind: SourceKind::Directory },
        ) == Err::<FdView, Seq<char>>("wasmsh: "@ + target@ + ": "@ + "Is a directory"@ + "\n"@),
{
    assert(encode_utf8(text@).push(0x0a) =~= encode_utf8(text@) + seq![0x0au8]);
}

proof fn lemma_redirected_from(t: FdView, a: Seq<ResolvedRedirection>, b: Seq<ResolvedRedirection>, i: int)
    requires
        0 <= i <= a.len(),
    ensures
        redirected_all(t, a + b, i) == (match redirected_all(t, a, i) {
            Ok(u) => redirected_all(u, a + b, a.len() as int),
            Err(m) => Err(m),
        }),
    decreases a.len() - i,
{
    if i < a.len() {
        assert((a + b)[i] == a[i]);
        if let Ok(u) = redirected(t, a[i]) {
            lemma_redirected_from(u, a, b, i + 1);
        }
    }
}

proof fn lemma_redirected_shift(t: FdView, a: Seq<ResolvedRedirection>, b: Seq<ResolvedRedirection>, i: int)
    requires
        0 <= i <= b.len(),
    ensures
        redirected_all(t, a + b, a.len() + i) == redirected_all(t, b, i),
    decreases b.len() - i,
{
    if i < b.len() {
        assert((a + b)[a.len() + i] == b[i]);
        if let Ok(u) = redirected(t, b[i]) {
            lemma_redirected_shift(u, a, b, i + 1);
        }
    }
}

/// Redirections are done one after the other, from the left; the first that cannot be done ends them.
pub proof fn law_redirections_in_order(
    t: FdView,
    a: Seq<ResolvedRedirection>,
    b: Seq<ResolvedRedirection>,
)
    ensures
        redirected_all(t, a + b, 0) == (match redirected_all(t, a, 0) {
            Ok(u) => redirected_all(u, b, 0),
            Err(m) => Err(m),
        }),
        redirected_all(t, Seq::empty(), 0) == Ok::<FdView, Seq<char>>(t),
        a.len() == 1 ==> redirected_all(t, a, 0) == redirected(t, a[0]),
{
    lemma_redirected_from(t, a, b, 0);
    if let Ok(u) = redirected_all(t, a, 0) {
        lemma_redirected_shift(u, a, b, 0);
    }
    if a.len() == 1 {
        if let Ok(u) = redirected(t, a[0]) {
            assert(redirected_all(u, a, 1) == Ok::<FdView, Seq<char>>(u));
        }
    }
}

/// What a descriptor is named by: a number stands for itself, and anything else for the standard output.
pub proof fn law_named_descriptors(n: u32, word: Seq<char>)
    ensures
        named_fd(dec(n as nat)) == n,
        parse_unsigned(word, u32::MAX as nat) is None ==> named_fd(word) == 1,
        fd_or_one(None) == 1,
        fd_or_one(Some(n)) == n,
        refusal(word, word) == "wasmsh: "@ + word + ": "@ + word + "\n"@,
{
    law_dec_parses(n as nat, u32::MAX as nat);
}

} // verus!
