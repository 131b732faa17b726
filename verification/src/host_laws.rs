//! What holds of what is exchanged with the host.
use crate::base64::{b64_char, b64_decoded, b64_decoded_from, b64_encoded, b64_group, b64_value};
use crate::external::{after_read, is_answer, ExternalCommandResult};
use crate::fd_table::{
    after_scope, inherited, input_kind_of, output_kind_of, output_of, with_output, without_fd,
    FdView, InputKind, InputView, OutputKind, OutputView,
};
use crate::fetch::{fetch_answers, FetchOutcome, HttpResponse, NetworkError};
use crate::python::{code_source_from, names_python, python_status, SourceView};
use crate::text::{dec_int, utf8_lossy};
use crate::text_laws::law_integers_read_back;
use vstd::prelude::*;
use vstd::utf8::{encode_utf8, encode_utf8_decode_utf8, encode_utf8_valid_utf8};

verus! {

/// The alphabet: capital letters, small letters, digits, and two signs, in this order.
pub proof fn law_alphabet(v: int)
    requires
        0 <= v < 64,
    ensures
        b64_char(0) == 'A' && b64_char(25) == 'Z' && b64_char(26) == 'a' && b64_char(51) == 'z'
            && b64_char(52) == '0' && b64_char(61) == '9' && b64_char(62) == '+' && b64_char(63)
            == '/',
        v != 25 && v != 51 && v < 61 ==> b64_char(v + 1) as int == b64_char(v) as int + 1,
        b64_value(b64_char(v) as int) == Some(v),
        b64_char(v) != '=',
        b64_value('=' as int) is None,
{
}

/// Three bytes are written as four signs that stand for the same bits, most significant first; where
/// there are fewer, what is missing is zero and an `=` says so.
pub proof fn law_groups_keep_the_bits(d: Seq<u8>)
    requires
        1 <= d.len() <= 3,
    ensures
        b64_group(d).len() == 4,
        d.len() == 3 ==> 0x40000 * b64_value(b64_group(d)[0] as int)->0 + 0x1000 * b64_value(
            b64_group(d)[1] as int,
        )->0 + 0x40 * b64_value(b64_group(d)[2] as int)->0 + b64_value(b64_group(d)[3] as int)->0
            == 0x10000 * d[0] + 0x100 * d[1] + d[2],
        d.len() == 2 ==> b64_group(d)[3] == '=' && 0x1000 * b64_value(b64_group(d)[0] as int)->0
            + 0x40 * b64_value(b64_group(d)[1] as int)->0 + b64_value(b64_group(d)[2] as int)->0
            == 4 * (0x100 * d[0] + d[1]),
        d.len() == 1 ==> b64_group(d)[2] == '=' && b64_group(d)[3] == '=' && 0x40 * b64_value(
            b64_group(d)[0] as int,
        )->0 + b64_value(b64_group(d)[1] as int)->0 == 0x10 * d[0],
{
    let b0 = d[0] as int;
    let b1 = if d.len() > 1 {
        d[1] as int
    } else {
        0
    };
    let b2 = if d.len() > 2 {
        d[2] as int
    } else {
        0
    };
    law_alphabet(b0 / 4);
    law_alphabet(b0 % 4 * 16 + b1 / 16);
    law_alphabet(b1 % 16 * 4 + b2 / 64);
    law_alphabet(b2 % 64);
}

/// Data is written three bytes at a time, so its length is four signs for each three bytes begun.
pub proof fn law_groups_follow_each_other(d: Seq<u8>)
    ensures
        b64_encoded(d).len() == (d.len() + 2) / 3 * 4,
        d.len() > 3 ==> b64_encoded(d) == b64_group(d.take(3)) + b64_encoded(d.skip(3)),
        1 <= d.len() <= 3 ==> b64_encoded(d) == b64_group(d),
    decreases d.len(),
{
    if d.len() > 3 {
        law_groups_follow_each_other(d.skip(3));
    }
}

/// Bytes outside the alphabet, line ends among them, are passed over.
pub proof fn law_other_bytes_are_passed_over(s: Seq<u8>, b: u8, buf: int, bits: int)
    requires
        b == 0x3d || b == 0x0a || b == 0x0d || b == 0x20,
    ensures
        b64_decoded_from(seq![b] + s, buf, bits) == b64_decoded_from(s, buf, bits),
        b64_decoded(Seq::empty()).len() == 0,
{
    let t = seq![b] + s;
    assert(t[0] == b);
    assert(t.skip(1) =~= s);
}

/// The code of a run: what follows `-c`, else the first word that is no option names a script, else it
/// is read from the standard input.
pub proof fn law_code_of_a_run(
    argv: Seq<Seq<char>>,
    i: int,
    stdin: Option<Seq<u8>>,
)
    requires
        0 <= i < argv.len(),
    ensures
        argv[i] == "-c"@ && i + 1 < argv.len() ==> code_source_from(argv, i, stdin)
            == SourceView::Code(argv[i + 1]),
        argv[i] == "-c"@ && i + 1 == argv.len() ==> code_source_from(argv, i, stdin)
            == SourceView::Code(Seq::empty()),
        argv[i] != "-c"@ && argv[i].len() > 0 && argv[i][0] == '-' ==> code_source_from(
            argv,
            i,
            stdin,
        ) == code_source_from(argv, i + 1, stdin),
        !(argv[i].len() > 0 && argv[i][0] == '-') ==> code_source_from(argv, i, stdin)
            == SourceView::Script(argv[i]),
        stdin matches Some(d) && d.len() > 0 ==> code_source_from(argv, argv.len() as int, stdin)
            == SourceView::Code(utf8_lossy(stdin->0)),
        stdin is None ==> code_source_from(argv, argv.len() as int, stdin) == SourceView::Code(
            Seq::empty(),
        ),
        names_python("python"@) && names_python("python3"@),
{
    reveal_strlit("-");
    reveal_strlit("-c");
    let w = argv[i];
    if w.len() > 0 {
        assert(w.take(1)[0] == w[0]);
        if w[0] == '-' {
            assert(w.take(1) =~= "-"@);
        }
    }
    assert("-"@[0] == '-' && "-c"@[0] == '-');
}

/// The status of a run is what it left as its exit code; a run that could not be made fails.
pub proof fn law_status_of_a_run(rc: int, exit: Seq<u8>, n: i32)
    ensures
        rc != 0 ==> python_status(rc, exit) == 1,
        python_status(0, encode_utf8(dec_int(n as int))) == n,
        !vstd::utf8::valid_utf8(exit) ==> python_status(0, exit) == 0,
{
    law_integers_read_back(n as int, i32::MIN as int, i32::MAX as int);
    crate::dbl_bracket_laws::lemma_decimal_is_trimmed(n as int);
    encode_utf8_decode_utf8(dec_int(n as int));
    encode_utf8_valid_utf8(dec_int(n as int));
}

/// Reading takes bytes from the front, so what was read and what is left are what there was.
pub proof fn law_reads_take_from_the_front(chunks: Seq<Seq<u8>>, n: int)
    requires
        chunks.len() > 0,
        0 <= n <= chunks[0].len(),
    ensures
        chunks[0].take(n) + after_read(chunks, n).flatten() == chunks.flatten(),
{
    if n >= chunks[0].len() {
        assert(chunks[0].take(n) =~= chunks[0]);
    } else {
        let left = after_read(chunks, n);
        assert(left.drop_first() =~= chunks.drop_first());
        assert(left[0] == chunks[0].skip(n));
        assert(chunks[0].take(n) + (chunks[0].skip(n) + chunks.drop_first().flatten()) =~= chunks[0]
            + chunks.drop_first().flatten());
    }
}

/// Each descriptor is set by itself: giving one a target leaves the others, and a closed one is closed.
pub proof fn law_descriptors_are_independent(t: FdView, target: OutputView)
    ensures
        output_of(with_output(t, 1, target), 1) == target,
        output_of(with_output(t, 1, target), 2) == output_of(t, 2),
        output_of(with_output(t, 2, target), 2) == target,
        output_of(with_output(t, 2, target), 1) == output_of(t, 1),
        with_output(t, 1, target).stdin == t.stdin && with_output(t, 2, target).stdin == t.stdin,
        output_of(t, 1) == t.stdout && output_of(t, 2) == t.stderr,
        without_fd(t, 0).stdin is Closed && without_fd(t, 0).stdout == t.stdout && without_fd(
            t,
            0,
        ).stderr == t.stderr,
        without_fd(t, 1).stdout is Closed && without_fd(t, 1).stdin == t.stdin && without_fd(
            t,
            1,
        ).stderr == t.stderr,
        without_fd(t, 2).stderr is Closed && without_fd(t, 2).stdin == t.stdin && without_fd(
            t,
            2,
        ).stdout == t.stdout,
        inherited().stdin is Inherit && inherited().stdout is InheritStdout && inherited().stderr
            is InheritStderr,
{
}

/// After a scope the outputs are what they were before it; what it read of the input stays read.
pub proof fn law_scopes_give_back_the_outputs(saved: FdView, current: FdView)
    ensures
        after_scope(Some(saved), Some(current)) matches Some(t) && t.stdout == saved.stdout
            && t.stderr == saved.stderr && t.stdin == current.stdin,
        after_scope(Some(saved), None) == Some(saved),
        after_scope(None, Some(current)) is None,
        after_scope(None, None) is None,
{
}

/// What a descriptor leads to is of one kind only, and a file keeps its path and how it is opened.
pub proof fn law_kinds_of_targets(k: OutputKind, i: InputKind, t: OutputView, s: InputView)
    requires
        output_kind_of(k, t),
        input_kind_of(i, s),
    ensures
        t is InheritStdout <==> k is InheritStdout,
        t is InheritStderr <==> k is InheritStderr,
        t is Pipe <==> k is Pipe,
        t is Closed <==> k is Closed,
        t is File <==> k is File,
        t is ProcessSubst <==> k is ProcessSubst,
        k matches OutputKind::File { path, append } ==> path@ == t->File_path && append
            == t->append,
        s is Inherit <==> i is Inherit,
        s is Closed <==> i is Closed,
        s is Pipe <==> i is Pipe,
        i matches InputKind::Bytes(v) ==> s == InputView::Bytes(v@),
        i matches InputKind::File { path, remove_after_read } ==> s == (InputView::File {
            path: path@,
            remove_after_read,
        }),
{
}

/// What the host says of a command stands; a command that it does not know ends with the status for
/// that, a message, and no output.
pub proof fn law_unknown_commands(
    name: Seq<char>,
    known: ExternalCommandResult,
    r: ExternalCommandResult,
)
    ensures
        is_answer(name, Some(known), r) <==> r == known,
        is_answer(name, None, r) ==> r.status == 127 && r.stdout@.len() == 0 && r.stderr@
            == encode_utf8("wasmsh: "@ + name + ": command not found\n"@),
{
}

/// A reply of the network is handed on as it came, its body decoded; without one, or with one that is an
/// error, there is an error.
pub proof fn law_replies_of_the_network(outcome: FetchOutcome, r: Result<HttpResponse, NetworkError>)
    requires
        fetch_answers(outcome, r),
    ensures
        r is Ok <==> (outcome matches FetchOutcome::Reply(reply) && reply.error is None),
        r matches Ok(x) ==> (outcome matches FetchOutcome::Reply(reply) && x.status == reply.status
            && x.headers == reply.headers && x.body@ == b64_decoded(
            encode_utf8(reply.body_base64@),
        )),
        outcome matches FetchOutcome::Reply(reply) ==> (reply.error matches Some(e) ==> r == Err::<
            HttpResponse,
            NetworkError,
        >(NetworkError::ConnectionFailed(e))),
        outcome is Missing ==> (r matches Err(NetworkError::Other(m)) && m@
            == "fetch returned null"@),
        outcome matches FetchOutcome::Invalid(e) ==> (r matches Err(NetworkError::Other(m)) && m@
            == "invalid fetch response: "@ + e@),
{
}

} // verus!
