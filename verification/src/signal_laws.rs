//! What holds of signals.
use crate::signals::{normalized_signal, signal_answers, signal_specs, RuntimeSignalSpec};
use crate::text::{dec_int, starts_with, upper_ascii};
use crate::text_laws::law_integers_read_back;
use vstd::prelude::*;

verus! {

/// The variables of a signal are named after it: one holds its handler, one says that it is ignored.
pub proof fn law_variables_of_a_signal(i: int)
    requires
        0 <= i < signal_specs().len(),
    ensures
        ({
            let s = signal_specs()[i];
            &&& s.handler_var@ == "_TRAP_SIG_"@ + s.name@
            &&& s.ignore_var@ == "_TRAP_IGNORE_SIG_"@ + s.name@
        }),
{
    reveal_strlit("_TRAP_SIG_");
    reveal_strlit("_TRAP_IGNORE_SIG_");
    let s = signal_specs()[i];
    if i == 0 {
        reveal_strlit("HUP");
        reveal_strlit("_TRAP_SIG_HUP");
        reveal_strlit("_TRAP_IGNORE_SIG_HUP");
        assert(s.handler_var@ =~= "_TRAP_SIG_"@ + s.name@);
        assert(s.ignore_var@ =~= "_TRAP_IGNORE_SIG_"@ + s.name@);
    }
    if i == 1 {
        reveal_strlit("INT");
        reveal_strlit("_TRAP_SIG_INT");
        reveal_strlit("_TRAP_IGNORE_SIG_INT");
        assert(s.handler_var@ =~= "_TRAP_SIG_"@ + s.name@);
        assert(s.ignore_var@ =~= "_TRAP_IGNORE_SIG_"@ + s.name@);
    }
    if i == 2 {
        reveal_strlit("QUIT");
        reveal_strlit("_TRAP_SIG_QUIT");
        reveal_strlit("_TRAP_IGNORE_SIG_QUIT");
        assert(s.handler_var@ =~= "_TRAP_SIG_"@ + s.name@);
        assert(s.ignore_var@ =~= "_TRAP_IGNORE_SIG_"@ + s.name@);
    }
    if i == 3 {
        reveal_strlit("ILL");
        reveal_strlit("_TRAP_SIG_ILL");
        reveal_strlit("_TRAP_IGNORE_SIG_ILL");
        assert(s.handler_var@ =~= "_TRAP_SIG_"@ + s.name@);
        assert(s.ignore_var@ =~= "_TRAP_IGNORE_SIG_"@ + s.name@);
    }
    if i == 4 {
        reveal_strlit("ABRT");
        reveal_strlit("_TRAP_SIG_ABRT");
        reveal_strlit("_TRAP_IGNORE_SIG_ABRT");
        assert(s.handler_var@ =~= "_TRAP_SIG_"@ + s.name@);
        assert(s.ignore_var@ =~= "_TRAP_IGNORE_SIG_"@ + s.name@);
    }
    if i == 5 {
        reveal_strlit("FPE");
        reveal_strlit("_TRAP_SIG_FPE");
        reveal_strlit("_TRAP_IGNORE_SIG_FPE");
        assert(s.handler_var@ =~= "_TRAP_SIG_"@ + s.name@);
        assert(s.ignore_var@ =~= "_TRAP_IGNORE_SIG_"@ + s.name@);
    }
    if i == 6 {
        reveal_strlit("KILL");
        reveal_strlit("_TRAP_SIG_KILL");
        reveal_strlit("_TRAP_IGNORE_SIG_KILL");
        assert(s.handler_var@ =~= "_TRAP_SIG_"@ + s.name@);
        assert(s.ignore_var@ =~= "_TRAP_IGNORE_SIG_"@ + s.name@);
    }
    if i == 7 {
        reveal_strlit("USR1");
        reveal_strlit("_TRAP_SIG_USR1");
        reveal_strlit("_TRAP_IGNORE_SIG_USR1");
        assert(s.handler_var@ =~= "_TRAP_SIG_"@ + s.name@);
        assert(s.ignore_var@ =~= "_TRAP_IGNORE_SIG_"@ + s.name@);
    }
    if i == 8 {
        reveal_strlit("SEGV");
        reveal_strlit("_TRAP_SIG_SEGV");
        reveal_strlit("_TRAP_IGNORE_SIG_SEGV");
        assert(s.handler_var@ =~= "_TRAP_SIG_"@ + s.name@);
        assert(s.ignore_var@ =~= "_TRAP_IGNORE_SIG_"@ + s.name@);
    }
    if i == 9 {
        reveal_strlit("USR2");
        reveal_strlit("_TRAP_SIG_USR2");
        reveal_strlit("_TRAP_IGNORE_SIG_USR2");
        assert(s.handler_var@ =~= "_TRAP_SIG_"@ + s.name@);
        assert(s.ignore_var@ =~= "_TRAP_IGNORE_SIG_"@ + s.name@);
    }
    if i == 10 {
        reveal_strlit("PIPE");
        reveal_strlit("_TRAP_SIG_PIPE");
        reveal_strlit("_TRAP_IGNORE_SIG_PIPE");
        assert(s.handler_var@ =~= "_TRAP_SIG_"@ + s.name@);
        assert(s.ignore_var@ =~= "_TRAP_IGNORE_SIG_"@ + s.name@);
    }
    if i == 11 {
        reveal_strlit("ALRM");
        reveal_strlit("_TRAP_SIG_ALRM");
        reveal_strlit("_TRAP_IGNORE_SIG_ALRM");
        assert(s.handler_var@ =~= "_TRAP_SIG_"@ + s.name@);
        assert(s.ignore_var@ =~= "_TRAP_IGNORE_SIG_"@ + s.name@);
    }
    if i == 12 {
        reveal_strlit("TERM");
        reveal_strlit("_TRAP_SIG_TERM");
        reveal_strlit("_TRAP_IGNORE_SIG_TERM");
        assert(s.handler_var@ =~= "_TRAP_SIG_"@ + s.name@);
        assert(s.ignore_var@ =~= "_TRAP_IGNORE_SIG_"@ + s.name@);
    }
    if i == 13 {
        reveal_strlit("CHLD");
        reveal_strlit("_TRAP_SIG_CHLD");
        reveal_strlit("_TRAP_IGNORE_SIG_CHLD");
        assert(s.handler_var@ =~= "_TRAP_SIG_"@ + s.name@);
        assert(s.ignore_var@ =~= "_TRAP_IGNORE_SIG_"@ + s.name@);
    }
    if i == 14 {
        reveal_strlit("CONT");
        reveal_strlit("_TRAP_SIG_CONT");
        reveal_strlit("_TRAP_IGNORE_SIG_CONT");
        assert(s.handler_var@ =~= "_TRAP_SIG_"@ + s.name@);
        assert(s.ignore_var@ =~= "_TRAP_IGNORE_SIG_"@ + s.name@);
    }
    if i == 15 {
        reveal_strlit("STOP");
        reveal_strlit("_TRAP_SIG_STOP");
        reveal_strlit("_TRAP_IGNORE_SIG_STOP");
        assert(s.handler_var@ =~= "_TRAP_SIG_"@ + s.name@);
        assert(s.ignore_var@ =~= "_TRAP_IGNORE_SIG_"@ + s.name@);
    }
    if i == 16 {
        reveal_strlit("TSTP");
        reveal_strlit("_TRAP_SIG_TSTP");
        reveal_strlit("_TRAP_IGNORE_SIG_TSTP");
        assert(s.handler_var@ =~= "_TRAP_SIG_"@ + s.name@);
        assert(s.ignore_var@ =~= "_TRAP_IGNORE_SIG_"@ + s.name@);
    }
    if i == 17 {
        reveal_strlit("TTIN");
        reveal_strlit("_TRAP_SIG_TTIN");
        reveal_strlit("_TRAP_IGNORE_SIG_TTIN");
        assert(s.handler_var@ =~= "_TRAP_SIG_"@ + s.name@);
        assert(s.ignore_var@ =~= "_TRAP_IGNORE_SIG_"@ + s.name@);
    }
    if i == 18 {
        reveal_strlit("TTOU");
        reveal_strlit("_TRAP_SIG_TTOU");
        reveal_strlit("_TRAP_IGNORE_SIG_TTOU");
        assert(s.handler_var@ =~= "_TRAP_SIG_"@ + s.name@);
        assert(s.ignore_var@ =~= "_TRAP_IGNORE_SIG_"@ + s.name@);
    }
    if i == 19 {
        reveal_strlit("WINCH");
        reveal_strlit("_TRAP_SIG_WINCH");
        reveal_strlit("_TRAP_IGNORE_SIG_WINCH");
        assert(s.handler_var@ =~= "_TRAP_SIG_"@ + s.name@);
        assert(s.ignore_var@ =~= "_TRAP_IGNORE_SIG_"@ + s.name@);
    }
}

/// The numbers of the signals, and what each does where it is not trapped.
pub proof fn law_numbers_of_signals(i: int)
    requires
        0 <= i < signal_specs().len(),
    ensures
        ({
            let s = signal_specs()[i];
            let terminates = s.default_action is Terminate;
            &&& s.number == 1 ==> s.name@ == "HUP"@ && terminates
            &&& s.number == 2 ==> s.name@ == "INT"@ && terminates
            &&& s.number == 3 ==> s.name@ == "QUIT"@ && terminates
            &&& s.number == 4 ==> s.name@ == "ILL"@ && terminates
            &&& s.number == 6 ==> s.name@ == "ABRT"@ && terminates
            &&& s.number == 8 ==> s.name@ == "FPE"@ && terminates
            &&& s.number == 9 ==> s.name@ == "KILL"@ && terminates
            &&& s.number == 10 ==> s.name@ == "USR1"@ && terminates
            &&& s.number == 11 ==> s.name@ == "SEGV"@ && terminates
            &&& s.number == 12 ==> s.name@ == "USR2"@ && terminates
            &&& s.number == 13 ==> s.name@ == "PIPE"@ && terminates
            &&& s.number == 14 ==> s.name@ == "ALRM"@ && terminates
            &&& s.number == 15 ==> s.name@ == "TERM"@ && terminates
            &&& s.number == 17 ==> s.name@ == "CHLD"@ && s.default_action is Ignore
            &&& s.number == 18 ==> s.name@ == "CONT"@ && s.default_action is ContinueLike
            &&& s.number == 19 ==> s.name@ == "STOP"@ && s.default_action is StopLike
            &&& s.number == 20 ==> s.name@ == "TSTP"@ && s.default_action is StopLike
            &&& s.number == 21 ==> s.name@ == "TTIN"@ && s.default_action is StopLike
            &&& s.number == 22 ==> s.name@ == "TTOU"@ && s.default_action is StopLike
            &&& s.number == 28 ==> s.name@ == "WINCH"@ && s.default_action is Ignore
            &&& s.trappable <==> s.number != 9 && s.number != 19
        }),
        signal_specs().len() == 20,
{
}

/// A signal is named by its number or by its name, with `SIG` in front or not, in letters of either
/// case.
pub proof fn law_names_of_signals(s: RuntimeSignalSpec, name: Seq<char>, n: i32)
    requires
        crate::text::parse_signed(name, i32::MIN as int, i32::MAX as int) is None,
    ensures
        signal_answers(s, dec_int(n as int)) <==> s.number == n,
        signal_answers(s, name) <==> s.name@ == normalized_signal(name),
        normalized_signal(seq!['S', 'I', 'G'] + name) == upper_ascii(name),
        !starts_with(name, "SIG"@) ==> normalized_signal(name) == upper_ascii(name),
{
    law_integers_read_back(n as int, i32::MIN as int, i32::MAX as int);
    reveal_strlit("SIG");
    let long = seq!['S', 'I', 'G'] + name;
    assert(long.take(3) =~= "SIG"@);
    assert(long.skip(3) =~= name);
}

} // verus!
