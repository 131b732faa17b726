//! What holds of the control flow of a shell.
use crate::pattern::glob::law_plain_pattern_matches_itself;
use crate::runtime::control::{
    case_bodies, case_matches, case_next, loop_goes_on, CaseRun, CaseTerminator,
};
use crate::runtime::flow::{
    break_depth_of, errexit_applies, exit_code_of, loop_round, loop_stops, option_on, AndOrShape,
    ExecState,
};
use crate::runtime::isolated::{
    has_stderr, has_stdout, isolated_console, isolated_io, merged, merged_one,
    synced_steps,
};
use crate::runtime::output::ConsoleView;
use crate::runtime::protocol::EventView;
use crate::runtime::signal::{is_effect, trap_handler, SignalEffect, TrapKind};
use crate::signals::RuntimeSignalSpec;
use crate::state::named_value;
use crate::text::{
    dec, dec_int, law_dec_parses, lemma_utf8_injective, lowercased, parse_signed, parse_unsigned,
};
use crate::text_laws::law_integers_read_back;
use crate::vars::EnvView;
use vstd::prelude::*;
use vstd::utf8::encode_utf8;

verus! {

/// With `;;&` after each item, every item that matches runs and no other, in their order.
pub proof fn law_case_tests_every_item(
    c: CaseRun,
    matched: Seq<bool>,
    terminators: Seq<CaseTerminator>,
)
    requires
        !c.done,
        !c.fallthrough,
        c.index <= matched.len() < usize::MAX,
        matched.len() == terminators.len(),
        forall|i: int|
            0 <= i < terminators.len() ==> terminators[i] == CaseTerminator::ContinueTesting,
    ensures
        ({
            let bodies = case_bodies(c, matched, terminators);
            &&& forall|i: int|
                c.index <= i < matched.len() ==> (bodies.contains(i) <==> #[trigger] matched[i])
            &&& forall|k: int|
                0 <= k < bodies.len() ==> c.index <= #[trigger] bodies[k] < matched.len()
            &&& forall|j: int, k: int|
                0 <= j < k < bodies.len() ==> #[trigger] bodies[j] < #[trigger] bodies[k]
        }),
    decreases matched.len() - c.index,
{
    if c.index < matched.len() {
        let i = c.index as int;
        assert(terminators[i] == CaseTerminator::ContinueTesting);
        let next = case_next(c, matched[i], terminators[i]);
        law_case_tests_every_item(next, matched, terminators);
        let rest = case_bodies(next, matched, terminators);
        let bodies = case_bodies(c, matched, terminators);
        if matched[i] {
            assert(bodies == seq![i] + rest);
            assert(bodies[0] == i);
            assert forall|k: int| i <= k < matched.len() implies (bodies.contains(k)
                <==> #[trigger] matched[k]) by {
                if k > i {
                    if rest.contains(k) {
                        let j = choose|j: int| 0 <= j < rest.len() && rest[j] == k;
                        assert(bodies[j + 1] == k);
                    }
                    if bodies.contains(k) {
                        let j = choose|j: int| 0 <= j < bodies.len() && bodies[j] == k;
                        assert(rest[j - 1] == k);
                    }
                }
            }
            assert forall|k: int| 0 <= k < bodies.len() implies c.index <= #[trigger] bodies[k]
                < matched.len() by {
                if k > 0 {
                    assert(bodies[k] == rest[k - 1]);
                }
            }
            assert forall|j: int, k: int| 0 <= j < k < bodies.len() implies #[trigger] bodies[j]
                < #[trigger] bodies[k] by {
                assert(bodies[k] == rest[k - 1]);
                if j > 0 {
                    assert(bodies[j] == rest[j - 1]);
                }
            }
        } else {
            assert(bodies == rest);
            assert forall|k: int| i <= k < matched.len() implies (bodies.contains(k)
                <==> #[trigger] matched[k]) by {
                if k == i && bodies.contains(k) {
                    let j = choose|j: int| 0 <= j < bodies.len() && bodies[j] == k;
                    assert(rest[j] > i);
                }
            }
        }
    }
}

/// With `;&` after each item, the first item that matches runs and all that follow it, matching or not.
pub proof fn law_case_falls_through(
    c: CaseRun,
    matched: Seq<bool>,
    terminators: Seq<CaseTerminator>,
    hit: int,
)
    requires
        !c.done,
        c.index <= hit <= matched.len() < usize::MAX,
        matched.len() == terminators.len(),
        c.fallthrough ==> hit == c.index,
        forall|i: int|
            0 <= i < terminators.len() ==> terminators[i] == CaseTerminator::Fallthrough,
        forall|i: int| c.index <= i < hit ==> !matched[i],
        !c.fallthrough && hit < matched.len() ==> matched[hit],
    ensures
        case_bodies(c, matched, terminators) == Seq::new(
            (matched.len() - hit) as nat,
            |k: int| hit + k,
        ),
    decreases matched.len() - c.index,
{
    let all = Seq::new((matched.len() - hit) as nat, |k: int| hit + k);
    if c.index < matched.len() {
        let i = c.index as int;
        assert(terminators[i] == CaseTerminator::Fallthrough);
        let next = case_next(c, matched[i], terminators[i]);
        if i < hit {
            assert(!matched[i]);
            law_case_falls_through(next, matched, terminators, hit);
        } else {
            law_case_falls_through(next, matched, terminators, i + 1);
            let rest = case_bodies(next, matched, terminators);
            assert(seq![i] + rest =~= all);
        }
    } else {
        assert(all =~= Seq::empty());
    }
}

/// A pattern without signs matches the word that it is and no other, and with letter case ignored a
/// comparison is that of the two in lower case.
pub proof fn law_case_patterns(pattern: Seq<char>, value: Seq<char>)
    ensures
        ({
            let p = encode_utf8(pattern);
            !p.contains(0x2a) && !p.contains(0x3f) && !p.contains(0x5b)
        }) ==> (case_matches(pattern, value, false) <==> value == pattern),
        case_matches(pattern, value, true) == case_matches(
            lowercased(pattern),
            lowercased(value),
            false,
        ),
{
    let p = encode_utf8(pattern);
    if !p.contains(0x2a) && !p.contains(0x3f) && !p.contains(0x5b) {
        law_plain_pattern_matches_itself(p, encode_utf8(value));
        if encode_utf8(value) == p {
            lemma_utf8_injective(value, pattern);
        }
    }
}

/// `break n` and `continue n` count the loops that they are given; without a number they count one.
/// `exit n` ends with that status, and without a number with the last one.
pub proof fn law_written_counts(n: u32, code: i32, word: Seq<char>, last_status: i32)
    ensures
        break_depth_of(Some(dec(n as nat))) == n,
        break_depth_of(None) == 1,
        parse_unsigned(word, u32::MAX as nat) is None ==> break_depth_of(Some(word)) == 1,
        exit_code_of(Some(dec_int(code as int)), last_status) == code,
        exit_code_of(None, last_status) == last_status,
        parse_signed(word, i32::MIN as int, i32::MAX as int) is None ==> exit_code_of(
            Some(word),
            last_status,
        ) == last_status,
{
    law_dec_parses(n as nat, u32::MAX as nat);
    law_integers_read_back(code as int, i32::MIN as int, i32::MAX as int);
}

/// A loop ends at a `break` and at an `exit`, and at nothing else; a round that was cut short by
/// `continue` is followed by the next one.
pub proof fn law_loops(e: ExecState)
    ensures
        loop_stops(e) <==> e.break_depth > 0 || e.exit_requested is Some,
        e.break_depth == 0 ==> !loop_round(e).loop_continue && loop_round(e).break_depth == 0,
        e.break_depth > 0 ==> loop_round(e).break_depth == e.break_depth - 1,
        loop_round(e).exit_requested == e.exit_requested,
        loop_round(e).errexit_suppressed == e.errexit_suppressed,
{
}

/// With `set -e` a command that fails ends the shell, unless it stands in a condition, is negated, is
/// joined to another one, or the shell ends already.
pub proof fn law_errexit(
    e: ExecState,
    env: EnvView,
    positional: Seq<Seq<char>>,
    status: i32,
    shape: AndOrShape,
)
    ensures
        errexit_applies(e, env, positional, 0, shape) == false,
        e.errexit_suppressed || shape.joined || shape.negated || e.exit_requested is Some
            ==> !errexit_applies(e, env, positional, status, shape),
        named_value(env, positional, "SHOPT_e"@) != Some("1"@) ==> !errexit_applies(
            e,
            env,
            positional,
            status,
            shape,
        ),
        status != 0 && named_value(env, positional, "SHOPT_e"@) == Some("1"@)
            && !e.errexit_suppressed && !shape.joined && !shape.negated && e.exit_requested is None
            ==> errexit_applies(e, env, positional, status, shape),
{
}

/// The events of a run that is part of another are put behind what there is, once for each stream; all
/// that are of no stream are kept.
pub proof fn law_merged_events(events: Seq<EventView>, inner: Seq<EventView>)
    ensures
        ({
            let all = merged(events, inner);
            &&& events.len() <= all.len()
            &&& all.take(events.len() as int) == events
            &&& has_stdout(all) <==> has_stdout(events) || has_stdout(inner)
            &&& has_stderr(all) <==> has_stderr(events) || has_stderr(inner)
            &&& forall|k: int|
                0 <= k < inner.len() && !((#[trigger] inner[k]) is Stdout) && !(inner[k] is Stderr)
                    ==> all.contains(inner[k])
            &&& forall|j: int, k: int|
                events.len() <= k < all.len() && 0 <= j < k && (#[trigger] all[j]) is Stdout
                    ==> !((#[trigger] all[k]) is Stdout)
            &&& forall|j: int, k: int|
                events.len() <= k < all.len() && 0 <= j < k && (#[trigger] all[j]) is Stderr
                    ==> !((#[trigger] all[k]) is Stderr)
        }),
    decreases inner.len(),
{
    let all = merged(events, inner);
    if inner.len() == 0 {
        assert(all.take(events.len() as int) =~= events);
    } else {
        let first = inner.drop_last();
        let e = inner.last();
        law_merged_events(events, first);
        let before = merged(events, first);
        assert(all == merged_one(before, e));
        assert(all.take(events.len() as int) =~= before.take(events.len() as int));
        assert(inner[inner.len() - 1] == e);
        assert forall|k: int| 0 <= k < first.len() implies #[trigger] first[k] == inner[k] by {}
        if has_stdout(inner) && !(e is Stdout) {
            let k = choose|k: int| 0 <= k < inner.len() && #[trigger] inner[k] is Stdout;
            assert(first[k] is Stdout);
        }
        if has_stdout(first) {
            let k = choose|k: int| 0 <= k < first.len() && #[trigger] first[k] is Stdout;
            assert(inner[k] is Stdout);
        }
        if has_stderr(inner) && !(e is Stderr) {
            let k = choose|k: int| 0 <= k < inner.len() && #[trigger] inner[k] is Stderr;
            assert(first[k] is Stderr);
        }
        if has_stderr(first) {
            let k = choose|k: int| 0 <= k < first.len() && #[trigger] first[k] is Stderr;
            assert(inner[k] is Stderr);
        }
        if all.len() > before.len() {
            assert(all == before.push(e));
            assert(all[before.len() as int] == e);
            if has_stdout(before) {
                let k = choose|k: int| 0 <= k < before.len() && #[trigger] before[k] is Stdout;
                assert(all[k] is Stdout);
            }
            if has_stderr(before) {
                let k = choose|k: int| 0 <= k < before.len() && #[trigger] before[k] is Stderr;
                assert(all[k] is Stderr);
            }
            if has_stdout(all) && !(e is Stdout) {
                let k = choose|k: int| 0 <= k < all.len() && #[trigger] all[k] is Stdout;
                assert(before[k] is Stdout);
            }
            if has_stderr(all) && !(e is Stderr) {
                let k = choose|k: int| 0 <= k < all.len() && #[trigger] all[k] is Stderr;
                assert(before[k] is Stderr);
            }
            assert forall|j: int, k: int|
                events.len() <= k < all.len() && 0 <= j < k && (#[trigger] all[j]) is Stdout implies !((
            #[trigger] all[k]) is Stdout) by {
                assert(all[j] == before[j]);
                if k < before.len() {
                    assert(all[k] == before[k]);
                }
            }
            assert forall|j: int, k: int|
                events.len() <= k < all.len() && 0 <= j < k && (#[trigger] all[j]) is Stderr implies !((
            #[trigger] all[k]) is Stderr) by {
                assert(all[j] == before[j]);
                if k < before.len() {
                    assert(all[k] == before[k]);
                }
            }
        }
        assert forall|k: int|
            0 <= k < inner.len() && !((#[trigger] inner[k]) is Stdout) && !(inner[k]
                is Stderr) implies all.contains(inner[k]) by {
            if k < first.len() {
                assert(first[k] == inner[k]);
                let j = choose|j: int| 0 <= j < before.len() && before[j] == first[k];
                assert(all[j] == inner[k]);
            }
        }
    }
}

/// What a run that is kept apart is given: its own place for each stream, nothing of the output so far,
/// and the input that is handed to it.
pub proof fn law_kept_apart(c: ConsoleView)
    ensures
        ({
            let i = isolated_console(c);
            &&& i.captures.len() == c.captures.len() + 1
            &&& i.captures.drop_last() == c.captures
            &&& i.captures.last().capture_stdout && i.captures.last().capture_stderr
            &&& i.captures.last().stdout.len() == 0 && i.captures.last().stderr.len() == 0
            &&& i.stdout.len() == 0 && i.stderr.len() == 0
            &&& i.output_bytes == c.output_bytes && i.output_limit == c.output_limit
        }),
        isolated_io(None) is None,
{
    assert(isolated_console(c).captures.drop_last() =~= c.captures);
}

/// The steps of a script are added to those of its parent, those that were counted before left out, and
/// the limit is exceeded exactly where the sum is greater.
pub proof fn law_steps_add_up(parent: u64, current: u64, synced: u64, limit: u64)
    requires
        synced <= current,
        parent + (current - synced) <= u64::MAX,
    ensures
        synced_steps(parent, current, synced, limit).steps == parent + (current - synced),
        synced_steps(parent, current, synced, limit).synced == current,
        synced_steps(parent, current, synced, 0).exhausted is None,
        current > synced && limit > 0 ==> (synced_steps(
            parent,
            current,
            synced,
            limit,
        ).exhausted is Some <==> parent + (current - synced) > limit),
{
}

/// What a signal does: one that can be trapped runs its handler, or nothing where it is ignored; without
/// either, and where it cannot be trapped, what it does by itself.
pub proof fn law_signals(
    env: EnvView,
    positional: Seq<Seq<char>>,
    spec: RuntimeSignalSpec,
    effect: SignalEffect,
)
    requires
        is_effect(env, positional, spec, effect),
        0 < spec.number < 64,
    ensures
        ({
            let handler = named_value(env, positional, spec.handler_var@);
            let trapped = spec.trappable && (handler matches Some(h) && h.len() > 0);
            let ignored = spec.trappable && named_value(env, positional, spec.ignore_var@) == Some(
                "1"@,
            );
            &&& effect matches SignalEffect::Handler(h) ==> trapped && Some(h@) == handler
            &&& trapped ==> effect is Handler
            &&& !trapped && ignored ==> effect is Nothing
            &&& !trapped && !ignored ==> {
                &&& spec.default_action is Terminate ==> effect == SignalEffect::Terminate(
                    (128 + spec.number) as i32,
                )
                &&& spec.default_action is Ignore ==> effect is Nothing
                &&& spec.default_action is ContinueLike ==> effect is Nothing
                &&& spec.default_action is StopLike ==> effect is Stop
            }
        }),
{
}

/// The handlers of the shell's own traps; inside a function they need the option that hands them down.
pub proof fn law_traps(env: EnvView, positional: Seq<Seq<char>>, h: Seq<char>)
    requires
        h.len() > 0,
    ensures
        trap_handler(env, positional, false, TrapKind::Debug) == Some(h) <==> named_value(
            env,
            positional,
            "_TRAP_DEBUG"@,
        ) == Some(h),
        trap_handler(env, positional, false, TrapKind::Return) == Some(h) <==> named_value(
            env,
            positional,
            "_TRAP_RETURN"@,
        ) == Some(h),
        trap_handler(env, positional, false, TrapKind::Failure) == Some(h) <==> named_value(
            env,
            positional,
            "_TRAP_ERR"@,
        ) == Some(h),
        option_on(env, positional, "SHOPT_T"@) ==> trap_handler(
            env,
            positional,
            true,
            TrapKind::Debug,
        ) == trap_handler(env, positional, false, TrapKind::Debug) && trap_handler(
            env,
            positional,
            true,
            TrapKind::Return,
        ) == trap_handler(env, positional, false, TrapKind::Return),
        !option_on(env, positional, "SHOPT_T"@) ==> trap_handler(
            env,
            positional,
            true,
            TrapKind::Debug,
        ) is None && trap_handler(env, positional, true, TrapKind::Return) is None,
        option_on(env, positional, "SHOPT_E"@) ==> trap_handler(
            env,
            positional,
            true,
            TrapKind::Failure,
        ) == trap_handler(env, positional, false, TrapKind::Failure),
        !option_on(env, positional, "SHOPT_E"@) ==> trap_handler(
            env,
            positional,
            true,
            TrapKind::Failure,
        ) is None,
{
}

/// A `while` loop goes on after success, an `until` loop after failure, so of the two just one does.
pub proof fn law_while_and_until(status: i32)
    ensures
        loop_goes_on(false, status) <==> status == 0,
        loop_goes_on(true, status) <==> !loop_goes_on(false, status),
{
}

} // verus!
