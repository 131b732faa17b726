//! `mapfile`, `readarray` and `select`.
use crate::ascii::NEWLINE;
use crate::commands::assign::{assign_indexed_array, indexed_env};
use crate::state::{same_but_env, ShellState};
use crate::text::{
    dec, from_utf8_lossy, parse_unsigned, parse_usize, str_eq, trim, trimmed, u64_to_dec,
    utf8_lossy,
};
use crate::views::{lemma_strs_push, strs};
use vstd::prelude::*;

verus! {

/// The last of the first `n` arguments that is not `-t`, or the default name.
pub open spec fn mapfile_name(args: Seq<Seq<char>>, n: int) -> Seq<char>
    decreases n,
{
    if n <= 0 {
        "MAPFILE"@
    } else if args[n - 1] != "-t"@ {
        args[n - 1]
    } else {
        mapfile_name(args, n - 1)
    }
}

/// Reads the arguments of `mapfile`: whether newlines are dropped, and the name of the array.
pub fn parse_mapfile_args(args: &Vec<String>) -> (r: (bool, String))
    ensures
        r.0 == strs(args@).contains("-t"@),
        r.1@ == mapfile_name(strs(args@), args@.len() as int),
{
    let ghost all = strs(args@);
    let mut strip: bool = false;
    let mut name = "MAPFILE".to_owned();
    let mut i: usize = 0;
    while i < args.len()
        invariant
            i <= args@.len(),
            all == strs(args@),
            strip == exists|j: int| 0 <= j < i && all[j] == "-t"@,
            name@ == mapfile_name(all, i as int),
        decreases args@.len() - i,
    {
        assert(all[i as int] == args@[i as int]@);
        if str_eq(args[i].as_str(), "-t") {
            strip = true;
        } else {
            name = args[i].clone();
        }
        i = i + 1;
    }
    (strip, name)
}

/// The complete lines of data, and what stands after the last newline.
pub open spec fn complete_lines(data: Seq<u8>) -> (Seq<Seq<u8>>, Seq<u8>)
    decreases data.len(),
{
    if data.len() == 0 {
        (Seq::empty(), Seq::empty())
    } else {
        let (lines, rest) = complete_lines(data.drop_last());
        if data.last() == NEWLINE {
            (lines.push(rest), Seq::empty())
        } else {
            (lines, rest.push(data.last()))
        }
    }
}

/// A line as an element: as text, with its newline unless it is dropped.
pub open spec fn line_value(line: Seq<u8>, strip: bool) -> Seq<char> {
    if strip {
        utf8_lossy(line)
    } else {
        utf8_lossy(line.push(NEWLINE))
    }
}

/// Lines as elements.
pub open spec fn line_values(lines: Seq<Seq<u8>>, strip: bool) -> Seq<Seq<char>> {
    lines.map_values(|l: Seq<u8>| line_value(l, strip))
}

/// The elements that data gives: its lines, the last one too where it has no newline; no data at
/// all is one empty line. Where reading failed, only the complete lines.
pub open spec fn mapfile_values(data: Seq<u8>, strip: bool, failed: bool) -> Seq<Seq<char>> {
    let (lines, rest) = complete_lines(data);
    let values = line_values(lines, strip);
    if !failed && (rest.len() > 0 || data.len() == 0) {
        values.push(line_value(rest, strip))
    } else {
        values
    }
}

fn value_of_line(line: &Vec<u8>, strip: bool) -> (r: String)
    ensures
        r@ == line_value(line@, strip),
{
    if strip {
        from_utf8_lossy(line.as_slice())
    } else {
        let mut whole = vstd::slice::slice_to_vec(line.as_slice());
        whole.push(NEWLINE);
        from_utf8_lossy(whole.as_slice())
    }
}

/// The elements that data gives.
pub fn mapfile_elements(data: &[u8], strip: bool, failed: bool) -> (r: Vec<String>)
    ensures
        strs(r@) == mapfile_values(data@, strip, failed),
{
    broadcast use lemma_strs_push;
    let mut values: Vec<String> = Vec::new();
    let mut current: Vec<u8> = Vec::new();
    let mut i: usize = 0;
    proof {
        assert(data@.take(0) =~= Seq::empty());
        assert(current@ =~= Seq::empty());
        assert(strs(values@) =~= line_values(Seq::empty(), strip));
    }
    while i < data.len()
        invariant
            i <= data@.len(),
            strs(values@) == line_values(complete_lines(data@.take(i as int)).0, strip),
            current@ == complete_lines(data@.take(i as int)).1,
        decreases data@.len() - i,
    {
        proof {
            assert(data@.take(i + 1).drop_last() =~= data@.take(i as int));
            let lines = complete_lines(data@.take(i as int)).0;
            assert(line_values(lines.push(current@), strip) =~= line_values(lines, strip).push(
                line_value(current@, strip),
            ));
        }
        if data[i] == NEWLINE {
            values.push(value_of_line(&current, strip));
            current = Vec::new();
            assert(current@ =~= Seq::empty());
        } else {
            current.push(data[i]);
        }
        i = i + 1;
    }
    assert(data@.take(i as int) =~= data@);
    if !failed && (current.len() > 0 || data.len() == 0) {
        values.push(value_of_line(&current, strip));
    }
    values
}

/// Fills an array with the lines of data.
pub fn fill_mapfile(state: &mut ShellState, name: &str, data: &[u8], strip: bool, failed: bool)
    ensures
        ({
            let values = mapfile_values(data@, strip, failed);
            final(state).env@ == indexed_env(old(state).env@, name@, values, values.len() as int)
        }),
        same_but_env(*final(state), *old(state)),
{
    let values = mapfile_elements(data, strip, failed);
    assert(values@.len() == strs(values@).len());
    assign_indexed_array(state, name, &values);
}

/// The lines that `select` shows for the first `n` words.
pub open spec fn menu_upto(words: Seq<Seq<char>>, n: int) -> Seq<Seq<char>>
    decreases n,
{
    if n <= 0 {
        Seq::empty()
    } else {
        menu_upto(words, n - 1).push(dec(n as nat) + ") "@ + words[n - 1] + "\n"@)
    }
}

/// The lines that `select` shows: the words, numbered from one.
pub fn select_menu(words: &Vec<String>) -> (r: Vec<String>)
    ensures
        strs(r@) == menu_upto(strs(words@), words@.len() as int),
{
    broadcast use lemma_strs_push;
    let ghost all = strs(words@);
    let mut lines: Vec<String> = Vec::new();
    let mut i: usize = 0;
    assert(strs(lines@) =~= Seq::empty());
    while i < words.len()
        invariant
            i <= words@.len(),
            all == strs(words@),
            strs(lines@) == menu_upto(all, i as int),
        decreases words@.len() - i,
    {
        assert(all[i as int] == words@[i as int]@);
        let number = u64_to_dec(i as u64 + 1);
        lines.push(number.concat(") ").concat(words[i].as_str()).concat("\n"));
        i = i + 1;
    }
    lines
}

/// The word that an answer to `select` picks: the one of that number, else none.
pub open spec fn picked(line: Seq<char>, words: Seq<Seq<char>>) -> Seq<char> {
    match parse_unsigned(trimmed(line), usize::MAX as nat) {
        Some(n) => if 1 <= n <= words.len() {
            words[n - 1]
        } else {
            Seq::empty()
        },
        None => Seq::empty(),
    }
}

/// What an answer to `select` puts into `REPLY` and into the variable.
pub fn select_choice(line: &str, words: &Vec<String>) -> (r: (String, String))
    ensures
        r.0@ == trimmed(line@),
        r.1@ == picked(line@, strs(words@)),
{
    let reply = trim(line);
    let word = match parse_usize(reply.as_str()) {
        Some(n) => if n >= 1 && n <= words.len() {
            assert(strs(words@)[n - 1] == words@[n - 1]@);
            words[n - 1].clone()
        } else {
            String::new()
        },
        None => String::new(),
    };
    assert(word@ =~= picked(line@, strs(words@)));
    (reply, word)
}

/// A number that `select` shows picks the word after it.
pub proof fn law_menu_number_picks_its_word(words: Seq<Seq<char>>, n: nat)
    requires
        1 <= n <= words.len() <= usize::MAX,
    ensures
        picked(dec(n), words) == words[n - 1],
{
    crate::text::law_dec_parses(n, usize::MAX as nat);
    crate::text::lemma_dec_digits(n);
    let d = dec(n);
    assert(crate::text::is_digit(d[0]));
    assert(crate::text::is_digit(d[d.len() - 1]));
    assert(trimmed(d) == d);
}

} // verus!
