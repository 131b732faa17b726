//! `alias`, `unalias` and `type`.
use crate::commands::printed::{prints, Printed, Stream};
use crate::entries::{drop_key, has_key, put, value_of};
use crate::pipeline::stage::CommandFacts;
use crate::text::{after_char, before_char, split_at_char, str_eq};
use crate::vars::{
    assoc_at, assoc_entries, assoc_get, assoc_insert, assoc_len, assoc_new, assoc_remove,
};
use crate::views::strs;
use indexmap::IndexMap;
use vstd::prelude::*;

verus! {

/// The aliases, in the order in which they were made.
pub type AliasView = Seq<(Seq<char>, Seq<char>)>;

/// The line on an alias.
pub open spec fn alias_line(name: Seq<char>, value: Seq<char>) -> Seq<char> {
    "alias "@ + name + "='"@ + value + "'\n"@
}

/// The lines on all aliases.
pub open spec fn alias_listing(entries: AliasView) -> Seq<(Stream, Seq<char>)> {
    entries.map_values(|e: (Seq<char>, Seq<char>)| (Stream::Stdout, alias_line(e.0, e.1)))
}

/// Aliases, what was printed, and the status, while a command goes through its arguments.
pub struct AliasRun {
    pub entries: AliasView,
    pub pieces: Seq<(Stream, Seq<char>)>,
    pub status: i32,
}

/// What one argument of `alias` does: with `=` it makes an alias, else the alias is shown; where
/// there is none, nothing more is done.
pub open spec fn alias_one(s: AliasRun, arg: Seq<char>) -> AliasRun {
    if s.status != 0 {
        s
    } else {
        match after_char(arg, '=') {
            Some(value) => AliasRun { entries: put(s.entries, before_char(arg, '='), value), ..s },
            None => match value_of(s.entries, arg) {
                Some(value) => AliasRun {
                    pieces: s.pieces.push((Stream::Stdout, alias_line(arg, value))),
                    ..s
                },
                None => AliasRun {
                    pieces: s.pieces.push((Stream::Stderr, "alias: "@ + arg + ": not found\n"@)),
                    status: 1,
                    ..s
                },
            },
        }
    }
}

/// What `alias` has done after its first `n` arguments.
pub open spec fn alias_upto(entries: AliasView, args: Seq<Seq<char>>, n: int) -> AliasRun
    decreases n,
{
    if n <= 0 {
        AliasRun { entries, pieces: Seq::empty(), status: 0 }
    } else {
        alias_one(alias_upto(entries, args, n - 1), args[n - 1])
    }
}

/// What one argument of `unalias` does: it removes an alias, or all with `-a`; where there is none
/// of the name, nothing more is done.
pub open spec fn unalias_one(s: AliasRun, arg: Seq<char>) -> AliasRun {
    if s.status != 0 {
        s
    } else if arg == "-a"@ {
        AliasRun { entries: Seq::empty(), ..s }
    } else if has_key(s.entries, arg) {
        AliasRun { entries: drop_key(s.entries, arg), ..s }
    } else {
        AliasRun {
            pieces: s.pieces.push((Stream::Stderr, "unalias: "@ + arg + ": not found\n"@)),
            status: 1,
            ..s
        }
    }
}

/// What `unalias` has done after its first `n` arguments.
pub open spec fn unalias_upto(entries: AliasView, args: Seq<Seq<char>>, n: int) -> AliasRun
    decreases n,
{
    if n <= 0 {
        AliasRun { entries, pieces: Seq::empty(), status: 0 }
    } else {
        unalias_one(unalias_upto(entries, args, n - 1), args[n - 1])
    }
}

proof fn lemma_alias_failed(entries: AliasView, args: Seq<Seq<char>>, n: int, m: int)
    requires
        0 <= n <= m,
        alias_upto(entries, args, n).status != 0,
    ensures
        alias_upto(entries, args, m) == alias_upto(entries, args, n),
    decreases m - n,
{
    if n < m {
        lemma_alias_failed(entries, args, n, m - 1);
    }
}

proof fn lemma_unalias_failed(entries: AliasView, args: Seq<Seq<char>>, n: int, m: int)
    requires
        0 <= n <= m,
        unalias_upto(entries, args, n).status != 0,
    ensures
        unalias_upto(entries, args, m) == unalias_upto(entries, args, n),
    decreases m - n,
{
    if n < m {
        lemma_unalias_failed(entries, args, n, m - 1);
    }
}

fn alias_text(name: &str, value: &str) -> (r: String)
    ensures
        r@ == alias_line(name@, value@),
{
    "alias ".to_owned().concat(name).concat("='").concat(value).concat("'\n")
}

fn list_aliases(aliases: &IndexMap<String, String>) -> (r: Printed)
    ensures
        prints(r, alias_listing(assoc_entries(*aliases)), 0),
{
    let ghost all = alias_listing(assoc_entries(*aliases));
    let mut printed = Printed::new();
    let mut i: usize = 0;
    assert(all.take(0) =~= Seq::empty());
    while i < assoc_len(aliases)
        invariant
            i <= assoc_entries(*aliases).len(),
            all == alias_listing(assoc_entries(*aliases)),
            prints(printed, all.take(i as int), 0),
        decreases assoc_entries(*aliases).len() - i,
    {
        match assoc_at(aliases, i) {
            Some((name, value)) => {
                printed.out(alias_text(name.as_str(), value.as_str()));
            },
            None => {},
        }
        assert(all.take(i + 1) =~= all.take(i as int).push(all[i as int]));
        i = i + 1;
    }
    assert(all.take(all.len() as int) =~= all);
    printed
}

/// Carries out `alias` with its arguments.
pub fn execute_alias(aliases: &mut IndexMap<String, String>, args: &Vec<String>) -> (r: Printed)
    ensures
        if args@.len() == 0 {
            &&& prints(r, alias_listing(assoc_entries(*old(aliases))), 0)
            &&& assoc_entries(*final(aliases)) == assoc_entries(*old(aliases))
        } else {
            let end = alias_upto(assoc_entries(*old(aliases)), strs(args@), args@.len() as int);
            &&& prints(r, end.pieces, end.status)
            &&& assoc_entries(*final(aliases)) == end.entries
        },
{
    if args.len() == 0 {
        return list_aliases(aliases);
    }
    let ghost first = assoc_entries(*aliases);
    let ghost all = strs(args@);
    let mut printed = Printed::new();
    let mut i: usize = 0;
    while i < args.len()
        invariant
            i <= args@.len(),
            all == strs(args@),
            first == assoc_entries(*old(aliases)),
            assoc_entries(*aliases) == alias_upto(first, all, i as int).entries,
            prints(printed, alias_upto(first, all, i as int).pieces, 0),
            alias_upto(first, all, i as int).status == 0,
        decreases args@.len() - i,
    {
        assert(all[i as int] == args@[i as int]@);
        let (name, value) = split_at_char(args[i].as_str(), '=');
        match value {
            Some(v) => {
                assoc_insert(aliases, name, v);
            },
            None => {
                match assoc_get(aliases, args[i].as_str()) {
                    Some(v) => {
                        printed.out(alias_text(args[i].as_str(), v.as_str()));
                    },
                    None => {
                        printed.err(
                            "alias: ".to_owned().concat(args[i].as_str()).concat(": not found\n"),
                        );
                        printed.status = 1;
                        proof {
                            lemma_alias_failed(first, all, i + 1, args@.len() as int);
                        }
                        return printed;
                    },
                }
            },
        }
        i = i + 1;
    }
    printed
}

/// Carries out `unalias` with its arguments.
pub fn execute_unalias(aliases: &mut IndexMap<String, String>, args: &Vec<String>) -> (r: Printed)
    ensures
        if args@.len() == 0 {
            &&& prints(r, seq![(Stream::Stderr, "unalias: usage: unalias [-a] name ...\n"@)], 1)
            &&& assoc_entries(*final(aliases)) == assoc_entries(*old(aliases))
        } else {
            let end = unalias_upto(assoc_entries(*old(aliases)), strs(args@), args@.len() as int);
            &&& prints(r, end.pieces, end.status)
            &&& assoc_entries(*final(aliases)) == end.entries
        },
{
    if args.len() == 0 {
        return Printed::failure("unalias: usage: unalias [-a] name ...\n".to_owned());
    }
    let ghost first = assoc_entries(*aliases);
    let ghost all = strs(args@);
    let mut printed = Printed::new();
    let mut i: usize = 0;
    while i < args.len()
        invariant
            i <= args@.len(),
            all == strs(args@),
            first == assoc_entries(*old(aliases)),
            assoc_entries(*aliases) == unalias_upto(first, all, i as int).entries,
            prints(printed, unalias_upto(first, all, i as int).pieces, 0),
            unalias_upto(first, all, i as int).status == 0,
        decreases args@.len() - i,
    {
        assert(all[i as int] == args@[i as int]@);
        if str_eq(args[i].as_str(), "-a") {
            *aliases = assoc_new();
        } else if assoc_get(aliases, args[i].as_str()).is_some() {
            assoc_remove(aliases, args[i].as_str());
        } else {
            printed.err("unalias: ".to_owned().concat(args[i].as_str()).concat(": not found\n"));
            printed.status = 1;
            proof {
                lemma_unalias_failed(first, all, i + 1, args@.len() as int);
            }
            return printed;
        }
        i = i + 1;
    }
    printed
}

/// What `type` prints on a name: whether it is an alias, a function, a builtin or a utility, in
/// that order.
pub open spec fn type_piece(entries: AliasView, name: Seq<char>, facts: CommandFacts) -> (
    Stream,
    Seq<char>,
) {
    match value_of(entries, name) {
        Some(value) => (Stream::Stdout, name + " is aliased to `"@ + value + "'\n"@),
        None => if facts.function {
            (Stream::Stdout, name + " is a function\n"@)
        } else if facts.builtin {
            (Stream::Stdout, name + " is a shell builtin\n"@)
        } else if facts.utility {
            (Stream::Stdout, name + " is a shell utility\n"@)
        } else {
            (Stream::Stderr, "wasmsh: type: "@ + name + ": not found\n"@)
        },
    }
}

/// What `type` prints on the first `n` names.
pub open spec fn type_upto(
    entries: AliasView,
    names: Seq<Seq<char>>,
    facts: Seq<CommandFacts>,
    n: int,
) -> Seq<(Stream, Seq<char>)>
    decreases n,
{
    if n <= 0 {
        Seq::empty()
    } else {
        type_upto(entries, names, facts, n - 1).push(
            type_piece(entries, names[n - 1], facts[n - 1]),
        )
    }
}

/// The status of `type`: a failure where one of the first `n` names is not found.
pub open spec fn type_status(
    entries: AliasView,
    names: Seq<Seq<char>>,
    facts: Seq<CommandFacts>,
    n: int,
) -> i32
    decreases n,
{
    if n <= 0 {
        0
    } else if type_piece(entries, names[n - 1], facts[n - 1]).0 == Stream::Stderr {
        1
    } else {
        type_status(entries, names, facts, n - 1)
    }
}

/// Carries out `type` with its names, given what each stands for.
pub fn execute_type(
    aliases: &IndexMap<String, String>,
    names: &Vec<String>,
    facts: &Vec<CommandFacts>,
) -> (r: Printed)
    requires
        facts@.len() == names@.len(),
    ensures
        prints(
            r,
            type_upto(assoc_entries(*aliases), strs(names@), facts@, names@.len() as int),
            type_status(assoc_entries(*aliases), strs(names@), facts@, names@.len() as int),
        ),
{
    let ghost entries = assoc_entries(*aliases);
    let ghost all = strs(names@);
    let mut printed = Printed::new();
    let mut i: usize = 0;
    while i < names.len()
        invariant
            i <= names@.len(),
            facts@.len() == names@.len(),
            all == strs(names@),
            entries == assoc_entries(*aliases),
            prints(
                printed,
                type_upto(entries, all, facts@, i as int),
                type_status(entries, all, facts@, i as int),
            ),
        decreases names@.len() - i,
    {
        assert(all[i as int] == names@[i as int]@);
        let name = names[i].clone();
        let f: CommandFacts = facts[i];
        match assoc_get(aliases, names[i].as_str()) {
            Some(value) => {
                printed.out(name.concat(" is aliased to `").concat(value.as_str()).concat("'\n"));
            },
            None => {
                if f.function {
                    printed.out(name.concat(" is a function\n"));
                } else if f.builtin {
                    printed.out(name.concat(" is a shell builtin\n"));
                } else if f.utility {
                    printed.out(name.concat(" is a shell utility\n"));
                } else {
                    printed.err(
                        "wasmsh: type: ".to_owned().concat(name.as_str()).concat(
                            ": not found\n",
                        ),
                    );
                    printed.status = 1;
                }
            },
        }
        i = i + 1;
    }
    printed
}

/// What `builtin` with a name that is no builtin prints; its status is one.
pub fn not_a_builtin_line(name: &str) -> (r: String)
    ensures
        r@ == "builtin: "@ + name@ + ": not a shell builtin\n"@,
{
    "builtin: ".to_owned().concat(name).concat(": not a shell builtin\n")
}

/// An alias that is made can be shown, and is gone once it is removed.
pub proof fn law_alias_then_unalias(entries: AliasView, name: Seq<char>, value: Seq<char>)
    requires
        !has_key(entries, name),
        name != "-a"@,
    ensures
        ({
            let made = AliasRun {
                entries: put(entries, name, value),
                pieces: Seq::empty(),
                status: 0,
            };
            &&& value_of(made.entries, name) == Some(value)
            &&& unalias_one(made, name).entries == entries
            &&& unalias_one(made, name).status == 0
        }),
{
    crate::entries::lemma_put(entries, name, value);
    let made = put(entries, name, value);
    crate::entries::lemma_key_index(made, name);
    crate::entries::lemma_key_index(entries, name);
    assert(crate::entries::key_index(made, name) == entries.len()) by {
        let k = crate::entries::key_index(made, name);
        if k < entries.len() {
            assert(made[k].0 == entries[k].0);
            assert(!has_key(entries, name));
        }
    }
    assert(made.remove(entries.len() as int) =~= entries);
}

} // verus!
