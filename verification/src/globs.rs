//! Pathname expansion.
use crate::commands::shopt::{get_shopt_value, shopt_var};
use crate::order::{in_order, sort_strings};
use crate::pattern::extglob::{glob_ext_matches, glob_match_ext, has_ext_op, has_extglob_pattern};
use crate::runtime::flow::{is_option_on, option_on};
use crate::state::ShellState;
use crate::text::{
    chars_of, contains_char, find_chars, find_in, split_char, split_on, starts_with, str_eq,
    str_starts_with, sub_string,
};
use crate::views::{lemma_strs_push, strs};
use vstd::prelude::*;
use vstd::utf8::encode_utf8;

verus! {

/// The most arguments that pathname expansion leaves.
pub const MAX_GLOB_RESULTS: usize = 10_000;

/// The options of pathname expansion.
#[derive(Clone, Copy, Debug, PartialEq, Eq, Structural)]
pub struct GlobOptions {
    /// A pattern that matches nothing is dropped.
    pub nullglob: bool,
    /// Names that start with a dot match too.
    pub dotglob: bool,
    /// `**` matches directories at any depth.
    pub globstar: bool,
    /// Extended patterns are patterns.
    pub extglob: bool,
}

/// The options of pathname expansion, or nothing where `set -f` switched it off.
pub fn glob_options(state: &ShellState) -> (r: Option<GlobOptions>)
    ensures
        ({
            let env = state.env@;
            let positional = strs(state.positional@);
            r == if option_on(env, positional, "SHOPT_f"@) {
                None::<GlobOptions>
            } else {
                Some(
                    GlobOptions {
                        nullglob: option_on(env, positional, shopt_var("nullglob"@)),
                        dotglob: option_on(env, positional, shopt_var("dotglob"@)),
                        globstar: option_on(env, positional, shopt_var("globstar"@)),
                        extglob: option_on(env, positional, shopt_var("extglob"@)),
                    },
                )
            }
        }),
{
    if is_option_on(state, "SHOPT_f") {
        return None;
    }
    Some(
        GlobOptions {
            nullglob: get_shopt_value(state, "nullglob"),
            dotglob: get_shopt_value(state, "dotglob"),
            globstar: get_shopt_value(state, "globstar"),
            extglob: get_shopt_value(state, "extglob"),
        },
    )
}

/// Whether a text is a pattern.
pub open spec fn is_pattern(s: Seq<char>, extglob: bool) -> bool {
    s.contains('*') || s.contains('?') || (s.contains('[') && s.contains(']')) || (extglob
        && has_ext_op(encode_utf8(s)))
}

/// Whether a text is a pattern.
pub fn is_glob_pattern(arg: &str, extglob: bool) -> (r: bool)
    ensures
        r == is_pattern(arg@, extglob),
{
    let bracket: bool = contains_char(arg, '[') && contains_char(arg, ']');
    contains_char(arg, '*') || contains_char(arg, '?') || bracket || (extglob
        && has_extglob_pattern(arg))
}

/// Whether a path has a character of a pattern.
pub open spec fn has_glob(s: Seq<char>) -> bool {
    s.contains('*') || s.contains('?') || s.contains('[')
}

/// Whether a path has a character of a pattern.
pub fn path_segment_has_glob(path: &str) -> (r: bool)
    ensures
        r == has_glob(path@),
{
    contains_char(path, '*') || contains_char(path, '?') || contains_char(path, '[')
}

/// One more than the position of the last slash, or zero.
pub open spec fn after_slash(s: Seq<char>) -> int
    decreases s.len(),
{
    if s.len() == 0 {
        0
    } else if s.last() == '/' {
        s.len() as int
    } else {
        after_slash(s.drop_last())
    }
}

proof fn lemma_after_slash(s: Seq<char>)
    ensures
        0 <= after_slash(s) <= s.len(),
    decreases s.len(),
{
    if s.len() > 0 && s.last() != '/' {
        lemma_after_slash(s.drop_last());
    }
}

/// How an argument is expanded.
#[derive(Debug)]
pub enum GlobPlan {
    /// It is no pattern and stays as it is.
    Plain,
    /// Nothing can match: the directories are patterns themselves.
    Nothing,
    /// The names in a directory are matched: in this one, which is part of the argument, or in the
    /// working directory.
    List { dir: Option<String>, pattern: String },
    /// The tree below the working directory is walked.
    Walk { segments: Vec<String> },
}

/// Whether `r` is how an argument is expanded.
pub open spec fn plan_answers(arg: Seq<char>, options: GlobOptions, r: GlobPlan) -> bool {
    let k = after_slash(arg);
    if !is_pattern(arg, options.extglob) {
        r is Plain
    } else if options.globstar && find_chars(arg, "**"@, 0) is Some {
        r matches GlobPlan::Walk { segments } && strs(segments@) == split_on(arg, '/')
    } else if k == 0 {
        r matches GlobPlan::List { dir, pattern } && dir is None && pattern@ == arg
    } else if has_glob(arg.take(k)) {
        r is Nothing
    } else {
        r matches GlobPlan::List { dir: Some(d), pattern } && d@ == arg.take(k) && pattern@
            == arg.skip(k)
    }
}

/// How an argument is expanded.
pub fn glob_plan(arg: &str, options: GlobOptions) -> (r: GlobPlan)
    ensures
        plan_answers(arg@, options, r),
{
    if !is_glob_pattern(arg, options.extglob) {
        return GlobPlan::Plain;
    }
    let chars = chars_of(arg);
    let stars = chars_of("**");
    if options.globstar && find_in(&chars, &stars, 0).is_some() {
        return GlobPlan::Walk { segments: split_char(arg, '/') };
    }
    let mut k: usize = chars.len();
    assert(arg@.take(k as int) =~= arg@);
    while k > 0 && chars[k - 1] != '/'
        invariant
            k <= chars@.len(),
            chars@ == arg@,
            after_slash(arg@) == after_slash(arg@.take(k as int)),
        decreases k,
    {
        assert(arg@.take(k as int).drop_last() =~= arg@.take(k - 1));
        k = k - 1;
    }
    assert(k == after_slash(arg@));
    if k == 0 {
        return GlobPlan::List { dir: None, pattern: arg.to_owned() };
    }
    let dir = sub_string(&chars, 0, k);
    assert(dir@ =~= arg@.take(k as int));
    if path_segment_has_glob(dir.as_str()) {
        return GlobPlan::Nothing;
    }
    let pattern = sub_string(&chars, k, chars.len());
    assert(pattern@ =~= arg@.skip(k as int));
    GlobPlan::List { dir: Some(dir), pattern }
}

/// The first `n` names that match, after a prefix.
pub open spec fn matching(
    names: Seq<Seq<char>>,
    pattern: Seq<char>,
    prefix: Seq<char>,
    options: GlobOptions,
    n: int,
) -> Seq<Seq<char>>
    decreases n,
{
    if n <= 0 {
        Seq::empty()
    } else {
        let before = matching(names, pattern, prefix, options, n - 1);
        if glob_ext_matches(pattern, names[n - 1], options.dotglob, options.extglob) {
            before.push(prefix + names[n - 1])
        } else {
            before
        }
    }
}

/// The names of a directory that match a pattern, after a prefix, in order.
pub fn list_matches(names: &Vec<String>, pattern: &str, prefix: &str, options: GlobOptions) -> (r:
    Vec<String>)
    ensures
        in_order(strs(r@)),
        strs(r@).to_multiset() == matching(
            strs(names@),
            pattern@,
            prefix@,
            options,
            names@.len() as int,
        ).to_multiset(),
{
    broadcast use lemma_strs_push;
    let ghost all = strs(names@);
    let mut found: Vec<String> = Vec::new();
    let mut i: usize = 0;
    assert(strs(found@) =~= Seq::empty());
    while i < names.len()
        invariant
            i <= names@.len(),
            all == strs(names@),
            strs(found@) == matching(all, pattern@, prefix@, options, i as int),
        decreases names@.len() - i,
    {
        assert(all[i as int] == names@[i as int]@);
        if glob_match_ext(pattern, names[i].as_str(), options.dotglob, options.extglob) {
            found.push(prefix.to_owned().concat(names[i].as_str()));
        }
        i = i + 1;
    }
    sort_strings(found)
}

/// What a pattern stands for, given what it matches.
pub open spec fn expanded(arg: Seq<char>, matches: Seq<Seq<char>>, nullglob: bool) -> Seq<Seq<char>> {
    if matches.len() > 0 {
        matches
    } else if nullglob {
        Seq::empty()
    } else {
        seq![arg]
    }
}

/// What an argument is expanded to: what it matches, else the argument itself, or nothing where
/// that is asked for.
pub fn finalize_glob_matches(arg: String, matches: Vec<String>, nullglob: bool) -> (r: Vec<String>)
    ensures
        strs(r@) == expanded(arg@, strs(matches@), nullglob),
{
    if matches.len() > 0 {
        return matches;
    }
    let mut one: Vec<String> = Vec::new();
    if !nullglob {
        one.push(arg);
        assert(strs(one@) =~= seq![arg@]);
    } else {
        assert(strs(one@) =~= Seq::empty());
    }
    one
}

/// An entry of a directory, with its own entries where it is a directory.
#[derive(Debug)]
pub struct DirEntry {
    pub name: String,
    pub children: Option<Vec<DirEntry>>,
}

/// The path of an entry.
pub open spec fn child_path(prefix: Seq<char>, name: Seq<char>) -> Seq<char> {
    if prefix.len() == 0 {
        name
    } else {
        prefix + "/"@ + name
    }
}

fn child_path_text(prefix: &str, name: &str) -> (r: String)
    ensures
        r@ == child_path(prefix@, name@),
{
    if prefix.is_empty() {
        name.to_owned()
    } else {
        prefix.to_owned().concat("/").concat(name)
    }
}

/// The paths below a directory that match the segments of a pattern from `i` on. `**` stands for
/// no directory or any number of them; other segments match names.
pub open spec fn walk(
    entries: Vec<DirEntry>,
    segments: Seq<Seq<char>>,
    i: int,
    prefix: Seq<char>,
    options: GlobOptions,
) -> Seq<Seq<char>>
    decreases entries, segments.len() - i, entries.len() + 1,
{
    if i < 0 || i >= segments.len() {
        Seq::empty()
    } else if segments[i] == "**"@ {
        (if i + 1 < segments.len() {
            walk(entries, segments, i + 1, prefix, options)
        } else {
            Seq::empty()
        }) + walk_deeper(entries, segments, i, prefix, options, entries.len() as int)
    } else {
        walk_names(entries, segments, i, prefix, options, entries.len() as int)
    }
}

/// The paths that match in the directories among the first `n` entries, when any number of
/// directories may stand in between. Names that start with a dot are left out unless asked for.
pub open spec fn walk_deeper(
    entries: Vec<DirEntry>,
    segments: Seq<Seq<char>>,
    i: int,
    prefix: Seq<char>,
    options: GlobOptions,
    n: int,
) -> Seq<Seq<char>>
    decreases entries, segments.len() - i, n,
{
    if n <= 0 || n > entries.len() {
        Seq::empty()
    } else {
        let e = entries[n - 1];
        let before = walk_deeper(entries, segments, i, prefix, options, n - 1);
        if !options.dotglob && starts_with(e.name@, "."@) {
            before
        } else {
            match e.children {
                Some(inner) => before + walk(
                    inner,
                    segments,
                    i,
                    child_path(prefix, e.name@),
                    options,
                ),
                None => before,
            }
        }
    }
}

/// The paths that match among the first `n` entries, when the next segment is a name.
pub open spec fn walk_names(
    entries: Vec<DirEntry>,
    segments: Seq<Seq<char>>,
    i: int,
    prefix: Seq<char>,
    options: GlobOptions,
    n: int,
) -> Seq<Seq<char>>
    decreases entries, segments.len() - i, n,
{
    if n <= 0 || n > entries.len() {
        Seq::empty()
    } else {
        let e = entries[n - 1];
        let before = walk_names(entries, segments, i, prefix, options, n - 1);
        let path = child_path(prefix, e.name@);
        if !glob_ext_matches(segments[i], e.name@, options.dotglob, options.extglob) {
            before
        } else if i == segments.len() - 1 {
            before.push(path)
        } else {
            match e.children {
                Some(inner) => before + walk(inner, segments, i + 1, path, options),
                None => before,
            }
        }
    }
}

fn globstar_walk(
    entries: &Vec<DirEntry>,
    segments: &Vec<String>,
    seg: usize,
    prefix: &str,
    options: GlobOptions,
    matches: &mut Vec<String>,
)
    requires
        seg <= segments@.len(),
    ensures
        strs(final(matches)@) == strs(old(matches)@) + walk(
            *entries,
            strs(segments@),
            seg as int,
            prefix@,
            options,
        ),
    decreases entries, segments@.len() - seg, 1nat,
{
    let ghost first = strs(matches@);
    let ghost segs = strs(segments@);
    if seg >= segments.len() {
        assert(first + Seq::<Seq<char>>::empty() =~= first);
        return;
    }
    assert(segs[seg as int] == segments@[seg as int]@);
    if str_eq(segments[seg].as_str(), "**") {
        let ghost same = if seg + 1 < segments@.len() {
            walk(*entries, segs, seg + 1, prefix@, options)
        } else {
            Seq::empty()
        };
        if seg + 1 < segments.len() {
            globstar_walk(entries, segments, seg + 1, prefix, options, matches);
        }
        assert(strs(matches@) =~= first + same);
        globstar_walk_deeper(entries, segments, seg, prefix, options, matches);
        assert(strs(matches@) =~= first + walk(*entries, segs, seg as int, prefix@, options));
    } else {
        globstar_walk_names(entries, segments, seg, prefix, options, matches);
    }
}

fn globstar_walk_deeper(
    entries: &Vec<DirEntry>,
    segments: &Vec<String>,
    seg: usize,
    prefix: &str,
    options: GlobOptions,
    matches: &mut Vec<String>,
)
    requires
        seg < segments@.len(),
    ensures
        strs(final(matches)@) == strs(old(matches)@) + walk_deeper(
            *entries,
            strs(segments@),
            seg as int,
            prefix@,
            options,
            entries@.len() as int,
        ),
    decreases entries, segments@.len() - seg, 0nat,
{
    let ghost first = strs(matches@);
    let ghost segs = strs(segments@);
    let mut k: usize = 0;
    assert(first + Seq::<Seq<char>>::empty() =~= first);
    while k < entries.len()
        invariant
            k <= entries@.len(),
            seg < segments@.len(),
            segs == strs(segments@),
            strs(matches@) == first + walk_deeper(
                *entries,
                segs,
                seg as int,
                prefix@,
                options,
                k as int,
            ),
        decreases entries@.len() - k,
    {
        let e = &entries[k];
        let ghost before = walk_deeper(*entries, segs, seg as int, prefix@, options, k as int);
        if options.dotglob || !str_starts_with(e.name.as_str(), ".") {
            match &e.children {
                Some(inner) => {
                    proof {
                        assert(decreases_to!(entries => entries[k as int]));
                        assert(decreases_to!(entries[k as int] => entries[k as int].children));
                        assert(decreases_to!(entries[k as int].children => inner));
                    }
                    let path = child_path_text(prefix, e.name.as_str());
                    globstar_walk(inner, segments, seg, path.as_str(), options, matches);
                    assert(strs(matches@) =~= first + (before + walk(
                        *inner,
                        segs,
                        seg as int,
                        path@,
                        options,
                    )));
                },
                None => {},
            }
        }
        k = k + 1;
    }
}

fn globstar_walk_names(
    entries: &Vec<DirEntry>,
    segments: &Vec<String>,
    seg: usize,
    prefix: &str,
    options: GlobOptions,
    matches: &mut Vec<String>,
)
    requires
        seg < segments@.len(),
    ensures
        strs(final(matches)@) == strs(old(matches)@) + walk_names(
            *entries,
            strs(segments@),
            seg as int,
            prefix@,
            options,
            entries@.len() as int,
        ),
    decreases entries, segments@.len() - seg, 0nat,
{
    broadcast use lemma_strs_push;
    let ghost first = strs(matches@);
    let ghost segs = strs(segments@);
    let mut k: usize = 0;
    assert(first + Seq::<Seq<char>>::empty() =~= first);
    while k < entries.len()
        invariant
            k <= entries@.len(),
            seg < segments@.len(),
            segs == strs(segments@),
            strs(matches@) == first + walk_names(
                *entries,
                segs,
                seg as int,
                prefix@,
                options,
                k as int,
            ),
        decreases entries@.len() - k,
    {
        let e = &entries[k];
        let ghost before = walk_names(*entries, segs, seg as int, prefix@, options, k as int);
        assert(segs[seg as int] == segments@[seg as int]@);
        if glob_match_ext(
            segments[seg].as_str(),
            e.name.as_str(),
            options.dotglob,
            options.extglob,
        ) {
            let path = child_path_text(prefix, e.name.as_str());
            if seg == segments.len() - 1 {
                let ghost p = path@;
                let ghost so_far = matches@;
                matches.push(path);
                proof {
                    lemma_strs_push(so_far, path);
                    assert(p == child_path(prefix@, e.name@));
                    assert((first + before).push(p) =~= first + before.push(p));
                }
            } else {
                match &e.children {
                    Some(inner) => {
                        proof {
                            assert(decreases_to!(entries => entries[k as int]));
                            assert(decreases_to!(entries[k as int]
                                => entries[k as int].children));
                            assert(decreases_to!(entries[k as int].children => inner));
                        }
                        globstar_walk(inner, segments, seg + 1, path.as_str(), options, matches);
                        assert(strs(matches@) =~= first + (before + walk(
                            *inner,
                            segs,
                            seg + 1,
                            path@,
                            options,
                        )));
                    },
                    None => {},
                }
            }
        }
        k = k + 1;
    }
}

/// The paths in the tree below the working directory that match a pattern with `**`, in order.
pub fn expand_globstar(tree: &Vec<DirEntry>, segments: &Vec<String>, options: GlobOptions) -> (r:
    Vec<String>)
    ensures
        in_order(strs(r@)),
        strs(r@).to_multiset() == walk(
            *tree,
            strs(segments@),
            0,
            Seq::empty(),
            options,
        ).to_multiset(),
{
    let mut found: Vec<String> = Vec::new();
    proof {
        reveal_strlit("");
        assert(""@ =~= Seq::empty());
        assert(strs(found@) =~= Seq::empty());
    }
    globstar_walk(tree, segments, 0, "", options, &mut found);
    assert(strs(found@) =~= walk(*tree, strs(segments@), 0, Seq::empty(), options));
    sort_strings(found)
}

/// What the first `n` arguments are expanded to, one after the other.
pub open spec fn flattened(groups: Seq<Seq<Seq<char>>>, n: int) -> Seq<Seq<char>>
    decreases n,
{
    if n <= 0 {
        Seq::empty()
    } else {
        flattened(groups, n - 1) + groups[n - 1]
    }
}

/// The model of groups of strings.
pub open spec fn groups_of(v: Seq<Vec<String>>) -> Seq<Seq<Seq<char>>> {
    v.map_values(|g: Vec<String>| strs(g@))
}

/// The arguments after pathname expansion: what each was expanded to, up to a limit.
pub fn collect_globs(groups: &Vec<Vec<String>>) -> (r: Vec<String>)
    ensures
        ({
            let all = flattened(groups_of(groups@), groups@.len() as int);
            strs(r@) == (if all.len() > MAX_GLOB_RESULTS {
                all.take(MAX_GLOB_RESULTS as int)
            } else {
                all
            })
        }),
{
    broadcast use lemma_strs_push;
    let ghost all = groups_of(groups@);
    let ghost total = flattened(all, groups@.len() as int);
    let mut out: Vec<String> = Vec::new();
    let mut i: usize = 0;
    assert(strs(out@) =~= Seq::empty());
    while i < groups.len()
        invariant
            i <= groups@.len(),
            all == groups_of(groups@),
            strs(out@) == flattened(all, i as int),
        decreases groups@.len() - i,
    {
        let g = &groups[i];
        let ghost words = strs(g@);
        let ghost before = flattened(all, i as int);
        assert(all[i as int] == words);
        let mut k: usize = 0;
        assert(before + words.take(0) =~= before);
        while k < g.len()
            invariant
                k <= g@.len(),
                words == strs(g@),
                strs(out@) == before + words.take(k as int),
            decreases g@.len() - k,
        {
            out.push(g[k].clone());
            proof {
                assert(words[k as int] == g@[k as int]@);
                assert(before + words.take(k + 1) =~= (before + words.take(k as int)).push(
                    words[k as int],
                ));
            }
            k = k + 1;
        }
        assert(words.take(k as int) =~= words);
        i = i + 1;
    }
    if out.len() > MAX_GLOB_RESULTS {
        let ghost before = out@;
        out.truncate(MAX_GLOB_RESULTS);
        assert(strs(out@) =~= strs(before).take(MAX_GLOB_RESULTS as int));
    }
    out
}

proof fn lemma_matching(
    names: Seq<Seq<char>>,
    pattern: Seq<char>,
    prefix: Seq<char>,
    options: GlobOptions,
    n: int,
    x: Seq<char>,
)
    requires
        0 <= n <= names.len(),
    ensures
        matching(names, pattern, prefix, options, n).contains(x) <==> exists|k: int|
            0 <= k < n && glob_ext_matches(
                pattern,
                #[trigger] names[k],
                options.dotglob,
                options.extglob,
            ) && x == prefix + names[k],
    decreases n,
{
    if n > 0 {
        lemma_matching(names, pattern, prefix, options, n - 1, x);
        let before = matching(names, pattern, prefix, options, n - 1);
        let hit = glob_ext_matches(pattern, names[n - 1], options.dotglob, options.extglob);
        let all = matching(names, pattern, prefix, options, n);
        if hit {
            let y = prefix + names[n - 1];
            assert(all == before.push(y));
            if before.contains(x) {
                let k = choose|k: int| 0 <= k < before.len() && before[k] == x;
                assert(all[k] == x);
            }
            if x == y {
                assert(all[before.len() as int] == x);
            }
            if all.contains(x) {
                let k = choose|k: int| 0 <= k < all.len() && all[k] == x;
                if k < before.len() {
                    assert(before[k] == x);
                    assert(before.contains(x));
                }
            }
        }
        if exists|k: int|
            0 <= k < n && glob_ext_matches(
                pattern,
                #[trigger] names[k],
                options.dotglob,
                options.extglob,
            ) && x == prefix + names[k] {
            let k = choose|k: int|
                0 <= k < n && glob_ext_matches(
                    pattern,
                    #[trigger] names[k],
                    options.dotglob,
                    options.extglob,
                ) && x == prefix + names[k];
            if k < n - 1 {
                assert(before.contains(x));
            }
        }
    }
}

/// What a pattern is expanded to, `found` being the names of the directory that are given back: they
/// are just the names that match, each behind the prefix, and they stand in order.
pub proof fn law_expansion_is_what_matches(
    names: Seq<Seq<char>>,
    pattern: Seq<char>,
    prefix: Seq<char>,
    options: GlobOptions,
    found: Seq<Seq<char>>,
    x: Seq<char>,
)
    requires
        found.to_multiset() == matching(
            names,
            pattern,
            prefix,
            options,
            names.len() as int,
        ).to_multiset(),
    ensures
        found.contains(x) <==> exists|k: int|
            0 <= k < names.len() && glob_ext_matches(
                pattern,
                #[trigger] names[k],
                options.dotglob,
                options.extglob,
            ) && x == prefix + names[k],
{
    let m = matching(names, pattern, prefix, options, names.len() as int);
    lemma_matching(names, pattern, prefix, options, names.len() as int, x);
    found.to_multiset_ensures();
    m.to_multiset_ensures();
    assert(found.contains(x) <==> found.to_multiset().count(x) > 0);
    assert(m.contains(x) <==> m.to_multiset().count(x) > 0);
}

proof fn lemma_after_slash_is(a: Seq<char>, b: Seq<char>)
    requires
        !b.contains('/'),
    ensures
        after_slash(a + seq!['/'] + b) == a.len() + 1,
        after_slash(b) == 0,
    decreases b.len(),
{
    let s = a + seq!['/'] + b;
    if b.len() == 0 {
        assert(s.last() == '/');
    } else {
        let d = b.drop_last();
        assert(b.contains(b[b.len() - 1]));
        assert forall|c: char| #[trigger] d.contains(c) implies b.contains(c) by {
            let i = choose|i: int| 0 <= i < d.len() && d[i] == c;
            assert(b[i] == c);
        }
        assert(s.drop_last() =~= a + seq!['/'] + d);
        lemma_after_slash_is(a, d);
    }
}

/// A pattern is looked for in the directory that stands before its last slash, which has to be no
/// pattern itself, or without a slash in the working directory.
pub proof fn law_directory_of_a_pattern(
    dir: Seq<char>,
    pattern: Seq<char>,
    options: GlobOptions,
    r: GlobPlan,
)
    requires
        !pattern.contains('/'),
        !options.globstar,
    ensures
        plan_answers(pattern, options, r) && is_pattern(pattern, options.extglob) ==> (r matches
            GlobPlan::List { dir: None, pattern: p } && p@ == pattern),
        plan_answers(dir + seq!['/'] + pattern, options, r) && is_pattern(
            dir + seq!['/'] + pattern,
            options.extglob,
        ) ==> (if has_glob(dir + seq!['/']) {
            r is Nothing
        } else {
            r matches GlobPlan::List { dir: Some(d), pattern: p } && d@ == dir + seq!['/'] && p@
                == pattern
        }),
{
    lemma_after_slash_is(dir, pattern);
    let s = dir + seq!['/'] + pattern;
    let k = dir.len() as int + 1;
    assert(s.take(k) =~= dir + seq!['/']);
    assert(s.skip(k) =~= pattern);
}

/// `**` in front of a name finds it in the directory itself and in every directory below it, at any
/// depth, under the path that leads there.
pub proof fn law_walk_finds_every_depth(
    entries: Vec<DirEntry>,
    name: Seq<char>,
    prefix: Seq<char>,
    options: GlobOptions,
    n: int,
)
    requires
        0 < n <= entries.len(),
        name != "**"@,
        entries[n - 1].children is Some,
        options.dotglob || !starts_with(entries[n - 1].name@, "."@),
    ensures
        ({
            let segments = seq!["**"@, name];
            let e = entries[n - 1];
            &&& walk(entries, segments, 0, prefix, options) == walk(
                entries,
                segments,
                1,
                prefix,
                options,
            ) + walk_deeper(entries, segments, 0, prefix, options, entries.len() as int)
            &&& walk_deeper(entries, segments, 0, prefix, options, n) == walk_deeper(
                entries,
                segments,
                0,
                prefix,
                options,
                n - 1,
            ) + walk(e.children->0, segments, 0, child_path(prefix, e.name@), options)
        }),
{
    let segments = seq!["**"@, name];
    assert(segments[0] == "**"@ && segments[1] == name);
}

/// A pattern that matches something stands for what it matches; one that matches nothing for itself,
/// or for nothing with `nullglob`. What the arguments stand for follows in their order.
pub proof fn law_patterns_without_a_match(
    arg: Seq<char>,
    matches: Seq<Seq<char>>,
    nullglob: bool,
    groups: Seq<Seq<Seq<char>>>,
    n: int,
)
    requires
        0 < n <= groups.len(),
    ensures
        matches.len() > 0 ==> expanded(arg, matches, nullglob) == matches,
        expanded(arg, Seq::empty(), true).len() == 0,
        expanded(arg, Seq::empty(), false) == seq![arg],
        flattened(groups, 0).len() == 0,
        flattened(groups, n).len() == flattened(groups, n - 1).len() + groups[n - 1].len(),
        flattened(groups, n).take(flattened(groups, n - 1).len() as int) == flattened(
            groups,
            n - 1,
        ),
        flattened(groups, n).skip(flattened(groups, n - 1).len() as int) == groups[n - 1],
{
    let before = flattened(groups, n - 1);
    assert(flattened(groups, n).take(before.len() as int) =~= before);
    assert(flattened(groups, n).skip(before.len() as int) =~= groups[n - 1]);
}

/// What a walk finds of a directory: each name that matches, behind the path that leads to it; where
/// more of the pattern follows, what that finds inside of it.
pub proof fn law_walk_matches_names(
    entries: Vec<DirEntry>,
    segments: Seq<Seq<char>>,
    i: int,
    prefix: Seq<char>,
    options: GlobOptions,
    n: int,
)
    requires
        0 < n <= entries.len(),
        0 <= i < segments.len(),
    ensures
        ({
            let e = entries[n - 1];
            let hit = glob_ext_matches(segments[i], e.name@, options.dotglob, options.extglob);
            let before = walk_names(entries, segments, i, prefix, options, n - 1);
            let all = walk_names(entries, segments, i, prefix, options, n);
            let path = if prefix.len() == 0 {
                e.name@
            } else {
                prefix + seq!['/'] + e.name@
            };
            &&& !hit ==> all == before
            &&& hit && i == segments.len() - 1 ==> all == before.push(path)
            &&& hit && i < segments.len() - 1 ==> (e.children matches Some(inner) ==> all == before
                + walk(inner, segments, i + 1, path, options))
            &&& hit && i < segments.len() - 1 && e.children is None ==> all == before
        }),
        walk_names(entries, segments, i, prefix, options, 0).len() == 0,
        segments[i] != "**"@ ==> walk(entries, segments, i, prefix, options) == walk_names(
            entries,
            segments,
            i,
            prefix,
            options,
            entries.len() as int,
        ),
{
    reveal_strlit("/");
    assert("/"@ =~= seq!['/']);
}

/// A word is a pattern where it holds a star, a question mark or a pair of brackets; with `extglob` on
/// also where it holds one of its operators. Nothing else is, and a word that is none stands for itself.
pub proof fn law_words_that_are_patterns(s: Seq<char>, options: GlobOptions, r: GlobPlan)
    ensures
        is_pattern(s, false) <==> s.contains('*') || s.contains('?') || (s.contains('[')
            && s.contains(']')),
        is_pattern(s, true) <==> is_pattern(s, false) || has_ext_op(encode_utf8(s)),
        !is_pattern(s, options.extglob) ==> (plan_answers(s, options, r) <==> r is Plain),
        options.globstar && is_pattern(s, options.extglob) && find_chars(s, "**"@, 0) is Some ==> (
        plan_answers(s, options, r) <==> (r matches GlobPlan::Walk { segments } && strs(segments@)
            == split_on(s, '/'))),
{
}

} // verus!
