//! What the scripts of `sed` say.
use crate::stream::sed_parse::{
    digit_prefix, find_slash, sed_addr, sed_cmd, sed_part, sed_parts, sed_script, single_addr,
    SedAddr, SedCmd, SedInstruction,
};
use crate::text::{dec, is_digit, joined, lemma_dec_digits, split_on, starts_with, trim_start};
use crate::text_laws::law_joined_words_split_again;
use vstd::prelude::*;
use vstd::utf8::encode_utf8;

verus! {

proof fn lemma_digits_before(d: Seq<char>, rest: Seq<char>)
    requires
        forall|i: int| 0 <= i < d.len() ==> is_digit(#[trigger] d[i]),
        rest.len() > 0 ==> !is_digit(rest[0]),
    ensures
        digit_prefix(d + rest) == d.len(),
    decreases d.len(),
{
    let s = d + rest;
    if d.len() == 0 {
        assert(s =~= rest);
    } else {
        let t = d.skip(1);
        assert(is_digit(d[0]));
        assert forall|i: int| 0 <= i < t.len() implies is_digit(#[trigger] t[i]) by {
            assert(is_digit(d[i + 1]));
        }
        assert(s.skip(1) =~= t + rest);
        lemma_digits_before(t, rest);
    }
}

proof fn lemma_slash_behind(p: Seq<char>, s: Seq<char>, i: int, k: int)
    requires
        0 <= i <= k < s.len(),
        s[k] == '/',
        forall|j: int| i <= j < k ==> s[j] != '/',
    ensures
        find_slash(s, i) == Some(k),
    decreases k - i,
{
    if i < k {
        lemma_slash_behind(p, s, i + 1, k);
    }
}

proof fn lemma_line_address(n: nat, rest: Seq<char>)
    requires
        n <= usize::MAX,
        rest.len() > 0 ==> !is_digit(rest[0]),
    ensures
        single_addr(dec(n) + rest) == Some((SedAddr::Line(n), dec(n).len() as int)),
{
    let s = dec(n) + rest;
    lemma_dec_digits(n);
    assert(is_digit(dec(n)[0]));
    assert(s[0] == dec(n)[0]);
    lemma_digits_before(dec(n), rest);
    assert(s.take(dec(n).len() as int) =~= dec(n));
}

/// A number in front of a command is the address of that line, `$` that of the last one, and a
/// pattern between slashes that of the lines that match it; two numbers with a comma between them
/// are a range. The command follows behind the address.
pub proof fn law_written_addresses(m: nat, n: nat, p: Seq<char>, rest: Seq<char>)
    requires
        m <= usize::MAX,
        n <= usize::MAX,
        !p.contains('/'),
        rest.len() > 0,
        !is_digit(rest[0]),
        rest[0] != ',' && rest[0] != '/' && rest[0] != '$',
    ensures
        sed_addr(dec(n) + rest) == (SedAddr::Line(n), rest),
        sed_addr(seq!['$'] + rest) == (SedAddr::Last, rest),
        sed_addr(seq!['/'] + p + seq!['/'] + rest) == (SedAddr::Regex(p), rest),
        sed_addr(dec(m) + seq![','] + dec(n) + rest) == (
            SedAddr::Range(Box::new(SedAddr::Line(m)), Box::new(SedAddr::Line(n))),
            rest,
        ),
        sed_addr(rest) == (SedAddr::Every, rest),
{
    lemma_line_address(n, rest);
    let a = dec(n) + rest;
    let k = dec(n).len() as int;
    assert(a[k] == rest[0]);
    assert(a.skip(k) =~= rest);
    let b = seq!['$'] + rest;
    assert(b[0] == '$' && b[1] == rest[0]);
    assert(b.skip(1) =~= rest);
    let c = seq!['/'] + p + seq!['/'] + rest;
    let e = p.len() as int + 1;
    assert(c[0] == '/' && c[e] == '/' && c[e + 1] == rest[0]);
    assert forall|j: int| 1 <= j < e implies c[j] != '/' by {
        assert(c[j] == p[j - 1]);
        assert(p.contains(p[j - 1]));
    }
    lemma_slash_behind(p, c, 1, e);
    assert(c.subrange(1, e) =~= p);
    assert(c.skip(e + 1) =~= rest);
    let d = dec(m) + seq![','] + dec(n) + rest;
    let tail = seq![','] + dec(n) + rest;
    assert(d =~= dec(m) + tail);
    assert(tail[0] == ',');
    lemma_line_address(m, tail);
    let q = dec(m).len() as int;
    assert(d[q] == ',');
    assert(d.skip(q + 1) =~= a);
    assert(sed_addr(a) == (SedAddr::Line(n), rest));
    assert(sed_addr(d.skip(q + 1)) == (SedAddr::Line(n), rest));
    assert(single_addr(d) == Some((SedAddr::Line(m), q)));
    reveal_with_fuel(sed_addr, 2);
    assert(digit_prefix(rest) == 0);
}

proof fn lemma_parts(a: Seq<char>, b: Seq<char>, flags: Seq<char>, d: char)
    requires
        !a.contains(d) && !b.contains(d) && !flags.contains(d),
    ensures
        split_on(a + seq![d] + b + seq![d] + flags, d) == seq![a, b, flags],
        split_on(a + seq![d] + b, d) == seq![a, b],
{
    let two = seq![a, b];
    let three = seq![a, b, flags];
    assert(three.drop_last() =~= two);
    assert(two.drop_last() =~= seq![a]);
    assert(joined(seq![a], seq![d]) == a);
    assert(joined(two, seq![d]) == a + seq![d] + b);
    assert(joined(three, seq![d]) == a + seq![d] + b + seq![d] + flags);
    assert forall|i: int| 0 <= i < two.len() implies !(#[trigger] two[i]).contains(d) by {}
    assert forall|i: int| 0 <= i < three.len() implies !(#[trigger] three[i]).contains(d) by {}
    law_joined_words_split_again(two, d);
    law_joined_words_split_again(three, d);
}

/// `s/a/b/` replaces the first `a` of a line by `b`, and with a `g` behind it every one; `y/a/b/` turns
/// the characters of `a` into those of `b`.
pub proof fn law_written_substitutions(a: Seq<char>, b: Seq<char>)
    requires
        !a.contains('/') && !b.contains('/'),
    ensures
        encode_utf8(seq!['s', '/'] + a + seq!['/'] + b + seq!['/']).len() >= 4 ==> sed_cmd(
            seq!['s', '/'] + a + seq!['/'] + b + seq!['/'],
        ) == Some(SedCmd::Substitute { pattern: a, replacement: b, global: false }),
        encode_utf8(seq!['s', '/'] + a + seq!['/'] + b + seq!['/', 'g']).len() >= 4 ==> sed_cmd(
            seq!['s', '/'] + a + seq!['/'] + b + seq!['/', 'g'],
        ) == Some(SedCmd::Substitute { pattern: a, replacement: b, global: true }),
        sed_cmd(seq!['y', '/'] + a + seq!['/'] + b + seq!['/']) == Some(SedCmd::Transliterate(a, b)),
{
    let none = Seq::<char>::empty();
    let g = seq!['g'];
    lemma_parts(a, b, none, '/');
    lemma_parts(a, b, g, '/');
    reveal_strlit("s");
    reveal_strlit("d");
    reveal_strlit("p");
    reveal_strlit("q");
    reveal_strlit("y/");
    let x = seq!['s', '/'] + a + seq!['/'] + b + seq!['/'];
    assert(x[0] == 's' && x[1] == '/');
    assert(x.take(1) =~= "s"@);
    assert(x.skip(2) =~= a + seq!['/'] + b + seq!['/'] + none);
    let y = seq!['s', '/'] + a + seq!['/'] + b + seq!['/', 'g'];
    assert(y[0] == 's' && y[1] == '/');
    assert(y.take(1) =~= "s"@);
    assert(y.skip(2) =~= a + seq!['/'] + b + seq!['/'] + g);
    assert(g[0] == 'g' && g.contains('g'));
    assert(seq![a, b, none][2] == none && seq![a, b, g][2] == g);
    assert(!none.contains('g'));
    let z = seq!['y', '/'] + a + seq!['/'] + b + seq!['/'];
    assert(z[0] == 'y' && z[1] == '/');
    assert(z.take(2) =~= "y/"@);
    assert(z.take(1)[0] == 'y');
    assert("s"@[0] == 's' && "d"@[0] == 'd' && "p"@[0] == 'p' && "q"@[0] == 'q');
    assert(!starts_with(z, "s"@));
    assert(z.skip(2) =~= a + seq!['/'] + b + seq!['/'] + none);
}

/// `d` deletes, `p` prints, `q` ends; `a\`, `i\` and `c\` give the text that they write behind a line,
/// in front of it and in its place, without the white space in front.
pub proof fn law_written_commands(text: Seq<char>)
    ensures
        sed_cmd(seq!['d']) == Some(SedCmd::Delete),
        sed_cmd(seq!['p']) == Some(SedCmd::Print),
        sed_cmd(seq!['q']) == Some(SedCmd::Quit),
        sed_cmd(seq!['a', '\\'] + text) == Some(SedCmd::AppendText(trim_start(text))),
        sed_cmd(seq!['i', '\\'] + text) == Some(SedCmd::InsertText(trim_start(text))),
        sed_cmd(seq!['c', '\\'] + text) == Some(SedCmd::ChangeText(trim_start(text))),
{
    reveal_strlit("s");
    reveal_strlit("d");
    reveal_strlit("p");
    reveal_strlit("q");
    reveal_strlit("y/");
    reveal_strlit("y|");
    reveal_strlit("a\\");
    reveal_strlit("i\\");
    reveal_strlit("c\\");
    assert("d"@ =~= seq!['d'] && "p"@ =~= seq!['p'] && "q"@ =~= seq!['q']);
    assert("s"@ =~= seq!['s']);
    assert(seq!['d'].take(1) =~= seq!['d'] && seq!['d'][0] == 'd');
    assert(seq!['p'].take(1) =~= seq!['p'] && seq!['p'][0] == 'p');
    assert(seq!['q'].take(1) =~= seq!['q'] && seq!['q'][0] == 'q');
    assert(seq!['s'][0] == 's');
    lemma_text_command('a', text);
    lemma_text_command('i', text);
    lemma_text_command('c', text);
    assert("a\\"@ =~= seq!['a', '\\'] && "i\\"@ =~= seq!['i', '\\']);
    assert("c\\"@ =~= seq!['c', '\\']);
    assert(seq!['a', '\\'][0] == 'a' && seq!['i', '\\'][0] == 'i' && seq!['c', '\\'][0] == 'c');
}

proof fn lemma_text_command(c: char, text: Seq<char>)
    requires
        c == 'a' || c == 'i' || c == 'c',
    ensures
        ({
            let s = seq![c, '\\'] + text;
            &&& !starts_with(s, "s"@) && s != "d"@ && s != "p"@ && s != "q"@
            &&& !starts_with(s, "y/"@) && !starts_with(s, "y|"@)
            &&& s.take(2) == seq![c, '\\'] && s.skip(2) == text && s.len() >= 2
        }),
{
    reveal_strlit("s");
    reveal_strlit("d");
    reveal_strlit("p");
    reveal_strlit("q");
    reveal_strlit("y/");
    reveal_strlit("y|");
    let s = seq![c, '\\'] + text;
    assert(s.take(2) =~= seq![c, '\\']);
    assert(s.skip(2) =~= text);
    assert(s.take(1)[0] == c && s.take(2)[0] == c);
    assert("s"@[0] == 's' && "y/"@[0] == 'y' && "y|"@[0] == 'y');
}

/// The parts of a script, which stand between semicolons, are its instructions, in their order.
pub proof fn law_scripts_hold_their_parts(parts: Seq<Seq<char>>, last: Seq<char>)
    requires
        parts.len() > 0,
        forall|i: int| 0 <= i < parts.len() ==> !(#[trigger] parts[i]).contains(';'),
        !last.contains(';'),
    ensures
        sed_script(joined(parts, seq![';']) + seq![';'] + last) == sed_script(
            joined(parts, seq![';']),
        ) + (match sed_part(last) {
            Some(i) => seq![i],
            None => Seq::empty(),
        }),
        sed_script(last) == (match sed_part(last) {
            Some(i) => seq![i],
            None => Seq::empty(),
        }),
{
    let all = parts.push(last);
    assert forall|i: int| 0 <= i < all.len() implies !(#[trigger] all[i]).contains(';') by {
        if i < parts.len() {
            assert(all[i] == parts[i]);
        }
    }
    law_joined_words_split_again(parts, ';');
    law_joined_words_split_again(all, ';');
    assert(all.drop_last() =~= parts);
    assert(joined(all, seq![';']) == joined(parts, seq![';']) + seq![';'] + last);
    let before = sed_parts(parts);
    let none = Seq::<SedInstruction>::empty();
    match sed_part(last) {
        Some(i) => {
            assert(before.push(i) =~= before + seq![i]);
            assert(none.push(i) =~= seq![i]);
        },
        None => {
            assert(before =~= before + none);
        },
    }
    let one = seq![last];
    law_joined_words_split_again(one, ';');
    assert(one.drop_last() =~= Seq::<Seq<char>>::empty());
    assert(sed_parts(one.drop_last()) =~= none);
}

} // verus!
