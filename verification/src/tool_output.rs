//! Reading what the C compiler prints: its search list of system include
//! directories, and the make-style dependency files it writes.
use vstd::prelude::*;
use crate::text::{
    chars_of, contains_infix, has_infix, is_white_space, join_with, lines_of, nonempty, split_chars, split_on,
    string_of, text_lines, trim_chars, trimmed, views, strs, white_space,
};

verus! {

/// The lines from the first one that holds `m` on (none if no line does).
pub open spec fn from_marker(lines: Seq<Seq<char>>, m: Seq<char>) -> Seq<Seq<char>>
    decreases lines.len(),
{
    if lines.len() == 0 {
        lines
    } else if has_infix(lines[0], m) {
        lines
    } else {
        from_marker(lines.drop_first(), m)
    }
}

/// The lines before the first one that holds `m` (all if none does).
pub open spec fn before_marker(lines: Seq<Seq<char>>, m: Seq<char>) -> Seq<Seq<char>>
    decreases lines.len(),
{
    if lines.len() == 0 {
        lines
    } else if has_infix(lines[0], m) {
        Seq::<Seq<char>>::empty()
    } else {
        seq![lines[0]] + before_marker(lines.drop_first(), m)
    }
}

/// The lines that start with a space, in order.
pub open spec fn space_led(lines: Seq<Seq<char>>) -> Seq<Seq<char>>
    decreases lines.len(),
{
    if lines.len() == 0 {
        lines
    } else {
        let r = space_led(lines.drop_last());
        if lines.last().len() > 0 && lines.last()[0] == ' ' {
            r.push(lines.last())
        } else {
            r
        }
    }
}

/// The directories in a compiler's verbose preprocessor output: the lines
/// that start with a space, from the one holding `start` up to the one
/// holding `end`, trimmed.
pub open spec fn listed_dirs(out: Seq<char>, start: Seq<char>, end: Seq<char>) -> Seq<Seq<char>> {
    space_led(before_marker(from_marker(text_lines(out), start), end)).map_values(
        |l: Seq<char>| trimmed(l),
    )
}

proof fn lemma_from_marker(lines: Seq<Seq<char>>, m: Seq<char>, a: int)
    requires
        0 <= a <= lines.len(),
        forall|j: int| 0 <= j < a ==> !has_infix(#[trigger] lines[j], m),
        a < lines.len() ==> has_infix(lines[a], m),
    ensures
        from_marker(lines, m) == lines.skip(a),
    decreases lines.len(),
{
    if lines.len() == 0 {
        assert(lines.skip(a) =~= lines);
    } else if a == 0 {
        assert(lines.skip(0) =~= lines);
    } else {
        assert forall|j: int| 0 <= j < a - 1 implies !has_infix(#[trigger] lines.drop_first()[j], m) by {
            assert(lines.drop_first()[j] == lines[j + 1]);
        }
        lemma_from_marker(lines.drop_first(), m, a - 1);
        assert(lines.drop_first().skip(a - 1) =~= lines.skip(a));
    }
}

proof fn lemma_before_marker(lines: Seq<Seq<char>>, m: Seq<char>, b: int)
    requires
        0 <= b <= lines.len(),
        forall|j: int| 0 <= j < b ==> !has_infix(#[trigger] lines[j], m),
        b < lines.len() ==> has_infix(lines[b], m),
    ensures
        before_marker(lines, m) == lines.take(b),
    decreases lines.len(),
{
    if lines.len() == 0 {
        assert(lines.take(b) =~= lines);
    } else if b == 0 {
        assert(lines.take(0) =~= Seq::<Seq<char>>::empty());
    } else {
        assert forall|j: int| 0 <= j < b - 1 implies !has_infix(#[trigger] lines.drop_first()[j], m) by {
            assert(lines.drop_first()[j] == lines[j + 1]);
        }
        lemma_before_marker(lines.drop_first(), m, b - 1);
        assert(seq![lines[0]] + lines.drop_first().take(b - 1) =~= lines.take(b));
    }
}

/// The directories listed between the lines holding `start` and `end` in
/// `out`.
pub fn listed_dirs_of(out: &str, start: &str, end: &str) -> (r: Vec<String>)
    ensures
        strs(r@) == listed_dirs(out@, start@, end@),
{
    let lines = lines_of(out);
    let sv = chars_of(start);
    let ev = chars_of(end);
    let n = lines.len();
    let ghost ls = views(lines@);
    let mut a: usize = 0;
    while a < n && !contains_infix(&lines[a], &sv)
        invariant
            n == lines.len(),
            ls == views(lines@),
            sv@ == start@,
            0 <= a <= n,
            forall|j: int| 0 <= j < a ==> !has_infix(#[trigger] ls[j], start@),
        decreases n - a,
    {
        assert(ls[a as int] == lines@[a as int]@);
        a = a + 1;
    }
    if a < n {
        assert(ls[a as int] == lines@[a as int]@);
    }
    proof {
        lemma_from_marker(ls, start@, a as int);
    }
    let ghost rest = ls.skip(a as int);
    let mut b: usize = a;
    while b < n && !contains_infix(&lines[b], &ev)
        invariant
            n == lines.len(),
            ls == views(lines@),
            rest == ls.skip(a as int),
            ev@ == end@,
            a <= b <= n,
            forall|j: int| a <= j < b ==> !has_infix(#[trigger] ls[j], end@),
        decreases n - b,
    {
        assert(ls[b as int] == lines@[b as int]@);
        b = b + 1;
    }
    if b < n {
        assert(ls[b as int] == lines@[b as int]@);
        assert(rest[b - a] == ls[b as int]);
    }
    proof {
        assert forall|j: int| 0 <= j < b - a implies !has_infix(#[trigger] rest[j], end@) by {
            assert(rest[j] == ls[j + a]);
        }
        lemma_before_marker(rest, end@, b - a);
        assert(rest.take(b - a) =~= ls.subrange(a as int, b as int));
    }
    let ghost window = ls.subrange(a as int, b as int);
    let mut r: Vec<String> = Vec::new();
    let mut i: usize = a;
    assert(window.take(0) =~= Seq::<Seq<char>>::empty());
    while i < b
        invariant
            n == lines.len(),
            ls == views(lines@),
            a <= i <= b <= n,
            window == ls.subrange(a as int, b as int),
            strs(r@) == space_led(window.take(i - a)).map_values(|l: Seq<char>| trimmed(l)),
        decreases b - i,
    {
        let l = &lines[i];
        assert(window[i - a] == l@);
        assert(window.take(i - a + 1).drop_last() =~= window.take(i - a));
        let ghost before = strs(r@);
        if l.len() > 0 && l[0] == ' ' {
            let t = string_of(&trim_chars(l));
            r.push(t);
            assert(strs(r@) =~= before.push(trimmed(l@)));
            assert(space_led(window.take(i - a + 1)).map_values(|l: Seq<char>| trimmed(l))
                =~= space_led(window.take(i - a)).map_values(|l: Seq<char>| trimmed(l)).push(trimmed(l@)));
        }
        i = i + 1;
    }
    assert(window.take(b - a) =~= window);
    r
}

/// `s` with every white-space character replaced by a space.
pub open spec fn blanked(s: Seq<char>) -> Seq<char> {
    s.map_values(|c: char| if is_white_space(c) { ' ' } else { c })
}

/// The words of `s`, split at runs of white space, as
/// `str::split_whitespace` gives them.
pub open spec fn words(s: Seq<char>) -> Seq<Seq<char>> {
    nonempty(split_on(blanked(s), ' '))
}

/// The paths a make-style dependency line names: the words after its last
/// `:`, except line-continuation backslashes.
pub open spec fn line_deps(line: Seq<char>) -> Seq<Seq<char>> {
    let part = split_on(line, ':').last();
    without_backslashes(words(part))
}

/// The words that are not a lone backslash, in order.
pub open spec fn without_backslashes(ws: Seq<Seq<char>>) -> Seq<Seq<char>>
    decreases ws.len(),
{
    if ws.len() == 0 {
        ws
    } else {
        let r = without_backslashes(ws.drop_last());
        if ws.last() == seq!['\\'] {
            r
        } else {
            r.push(ws.last())
        }
    }
}

/// The paths named by all lines of a dependency file, line by line.
pub open spec fn dep_file_paths(lines: Seq<Seq<char>>) -> Seq<Seq<char>>
    decreases lines.len(),
{
    if lines.len() == 0 {
        Seq::<Seq<char>>::empty()
    } else {
        dep_file_paths(lines.drop_last()) + line_deps(lines.last())
    }
}

/// The paths a make-style dependency line names.
fn line_deps_of(line: &Vec<char>) -> (r: Vec<String>)
    ensures
        strs(r@) == line_deps(line@),
{
    let pieces = split_chars(line, ':');
    proof {
        crate::text::lemma_split_on_nonempty(line@, ':');
    }
    let part = &pieces[pieces.len() - 1];
    assert(views(pieces@).last() == part@);
    let mut blank: Vec<char> = Vec::new();
    let mut i: usize = 0;
    while i < part.len()
        invariant
            0 <= i <= part.len(),
            blank@ == blanked(part@).take(i as int),
        decreases part.len() - i,
    {
        let c = part[i];
        if white_space(c) {
            blank.push(' ');
        } else {
            blank.push(c);
        }
        i = i + 1;
        assert(blank@ =~= blanked(part@).take(i as int));
    }
    assert(blank@ =~= blanked(part@));
    let ws = split_chars(&blank, ' ');
    let ghost wv = views(ws@);
    let mut r: Vec<String> = Vec::new();
    let mut k: usize = 0;
    assert(wv.take(0) =~= Seq::<Seq<char>>::empty());
    while k < ws.len()
        invariant
            0 <= k <= ws.len(),
            wv == views(ws@),
            wv == split_on(blanked(part@), ' '),
            strs(r@) == without_backslashes(nonempty(wv.take(k as int))),
        decreases ws.len() - k,
    {
        let w = &ws[k];
        assert(wv[k as int] == w@);
        assert(wv.take(k + 1).drop_last() =~= wv.take(k as int));
        let ghost before = strs(r@);
        let is_backslash = w.len() == 1 && w[0] == '\\';
        assert(is_backslash == (w@ == seq!['\\'])) by {
            if w@ == seq!['\\'] {
                assert(w@.len() == 1 && w@[0] == '\\');
            }
            if is_backslash {
                assert(w@ =~= seq!['\\']);
            }
        }
        let ghost ne = nonempty(wv.take(k as int));
        if w.len() > 0 {
            assert(nonempty(wv.take(k + 1)) == ne.push(w@));
            assert(ne.push(w@).drop_last() =~= ne);
        }
        if w.len() > 0 && !is_backslash {
            r.push(string_of(w));
            assert(strs(r@) =~= before.push(w@));
        }
        k = k + 1;
    }
    assert(wv.take(ws.len() as int) =~= wv);
    r
}

/// The paths named by the dependency file `content`, line by line: on each
/// line, the words after the last `:`, except line-continuation
/// backslashes.
pub fn dep_paths(content: &str) -> (r: Vec<String>)
    ensures
        strs(r@) == dep_file_paths(text_lines(content@)),
{
    let lines = lines_of(content);
    let ghost ls = views(lines@);
    let mut r: Vec<String> = Vec::new();
    let mut i: usize = 0;
    assert(ls.take(0) =~= Seq::<Seq<char>>::empty());
    while i < lines.len()
        invariant
            0 <= i <= lines.len(),
            ls == views(lines@),
            strs(r@) == dep_file_paths(ls.take(i as int)),
        decreases lines.len() - i,
    {
        assert(ls[i as int] == lines@[i as int]@);
        assert(ls.take(i + 1).drop_last() =~= ls.take(i as int));
        let found = line_deps_of(&lines[i]);
        let ghost before = strs(r@);
        let mut j: usize = 0;
        while j < found.len()
            invariant
                0 <= j <= found.len(),
                strs(r@) == before + strs(found@).take(j as int),
            decreases found.len() - j,
        {
            let ghost b2 = strs(r@);
            r.push(string_of(&chars_of(found[j].as_str())));
            assert(strs(r@) =~= b2.push(found@[j as int]@));
            j = j + 1;
            assert(before + strs(found@).take(j as int) =~= (before + strs(found@).take(j - 1)).push(
                found@[j - 1]@,
            ));
        }
        assert(strs(found@).take(found.len() as int) =~= strs(found@));
        i = i + 1;
    }
    assert(ls.take(lines.len() as int) =~= ls);
    r
}

/// Every character of joined pieces is the separator or a character of one
/// of the pieces.
proof fn lemma_join_chars(xs: Seq<Seq<char>>, sep: char, p: spec_fn(char) -> bool)
    requires
        p(sep),
        forall|i: int, k: int| 0 <= i < xs.len() && 0 <= k < xs[i].len() ==> p(#[trigger] xs[i][k]),
    ensures
        forall|k: int| 0 <= k < join_with(xs, sep).len() ==> p(#[trigger] join_with(xs, sep)[k]),
    decreases xs.len(),
{
    if xs.len() == 1 {
        assert forall|k: int| 0 <= k < join_with(xs, sep).len() implies p(
            #[trigger] join_with(xs, sep)[k],
        ) by {
            assert(join_with(xs, sep)[k] == xs[0][k]);
        }
    } else if xs.len() > 1 {
        let init = xs.drop_last();
        assert forall|i: int, k: int| 0 <= i < init.len() && 0 <= k < init[i].len() implies p(
            #[trigger] init[i][k],
        ) by {
            assert(init[i] == xs[i]);
        }
        lemma_join_chars(init, sep, p);
        let a = join_with(init, sep);
        let l = xs.last();
        let j = a + seq![sep] + l;
        assert forall|k: int| 0 <= k < j.len() implies p(#[trigger] j[k]) by {
            if k < a.len() {
                assert(j[k] == a[k]);
            } else if k == a.len() {
                assert(j[k] == sep);
            } else {
                assert(j[k] == l[k - a.len() - 1]);
                assert(l == xs[xs.len() - 1]);
            }
        }
    }
}

proof fn lemma_nonempty_leading_empty(xs: Seq<Seq<char>>)
    ensures
        nonempty(seq![Seq::<char>::empty()] + xs) == nonempty(xs),
    decreases xs.len(),
{
    let e = Seq::<char>::empty();
    let whole = seq![e] + xs;
    if xs.len() == 0 {
        assert(whole.drop_last() =~= Seq::<Seq<char>>::empty());
        assert(whole.last() == e);
        assert(nonempty(whole) == nonempty(whole.drop_last()));
    } else {
        lemma_nonempty_leading_empty(xs.drop_last());
        assert(whole.drop_last() =~= seq![e] + xs.drop_last());
        assert(whole.last() == xs.last());
        assert(nonempty(whole) == (if whole.last().len() == 0 {
            nonempty(whole.drop_last())
        } else {
            nonempty(whole.drop_last()).push(whole.last())
        }));
    }
}

proof fn lemma_without_backslashes_none(ws: Seq<Seq<char>>)
    requires
        forall|i: int| 0 <= i < ws.len() ==> #[trigger] ws[i] != seq!['\\'],
    ensures
        without_backslashes(ws) == ws,
    decreases ws.len(),
{
    if ws.len() > 0 {
        lemma_without_backslashes_none(ws.drop_last());
        assert(ws[ws.len() - 1] != seq!['\\']);
        assert(ws.drop_last().push(ws.last()) =~= ws);
    }
}

/// Every path a dependency line names after its last `:` is reported, in
/// order: for a target `t` and words free of white space and `:`, none a
/// lone backslash, the line `t: w1 w2 ...` names exactly those words.
pub proof fn lemma_line_deps_reports_every_word(t: Seq<char>, ws: Seq<Seq<char>>)
    requires
        forall|i: int| 0 <= i < ws.len() ==> (#[trigger] ws[i]).len() > 0 && ws[i] != seq!['\\'],
        forall|i: int, k: int|
            0 <= i < ws.len() && 0 <= k < ws[i].len() ==> !is_white_space(#[trigger] ws[i][k])
                && ws[i][k] != ':',
    ensures
        line_deps(t + seq![':'] + (seq![' '] + join_with(ws, ' '))) == ws,
{
    let e = Seq::<char>::empty();
    let j = join_with(ws, ' ');
    let rest = seq![' '] + j;
    let ok = |c: char| c != ':' && (c == ' ' || !is_white_space(c));
    if ws.len() > 0 {
        lemma_join_chars(ws, ' ', ok);
    } else {
        assert(j =~= e);
    }
    assert forall|k: int| 0 <= k < rest.len() implies ok(#[trigger] rest[k]) by {
        if k > 0 {
            assert(rest[k] == j[k - 1]);
        }
    }
    // the part after the last `:`
    assert(!rest.contains(':')) by {
        if rest.contains(':') {
            let k = choose|k: int| 0 <= k < rest.len() && rest[k] == ':';
            assert(ok(rest[k]));
        }
    }
    crate::text::lemma_split_no_sep(rest, ':');
    crate::text::lemma_split_concat(t, rest, ':');
    crate::text::lemma_split_on_nonempty(t, ':');
    assert(split_on(t + seq![':'] + rest, ':').last() == rest);
    // its words
    assert(blanked(rest) =~= rest) by {
        assert forall|k: int| 0 <= k < rest.len() implies blanked(rest)[k] == rest[k] by {
            assert(ok(rest[k]));
        }
    }
    assert(rest =~= e + seq![' '] + j);
    crate::text::lemma_split_concat(e, j, ' ');
    assert(split_on(e, ' ') == seq![e]);
    if ws.len() > 0 {
        assert forall|i: int| 0 <= i < ws.len() implies !(#[trigger] ws[i]).contains(' ') by {
            if ws[i].contains(' ') {
                let k = choose|k: int| 0 <= k < ws[i].len() && ws[i][k] == ' ';
                assert(!is_white_space(ws[i][k]));
            }
        }
        crate::text::lemma_split_join(ws, ' ');
        lemma_nonempty_leading_empty(ws);
        crate::text::lemma_pieces_of_joined(ws, ' ');
        crate::text::lemma_split_join(ws, ' ');
    } else {
        crate::text::lemma_split_no_sep(e, ' ');
        assert(split_on(j, ' ') == seq![e]);
        lemma_nonempty_leading_empty(seq![e]);
        assert(seq![e].drop_last() =~= Seq::<Seq<char>>::empty());
        assert(nonempty(seq![e]) == nonempty(seq![e].drop_last()));
    }
    assert(words(rest) == ws);
    lemma_without_backslashes_none(ws);
}

} // verus!
