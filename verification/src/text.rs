use vstd::prelude::*;

use crate::trusted::push_char;

verus! {

/// The characters of `s`, in order.
pub fn chars_of(s: &str) -> (v: Vec<char>)
    ensures
        v@ == s@,
{
    let mut v: Vec<char> = Vec::new();
    for c in it: s.chars()
        invariant
            v@ == it.seq().take(it.index() as int),
            it.seq() == s@,
    {
        v.push(c);
    }
    v
}

/// Appends the characters of `v` to `s`.
pub fn push_chars(s: &mut String, v: &Vec<char>)
    ensures
        final(s)@ == old(s)@ + v@,
{
    let mut i: usize = 0;
    while i < v.len()
        invariant
            0 <= i <= v.len(),
            s@ == old(s)@ + v@.take(i as int),
        decreases v.len() - i,
    {
        push_char(s, v[i]);
        i = i + 1;
        assert(v@.take(i as int) =~= v@.take(i - 1) .push(v@[i - 1]));
    }
    assert(v@.take(v.len() as int) =~= v@);
}

/// A string made of the characters of `v`.
pub fn string_of(v: &Vec<char>) -> (s: String)
    ensures
        s@ == v@,
{
    let mut s = String::new();
    push_chars(&mut s, v);
    assert(s@ =~= v@);
    s
}

/// Whether two character sequences are equal.
pub fn chars_equal(a: &Vec<char>, b: &Vec<char>) -> (r: bool)
    ensures
        r == (a@ == b@),
{
    if a.len() != b.len() {
        return false;
    }
    let mut i: usize = 0;
    while i < a.len()
        invariant
            0 <= i <= a.len(),
            a.len() == b.len(),
            forall|j: int| 0 <= j < i ==> a@[j] == b@[j],
        decreases a.len() - i,
    {
        if a[i] != b[i] {
            return false;
        }
        i = i + 1;
    }
    assert(a@ =~= b@);
    true
}

/// The character sequences held by a vector of character vectors.
pub open spec fn views(v: Seq<Vec<char>>) -> Seq<Seq<char>> {
    v.map_values(|x: Vec<char>| x@)
}

/// The character sequences held by a vector of strings.
pub open spec fn strs(v: Seq<String>) -> Seq<Seq<char>> {
    v.map_values(|x: String| x@)
}

/// The pieces of `s` between occurrences of `sep`, as `str::split` gives
/// them: one more piece than there are separators.
pub open spec fn split_on(s: Seq<char>, sep: char) -> Seq<Seq<char>>
    decreases s.len(),
{
    if s.len() == 0 {
        seq![Seq::<char>::empty()]
    } else {
        let pre = split_on(s.drop_last(), sep);
        if s.last() == sep {
            pre.push(Seq::<char>::empty())
        } else {
            pre.update(pre.len() - 1, pre.last().push(s.last()))
        }
    }
}

/// The pieces that are not empty, in order.
pub open spec fn nonempty(pieces: Seq<Seq<char>>) -> Seq<Seq<char>>
    decreases pieces.len(),
{
    if pieces.len() == 0 {
        pieces
    } else {
        let r = nonempty(pieces.drop_last());
        if pieces.last().len() == 0 {
            r
        } else {
            r.push(pieces.last())
        }
    }
}

/// `items` joined with `sep` between them.
pub open spec fn join_with(items: Seq<Seq<char>>, sep: char) -> Seq<char>
    decreases items.len(),
{
    if items.len() == 0 {
        Seq::<char>::empty()
    } else if items.len() == 1 {
        items[0]
    } else {
        join_with(items.drop_last(), sep) + seq![sep] + items.last()
    }
}

pub proof fn lemma_split_on_nonempty(s: Seq<char>, sep: char)
    ensures
        split_on(s, sep).len() >= 1,
    decreases s.len(),
{
    if s.len() > 0 {
        lemma_split_on_nonempty(s.drop_last(), sep);
    }
}

/// The pieces of `s` between occurrences of `sep`.
pub fn split_chars(s: &Vec<char>, sep: char) -> (r: Vec<Vec<char>>)
    ensures
        views(r@) == split_on(s@, sep),
{
    let mut done: Vec<Vec<char>> = Vec::new();
    let mut cur: Vec<char> = Vec::new();
    let mut i: usize = 0;
    assert(s@.take(0) =~= Seq::<char>::empty());
    while i < s.len()
        invariant
            0 <= i <= s.len(),
            views(done@).push(cur@) =~= split_on(s@.take(i as int), sep),
        decreases s.len() - i,
    {
        let c = s[i];
        let ghost prev = s@.take(i as int);
        assert(s@.take(i + 1).drop_last() =~= prev);
        proof {
            lemma_split_on_nonempty(prev, sep);
        }
        let ghost old_done = views(done@);
        let ghost old_cur = cur@;
        if c == sep {
            let finished = cur;
            done.push(finished);
            cur = Vec::new();
            assert(views(done@) =~= old_done.push(old_cur));
        } else {
            cur.push(c);
            assert(views(done@) =~= old_done);
        }
        i = i + 1;
    }
    assert(s@.take(s.len() as int) =~= s@);
    let ghost old_done = views(done@);
    let ghost old_cur = cur@;
    done.push(cur);
    assert(views(done@) =~= old_done.push(old_cur));
    done
}

/// The non-empty pieces of `s` between occurrences of `sep`, as strings.
pub fn nonempty_pieces(s: &str, sep: char) -> (r: Vec<String>)
    ensures
        strs(r@) == nonempty(split_on(s@, sep)),
{
    let v = chars_of(s);
    let pieces = split_chars(&v, sep);
    let mut r: Vec<String> = Vec::new();
    let mut i: usize = 0;
    assert(views(pieces@).take(0) =~= Seq::<Seq<char>>::empty());
    while i < pieces.len()
        invariant
            0 <= i <= pieces.len(),
            views(pieces@) == split_on(s@, sep),
            strs(r@) == nonempty(views(pieces@).take(i as int)),
        decreases pieces.len() - i,
    {
        let ghost before = strs(r@);
        assert(views(pieces@).take(i + 1).drop_last() =~= views(pieces@).take(i as int));
        assert(views(pieces@).take(i + 1).last() == pieces@[i as int]@);
        if pieces[i].len() > 0 {
            let p = string_of(&pieces[i]);
            r.push(p);
            assert(strs(r@) =~= before.push(pieces@[i as int]@));
        }
        i = i + 1;
    }
    assert(views(pieces@).take(pieces.len() as int) =~= views(pieces@));
    r
}

/// `items` joined with `sep` between them.
pub fn join_strings(items: &Vec<String>, sep: char) -> (r: String)
    ensures
        r@ == join_with(strs(items@), sep),
{
    let mut s = String::new();
    let mut i: usize = 0;
    assert(strs(items@).take(0) =~= Seq::<Seq<char>>::empty());
    while i < items.len()
        invariant
            0 <= i <= items.len(),
            s@ == join_with(strs(items@).take(i as int), sep),
        decreases items.len() - i,
    {
        let ghost t = strs(items@).take(i + 1);
        assert(t.drop_last() =~= strs(items@).take(i as int));
        assert(t.last() == items@[i as int]@);
        if i > 0 {
            push_char(&mut s, sep);
        }
        s.append(items[i].as_str());
        i = i + 1;
        assert(s@ =~= join_with(strs(items@).take(i as int), sep));
    }
    assert(strs(items@).take(items.len() as int) =~= strs(items@));
    s
}

/// Whether `items` holds a string equal to `x`.
pub fn contains_string(items: &Vec<String>, x: &String) -> (r: bool)
    ensures
        r == strs(items@).contains(x@),
{
    let mut i: usize = 0;
    while i < items.len()
        invariant
            0 <= i <= items.len(),
            forall|j: int| 0 <= j < i ==> strs(items@)[j] != x@,
        decreases items.len() - i,
    {
        if items[i].eq(x) {
            assert(strs(items@)[i as int] == x@);
            return true;
        }
        i = i + 1;
    }
    false
}

/// A definition `name=value` split at its first `=`: the name, and the
/// value if there is an `=` (as `splitn(2, '=')` does).
pub open spec fn split_define(d: Seq<char>) -> (Seq<char>, Option<Seq<char>>)
    decreases d.len(),
{
    if d.len() == 0 {
        (d, None)
    } else if d[0] == '=' {
        (Seq::<char>::empty(), Some(d.drop_first()))
    } else {
        let r = split_define(d.drop_first());
        (seq![d[0]] + r.0, r.1)
    }
}

proof fn lemma_split_define_at(d: Seq<char>, k: int)
    requires
        0 <= k <= d.len(),
        forall|j: int| 0 <= j < k ==> d[j] != '=',
        k < d.len() ==> d[k] == '=',
    ensures
        split_define(d) == (d.take(k), if k < d.len() {
            Some(d.skip(k + 1))
        } else {
            None::<Seq<char>>
        }),
    decreases d.len(),
{
    if d.len() == 0 {
        assert(d.take(k) =~= d);
    } else if k == 0 {
        assert(d.take(0) =~= Seq::<char>::empty());
        assert(d.drop_first() =~= d.skip(1));
    } else {
        lemma_split_define_at(d.drop_first(), k - 1);
        assert(seq![d[0]] + d.drop_first().take(k - 1) =~= d.take(k));
        if k < d.len() {
            assert(d.drop_first().skip(k) =~= d.skip(k + 1));
        }
    }
}

/// The name and the optional value of the definition `d`.
pub fn parse_define(d: &str) -> (r: (String, Option<String>))
    ensures
        (r.0@, opt_chars(r.1)) == split_define(d@),
{
    let v = chars_of(d);
    let mut k: usize = 0;
    while k < v.len() && v[k] != '='
        invariant
            0 <= k <= v.len(),
            forall|j: int| 0 <= j < k ==> v@[j] != '=',
        decreases v.len() - k,
    {
        k = k + 1;
    }
    proof {
        lemma_split_define_at(v@, k as int);
    }
    let mut name: Vec<char> = Vec::new();
    let mut i: usize = 0;
    while i < k
        invariant
            0 <= i <= k <= v.len(),
            name@ == v@.take(i as int),
        decreases k - i,
    {
        name.push(v[i]);
        i = i + 1;
        assert(name@ =~= v@.take(i as int));
    }
    if k < v.len() {
        let mut value: Vec<char> = Vec::new();
        let mut j: usize = k + 1;
        while j < v.len()
            invariant
                k + 1 <= j <= v.len(),
                value@ == v@.subrange(k + 1, j as int),
            decreases v.len() - j,
        {
            value.push(v[j]);
            j = j + 1;
            assert(value@ =~= v@.subrange(k + 1, j as int));
        }
        assert(value@ =~= v@.skip(k + 1));
        (string_of(&name), Some(string_of(&value)))
    } else {
        (string_of(&name), None)
    }
}

/// The characters of an optional string.
pub open spec fn opt_chars(o: Option<String>) -> Option<Seq<char>> {
    match o {
        Some(s) => Some(s@),
        None => None,
    }
}

/// Whether `c` is white space by Unicode's `White_Space` property, as
/// `char::is_whitespace` decides.
pub open spec fn is_white_space(c: char) -> bool {
    ('\t' <= c && c <= '\r') || c == ' ' || c == '\u{85}' || c == '\u{a0}' || c == '\u{1680}'
        || ('\u{2000}' <= c && c <= '\u{200a}') || c == '\u{2028}' || c == '\u{2029}' || c
        == '\u{202f}' || c == '\u{205f}' || c == '\u{3000}'
}

/// Whether `c` is white space.
pub fn white_space(c: char) -> (r: bool)
    ensures
        r == is_white_space(c),
{
    ('\t' <= c && c <= '\r') || c == ' ' || c == '\u{85}' || c == '\u{a0}' || c == '\u{1680}'
        || ('\u{2000}' <= c && c <= '\u{200a}') || c == '\u{2028}' || c == '\u{2029}' || c
        == '\u{202f}' || c == '\u{205f}' || c == '\u{3000}'
}

/// The number of white-space characters at the start of `s`.
pub open spec fn leading_ws(s: Seq<char>) -> nat
    decreases s.len(),
{
    if s.len() > 0 && is_white_space(s[0]) {
        1 + leading_ws(s.drop_first())
    } else {
        0
    }
}

/// The number of white-space characters at the end of `s`.
pub open spec fn trailing_ws(s: Seq<char>) -> nat
    decreases s.len(),
{
    if s.len() > 0 && is_white_space(s.last()) {
        1 + trailing_ws(s.drop_last())
    } else {
        0
    }
}

/// `s` without white space at either end, as `str::trim` gives it.
pub open spec fn trimmed(s: Seq<char>) -> Seq<char> {
    let t = s.skip(leading_ws(s) as int);
    t.take(t.len() - trailing_ws(t))
}

proof fn lemma_leading_ws(s: Seq<char>, k: int)
    requires
        0 <= k <= s.len(),
        forall|j: int| 0 <= j < k ==> is_white_space(s[j]),
        k < s.len() ==> !is_white_space(s[k]),
    ensures
        leading_ws(s) == k,
    decreases s.len(),
{
    if k > 0 {
        lemma_leading_ws(s.drop_first(), k - 1);
    }
}

proof fn lemma_trailing_ws(s: Seq<char>, k: int)
    requires
        0 <= k <= s.len(),
        forall|j: int| s.len() - k <= j < s.len() ==> is_white_space(s[j]),
        k < s.len() ==> !is_white_space(s[s.len() - k - 1]),
    ensures
        trailing_ws(s) == k,
    decreases s.len(),
{
    if k > 0 {
        lemma_trailing_ws(s.drop_last(), k - 1);
    }
}

pub proof fn lemma_trailing_ws_bound(s: Seq<char>)
    ensures
        trailing_ws(s) <= s.len(),
    decreases s.len(),
{
    if s.len() > 0 && is_white_space(s.last()) {
        lemma_trailing_ws_bound(s.drop_last());
    }
}

pub proof fn lemma_leading_ws_bound(s: Seq<char>)
    ensures
        leading_ws(s) <= s.len(),
    decreases s.len(),
{
    if s.len() > 0 && is_white_space(s[0]) {
        lemma_leading_ws_bound(s.drop_first());
    }
}

/// The characters of `v` from `from` up to `to`.
pub fn chars_between(v: &Vec<char>, from: usize, to: usize) -> (r: Vec<char>)
    requires
        from <= to <= v.len(),
    ensures
        r@ == v@.subrange(from as int, to as int),
{
    let mut r: Vec<char> = Vec::new();
    let mut j: usize = from;
    while j < to
        invariant
            from <= j <= to <= v.len(),
            r@ == v@.subrange(from as int, j as int),
        decreases to - j,
    {
        r.push(v[j]);
        j = j + 1;
        assert(r@ =~= v@.subrange(from as int, j as int));
    }
    r
}

/// `v` without white space at either end.
pub fn trim_chars(v: &Vec<char>) -> (r: Vec<char>)
    ensures
        r@ == trimmed(v@),
{
    let mut a: usize = 0;
    while a < v.len() && white_space(v[a])
        invariant
            0 <= a <= v.len(),
            forall|j: int| 0 <= j < a ==> is_white_space(v@[j]),
        decreases v.len() - a,
    {
        a = a + 1;
    }
    proof {
        lemma_leading_ws(v@, a as int);
    }
    let ghost t = v@.skip(a as int);
    let mut b: usize = v.len();
    while b > a && white_space(v[b - 1])
        invariant
            a <= b <= v.len(),
            t == v@.skip(a as int),
            forall|j: int| b <= j < v.len() ==> is_white_space(v@[j]),
        decreases b,
    {
        b = b - 1;
    }
    proof {
        let k = v.len() - b;
        assert forall|j: int| t.len() - k <= j < t.len() implies is_white_space(t[j]) by {
            assert(t[j] == v@[j + a]);
        }
        if k < t.len() {
            assert(t[t.len() - k - 1] == v@[b - 1]);
        }
        lemma_trailing_ws(t, k);
        assert(t.take(t.len() - k) =~= v@.subrange(a as int, b as int));
    }
    chars_between(v, a, b)
}

/// `s` without white space at either end.
pub fn trim_str(s: &str) -> (r: String)
    ensures
        r@ == trimmed(s@),
{
    string_of(&trim_chars(&chars_of(s)))
}

/// `s` split into lines as `str::lines` does: at each `\n`, with a `\r`
/// just before it removed too; a final empty line is not one.
pub open spec fn text_lines(s: Seq<char>) -> Seq<Seq<char>> {
    let pieces = split_on(s, '\n');
    let init = pieces.drop_last().map_values(|p: Seq<char>| without_cr(p));
    if pieces.last().len() == 0 {
        init
    } else {
        init.push(pieces.last())
    }
}

/// `p` without one trailing `\r`.
pub open spec fn without_cr(p: Seq<char>) -> Seq<char> {
    if p.len() > 0 && p.last() == '\r' {
        p.drop_last()
    } else {
        p
    }
}

/// The lines of `s`.
pub fn lines_of(s: &str) -> (r: Vec<Vec<char>>)
    ensures
        views(r@) == text_lines(s@),
{
    let v = chars_of(s);
    let pieces = split_chars(&v, '\n');
    proof {
        lemma_split_on_nonempty(s@, '\n');
    }
    let n = pieces.len();
    let mut r: Vec<Vec<char>> = Vec::new();
    let mut i: usize = 0;
    let ghost ps = views(pieces@);
    while i + 1 < n
        invariant
            n == pieces.len() >= 1,
            ps == views(pieces@),
            ps == split_on(s@, '\n'),
            0 <= i <= n - 1,
            views(r@) == ps.drop_last().take(i as int).map_values(|p: Seq<char>| without_cr(p)),
        decreases n - i,
    {
        let p = &pieces[i];
        let ghost before = views(r@);
        assert(ps[i as int] == p@);
        let q = if p.len() > 0 && p[p.len() - 1] == '\r' {
            chars_between(p, 0, p.len() - 1)
        } else {
            chars_between(p, 0, p.len())
        };
        assert(q@ =~= without_cr(p@));
        let ghost qv = q@;
        r.push(q);
        assert(views(r@) =~= before.push(qv));
        assert(ps.drop_last().take(i + 1) =~= ps.drop_last().take(i as int).push(ps[i as int]));
        i = i + 1;
        assert(views(r@) =~= ps.drop_last().take(i as int).map_values(
            |p: Seq<char>| without_cr(p),
        ));
    }
    assert(ps.drop_last().take(i as int) =~= ps.drop_last());
    let last = &pieces[n - 1];
    assert(ps.last() == last@);
    if last.len() > 0 {
        let ghost before = views(r@);
        let q = chars_between(last, 0, last.len());
        assert(q@ =~= last@);
        r.push(q);
        assert(views(r@) =~= before.push(last@));
    }
    r
}

/// Whether `pat` occurs in `s`.
pub open spec fn has_infix(s: Seq<char>, pat: Seq<char>) -> bool {
    exists|i: int| 0 <= i <= s.len() - pat.len() && #[trigger] s.subrange(i, i + pat.len()) == pat
}

/// Whether `pat` occurs in `s`.
pub fn contains_infix(s: &Vec<char>, pat: &Vec<char>) -> (r: bool)
    ensures
        r == has_infix(s@, pat@),
{
    if pat.len() > s.len() {
        return false;
    }
    let mut i: usize = 0;
    while i <= s.len() - pat.len()
        invariant
            pat.len() <= s.len(),
            0 <= i <= s.len() - pat.len() + 1,
            forall|j: int| 0 <= j < i ==> #[trigger] s@.subrange(j, j + pat.len()) != pat@,
        decreases s.len() - i,
    {
        let mut k: usize = 0;
        while k < pat.len() && s[i + k] == pat[k]
            invariant
                0 <= k <= pat.len(),
                i + pat.len() <= s.len(),
                forall|m: int| 0 <= m < k ==> s@[i + m] == pat@[m],
            decreases pat.len() - k,
        {
            k = k + 1;
        }
        if k == pat.len() {
            assert(s@.subrange(i as int, i + pat.len()) =~= pat@);
            return true;
        }
        assert(s@.subrange(i as int, i + pat.len())[k as int] != pat@[k as int]);
        i = i + 1;
    }
    false
}

/// Whether every character of `ds` is an ASCII digit.
pub open spec fn all_digits(ds: Seq<char>) -> bool {
    forall|i: int| 0 <= i < ds.len() ==> '0' <= #[trigger] ds[i] <= '9'
}

/// The number the decimal digits `ds` spell.
pub open spec fn decimal(ds: Seq<char>) -> int
    decreases ds.len(),
{
    if ds.len() == 0 {
        0
    } else {
        decimal(ds.drop_last()) * 10 + (ds.last() as int - '0' as int)
    }
}

/// What `str::parse::<usize>` gives for `s`: an optional `+`, then one or
/// more decimal digits whose value fits in a `usize`.
pub open spec fn parsed_usize(s: Seq<char>) -> Option<int> {
    let ds = if s.len() > 0 && s[0] == '+' {
        s.drop_first()
    } else {
        s
    };
    if ds.len() > 0 && all_digits(ds) && decimal(ds) <= usize::MAX {
        Some(decimal(ds))
    } else {
        None
    }
}

proof fn lemma_decimal_grows(ds: Seq<char>, k: int)
    requires
        0 <= k <= ds.len(),
        all_digits(ds),
    ensures
        0 <= decimal(ds.take(k)) <= decimal(ds),
    decreases ds.len() - k,
{
    if k < ds.len() {
        lemma_decimal_grows(ds, k + 1);
        assert(ds.take(k + 1).drop_last() =~= ds.take(k));
        assert(ds.take(k + 1).last() == ds[k]);
    } else {
        assert(ds.take(k) =~= ds);
    }
    lemma_decimal_nonneg(ds.take(k));
}

proof fn lemma_decimal_nonneg(ds: Seq<char>)
    requires
        all_digits(ds),
    ensures
        decimal(ds) >= 0,
    decreases ds.len(),
{
    if ds.len() > 0 {
        lemma_decimal_nonneg(ds.drop_last());
    }
}

/// `s` read as a decimal `usize`, as `str::parse::<usize>` reads it.
pub fn parse_usize(s: &str) -> (r: Option<usize>)
    ensures
        r is Some ==> parsed_usize(s@) == Some(r->0 as int),
        r is None ==> parsed_usize(s@) is None,
{
    let v = chars_of(s);
    let start: usize = if v.len() > 0 && v[0] == '+' { 1 } else { 0 };
    let ghost ds = if s@.len() > 0 && s@[0] == '+' { s@.drop_first() } else { s@ };
    assert(ds =~= v@.skip(start as int));
    if start >= v.len() {
        assert(ds.len() == 0);
        return None;
    }
    let mut value: usize = 0;
    let mut i: usize = start;
    while i < v.len()
        invariant
            start <= i <= v.len(),
            v@ == s@,
            ds == (if s@.len() > 0 && s@[0] == '+' { s@.drop_first() } else { s@ }),
            ds == v@.skip(start as int),
            all_digits(ds.take(i - start)),
            value as int == decimal(ds.take(i - start)),
        decreases v.len() - i,
    {
        let c = v[i];
        assert(ds[i - start] == c);
        assert(ds.take(i - start + 1).drop_last() =~= ds.take(i - start));
        assert(ds.take(i - start + 1).last() == c);
        if !('0' <= c && c <= '9') {
            assert(!all_digits(ds));
            return None;
        }
        let d = (c as u32 - '0' as u32) as usize;
        assert(d as int == c as int - '0' as int);
        if value > (usize::MAX - d) / 10 {
            proof {
                assert(all_digits(ds.take(i - start + 1)));
                assert(decimal(ds.take(i - start + 1)) == value * 10 + d);
                assert(value * 10 + d > usize::MAX) by (nonlinear_arith)
                    requires
                        value > (usize::MAX - d) / 10,
                        d <= 9,
                ;
                if all_digits(ds) {
                    lemma_decimal_grows(ds, i - start + 1);
                }
            }
            return None;
        }
        assert(value * 10 + d <= usize::MAX) by (nonlinear_arith)
            requires
                value <= (usize::MAX - d) / 10,
                d <= 9,
        ;
        value = value * 10 + d;
        i = i + 1;
        assert(all_digits(ds.take(i - start)));
    }
    assert(ds.take(v.len() - start) =~= ds);
    Some(value)
}

pub(crate) proof fn lemma_split_no_sep(s: Seq<char>, sep: char)
    requires
        !s.contains(sep),
    ensures
        split_on(s, sep) == seq![s],
    decreases s.len(),
{
    if s.len() > 0 {
        assert(!s.drop_last().contains(sep)) by {
            if s.drop_last().contains(sep) {
                let i = choose|i: int| 0 <= i < s.drop_last().len() && s.drop_last()[i] == sep;
                assert(s[i] == sep);
            }
        }
        lemma_split_no_sep(s.drop_last(), sep);
        assert(s.last() != sep) by {
            assert(s[s.len() - 1] == s.last());
        }
        assert(s.drop_last().push(s.last()) =~= s);
    } else {
        assert(s =~= Seq::<char>::empty());
    }
}

pub(crate) proof fn lemma_split_concat(a: Seq<char>, b: Seq<char>, sep: char)
    ensures
        split_on(a + seq![sep] + b, sep) == split_on(a, sep) + split_on(b, sep),
    decreases b.len(),
{
    if b.len() == 0 {
        assert(a + seq![sep] + b =~= a + seq![sep]);
        assert((a + seq![sep]).drop_last() =~= a);
        assert(split_on(a, sep) + split_on(b, sep) =~= split_on(a, sep).push(Seq::<char>::empty()));
    } else {
        let b2 = b.drop_last();
        let c = b.last();
        lemma_split_concat(a, b2, sep);
        lemma_split_on_nonempty(b2, sep);
        lemma_split_on_nonempty(a, sep);
        assert((a + seq![sep] + b).drop_last() =~= a + seq![sep] + b2);
        assert((a + seq![sep] + b).last() == c);
        let pa = split_on(a, sep);
        let pb = split_on(b2, sep);
        if c == sep {
            assert((pa + pb).push(Seq::<char>::empty()) =~= pa + pb.push(Seq::<char>::empty()));
        } else {
            let whole = pa + pb;
            assert(whole.last() == pb.last());
            assert(whole.update(whole.len() - 1, whole.last().push(c)) =~= pa + pb.update(
                pb.len() - 1,
                pb.last().push(c),
            ));
        }
    }
}

/// No piece of a split holds the separator.
pub(crate) proof fn lemma_split_pieces_free(s: Seq<char>, sep: char)
    ensures
        forall|i: int|
            0 <= i < split_on(s, sep).len() ==> !(#[trigger] split_on(s, sep)[i]).contains(sep),
    decreases s.len(),
{
    if s.len() > 0 {
        let pre = split_on(s.drop_last(), sep);
        lemma_split_pieces_free(s.drop_last(), sep);
        lemma_split_on_nonempty(s.drop_last(), sep);
        if s.last() != sep {
            let last = pre.last().push(s.last());
            assert(!pre[pre.len() - 1].contains(sep));
            assert(!last.contains(sep)) by {
                if last.contains(sep) {
                    let j = choose|j: int| 0 <= j < last.len() && last[j] == sep;
                    if j < pre.last().len() {
                        assert(pre.last()[j] == sep);
                    }
                }
            }
        } else {
            assert(!Seq::<char>::empty().contains(sep));
        }
    }
}

/// Splitting joined pieces at the separator gives the pieces back, when
/// no piece holds the separator.
pub proof fn lemma_split_join(xs: Seq<Seq<char>>, sep: char)
    requires
        xs.len() >= 1,
        forall|i: int| 0 <= i < xs.len() ==> !(#[trigger] xs[i]).contains(sep),
    ensures
        split_on(join_with(xs, sep), sep) == xs,
    decreases xs.len(),
{
    if xs.len() == 1 {
        lemma_split_no_sep(xs[0], sep);
        assert(seq![xs[0]] =~= xs);
    } else {
        let init = xs.drop_last();
        assert forall|i: int| 0 <= i < init.len() implies !(#[trigger] init[i]).contains(sep) by {
            assert(init[i] == xs[i]);
        }
        lemma_split_join(init, sep);
        lemma_split_concat(join_with(init, sep), xs.last(), sep);
        assert(!xs[xs.len() - 1].contains(sep));
        lemma_split_no_sep(xs.last(), sep);
        assert(init + seq![xs.last()] =~= xs);
    }
}

proof fn lemma_nonempty_all(xs: Seq<Seq<char>>)
    requires
        forall|i: int| 0 <= i < xs.len() ==> (#[trigger] xs[i]).len() > 0,
    ensures
        nonempty(xs) == xs,
    decreases xs.len(),
{
    if xs.len() > 0 {
        lemma_nonempty_all(xs.drop_last());
        assert(xs.drop_last().push(xs.last()) =~= xs);
    }
}

/// The non-empty pieces of entries joined with a separator are the
/// entries, when each is non-empty and free of the separator.
pub proof fn lemma_pieces_of_joined(xs: Seq<Seq<char>>, sep: char)
    requires
        forall|i: int| 0 <= i < xs.len() ==> (#[trigger] xs[i]).len() > 0 && !xs[i].contains(sep),
    ensures
        nonempty(split_on(join_with(xs, sep), sep)) == xs,
{
    if xs.len() == 0 {
        assert(split_on(join_with(xs, sep), sep) =~= seq![Seq::<char>::empty()]);
        let one = seq![Seq::<char>::empty()];
        assert(one.drop_last() =~= Seq::<Seq<char>>::empty());
        assert(nonempty(one.drop_last()) == Seq::<Seq<char>>::empty());
        assert(one.last().len() == 0);
        assert(nonempty(one) == Seq::<Seq<char>>::empty());
    } else {
        lemma_split_join(xs, sep);
        lemma_nonempty_all(xs);
    }
}

/// Splitting a definition written `name=value` (or `name`) at its first
/// `=` gives the name and the value back, when the name holds no `=`.
pub proof fn lemma_split_define_text(name: Seq<char>, value: Option<Seq<char>>)
    requires
        !name.contains('='),
    ensures
        split_define(match value {
            Some(v) => name + seq!['='] + v,
            None => name,
        }) == (name, value),
{
    let d = match value {
        Some(v) => name + seq!['='] + v,
        None => name,
    };
    let k = name.len() as int;
    assert forall|j: int| 0 <= j < k implies d[j] != '=' by {
        assert(d[j] == name[j]);
    }
    lemma_split_define_at(d, k);
    assert(d.take(k) =~= name);
    if let Some(v) = value {
        assert(d.skip(k + 1) =~= v);
    }
}

} // verus!
