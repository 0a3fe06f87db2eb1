//! Unix path syntax, modelled on character sequences.
//!
//! A path is a string; `/` separates its pieces. The component structure
//! follows `std::path::Path::components` on Unix: a leading `/` is the root,
//! a leading `.` piece is the current directory, `..` is the parent
//! directory, and empty or `.` pieces elsewhere are skipped.
use vstd::prelude::*;
use crate::text::{
    chars_of, join_with, lemma_split_concat, lemma_split_join, lemma_split_pieces_free,
    push_chars, split_chars, split_on, views,
};
use crate::trusted::push_char;

verus! {

/// The root component, written as a lone separator.
pub open spec fn root_comp() -> Seq<char> {
    seq!['/']
}

/// The current-directory component.
pub open spec fn cur_comp() -> Seq<char> {
    seq!['.']
}

/// The parent-directory component.
pub open spec fn parent_comp() -> Seq<char> {
    seq!['.', '.']
}

/// The pieces of `s` between separators.
pub open spec fn segments(s: Seq<char>) -> Seq<Seq<char>> {
    split_on(s, '/')
}

/// Whether `s` starts at the root.
pub open spec fn is_absolute(s: Seq<char>) -> bool {
    s.len() > 0 && s[0] == '/'
}

/// Whether a piece names nothing (empty, or `.`).
pub open spec fn is_skipped_piece(g: Seq<char>) -> bool {
    g.len() == 0 || g == cur_comp()
}

/// The pieces that become components: all but the empty and `.` ones.
pub open spec fn named_pieces(segs: Seq<Seq<char>>) -> Seq<Seq<char>>
    decreases segs.len(),
{
    if segs.len() == 0 {
        segs
    } else {
        let r = named_pieces(segs.drop_last());
        if is_skipped_piece(segs.last()) {
            r
        } else {
            r.push(segs.last())
        }
    }
}

/// Whether `s` begins with a `.` piece (`.` alone or `./...`).
pub open spec fn starts_at_cur_dir(s: Seq<char>) -> bool {
    s == cur_comp() || (s.len() >= 2 && s[0] == '.' && s[1] == '/')
}

/// The components of `s`: the root written `/`, the current directory `.`,
/// the parent directory `..`, or a normal name.
#[verifier::opaque]
pub open spec fn components(s: Seq<char>) -> Seq<Seq<char>> {
    let lead = if is_absolute(s) {
        seq![root_comp()]
    } else if starts_at_cur_dir(s) {
        seq![cur_comp()]
    } else {
        Seq::<Seq<char>>::empty()
    };
    lead + named_pieces(segments(s))
}

/// Whether a component is a normal name.
pub open spec fn is_normal(c: Seq<char>) -> bool {
    c != root_comp() && c != cur_comp() && c != parent_comp()
}

/// The normal names among `comps`, in order.
pub open spec fn normal_names(comps: Seq<Seq<char>>) -> Seq<Seq<char>>
    decreases comps.len(),
{
    if comps.len() == 0 {
        comps
    } else {
        let r = normal_names(comps.drop_last());
        if is_normal(comps.last()) {
            r.push(comps.last())
        } else {
            r
        }
    }
}

/// `names` joined by separators.
pub open spec fn join_names(names: Seq<Seq<char>>) -> Seq<char> {
    join_with(names, '/')
}

/// The path text of the names `names`, from the root when `rooted`.
pub open spec fn render(rooted: bool, names: Seq<Seq<char>>) -> Seq<char> {
    (if rooted { seq!['/'] } else { Seq::<char>::empty() }) + join_names(names)
}

/// `p` appended to `base` as `Path::join` does: an absolute `p` replaces
/// `base`, and a separator goes between them where `base` lacks one.
pub open spec fn path_join(base: Seq<char>, p: Seq<char>) -> Seq<char> {
    if is_absolute(p) || base.len() == 0 {
        p
    } else if base.last() == '/' {
        base + p
    } else {
        base + seq!['/'] + p
    }
}

/// One step of lexical normalization: empty and `.` pieces are skipped,
/// `..` drops the last name kept so far (if any), other names are kept.
pub open spec fn lex_step(names: Seq<Seq<char>>, piece: Seq<char>) -> Seq<Seq<char>> {
    if is_skipped_piece(piece) {
        names
    } else if piece == parent_comp() {
        if names.len() > 0 {
            names.drop_last()
        } else {
            names
        }
    } else {
        names.push(piece)
    }
}

/// The names that lexical normalization keeps from the pieces `segs`.
pub open spec fn lex_fold(segs: Seq<Seq<char>>) -> Seq<Seq<char>>
    decreases segs.len(),
{
    if segs.len() == 0 {
        Seq::<Seq<char>>::empty()
    } else {
        lex_step(lex_fold(segs.drop_last()), segs.last())
    }
}

/// `s` normalized lexically.
pub open spec fn lexical_normal(s: Seq<char>) -> Seq<char> {
    render(is_absolute(s), lex_fold(segments(s)))
}

/// `relative` joined to `base`, then normalized lexically.
pub open spec fn joined_lexically(base: Seq<char>, relative: Seq<char>) -> Seq<char> {
    lexical_normal(path_join(base, relative))
}

/// The pieces of `s` between separators.
pub fn segments_of(s: &Vec<char>) -> (r: Vec<Vec<char>>)
    ensures
        views(r@) == segments(s@),
{
    split_chars(s, '/')
}

/// A copy of `v`.
pub fn copy_chars(v: &Vec<char>) -> (r: Vec<char>)
    ensures
        r@ == v@,
{
    let mut r: Vec<char> = Vec::new();
    let mut i: usize = 0;
    while i < v.len()
        invariant
            0 <= i <= v.len(),
            r@ == v@.take(i as int),
        decreases v.len() - i,
    {
        r.push(v[i]);
        i = i + 1;
        assert(r@ =~= v@.take(i as int));
    }
    assert(v@.take(v.len() as int) =~= v@);
    r
}

/// Whether `v` starts at the root.
pub fn chars_absolute(v: &Vec<char>) -> (r: bool)
    ensures
        r == is_absolute(v@),
{
    v.len() > 0 && v[0] == '/'
}

/// Whether `v` is the piece `.`.
fn is_cur_piece(v: &Vec<char>) -> (r: bool)
    ensures
        r == (v@ == cur_comp()),
{
    let r = v.len() == 1 && v[0] == '.';
    assert(r ==> v@ =~= cur_comp());
    r
}

/// Whether `v` is the piece `..`.
fn is_parent_piece(v: &Vec<char>) -> (r: bool)
    ensures
        r == (v@ == parent_comp()),
{
    let r = v.len() == 2 && v[0] == '.' && v[1] == '.';
    assert(r ==> v@ =~= parent_comp());
    r
}

/// Whether `v` is the component `/`.
fn is_root_piece(v: &Vec<char>) -> (r: bool)
    ensures
        r == (v@ == root_comp()),
{
    let r = v.len() == 1 && v[0] == '/';
    assert(r ==> v@ =~= root_comp());
    r
}

/// `p` appended to `base` as `Path::join` does.
pub fn join_chars(base: &Vec<char>, p: &Vec<char>) -> (r: Vec<char>)
    ensures
        r@ == path_join(base@, p@),
{
    if chars_absolute(p) || base.len() == 0 {
        return copy_chars(p);
    }
    let mut r = copy_chars(base);
    if base[base.len() - 1] != '/' {
        r.push('/');
    }
    let mut i: usize = 0;
    let ghost start = r@;
    while i < p.len()
        invariant
            0 <= i <= p.len(),
            r@ == start + p@.take(i as int),
        decreases p.len() - i,
    {
        r.push(p[i]);
        i = i + 1;
        assert(r@ =~= start + p@.take(i as int));
    }
    assert(p@.take(p.len() as int) =~= p@);
    assert(base@.last() == base@[base.len() - 1]);
    r
}

/// The names that lexical normalization keeps from the pieces `segs`.
pub fn lex_names(segs: &Vec<Vec<char>>) -> (r: Vec<Vec<char>>)
    ensures
        views(r@) == lex_fold(views(segs@)),
{
    let mut acc: Vec<Vec<char>> = Vec::new();
    let mut i: usize = 0;
    assert(views(segs@).take(0) =~= Seq::<Seq<char>>::empty());
    while i < segs.len()
        invariant
            0 <= i <= segs.len(),
            views(acc@) == lex_fold(views(segs@).take(i as int)),
        decreases segs.len() - i,
    {
        let piece = &segs[i];
        let ghost before = views(acc@);
        assert(views(segs@).take(i + 1).drop_last() =~= views(segs@).take(i as int));
        assert(views(segs@).take(i + 1).last() == piece@);
        if piece.len() == 0 || is_cur_piece(piece) {
        } else if is_parent_piece(piece) {
            if acc.len() > 0 {
                acc.pop();
                assert(views(acc@) =~= before.drop_last());
            }
        } else {
            acc.push(copy_chars(piece));
            assert(views(acc@) =~= before.push(piece@));
        }
        i = i + 1;
    }
    assert(views(segs@).take(segs.len() as int) =~= views(segs@));
    acc
}

/// The path text of `names`, from the root when `rooted`.
pub fn render_path(rooted: bool, names: &Vec<Vec<char>>) -> (s: String)
    ensures
        s@ == render(rooted, views(names@)),
{
    let mut s = String::new();
    if rooted {
        push_char(&mut s, '/');
    }
    let ghost start = s@;
    let mut i: usize = 0;
    assert(views(names@).take(0) =~= Seq::<Seq<char>>::empty());
    while i < names.len()
        invariant
            0 <= i <= names.len(),
            s@ == start + join_names(views(names@).take(i as int)),
            start == (if rooted { seq!['/'] } else { Seq::<char>::empty() }),
        decreases names.len() - i,
    {
        let ghost t = views(names@).take(i + 1);
        assert(t.drop_last() =~= views(names@).take(i as int));
        if i > 0 {
            push_char(&mut s, '/');
        }
        push_chars(&mut s, &names[i]);
        i = i + 1;
        assert(s@ =~= start + join_names(views(names@).take(i as int)));
    }
    assert(views(names@).take(names.len() as int) =~= views(names@));
    s
}

/// `relative` joined to `base`, with `.` pieces dropped and each `..`
/// taking away the name before it; a `..` with nothing before it is
/// dropped too. Purely lexical: nothing is read from the file system. The
/// result is in normal form: it has no `.` or `..` component, and joining
/// `.` to it, or it to an empty base, gives it back.
pub fn join_paths_lexically(base: &str, relative: &str) -> (r: String)
    ensures
        r@ == joined_lexically(base@, relative@),
        forall|i: int|
            0 <= i < components(r@).len() ==> {
                let c = #[trigger] components(r@)[i];
                c != cur_comp() && c != parent_comp()
            },
        joined_lexically(r@, cur_comp()) == r@,
        joined_lexically(Seq::<char>::empty(), r@) == r@,
{
    proof {
        lemma_lexical_normal_form(path_join(base@, relative@));
    }
    let b = chars_of(base);
    let p = chars_of(relative);
    let joined = join_chars(&b, &p);
    let segs = segments_of(&joined);
    let names = lex_names(&segs);
    render_path(chars_absolute(&joined), &names)
}

/// The pieces among `segs` that become components.
fn named_pieces_of(segs: &Vec<Vec<char>>) -> (r: Vec<Vec<char>>)
    ensures
        views(r@) == named_pieces(views(segs@)),
{
    let mut acc: Vec<Vec<char>> = Vec::new();
    let mut i: usize = 0;
    assert(views(segs@).take(0) =~= Seq::<Seq<char>>::empty());
    while i < segs.len()
        invariant
            0 <= i <= segs.len(),
            views(acc@) == named_pieces(views(segs@).take(i as int)),
        decreases segs.len() - i,
    {
        let piece = &segs[i];
        let ghost before = views(acc@);
        assert(views(segs@).take(i + 1).drop_last() =~= views(segs@).take(i as int));
        assert(views(segs@).take(i + 1).last() == piece@);
        if !(piece.len() == 0 || is_cur_piece(piece)) {
            acc.push(copy_chars(piece));
            assert(views(acc@) =~= before.push(piece@));
        }
        i = i + 1;
    }
    assert(views(segs@).take(segs.len() as int) =~= views(segs@));
    acc
}

/// The components of the path `s`.
pub fn components_of(s: &Vec<char>) -> (r: Vec<Vec<char>>)
    ensures
        views(r@) == components(s@),
{
    let segs = segments_of(s);
    let named = named_pieces_of(&segs);
    let mut r: Vec<Vec<char>> = Vec::new();
    if chars_absolute(s) {
        let mut c: Vec<char> = Vec::new();
        c.push('/');
        assert(c@ =~= root_comp());
        r.push(c);
        assert(views(r@) =~= seq![root_comp()]);
    } else if (s.len() == 1 && s[0] == '.') || (s.len() >= 2 && s[0] == '.' && s[1] == '/') {
        assert(s.len() == 1 ==> s@ =~= cur_comp());
        let mut c: Vec<char> = Vec::new();
        c.push('.');
        assert(c@ =~= cur_comp());
        r.push(c);
        assert(views(r@) =~= seq![cur_comp()]);
    } else {
        assert(s@ != cur_comp());
    }
    let ghost lead = views(r@);
    assert(lead =~= (if is_absolute(s@) {
        seq![root_comp()]
    } else if starts_at_cur_dir(s@) {
        seq![cur_comp()]
    } else {
        Seq::<Seq<char>>::empty()
    }));
    let mut i: usize = 0;
    while i < named.len()
        invariant
            0 <= i <= named.len(),
            views(r@) == lead + views(named@).take(i as int),
        decreases named.len() - i,
    {
        let ghost before = views(r@);
        let x = copy_chars(&named[i]);
        assert(views(named@)[i as int] == x@);
        r.push(x);
        assert(views(r@) =~= before.push(x@));
        i = i + 1;
        assert(views(r@) =~= lead + views(named@).take(i as int));
    }
    assert(views(named@).take(named.len() as int) =~= views(named@));
    reveal(components);
    assert(views(r@) =~= components(s@));
    r
}

/// Whether a source at `p` lies outside the crate: `p` is absolute, or its
/// first component is `..`.
pub open spec fn is_external(p: Seq<char>) -> bool {
    is_absolute(p) || (components(p).len() > 0 && components(p)[0] == parent_comp())
}

/// Whether a source at `path` lies outside the crate: an absolute path, or
/// one whose first component is `..`.
pub fn is_external_source_path(path: &str) -> (r: bool)
    ensures
        r == is_external(path@),
{
    let v = chars_of(path);
    if chars_absolute(&v) {
        return true;
    }
    let comps = components_of(&v);
    comps.len() > 0 && is_parent_piece(&comps[0])
}

/// The directory under which objects of sources outside the crate go.
pub open spec fn external_dir() -> Seq<char> {
    seq!['_', '_', 'e', 'x', 't', 'e', 'r', 'n', 'a', 'l']
}

/// The place, below the output directory, of the object of a source outside
/// the crate: `__external` followed by the source's normal names.
pub open spec fn external_subpath(s: Seq<char>) -> Seq<char> {
    join_names(seq![external_dir()] + normal_names(components(s)))
}

/// The normal names among `comps`.
fn normal_names_of(comps: &Vec<Vec<char>>) -> (r: Vec<Vec<char>>)
    ensures
        views(r@) == normal_names(views(comps@)),
{
    let mut acc: Vec<Vec<char>> = Vec::new();
    let mut i: usize = 0;
    assert(views(comps@).take(0) =~= Seq::<Seq<char>>::empty());
    while i < comps.len()
        invariant
            0 <= i <= comps.len(),
            views(acc@) == normal_names(views(comps@).take(i as int)),
        decreases comps.len() - i,
    {
        let c = &comps[i];
        let ghost before = views(acc@);
        assert(views(comps@).take(i + 1).drop_last() =~= views(comps@).take(i as int));
        assert(views(comps@).take(i + 1).last() == c@);
        if !(is_root_piece(c) || is_cur_piece(c) || is_parent_piece(c)) {
            acc.push(copy_chars(c));
            assert(views(acc@) =~= before.push(c@));
        }
        i = i + 1;
    }
    assert(views(comps@).take(comps.len() as int) =~= views(comps@));
    acc
}

/// Where the object of the outside source `src_path` goes, relative to the
/// output directory.
pub fn external_object_subpath(src_path: &str) -> (r: String)
    ensures
        r@ == external_subpath(src_path@),
{
    let v = chars_of(src_path);
    let comps = components_of(&v);
    let normals = normal_names_of(&comps);
    let mut names: Vec<Vec<char>> = Vec::new();
    let dir = chars_of("__external");
    proof {
        reveal_strlit("__external");
    }
    assert(dir@ =~= external_dir());
    names.push(dir);
    let ghost lead = views(names@);
    let mut i: usize = 0;
    while i < normals.len()
        invariant
            0 <= i <= normals.len(),
            lead == seq![external_dir()],
            views(names@) == lead + views(normals@).take(i as int),
        decreases normals.len() - i,
    {
        let ghost before = views(names@);
        let x = copy_chars(&normals[i]);
        assert(views(normals@)[i as int] == x@);
        names.push(x);
        assert(views(names@) =~= before.push(x@));
        i = i + 1;
        assert(views(names@) =~= lead + views(normals@).take(i as int));
    }
    assert(views(normals@).take(normals.len() as int) =~= views(normals@));
    render_path(false, &names)
}

// -------------------------------------------------------------------- laws

/// A name that a normalized path is made of: not empty, not `.` or `..`,
/// and free of separators.
pub open spec fn is_plain_name(n: Seq<char>) -> bool {
    n.len() > 0 && n != cur_comp() && n != parent_comp() && !n.contains('/')
}

/// Each name kept by lexical normalization is one of the pieces, and none
/// is empty, `.` or `..`.
proof fn lemma_lex_fold_names(segs: Seq<Seq<char>>)
    ensures
        forall|i: int|
            0 <= i < lex_fold(segs).len() ==> {
                let n = #[trigger] lex_fold(segs)[i];
                &&& n.len() > 0
                &&& n != cur_comp()
                &&& n != parent_comp()
                &&& segs.contains(n)
            },
    decreases segs.len(),
{
    if segs.len() > 0 {
        let init = segs.drop_last();
        lemma_lex_fold_names(init);
        let pre = lex_fold(init);
        let r = lex_fold(segs);
        assert forall|i: int| 0 <= i < r.len() implies {
            let n = #[trigger] r[i];
            &&& n.len() > 0
            &&& n != cur_comp()
            &&& n != parent_comp()
            &&& segs.contains(n)
        } by {
            if i < pre.len() {
                assert(r[i] == pre[i]);
                let n = pre[i];
                assert(init.contains(n));
                let j = choose|j: int| 0 <= j < init.len() && init[j] == n;
                assert(segs[j] == n);
            } else {
                assert(r[i] == segs.last());
                assert(segs[segs.len() - 1] == segs.last());
            }
        }
    }
}

/// Normalizing names that are already plain keeps them all.
proof fn lemma_lex_fold_plain(xs: Seq<Seq<char>>)
    requires
        forall|i: int| 0 <= i < xs.len() ==> is_plain_name(#[trigger] xs[i]),
    ensures
        lex_fold(xs) == xs,
    decreases xs.len(),
{
    if xs.len() > 0 {
        lemma_lex_fold_plain(xs.drop_last());
        assert(is_plain_name(xs[xs.len() - 1]));
        assert(xs.drop_last().push(xs.last()) =~= xs);
    }
}

/// A leading empty piece (from a leading separator) is skipped.
proof fn lemma_lex_fold_leading_empty(xs: Seq<Seq<char>>)
    ensures
        lex_fold(seq![Seq::<char>::empty()] + xs) == lex_fold(xs),
    decreases xs.len(),
{
    let e = Seq::<char>::empty();
    let whole = seq![e] + xs;
    if xs.len() == 0 {
        assert(whole.drop_last() =~= Seq::<Seq<char>>::empty());
        assert(whole.last() == e);
        assert(lex_fold(whole) == lex_step(lex_fold(whole.drop_last()), whole.last()));
        assert(is_skipped_piece(e));
    } else {
        lemma_lex_fold_leading_empty(xs.drop_last());
        assert(whole.drop_last() =~= seq![e] + xs.drop_last());
        assert(whole.last() == xs.last());
        assert(lex_fold(whole) == lex_step(lex_fold(whole.drop_last()), whole.last()));
    }
}

/// Joined names start with the first character of the first name.
proof fn lemma_join_starts(xs: Seq<Seq<char>>, sep: char)
    requires
        xs.len() > 0,
        xs[0].len() > 0,
    ensures
        join_with(xs, sep).len() > 0,
        join_with(xs, sep)[0] == xs[0][0],
    decreases xs.len(),
{
    if xs.len() > 1 {
        lemma_join_starts(xs.drop_last(), sep);
    }
}

/// The text of plain names reads back as the same names, from the root
/// exactly when it was written from the root.
proof fn lemma_render_reads_back(rooted: bool, names: Seq<Seq<char>>)
    requires
        forall|i: int| 0 <= i < names.len() ==> is_plain_name(#[trigger] names[i]),
    ensures
        is_absolute(render(rooted, names)) == rooted,
        lex_fold(segments(render(rooted, names))) == names,
        segments(render(rooted, names)) == (if rooted {
            seq![Seq::<char>::empty()]
        } else {
            Seq::<Seq<char>>::empty()
        }) + (if names.len() == 0 {
            seq![Seq::<char>::empty()]
        } else {
            names
        }),
{
    let e = Seq::<char>::empty();
    let j = join_names(names);
    lemma_lex_fold_plain(names);
    if names.len() == 0 {
        assert(j =~= e);
        assert(split_on(e, '/') == seq![e]);
        lemma_lex_fold_leading_empty(Seq::<Seq<char>>::empty());
        assert(seq![e] =~= seq![e] + Seq::<Seq<char>>::empty());
        if rooted {
            assert(render(rooted, names) =~= e + seq!['/'] + e);
            lemma_split_concat(e, e, '/');
            assert(split_on(e, '/') + split_on(e, '/') =~= seq![e] + seq![e]);
            lemma_lex_fold_leading_empty(seq![e]);
        } else {
            assert(render(rooted, names) =~= e);
            assert(Seq::<Seq<char>>::empty() + seq![e] =~= seq![e]);
        }
    } else {
        lemma_split_join(names, '/');
        lemma_join_starts(names, '/');
        assert(is_plain_name(names[0]));
        if rooted {
            assert(render(rooted, names) =~= e + seq!['/'] + j);
            lemma_split_concat(e, j, '/');
            lemma_lex_fold_leading_empty(names);
        } else {
            assert(render(rooted, names) =~= j);
            assert(Seq::<Seq<char>>::empty() + names =~= names);
            if j[0] == '/' {
                assert(names[0].contains('/'));
            }
        }
    }
}

/// Joined names begin with the whole first name and end with the last
/// character of the last name.
proof fn lemma_join_ends(xs: Seq<Seq<char>>, sep: char)
    requires
        xs.len() > 0,
    ensures
        join_with(xs, sep).len() >= xs[0].len(),
        forall|i: int| 0 <= i < xs[0].len() ==> join_with(xs, sep)[i] == #[trigger] xs[0][i],
        xs.last().len() > 0 ==> join_with(xs, sep).len() > 0 && join_with(xs, sep).last()
            == xs.last().last(),
    decreases xs.len(),
{
    if xs.len() > 1 {
        let init = xs.drop_last();
        lemma_join_ends(init, sep);
        assert(init[0] == xs[0]);
        let j = join_with(init, sep) + seq![sep] + xs.last();
        assert forall|i: int| 0 <= i < xs[0].len() implies join_with(xs, sep)[i] == #[trigger] xs[0][i] by {
            assert(j[i] == join_with(init, sep)[i]);
        }
    }
}

/// Pieces that are plain all become components.
proof fn lemma_named_pieces_plain(xs: Seq<Seq<char>>)
    requires
        forall|i: int| 0 <= i < xs.len() ==> is_plain_name(#[trigger] xs[i]),
    ensures
        named_pieces(xs) == xs,
    decreases xs.len(),
{
    if xs.len() > 0 {
        lemma_named_pieces_plain(xs.drop_last());
        assert(is_plain_name(xs[xs.len() - 1]));
        assert(xs.drop_last().push(xs.last()) =~= xs);
    }
}

/// A leading empty piece becomes no component.
proof fn lemma_named_pieces_leading_empty(xs: Seq<Seq<char>>)
    ensures
        named_pieces(seq![Seq::<char>::empty()] + xs) == named_pieces(xs),
    decreases xs.len(),
{
    let e = Seq::<char>::empty();
    let whole = seq![e] + xs;
    if xs.len() == 0 {
        assert(whole.drop_last() =~= Seq::<Seq<char>>::empty());
        assert(whole.last() == e);
        assert(is_skipped_piece(e));
        assert(named_pieces(whole) == named_pieces(whole.drop_last()));
    } else {
        lemma_named_pieces_leading_empty(xs.drop_last());
        assert(whole.drop_last() =~= seq![e] + xs.drop_last());
        assert(whole.last() == xs.last());
        assert(named_pieces(whole) == (if is_skipped_piece(whole.last()) {
            named_pieces(whole.drop_last())
        } else {
            named_pieces(whole.drop_last()).push(whole.last())
        }));
    }
}

/// The pieces of a path are free of separators.
proof fn lemma_segments_free(s: Seq<char>)
    ensures
        forall|i: int| 0 <= i < segments(s).len() ==> !(#[trigger] segments(s)[i]).contains('/'),
{
    lemma_split_pieces_free(s, '/');
}

/// Lexical normalization leaves only names: what it returns is absolute
/// exactly when the path was, and the names after the root are none of
/// them empty, `.` or `..`, nor hold a separator. So repeated and trailing
/// separators, `.` and `..` are all gone.
pub proof fn lemma_lexical_normal_names(s: Seq<char>)
    ensures
        is_absolute(lexical_normal(s)) == is_absolute(s),
        lex_fold(segments(lexical_normal(s))) == lex_fold(segments(s)),
        forall|i: int|
            0 <= i < lex_fold(segments(s)).len() ==> is_plain_name(
                #[trigger] lex_fold(segments(s))[i],
            ),
{
    let segs = segments(s);
    let names = lex_fold(segs);
    lemma_lex_fold_names(segs);
    lemma_segments_free(s);
    assert forall|i: int| 0 <= i < names.len() implies is_plain_name(#[trigger] names[i]) by {
        let n = names[i];
        let j = choose|j: int| 0 <= j < segs.len() && segs[j] == n;
        assert(!segs[j].contains('/'));
    }
    lemma_render_reads_back(is_absolute(s), names);
}

/// Normalizing a normalized path changes nothing.
pub proof fn lemma_lexical_normal_idempotent(s: Seq<char>)
    ensures
        lexical_normal(lexical_normal(s)) == lexical_normal(s),
{
    lemma_lexical_normal_names(s);
}

/// The path that joining and normalizing gives is already normal.
pub proof fn lemma_joined_lexically_normal(base: Seq<char>, relative: Seq<char>)
    ensures
        lexical_normal(joined_lexically(base, relative)) == joined_lexically(base, relative),
        is_absolute(relative) ==> joined_lexically(base, relative) == lexical_normal(relative),
{
    lemma_lexical_normal_idempotent(path_join(base, relative));
}

/// Each piece that becomes a component is one of the pieces, and neither
/// empty nor `.`.
proof fn lemma_named_pieces_from(segs: Seq<Seq<char>>)
    ensures
        forall|i: int|
            0 <= i < named_pieces(segs).len() ==> {
                let n = #[trigger] named_pieces(segs)[i];
                &&& !is_skipped_piece(n)
                &&& segs.contains(n)
            },
    decreases segs.len(),
{
    if segs.len() > 0 {
        let init = segs.drop_last();
        lemma_named_pieces_from(init);
        let pre = named_pieces(init);
        let r = named_pieces(segs);
        assert forall|i: int| 0 <= i < r.len() implies {
            let n = #[trigger] r[i];
            &&& !is_skipped_piece(n)
            &&& segs.contains(n)
        } by {
            if i < pre.len() {
                assert(r[i] == pre[i]);
                let n = pre[i];
                let j = choose|j: int| 0 <= j < init.len() && init[j] == n;
                assert(segs[j] == n);
            } else {
                assert(r[i] == segs.last());
                assert(segs[segs.len() - 1] == segs.last());
            }
        }
    }
}

/// Each normal name kept is one of the components, and normal.
proof fn lemma_normal_names_from(comps: Seq<Seq<char>>)
    ensures
        forall|i: int|
            0 <= i < normal_names(comps).len() ==> {
                let n = #[trigger] normal_names(comps)[i];
                &&& is_normal(n)
                &&& comps.contains(n)
            },
    decreases comps.len(),
{
    if comps.len() > 0 {
        let init = comps.drop_last();
        lemma_normal_names_from(init);
        let pre = normal_names(init);
        let r = normal_names(comps);
        assert forall|i: int| 0 <= i < r.len() implies {
            let n = #[trigger] r[i];
            &&& is_normal(n)
            &&& comps.contains(n)
        } by {
            if i < pre.len() {
                assert(r[i] == pre[i]);
                let n = pre[i];
                let j = choose|j: int| 0 <= j < init.len() && init[j] == n;
                assert(comps[j] == n);
            } else {
                assert(r[i] == comps.last());
                assert(comps[comps.len() - 1] == comps.last());
            }
        }
    }
}

/// The object of a source outside the crate stays below `__external`: its
/// place is a relative path whose pieces are `__external` followed by the
/// source's normal names, none of them empty, `.` or `..`, so it cannot
/// lead out of the output directory.
pub proof fn lemma_external_subpath_below(s: Seq<char>)
    ensures
        !is_absolute(external_subpath(s)),
        segments(external_subpath(s)) == seq![external_dir()] + normal_names(components(s)),
        forall|i: int|
            0 <= i < segments(external_subpath(s)).len() ==> is_plain_name(
                #[trigger] segments(external_subpath(s))[i],
            ),
{
    reveal(components);
    let segs = segments(s);
    let lead = if is_absolute(s) {
        seq![root_comp()]
    } else if starts_at_cur_dir(s) {
        seq![cur_comp()]
    } else {
        Seq::<Seq<char>>::empty()
    };
    let named = named_pieces(segs);
    let comps = components(s);
    assert(comps == lead + named);
    let nn = normal_names(comps);
    let names = seq![external_dir()] + nn;
    lemma_named_pieces_from(segs);
    lemma_normal_names_from(comps);
    lemma_segments_free(s);
    assert forall|i: int| 0 <= i < names.len() implies is_plain_name(#[trigger] names[i]) by {
        if i == 0 {
            let d = external_dir();
            assert(d.len() == 10);
            assert(d != cur_comp() && d != parent_comp());
            assert(!d.contains('/')) by {
                if d.contains('/') {
                    let j = choose|j: int| 0 <= j < d.len() && d[j] == '/';
                }
            }
        } else {
            let n = nn[i - 1];
            assert(names[i] == n);
            assert(is_normal(n));
            let k = choose|k: int| 0 <= k < comps.len() && comps[k] == n;
            if k < lead.len() {
                assert(lead[k] == n);
            } else {
                assert(named[k - lead.len()] == n);
                assert(!is_skipped_piece(n));
                let j = choose|j: int| 0 <= j < segs.len() && segs[j] == n;
                assert(!segs[j].contains('/'));
            }
        }
    }
    lemma_split_join(names, '/');
    lemma_join_starts(names, '/');
}

/// A lexically normalized path is in normal form: none of its components
/// is `.` or `..`, joining `.` to it gives it back, and joining it to an
/// empty base gives it back.
pub proof fn lemma_lexical_normal_form(s: Seq<char>)
    ensures
        forall|i: int|
            0 <= i < components(lexical_normal(s)).len() ==> {
                let c = #[trigger] components(lexical_normal(s))[i];
                c != cur_comp() && c != parent_comp()
            },
        joined_lexically(lexical_normal(s), cur_comp()) == lexical_normal(s),
        joined_lexically(Seq::<char>::empty(), lexical_normal(s)) == lexical_normal(s),
{
    let e = Seq::<char>::empty();
    let rooted = is_absolute(s);
    let names = lex_fold(segments(s));
    let t = lexical_normal(s);
    lemma_lexical_normal_names(s);
    lemma_lexical_normal_idempotent(s);
    lemma_render_reads_back(rooted, names);
    assert(t == render(rooted, names));
    // the components of `t`
    reveal(components);
    lemma_named_pieces_plain(names);
    let segs = segments(t);
    if rooted {
        if names.len() == 0 {
            assert(segs == seq![e] + seq![e]);
            lemma_named_pieces_leading_empty(seq![e]);
            lemma_named_pieces_leading_empty(Seq::<Seq<char>>::empty());
            assert(seq![e] =~= seq![e] + Seq::<Seq<char>>::empty());
        } else {
            lemma_named_pieces_leading_empty(names);
        }
        assert(components(t) == seq![root_comp()] + names);
    } else {
        if names.len() == 0 {
            assert(t =~= e);
            assert(segs == seq![e]);
            lemma_named_pieces_leading_empty(Seq::<Seq<char>>::empty());
            assert(seq![e] =~= seq![e] + Seq::<Seq<char>>::empty());
            assert(!starts_at_cur_dir(t));
        } else {
            assert(segs =~= names);
            lemma_join_ends(names, '/');
            assert(t == join_names(names));
            let n0 = names[0];
            assert(is_plain_name(n0));
            if starts_at_cur_dir(t) {
                assert(t[0] == n0[0]);
                if n0.len() == 1 {
                    assert(n0 =~= cur_comp());
                } else {
                    assert(t[1] == n0[1]);
                    assert(n0.contains('/'));
                }
            }
        }
        assert(components(t) =~= names);
    }
    assert(root_comp() != cur_comp() && root_comp() != parent_comp()) by {
        assert(root_comp()[0] != cur_comp()[0]);
        assert(root_comp().len() != parent_comp().len());
    }
    // joining `.` to `t`
    let dot = cur_comp();
    assert(!is_absolute(dot));
    crate::text::lemma_split_no_sep(dot, '/');
    let j = path_join(t, dot);
    if t.len() == 0 {
        assert(j == dot);
        assert(segments(dot) == seq![dot]);
        assert(seq![dot].drop_last() =~= Seq::<Seq<char>>::empty());
        assert(lex_fold(seq![dot]) == lex_step(lex_fold(Seq::<Seq<char>>::empty()), dot));
        assert(render(false, Seq::<Seq<char>>::empty()) =~= e);
        assert(!rooted);
    } else {
        let j2 = t + seq!['/'] + dot;
        if t.last() == '/' {
            // only the root ends with a separator
            if names.len() > 0 {
                lemma_join_ends(names, '/');
                assert(names.last() == names[names.len() - 1]);
                assert(is_plain_name(names[names.len() - 1]));
                if rooted {
                    assert(t == seq!['/'] + join_names(names));
                    assert(t.last() == join_names(names).last());
                }
                assert(names.last().contains('/'));
            }
            assert(rooted);
            assert(t =~= seq!['/']);
            assert(j =~= e + seq!['/'] + dot);
            lemma_split_concat(e, dot, '/');
            assert(segments(j) =~= seq![e] + seq![dot]);
            lemma_lex_fold_leading_empty(seq![dot]);
            assert(seq![dot].drop_last() =~= Seq::<Seq<char>>::empty());
            assert(lex_fold(seq![dot]) == lex_step(lex_fold(Seq::<Seq<char>>::empty()), dot));
            assert(is_absolute(j));
        } else {
            assert(j == j2);
            lemma_split_concat(t, dot, '/');
            assert(segments(j) == segs + seq![dot]);
            assert((segs + seq![dot]).drop_last() =~= segs);
            assert((segs + seq![dot]).last() == dot);
            assert(lex_fold(segs + seq![dot]) == lex_step(lex_fold(segs), dot));
            assert(is_absolute(j) == is_absolute(t));
        }
    }
    // joining `t` to an empty base
    assert(path_join(e, t) == t);
}

} // verus!
