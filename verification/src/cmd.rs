//! Lists of input files, and the records that decide whether an outside
//! tool has to run again.
use vstd::prelude::*;
use crate::order::{lemma_path_order, path_lt, path_precedes, paths_equal, same_path};
use crate::paths::{components, components_of, is_normal};
use crate::text::{chars_of, strs, views};

verus! {

/// The file name of `p`: its last component, if that is a normal name.
pub open spec fn path_file_name(p: Seq<char>) -> Option<Seq<char>> {
    let c = components(p);
    if c.len() > 0 && is_normal(c.last()) {
        Some(c.last())
    } else {
        None
    }
}

/// The index of the last `.` in `n`, or -1 if there is none.
pub open spec fn last_dot(n: Seq<char>) -> int
    decreases n.len(),
{
    if n.len() == 0 {
        -1
    } else if n.last() == '.' {
        n.len() - 1
    } else {
        last_dot(n.drop_last())
    }
}

/// The extension of the file name `n`: what follows its last `.`, unless
/// that `.` is its first character or it has none.
pub open spec fn name_extension(n: Seq<char>) -> Option<Seq<char>> {
    let d = last_dot(n);
    if d <= 0 {
        None
    } else {
        Some(n.skip(d + 1))
    }
}

/// The extension of the path `p`, as `Path::extension` gives it.
pub open spec fn path_extension(p: Seq<char>) -> Option<Seq<char>> {
    match path_file_name(p) {
        Some(n) => name_extension(n),
        None => None,
    }
}

/// `e` without the dots it starts with.
pub open spec fn without_leading_dots(e: Seq<char>) -> Seq<char>
    decreases e.len(),
{
    if e.len() > 0 && e[0] == '.' {
        without_leading_dots(e.drop_first())
    } else {
        e
    }
}

/// The paths among `ps` whose extension is `ext`, in order.
pub open spec fn with_extension_only(ps: Seq<Seq<char>>, ext: Seq<char>) -> Seq<Seq<char>>
    decreases ps.len(),
{
    if ps.len() == 0 {
        ps
    } else {
        let r = with_extension_only(ps.drop_last(), ext);
        if path_extension(ps.last()) == Some(ext) {
            r.push(ps.last())
        } else {
            r
        }
    }
}

/// The paths among `ps` whose file name is not `name`, in order.
pub open spec fn not_named(ps: Seq<Seq<char>>, name: Seq<char>) -> Seq<Seq<char>>
    decreases ps.len(),
{
    if ps.len() == 0 {
        ps
    } else {
        let r = not_named(ps.drop_last(), name);
        if path_file_name(ps.last()) != Some(name) {
            r.push(ps.last())
        } else {
            r
        }
    }
}

/// Every path of `s` sorts before every later one.
pub open spec fn strictly_sorted(s: Seq<Seq<char>>) -> bool {
    forall|i: int, j: int| 0 <= i < j < s.len() ==> path_lt(#[trigger] s[i], #[trigger] s[j])
}

/// No path before position `i` of `inp` names the same path as `inp[i]`.
pub open spec fn first_seen(inp: Seq<Seq<char>>, i: int) -> bool {
    forall|j: int| 0 <= j < i ==> !same_path(#[trigger] inp[j], inp[i])
}

/// `x` is one of the first `n` paths of `inp`, at a position where no
/// earlier path names the same path.
pub open spec fn first_copy(inp: Seq<Seq<char>>, n: int, x: Seq<char>) -> bool {
    exists|i: int| 0 <= i < n && #[trigger] inp[i] == x && first_seen(inp, i)
}

/// Some path of `r` names the same path as `x`.
pub open spec fn covered(r: Seq<Seq<char>>, x: Seq<char>) -> bool {
    exists|k: int| 0 <= k < r.len() && same_path(#[trigger] r[k], x)
}

/// `r` is what sorting the first `n` paths of `inp` and then dropping each
/// path that names the same path as the one before it gives: one path for
/// each path named, the first of them in `inp`, sorted.
pub open spec fn sorted_unique_prefix(r: Seq<Seq<char>>, inp: Seq<Seq<char>>, n: int) -> bool {
    &&& strictly_sorted(r)
    &&& forall|k: int| 0 <= k < r.len() ==> #[trigger] first_copy(inp, n, r[k])
    &&& forall|i: int| 0 <= i < n ==> #[trigger] covered(r, inp[i])
}

/// `r` is `inp` sorted by path with repeated paths dropped, as sorting
/// stably and then removing each path equal to the one before it gives.
pub open spec fn sorted_unique_of(r: Seq<Seq<char>>, inp: Seq<Seq<char>>) -> bool {
    sorted_unique_prefix(r, inp, inp.len() as int)
}

proof fn lemma_sorted_start(r: Seq<Seq<char>>, inp: Seq<Seq<char>>)
    requires
        strictly_sorted(r),
        r.len() <= inp.len(),
        forall|i: int| 0 <= i < r.len() ==> inp[i] == r[i],
    ensures
        sorted_unique_prefix(r, inp, r.len() as int),
{
    assert forall|k: int| 0 <= k < r.len() implies #[trigger] first_copy(
        inp,
        r.len() as int,
        r[k],
    ) by {
        assert forall|j: int| 0 <= j < k implies !same_path(#[trigger] inp[j], inp[k]) by {
            assert(path_lt(r[j], r[k]));
            lemma_path_order(r[j], r[k], r[k]);
        }
        assert(inp[k] == r[k] && first_seen(inp, k));
    }
    assert forall|i: int| 0 <= i < r.len() implies #[trigger] covered(r, inp[i]) by {
        assert(same_path(r[i], inp[i]));
    }
}

proof fn lemma_sorted_skip(r: Seq<Seq<char>>, inp: Seq<Seq<char>>, m: int, k: int)
    requires
        0 <= m < inp.len(),
        sorted_unique_prefix(r, inp, m),
        0 <= k < r.len(),
        same_path(r[k], inp[m]),
    ensures
        sorted_unique_prefix(r, inp, m + 1),
{
    assert forall|t: int| 0 <= t < r.len() implies #[trigger] first_copy(inp, m + 1, r[t]) by {
        assert(first_copy(inp, m, r[t]));
        let i = choose|i: int| 0 <= i < m && #[trigger] inp[i] == r[t] && first_seen(inp, i);
        assert(0 <= i < m + 1 && inp[i] == r[t] && first_seen(inp, i));
    }
    assert forall|i: int| 0 <= i < m + 1 implies #[trigger] covered(r, inp[i]) by {
        if i == m {
            assert(same_path(r[k], inp[i]));
        } else {
            assert(covered(r, inp[i]));
        }
    }
}

proof fn lemma_sorted_insert(r: Seq<Seq<char>>, inp: Seq<Seq<char>>, m: int, k: int)
    requires
        0 <= m < inp.len(),
        sorted_unique_prefix(r, inp, m),
        0 <= k <= r.len(),
        forall|t: int| 0 <= t < k ==> path_lt(#[trigger] r[t], inp[m]),
        k < r.len() ==> !path_lt(r[k], inp[m]) && !same_path(r[k], inp[m]),
    ensures
        sorted_unique_prefix(r.insert(k, inp[m]), inp, m + 1),
{
    let x = inp[m];
    let n = r.insert(k, x);
    if k < r.len() {
        lemma_path_order(r[k], x, x);
        assert(path_lt(x, r[k]));
    }
    assert forall|t: int| k <= t < r.len() implies path_lt(x, #[trigger] r[t]) by {
        if t > k {
            assert(path_lt(r[k], r[t]));
            lemma_path_order(x, r[k], r[t]);
        }
    }
    assert forall|a: int, b: int| 0 <= a < b < n.len() implies path_lt(
        #[trigger] n[a],
        #[trigger] n[b],
    ) by {
        if b < k {
            assert(n[a] == r[a] && n[b] == r[b]);
        } else if b == k {
            assert(n[a] == r[a] && n[b] == x);
        } else if a < k {
            assert(n[a] == r[a] && n[b] == r[b - 1]);
            assert(path_lt(r[a], x));
            assert(path_lt(x, r[b - 1]));
            lemma_path_order(r[a], x, r[b - 1]);
        } else if a == k {
            assert(n[a] == x && n[b] == r[b - 1]);
        } else {
            assert(n[a] == r[a - 1] && n[b] == r[b - 1]);
        }
    }
    assert forall|j: int| 0 <= j < m implies !same_path(#[trigger] inp[j], inp[m]) by {
        assert(covered(r, inp[j]));
        let t = choose|t: int| 0 <= t < r.len() && same_path(#[trigger] r[t], inp[j]);
        if same_path(inp[j], inp[m]) {
            assert(same_path(r[t], x));
            if t < k {
                lemma_path_order(r[t], x, x);
            } else {
                lemma_path_order(x, r[t], r[t]);
            }
        }
    }
    assert forall|t: int| 0 <= t < n.len() implies #[trigger] first_copy(inp, m + 1, n[t]) by {
        if t == k {
            assert(inp[m] == n[t] && first_seen(inp, m));
        } else {
            let u = if t < k { t } else { t - 1 };
            assert(n[t] == r[u]);
            assert(first_copy(inp, m, r[u]));
            let i = choose|i: int| 0 <= i < m && #[trigger] inp[i] == r[u] && first_seen(inp, i);
            assert(0 <= i < m + 1 && inp[i] == n[t] && first_seen(inp, i));
        }
    }
    assert forall|i: int| 0 <= i < m + 1 implies #[trigger] covered(n, inp[i]) by {
        if i == m {
            assert(same_path(n[k], inp[i]));
        } else {
            assert(covered(r, inp[i]));
            let t = choose|t: int| 0 <= t < r.len() && same_path(#[trigger] r[t], inp[i]);
            let u = if t < k { t } else { t + 1 };
            assert(n[u] == r[t]);
            assert(same_path(n[u], inp[i]));
        }
    }
}

/// Every path kept by `not_named` has another file name, so dropping the
/// files of one name a second time changes nothing.
pub proof fn lemma_not_named_idempotent(ps: Seq<Seq<char>>, name: Seq<char>)
    ensures
        forall|i: int|
            0 <= i < not_named(ps, name).len() ==> path_file_name(#[trigger] not_named(ps, name)[i])
                != Some(name),
        not_named(not_named(ps, name), name) == not_named(ps, name),
    decreases ps.len(),
{
    if ps.len() > 0 {
        let init = ps.drop_last();
        lemma_not_named_idempotent(init, name);
        let r = not_named(init, name);
        if path_file_name(ps.last()) != Some(name) {
            let q = r.push(ps.last());
            assert(q.drop_last() =~= r);
            assert(q.last() == ps.last());
        }
    }
}

/// The file name of the path `p`.
fn file_name_of(p: &Vec<char>) -> (r: Option<Vec<char>>)
    ensures
        match r {
            Some(n) => path_file_name(p@) == Some(n@),
            None => path_file_name(p@) is None,
        },
{
    let c = components_of(p);
    if c.len() == 0 {
        return None;
    }
    let last = &c[c.len() - 1];
    assert(views(c@).last() == last@);
    let normal = !((last.len() == 1 && last[0] == '/') || (last.len() == 1 && last[0] == '.') || (
    last.len() == 2 && last[0] == '.' && last[1] == '.'));
    assert(normal == is_normal(last@)) by {
        if last@ == seq!['/'] || last@ == seq!['.'] {
            assert(last@.len() == 1);
        }
        if last@ == seq!['.', '.'] {
            assert(last@.len() == 2);
        }
        if !normal {
            if last.len() == 1 && last[0] == '/' {
                assert(last@ =~= seq!['/']);
            } else if last.len() == 1 {
                assert(last@ =~= seq!['.']);
            } else {
                assert(last@ =~= seq!['.', '.']);
            }
        }
    }
    if normal {
        Some(crate::paths::copy_chars(last))
    } else {
        None
    }
}

proof fn lemma_last_dot(n: Seq<char>, d: int)
    requires
        -1 <= d < n.len(),
        d >= 0 ==> n[d] == '.',
        forall|j: int| d < j < n.len() ==> n[j] != '.',
    ensures
        last_dot(n) == d,
    decreases n.len(),
{
    if n.len() > 0 && d < n.len() - 1 {
        lemma_last_dot(n.drop_last(), d);
    }
}

/// The file name at the end of a path whose last piece is a plain name.
proof fn lemma_last_piece_is_file_name(p: Seq<char>, name: Seq<char>)
    requires
        name.len() > 0,
        name[0] != '.',
        !name.contains('/'),
        p == name || exists|dir: Seq<char>| p == dir + seq!['/'] + name,
    ensures
        path_file_name(p) == Some(name),
{
    reveal(components);
    crate::text::lemma_split_no_sep(name, '/');
    assert(name[0] != '/') by {
        if name[0] == '/' {
            assert(name.contains('/'));
        }
    }
    assert(name != crate::paths::root_comp() && name != crate::paths::cur_comp() && name
        != crate::paths::parent_comp()) by {
        assert(crate::paths::root_comp()[0] == '/');
        assert(crate::paths::cur_comp()[0] == '.');
        assert(crate::paths::parent_comp()[0] == '.');
    }
    assert(!crate::paths::is_skipped_piece(name));
    let segs = crate::paths::segments(p);
    let lead = if crate::paths::is_absolute(p) {
        seq![crate::paths::root_comp()]
    } else if crate::paths::starts_at_cur_dir(p) {
        seq![crate::paths::cur_comp()]
    } else {
        Seq::<Seq<char>>::empty()
    };
    let prefix = if p == name {
        Seq::<Seq<char>>::empty()
    } else {
        let dir = choose|dir: Seq<char>| p == dir + seq!['/'] + name;
        crate::text::lemma_split_concat(dir, name, '/');
        crate::paths::segments(dir)
    };
    assert(segs == prefix + seq![name]);
    assert((prefix + seq![name]).drop_last() =~= prefix);
    assert((prefix + seq![name]).last() == name);
    let named = crate::paths::named_pieces(segs);
    assert(named == crate::paths::named_pieces(prefix).push(name));
    assert(components(p) == lead + named);
    assert(components(p).last() == name);
}

/// A file's extension is what follows the last `.` of its name, whatever
/// dots the stem before it holds: for a name made of a stem that does not
/// start with `.`, a `.`, and an extension free of `.` and `/`, alone or at
/// the end of any folder path.
pub proof fn lemma_extension_after_last_dot(dir: Seq<char>, stem: Seq<char>, ext: Seq<char>)
    requires
        stem.len() > 0,
        stem[0] != '.',
        !stem.contains('/'),
        !ext.contains('.'),
        !ext.contains('/'),
    ensures
        path_extension(stem + seq!['.'] + ext) == Some(ext),
        path_extension(dir + seq!['/'] + stem + seq!['.'] + ext) == Some(ext),
{
    let name = stem + seq!['.'] + ext;
    let d = stem.len() as int;
    assert forall|j: int| d < j < name.len() implies name[j] != '.' by {
        assert(name[j] == ext[j - d - 1]);
        if name[j] == '.' {
            assert(ext.contains('.'));
        }
    }
    lemma_last_dot(name, d);
    assert(name.skip(d + 1) =~= ext);
    assert(!name.contains('/')) by {
        if name.contains('/') {
            let j = choose|j: int| 0 <= j < name.len() && name[j] == '/';
            if j < d {
                assert(stem[j] == '/');
                assert(stem.contains('/'));
            } else if j > d {
                assert(ext[j - d - 1] == '/');
                assert(ext.contains('/'));
            }
        }
    }
    lemma_last_piece_is_file_name(name, name);
    let p = dir + seq!['/'] + stem + seq!['.'] + ext;
    assert(p =~= dir + seq!['/'] + name);
    lemma_last_piece_is_file_name(p, name);
}

/// The extension of the path `p`.
fn extension_of(p: &Vec<char>) -> (r: Option<Vec<char>>)
    ensures
        match r {
            Some(e) => path_extension(p@) == Some(e@),
            None => path_extension(p@) is None,
        },
{
    match file_name_of(p) {
        None => None,
        Some(n) => {
            let mut d: usize = n.len();
            while d > 0 && n[d - 1] != '.'
                invariant
                    0 <= d <= n.len(),
                    forall|j: int| d <= j < n.len() ==> n@[j] != '.',
                decreases d,
            {
                d = d - 1;
            }
            proof {
                lemma_last_dot(n@, d - 1);
            }
            if d <= 1 {
                None
            } else {
                let e = crate::text::chars_between(&n, d, n.len());
                assert(e@ =~= n@.skip(d as int));
                Some(e)
            }
        },
    }
}

/// `e` without the dots it starts with.
fn strip_leading_dots(e: &str) -> (r: Vec<char>)
    ensures
        r@ == without_leading_dots(e@),
{
    let v = chars_of(e);
    let mut a: usize = 0;
    assert(v@.skip(0) =~= v@);
    while a < v.len() && v[a] == '.'
        invariant
            0 <= a <= v.len(),
            without_leading_dots(v@) == without_leading_dots(v@.skip(a as int)),
        decreases v.len() - a,
    {
        assert(v@.skip(a as int).drop_first() =~= v@.skip(a + 1));
        a = a + 1;
    }
    let r = crate::text::chars_between(&v, a, v.len());
    assert(r@ =~= v@.skip(a as int));
    r
}

/// A list of input files, sorted by path, naming no path twice.
pub struct InputFiles {
    files: Vec<String>,
}

impl View for InputFiles {
    type V = Seq<Seq<char>>;

    closed spec fn view(&self) -> Seq<Seq<char>> {
        strs(self.files@)
    }
}

impl Default for InputFiles {
    /// An empty list.
    fn default() -> (r: Self)
        ensures
            r.wf(),
            r@ == Seq::<Seq<char>>::empty(),
    {
        InputFiles::new()
    }
}

impl InputFiles {
    /// The list's invariant: sorted by path, so that no path is named
    /// twice.
    pub open spec fn wf(&self) -> bool {
        strictly_sorted(self@)
    }

    /// Every list keeps its invariant.
    #[verifier::type_invariant]
    spec fn sorted_files(&self) -> bool {
        self.wf()
    }

    /// An empty list.
    pub fn new() -> (r: Self)
        ensures
            r.wf(),
            r@ == Seq::<Seq<char>>::empty(),
    {
        let r = InputFiles { files: Vec::new() };
        assert(r@ =~= Seq::<Seq<char>>::empty());
        r
    }

    /// The files, in order.
    pub fn as_paths(&self) -> (r: &[String])
        ensures
            strs(r@) == self@,
    {
        self.files.as_slice()
    }

    /// The files, in order, by reference.
    pub fn as_path_refs(&self) -> (r: Vec<&String>)
        ensures
            r@.map_values(|x: &String| x@) == self@,
    {
        let mut r: Vec<&String> = Vec::new();
        let mut i: usize = 0;
        while i < self.files.len()
            invariant
                0 <= i <= self.files.len(),
                r@.map_values(|x: &String| x@) == self@.take(i as int),
            decreases self.files.len() - i,
        {
            assert(self@[i as int] == self.files@[i as int]@);
            let ghost before = r@;
            let x = &self.files[i];
            r.push(x);
            assert(r@.map_values(|x: &String| x@) =~= before.map_values(|x: &String| x@).push(x@));
            i = i + 1;
            assert(self@.take(i as int) =~= self@.take(i - 1).push(self@[i - 1]));
        }
        assert(self@.take(self.files.len() as int) =~= self@);
        r
    }

    /// Drops every file whose file name is `file_name`; the others stay in
    /// order.
    pub fn exclude_file(&mut self, file_name: &str)
        ensures
            final(self).wf(),
            final(self)@ == not_named(old(self)@, file_name@),
    {
        proof {
            use_type_invariant(&*self);
        }
        let name = chars_of(file_name);
        let mut kept: Vec<String> = Vec::new();
        let mut i: usize = 0;
        let ghost fs = self@;
        assert(fs.take(0) =~= Seq::<Seq<char>>::empty());
        while i < self.files.len()
            invariant
                0 <= i <= self.files.len(),
                fs == self@,
                strictly_sorted(fs),
                name@ == file_name@,
                strs(kept@) == not_named(fs.take(i as int), file_name@),
                strictly_sorted(strs(kept@)),
                forall|k: int|
                    0 <= k < kept.len() ==> exists|j: int|
                        0 <= j < i && #[trigger] strs(kept@)[k] == fs[j],
            decreases self.files.len() - i,
        {
            let p = chars_of(self.files[i].as_str());
            assert(fs[i as int] == p@);
            assert(fs.take(i + 1).drop_last() =~= fs.take(i as int));
            let fname = file_name_of(&p);
            let same = match &fname {
                Some(n) => crate::text::chars_equal(n, &name),
                None => false,
            };
            assert(same == (path_file_name(p@) == Some(file_name@)));
            if !same {
                let ghost before = strs(kept@);
                kept.push(self.files[i].clone());
                assert(strs(kept@) =~= before.push(p@));
                assert forall|a: int, b: int|
                    0 <= a < b < strs(kept@).len() implies path_lt(
                    #[trigger] strs(kept@)[a],
                    #[trigger] strs(kept@)[b],
                ) by {
                    if b == before.len() {
                        let j = choose|j: int| 0 <= j < i && before[a] == fs[j];
                        assert(path_lt(fs[j], fs[i as int]));
                    } else {
                        assert(strs(kept@)[a] == before[a]);
                        assert(strs(kept@)[b] == before[b]);
                    }
                }
                assert forall|k: int| 0 <= k < kept.len() implies exists|j: int|
                    0 <= j < i + 1 && #[trigger] strs(kept@)[k] == fs[j] by {
                    if k == before.len() {
                        assert(strs(kept@)[k] == fs[i as int]);
                    } else {
                        assert(strs(kept@)[k] == before[k]);
                        let j = choose|j: int| 0 <= j < i && before[k] == fs[j];
                        assert(strs(kept@)[k] == fs[j]);
                    }
                }
            }
            i = i + 1;
        }
        assert(fs.take(self.files.len() as int) =~= fs);
        self.files = kept;
    }

    /// Adds the paths among `entries` (the contents of a folder) whose
    /// extension is `extension` (leading dots ignored), then sorts the list
    /// by path and drops paths that repeat one before them.
    pub fn add_files_from_folder(&mut self, entries: &[String], extension: &str)
        ensures
            final(self).wf(),
            sorted_unique_of(
                final(self)@,
                old(self)@ + with_extension_only(strs(entries@), without_leading_dots(extension@)),
            ),
    {
        let ext = strip_leading_dots(extension);
        let ghost ev = without_leading_dots(extension@);
        let mut matching: Vec<String> = Vec::new();
        let mut i: usize = 0;
        assert(strs(entries@).take(0) =~= Seq::<Seq<char>>::empty());
        while i < entries.len()
            invariant
                0 <= i <= entries.len(),
                ext@ == ev,
                strs(matching@) == with_extension_only(strs(entries@).take(i as int), ev),
            decreases entries.len() - i,
        {
            let p = chars_of(entries[i].as_str());
            assert(strs(entries@)[i as int] == p@);
            assert(strs(entries@).take(i + 1).drop_last() =~= strs(entries@).take(i as int));
            let is_match = match extension_of(&p) {
                Some(e) => crate::text::chars_equal(&e, &ext),
                None => false,
            };
            if is_match {
                let ghost before = strs(matching@);
                matching.push(entries[i].clone());
                assert(strs(matching@) =~= before.push(p@));
            }
            i = i + 1;
        }
        assert(strs(entries@).take(entries.len() as int) =~= strs(entries@));
        proof {
            use_type_invariant(&*self);
        }
        let ghost base = self@;
        let ghost inp = base + strs(matching@);
        let mut files: Vec<String> = Vec::new();
        std::mem::swap(&mut files, &mut self.files);
        assert(strs(files@) == base);
        proof {
            lemma_sorted_start(base, inp);
        }
        let mut j: usize = 0;
        while j < matching.len()
            invariant
                0 <= j <= matching.len(),
                inp == base + strs(matching@),
                sorted_unique_prefix(strs(files@), inp, base.len() + j),
            decreases matching.len() - j,
        {
            let x = matching[j].as_str();
            assert(inp[base.len() + j] == x@);
            let mut k: usize = 0;
            while k < files.len() && path_precedes(files[k].as_str(), x)
                invariant
                    0 <= k <= files.len(),
                    forall|t: int| 0 <= t < k ==> path_lt(#[trigger] strs(files@)[t], x@),
                decreases files.len() - k,
            {
                assert(strs(files@)[k as int] == files@[k as int]@);
                k = k + 1;
            }
            if k < files.len() {
                assert(strs(files@)[k as int] == files@[k as int]@);
            }
            if k < files.len() && paths_equal(files[k].as_str(), x) {
                proof {
                    lemma_sorted_skip(strs(files@), inp, base.len() + j, k as int);
                }
            } else {
                proof {
                    lemma_sorted_insert(strs(files@), inp, base.len() + j, k as int);
                }
                let ghost before = strs(files@);
                files.insert(k, matching[j].clone());
                assert(strs(files@) =~= before.insert(k as int, x@));
            }
            j = j + 1;
        }
        self.files = files;
        assert(inp.len() == base.len() + matching.len());
    }
}

/// The latest of `ts`.
pub open spec fn latest(ts: Seq<i128>) -> int
    recommends
        ts.len() > 0,
    decreases ts.len(),
{
    if ts.len() <= 1 {
        ts[0] as int
    } else {
        let m = latest(ts.drop_last());
        if ts.last() > m {
            ts.last() as int
        } else {
            m
        }
    }
}

/// The earliest of `ts`.
pub open spec fn earliest(ts: Seq<i128>) -> int
    recommends
        ts.len() > 0,
    decreases ts.len(),
{
    if ts.len() <= 1 {
        ts[0] as int
    } else {
        let m = earliest(ts.drop_last());
        if ts.last() < m {
            ts.last() as int
        } else {
            m
        }
    }
}

/// Whether outputs must be made again from their inputs, given the
/// modification times of the inputs and outputs that exist (nanoseconds
/// from the Unix epoch): when no output exists, or the newest input (the
/// epoch if there is none) is newer than the oldest output.
pub open spec fn newer_than(inputs: Seq<i128>, outputs: Seq<i128>) -> bool {
    let newest = if inputs.len() == 0 { 0 } else { latest(inputs) };
    outputs.len() == 0 || newest > earliest(outputs)
}

/// Whether the newest input is newer than the oldest output; see
/// `newer_than`. The times are those of the files that exist.
pub fn inputs_newer_than_outputs(inputs: &[i128], outputs: &[i128]) -> (r: bool)
    ensures
        r == newer_than(inputs@, outputs@),
        outputs@.len() == 0 ==> r,
        outputs@.len() > 0 && inputs@.len() > 0 ==> (r <==> exists|i: int, j: int|
            0 <= i < inputs@.len() && 0 <= j < outputs@.len() && inputs@[i] > outputs@[j]),
        outputs@.len() > 0 && inputs@.len() == 0 ==> (r <==> exists|j: int|
            0 <= j < outputs@.len() && 0 > outputs@[j]),
{
    proof {
        lemma_newer_than_some_pair(inputs@, outputs@);
    }
    let mut newest: i128 = 0;
    let mut i: usize = 0;
    while i < inputs.len()
        invariant
            0 <= i <= inputs.len(),
            newest == (if i == 0 { 0 } else { latest(inputs@.take(i as int)) }),
        decreases inputs.len() - i,
    {
        let t = inputs[i];
        assert(inputs@.take(i + 1).drop_last() =~= inputs@.take(i as int));
        if i == 0 || t > newest {
            newest = t;
        }
        i = i + 1;
    }
    assert(inputs@.take(inputs.len() as int) =~= inputs@);
    if outputs.len() == 0 {
        return true;
    }
    let mut oldest: i128 = outputs[0];
    let mut j: usize = 1;
    assert(outputs@.take(1) =~= seq![outputs@[0]]);
    while j < outputs.len()
        invariant
            1 <= j <= outputs.len(),
            oldest == earliest(outputs@.take(j as int)),
        decreases outputs.len() - j,
    {
        let t = outputs[j];
        assert(outputs@.take(j + 1).drop_last() =~= outputs@.take(j as int));
        if t < oldest {
            oldest = t;
        }
        j = j + 1;
    }
    assert(outputs@.take(outputs.len() as int) =~= outputs@);
    newest > oldest
}

/// Each of `items` followed by a line break.
pub open spec fn line_per_item(items: Seq<Seq<char>>) -> Seq<char>
    decreases items.len(),
{
    if items.len() == 0 {
        Seq::<char>::empty()
    } else {
        line_per_item(items.drop_last()) + items.last() + seq!['\n']
    }
}

/// Appends each of `items`, each followed by a line break, to `s`.
fn push_lines(s: &mut String, items: &[String])
    ensures
        final(s)@ == old(s)@ + line_per_item(strs(items@)),
{
    let mut i: usize = 0;
    assert(strs(items@).take(0) =~= Seq::<Seq<char>>::empty());
    while i < items.len()
        invariant
            0 <= i <= items.len(),
            s@ == old(s)@ + line_per_item(strs(items@).take(i as int)),
        decreases items.len() - i,
    {
        let ghost t = strs(items@).take(i + 1);
        assert(t.drop_last() =~= strs(items@).take(i as int));
        assert(t.last() == items@[i as int]@);
        s.append(items[i].as_str());
        crate::trusted::push_char(s, '\n');
        i = i + 1;
        assert(s@ =~= old(s)@ + line_per_item(strs(items@).take(i as int)));
    }
    assert(strs(items@).take(items.len() as int) =~= strs(items@));
}

/// The record of a tool's command line: the program, then each argument,
/// each on a line of its own.
pub fn command_record(program: &str, args: &[String]) -> (r: String)
    ensures
        r@ == program@ + seq!['\n'] + line_per_item(strs(args@)),
{
    let mut r = program.to_owned();
    crate::trusted::push_char(&mut r, '\n');
    push_lines(&mut r, args);
    r
}

/// The files a tool run depends on: its inputs, then the program itself.
pub fn command_inputs(inputs: &[String], program: &str) -> (r: Vec<String>)
    ensures
        strs(r@) == strs(inputs@).push(program@),
{
    let mut r: Vec<String> = Vec::new();
    let mut i: usize = 0;
    while i < inputs.len()
        invariant
            0 <= i <= inputs.len(),
            strs(r@) == strs(inputs@).take(i as int),
        decreases inputs.len() - i,
    {
        let ghost before = strs(r@);
        r.push(inputs[i].clone());
        assert(strs(r@) =~= before.push(inputs@[i as int]@));
        i = i + 1;
        assert(strs(r@) =~= strs(inputs@).take(i as int));
    }
    assert(strs(inputs@).take(inputs.len() as int) =~= strs(inputs@));
    let ghost before = strs(r@);
    r.push(program.to_owned());
    assert(strs(r@) =~= before.push(program@));
    r
}

/// The text of a dependency record: the arguments section (the arguments,
/// ended by a line break if they do not end with one), then the inputs and
/// the outputs, one per line.
pub open spec fn dep_record_text(
    args: Option<Seq<char>>,
    inputs: Seq<Seq<char>>,
    outputs: Seq<Seq<char>>,
) -> Seq<char> {
    let head = "--args--\n"@ + match args {
        Some(a) => if a.len() > 0 && a.last() != '\n' {
            a + seq!['\n']
        } else {
            a
        },
        None => Seq::<char>::empty(),
    };
    head + "--inputs--\n"@ + line_per_item(inputs) + "--outputs--\n"@ + line_per_item(outputs)
}

/// The record of a tool run kept beside its first output: its arguments,
/// inputs and outputs. A run is repeated when this record changes.
pub fn dep_record(args: Option<&str>, inputs: &[String], outputs: &[String]) -> (r: String)
    ensures
        r@ == dep_record_text(crate::trusted::opt_str_chars(args), strs(inputs@), strs(outputs@)),
{
    let mut r = "--args--\n".to_owned();
    proof {
        reveal_strlit("--args--\n");
    }
    match args {
        Some(a) => {
            r.append(a);
            let v = chars_of(a);
            if v.len() > 0 && v[v.len() - 1] != '\n' {
                crate::trusted::push_char(&mut r, '\n');
            }
        },
        None => {},
    }
    r.append("--inputs--\n");
    push_lines(&mut r, inputs);
    r.append("--outputs--\n");
    push_lines(&mut r, outputs);
    r
}

/// Where the record of a tool run is kept: beside its first output, with
/// `.dep` appended to that output's path.
pub fn dep_file_path(first_output: &str) -> (r: String)
    ensures
        r@ == first_output@ + ".dep"@,
{
    let mut r = first_output.to_owned();
    r.append(".dep");
    r
}

/// Whether a tool has to run: the record kept is not `record` (or none is
/// kept), an output is missing, or the outputs are stale.
pub open spec fn run_needed(
    kept: Option<Seq<char>>,
    record: Seq<char>,
    output_missing: bool,
    outputs_stale: bool,
) -> bool {
    kept != Some(record) || output_missing || outputs_stale
}

proof fn lemma_latest_member(ts: Seq<i128>)
    requires
        ts.len() > 0,
    ensures
        exists|k: int| 0 <= k < ts.len() && latest(ts) == ts[k] as int,
    decreases ts.len(),
{
    if ts.len() > 1 {
        let init = ts.drop_last();
        lemma_latest_member(init);
        let k = choose|k: int| 0 <= k < init.len() && latest(init) == init[k] as int;
        assert(ts[k] == init[k]);
        if !(ts.last() > latest(init)) {
            assert(latest(ts) == ts[k] as int);
        } else {
            assert(latest(ts) == ts[ts.len() - 1] as int);
        }
    } else {
        assert(latest(ts) == ts[0] as int);
    }
}

proof fn lemma_earliest_member(ts: Seq<i128>)
    requires
        ts.len() > 0,
    ensures
        exists|k: int| 0 <= k < ts.len() && earliest(ts) == ts[k] as int,
    decreases ts.len(),
{
    if ts.len() > 1 {
        let init = ts.drop_last();
        lemma_earliest_member(init);
        let k = choose|k: int| 0 <= k < init.len() && earliest(init) == init[k] as int;
        assert(ts[k] == init[k]);
        if !(ts.last() < earliest(init)) {
            assert(earliest(ts) == ts[k] as int);
        } else {
            assert(earliest(ts) == ts[ts.len() - 1] as int);
        }
    } else {
        assert(earliest(ts) == ts[0] as int);
    }
}

proof fn lemma_latest_bound(ts: Seq<i128>)
    requires
        ts.len() > 0,
    ensures
        forall|k: int| 0 <= k < ts.len() ==> ts[k] <= latest(ts),
    decreases ts.len(),
{
    if ts.len() > 1 {
        let init = ts.drop_last();
        lemma_latest_bound(init);
        assert forall|k: int| 0 <= k < ts.len() implies ts[k] <= latest(ts) by {
            if k < init.len() {
                assert(ts[k] == init[k]);
            }
        }
    }
}

proof fn lemma_earliest_bound(ts: Seq<i128>)
    requires
        ts.len() > 0,
    ensures
        forall|k: int| 0 <= k < ts.len() ==> earliest(ts) <= ts[k],
    decreases ts.len(),
{
    if ts.len() > 1 {
        let init = ts.drop_last();
        lemma_earliest_bound(init);
        assert forall|k: int| 0 <= k < ts.len() implies earliest(ts) <= ts[k] by {
            if k < init.len() {
                assert(ts[k] == init[k]);
            }
        }
    }
}

/// Outputs are stale exactly when some input is newer than some output
/// (an output older than the epoch counts as older than no input at all),
/// and always when there is no output. Only which times there are counts,
/// not their order.
pub proof fn lemma_newer_than_some_pair(inputs: Seq<i128>, outputs: Seq<i128>)
    ensures
        outputs.len() == 0 ==> newer_than(inputs, outputs),
        outputs.len() > 0 && inputs.len() > 0 ==> (newer_than(inputs, outputs) <==> exists|i: int, j: int|
            0 <= i < inputs.len() && 0 <= j < outputs.len() && inputs[i] > outputs[j]),
        outputs.len() > 0 && inputs.len() == 0 ==> (newer_than(inputs, outputs) <==> exists|j: int|
            0 <= j < outputs.len() && 0 > outputs[j]),
{
    if outputs.len() > 0 {
        lemma_earliest_member(outputs);
        lemma_earliest_bound(outputs);
        let m = choose|m: int| 0 <= m < outputs.len() && earliest(outputs) == outputs[m] as int;
        if inputs.len() > 0 {
            lemma_latest_member(inputs);
            lemma_latest_bound(inputs);
            let k = choose|k: int| 0 <= k < inputs.len() && latest(inputs) == inputs[k] as int;
            if newer_than(inputs, outputs) {
                assert(inputs[k] > outputs[m]);
            }
            if exists|i: int, j: int|
                0 <= i < inputs.len() && 0 <= j < outputs.len() && inputs[i] > outputs[j] {
                let (i, j) = choose|i: int, j: int|
                    0 <= i < inputs.len() && 0 <= j < outputs.len() && inputs[i] > outputs[j];
                assert(inputs[i] <= latest(inputs));
                assert(earliest(outputs) <= outputs[j]);
            }
        } else {
            if newer_than(inputs, outputs) {
                assert(0 > outputs[m]);
            }
            if exists|j: int| 0 <= j < outputs.len() && 0 > outputs[j] {
                let j = choose|j: int| 0 <= j < outputs.len() && 0 > outputs[j];
                assert(earliest(outputs) <= outputs[j]);
            }
        }
    }
}

/// A tool run is not repeated while nothing about it changed: when the
/// record kept is the record of the same arguments, inputs and outputs,
/// every output exists, and no output is older than any input (nor, when
/// no input's time is known, older than the epoch), the tool does not run.
pub proof fn lemma_unchanged_run_skipped(
    args: Option<Seq<char>>,
    inputs: Seq<Seq<char>>,
    outputs: Seq<Seq<char>>,
    input_times: Seq<i128>,
    output_times: Seq<i128>,
)
    requires
        output_times.len() > 0,
        forall|i: int, j: int|
            0 <= i < input_times.len() && 0 <= j < output_times.len() ==> input_times[i]
                <= output_times[j],
        input_times.len() == 0 ==> forall|j: int| 0 <= j < output_times.len() ==> 0 <= output_times[j],
    ensures
        !newer_than(input_times, output_times),
        !run_needed(
            Some(dep_record_text(args, inputs, outputs)),
            dep_record_text(args, inputs, outputs),
            false,
            newer_than(input_times, output_times),
        ),
{
    lemma_earliest_member(output_times);
    let m = choose|m: int| 0 <= m < output_times.len() && earliest(output_times) == output_times[m] as int;
    if input_times.len() > 0 {
        lemma_latest_member(input_times);
        let k = choose|k: int| 0 <= k < input_times.len() && latest(input_times) == input_times[k] as int;
        assert(input_times[k] <= output_times[m]);
    } else {
        assert(0 <= output_times[m]);
    }
}

/// Whether a tool has to run: its record differs from the one kept (or
/// none is kept), an output is missing, or an input is newer than an
/// output.
pub fn should_run(
    kept_record: Option<&str>,
    record: &str,
    output_missing: bool,
    outputs_stale: bool,
) -> (r: bool)
    ensures
        r == run_needed(crate::trusted::opt_str_chars(kept_record), record@, output_missing, outputs_stale),
{
    let same = match kept_record {
        Some(k) => k.to_owned().eq(&record.to_owned()),
        None => false,
    };
    !same || output_missing || outputs_stale
}

} // verus!
