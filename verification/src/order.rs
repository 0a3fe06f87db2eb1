//! How paths compare: component by component, as `Path`'s `Ord` and
//! `PartialEq` do.
use vstd::prelude::*;
use crate::paths::{components, components_of, cur_comp, parent_comp, root_comp};
use crate::text::views;
use crate::text::chars_of;

verus! {

/// Character sequences in dictionary order, by code point (the order of
/// their UTF-8 bytes).
pub open spec fn chars_lt(a: Seq<char>, b: Seq<char>) -> bool
    decreases a.len(),
{
    if a.len() == 0 {
        b.len() > 0
    } else if b.len() == 0 {
        false
    } else if a[0] != b[0] {
        a[0] < b[0]
    } else {
        chars_lt(a.drop_first(), b.drop_first())
    }
}

/// The rank of a component's kind: root, current directory, parent
/// directory, normal name.
pub open spec fn comp_rank(c: Seq<char>) -> int {
    if c == root_comp() {
        0
    } else if c == cur_comp() {
        1
    } else if c == parent_comp() {
        2
    } else {
        3
    }
}

/// Components in order: by kind, then normal names by their characters.
pub open spec fn comp_lt(c: Seq<char>, d: Seq<char>) -> bool {
    comp_rank(c) < comp_rank(d) || (comp_rank(c) == 3 && comp_rank(d) == 3 && chars_lt(c, d))
}

/// Component sequences in dictionary order.
pub open spec fn comps_lt(x: Seq<Seq<char>>, y: Seq<Seq<char>>) -> bool
    decreases x.len(),
{
    if x.len() == 0 {
        y.len() > 0
    } else if y.len() == 0 {
        false
    } else if x[0] != y[0] {
        comp_lt(x[0], y[0])
    } else {
        comps_lt(x.drop_first(), y.drop_first())
    }
}

/// Whether the path `a` sorts before the path `b`.
#[verifier::opaque]
pub open spec fn path_lt(a: Seq<char>, b: Seq<char>) -> bool {
    comps_lt(components(a), components(b))
}

/// Whether `a` and `b` name the same path: they have the same components.
pub open spec fn same_path(a: Seq<char>, b: Seq<char>) -> bool {
    components(a) == components(b)
}

pub proof fn lemma_chars_lt_irreflexive(a: Seq<char>)
    ensures
        !chars_lt(a, a),
    decreases a.len(),
{
    if a.len() > 0 {
        lemma_chars_lt_irreflexive(a.drop_first());
    }
}

pub proof fn lemma_chars_lt_total(a: Seq<char>, b: Seq<char>)
    ensures
        a != b ==> chars_lt(a, b) || chars_lt(b, a),
        !(chars_lt(a, b) && chars_lt(b, a)),
    decreases a.len(),
{
    if a.len() > 0 && b.len() > 0 {
        lemma_chars_lt_total(a.drop_first(), b.drop_first());
        if a[0] == b[0] && a.drop_first() == b.drop_first() {
            assert(a =~= seq![a[0]] + a.drop_first());
            assert(b =~= seq![b[0]] + b.drop_first());
        }
    } else if a.len() == 0 && b.len() == 0 {
        assert(a =~= b);
    }
}

pub proof fn lemma_chars_lt_transitive(a: Seq<char>, b: Seq<char>, c: Seq<char>)
    requires
        chars_lt(a, b),
        chars_lt(b, c),
    ensures
        chars_lt(a, c),
    decreases a.len(),
{
    if a.len() > 0 && b.len() > 0 && c.len() > 0 {
        if a[0] == b[0] && b[0] == c[0] {
            lemma_chars_lt_transitive(a.drop_first(), b.drop_first(), c.drop_first());
        }
    }
}

pub proof fn lemma_comp_lt_total(c: Seq<char>, d: Seq<char>)
    ensures
        !comp_lt(c, c),
        c != d ==> comp_lt(c, d) || comp_lt(d, c),
        !(comp_lt(c, d) && comp_lt(d, c)),
{
    lemma_chars_lt_irreflexive(c);
    lemma_chars_lt_total(c, d);
}

pub proof fn lemma_comp_lt_transitive(c: Seq<char>, d: Seq<char>, e: Seq<char>)
    requires
        comp_lt(c, d),
        comp_lt(d, e),
    ensures
        comp_lt(c, e),
{
    if comp_rank(c) == 3 && comp_rank(d) == 3 && comp_rank(e) == 3 {
        lemma_chars_lt_transitive(c, d, e);
    }
}

pub proof fn lemma_comps_lt_irreflexive(x: Seq<Seq<char>>)
    ensures
        !comps_lt(x, x),
    decreases x.len(),
{
    if x.len() > 0 {
        lemma_comps_lt_irreflexive(x.drop_first());
    }
}

pub proof fn lemma_comps_lt_total(x: Seq<Seq<char>>, y: Seq<Seq<char>>)
    ensures
        x != y ==> comps_lt(x, y) || comps_lt(y, x),
        !(comps_lt(x, y) && comps_lt(y, x)),
    decreases x.len(),
{
    if x.len() > 0 && y.len() > 0 {
        lemma_comp_lt_total(x[0], y[0]);
        lemma_comps_lt_total(x.drop_first(), y.drop_first());
        if x[0] == y[0] && x.drop_first() == y.drop_first() {
            assert(x =~= seq![x[0]] + x.drop_first());
            assert(y =~= seq![y[0]] + y.drop_first());
        }
    } else if x.len() == 0 && y.len() == 0 {
        assert(x =~= y);
    }
}

pub proof fn lemma_comps_lt_transitive(x: Seq<Seq<char>>, y: Seq<Seq<char>>, z: Seq<Seq<char>>)
    requires
        comps_lt(x, y),
        comps_lt(y, z),
    ensures
        comps_lt(x, z),
    decreases x.len(),
{
    if x.len() > 0 && y.len() > 0 && z.len() > 0 {
        if x[0] == y[0] && y[0] == z[0] {
            lemma_comps_lt_transitive(x.drop_first(), y.drop_first(), z.drop_first());
        } else if x[0] == y[0] {
            lemma_comp_lt_total(z[0], z[0]);
        } else if y[0] == z[0] {
            lemma_comp_lt_total(x[0], x[0]);
        } else {
            lemma_comp_lt_total(x[0], y[0]);
            lemma_comp_lt_transitive(x[0], y[0], z[0]);
        }
    }
}

/// The path order is a strict total order on paths up to `same_path`.
pub proof fn lemma_path_order(a: Seq<char>, b: Seq<char>, c: Seq<char>)
    ensures
        !path_lt(a, a),
        !same_path(a, b) ==> path_lt(a, b) || path_lt(b, a),
        !(path_lt(a, b) && path_lt(b, a)),
        path_lt(a, b) && path_lt(b, c) ==> path_lt(a, c),
        same_path(a, b) ==> !path_lt(a, b),
        path_lt(a, b) && same_path(b, c) ==> path_lt(a, c),
        same_path(a, b) && path_lt(b, c) ==> path_lt(a, c),
{
    reveal(path_lt);
    lemma_comps_lt_irreflexive(components(a));
    lemma_comps_lt_total(components(a), components(b));
    if path_lt(a, b) && path_lt(b, c) {
        lemma_comps_lt_transitive(components(a), components(b), components(c));
    }
}

/// Whether `a` sorts before `b` in dictionary order of code points.
fn chars_less(a: &Vec<char>, b: &Vec<char>) -> (r: bool)
    ensures
        r == chars_lt(a@, b@),
{
    let mut i: usize = 0;
    assert(a@.skip(0) =~= a@);
    assert(b@.skip(0) =~= b@);
    while i < a.len() && i < b.len()
        invariant
            0 <= i <= a.len(),
            i <= b.len(),
            chars_lt(a@, b@) == chars_lt(a@.skip(i as int), b@.skip(i as int)),
        decreases a.len() - i,
    {
        assert(a@.skip(i as int)[0] == a@[i as int]);
        assert(b@.skip(i as int)[0] == b@[i as int]);
        if a[i] != b[i] {
            return a[i] < b[i];
        }
        assert(a@.skip(i as int).drop_first() =~= a@.skip(i + 1));
        assert(b@.skip(i as int).drop_first() =~= b@.skip(i + 1));
        i = i + 1;
    }
    i < b.len()
}

/// Whether the component `c` sorts before the component `d`.
fn comp_less(c: &Vec<char>, d: &Vec<char>) -> (r: bool)
    ensures
        r == comp_lt(c@, d@),
{
    let rc = comp_rank_of(c);
    let rd = comp_rank_of(d);
    rc < rd || (rc == 3 && rd == 3 && chars_less(c, d))
}

/// The rank of the component `c`.
fn comp_rank_of(c: &Vec<char>) -> (r: u8)
    ensures
        r == comp_rank(c@),
{
    if c.len() == 1 && c[0] == '/' {
        assert(c@ =~= root_comp());
        0
    } else if c.len() == 1 && c[0] == '.' {
        assert(c@ =~= cur_comp());
        1
    } else if c.len() == 2 && c[0] == '.' && c[1] == '.' {
        assert(c@ =~= parent_comp());
        2
    } else {
        assert(c@ != root_comp() && c@ != cur_comp() && c@ != parent_comp()) by {
            if c@ == root_comp() {
                assert(c@.len() == 1 && c@[0] == '/');
            }
            if c@ == cur_comp() {
                assert(c@.len() == 1 && c@[0] == '.');
            }
            if c@ == parent_comp() {
                assert(c@.len() == 2 && c@[0] == '.' && c@[1] == '.');
            }
        }
        3
    }
}

/// Whether the component sequence `x` sorts before `y`.
fn comps_less(x: &Vec<Vec<char>>, y: &Vec<Vec<char>>) -> (r: bool)
    ensures
        r == comps_lt(views(x@), views(y@)),
{
    let mut i: usize = 0;
    assert(views(x@).skip(0) =~= views(x@));
    assert(views(y@).skip(0) =~= views(y@));
    while i < x.len() && i < y.len()
        invariant
            0 <= i <= x.len(),
            i <= y.len(),
            comps_lt(views(x@), views(y@)) == comps_lt(
                views(x@).skip(i as int),
                views(y@).skip(i as int),
            ),
        decreases x.len() - i,
    {
        assert(views(x@).skip(i as int)[0] == x@[i as int]@);
        assert(views(y@).skip(i as int)[0] == y@[i as int]@);
        if !crate::text::chars_equal(&x[i], &y[i]) {
            return comp_less(&x[i], &y[i]);
        }
        assert(views(x@).skip(i as int).drop_first() =~= views(x@).skip(i + 1));
        assert(views(y@).skip(i as int).drop_first() =~= views(y@).skip(i + 1));
        i = i + 1;
    }
    i < y.len()
}

/// Whether the component sequences `x` and `y` are equal.
fn comps_equal(x: &Vec<Vec<char>>, y: &Vec<Vec<char>>) -> (r: bool)
    ensures
        r == (views(x@) == views(y@)),
{
    if x.len() != y.len() {
        assert(views(x@).len() != views(y@).len());
        return false;
    }
    let mut i: usize = 0;
    while i < x.len()
        invariant
            0 <= i <= x.len(),
            x.len() == y.len(),
            forall|j: int| 0 <= j < i ==> views(x@)[j] == views(y@)[j],
        decreases x.len() - i,
    {
        assert(views(x@)[i as int] == x@[i as int]@);
        assert(views(y@)[i as int] == y@[i as int]@);
        if !crate::text::chars_equal(&x[i], &y[i]) {
            assert(views(x@)[i as int] != views(y@)[i as int]);
            return false;
        }
        i = i + 1;
    }
    assert(views(x@) =~= views(y@));
    true
}

/// Whether the path `a` sorts before the path `b`.
pub fn path_precedes(a: &str, b: &str) -> (r: bool)
    ensures
        r == path_lt(a@, b@),
{
    let ca = components_of(&chars_of(a));
    let cb = components_of(&chars_of(b));
    reveal(path_lt);
    comps_less(&ca, &cb)
}

/// Whether `a` and `b` name the same path.
pub fn paths_equal(a: &str, b: &str) -> (r: bool)
    ensures
        r == same_path(a@, b@),
{
    let ca = components_of(&chars_of(a));
    let cb = components_of(&chars_of(b));
    comps_equal(&ca, &cb)
}

} // verus!
