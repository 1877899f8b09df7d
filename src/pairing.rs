//! Edit distance over sequences, and pairing the versions of one package
//! on the old side with those on the new side.
use vstd::prelude::*;

use crate::diff::version_views;
use crate::version::{
    component_views, components, components_of, text_after, lemma_component_eq_by_view,
    lex_cmp, Version, VersionComponent, VersionView,
};

verus! {

pub open spec fn min2(x: nat, y: nat) -> nat {
    if x <= y {
        x
    } else {
        y
    }
}

/// The Levenshtein distance: the least number of insertions, deletions and
/// substitutions of single elements that turn `a` into `b`.
pub open spec fn edit_distance<A>(a: Seq<A>, b: Seq<A>) -> nat
    decreases a.len() + b.len(),
{
    if a.len() == 0 {
        b.len()
    } else if b.len() == 0 {
        a.len()
    } else {
        min2(
            min2(edit_distance(a.drop_last(), b) + 1, edit_distance(a, b.drop_last()) + 1),
            edit_distance(a.drop_last(), b.drop_last()) + if a.last() == b.last() {
                0nat
            } else {
                1nat
            },
        )
    }
}

pub open spec fn max2(x: nat, y: nat) -> nat {
    if x >= y {
        x
    } else {
        y
    }
}

/// The distance is at most the length of the longer sequence.
pub proof fn lemma_edit_distance_bounded<A>(a: Seq<A>, b: Seq<A>)
    ensures
        edit_distance(a, b) <= max2(a.len(), b.len()),
    decreases a.len() + b.len(),
{
    if a.len() > 0 && b.len() > 0 {
        lemma_edit_distance_bounded(a.drop_last(), b.drop_last());
    }
}

/// The distance does not depend on the direction.
pub proof fn lemma_edit_distance_symmetric<A>(a: Seq<A>, b: Seq<A>)
    ensures
        edit_distance(a, b) == edit_distance(b, a),
    decreases a.len() + b.len(),
{
    if a.len() > 0 && b.len() > 0 {
        lemma_edit_distance_symmetric(a.drop_last(), b);
        lemma_edit_distance_symmetric(a, b.drop_last());
        lemma_edit_distance_symmetric(a.drop_last(), b.drop_last());
    }
}

/// A sequence is at distance zero from itself.
pub proof fn lemma_edit_distance_reflexive<A>(a: Seq<A>)
    ensures
        edit_distance(a, a) == 0,
    decreases a.len(),
{
    if a.len() > 0 {
        lemma_edit_distance_reflexive(a.drop_last());
    }
}

pub open spec fn views_of<T: View>(s: Seq<T>) -> Seq<T::V> {
    s.map_values(|x: T| x@)
}

/// The edit distance between `from` and `to`, compared element by element
/// through their views. The rows kept are as long as the shorter sequence.
pub fn levenshtein<T: PartialEq + View>(from: &[T], to: &[T]) -> (r: usize)
    requires
        vstd::laws_eq::obeys_view_eq::<T>(),
        from@.len() < usize::MAX,
        to@.len() < usize::MAX,
    ensures
        r == edit_distance(views_of(from@), views_of(to@)),
{
    if to.len() <= from.len() {
        distance_rows(from, to)
    } else {
        proof {
            lemma_edit_distance_symmetric(views_of(from@), views_of(to@));
        }
        distance_rows(to, from)
    }
}

/// The edit distance by dynamic programming over two rolling rows of the
/// length of `to`.
fn distance_rows<T: PartialEq + View>(from: &[T], to: &[T]) -> (r: usize)
    requires
        vstd::laws_eq::obeys_view_eq::<T>(),
        from@.len() < usize::MAX,
        to@.len() < usize::MAX,
    ensures
        r == edit_distance(views_of(from@), views_of(to@)),
{
    let ghost a = views_of(from@);
    let ghost b = views_of(to@);
    let height = from.len();
    let width = to.len();
    let mut old: Vec<usize> = Vec::new();
    old.push(0);
    let mut j: usize = 0;
    while j < width
        invariant
            j <= width,
            width == to@.len(),
            width < usize::MAX,
            old@.len() == j + 1,
            forall|k: int| 0 <= k <= j ==> #[trigger] old@[k] == k,
        decreases width - j,
    {
        old.push(j + 1);
        j = j + 1;
    }
    assert forall|k: int| 0 <= k <= width implies #[trigger] old@[k] == edit_distance(
        a.take(0),
        b.take(k),
    ) by {}
    let mut i: usize = 1;
    while i <= height
        invariant
            1 <= i <= height + 1,
            height < usize::MAX,
            width < usize::MAX,
            height == from@.len(),
            width == to@.len(),
            a == views_of(from@),
            b == views_of(to@),
            vstd::laws_eq::obeys_view_eq::<T>(),
            old@.len() == width + 1,
            forall|k: int| 0 <= k <= width ==> #[trigger] old@[k] == edit_distance(
                a.take(i - 1),
                b.take(k),
            ),
        decreases height + 1 - i,
    {
        let mut new: Vec<usize> = Vec::new();
        new.push(i);
        let mut j: usize = 1;
        while j <= width
            invariant
                1 <= i <= height,
                1 <= j <= width + 1,
                height < usize::MAX,
                width < usize::MAX,
                height == from@.len(),
                width == to@.len(),
                a == views_of(from@),
                b == views_of(to@),
                vstd::laws_eq::obeys_view_eq::<T>(),
                old@.len() == width + 1,
                forall|k: int| 0 <= k <= width ==> #[trigger] old@[k] == edit_distance(
                    a.take(i - 1),
                    b.take(k),
                ),
                new@.len() == j,
                forall|k: int| 0 <= k < j ==> #[trigger] new@[k] == edit_distance(
                    a.take(i as int),
                    b.take(k),
                ),
            decreases width + 1 - j,
        {
            let ghost x = a.take(i as int);
            let ghost y = b.take(j as int);
            assert(x.drop_last() =~= a.take(i - 1));
            assert(y.drop_last() =~= b.take(j - 1));
            proof {
                lemma_edit_distance_bounded(a.take(i - 1), b.take(j as int));
                lemma_edit_distance_bounded(x, b.take(j - 1));
                lemma_edit_distance_bounded(a.take(i - 1), b.take(j - 1));
            }
            let same = from[i - 1] == to[j - 1];
            proof {
                reveal(vstd::laws_eq::obeys_view_eq);
                assert(x.last() == from@[i - 1]@);
                assert(y.last() == to@[j - 1]@);
            }
            let del = old[j] + 1;
            let ins = new[j - 1] + 1;
            let sub = old[j - 1] + if same {
                0
            } else {
                1
            };
            let m1 = if del <= ins {
                del
            } else {
                ins
            };
            let d = if m1 <= sub {
                m1
            } else {
                sub
            };
            new.push(d);
            j = j + 1;
        }
        old = new;
        i = i + 1;
    }
    assert(a.take(height as int) =~= a);
    assert(b.take(width as int) =~= b);
    old[width]
}


/// One entry of a pairing of two lists: an index into the old list only,
/// into the new list only, or one into each.
#[derive(PartialEq, Eq, Structural, Debug, Clone, Copy)]
pub enum Pairing {
    Left(usize),
    Right(usize),
    Both(usize, usize),
}

pub open spec fn left_of(p: Pairing) -> Option<int> {
    match p {
        Pairing::Left(i) => Some(i as int),
        Pairing::Right(_) => None,
        Pairing::Both(i, _) => Some(i as int),
    }
}

pub open spec fn right_of(p: Pairing) -> Option<int> {
    match p {
        Pairing::Left(_) => None,
        Pairing::Right(j) => Some(j as int),
        Pairing::Both(_, j) => Some(j as int),
    }
}

pub open spec fn has_left(ps: Seq<Pairing>, i: int) -> bool {
    exists|k: int| 0 <= k < ps.len() && #[trigger] left_of(ps[k]) == Some(i)
}

pub open spec fn has_right(ps: Seq<Pairing>, j: int) -> bool {
    exists|k: int| 0 <= k < ps.len() && #[trigger] right_of(ps[k]) == Some(j)
}

/// Every index below `n` stands on the left of exactly one entry, and no
/// other left index occurs.
pub open spec fn lefts_once(ps: Seq<Pairing>, n: int) -> bool {
    &&& forall|k: int|
        0 <= k < ps.len() && #[trigger] left_of(ps[k]) is Some ==> 0 <= left_of(ps[k])->0 < n
    &&& forall|k1: int, k2: int|
        0 <= k1 < ps.len() && 0 <= k2 < ps.len() && k1 != k2 && #[trigger] left_of(ps[k1])
            is Some ==> left_of(ps[k1]) != #[trigger] left_of(ps[k2])
    &&& forall|i: int| 0 <= i < n ==> #[trigger] has_left(ps, i)
}

/// Every index below `m` stands on the right of exactly one entry, and no
/// other right index occurs.
pub open spec fn rights_once(ps: Seq<Pairing>, m: int) -> bool {
    &&& forall|k: int|
        0 <= k < ps.len() && #[trigger] right_of(ps[k]) is Some ==> 0 <= right_of(ps[k])->0 < m
    &&& forall|k1: int, k2: int|
        0 <= k1 < ps.len() && 0 <= k2 < ps.len() && k1 != k2 && #[trigger] right_of(ps[k1])
            is Some ==> right_of(ps[k1]) != #[trigger] right_of(ps[k2])
    &&& forall|j: int| 0 <= j < m ==> #[trigger] has_right(ps, j)
}

/// Each of the `n` old and `m` new elements occurs exactly once.
pub open spec fn complete_pairing(ps: Seq<Pairing>, n: int, m: int) -> bool {
    lefts_once(ps, n) && rights_once(ps, m)
}

pub open spec fn flipped(p: Pairing) -> Pairing {
    match p {
        Pairing::Left(i) => Pairing::Right(i),
        Pairing::Right(j) => Pairing::Left(j),
        Pairing::Both(i, j) => Pairing::Both(j, i),
    }
}

fn flip_all(ps: Vec<Pairing>) -> (r: Vec<Pairing>)
    ensures
        r@.len() == ps@.len(),
        forall|k: int| 0 <= k < ps@.len() ==> r@[k] == flipped(#[trigger] ps@[k]),
{
    let mut r: Vec<Pairing> = Vec::new();
    let mut k: usize = 0;
    while k < ps.len()
        invariant
            k <= ps@.len(),
            r@.len() == k,
            forall|t: int| 0 <= t < k ==> r@[t] == flipped(#[trigger] ps@[t]),
        decreases ps.len() - k,
    {
        let p = match ps[k] {
            Pairing::Left(i) => Pairing::Right(i),
            Pairing::Right(j) => Pairing::Left(j),
            Pairing::Both(i, j) => Pairing::Both(j, i),
        };
        r.push(p);
        k = k + 1;
    }
    r
}

proof fn lemma_flip_complete(ps: Seq<Pairing>, r: Seq<Pairing>, n: int, m: int)
    requires
        complete_pairing(ps, n, m),
        r.len() == ps.len(),
        forall|k: int| 0 <= k < ps.len() ==> r[k] == flipped(#[trigger] ps[k]),
    ensures
        complete_pairing(r, m, n),
{
    assert forall|k: int| 0 <= k < ps.len() implies #[trigger] left_of(r[k]) == right_of(ps[k])
        && right_of(r[k]) == left_of(ps[k]) by {
        assert(r[k] == flipped(ps[k]));
    }
    assert forall|k: int| 0 <= k < r.len() && #[trigger] left_of(r[k]) is Some implies 0
        <= left_of(r[k])->0 < m by {
        assert(left_of(r[k]) == right_of(ps[k]));
    }
    assert forall|k: int| 0 <= k < r.len() && #[trigger] right_of(r[k]) is Some implies 0
        <= right_of(r[k])->0 < n by {
        assert(right_of(r[k]) == left_of(ps[k]));
    }
    assert forall|i: int| 0 <= i < m implies #[trigger] has_left(r, i) by {
        assert(has_right(ps, i));
        let k = choose|k: int| 0 <= k < ps.len() && #[trigger] right_of(ps[k]) == Some(i);
        assert(left_of(r[k]) == right_of(ps[k]));
    }
    assert forall|j: int| 0 <= j < n implies #[trigger] has_right(r, j) by {
        assert(has_left(ps, j));
        let k = choose|k: int| 0 <= k < ps.len() && #[trigger] left_of(ps[k]) == Some(j);
        assert(right_of(r[k]) == left_of(ps[k]));
    }
    assert forall|k1: int, k2: int|
        0 <= k1 < r.len() && 0 <= k2 < r.len() && k1 != k2 && #[trigger] left_of(r[k1])
            is Some implies left_of(r[k1]) != #[trigger] left_of(r[k2]) by {
        assert(left_of(r[k1]) == right_of(ps[k1]));
        assert(left_of(r[k2]) == right_of(ps[k2]));
    }
    assert forall|k1: int, k2: int|
        0 <= k1 < r.len() && 0 <= k2 < r.len() && k1 != k2 && #[trigger] right_of(r[k1])
            is Some implies right_of(r[k1]) != #[trigger] right_of(r[k2]) by {
        assert(right_of(r[k1]) == left_of(ps[k1]));
        assert(right_of(r[k2]) == left_of(ps[k2]));
    }
}

proof fn lemma_remove_keeps_others(s: Seq<usize>, p: int)
    requires
        s.no_duplicates(),
        0 <= p < s.len(),
    ensures
        s.remove(p).no_duplicates(),
        forall|x: usize| #[trigger] s.remove(p).contains(x) <==> (s.contains(x) && x != s[p]),
{
    let r = s.remove(p);
    assert forall|a: int, b: int| 0 <= a < r.len() && 0 <= b < r.len() && a != b implies r[a]
        != r[b] by {
        let sa = if a < p {
            a
        } else {
            a + 1
        };
        let sb = if b < p {
            b
        } else {
            b + 1
        };
        assert(r[a] == s[sa]);
        assert(r[b] == s[sb]);
    }
    assert forall|x: usize| #[trigger] r.contains(x) <==> (s.contains(x) && x != s[p]) by {
        if r.contains(x) {
            let a = choose|a: int| 0 <= a < r.len() && r[a] == x;
            let sa = if a < p {
                a
            } else {
                a + 1
            };
            assert(s[sa] == x);
        }
        if s.contains(x) && x != s[p] {
            let a = choose|a: int| 0 <= a < s.len() && s[a] == x;
            if a < p {
                assert(r[a] == x);
            } else {
                assert(r[a - 1] == x);
            }
        }
    }
}

/// The component sequences of the versions, for computing distances.
fn component_lists(vs: &Vec<Version>) -> (r: Vec<Vec<VersionComponent>>)
    ensures
        r@.len() == vs@.len(),
        forall|k: int| 0 <= k < vs@.len() ==> component_views(#[trigger] r@[k]@) == components_of(vs@[k]@.text),
{
    let mut r: Vec<Vec<VersionComponent>> = Vec::new();
    let mut k: usize = 0;
    while k < vs.len()
        invariant
            k <= vs@.len(),
            r@.len() == k,
            forall|t: int| 0 <= t < k ==> component_views(#[trigger] r@[t]@) == components_of(vs@[t]@.text),
        decreases vs.len() - k,
    {
        r.push(components(vs[k].name.as_str()));
        k = k + 1;
    }
    r
}

/// The distance between two component sequences.
pub fn component_distance(a: &Vec<VersionComponent>, b: &Vec<VersionComponent>) -> (r: usize)
    ensures
        a@.len() < usize::MAX && b@.len() < usize::MAX ==> r == edit_distance(
            component_views(a@),
            component_views(b@),
        ),
{
    if a.len() == usize::MAX || b.len() == usize::MAX {
        return usize::MAX;
    }
    proof {
        lemma_component_eq_by_view();
        assert(views_of(a@) =~= component_views(a@));
        assert(views_of(b@) =~= component_views(b@));
    }
    levenshtein(a.as_slice(), b.as_slice())
}

/// Gives each row a distinct column, row by row: the free column at the
/// least distance, the first of them on a tie. Returns the columns given to
/// the rows, and those left over. This stands in for the Hungarian method
/// where the latter's result does not check out.
fn assign_columns(rows: &Vec<Vec<VersionComponent>>, cols: &Vec<Vec<VersionComponent>>) -> (r: (
    Vec<usize>,
    Vec<usize>,
))
    requires
        rows@.len() <= cols@.len(),
    ensures
        r.0@.len() == rows@.len(),
        r.1@.len() == cols@.len() - rows@.len(),
        r.0@.no_duplicates(),
        r.1@.no_duplicates(),
        forall|k: int| 0 <= k < r.0@.len() ==> #[trigger] r.0@[k] < cols@.len(),
        forall|k: int| 0 <= k < r.1@.len() ==> #[trigger] r.1@[k] < cols@.len(),
        forall|x: usize| x < cols@.len() ==> (#[trigger] r.1@.contains(x) <==> !r.0@.contains(x)),
{
    let m = cols.len();
    let mut free: Vec<usize> = Vec::new();
    let mut j: usize = 0;
    while j < m
        invariant
            j <= m,
            m == cols@.len(),
            free@.len() == j,
            forall|k: int| 0 <= k < j ==> #[trigger] free@[k] == k,
        decreases m - j,
    {
        free.push(j);
        j = j + 1;
    }
    assert forall|x: usize| x < m implies #[trigger] free@.contains(x) by {
        assert(free@[x as int] == x);
    }
    let mut assigned: Vec<usize> = Vec::new();
    let mut i: usize = 0;
    while i < rows.len()
        invariant
            i <= rows@.len(),
            rows@.len() <= m,
            m == cols@.len(),
            assigned@.len() == i,
            free@.len() == m - i,
            assigned@.no_duplicates(),
            free@.no_duplicates(),
            forall|k: int| 0 <= k < assigned@.len() ==> #[trigger] assigned@[k] < m,
            forall|k: int| 0 <= k < free@.len() ==> #[trigger] free@[k] < m,
            forall|x: usize| x < m ==> (#[trigger] free@.contains(x) <==> !assigned@.contains(x)),
        decreases rows.len() - i,
    {
        let mut p: usize = 0;
        let mut best = component_distance(&rows[i], &cols[free[0]]);
        let mut q: usize = 1;
        while q < free.len()
            invariant
                1 <= q <= free@.len(),
                p < free@.len(),
                forall|k: int| 0 <= k < free@.len() ==> #[trigger] free@[k] < m,
                m == cols@.len(),
                i < rows@.len(),
            decreases free.len() - q,
        {
            let d = component_distance(&rows[i], &cols[free[q]]);
            if d < best {
                best = d;
                p = q;
            }
            q = q + 1;
        }
        let ghost before = free@;
        let c = free.remove(p);
        proof {
            lemma_remove_keeps_others(before, p as int);
            assert(before.contains(c));
        }
        let ghost prev = assigned@;
        assigned.push(c);
        proof {
            assert forall|x: usize| #[trigger] assigned@.contains(x) <==> (prev.contains(x) || x
                == c) by {
                if assigned@.contains(x) {
                    let a = choose|a: int| 0 <= a < assigned@.len() && assigned@[a] == x;
                    if a < prev.len() {
                        assert(prev[a] == x);
                    }
                }
                if prev.contains(x) {
                    let a = choose|a: int| 0 <= a < prev.len() && prev[a] == x;
                    assert(assigned@[a] == x);
                }
                if x == c {
                    assert(assigned@[prev.len() as int] == x);
                }
            }
            assert forall|a: int, b: int|
                0 <= a < assigned@.len() && 0 <= b < assigned@.len() && a != b implies assigned@[a]
                != assigned@[b] by {
                if a < prev.len() && b < prev.len() {
                    assert(assigned@[a] == prev[a]);
                    assert(assigned@[b] == prev[b]);
                } else if a < prev.len() {
                    assert(prev.contains(assigned@[a]));
                } else if b < prev.len() {
                    assert(prev.contains(assigned@[b]));
                }
            }
        }
        i = i + 1;
    }
    (assigned, free)
}


/// The texts of `vs` at the positions `idx`, in order, compare
/// lexicographically as non-decreasing.
pub open spec fn sorted_by_text(idx: Seq<usize>, vs: Seq<Version>) -> bool {
    forall|k: int|
        0 <= k < idx.len() - 1 ==> lex_cmp(vs[#[trigger] idx[k] as int]@.text, vs[idx[k + 1] as int]@.text)
            <= 0
}

proof fn lemma_insert_sorted(prev: Seq<usize>, p: int, x: usize, vs: Seq<Version>)
    requires
        0 <= p <= prev.len(),
        prev.no_duplicates(),
        !prev.contains(x),
        x < vs.len(),
        forall|k: int| 0 <= k < prev.len() ==> #[trigger] prev[k] < vs.len(),
        sorted_by_text(prev, vs),
        p > 0 ==> lex_cmp(vs[prev[p - 1] as int]@.text, vs[x as int]@.text) <= 0,
        forall|k: int| p <= k < prev.len() ==> lex_cmp(vs[#[trigger] prev[k] as int]@.text, vs[x as int]@.text) > 0,
    ensures
        prev.insert(p, x).no_duplicates(),
        forall|y: usize| #[trigger] prev.insert(p, x).contains(y) <==> (prev.contains(y) || y == x),
        forall|k: int| 0 <= k < prev.insert(p, x).len() ==> #[trigger] prev.insert(p, x)[k] < vs.len(),
        sorted_by_text(prev.insert(p, x), vs),
{
    let out = prev.insert(p, x);
    assert forall|y: usize| #[trigger] out.contains(y) <==> (prev.contains(y) || y == x) by {
        if out.contains(y) {
            let a = choose|a: int| 0 <= a < out.len() && out[a] == y;
            if a < p {
                assert(prev[a] == y);
            } else if a > p {
                assert(prev[a - 1] == y);
            }
        }
        if prev.contains(y) {
            let a = choose|a: int| 0 <= a < prev.len() && prev[a] == y;
            if a < p {
                assert(out[a] == y);
            } else {
                assert(out[a + 1] == y);
            }
        }
        if y == x {
            assert(out[p] == y);
        }
    }
    assert forall|a: int, b: int| 0 <= a < out.len() && 0 <= b < out.len() && a != b implies out[a] != out[b] by {
        let pa = if a < p { a } else { a - 1 };
        let pb = if b < p { b } else { b - 1 };
        if a != p && b != p {
            assert(out[a] == prev[pa]);
            assert(out[b] == prev[pb]);
        } else if a == p {
            assert(out[b] == prev[pb]);
            assert(prev.contains(out[b]));
        } else {
            assert(out[a] == prev[pa]);
            assert(prev.contains(out[a]));
        }
    }
    assert forall|k: int| 0 <= k < out.len() implies #[trigger] out[k] < vs.len() by {
        if k < p {
            assert(out[k] == prev[k]);
        } else if k > p {
            assert(out[k] == prev[k - 1]);
        }
    }
    assert forall|k: int| 0 <= k < out.len() - 1 implies lex_cmp(vs[#[trigger] out[k] as int]@.text, vs[out[k + 1] as int]@.text) <= 0 by {
        if k + 1 < p {
            assert(out[k] == prev[k]);
            assert(out[k + 1] == prev[k + 1]);
        } else if k + 1 == p {
            assert(out[k] == prev[k]);
        } else if k == p {
            assert(out[k + 1] == prev[k]);
            crate::version::lemma_lex_antisymmetric(vs[x as int]@.text, vs[prev[k] as int]@.text);
        } else {
            assert(out[k] == prev[k - 1]);
            assert(out[k + 1] == prev[k]);
        }
    }
}

/// Orders positions into `vs` by the texts there.
fn sort_by_text(idx: Vec<usize>, vs: &Vec<Version>) -> (r: Vec<usize>)
    requires
        idx@.no_duplicates(),
        forall|k: int| 0 <= k < idx@.len() ==> #[trigger] idx@[k] < vs@.len(),
    ensures
        r@.len() == idx@.len(),
        r@.no_duplicates(),
        forall|x: usize| #[trigger] r@.contains(x) <==> idx@.contains(x),
        forall|k: int| 0 <= k < r@.len() ==> #[trigger] r@[k] < vs@.len(),
        sorted_by_text(r@, vs@),
{
    let mut out: Vec<usize> = Vec::new();
    let mut i: usize = 0;
    while i < idx.len()
        invariant
            i <= idx@.len(),
            idx@.no_duplicates(),
            forall|k: int| 0 <= k < idx@.len() ==> #[trigger] idx@[k] < vs@.len(),
            out@.len() == i,
            out@.no_duplicates(),
            forall|x: usize| #[trigger] out@.contains(x) <==> idx@.take(i as int).contains(x),
            forall|k: int| 0 <= k < out@.len() ==> #[trigger] out@[k] < vs@.len(),
            sorted_by_text(out@, vs@),
        decreases idx.len() - i,
    {
        let x = idx[i];
        let mut p: usize = out.len();
        while p > 0 && text_after(vs[out[p - 1]].name.as_str(), vs[x].name.as_str())
            invariant
                p <= out@.len(),
                x < vs@.len(),
                forall|k: int| 0 <= k < out@.len() ==> #[trigger] out@[k] < vs@.len(),
                forall|k: int| p <= k < out@.len() ==> lex_cmp(vs[#[trigger] out@[k] as int]@.text, vs[x as int]@.text) > 0,
            decreases p,
        {
            p = p - 1;
        }
        proof {
            if p > 0 {
                assert(lex_cmp(vs[out@[p - 1] as int]@.text, vs[x as int]@.text) <= 0);
            }
        }
        let ghost prev = out@;
        out.insert(p, x);
        proof {
            assert(idx@.take(i + 1) =~= idx@.take(i as int).push(x));
            assert(!idx@.take(i as int).contains(x)) by {
                if idx@.take(i as int).contains(x) {
                    let a = choose|a: int| 0 <= a < i && idx@.take(i as int)[a] == x;
                    assert(idx@[a] == idx@[i as int]);
                }
            }
            lemma_insert_sorted(prev, p as int, x, vs@);
            assert forall|y: usize| #[trigger] out@.contains(y) <==> idx@.take(i + 1).contains(y) by {
                if y == x {
                    assert(idx@.take(i + 1)[i as int] == x);
                } else {
                    let t1 = idx@.take(i + 1);
                    let t0 = idx@.take(i as int);
                    if t1.contains(y) {
                        let a = choose|a: int| 0 <= a < t1.len() && t1[a] == y;
                        assert(t0[a] == y);
                    }
                    if t0.contains(y) {
                        let a = choose|a: int| 0 <= a < t0.len() && t0[a] == y;
                        assert(t1[a] == y);
                    }
                }
            }
        }
        i = i + 1;
    }
    assert(idx@.take(idx@.len() as int) =~= idx@);
    out
}

fn add_sat(a: i64, b: i64) -> i64 {
    match a.checked_add(b) {
        Some(c) => c,
        None => if b > 0 {
            i64::MAX
        } else {
            i64::MIN
        },
    }
}

fn sub_sat(a: i64, b: i64) -> i64 {
    match a.checked_sub(b) {
        Some(c) => c,
        None => if b < 0 {
            i64::MAX
        } else {
            i64::MIN
        },
    }
}

fn filled<T: Copy>(len: usize, x: T) -> (r: Vec<T>)
    ensures
        r@.len() == len,
        forall|k: int| 0 <= k < len ==> #[trigger] r@[k] == x,
{
    let mut r: Vec<T> = Vec::new();
    let mut k: usize = 0;
    while k < len
        invariant
            k <= len,
            r@.len() == k,
            forall|t: int| 0 <= t < k ==> #[trigger] r@[t] == x,
        decreases len - k,
    {
        r.push(x);
        k = k + 1;
    }
    r
}

/// The distances between rows and columns, each at most `i32::MAX`.
fn cost_matrix(rows: &Vec<Vec<VersionComponent>>, cols: &Vec<Vec<VersionComponent>>) -> (r: Vec<Vec<i64>>)
    ensures
        r@.len() == rows@.len(),
        forall|i: int| 0 <= i < r@.len() ==> #[trigger] r@[i]@.len() == cols@.len(),
{
    let mut r: Vec<Vec<i64>> = Vec::new();
    let mut i: usize = 0;
    while i < rows.len()
        invariant
            i <= rows@.len(),
            r@.len() == i,
            forall|t: int| 0 <= t < i ==> #[trigger] r@[t]@.len() == cols@.len(),
        decreases rows.len() - i,
    {
        let mut row: Vec<i64> = Vec::new();
        let mut j: usize = 0;
        while j < cols.len()
            invariant
                j <= cols@.len(),
                i < rows@.len(),
                row@.len() == j,
            decreases cols.len() - j,
        {
            let d = component_distance(&rows[i], &cols[j]);
            let c: i64 = if d > 2147483647 {
                2147483647
            } else {
                d as i64
            };
            row.push(c);
            j = j + 1;
        }
        r.push(row);
        i = i + 1;
    }
    r
}

/// Solves the assignment problem on `cost` (rows no more than columns) by
/// the Hungarian method with potentials: a column for each row, at least
/// total cost. Returns, for each column, its row plus one, or zero. `None`
/// where a search runs longer than the method ever needs.
fn hungarian(cost: &Vec<Vec<i64>>, m: usize) -> (r: Option<Vec<usize>>)
    requires
        cost@.len() <= m,
        m < usize::MAX,
        forall|i: int| 0 <= i < cost@.len() ==> #[trigger] cost@[i]@.len() == m,
    ensures
        r is Some ==> r->0@.len() == m + 1,
{
    let n = cost.len();
    let inf: i64 = i64::MAX;
    let mut u: Vec<i64> = filled(n + 1, 0i64);
    let mut v: Vec<i64> = filled(m + 1, 0i64);
    let mut p: Vec<usize> = filled(m + 1, 0usize);
    let mut way: Vec<usize> = filled(m + 1, 0usize);
    let mut i: usize = 1;
    while i <= n
        invariant
            1 <= i <= n + 1,
            n == cost@.len(),
            n <= m,
            m < usize::MAX,
            forall|t: int| 0 <= t < cost@.len() ==> #[trigger] cost@[t]@.len() == m,
            u@.len() == n + 1,
            v@.len() == m + 1,
            p@.len() == m + 1,
            way@.len() == m + 1,
            forall|j: int| 0 <= j <= m ==> #[trigger] p@[j] <= n,
            forall|j: int| 0 <= j <= m ==> #[trigger] way@[j] <= m,
        decreases n + 1 - i,
    {
        p.set(0, i);
        let mut j0: usize = 0;
        let mut minv: Vec<i64> = filled(m + 1, inf);
        let mut used: Vec<bool> = filled(m + 1, false);
        let mut fuel: usize = m + 1;
        loop
            invariant_except_break
                1 <= p@[j0 as int] <= n,
            invariant
                1 <= i <= n,
                n == cost@.len(),
                n <= m,
                m < usize::MAX,
                forall|t: int| 0 <= t < cost@.len() ==> #[trigger] cost@[t]@.len() == m,
                u@.len() == n + 1,
                v@.len() == m + 1,
                p@.len() == m + 1,
                way@.len() == m + 1,
                minv@.len() == m + 1,
                used@.len() == m + 1,
                j0 <= m,
                forall|j: int| 0 <= j <= m ==> #[trigger] p@[j] <= n,
                forall|j: int| 0 <= j <= m ==> #[trigger] way@[j] <= m,
            decreases fuel,
        {
            if fuel == 0 {
                return None;
            }
            fuel = fuel - 1;
            used.set(j0, true);
            let i0 = p[j0];
            let mut delta: i64 = inf;
            let mut j1: usize = 0;
            let mut j: usize = 1;
            while j <= m
                invariant
                    1 <= j <= m + 1,
                    1 <= i0 <= n,
                    n == cost@.len(),
                    m < usize::MAX,
                    forall|t: int| 0 <= t < cost@.len() ==> #[trigger] cost@[t]@.len() == m,
                    u@.len() == n + 1,
                    v@.len() == m + 1,
                    way@.len() == m + 1,
                    minv@.len() == m + 1,
                    used@.len() == m + 1,
                    j0 <= m,
                    j1 <= m,
                    forall|k: int| 0 <= k <= m ==> #[trigger] way@[k] <= m,
                decreases m + 1 - j,
            {
                if !used[j] {
                    let cur = sub_sat(sub_sat(cost[i0 - 1][j - 1], u[i0]), v[j]);
                    if cur < minv[j] {
                        minv.set(j, cur);
                        way.set(j, j0);
                    }
                    if minv[j] < delta {
                        delta = minv[j];
                        j1 = j;
                    }
                }
                j = j + 1;
            }
            let mut j: usize = 0;
            while j <= m
                invariant
                    j <= m + 1,
                    m < usize::MAX,
                    u@.len() == n + 1,
                    v@.len() == m + 1,
                    p@.len() == m + 1,
                    minv@.len() == m + 1,
                    used@.len() == m + 1,
                    forall|k: int| 0 <= k <= m ==> #[trigger] p@[k] <= n,
                decreases m + 1 - j,
            {
                if used[j] {
                    let r = p[j];
                    let nu = add_sat(u[r], delta);
                    u.set(r, nu);
                    let nv = sub_sat(v[j], delta);
                    v.set(j, nv);
                } else {
                    let nm = sub_sat(minv[j], delta);
                    minv.set(j, nm);
                }
                j = j + 1;
            }
            j0 = j1;
            if p[j0] == 0 {
                break;
            }
        }
        // Augment along the alternating path back to the start.
        let mut fuel: usize = m + 1;
        loop
            invariant
                j0 <= m,
                m < usize::MAX,
                n <= m,
                p@.len() == m + 1,
                way@.len() == m + 1,
                forall|j: int| 0 <= j <= m ==> #[trigger] p@[j] <= n,
                forall|j: int| 0 <= j <= m ==> #[trigger] way@[j] <= m,
            decreases fuel,
        {
            if fuel == 0 {
                return None;
            }
            fuel = fuel - 1;
            let j1 = way[j0];
            let r = p[j1];
            p.set(j0, r);
            j0 = j1;
            if j0 == 0 {
                break;
            }
        }
        i = i + 1;
    }
    Some(p)
}

/// The columns given to the rows, and those left over.
pub struct Assignment {
    pub assigned: Vec<usize>,
    pub free: Vec<usize>,
}

/// Each of the `n` rows has its own column below `m`, and `free` holds the
/// other columns, each once.
pub open spec fn valid_assignment(a: Assignment, n: int, m: int) -> bool {
    &&& a.assigned@.len() == n
    &&& a.free@.len() == m - n
    &&& a.assigned@.no_duplicates()
    &&& a.free@.no_duplicates()
    &&& forall|k: int| 0 <= k < a.assigned@.len() ==> #[trigger] a.assigned@[k] < m
    &&& forall|k: int| 0 <= k < a.free@.len() ==> #[trigger] a.free@[k] < m
    &&& forall|x: usize| x < m ==> (#[trigger] a.free@.contains(x) <==> !a.assigned@.contains(x))
}

fn contains_index(v: &Vec<usize>, x: usize) -> (r: bool)
    ensures
        r == v@.contains(x),
{
    let mut k: usize = 0;
    while k < v.len()
        invariant
            k <= v@.len(),
            forall|t: int| 0 <= t < k ==> v@[t] != x,
        decreases v.len() - k,
    {
        if v[k] == x {
            return true;
        }
        k = k + 1;
    }
    false
}

/// Reads the assignment off the Hungarian method's column table, checking
/// that it gives each row its own column.
fn assignment_from_table(p: &Vec<usize>, n: usize, m: usize) -> (r: Option<Assignment>)
    requires
        p@.len() == m + 1,
        n <= m,
        m < usize::MAX,
    ensures
        r is Some ==> valid_assignment(r->0, n as int, m as int),
{
    let mut assigned: Vec<usize> = filled(n, m);
    let mut j: usize = 1;
    while j <= m
        invariant
            1 <= j <= m + 1,
            m < usize::MAX,
            p@.len() == m + 1,
            assigned@.len() == n,
            forall|r: int| 0 <= r < n ==> (#[trigger] assigned@[r] == m || assigned@[r] < j - 1),
            forall|a: int, b: int| 0 <= a < n && 0 <= b < n && a != b && assigned@[a] < m ==> #[trigger] assigned@[a] != #[trigger] assigned@[b],
        decreases m + 1 - j,
    {
        let r = p[j];
        if r != 0 {
            if r > n || assigned[r - 1] != m {
                return None;
            }
            let ghost before = assigned@;
            assigned.set(r - 1, j - 1);
            assert forall|a: int, b: int| 0 <= a < n && 0 <= b < n && a != b && assigned@[a] < m implies #[trigger] assigned@[a] != #[trigger] assigned@[b] by {
                if a == r - 1 {
                    assert(assigned@[b] == before[b]);
                } else if b == r - 1 {
                    assert(assigned@[a] == before[a]);
                } else {
                    assert(assigned@[a] == before[a] && assigned@[b] == before[b]);
                }
            }
        }
        j = j + 1;
    }
    let mut k: usize = 0;
    while k < n
        invariant
            k <= n,
            assigned@.len() == n,
            forall|t: int| 0 <= t < k ==> #[trigger] assigned@[t] < m,
        decreases n - k,
    {
        if assigned[k] >= m {
            return None;
        }
        k = k + 1;
    }
    let mut free: Vec<usize> = Vec::new();
    let mut c: usize = 0;
    while c < m
        invariant
            c <= m,
            free@.no_duplicates(),
            forall|t: int| 0 <= t < free@.len() ==> #[trigger] free@[t] < c,
            forall|x: usize| x < c ==> (#[trigger] free@.contains(x) <==> !assigned@.contains(x)),
        decreases m - c,
    {
        let ghost before = free@;
        if !contains_index(&assigned, c) {
            free.push(c);
            assert forall|a: int, b: int| 0 <= a < free@.len() && 0 <= b < free@.len() && a != b implies free@[a] != free@[b] by {
                if a < before.len() && b < before.len() {
                } else if a < before.len() {
                    assert(free@[a] < c);
                } else {
                    assert(free@[b] < c);
                }
            }
        }
        assert forall|x: usize| x < c + 1 implies (#[trigger] free@.contains(x) <==> !assigned@.contains(x)) by {
            if x < c {
                if free@.contains(x) && !before.contains(x) {
                    let t = choose|t: int| 0 <= t < free@.len() && free@[t] == x;
                    assert(t == before.len());
                }
                if before.contains(x) {
                    let t = choose|t: int| 0 <= t < before.len() && before[t] == x;
                    assert(free@[t] == x);
                }
            } else {
                if free@.contains(x) && free@ == before {
                    let t = choose|t: int| 0 <= t < free@.len() && free@[t] == x;
                    assert(free@[t] < c);
                }
                if free@ != before {
                    assert(free@[before.len() as int] == x);
                }
            }
        }
        c = c + 1;
    }
    if free.len() != m - n {
        return None;
    }
    assert forall|a: int, b: int| 0 <= a < assigned@.len() && 0 <= b < assigned@.len() && a != b implies assigned@[a] != assigned@[b] by {
        assert(assigned@[a] < m);
    }
    Some(Assignment { assigned, free })
}

/// An assignment of least total distance, by the Hungarian method, where
/// its result checks out.
fn optimal_assignment(rows: &Vec<Vec<VersionComponent>>, cols: &Vec<Vec<VersionComponent>>) -> (r:
    Option<Assignment>)
    requires
        rows@.len() <= cols@.len(),
    ensures
        r is Some ==> valid_assignment(r->0, rows@.len() as int, cols@.len() as int),
{
    let m = cols.len();
    if m == usize::MAX {
        return None;
    }
    let cost = cost_matrix(rows, cols);
    match hungarian(&cost, m) {
        Some(p) => assignment_from_table(&p, rows.len(), m),
        None => None,
    }
}

/// The pairing where the old list is not longer than the new one.
fn pair_rows(rows: &Vec<Version>, cols: &Vec<Version>) -> (r: Vec<Pairing>)
    requires
        rows@.len() <= cols@.len(),
    ensures
        complete_pairing(r@, rows@.len() as int, cols@.len() as int),
        r@.len() == cols@.len(),
        forall|k: int| 0 <= k < rows@.len() ==> (#[trigger] r@[k] is Both && left_of(r@[k]) == Some(k)),
        forall|k: int| rows@.len() <= k < r@.len() ==> #[trigger] r@[k] is Right,
        forall|k: int|
            rows@.len() <= k < r@.len() - 1 ==> lex_cmp(
                cols@[right_of(#[trigger] r@[k])->0]@.text,
                cols@[right_of(r@[k + 1])->0]@.text,
            ) <= 0,
{
    let a = component_lists(rows);
    let b = component_lists(cols);
    let (assigned, free) = match optimal_assignment(&a, &b) {
        Some(x) => (x.assigned, x.free),
        None => assign_columns(&a, &b),
    };
    let rest = sort_by_text(free, cols);
    let n = rows.len();
    let mut out: Vec<Pairing> = Vec::new();
    let mut i: usize = 0;
    while i < n
        invariant
            i <= n,
            n == rows@.len(),
            assigned@.len() == n,
            out@.len() == i,
            forall|k: int| 0 <= k < i ==> #[trigger] out@[k] == Pairing::Both(k as usize, assigned@[k]),
        decreases n - i,
    {
        out.push(Pairing::Both(i, assigned[i]));
        i = i + 1;
    }
    let mut k: usize = 0;
    while k < rest.len()
        invariant
            k <= rest@.len(),
            n == rows@.len(),
            assigned@.len() == n,
            out@.len() == n + k,
            forall|t: int| 0 <= t < n ==> #[trigger] out@[t] == Pairing::Both(t as usize, assigned@[t]),
            forall|t: int| 0 <= t < k ==> #[trigger] out@[n + t] == Pairing::Right(rest@[t]),
        decreases rest.len() - k,
    {
        out.push(Pairing::Right(rest[k]));
        k = k + 1;
    }
    let mlen = cols.len();
    let ghost m = mlen as int;
    proof {
        let o = out@;
        assert forall|t: int| n <= t < o.len() implies #[trigger] o[t] == Pairing::Right(rest@[t - n]) by {
            assert(o[n + (t - n)] == Pairing::Right(rest@[t - n]));
        }
        assert forall|t: int| 0 <= t < o.len() && #[trigger] left_of(o[t]) is Some implies 0 <= left_of(o[t])->0 < n by {}
        assert forall|t1: int, t2: int| 0 <= t1 < o.len() && 0 <= t2 < o.len() && t1 != t2 && #[trigger] left_of(o[t1]) is Some implies left_of(o[t1]) != #[trigger] left_of(o[t2]) by {}
        assert forall|x: int| 0 <= x < n implies #[trigger] has_left(o, x) by {
            assert(left_of(o[x]) == Some(x));
        }
        assert forall|t: int| 0 <= t < o.len() && #[trigger] right_of(o[t]) is Some implies 0 <= right_of(o[t])->0 < m by {
            if t >= n {
                assert(rest@[t - n] < m);
            }
        }
        assert forall|t1: int, t2: int| 0 <= t1 < o.len() && 0 <= t2 < o.len() && t1 != t2 && #[trigger] right_of(o[t1]) is Some implies right_of(o[t1]) != #[trigger] right_of(o[t2]) by {
            if t1 < n && t2 >= n {
                assert(rest@.contains(rest@[t2 - n]));
                assert(assigned@.contains(assigned@[t1]));
            } else if t1 >= n && t2 < n {
                assert(rest@.contains(rest@[t1 - n]));
                assert(assigned@.contains(assigned@[t2]));
            }
        }
        assert forall|x: int| 0 <= x < m implies #[trigger] has_right(o, x) by {
            if assigned@.contains(x as usize) {
                let a = choose|a: int| 0 <= a < assigned@.len() && assigned@[a] == x as usize;
                assert(o[a] == Pairing::Both(a as usize, assigned@[a]));
                assert(assigned@[a] as int == x);
                assert(right_of(o[a]) == Some(x));
            } else {
                assert(rest@.contains(x as usize));
                let a = choose|a: int| 0 <= a < rest@.len() && rest@[a] == x as usize;
                assert(o[n + a] == Pairing::Right(rest@[a]));
                assert(rest@[a] as int == x);
                assert(right_of(o[n + a]) == Some(x));
            }
        }
        assert forall|t: int| n <= t < o.len() - 1 implies lex_cmp(
                cols@[right_of(#[trigger] o[t])->0]@.text,
                cols@[right_of(o[t + 1])->0]@.text,
            ) <= 0 by {
            assert(rest@[t - n + 1] == rest@[(t - n) + 1]);
        }
    }
    out
}


/// Pairs the versions on the old side with those on the new side. Each
/// element of the shorter list, in order, is matched to its own element of
/// the longer list, so that the total component edit distance is least (by
/// the Hungarian method); the elements of the longer list that are left
/// follow, ordered by their text.
pub fn match_version_lists(from: &Vec<Version>, to: &Vec<Version>) -> (r: Vec<Pairing>)
    ensures
        pairing_shape(r@, version_views(from@), version_views(to@)),
{
    proof {
        assert forall|j: int| 0 <= j < to@.len() implies #[trigger] version_views(to@)[j] == to@[j]@ by {}
        assert forall|j: int| 0 <= j < from@.len() implies #[trigger] version_views(from@)[j] == from@[j]@ by {}
    }
    if from.len() <= to.len() {
        let r = pair_rows(from, to);
        proof {
            let tv = version_views(to@);
            assert forall|k: int| from@.len() <= k < r@.len() - 1 implies lex_cmp(
                tv[right_of(#[trigger] r@[k])->0].text,
                tv[right_of(r@[k + 1])->0].text,
            ) <= 0 by {
                assert(lex_cmp(to@[right_of(r@[k])->0]@.text, to@[right_of(r@[k + 1])->0]@.text) <= 0);
                assert(0 <= right_of(r@[k])->0 < to@.len());
                assert(0 <= right_of(r@[k + 1])->0 < to@.len());
            }
        }
        r
    } else {
        let ps = pair_rows(to, from);
        let ghost before = ps@;
        let r = flip_all(ps);
        proof {
            lemma_flip_complete(before, r@, to@.len() as int, from@.len() as int);
            assert forall|k: int| 0 <= k < to@.len() implies (#[trigger] r@[k] is Both && right_of(r@[k]) == Some(k)) by {
                assert(r@[k] == flipped(before[k]));
            }
            assert forall|k: int| to@.len() <= k < r@.len() implies #[trigger] r@[k] is Left by {
                assert(r@[k] == flipped(before[k]));
            }
            let fv = version_views(from@);
            assert forall|k: int| to@.len() <= k < r@.len() - 1 implies lex_cmp(
                fv[left_of(#[trigger] r@[k])->0].text,
                fv[left_of(r@[k + 1])->0].text,
            ) <= 0 by {
                assert(r@[k] == flipped(before[k]));
                assert(r@[k + 1] == flipped(before[k + 1]));
                assert(lex_cmp(from@[right_of(before[k])->0]@.text, from@[right_of(before[k + 1])->0]@.text) <= 0);
                assert(0 <= right_of(before[k])->0 < from@.len());
                assert(0 <= right_of(before[k + 1])->0 < from@.len());
            }
        }
        r
    }
}

/// The shape of the pairings that `match_version_lists` gives: each old
/// and new version once; each element of the shorter list, in order, in a
/// pair; after the pairs, the rest of the longer list ordered by text.
pub open spec fn pairing_shape(ps: Seq<Pairing>, from: Seq<VersionView>, to: Seq<VersionView>) -> bool {
    &&& complete_pairing(ps, from.len() as int, to.len() as int)
    &&& from.len() <= to.len() ==> {
        &&& ps.len() == to.len()
        &&& forall|k: int| 0 <= k < from.len() ==> (#[trigger] ps[k] is Both && left_of(ps[k]) == Some(k))
        &&& forall|k: int| from.len() <= k < ps.len() ==> #[trigger] ps[k] is Right
        &&& forall|k: int| from.len() <= k < ps.len() - 1 ==> lex_cmp(
            to[right_of(#[trigger] ps[k])->0].text,
            to[right_of(ps[k + 1])->0].text,
        ) <= 0
    }
    &&& from.len() > to.len() ==> {
        &&& ps.len() == from.len()
        &&& forall|k: int| 0 <= k < to.len() ==> (#[trigger] ps[k] is Both && right_of(ps[k]) == Some(k))
        &&& forall|k: int| to.len() <= k < ps.len() ==> #[trigger] ps[k] is Left
        &&& forall|k: int| to.len() <= k < ps.len() - 1 ==> lex_cmp(
            from[left_of(#[trigger] ps[k])->0].text,
            from[left_of(ps[k + 1])->0].text,
        ) <= 0
    }
}

} // verus!
