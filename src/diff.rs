//! Building the per-package difference records.
use vstd::prelude::*;

use std::cmp::Ordering;

use crate::pairing::{complete_pairing, match_version_lists, pairing_shape, Pairing};
use crate::version::{
    components_of, lemma_components_antisymmetric, lemma_lex_antisymmetric, lex_cmp, text_after,
    version_cmp, Version, VersionView,
};

verus! {

/// The order used to sort the versions of one package: the version order,
/// and the text on a tie, so that only equal texts compare equal.
pub open spec fn key_cmp(a: Seq<char>, b: Seq<char>) -> int {
    if version_cmp(a, b) != 0 {
        version_cmp(a, b)
    } else {
        lex_cmp(a, b)
    }
}

/// Whether `a` sorts after `b`.
pub fn sorts_after(a: &Version, b: &Version) -> (r: bool)
    ensures
        r == (key_cmp(a@.text, b@.text) > 0),
{
    match a.compare(b) {
        Ordering::Greater => true,
        Ordering::Less => false,
        Ordering::Equal => text_after(a.name.as_str(), b.name.as_str()),
    }
}

pub open spec fn version_views(vs: Seq<Version>) -> Seq<VersionView> {
    vs.map_values(|v: Version| v@)
}

/// How many times the text `t` occurs in `vs`, multiplicities counted.
pub open spec fn text_count(vs: Seq<VersionView>, t: Seq<char>) -> nat
    decreases vs.len(),
{
    if vs.len() == 0 {
        0
    } else {
        text_count(vs.drop_last(), t) + if vs.last().text == t {
            vs.last().multiplicity
        } else {
            0
        }
    }
}

/// The sum of the multiplicities.
pub open spec fn total_count(vs: Seq<VersionView>) -> nat
    decreases vs.len(),
{
    if vs.len() == 0 {
        0
    } else {
        total_count(vs.drop_last()) + vs.last().multiplicity
    }
}

/// No text occurs twice.
pub open spec fn distinct_texts(vs: Seq<VersionView>) -> bool {
    forall|a: int, b: int| 0 <= a < vs.len() && 0 <= b < vs.len() && a != b ==> #[trigger] vs[a].text != #[trigger] vs[b].text
}

/// Each text sorts strictly before the next.
pub open spec fn strictly_sorted(vs: Seq<VersionView>) -> bool {
    forall|k: int| 0 <= k < vs.len() - 1 ==> key_cmp(#[trigger] vs[k].text, vs[k + 1].text) < 0
}

pub open spec fn positive_counts(vs: Seq<VersionView>) -> bool {
    forall|k: int| 0 <= k < vs.len() ==> #[trigger] vs[k].multiplicity >= 1
}

/// Deduplicated: each text once, in sorted order, with positive counts.
pub open spec fn deduplicated(vs: Seq<VersionView>) -> bool {
    distinct_texts(vs) && strictly_sorted(vs) && positive_counts(vs)
}

pub open spec fn entry_count(e: VersionView, t: Seq<char>) -> nat {
    if e.text == t {
        e.multiplicity
    } else {
        0
    }
}

proof fn lemma_count_update(s: Seq<VersionView>, j: int, e: VersionView, t: Seq<char>)
    requires
        0 <= j < s.len(),
    ensures
        text_count(s.update(j, e), t) + entry_count(s[j], t) == text_count(s, t) + entry_count(e, t),
        total_count(s.update(j, e)) + s[j].multiplicity == total_count(s) + e.multiplicity,
    decreases s.len(),
{
    if j < s.len() - 1 {
        assert(s.update(j, e).drop_last() =~= s.drop_last().update(j, e));
        lemma_count_update(s.drop_last(), j, e, t);
    } else {
        assert(s.update(j, e).drop_last() =~= s.drop_last());
    }
}

proof fn lemma_count_insert(s: Seq<VersionView>, p: int, e: VersionView, t: Seq<char>)
    requires
        0 <= p <= s.len(),
    ensures
        text_count(s.insert(p, e), t) == text_count(s, t) + entry_count(e, t),
        total_count(s.insert(p, e)) == total_count(s) + e.multiplicity,
    decreases s.len(),
{
    if p < s.len() {
        assert(s.insert(p, e).drop_last() =~= s.drop_last().insert(p, e));
        lemma_count_insert(s.drop_last(), p, e, t);
    } else {
        assert(s.insert(p, e).drop_last() =~= s);
    }
}

proof fn lemma_count_absent(s: Seq<VersionView>, t: Seq<char>)
    requires
        forall|k: int| 0 <= k < s.len() ==> #[trigger] s[k].text != t,
    ensures
        text_count(s, t) == 0,
    decreases s.len(),
{
    if s.len() > 0 {
        lemma_count_absent(s.drop_last(), t);
    }
}

proof fn lemma_entry_below_total(s: Seq<VersionView>, j: int)
    requires
        0 <= j < s.len(),
    ensures
        s[j].multiplicity <= total_count(s),
    decreases s.len(),
{
    if j < s.len() - 1 {
        lemma_entry_below_total(s.drop_last(), j);
    }
}

proof fn lemma_total_prefix(s: Seq<VersionView>, i: int)
    requires
        0 <= i <= s.len(),
    ensures
        total_count(s.take(i)) <= total_count(s),
    decreases s.len(),
{
    if i < s.len() {
        assert(s.drop_last().take(i) =~= s.take(i));
        lemma_total_prefix(s.drop_last(), i);
    } else {
        assert(s.take(i) =~= s);
    }
}


/// Swapping the arguments negates the sort order, and only equal texts sort
/// level.
pub proof fn lemma_key_antisymmetric(a: Seq<char>, b: Seq<char>)
    ensures
        key_cmp(a, b) == -key_cmp(b, a),
        key_cmp(a, b) == 0 <==> a == b,
{
    lemma_components_antisymmetric(components_of(a), components_of(b));
    lemma_lex_antisymmetric(a, b);
    if a == b {
        lemma_components_antisymmetric(components_of(a), components_of(a));
    }
}

#[verifier::rlimit(40)]
proof fn lemma_insert_fresh(vo: Seq<VersionView>, p: int, v: VersionView)
    requires
        0 <= p <= vo.len(),
        distinct_texts(vo),
        strictly_sorted(vo),
        forall|k: int| 0 <= k < vo.len() ==> #[trigger] vo[k].text != v.text,
        p > 0 ==> key_cmp(vo[p - 1].text, v.text) <= 0,
        forall|k: int| p <= k < vo.len() ==> key_cmp(#[trigger] vo[k].text, v.text) > 0,
    ensures
        distinct_texts(vo.insert(p, v)),
        strictly_sorted(vo.insert(p, v)),
        positive_counts(vo) && v.multiplicity >= 1 ==> positive_counts(vo.insert(p, v)),
{
    let no = vo.insert(p, v);
    assert forall|a: int, b: int| 0 <= a < no.len() && 0 <= b < no.len() && a != b implies #[trigger] no[a].text != #[trigger] no[b].text by {
        let pa = if a < p { a } else { a - 1 };
        let pb = if b < p { b } else { b - 1 };
        if a != p && b != p {
            assert(no[a] == vo[pa]);
            assert(no[b] == vo[pb]);
        } else if a == p {
            assert(no[b] == vo[pb]);
        } else {
            assert(no[a] == vo[pa]);
        }
    }
    assert forall|k: int| 0 <= k < no.len() - 1 implies key_cmp(#[trigger] no[k].text, no[k + 1].text) < 0 by {
        if k + 1 < p {
            assert(no[k] == vo[k]);
            assert(no[k + 1] == vo[k + 1]);
        } else if k + 1 == p {
            assert(no[k] == vo[k]);
            lemma_key_antisymmetric(vo[k].text, v.text);
        } else if k == p {
            assert(no[k + 1] == vo[k]);
            lemma_key_antisymmetric(vo[k].text, v.text);
        } else {
            assert(no[k] == vo[k - 1]);
            assert(no[k + 1] == vo[k]);
        }
    }
    if positive_counts(vo) && v.multiplicity >= 1 {
        assert forall|k: int| 0 <= k < no.len() implies #[trigger] no[k].multiplicity >= 1 by {
            if k < p {
                assert(no[k] == vo[k]);
            } else if k > p {
                assert(no[k] == vo[k - 1]);
            }
        }
    }
}

/// Adds `v` to a deduplicated list: to the entry with its text, or as a new
/// entry at its place in the order.
fn merge_version(out: &mut Vec<Version>, v: Version)
    requires
        distinct_texts(version_views(old(out)@)),
        strictly_sorted(version_views(old(out)@)),
        total_count(version_views(old(out)@)) + v@.multiplicity <= usize::MAX,
    ensures
        distinct_texts(version_views(final(out)@)),
        strictly_sorted(version_views(final(out)@)),
        forall|t: Seq<char>|
            #[trigger] text_count(version_views(final(out)@), t) == text_count(
                version_views(old(out)@),
                t,
            ) + entry_count(v@, t),
        total_count(version_views(final(out)@)) == total_count(version_views(old(out)@))
            + v@.multiplicity,
        positive_counts(version_views(old(out)@)) && v@.multiplicity >= 1 ==> positive_counts(
            version_views(final(out)@),
        ),
        (forall|k: int| 0 <= k < old(out)@.len() ==> #[trigger] old(out)@[k]@.text != v@.text) && (
        old(out)@.len() == 0 || key_cmp(version_views(old(out)@).last().text, v@.text) < 0)
            ==> version_views(final(out)@) == version_views(old(out)@).push(v@),
{
    let ghost vo = version_views(out@);
    let mut j: usize = 0;
    let mut found = false;
    while j < out.len() && !found
        invariant
            vo == version_views(out@),
            j <= out@.len(),
            found ==> j < out@.len() && out@[j as int]@.text == v@.text,
            forall|k: int| 0 <= k < j ==> #[trigger] vo[k].text != v@.text,
        decreases out.len() - j + if found {
            0int
        } else {
            1int
        },
    {
        if out[j].name == v.name {
            found = true;
        } else {
            j = j + 1;
        }
    }
    if found {
        proof {
            lemma_entry_below_total(vo, j as int);
        }
        let e = out.remove(j);
        let m = e.multiplicity + v.multiplicity;
        out.insert(j, Version { name: e.name, multiplicity: m });
        proof {
            let ne = VersionView { text: v@.text, multiplicity: m as nat };
            assert(version_views(out@) =~= vo.update(j as int, ne));
            assert forall|t: Seq<char>| #[trigger] text_count(version_views(out@), t) == text_count(vo, t) + entry_count(v@, t) by {
                lemma_count_update(vo, j as int, ne, t);
            }
            lemma_count_update(vo, j as int, ne, Seq::empty());
            assert forall|a: int, b: int| 0 <= a < vo.len() && 0 <= b < vo.len() && a != b implies #[trigger] version_views(out@)[a].text != #[trigger] version_views(out@)[b].text by {
                assert(version_views(out@)[a].text == vo[a].text);
                assert(version_views(out@)[b].text == vo[b].text);
            }
            assert forall|k: int| 0 <= k < vo.len() - 1 implies key_cmp(#[trigger] version_views(out@)[k].text, version_views(out@)[k + 1].text) < 0 by {
                assert(version_views(out@)[k].text == vo[k].text);
                assert(version_views(out@)[k + 1].text == vo[k + 1].text);
            }
            if positive_counts(vo) && v@.multiplicity >= 1 {
                assert forall|k: int| 0 <= k < vo.len() implies #[trigger] version_views(out@)[k].multiplicity >= 1 by {
                    if k != j {
                        assert(version_views(out@)[k] == vo[k]);
                    }
                }
            }
        }
    } else {
        let mut p: usize = out.len();
        while p > 0 && sorts_after(&out[p - 1], &v)
            invariant
                vo == version_views(out@),
                p <= out@.len(),
                forall|k: int| p <= k < out@.len() ==> key_cmp(#[trigger] vo[k].text, v@.text) > 0,
            decreases p,
        {
            p = p - 1;
        }
        proof {
            if out@.len() > 0 && key_cmp(vo.last().text, v@.text) < 0 {
                lemma_key_antisymmetric(vo.last().text, v@.text);
            }
        }
        let ghost pp = p;
        out.insert(p, v);
        proof {
            assert(version_views(out@) =~= vo.insert(pp as int, v@));
            lemma_insert_fresh(vo, pp as int, v@);
            assert forall|t: Seq<char>| #[trigger] text_count(version_views(out@), t) == text_count(vo, t) + entry_count(v@, t) by {
                lemma_count_insert(vo, pp as int, v@, t);
            }
            lemma_count_insert(vo, pp as int, v@, Seq::empty());
            if pp == vo.len() {
                assert(vo.insert(pp as int, v@) =~= vo.push(v@));
            }
        }
    }
}

/// `after` is what deduplicating `before` may give: each text once, in
/// sorted order, with the counts of `before`; and `before` itself when it is
/// already so.
pub open spec fn deduplicates(before: Seq<VersionView>, after: Seq<VersionView>) -> bool {
    &&& distinct_texts(after)
    &&& strictly_sorted(after)
    &&& positive_counts(before) ==> positive_counts(after)
    &&& forall|t: Seq<char>| #[trigger] text_count(after, t) == text_count(before, t)
    &&& distinct_texts(before) && strictly_sorted(before) ==> after == before
}

/// Deduplicating twice gives what deduplicating once gave.
pub proof fn lemma_deduplicate_twice(
    versions: Seq<VersionView>,
    once: Seq<VersionView>,
    twice: Seq<VersionView>,
)
    requires
        deduplicates(versions, once),
        deduplicates(once, twice),
    ensures
        twice == once,
{
}

/// Sorts the versions and merges those with equal texts into one, whose
/// multiplicity is the sum of theirs. A list that is already deduplicated
/// is left as it is.
pub fn deduplicate_versions(versions: &mut Vec<Version>)
    requires
        total_count(version_views(old(versions)@)) <= usize::MAX,
    ensures
        deduplicates(version_views(old(versions)@), version_views(final(versions)@)),
{
    let ghost vin = version_views(versions@);
    let ghost already = distinct_texts(vin) && strictly_sorted(vin);
    let mut out: Vec<Version> = Vec::new();
    let mut i: usize = 0;
    while i < versions.len()
        invariant
            vin == version_views(versions@),
            total_count(vin) <= usize::MAX,
            already == (distinct_texts(vin) && strictly_sorted(vin)),
            i <= versions@.len(),
            distinct_texts(version_views(out@)),
            strictly_sorted(version_views(out@)),
            forall|t: Seq<char>|
                #[trigger] text_count(version_views(out@), t) == text_count(vin.take(i as int), t),
            total_count(version_views(out@)) == total_count(vin.take(i as int)),
            positive_counts(vin) ==> positive_counts(version_views(out@)),
            already ==> version_views(out@) == vin.take(i as int),
        decreases versions.len() - i,
    {
        let v = versions[i].clone();
        proof {
            assert(vin.take(i + 1).drop_last() =~= vin.take(i as int));
            assert(vin.take(i + 1).last() == v@);
            lemma_total_prefix(vin, i + 1);
            if already {
                if i > 0 {
                    assert(version_views(out@).last() == vin[i - 1]);
                    assert(key_cmp(vin[i - 1].text, vin[i as int].text) < 0);
                }
                assert forall|k: int| 0 <= k < out@.len() implies #[trigger] out@[k]@.text != v@.text by {
                    assert(out@[k]@ == version_views(out@)[k]);
                    assert(version_views(out@)[k] == vin[k]);
                }
            }
        }
        merge_version(&mut out, v);
        proof {
            if already {
                assert(version_views(out@) =~= vin.take(i + 1));
            }
        }
        i = i + 1;
    }
    assert(vin.take(versions@.len() as int) =~= vin);
    *versions = out;
}


// ---------------------------------------------------------------------------
// Classifying the versions of one package
// ---------------------------------------------------------------------------

/// How the versions of a package that is on both sides changed.
#[derive(PartialEq, Eq, Structural, Debug, Clone, Copy)]
pub enum Change {
    UpgradeDowngrade,
    Upgraded,
    Downgraded,
}

/// What happened to a package.
#[derive(PartialEq, Eq, Structural, Debug, Clone, Copy)]
pub enum DiffStatus {
    Changed(Change),
    Added,
    Removed,
}

impl DiffStatus {
    /// The place of the status's section: changed, then added, then removed.
    pub open spec fn rank(self) -> int {
        match self {
            DiffStatus::Changed(_) => 0,
            DiffStatus::Added => 1,
            DiffStatus::Removed => 2,
        }
    }

    pub fn section(&self) -> (r: u8)
        ensures
            r as int == self.rank(),
    {
        match self {
            DiffStatus::Changed(_) => 0,
            DiffStatus::Added => 1,
            DiffStatus::Removed => 2,
        }
    }
}

/// An old and a new value of something.
pub struct Diff<T> {
    pub old: T,
    pub new: T,
}

/// How many more times `t` occurs in `a` than in `b`.
pub open spec fn excess(a: Seq<VersionView>, b: Seq<VersionView>, t: Seq<char>) -> nat {
    if text_count(a, t) > text_count(b, t) {
        (text_count(a, t) - text_count(b, t)) as nat
    } else {
        0
    }
}

/// No text occurs more often in `a` than in `b`.
pub open spec fn no_excess(a: Seq<VersionView>, b: Seq<VersionView>) -> bool {
    forall|t: Seq<char>| #[trigger] text_count(a, t) <= text_count(b, t)
}

/// Some text occurs on both sides.
pub open spec fn shares_text(a: Seq<VersionView>, b: Seq<VersionView>) -> bool {
    exists|t: Seq<char>| #[trigger] text_count(a, t) > 0 && text_count(b, t) > 0
}

/// The status where it follows from the counts alone: none when nothing
/// differs; added or removed when no version is shared and one side has
/// nothing of its own; changed both ways when only one side has versions of
/// its own.
pub open spec fn plain_status(a: Seq<VersionView>, b: Seq<VersionView>) -> Option<DiffStatus> {
    if no_excess(a, b) && no_excess(b, a) {
        None
    } else if !shares_text(a, b) && no_excess(a, b) {
        Some(DiffStatus::Added)
    } else if !shares_text(a, b) && no_excess(b, a) {
        Some(DiffStatus::Removed)
    } else {
        Some(DiffStatus::Changed(Change::UpgradeDowngrade))
    }
}

/// Whether a pairing shows an upgrade and whether it shows a downgrade: an
/// old version alone is a downgrade, a new one alone an upgrade, and a pair
/// goes by the version order.
pub open spec fn signals(ps: Seq<Pairing>, old: Seq<VersionView>, new: Seq<VersionView>) -> (
    bool,
    bool,
)
    decreases ps.len(),
{
    if ps.len() == 0 {
        (false, false)
    } else {
        let (up, down) = signals(ps.drop_last(), old, new);
        match ps.last() {
            Pairing::Left(_) => (up, true),
            Pairing::Right(_) => (true, down),
            Pairing::Both(i, j) => {
                let c = version_cmp(old[i as int].text, new[j as int].text);
                if c < 0 {
                    (true, down)
                } else if c > 0 {
                    (up, true)
                } else {
                    (up, down)
                }
            },
        }
    }
}

pub open spec fn change_of(s: (bool, bool)) -> Option<DiffStatus> {
    match s {
        (true, true) => Some(DiffStatus::Changed(Change::UpgradeDowngrade)),
        (true, false) => Some(DiffStatus::Changed(Change::Upgraded)),
        (false, true) => Some(DiffStatus::Changed(Change::Downgraded)),
        (false, false) => None,
    }
}

/// The indices of a pairing fall inside the two lists.
pub open spec fn pairing_in_range(ps: Seq<Pairing>, n: int, m: int) -> bool {
    forall|k: int|
        0 <= k < ps.len() ==> match #[trigger] ps[k] {
            Pairing::Left(i) => i < n,
            Pairing::Right(j) => j < m,
            Pairing::Both(i, j) => i < n && j < m,
        }
}

/// The status that a pairing of the old and new versions shows.
pub fn status_from_pairing(ps: &Vec<Pairing>, old: &Vec<Version>, new: &Vec<Version>) -> (r:
    Option<DiffStatus>)
    requires
        pairing_in_range(ps@, old@.len() as int, new@.len() as int),
    ensures
        r == change_of(signals(ps@, version_views(old@), version_views(new@))),
{
    let ghost ov = version_views(old@);
    let ghost nv = version_views(new@);
    let mut up = false;
    let mut down = false;
    let mut k: usize = 0;
    while k < ps.len()
        invariant
            k <= ps@.len(),
            ov == version_views(old@),
            nv == version_views(new@),
            pairing_in_range(ps@, old@.len() as int, new@.len() as int),
            (up, down) == signals(ps@.take(k as int), ov, nv),
        decreases ps.len() - k,
    {
        assert(ps@.take(k + 1).drop_last() =~= ps@.take(k as int));
        assert(ps@.take(k + 1).last() == ps@[k as int]);
        match ps[k] {
            Pairing::Left(_) => {
                down = true;
            },
            Pairing::Right(_) => {
                up = true;
            },
            Pairing::Both(i, j) => {
                match old[i].compare(&new[j]) {
                    Ordering::Less => {
                        up = true;
                    },
                    Ordering::Greater => {
                        down = true;
                    },
                    Ordering::Equal => {},
                }
            },
        }
        k = k + 1;
    }
    assert(ps@.take(ps@.len() as int) =~= ps@);
    if up && down {
        Some(DiffStatus::Changed(Change::UpgradeDowngrade))
    } else if up {
        Some(DiffStatus::Changed(Change::Upgraded))
    } else if down {
        Some(DiffStatus::Changed(Change::Downgraded))
    } else {
        None
    }
}

proof fn lemma_count_at_least(s: Seq<VersionView>, k: int)
    requires
        0 <= k < s.len(),
    ensures
        text_count(s, s[k].text) >= s[k].multiplicity,
    decreases s.len(),
{
    if k < s.len() - 1 {
        lemma_count_at_least(s.drop_last(), k);
    }
}

/// An entry with a positive count makes its text occur.
pub proof fn lemma_positive_count(s: Seq<VersionView>, k: int)
    requires
        0 <= k < s.len(),
        positive_counts(s),
    ensures
        text_count(s, s[k].text) > 0,
{
    lemma_count_at_least(s, k);
}

proof fn lemma_count_distinct(s: Seq<VersionView>, k: int)
    requires
        0 <= k < s.len(),
        distinct_texts(s),
    ensures
        text_count(s, s[k].text) == s[k].multiplicity,
    decreases s.len(),
{
    if k < s.len() - 1 {
        assert(s.last().text != s[k].text);
        assert forall|a: int, b: int| 0 <= a < s.drop_last().len() && 0 <= b < s.drop_last().len() && a != b implies #[trigger] s.drop_last()[a].text != #[trigger] s.drop_last()[b].text by {
            assert(s[a] == s.drop_last()[a]);
            assert(s[b] == s.drop_last()[b]);
        }
        lemma_count_distinct(s.drop_last(), k);
    } else {
        assert forall|i: int| 0 <= i < s.drop_last().len() implies #[trigger] s.drop_last()[i].text != s[k].text by {
            assert(s[i] == s.drop_last()[i]);
        }
        lemma_count_absent(s.drop_last(), s[k].text);
    }
}

/// How many times `t` occurs in the deduplicated list `b`.
fn count_text(b: &Vec<Version>, t: &String) -> (c: usize)
    requires
        distinct_texts(version_views(b@)),
    ensures
        c == text_count(version_views(b@), t@),
{
    let ghost bv = version_views(b@);
    let mut j: usize = 0;
    while j < b.len()
        invariant
            bv == version_views(b@),
            distinct_texts(bv),
            j <= b@.len(),
            forall|k: int| 0 <= k < j ==> #[trigger] bv[k].text != t@,
        decreases b.len() - j,
    {
        if b[j].name == *t {
            proof {
                lemma_count_distinct(bv, j as int);
            }
            return b[j].multiplicity;
        }
        j = j + 1;
    }
    proof {
        lemma_count_absent(bv, t@);
    }
    0
}

/// The versions of `a` that `b` does not account for, each with the number
/// of times it is left over, and whether the two share a version.
fn subtract(a: &Vec<Version>, b: &Vec<Version>) -> (r: (Vec<Version>, bool))
    requires
        distinct_texts(version_views(a@)),
        distinct_texts(version_views(b@)),
        positive_counts(version_views(a@)),
    ensures
        distinct_texts(version_views(r.0@)),
        positive_counts(version_views(r.0@)),
        forall|t: Seq<char>|
            #[trigger] text_count(version_views(r.0@), t) == excess(
                version_views(a@),
                version_views(b@),
                t,
            ),
        r.1 == shares_text(version_views(a@), version_views(b@)),
{
    let ghost av = version_views(a@);
    let ghost bv = version_views(b@);
    let mut out: Vec<Version> = Vec::new();
    let mut shared = false;
    let mut i: usize = 0;
    while i < a.len()
        invariant
            av == version_views(a@),
            bv == version_views(b@),
            distinct_texts(av),
            distinct_texts(bv),
            positive_counts(av),
            i <= a@.len(),
            distinct_texts(version_views(out@)),
            positive_counts(version_views(out@)),
            forall|t: Seq<char>|
                #[trigger] text_count(version_views(out@), t) == excess(av.take(i as int), bv, t),
            shared == shares_text(av.take(i as int), bv),
        decreases a.len() - i,
    {
        let e = &a[i];
        let c = count_text(b, &e.name);
        let ghost pre = av.take(i as int);
        let ghost post = av.take(i + 1);
        let ghost ov = version_views(out@);
        proof {
            assert(post.drop_last() =~= pre);
            assert(post.last() == e@);
            assert forall|k: int| 0 <= k < pre.len() implies #[trigger] pre[k].text != e@.text by {
                assert(pre[k] == av[k]);
                assert(av[i as int] == e@);
            }
            lemma_count_absent(pre, e@.text);
        }
        if e.multiplicity > c {
            out.push(Version { name: e.name.clone(), multiplicity: e.multiplicity - c });
        }
        let now = e.multiplicity > 0 && c > 0;
        proof {
            let nv = version_views(out@);
            assert forall|t: Seq<char>| #[trigger] text_count(nv, t) == excess(post, bv, t) by {
                assert(text_count(post, t) == text_count(pre, t) + entry_count(e@, t));
                assert(text_count(ov, t) == excess(pre, bv, t));
                if e@.multiplicity > c {
                    assert(nv.drop_last() =~= ov);
                    assert(nv.last() == VersionView { text: e@.text, multiplicity: (e@.multiplicity - c) as nat });
                    assert(text_count(nv, t) == text_count(ov, t) + entry_count(nv.last(), t));
                } else {
                    assert(nv =~= ov);
                }
            }
            if e@.multiplicity > c {
                assert(nv.drop_last() =~= ov);
                assert forall|k: int| 0 <= k < ov.len() implies #[trigger] ov[k].text != e@.text by {
                    lemma_count_at_least(ov, k);
                }
                assert forall|x: int, y: int| 0 <= x < nv.len() && 0 <= y < nv.len() && x != y implies #[trigger] nv[x].text != #[trigger] nv[y].text by {
                    if x < ov.len() && y < ov.len() {
                        assert(nv[x] == ov[x]);
                        assert(nv[y] == ov[y]);
                    } else if x < ov.len() {
                        assert(nv[x] == ov[x]);
                    } else {
                        assert(nv[y] == ov[y]);
                    }
                }
                assert forall|k: int| 0 <= k < nv.len() implies #[trigger] nv[k].multiplicity >= 1 by {
                    if k < ov.len() {
                        assert(nv[k] == ov[k]);
                    }
                }
            }
            if now {
                assert(text_count(post, e@.text) > 0 && text_count(bv, e@.text) > 0);
            }
            if shared {
                let t = choose|t: Seq<char>| #[trigger] text_count(pre, t) > 0 && text_count(bv, t) > 0;
                assert(text_count(post, t) > 0);
            }
            if shares_text(post, bv) {
                let t = choose|t: Seq<char>| #[trigger] text_count(post, t) > 0 && text_count(bv, t) > 0;
                if t != e@.text {
                    assert(text_count(pre, t) > 0);
                }
            }
        }
        shared = shared || now;
        i = i + 1;
    }
    assert(av.take(a@.len() as int) =~= av);
    (out, shared)
}

fn copy_versions(vs: &Vec<Version>) -> (r: Vec<Version>)
    ensures
        version_views(r@) == version_views(vs@),
{
    let mut r: Vec<Version> = Vec::new();
    let mut k: usize = 0;
    while k < vs.len()
        invariant
            k <= vs@.len(),
            r@.len() == k,
            version_views(r@) == version_views(vs@).take(k as int),
        decreases vs.len() - k,
    {
        let v = vs[k].clone();
        assert(v@ == version_views(vs@)[k as int]);
        let ghost prev = r@;
        r.push(v);
        assert forall|i: int| 0 <= i < k + 1 implies #[trigger] version_views(r@)[i] == version_views(vs@).take(k + 1)[i] by {
            if i < k {
                assert(r@[i] == prev[i]);
                assert(version_views(prev)[i] == version_views(vs@).take(k as int)[i]);
            }
        }
        k = k + 1;
        assert(version_views(r@) =~= version_views(vs@).take(k as int));
    }
    assert(version_views(vs@).take(vs@.len() as int) =~= version_views(vs@));
    r
}

/// The outcome of comparing the versions of one package.
pub struct Classified {
    /// The versions only the old side has, deduplicated.
    pub old: Vec<Version>,
    /// The versions only the new side has, deduplicated.
    pub new: Vec<Version>,
    /// Whether some version is on both sides.
    pub has_common_versions: bool,
    /// What happened to the package, if anything.
    pub status: Option<DiffStatus>,
    /// The pairing of the two rests that the status and the report follow.
    pub pairing: Vec<Pairing>,
}

/// `uo` and `un` are the rests of `a` and `b`: the versions that the other
/// side does not account for, each text once, with what is left of its
/// count.
pub open spec fn rests(
    a: Seq<VersionView>,
    b: Seq<VersionView>,
    uo: Seq<VersionView>,
    un: Seq<VersionView>,
) -> bool {
    &&& distinct_texts(uo) && positive_counts(uo)
    &&& distinct_texts(un) && positive_counts(un)
    &&& forall|t: Seq<char>| #[trigger] text_count(uo, t) == excess(a, b, t)
    &&& forall|t: Seq<char>| #[trigger] text_count(un, t) == excess(b, a, t)
}

/// What comparing the versions `a` with `b` gives: the rests `uo` and `un`,
/// whether some version is on both sides, the pairing `ps` of the rests,
/// and the status: from the counts where they decide it, and otherwise what
/// the pairing shows.
pub open spec fn classification(
    a: Seq<VersionView>,
    b: Seq<VersionView>,
    uo: Seq<VersionView>,
    un: Seq<VersionView>,
    shared: bool,
    status: Option<DiffStatus>,
    ps: Seq<Pairing>,
) -> bool {
    &&& rests(a, b, uo, un)
    &&& shared == shares_text(a, b)
    &&& pairing_shape(ps, uo, un)
    &&& (no_excess(a, b) || no_excess(b, a)) ==> status == plain_status(a, b)
    &&& (!no_excess(a, b) && !no_excess(b, a)) ==> status == change_of(signals(ps, uo, un))
}

/// The versions `a` and `b` may give no status: nothing differs, or both
/// sides keep versions of their own and a pairing of the shape that
/// `match_version_lists` gives shows neither an upgrade nor a downgrade.
pub open spec fn may_be_unchanged(a: Seq<VersionView>, b: Seq<VersionView>) -> bool {
    ||| no_excess(a, b) && no_excess(b, a)
    ||| !no_excess(a, b) && !no_excess(b, a) && exists|uo: Seq<VersionView>, un: Seq<VersionView>, ps: Seq<Pairing>|
        #[trigger] rests(a, b, uo, un) && #[trigger] pairing_shape(ps, uo, un) && change_of(signals(ps, uo, un)) is None
}

/// A classification without a status shows that the package may be
/// unchanged.
pub proof fn lemma_no_status_unchanged(
    a: Seq<VersionView>,
    b: Seq<VersionView>,
    uo: Seq<VersionView>,
    un: Seq<VersionView>,
    shared: bool,
    ps: Seq<Pairing>,
)
    requires
        classification(a, b, uo, un, shared, None, ps),
    ensures
        may_be_unchanged(a, b),
{
    if !no_excess(a, b) && !no_excess(b, a) {
        assert(rests(a, b, uo, un) && pairing_shape(ps, uo, un));
    }
}

proof fn lemma_rests(
    a: Seq<VersionView>,
    b: Seq<VersionView>,
    da: Seq<VersionView>,
    db: Seq<VersionView>,
    uo: Seq<VersionView>,
    un: Seq<VersionView>,
    shared: bool,
)
    requires
        forall|t: Seq<char>| #[trigger] text_count(da, t) == text_count(a, t),
        forall|t: Seq<char>| #[trigger] text_count(db, t) == text_count(b, t),
        positive_counts(uo),
        positive_counts(un),
        forall|t: Seq<char>| #[trigger] text_count(uo, t) == excess(da, db, t),
        forall|t: Seq<char>| #[trigger] text_count(un, t) == excess(db, da, t),
        shared == shares_text(da, db),
    ensures
        forall|t: Seq<char>| #[trigger] text_count(uo, t) == excess(a, b, t),
        forall|t: Seq<char>| #[trigger] text_count(un, t) == excess(b, a, t),
        (uo.len() == 0) == no_excess(a, b),
        (un.len() == 0) == no_excess(b, a),
        shared == shares_text(a, b),
{
    assert forall|t: Seq<char>| #[trigger] text_count(uo, t) == excess(a, b, t) by {
        assert(text_count(da, t) == text_count(a, t));
        assert(text_count(db, t) == text_count(b, t));
    }
    assert forall|t: Seq<char>| #[trigger] text_count(un, t) == excess(b, a, t) by {
        assert(text_count(da, t) == text_count(a, t));
        assert(text_count(db, t) == text_count(b, t));
    }
    if uo.len() == 0 {
        assert forall|t: Seq<char>| #[trigger] text_count(a, t) <= text_count(b, t) by {
            assert(text_count(uo, t) == excess(a, b, t));
        }
    } else {
        lemma_count_at_least(uo, 0);
        assert(text_count(uo, uo[0].text) > 0);
        assert(excess(a, b, uo[0].text) > 0);
    }
    if un.len() == 0 {
        assert forall|t: Seq<char>| #[trigger] text_count(b, t) <= text_count(a, t) by {
            assert(text_count(un, t) == excess(b, a, t));
        }
    } else {
        lemma_count_at_least(un, 0);
        assert(text_count(un, un[0].text) > 0);
        assert(excess(b, a, un[0].text) > 0);
    }
    if shares_text(da, db) {
        let t = choose|t: Seq<char>| #[trigger] text_count(da, t) > 0 && text_count(db, t) > 0;
        assert(text_count(a, t) > 0 && text_count(b, t) > 0);
    }
    if shares_text(a, b) {
        let t = choose|t: Seq<char>| #[trigger] text_count(a, t) > 0 && text_count(b, t) > 0;
        assert(text_count(da, t) > 0 && text_count(db, t) > 0);
    }
}

/// Compares the versions of one package on the two sides. Versions on both
/// sides cancel out, multiplicities counted; what is left on either side
/// decides the status, through a pairing of the two rests where both have
/// versions.
pub fn classify_versions(old: &Vec<Version>, new: &Vec<Version>) -> (r: Classified)
    requires
        positive_counts(version_views(old@)),
        positive_counts(version_views(new@)),
        total_count(version_views(old@)) <= usize::MAX,
        total_count(version_views(new@)) <= usize::MAX,
    ensures
        classification(
            version_views(old@),
            version_views(new@),
            version_views(r.old@),
            version_views(r.new@),
            r.has_common_versions,
            r.status,
            r.pairing@,
        ),
{
    let ghost a = version_views(old@);
    let ghost b = version_views(new@);
    let mut dold = copy_versions(old);
    let mut dnew = copy_versions(new);
    deduplicate_versions(&mut dold);
    deduplicate_versions(&mut dnew);
    let (uo, shared) = subtract(&dold, &dnew);
    let (un, _) = subtract(&dnew, &dold);
    let ghost uv = version_views(uo@);
    let ghost nv = version_views(un@);
    proof {
        lemma_rests(a, b, version_views(dold@), version_views(dnew@), uv, nv, shared);
    }
    let ps = match_version_lists(&uo, &un);
    let status = if uo.len() == 0 && un.len() == 0 {
        None
    } else if !shared && uo.len() == 0 {
        Some(DiffStatus::Added)
    } else if !shared && un.len() == 0 {
        Some(DiffStatus::Removed)
    } else if uo.len() == 0 || un.len() == 0 {
        Some(DiffStatus::Changed(Change::UpgradeDowngrade))
    } else {
        proof {
            assert forall|k: int| 0 <= k < ps@.len() implies match #[trigger] ps@[k] {
                Pairing::Left(i) => i < uo@.len(),
                Pairing::Right(j) => j < un@.len(),
                Pairing::Both(i, j) => i < uo@.len() && j < un@.len(),
            } by {
                let p = ps@[k];
                if crate::pairing::left_of(p) is Some {
                    assert(0 <= crate::pairing::left_of(p)->0 < uo@.len());
                }
                if crate::pairing::right_of(p) is Some {
                    assert(0 <= crate::pairing::right_of(p)->0 < un@.len());
                }
            }
        }
        status_from_pairing(&ps, &uo, &un)
    };
    Classified { old: uo, new: un, has_common_versions: shared, status, pairing: ps }
}

/// The status of a package from its old and new versions, if it changed.
pub fn get_status_from_versions(versions: &Diff<Vec<Version>>) -> (r: Option<DiffStatus>)
    requires
        positive_counts(version_views(versions.old@)),
        positive_counts(version_views(versions.new@)),
        total_count(version_views(versions.old@)) <= usize::MAX,
        total_count(version_views(versions.new@)) <= usize::MAX,
    ensures
        ({
            let a = version_views(versions.old@);
            let b = version_views(versions.new@);
            &&& (no_excess(a, b) || no_excess(b, a)) ==> r == plain_status(a, b)
            &&& (!no_excess(a, b) && !no_excess(b, a)) ==> exists|uo: Seq<VersionView>, un: Seq<VersionView>, ps: Seq<Pairing>|
                #[trigger] rests(a, b, uo, un) && #[trigger] pairing_shape(ps, uo, un) && r == change_of(signals(ps, uo, un))
        }),
{
    let c = classify_versions(&versions.old, &versions.new);
    proof {
        let a = version_views(versions.old@);
        let b = version_views(versions.new@);
        if !no_excess(a, b) && !no_excess(b, a) {
            assert(rests(a, b, version_views(c.old@), version_views(c.new@)));
            assert(pairing_shape(c.pairing@, version_views(c.old@), version_views(c.new@)));
            assert(c.status == change_of(signals(c.pairing@, version_views(c.old@), version_views(c.new@))));
        }
    }
    c.status
}

} // verus!
