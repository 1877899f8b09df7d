//! Turning the store paths of two closures into sorted difference records.
use vstd::prelude::*;

use crate::diff::{
    classification, classify_versions, may_be_unchanged, no_excess, plain_status, positive_counts, shares_text,
    text_count, total_count, version_views, DiffStatus,
};
use crate::pairing::Pairing;
use crate::store_path::{base_name, has_hashed_prefix, name_of, version_of, StorePath};
use crate::version::{
    lemma_lex_antisymmetric, lemma_lex_transitive, lex_cmp, text_after, Version, VersionView,
};

verus! {

/// The name and version text that a store path parses into, the version
/// being `<none>` where the path has none.
pub open spec fn parsed(p: Seq<char>) -> Option<(Seq<char>, Seq<char>)> {
    if has_hashed_prefix(p) && base_name(p).len() > 0 {
        let t = base_name(p);
        Some(
            (
                name_of(t),
                match version_of(t) {
                    Some(v) => v,
                    None => no_version(),
                },
            ),
        )
    } else {
        None
    }
}

/// `<none>`, standing for a missing version.
pub open spec fn no_version() -> Seq<char> {
    seq!['<', 'n', 'o', 'n', 'e', '>']
}

/// The name and version of each path that parses, in order.
pub open spec fn parsed_all(ps: Seq<Seq<char>>) -> Seq<(Seq<char>, Seq<char>)>
    decreases ps.len(),
{
    if ps.len() == 0 {
        Seq::empty()
    } else {
        let rest = parsed_all(ps.drop_last());
        match parsed(ps.last()) {
            Some(e) => rest.push(e),
            None => rest,
        }
    }
}

pub open spec fn path_views(ps: Seq<StorePath>) -> Seq<Seq<char>> {
    ps.map_values(|p: StorePath| p@)
}

/// The version texts given with the name `n`, in order.
pub open spec fn versions_named(es: Seq<(Seq<char>, Seq<char>)>, n: Seq<char>) -> Seq<Seq<char>>
    decreases es.len(),
{
    if es.len() == 0 {
        Seq::empty()
    } else {
        let rest = versions_named(es.drop_last(), n);
        if es.last().0 == n {
            rest.push(es.last().1)
        } else {
            rest
        }
    }
}

/// Each text as a version that occurs once.
pub open spec fn once_each(ts: Seq<Seq<char>>) -> Seq<VersionView> {
    ts.map_values(|t: Seq<char>| VersionView { text: t, multiplicity: 1 })
}

/// The names that the paths parse into, in order.
pub open spec fn names_of(es: Seq<(Seq<char>, Seq<char>)>) -> Seq<Seq<char>> {
    es.map_values(|e: (Seq<char>, Seq<char>)| e.0)
}

pub struct Parsed {
    pub name: String,
    pub version: String,
}

pub open spec fn parsed_views(es: Seq<Parsed>) -> Seq<(Seq<char>, Seq<char>)> {
    es.map_values(|e: Parsed| (e.name@, e.version@))
}

/// Parses each path into its name and version, leaving out those that do not
/// parse.
pub fn parse_paths(paths: &Vec<StorePath>) -> (r: Vec<Parsed>)
    ensures
        parsed_views(r@) == parsed_all(path_views(paths@)),
{
    let ghost pv = path_views(paths@);
    let mut r: Vec<Parsed> = Vec::new();
    let mut k: usize = 0;
    while k < paths.len()
        invariant
            k <= paths@.len(),
            pv == path_views(paths@),
            parsed_views(r@) == parsed_all(pv.take(k as int)),
        decreases paths.len() - k,
    {
        assert(pv.take(k + 1).drop_last() =~= pv.take(k as int));
        assert(pv.take(k + 1).last() == paths@[k as int]@);
        let ghost prev = r@;
        match paths[k].parse_name_and_version() {
            Ok((name, version)) => {
                let version = match version {
                    Some(v) => v.name,
                    None => {
                        proof {
                            reveal_strlit("<none>");
                        }
                        let none = "<none>".to_owned();
                        assert(none@ =~= no_version());
                        none
                    },
                };
                r.push(Parsed { name, version });
                assert(parsed_views(r@) =~= parsed_views(prev).push((r@.last().name@, r@.last().version@)));
            },
            Err(_) => {},
        }
        k = k + 1;
    }
    assert(pv.take(paths@.len() as int) =~= pv);
    r
}

/// The versions that `es` gives with the name `n`, each occurring once.
pub fn versions_with_name(es: &Vec<Parsed>, n: &String) -> (r: Vec<Version>)
    ensures
        version_views(r@) == once_each(versions_named(parsed_views(es@), n@)),
        r@.len() <= es@.len(),
{
    let ghost ev = parsed_views(es@);
    let mut r: Vec<Version> = Vec::new();
    let mut k: usize = 0;
    while k < es.len()
        invariant
            k <= es@.len(),
            ev == parsed_views(es@),
            r@.len() <= k,
            version_views(r@) == once_each(versions_named(ev.take(k as int), n@)),
        decreases es.len() - k,
    {
        assert(ev.take(k + 1).drop_last() =~= ev.take(k as int));
        assert(ev.take(k + 1).last() == ev[k as int]);
        let ghost prev = r@;
        if es[k].name == *n {
            r.push(Version::new(es[k].version.clone()));
            assert(version_views(r@) =~= version_views(prev).push(r@.last()@));
        }
        k = k + 1;
        assert(version_views(r@) =~= once_each(versions_named(ev.take(k as int), n@)));
    }
    assert(ev.take(es@.len() as int) =~= ev);
    r
}

proof fn lemma_once_each_counts(ts: Seq<Seq<char>>)
    ensures
        positive_counts(once_each(ts)),
        total_count(once_each(ts)) == ts.len(),
    decreases ts.len(),
{
    if ts.len() > 0 {
        assert(once_each(ts).drop_last() =~= once_each(ts.drop_last()));
        lemma_once_each_counts(ts.drop_last());
    }
}


/// Whether a package is one of the packages selected into the system, on
/// each side.
#[derive(PartialEq, Eq, Structural, Debug, Clone, Copy)]
pub enum DerivationSelectionStatus {
    /// Selected on both sides.
    Selected,
    /// Selected on the new side only.
    NewlySelected,
    /// Selected on neither side.
    Unselected,
    /// Selected on the old side only.
    NewlyUnselected,
}

pub open spec fn selection_of(in_old: bool, in_new: bool) -> DerivationSelectionStatus {
    match (in_old, in_new) {
        (true, true) => DerivationSelectionStatus::Selected,
        (true, false) => DerivationSelectionStatus::NewlyUnselected,
        (false, true) => DerivationSelectionStatus::NewlySelected,
        (false, false) => DerivationSelectionStatus::Unselected,
    }
}

pub open spec fn string_views(ns: Seq<String>) -> Seq<Seq<char>> {
    ns.map_values(|n: String| n@)
}

/// Whether `names` holds `n`.
pub fn contains_name(names: &Vec<String>, n: &str) -> (r: bool)
    ensures
        r == string_views(names@).contains(n@),
{
    let ghost nv = string_views(names@);
    let wanted = n.to_owned();
    let mut k: usize = 0;
    while k < names.len()
        invariant
            k <= names@.len(),
            nv == string_views(names@),
            wanted@ == n@,
            forall|t: int| 0 <= t < k ==> #[trigger] nv[t] != n@,
        decreases names.len() - k,
    {
        assert(nv[k as int] == names@[k as int]@);
        if names[k] == wanted {
            assert(nv[k as int] == n@);
            return true;
        }
        k = k + 1;
    }
    false
}

impl DerivationSelectionStatus {
    /// The selection status of the package `name`, from the names selected
    /// on the old and on the new side.
    pub fn from_names(name: &str, old: &Vec<String>, new: &Vec<String>) -> (r: Self)
        ensures
            r == selection_of(
                string_views(old@).contains(name@),
                string_views(new@).contains(name@),
            ),
    {
        match (contains_name(old, name), contains_name(new, name)) {
            (true, true) => DerivationSelectionStatus::Selected,
            (true, false) => DerivationSelectionStatus::NewlyUnselected,
            (false, true) => DerivationSelectionStatus::NewlySelected,
            (false, false) => DerivationSelectionStatus::Unselected,
        }
    }
}

/// The names of the paths that parse.
pub fn collect_system_names(paths: &Vec<StorePath>) -> (r: Vec<String>)
    ensures
        string_views(r@) == names_of(parsed_all(path_views(paths@))),
{
    let es = parse_paths(paths);
    let mut r: Vec<String> = Vec::new();
    let mut k: usize = 0;
    while k < es.len()
        invariant
            k <= es@.len(),
            r@.len() == k,
            string_views(r@) == names_of(parsed_views(es@)).take(k as int),
        decreases es.len() - k,
    {
        let ghost prev = r@;
        let n = es[k].name.clone();
        r.push(n);
        assert forall|i: int| 0 <= i < k + 1 implies #[trigger] string_views(r@)[i] == names_of(parsed_views(es@)).take(k + 1)[i] by {
            if i < k {
                assert(r@[i] == prev[i]);
                assert(string_views(prev)[i] == names_of(parsed_views(es@)).take(k as int)[i]);
            }
        }
        k = k + 1;
        assert(string_views(r@) =~= names_of(parsed_views(es@)).take(k as int));
    }
    assert(names_of(parsed_views(es@)).take(es@.len() as int) =~= names_of(parsed_views(es@)));
    r
}

/// Adds to `names` each name of `es` that it lacks.
fn add_names(names: &mut Vec<String>, es: &Vec<Parsed>)
    requires
        string_views(old(names)@).no_duplicates(),
    ensures
        string_views(final(names)@).no_duplicates(),
        forall|n: Seq<char>| #[trigger] string_views(final(names)@).contains(n) <==> (
        string_views(old(names)@).contains(n) || names_of(parsed_views(es@)).contains(n)),
{
    let ghost start = string_views(names@);
    let ghost en = names_of(parsed_views(es@));
    let mut k: usize = 0;
    while k < es.len()
        invariant
            k <= es@.len(),
            en == names_of(parsed_views(es@)),
            string_views(names@).no_duplicates(),
            forall|n: Seq<char>| #[trigger] string_views(names@).contains(n) <==> (start.contains(n)
                || en.take(k as int).contains(n)),
        decreases es.len() - k,
    {
        let n = &es[k].name;
        let ghost rv = string_views(names@);
        assert(en[k as int] == n@);
        if !contains_name(names, n.as_str()) {
            names.push(n.clone());
            proof {
                assert(string_views(names@) =~= rv.push(n@));
                assert forall|x: int, y: int| 0 <= x < string_views(names@).len() && 0 <= y < string_views(names@).len() && x != y implies string_views(names@)[x] != string_views(names@)[y] by {
                    if x < rv.len() && y < rv.len() {
                    } else if x < rv.len() {
                        assert(rv.contains(rv[x]));
                    } else {
                        assert(rv.contains(rv[y]));
                    }
                }
            }
        } else {
            assert(string_views(names@) == rv);
        }
        proof {
            let t1 = en.take(k + 1);
            let t0 = en.take(k as int);
            assert(t1 =~= t0.push(n@));
            assert forall|m: Seq<char>| #[trigger] string_views(names@).contains(m) <==> (start.contains(m) || t1.contains(m)) by {
                assert(rv.contains(m) <==> (start.contains(m) || t0.contains(m)));
                if m == n@ && string_views(names@) == rv {
                    assert(rv.contains(n@));
                }
                if m == n@ && string_views(names@) != rv {
                    assert(string_views(names@)[rv.len() as int] == m);
                }
                if string_views(names@).contains(m) && !rv.contains(m) {
                    let x = choose|x: int| 0 <= x < string_views(names@).len() && string_views(names@)[x] == m;
                    assert(x == rv.len());
                }
                if rv.contains(m) && string_views(names@) != rv {
                    let x = choose|x: int| 0 <= x < rv.len() && rv[x] == m;
                    assert(string_views(names@)[x] == m);
                }
                if m == n@ {
                    assert(t1[k as int] == m);
                }
                if t1.contains(m) && m != n@ {
                    let x = choose|x: int| 0 <= x < t1.len() && t1[x] == m;
                    assert(t0[x] == m);
                }
                if t0.contains(m) {
                    let x = choose|x: int| 0 <= x < t0.len() && t0[x] == m;
                    assert(t1[x] == m);
                }
            }
        }
        k = k + 1;
    }
    assert(en.take(es@.len() as int) =~= en);
}

/// The names of `a` and of `b`, each once.
fn distinct_names(a: &Vec<Parsed>, b: &Vec<Parsed>) -> (r: Vec<String>)
    ensures
        string_views(r@).no_duplicates(),
        forall|n: Seq<char>| #[trigger] string_views(r@).contains(n) <==> (names_of(
            parsed_views(a@),
        ).contains(n) || names_of(parsed_views(b@)).contains(n)),
{
    let mut r: Vec<String> = Vec::new();
    assert(string_views(r@) =~= Seq::<Seq<char>>::empty());
    add_names(&mut r, a);
    add_names(&mut r, b);
    r
}


/// One package whose versions differ between the two sides.
pub struct DiffRecord {
    pub name: String,
    /// The versions only the old side has.
    pub old: Vec<Version>,
    /// The versions only the new side has.
    pub new: Vec<Version>,
    pub status: DiffStatus,
    pub selection: DerivationSelectionStatus,
    /// Whether some version is on both sides.
    pub has_common_versions: bool,
    /// The pairing of `old` with `new` that the status and the report
    /// follow.
    pub pairing: Vec<Pairing>,
}

/// The machine-readable report: the records and the two closure sizes.
pub struct JsonReport {
    /// The package changes.
    pub diffs: Vec<DiffRecord>,
    /// The old closure size, in bytes.
    pub size_old: i64,
    /// The new closure size, in bytes.
    pub size_new: i64,
}

/// The report order: by section, then by name.
pub open spec fn ordered_before(r1: int, n1: Seq<char>, r2: int, n2: Seq<char>) -> bool {
    r1 < r2 || (r1 == r2 && lex_cmp(n1, n2) < 0)
}

pub open spec fn record_before(x: DiffRecord, y: DiffRecord) -> bool {
    ordered_before(x.status.rank(), x.name@, y.status.rank(), y.name@)
}

pub open spec fn record_names(rs: Seq<DiffRecord>) -> Seq<Seq<char>> {
    rs.map_values(|r: DiffRecord| r.name@)
}

/// The old-side versions of `n`, each once.
pub open spec fn old_versions(oe: Seq<(Seq<char>, Seq<char>)>, n: Seq<char>) -> Seq<VersionView> {
    once_each(versions_named(oe, n))
}


/// `rec` is the record of its package: the package has a path on some side,
/// and the record holds what comparing its versions gives, and its selection
/// status.
pub open spec fn record_of(
    oe: Seq<(Seq<char>, Seq<char>)>,
    ne: Seq<(Seq<char>, Seq<char>)>,
    so: Seq<Seq<char>>,
    sn: Seq<Seq<char>>,
    rec: DiffRecord,
) -> bool {
    let n = rec.name@;
    &&& names_of(oe).contains(n) || names_of(ne).contains(n)
    &&& classification(
        old_versions(oe, n),
        old_versions(ne, n),
        version_views(rec.old@),
        version_views(rec.new@),
        rec.has_common_versions,
        Some(rec.status),
        rec.pairing@,
    )
    &&& rec.selection == selection_of(so.contains(n), sn.contains(n))
}

/// The records of a report: each is its package's record; they are in
/// report order, one per package; and every package that has paths and a
/// status has one.
pub open spec fn diff_report(
    oe: Seq<(Seq<char>, Seq<char>)>,
    ne: Seq<(Seq<char>, Seq<char>)>,
    so: Seq<Seq<char>>,
    sn: Seq<Seq<char>>,
    rs: Seq<DiffRecord>,
) -> bool {
    &&& forall|k: int| 0 <= k < rs.len() ==> record_of(oe, ne, so, sn, #[trigger] rs[k])
    &&& forall|k: int| 0 <= k < rs.len() - 1 ==> record_before(#[trigger] rs[k], rs[k + 1])
    &&& record_names(rs).no_duplicates()
    &&& forall|n: Seq<char>|
        (names_of(oe).contains(n) || names_of(ne).contains(n)) && !#[trigger] may_be_unchanged(
            old_versions(oe, n),
            old_versions(ne, n),
        ) ==> record_names(rs).contains(n)
}

/// Whether `x` comes after `y` in the report.
fn record_after(x: &DiffRecord, y: &DiffRecord) -> (r: bool)
    ensures
        r == record_before(*y, *x),
{
    let rx = x.status.section();
    let ry = y.status.section();
    proof {
        lemma_lex_antisymmetric(x.name@, y.name@);
    }
    if ry < rx {
        true
    } else if ry > rx {
        false
    } else {
        text_after(x.name.as_str(), y.name.as_str())
    }
}

proof fn lemma_total_order(x: DiffRecord, y: DiffRecord)
    requires
        x.name@ != y.name@,
        !record_before(y, x),
    ensures
        record_before(x, y),
{
    lemma_lex_antisymmetric(x.name@, y.name@);
}

/// Puts `rec` at its place in the report order.
fn insert_record(out: &mut Vec<DiffRecord>, rec: DiffRecord)
    requires
        forall|k: int| 0 <= k < old(out)@.len() - 1 ==> record_before(#[trigger] old(out)@[k], old(out)@[k + 1]),
        record_names(old(out)@).no_duplicates(),
        !record_names(old(out)@).contains(rec.name@),
    ensures
        forall|k: int| 0 <= k < final(out)@.len() - 1 ==> record_before(#[trigger] final(out)@[k], final(out)@[k + 1]),
        record_names(final(out)@).no_duplicates(),
        forall|k: int| 0 <= k < final(out)@.len() ==> (#[trigger] final(out)@[k] == rec || old(out)@.contains(final(out)@[k])),
        forall|n: Seq<char>| #[trigger] record_names(final(out)@).contains(n) <==> (record_names(old(out)@).contains(n) || n == rec.name@),
{
    let ghost prev = out@;
    let mut p: usize = out.len();
    while p > 0 && record_after(&out[p - 1], &rec)
        invariant
            prev == out@,
            p <= out@.len(),
            forall|k: int| p <= k < out@.len() ==> record_before(rec, #[trigger] out@[k]),
        decreases p,
    {
        p = p - 1;
    }
    proof {
        if p > 0 {
            assert(prev[p - 1].name@ == record_names(prev)[p - 1]);
            lemma_total_order(prev[p - 1], rec);
        }
    }
    let ghost rn = rec.name@;
    let ghost rv = rec;
    out.insert(p, rec);
    proof {
        let o = out@;
        let pp = p as int;
        assert(o =~= prev.insert(pp, rv));
        assert(record_names(o) =~= record_names(prev).insert(pp, rn));
        assert forall|k: int| 0 <= k < o.len() - 1 implies record_before(#[trigger] o[k], o[k + 1]) by {
            if k + 1 < pp {
                assert(o[k] == prev[k] && o[k + 1] == prev[k + 1]);
            } else if k + 1 == pp {
                assert(o[k] == prev[k]);
            } else if k == pp {
                assert(o[k + 1] == prev[k]);
            } else {
                assert(o[k] == prev[k - 1] && o[k + 1] == prev[k]);
            }
        }
        let names = record_names(o);
        let pn = record_names(prev);
        assert forall|a: int, b: int| 0 <= a < names.len() && 0 <= b < names.len() && a != b implies names[a] != names[b] by {
            let pa = if a < pp { a } else { a - 1 };
            let pb = if b < pp { b } else { b - 1 };
            if a != pp && b != pp {
                assert(names[a] == pn[pa] && names[b] == pn[pb]);
            } else if a == pp {
                assert(names[b] == pn[pb]);
                assert(pn.contains(pn[pb]));
            } else {
                assert(names[a] == pn[pa]);
                assert(pn.contains(pn[pa]));
            }
        }
        assert forall|k: int| 0 <= k < o.len() implies (#[trigger] o[k] == rv || prev.contains(o[k])) by {
            if k < pp {
                assert(o[k] == prev[k]);
            } else if k > pp {
                assert(o[k] == prev[k - 1]);
            }
        }
        assert forall|n: Seq<char>| #[trigger] names.contains(n) <==> (pn.contains(n) || n == rn) by {
            if names.contains(n) {
                let a = choose|a: int| 0 <= a < names.len() && names[a] == n;
                if a < pp {
                    assert(pn[a] == n);
                } else if a > pp {
                    assert(pn[a - 1] == n);
                }
            }
            if pn.contains(n) {
                let a = choose|a: int| 0 <= a < pn.len() && pn[a] == n;
                if a < pp {
                    assert(names[a] == n);
                } else {
                    assert(names[a + 1] == n);
                }
            }
            if n == rn {
                assert(names[pp] == n);
            }
        }
    }
}


/// Compares the closures given by their store paths (`paths_old`,
/// `paths_new`) and the packages selected into each system
/// (`system_old`, `system_new`): one record for each package whose
/// versions differ, in report order.
pub fn generate_diffs(
    paths_old: &Vec<StorePath>,
    paths_new: &Vec<StorePath>,
    system_old: &Vec<StorePath>,
    system_new: &Vec<StorePath>,
) -> (r: Vec<DiffRecord>)
    ensures
        diff_report(
            parsed_all(path_views(paths_old@)),
            parsed_all(path_views(paths_new@)),
            names_of(parsed_all(path_views(system_old@))),
            names_of(parsed_all(path_views(system_new@))),
            r@,
        ),
{
    let oe = parse_paths(paths_old);
    let ne = parse_paths(paths_new);
    let so = collect_system_names(system_old);
    let sn = collect_system_names(system_new);
    let ghost oev = parsed_views(oe@);
    let ghost nev = parsed_views(ne@);
    let ghost sov = string_views(so@);
    let ghost snv = string_views(sn@);
    let names = distinct_names(&oe, &ne);
    let ghost nm = string_views(names@);
    let mut out: Vec<DiffRecord> = Vec::new();
    let mut i: usize = 0;
    while i < names.len()
        invariant
            i <= names@.len(),
            oev == parsed_views(oe@),
            nev == parsed_views(ne@),
            sov == string_views(so@),
            snv == string_views(sn@),
            nm == string_views(names@),
            nm.no_duplicates(),
            forall|n: Seq<char>| #[trigger] nm.contains(n) <==> (names_of(oev).contains(n) || names_of(nev).contains(n)),
            forall|k: int| 0 <= k < out@.len() ==> record_of(oev, nev, sov, snv, #[trigger] out@[k]),
            forall|k: int| 0 <= k < out@.len() - 1 ==> record_before(#[trigger] out@[k], out@[k + 1]),
            record_names(out@).no_duplicates(),
            forall|n: Seq<char>| #[trigger] record_names(out@).contains(n) ==> nm.take(i as int).contains(n),
            forall|n: Seq<char>|
                nm.take(i as int).contains(n) && !#[trigger] may_be_unchanged(
                    old_versions(oev, n),
                    old_versions(nev, n),
                ) ==> record_names(out@).contains(n),
        decreases names.len() - i,
    {
        let n = &names[i];
        let ghost nn = n@;
        assert(nm[i as int] == nn);
        let ov = versions_with_name(&oe, n);
        let nv = versions_with_name(&ne, n);
        let ov_len = ov.len();
        let nv_len = nv.len();
        proof {
            lemma_once_each_counts(versions_named(oev, nn));
            lemma_once_each_counts(versions_named(nev, nn));
            assert(version_views(ov@).len() == ov@.len());
            assert(version_views(nv@).len() == nv@.len());
            assert(once_each(versions_named(oev, nn)).len() == versions_named(oev, nn).len());
            assert(once_each(versions_named(nev, nn)).len() == versions_named(nev, nn).len());
            assert(total_count(version_views(ov@)) == ov_len);
            assert(total_count(version_views(nv@)) == nv_len);
        }
        let c = classify_versions(&ov, &nv);
        let ghost before = out@;
        proof {
            assert(nm.take(i + 1) =~= nm.take(i as int).push(nn));
            let t0 = nm.take(i as int);
            assert(!t0.contains(nn)) by {
                if t0.contains(nn) {
                    let a = choose|a: int| 0 <= a < t0.len() && t0[a] == nn;
                    assert(nm[a] == nm[i as int]);
                }
            }
            assert(nm.contains(nn));
        }
        match c.status {
            Some(st) => {
                let sel = DerivationSelectionStatus::from_names(n.as_str(), &so, &sn);
                let rec = DiffRecord {
                    name: n.clone(),
                    old: c.old,
                    new: c.new,
                    status: st,
                    selection: sel,
                    has_common_versions: c.has_common_versions,
                    pairing: c.pairing,
                };
                assert(record_of(oev, nev, sov, snv, rec));
                insert_record(&mut out, rec);
                proof {
                    assert forall|k: int| 0 <= k < out@.len() implies record_of(oev, nev, sov, snv, #[trigger] out@[k]) by {
                        if out@[k] != rec {
                            let j = choose|j: int| 0 <= j < before.len() && before[j] == out@[k];
                            assert(record_of(oev, nev, sov, snv, before[j]));
                        }
                    }
                }
            },
            None => {
                proof {
                    crate::diff::lemma_no_status_unchanged(
                        old_versions(oev, nn),
                        old_versions(nev, nn),
                        version_views(c.old@),
                        version_views(c.new@),
                        c.has_common_versions,
                        c.pairing@,
                    );
                }
            },
        }
        proof {
            let t1 = nm.take(i + 1);
            let t0 = nm.take(i as int);
            assert forall|m: Seq<char>| #[trigger] record_names(out@).contains(m) implies t1.contains(m) by {
                if m != nn {
                    assert(record_names(before).contains(m));
                    assert(t0.contains(m));
                    let a = choose|a: int| 0 <= a < t0.len() && t0[a] == m;
                    assert(t1[a] == m);
                } else {
                    assert(t1[i as int] == m);
                }
            }
            assert forall|m: Seq<char>|
                t1.contains(m) && !#[trigger] may_be_unchanged(
                    old_versions(oev, m),
                    old_versions(nev, m),
                ) implies record_names(out@).contains(m) by {
                if m != nn {
                    let a = choose|a: int| 0 <= a < t1.len() && t1[a] == m;
                    assert(a != i);
                    assert(t0[a] == m);
                    assert(record_names(before).contains(m));
                }
            }
        }
        i = i + 1;
    }
    proof {
        assert(nm.take(names@.len() as int) =~= nm);
    }
    out
}


proof fn lemma_no_versions(n: Seq<char>)
    ensures
        old_versions(Seq::empty(), n) == Seq::<VersionView>::empty(),
{
    assert(old_versions(Seq::empty(), n) =~= Seq::<VersionView>::empty());
}

/// Comparing a closure with itself gives no records.
pub proof fn lemma_same_closure_no_records(
    es: Seq<(Seq<char>, Seq<char>)>,
    so: Seq<Seq<char>>,
    sn: Seq<Seq<char>>,
    rs: Seq<DiffRecord>,
)
    requires
        diff_report(es, es, so, sn, rs),
    ensures
        rs.len() == 0,
{
    if rs.len() > 0 {
        assert(record_of(es, es, so, sn, rs[0]));
        let a = old_versions(es, rs[0].name@);
        assert(no_excess(a, a));
        assert(plain_status(a, a) is None);
    }
}

/// Where the old closure has no packages, every record is an addition, and
/// every package of the new closure has one.
pub proof fn lemma_empty_old_all_added(
    ne: Seq<(Seq<char>, Seq<char>)>,
    so: Seq<Seq<char>>,
    sn: Seq<Seq<char>>,
    rs: Seq<DiffRecord>,
)
    requires
        diff_report(Seq::empty(), ne, so, sn, rs),
    ensures
        forall|k: int| 0 <= k < rs.len() ==> #[trigger] rs[k].status == DiffStatus::Added,
        forall|n: Seq<char>| #[trigger] names_of(ne).contains(n) ==> record_names(rs).contains(n),
{
    assert forall|k: int| 0 <= k < rs.len() implies #[trigger] rs[k].status == DiffStatus::Added by {
        assert(record_of(Seq::empty(), ne, so, sn, rs[k]));
        let n = rs[k].name@;
        lemma_no_versions(n);
        let b = old_versions(ne, n);
        assert(no_excess(Seq::<VersionView>::empty(), b));
        assert(!shares_text(Seq::<VersionView>::empty(), b));
    }
    assert forall|n: Seq<char>| #[trigger] names_of(ne).contains(n) implies record_names(rs).contains(n) by {
        lemma_no_versions(n);
        lemma_named_present(ne, n);
        let b = old_versions(ne, n);
        assert(no_excess(Seq::<VersionView>::empty(), b));
        assert(b[0].text == versions_named(ne, n)[0]);
        assert(text_count(Seq::<VersionView>::empty(), b[0].text) == 0);
        crate::diff::lemma_positive_count(b, 0);
        assert(!no_excess(b, old_versions(Seq::empty(), n)));
        assert(!may_be_unchanged(old_versions(Seq::empty(), n), b));
    }
}

/// Where the new closure has no packages, every record is a removal, and
/// every package of the old closure has one.
pub proof fn lemma_empty_new_all_removed(
    oe: Seq<(Seq<char>, Seq<char>)>,
    so: Seq<Seq<char>>,
    sn: Seq<Seq<char>>,
    rs: Seq<DiffRecord>,
)
    requires
        diff_report(oe, Seq::empty(), so, sn, rs),
    ensures
        forall|k: int| 0 <= k < rs.len() ==> #[trigger] rs[k].status == DiffStatus::Removed,
        forall|n: Seq<char>| #[trigger] names_of(oe).contains(n) ==> record_names(rs).contains(n),
{
    assert forall|k: int| 0 <= k < rs.len() implies #[trigger] rs[k].status == DiffStatus::Removed by {
        assert(record_of(oe, Seq::empty(), so, sn, rs[k]));
        let n = rs[k].name@;
        lemma_no_versions(n);
        let a = old_versions(oe, n);
        assert(no_excess(Seq::<VersionView>::empty(), a));
        assert(!shares_text(a, Seq::<VersionView>::empty()));
    }
    assert forall|n: Seq<char>| #[trigger] names_of(oe).contains(n) implies record_names(rs).contains(n) by {
        lemma_no_versions(n);
        lemma_named_present(oe, n);
        let a = old_versions(oe, n);
        assert(no_excess(Seq::<VersionView>::empty(), a));
        assert(a[0].text == versions_named(oe, n)[0]);
        assert(text_count(Seq::<VersionView>::empty(), a[0].text) == 0);
        crate::diff::lemma_positive_count(a, 0);
        assert(!no_excess(a, old_versions(Seq::empty(), n)));
        assert(!may_be_unchanged(a, old_versions(Seq::empty(), n)));
    }
}

/// A name that some entry carries has at least one version.
proof fn lemma_named_present(es: Seq<(Seq<char>, Seq<char>)>, n: Seq<char>)
    requires
        names_of(es).contains(n),
    ensures
        versions_named(es, n).len() > 0,
        old_versions(es, n).len() > 0,
        positive_counts(old_versions(es, n)),
    decreases es.len(),
{
    lemma_once_each_counts(versions_named(es, n));
    let k = choose|k: int| 0 <= k < names_of(es).len() && names_of(es)[k] == n;
    if es.last().0 != n {
        assert(k < es.len() - 1);
        assert(names_of(es.drop_last())[k] == n);
        lemma_named_present(es.drop_last(), n);
    }
}

/// In a report, sections come in the order changed, added, removed, and
/// within a section the names strictly increase.
pub proof fn lemma_report_sections(rs: Seq<DiffRecord>, i: int, j: int)
    requires
        forall|k: int| 0 <= k < rs.len() - 1 ==> record_before(#[trigger] rs[k], rs[k + 1]),
        0 <= i < j < rs.len(),
    ensures
        rs[i].status.rank() <= rs[j].status.rank(),
        rs[i].status.rank() == rs[j].status.rank() ==> lex_cmp(rs[i].name@, rs[j].name@) < 0,
    decreases j - i,
{
    if j > i + 1 {
        lemma_report_sections(rs, i, j - 1);
        assert(record_before(rs[j - 1], rs[j]));
        if rs[i].status.rank() == rs[j].status.rank() {
            lemma_lex_transitive(rs[i].name@, rs[j - 1].name@, rs[j].name@);
            lemma_lex_antisymmetric(rs[i].name@, rs[j].name@);
            lemma_lex_antisymmetric(rs[i].name@, rs[j - 1].name@);
            lemma_lex_antisymmetric(rs[j - 1].name@, rs[j].name@);
        }
    } else {
        assert(record_before(rs[i], rs[i + 1]));
    }
}

} // verus!
