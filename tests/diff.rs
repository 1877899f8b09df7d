use dix::diff::{deduplicate_versions, get_status_from_versions, Change, Diff, DiffStatus};
use dix::pairing::{levenshtein, match_version_lists, Pairing};
use dix::report::{generate_diffs, DerivationSelectionStatus, DiffRecord};
use dix::version::{components, Version};
use dix::StorePath;

fn v(s: &str) -> Version {
    Version::new(s.to_string())
}

fn displayed(vs: &[Version]) -> Vec<String> {
    vs.iter().map(|v| v.display_string()).collect()
}

fn path(name_version: &str) -> StorePath {
    StorePath::try_from(format!("/nix/store/{}-{}", "z".repeat(32), name_version)).unwrap()
}

fn paths(items: &[&str]) -> Vec<StorePath> {
    items.iter().map(|s| path(s)).collect()
}

fn run(old: &[&str], new: &[&str]) -> Vec<DiffRecord> {
    generate_diffs(&paths(old), &paths(new), &Vec::new(), &Vec::new())
}

fn texts(vs: &[Version]) -> Vec<String> {
    vs.iter().map(|v| v.name.clone()).collect()
}

#[test]
fn basic_component_edit_dist() {
    let from = components("foo-123.0-man-pages");
    let to = components("foo-123.4.12-man-pages");
    let dist = levenshtein(&from, &to);
    assert_eq!(dist, 2);
}

#[test]
fn levenshtein_examples() {
    let chars = |s: &str| s.chars().collect::<Vec<char>>();
    assert_eq!(levenshtein(&chars("kitten"), &chars("sitting")), 3);
    assert_eq!(levenshtein(&chars(""), &chars("hello")), 5);
    assert_eq!(levenshtein(&chars("12345"), &chars("12345")), 0);
    assert_eq!(levenshtein(&chars("sitting"), &chars("kitten")), 3);
    assert!(levenshtein(&chars("abc"), &chars("xyzw")) <= 4);
}

#[test]
fn test_deduplicate_versions() {
    let mut versions_pre: Vec<Version> =
        vec![v("2.3"), v("1.0"), v("2.3"), v("4.8"), v("2.3"), v("1.0")];
    let versions_post = vec!["1.0 ×2", "2.3 ×3", "4.8"];
    deduplicate_versions(&mut versions_pre);

    assert_eq!(displayed(&versions_pre), versions_post);
}

#[test]
fn test_deduplicate_versions_empty() {
    let mut versions_pre: Vec<Version> = vec![];
    let versions_post: Vec<String> = vec![];
    deduplicate_versions(&mut versions_pre);

    assert_eq!(displayed(&versions_pre), versions_post);
}

#[test]
fn deduplicating_twice_changes_nothing() {
    let mut once = vec![v("1.0"), v("0.9"), v("1.0"), v("1.01"), v("2"), v("1.0-pre")];
    deduplicate_versions(&mut once);
    let mut twice: Vec<Version> = once.iter().cloned().collect();
    deduplicate_versions(&mut twice);
    assert_eq!(displayed(&once), displayed(&twice));
    assert_eq!(
        once.iter().map(|v| v.multiplicity).collect::<Vec<_>>(),
        twice.iter().map(|v| v.multiplicity).collect::<Vec<_>>()
    );
}

#[test]
fn test_get_status_from_versions() {
    let versions_1: Diff<Vec<Version>> = Diff { old: vec![v("1.0")], new: vec![v("1.0")] };
    let versions_2: Diff<Vec<Version>> = Diff { old: vec![], new: vec![v("1.0")] };
    let versions_3: Diff<Vec<Version>> = Diff { old: vec![v("1.0")], new: vec![] };
    let versions_4: Diff<Vec<Version>> = Diff { old: vec![v("1.0")], new: vec![v("1.1")] };
    let versions_5: Diff<Vec<Version>> = Diff { old: vec![v("1.0")], new: vec![v("0.9")] };
    let versions_6: Diff<Vec<Version>> =
        Diff { old: vec![v("1.0"), v("2.0")], new: vec![v("1.1"), v("1.9")] };

    assert_eq!(get_status_from_versions(&versions_1), None);
    assert_eq!(get_status_from_versions(&versions_2), Some(DiffStatus::Added));
    assert_eq!(get_status_from_versions(&versions_3), Some(DiffStatus::Removed));
    assert_eq!(
        get_status_from_versions(&versions_4),
        Some(DiffStatus::Changed(Change::Upgraded))
    );
    assert_eq!(
        get_status_from_versions(&versions_5),
        Some(DiffStatus::Changed(Change::Downgraded))
    );
    assert_eq!(
        get_status_from_versions(&versions_6),
        Some(DiffStatus::Changed(Change::UpgradeDowngrade))
    );
}

#[test]
fn pairing_uses_every_version_once() {
    let from = vec![v("1.0"), v("5.0"), v("3.1.4")];
    let to = vec![v("2.0"), v("4.0")];
    let ps = match_version_lists(&from, &to);
    let mut lefts = Vec::new();
    let mut rights = Vec::new();
    for p in &ps {
        match *p {
            Pairing::Left(i) => lefts.push(i),
            Pairing::Right(j) => rights.push(j),
            Pairing::Both(i, j) => {
                lefts.push(i);
                rights.push(j);
            },
        }
    }
    lefts.sort();
    rights.sort();
    assert_eq!(lefts, vec![0, 1, 2]);
    assert_eq!(rights, vec![0, 1]);
    let ps = match_version_lists(&vec![], &to);
    assert_eq!(ps, vec![Pairing::Right(0), Pairing::Right(1)]);
}

#[test]
fn single_upgrade() {
    let rs = run(&["foo-1.0"], &["foo-1.1"]);
    assert_eq!(rs.len(), 1);
    assert_eq!(rs[0].name, "foo");
    assert_eq!(texts(&rs[0].old), vec!["1.0"]);
    assert_eq!(texts(&rs[0].new), vec!["1.1"]);
    assert_eq!(rs[0].status, DiffStatus::Changed(Change::Upgraded));
    assert!(!rs[0].has_common_versions);
}

#[test]
fn prerelease_downgrade() {
    let rs = run(&["foo-1.0.0"], &["foo-1.0.0-pre"]);
    assert_eq!(rs.len(), 1);
    assert_eq!(rs[0].status, DiffStatus::Changed(Change::Downgraded));
}

#[test]
fn mixed_upgrade_downgrade() {
    let rs = run(&["foo-1.0", "foo-5.0"], &["foo-2.0", "foo-4.0"]);
    assert_eq!(rs.len(), 1);
    assert_eq!(rs[0].status, DiffStatus::Changed(Change::UpgradeDowngrade));
}

#[test]
fn added_and_removed() {
    let rs = run(&["bar-1.0"], &["baz-2.0"]);
    assert_eq!(rs.len(), 2);
    assert_eq!(rs[0].name, "baz");
    assert_eq!(rs[0].status, DiffStatus::Added);
    assert_eq!(rs[1].name, "bar");
    assert_eq!(rs[1].status, DiffStatus::Removed);
}

#[test]
fn common_with_delta() {
    let rs = run(&["foo-1.0", "foo-2.0"], &["foo-2.0", "foo-3.0"]);
    assert_eq!(rs.len(), 1);
    assert_eq!(rs[0].status, DiffStatus::Changed(Change::Upgraded));
    assert_eq!(texts(&rs[0].old), vec!["1.0"]);
    assert_eq!(texts(&rs[0].new), vec!["3.0"]);
    assert!(rs[0].has_common_versions);
}

#[test]
fn multiplicity() {
    let rs = run(&["foo-1.0", "foo-1.0", "foo-1.0"], &["foo-2.0"]);
    assert_eq!(rs.len(), 1);
    assert_eq!(rs[0].status, DiffStatus::Changed(Change::Upgraded));
    assert_eq!(displayed(&rs[0].old), vec!["1.0 ×3"]);
    assert_eq!(displayed(&rs[0].new), vec!["2.0"]);
}

#[test]
fn equal_versions_are_absent() {
    let rs = run(&["foo-1.0.0", "bar-2"], &["foo-1.0.0", "bar-3"]);
    assert_eq!(rs.len(), 1);
    assert_eq!(rs[0].name, "bar");
}

#[test]
fn same_closure_gives_nothing() {
    let items = ["foo-1.0", "bar-2.0", "bar-2.1", "hello", "x-1-2"];
    assert!(run(&items, &items).is_empty());
}

#[test]
fn empty_sides() {
    let items = ["foo-1.0", "bar-2.0", "hello"];
    let rs = run(&[], &items);
    assert_eq!(rs.len(), 3);
    assert!(rs.iter().all(|r| r.status == DiffStatus::Added));
    let rs = run(&items, &[]);
    assert_eq!(rs.len(), 3);
    assert!(rs.iter().all(|r| r.status == DiffStatus::Removed));
}

#[test]
fn runs_are_deterministic() {
    let old = ["foo-1.0", "foo-5.0", "bar-1", "qux-2.0", "qux-2.0"];
    let new = ["foo-2.0", "foo-4.0", "baz-1", "qux-2.1"];
    let a = run(&old, &new);
    let b = run(&old, &new);
    assert_eq!(a.len(), b.len());
    for (x, y) in a.iter().zip(b.iter()) {
        assert_eq!(x.name, y.name);
        assert_eq!(x.status, y.status);
        assert_eq!(displayed(&x.old), displayed(&y.old));
        assert_eq!(displayed(&x.new), displayed(&y.new));
        assert_eq!(x.has_common_versions, y.has_common_versions);
    }
}

#[test]
fn records_in_report_order() {
    let rs = run(
        &["zeta-1.0", "alpha-1.0", "gone-1", "old-2", "mid-1.0"],
        &["zeta-2.0", "alpha-0.5", "new-1", "fresh-3", "mid-1.0"],
    );
    let names: Vec<&str> = rs.iter().map(|r| r.name.as_str()).collect();
    assert_eq!(names, vec!["alpha", "zeta", "fresh", "new", "gone", "old"]);
}

#[test]
fn selection_status() {
    let sys_old = paths(&["foo-1.0", "bar-1.0"]);
    let sys_new = paths(&["foo-2.0", "baz-1.0"]);
    let rs = generate_diffs(
        &paths(&["foo-1.0", "bar-1.0", "qux-1"]),
        &paths(&["foo-2.0", "baz-1.0", "qux-2"]),
        &sys_old,
        &sys_new,
    );
    let sel = |n: &str| rs.iter().find(|r| r.name == n).unwrap().selection;
    assert_eq!(sel("foo"), DerivationSelectionStatus::Selected);
    assert_eq!(sel("bar"), DerivationSelectionStatus::NewlyUnselected);
    assert_eq!(sel("baz"), DerivationSelectionStatus::NewlySelected);
    assert_eq!(sel("qux"), DerivationSelectionStatus::Unselected);
}

#[test]
fn pairing_minimizes_total_distance() {
    let from = vec![v("1.2"), v("1.3.9")];
    let to = vec![v("1.3"), v("7.8")];
    let ps = match_version_lists(&from, &to);
    assert_eq!(ps, vec![Pairing::Both(0, 1), Pairing::Both(1, 0)]);
}

#[test]
fn leftover_versions_are_sorted_by_text() {
    let from = vec![v("2.0.5")];
    let to = vec![v("9.0"), v("2.0.6"), v("10.0")];
    let ps = match_version_lists(&from, &to);
    assert_eq!(ps, vec![Pairing::Both(0, 1), Pairing::Right(2), Pairing::Right(0)]);
}

#[test]
fn equal_components_pair_up() {
    let rs = run(&["foo-1.01", "foo-2"], &["foo-1.1", "foo-3"]);
    assert_eq!(rs.len(), 1);
    assert_eq!(rs[0].status, DiffStatus::Changed(Change::Upgraded));
    assert_eq!(rs[0].pairing.len(), 2);
}

#[test]
fn records_carry_their_pairing() {
    let rs = run(&["foo-1.0"], &["foo-1.1", "bar-2"]);
    let foo = rs.iter().find(|r| r.name == "foo").unwrap();
    assert_eq!(foo.pairing, vec![Pairing::Both(0, 0)]);
    let bar = rs.iter().find(|r| r.name == "bar").unwrap();
    assert_eq!(bar.pairing, vec![Pairing::Right(0)]);
}
