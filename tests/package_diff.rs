use dix::util::PackageDiff;

fn sorted(mut v: Vec<String>) -> Vec<String> {
    v.sort();
    v
}

#[test]
fn package_diff_splits_names() {
    let pre: Vec<String> = vec![
        "/nix/store/00000000000000000000000000000000-foo-1.0".into(),
        "/nix/store/00000000000000000000000000000000-foo-1.0".into(),
        "/nix/store/00000000000000000000000000000000-foo-1.1".into(),
        "/nix/store/00000000000000000000000000000000-bar-2".into(),
        "short".into(),
    ];
    let post: Vec<String> = vec![
        "/nix/store/00000000000000000000000000000000-foo-1.2".into(),
        "/nix/store/00000000000000000000000000000000-baz".into(),
    ];
    let d = PackageDiff::new(&pre, &post);
    assert_eq!(sorted(d.pre_keys.clone()), vec!["bar", "foo"]);
    assert_eq!(sorted(d.post_keys.clone()), vec!["baz", "foo"]);
    assert_eq!(d.added, vec!["baz"]);
    assert_eq!(d.removed, vec!["bar"]);
    assert_eq!(d.changed, vec!["foo"]);
    let foo = d.pkg_to_versions_pre.iter().find(|(n, _)| n == "foo").unwrap();
    assert_eq!(sorted(foo.1.clone()), vec!["1.0", "1.1"]);
    let baz = d.pkg_to_versions_post.iter().find(|(n, _)| n == "baz").unwrap();
    assert_eq!(baz.1, vec!["<none>"]);
}
