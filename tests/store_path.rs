use dix::fixtures::{store_path, store_prefix, system_path, system_path_derivation, Closure};
use dix::store_path::StorePathError;
use dix::StorePath;

fn parse(path: &str) -> Result<(String, Option<String>), StorePathError> {
    let p = StorePath::try_from(path.to_string()).expect("Could not create path");
    p.parse_name_and_version().map(|(n, v)| (n, v.map(|v| v.name)))
}

#[test]
fn parses_name_and_version() {
    assert_eq!(
        parse("/nix/store/cg09nslw3w6afyynjw484b86d47ic1cb-coreutils-9.7"),
        Ok(("coreutils".to_string(), Some("9.7".to_string())))
    );
    assert_eq!(
        parse("/nix/store/6d4dp25lani18z9sbnb5shwzzc3y5yh8-bacon-3.12.0"),
        Ok(("bacon".to_string(), Some("3.12.0".to_string())))
    );
}

#[test]
fn name_ending_in_digit_keeps_it() {
    assert_eq!(
        parse("/nix/store/00000000000000000000000000000000-libfoo2-1.0"),
        Ok(("libfoo2".to_string(), Some("1.0".to_string())))
    );
    assert_eq!(
        parse("/nix/store/00000000000000000000000000000000-foo-1.0-2.0"),
        Ok(("foo".to_string(), Some("1.0-2.0".to_string())))
    );
}

#[test]
fn built_paths_round_trip() {
    for (name, version, expect) in [
        ("foo", "1.0", true),
        ("bar-baz", "2.3.4-pre", true),
        ("qux", "man", false),
        ("x", "", false),
    ] {
        let path = format!("/nix/store/{}-{}-{}", "0".repeat(32), name, version);
        let got = parse(&path).unwrap();
        assert_eq!(got == (name.to_string(), Some(version.to_string())), expect);
    }
}

#[test]
fn path_without_version() {
    assert_eq!(
        parse("/nix/store/00000000000000000000000000000000-hello"),
        Ok(("hello".to_string(), None))
    );
}

#[test]
fn rejects_paths_outside_the_store() {
    assert!(StorePath::try_from("/usr/bin/env".to_string()).is_err());
    assert!(StorePath::try_from("/nix/storefoo/x".to_string()).is_err());
    assert_eq!(parse("/nix/store/short"), Err(StorePathError::BadShape));
    assert_eq!(
        parse("/nix/store/00000000000000000000000000000000-"),
        Err(StorePathError::NoName)
    );
}

#[test]
fn fixture_paths() {
    assert_eq!(store_prefix(), "/nix/store/00000000000000000000000000000000-");
    assert_eq!(store_path("foo"), "/nix/store/00000000000000000000000000000000-foo");
    assert_eq!(system_path("nixos-25.11"), "/nix/store/00000000000000000000000000000000-nixos-25.11-system");
    assert_eq!(
        system_path_derivation("nixos-25.11"),
        "/nix/store/00000000000000000000000000000000-nixos-25.11-system-path"
    );
}

#[test]
fn closure_ids_keep_the_first() {
    let mut c = Closure::new();
    assert_eq!(c.get_id("a"), None);
    c.record("a".to_string(), 1);
    c.record("b".to_string(), 2);
    c.record("a".to_string(), 3);
    assert_eq!(c.get_id("a"), Some(1));
    assert_eq!(c.get_id("b"), Some(2));
    assert_eq!(c.get_id("c"), None);
}

#[test]
fn test_push_parsed_name_and_version_old() {
    let path: StorePath = StorePath::try_from(
        "/nix/store/cg09nslw3w6afyynjw484b86d47ic1cb-coreutils-9.7".to_string(),
    )
    .expect("Could not create path");

    let parsed = dix::report::parse_paths(&vec![path]);

    assert_eq!(parsed.len(), 1);
    assert_eq!(parsed[0].name, "coreutils");
    assert_eq!(parsed[0].version, "9.7");
}

#[test]
fn test_push_parsed_name_and_version_new() {
    let path: StorePath = StorePath::try_from(
        "/nix/store/6d4dp25lani18z9sbnb5shwzzc3y5yh8-bacon-3.12.0".to_string(),
    )
    .expect("Could not create path");

    let parsed = dix::report::parse_paths(&vec![path]);

    assert_eq!(parsed.len(), 1);
    assert_eq!(parsed[0].name, "bacon");
    assert_eq!(parsed[0].version, "3.12.0");
}
