use std::cmp::Ordering;

use dix::util::{compare_versions, get_version, ParseError, VersionComponent, VersionComponentIterator};
use dix::version::{components, pieces, Version, VersionIter, VersionPiece};

fn v(s: &str) -> Version {
    Version::new(s.to_string())
}

fn component_texts(s: &str) -> Vec<String> {
    components(s).into_iter().map(|c| c.0).collect()
}

#[test]
fn version_component_iter() {
    let version = "132.1.2test234-1-man----.--.......---------..---";
    let mut it = VersionIter::from(version);
    let mut found = Vec::new();
    while let Some(piece) = it.next() {
        if let Some(c) = piece.component() {
            found.push(c.0);
        }
    }
    assert_eq!(found, vec!["132", "1", "2test234", "1", "man"]);
}

#[test]
fn test_version_component_iter() {
    let v = "132.1.2test234-1-man----.--.......---------..---";
    let mut it = VersionComponentIterator::new(v);
    let mut comp = Vec::new();
    while let Some(c) = it.next() {
        comp.push(c);
    }
    assert_eq!(
        comp,
        [
            VersionComponent::Number(132),
            VersionComponent::Number(1),
            VersionComponent::Number(2),
            VersionComponent::Text("test".into()),
            VersionComponent::Number(234),
            VersionComponent::Number(1),
            VersionComponent::Text("man".into())
        ]
    );
}

#[test]
fn legacy_iterator_stops_at_oversized_number() {
    let mut it = VersionComponentIterator::new("1.99999999999999999999999.2");
    assert_eq!(it.next(), Some(VersionComponent::Number(1)));
    assert_eq!(it.next(), None);
}

#[test]
fn legacy_compare_versions() {
    assert_eq!(compare_versions("1.2.3", "1.2.10"), Ordering::Less);
    assert_eq!(compare_versions("2.0", "2.0"), Ordering::Equal);
    assert_eq!(compare_versions("1.0pre1", "1.0"), Ordering::Greater);
    assert_eq!(compare_versions("1.0a", "1.0b"), Ordering::Less);
    assert_eq!(compare_versions("1.0.a", "1.0.1"), Ordering::Less);
    assert_eq!(compare_versions("1.0pre", "1.0pre"), Ordering::Equal);
    assert_eq!(compare_versions("1.pre", "1.alpha"), Ordering::Less);
    assert_eq!(compare_versions("1.007", "1.7"), Ordering::Equal);
}

#[test]
fn legacy_compare_reads_long_digit_runs_by_magnitude() {
    let a = "1.18446744073709551616";
    let b = "1.18446744073709551615";
    assert_eq!(compare_versions(a, b), Ordering::Greater);
    assert_eq!(compare_versions(b, a), Ordering::Less);
    assert_eq!(compare_versions("99999999999999999999999999", "99999999999999999999999999"), Ordering::Equal);
}

#[test]
fn legacy_get_version() {
    let (name, version) =
        get_version("/nix/store/cg09nslw3w6afyynjw484b86d47ic1cb-coreutils-9.7").unwrap();
    assert_eq!(name, "coreutils");
    assert_eq!(version, "9.7");
    let (name, version) =
        get_version("/nix/store/cg09nslw3w6afyynjw484b86d47ic1cb-hello").unwrap();
    assert_eq!(name, "hello");
    assert_eq!(version, "<none>");
    assert_eq!(get_version("/nix/store/short"), Err(ParseError::TooShort));
    assert_eq!(
        get_version("/nix/store/cg09nslw3w6afyynjw484b86d47ic1cb-"),
        Err(ParseError::NoName)
    );
}

#[test]
fn pieces_join_back_to_the_version() {
    for s in ["1.2.3", "1.0-pre", "2024-01-01_x+y*z=w", "1.0\u{d7}2 final", "7.β-ü", "..-"] {
        let joined: String = pieces(s)
            .into_iter()
            .map(|p| match p {
                VersionPiece::Component(c) => c.0,
                VersionPiece::Separator(t) => t,
            })
            .collect();
        assert_eq!(joined, s);
    }
}

#[test]
fn tokenizer_keeps_multibyte_characters_whole() {
    assert_eq!(component_texts("1.0-βeta"), vec!["1", "0", "βeta"]);
    assert_eq!(component_texts("2\u{d7}3"), vec!["2", "3"]);
    let ps = pieces("ü.ö");
    assert_eq!(ps.len(), 3);
    assert!(matches!(&ps[1], VersionPiece::Separator(t) if t == "."));
}

#[test]
fn unicode_versions_compare() {
    assert_eq!(v("1.0-ä").compare(&v("1.0-z")), Ordering::Greater);
    assert_eq!(v("1.0-β").compare(&v("1.0-β")), Ordering::Equal);
    assert_eq!(v("1.0-α").compare(&v("1.0-β")), Ordering::Less);
}

#[test]
fn version_order_examples() {
    assert_eq!(v("1.0.0").compare(&v("1.0.0-alpha")), Ordering::Greater);
    assert_eq!(v("1.0.0-pre").compare(&v("1.0.0")), Ordering::Less);
    assert_eq!(v("1.10").compare(&v("1.9")), Ordering::Greater);
    assert_eq!(v("1.010").compare(&v("1.10")), Ordering::Equal);
    assert_eq!(v("1.pre").compare(&v("1.alpha")), Ordering::Less);
    assert_eq!(v("1.pre").compare(&v("1.pre")), Ordering::Equal);
    assert_eq!(v("1.2").compare(&v("1.b")), Ordering::Greater);
    assert_eq!(v("1.0.1").compare(&v("1.0")), Ordering::Greater);
    assert_eq!(
        v("123456789012345678901234567890").compare(&v("123456789012345678901234567891")),
        Ordering::Less
    );
}

#[test]
fn version_order_is_antisymmetric_on_samples() {
    let samples = ["1", "1.0", "1.0.0-pre", "1.a", "2.0", "0.9", "1.01", "pre", "alpha", "1-rc1"];
    for a in samples {
        for b in samples {
            assert_eq!(v(a).compare(&v(b)), v(b).compare(&v(a)).reverse());
        }
    }
}

#[test]
fn prerelease_extensions_break_transitivity() {
    // Each step follows the order; the tail rule closes a cycle.
    assert_eq!(v("1").compare(&v("1.1")), Ordering::Less);
    assert_eq!(v("1.1").compare(&v("1.2.a")), Ordering::Less);
    assert_eq!(v("1.2.a").compare(&v("1")), Ordering::Less);
}
