use dix::backend::{any_connected, next_backend, CommandBackend};

#[test]
fn reads_paths_from_command_output() {
    let out = "/nix/store/00000000000000000000000000000000-a-1.0\n/nix/store/11111111111111111111111111111111-b\r\n";
    let paths = CommandBackend::parse_path_lines(out).unwrap();
    assert_eq!(paths.len(), 2);
    assert_eq!(paths[0].as_str(), "/nix/store/00000000000000000000000000000000-a-1.0");
    assert_eq!(paths[1].as_str(), "/nix/store/11111111111111111111111111111111-b");
    assert!(CommandBackend::parse_path_lines("/nix/store/x\nnot-a-path\n").is_err());
    assert!(CommandBackend::parse_path_lines("").unwrap().is_empty());
}

#[test]
fn reads_closure_size_from_last_word() {
    assert_eq!(
        CommandBackend::parse_closure_size("/nix/store/0000-system/sw\t 123456789\n"),
        Some(123456789)
    );
    assert_eq!(CommandBackend::parse_closure_size("path +42"), Some(42));
    assert_eq!(CommandBackend::parse_closure_size("path abc"), None);
    assert_eq!(CommandBackend::parse_closure_size(""), None);
    assert_eq!(CommandBackend::parse_closure_size("x 18446744073709551616"), None);
    assert_eq!(CommandBackend::parse_closure_size("x 18446744073709551615"), Some(u64::MAX));
}

#[test]
fn fallback_picks_the_next_connected_backend() {
    let statuses = vec![false, true, false, true];
    assert_eq!(next_backend(&statuses, 0), Some(1));
    assert_eq!(next_backend(&statuses, 2), Some(3));
    assert_eq!(next_backend(&statuses, 4), None);
    assert!(any_connected(&statuses));
    assert!(!any_connected(&vec![false, false]));
    assert!(!any_connected(&vec![]));
}
