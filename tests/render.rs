use dix::render::{
    diff_chars, render_report, write_packages_diffln, write_size_diffln, CharDiff, Color, Span,
};
use dix::report::generate_diffs;
use dix::StorePath;
use yansi::Paint;

fn paint(span: &Span) -> String {
    let mut p = span.text.as_str().new();
    p = match span.style.color {
        Color::Plain => p,
        Color::Red => p.red(),
        Color::Green => p.green(),
        Color::Yellow => p.yellow(),
        Color::Blue => p.blue(),
        Color::BrightCyan => p.bright_cyan(),
        Color::Magenta => p.magenta(),
    };
    if span.style.bold {
        p = p.bold();
    }
    if span.style.italic {
        p = p.italic();
    }
    p.to_string()
}

fn painted(lines: &[Vec<Span>]) -> String {
    let mut out = String::new();
    for line in lines {
        for span in line {
            out.push_str(&paint(span));
        }
        out.push('\n');
    }
    out
}

fn plain(lines: &[Vec<Span>]) -> Vec<String> {
    lines.iter().map(|l| l.iter().map(|s| s.text.as_str()).collect::<String>()).collect()
}

fn paths(items: &[&str]) -> Vec<StorePath> {
    items
        .iter()
        .map(|s| StorePath::try_from(format!("/nix/store/{}-{}", "z".repeat(32), s)).unwrap())
        .collect()
}

#[test]
fn test_write_size_diffln() {
    let expected_output =
        "\u{1b}[1mSIZE\u{1b}[0m: \u{1b}[31m10 bytes\u{1b}[0m -> \u{1b}[32m20 \
     bytes\u{1b}[0m\n\u{1b}[1mDIFF\u{1b}[0m: \u{1b}[32m10 bytes\u{1b}[0m\n";
    let mut lines = Vec::new();
    write_size_diffln(&mut lines, 10, 20);
    assert_eq!(painted(&lines), expected_output);
}

#[test]
fn test_write_size_diffln_empty() {
    let expected_output =
        "\u{1b}[1mSIZE\u{1b}[0m: \u{1b}[31m0 bytes\u{1b}[0m -> \u{1b}[32m0 \
     bytes\u{1b}[0m\n\u{1b}[1mDIFF\u{1b}[0m: \u{1b}[31m0 bytes\u{1b}[0m\n";
    let mut lines = Vec::new();
    write_size_diffln(&mut lines, 0, 0);
    assert_eq!(painted(&lines), expected_output);
}

#[test]
fn size_shrinking_is_red() {
    let mut lines = Vec::new();
    write_size_diffln(&mut lines, 2048, 1024);
    assert_eq!(lines.len(), 2);
    assert_eq!(lines[1][2].style.color, Color::Red);
    assert!(lines[1][2].text.starts_with('-'));
}

#[test]
fn sections_in_order() {
    let rs = generate_diffs(
        &paths(&["gone-1.0", "foo-1.0", "bar-2.0"]),
        &paths(&["new-1.0", "foo-1.1", "bar-1.0"]),
        &Vec::new(),
        &Vec::new(),
    );
    let lines = plain(&render_report(&rs));
    assert_eq!(
        lines,
        vec![
            "CHANGED",
            "[D.] bar  2.0 -> 1.0",
            "[U.] foo  1.0 -> 1.1",
            "",
            "ADDED",
            "[A.] new  1.0",
            "",
            "REMOVED",
            "[R.] gone 1.0",
        ]
    );
}

#[test]
fn multiplicity_and_others_are_shown() {
    let mut out = Vec::new();
    let n = write_packages_diffln(
        &mut out,
        &paths(&["foo-1.0", "foo-1.0", "foo-1.0", "lib-1", "lib-2"]),
        &paths(&["foo-2.0", "lib-2", "lib-3"]),
        &Vec::new(),
        &Vec::new(),
    );
    assert_eq!(n, 2);
    let lines = plain(&out);
    assert_eq!(lines[0], "CHANGED");
    assert_eq!(lines[1], "[U.] foo 1.0 ×3 -> 2.0");
    assert_eq!(lines[2], "[U.] lib 1, <others> -> 3, <others>");
}

#[test]
fn names_pad_to_display_width() {
    let rs = generate_diffs(
        &paths(&["日本-1.0", "ab-1.0"]),
        &paths(&["日本-2.0", "ab-2.0"]),
        &Vec::new(),
        &Vec::new(),
    );
    let lines = plain(&render_report(&rs));
    assert_eq!(lines[1], "[U.] ab   1.0 -> 2.0");
    assert_eq!(lines[2], "[U.] 日本 1.0 -> 2.0");
}

#[test]
fn changed_pieces_are_colored() {
    let rs = generate_diffs(&paths(&["foo-1.2.3"]), &paths(&["foo-1.4.3"]), &Vec::new(), &Vec::new());
    let lines = render_report(&rs);
    let entry = &lines[1];
    let yellow: String =
        entry.iter().filter(|s| s.style.color == Color::Yellow).map(|s| s.text.as_str()).collect();
    let red: String =
        entry.iter().filter(|s| s.style.color == Color::Red).map(|s| s.text.as_str()).collect();
    let green: String =
        entry.iter().filter(|s| s.style.color == Color::Green).map(|s| s.text.as_str()).collect();
    assert_eq!(yellow, "1313");
    assert_eq!(red, "2");
    assert_eq!(green, "4");
    assert_eq!(entry[1].text, "U");
    assert_eq!(entry[1].style.color, Color::BrightCyan);
}

#[test]
fn char_diff_keeps_a_longest_common_subsequence() {
    let a: Vec<char> = "kitten".chars().collect();
    let b: Vec<char> = "sitting".chars().collect();
    let ops = diff_chars(&a, &b);
    let shared = ops.iter().filter(|o| matches!(o, CharDiff::Both(_))).count();
    assert_eq!(shared, 4);
    let left: String = ops
        .iter()
        .filter_map(|o| match o {
            CharDiff::Both(c) | CharDiff::Left(c) => Some(*c),
            CharDiff::Right(_) => None,
        })
        .collect();
    assert_eq!(left, "kitten");
}
