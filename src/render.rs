//! The report as styled text: spans of text, each with a colour and
//! emphasis, that a terminal front end paints.
use vstd::prelude::*;

use crate::diff::{Change, DiffStatus};
use crate::pairing::{complete_pairing, match_version_lists, Pairing};
use crate::report::{
    diff_report, generate_diffs, names_of, parsed_all, path_views, DerivationSelectionStatus,
    DiffRecord,
};
use crate::store_path::StorePath;
use crate::text::{chars_of, substring};
use crate::version::{
    concat_pieces, lemma_pieces_concat, piece_views, PieceView, Version, VersionPiece,
    VersionView,
};

verus! {

/// A colour of the report.
#[derive(PartialEq, Eq, Structural, Debug, Clone, Copy)]
pub enum Color {
    Plain,
    Red,
    Green,
    Yellow,
    Blue,
    BrightCyan,
    Magenta,
}

/// How a span is shown.
#[derive(PartialEq, Eq, Structural, Debug, Clone, Copy)]
pub struct Style {
    pub color: Color,
    pub bold: bool,
    pub italic: bool,
}

pub open spec fn plain_style() -> Style {
    Style { color: Color::Plain, bold: false, italic: false }
}

pub fn style(color: Color, bold: bool, italic: bool) -> (r: Style)
    ensures
        r == (Style { color, bold, italic }),
{
    Style { color, bold, italic }
}

/// A piece of text in one style.
pub struct Span {
    pub text: String,
    pub style: Style,
}

pub struct SpanView {
    pub text: Seq<char>,
    pub style: Style,
}

impl View for Span {
    type V = SpanView;

    open spec fn view(&self) -> SpanView {
        SpanView { text: self.text@, style: self.style }
    }
}

pub open spec fn span_views(ss: Seq<Span>) -> Seq<SpanView> {
    ss.map_values(|s: Span| s@)
}

/// The text of the spans, joined.
pub open spec fn spans_text(ss: Seq<SpanView>) -> Seq<char>
    decreases ss.len(),
{
    if ss.len() == 0 {
        Seq::empty()
    } else {
        spans_text(ss.drop_last()) + ss.last().text
    }
}

/// Appends a span to `out`.
pub fn push_span(out: &mut Vec<Span>, text: String, st: Style)
    ensures
        span_views(final(out)@) == span_views(old(out)@).push(SpanView { text: text@, style: st }),
        spans_text(span_views(final(out)@)) == spans_text(span_views(old(out)@)) + text@,
{
    let ghost t = text@;
    out.push(Span { text, style: st });
    assert(span_views(out@) =~= span_views(old(out)@).push(SpanView { text: t, style: st }));
    assert(span_views(out@).drop_last() =~= span_views(old(out)@));
}

proof fn lemma_spans_text_concat(a: Seq<SpanView>, b: Seq<SpanView>)
    ensures
        spans_text(a + b) == spans_text(a) + spans_text(b),
    decreases b.len(),
{
    if b.len() == 0 {
        assert(a + b =~= a);
    } else {
        assert((a + b).drop_last() =~= a + b.drop_last());
        lemma_spans_text_concat(a, b.drop_last());
    }
}

/// Appends all of `more` to `out`.
pub fn append_spans(out: &mut Vec<Span>, more: Vec<Span>)
    ensures
        span_views(final(out)@) == span_views(old(out)@) + span_views(more@),
        spans_text(span_views(final(out)@)) == spans_text(span_views(old(out)@)) + spans_text(
            span_views(more@),
        ),
{
    let mut more = more;
    let ghost m = span_views(more@);
    out.append(&mut more);
    assert(span_views(out@) =~= span_views(old(out)@) + m);
    proof {
        lemma_spans_text_concat(span_views(old(out)@), m);
    }
}


/// One step of a character-level comparison: a character both texts
/// share, or one only the old or only the new text has.
#[derive(PartialEq, Eq, Structural, Debug, Clone, Copy)]
pub enum CharDiff {
    Both(char),
    Left(char),
    Right(char),
}

/// The old text that the steps spell.
pub open spec fn left_chars(ops: Seq<CharDiff>) -> Seq<char>
    decreases ops.len(),
{
    if ops.len() == 0 {
        Seq::empty()
    } else {
        let rest = left_chars(ops.drop_last());
        match ops.last() {
            CharDiff::Both(c) => rest.push(c),
            CharDiff::Left(c) => rest.push(c),
            CharDiff::Right(_) => rest,
        }
    }
}

/// The new text that the steps spell.
pub open spec fn right_chars(ops: Seq<CharDiff>) -> Seq<char>
    decreases ops.len(),
{
    if ops.len() == 0 {
        Seq::empty()
    } else {
        let rest = right_chars(ops.drop_last());
        match ops.last() {
            CharDiff::Both(c) => rest.push(c),
            CharDiff::Left(_) => rest,
            CharDiff::Right(c) => rest.push(c),
        }
    }
}

fn zeros(len: usize) -> (r: Vec<usize>)
    ensures
        r@.len() == len,
        forall|y: int| 0 <= y < len ==> #[trigger] r@[y] == 0,
{
    let mut r: Vec<usize> = Vec::new();
    let mut j: usize = 0;
    while j < len
        invariant
            j <= len,
            r@.len() == j,
            forall|y: int| 0 <= y < j ==> #[trigger] r@[y] == 0,
        decreases len - j,
    {
        r.push(0);
        j = j + 1;
    }
    r
}

/// The length of a longest common subsequence of `a` and `b`.
pub open spec fn lcs_len(a: Seq<char>, b: Seq<char>) -> nat
    decreases a.len() + b.len(),
{
    if a.len() == 0 || b.len() == 0 {
        0
    } else if a[0] == b[0] {
        1 + lcs_len(a.drop_first(), b.drop_first())
    } else {
        let x = lcs_len(a.drop_first(), b);
        let y = lcs_len(a, b.drop_first());
        if x >= y {
            x
        } else {
            y
        }
    }
}

/// The number of characters that the steps keep on both sides.
pub open spec fn shared_count(ops: Seq<CharDiff>) -> nat
    decreases ops.len(),
{
    if ops.len() == 0 {
        0
    } else {
        shared_count(ops.drop_last()) + if ops.last() is Both {
            1nat
        } else {
            0nat
        }
    }
}

proof fn lemma_lcs_bound(a: Seq<char>, b: Seq<char>)
    ensures
        lcs_len(a, b) <= a.len(),
    decreases a.len() + b.len(),
{
    if a.len() > 0 && b.len() > 0 {
        lemma_lcs_bound(a.drop_first(), b.drop_first());
        lemma_lcs_bound(a.drop_first(), b);
        lemma_lcs_bound(a, b.drop_first());
    }
}

/// The lengths of the longest common subsequences of the suffixes of `a`
/// and `b`: entry `[n - i][j]` is for `a[i..]` and `b[j..]`.
fn lcs_table(a: &Vec<char>, b: &Vec<char>) -> (t: Vec<Vec<usize>>)
    requires
        a@.len() < usize::MAX,
        b@.len() < usize::MAX,
    ensures
        t@.len() == a@.len() + 1,
        forall|k: int| 0 <= k < t@.len() ==> #[trigger] t@[k]@.len() == b@.len() + 1,
        forall|k: int, j: int| 0 <= k < t@.len() && 0 <= j <= b@.len() ==> #[trigger] t@[k]@[j] == lcs_len(a@.skip(a@.len() - k), b@.skip(j)),
{
    let n = a.len();
    let m = b.len();
    let mut t: Vec<Vec<usize>> = Vec::new();
    t.push(zeros(m + 1));
    assert forall|j: int| 0 <= j <= m implies #[trigger] t@[0]@[j] == lcs_len(a@.skip(n as int), b@.skip(j)) by {
        assert(a@.skip(n as int).len() == 0);
    }
    let mut k: usize = 1;
    while k <= n
        invariant
            1 <= k <= n + 1,
            n == a@.len(),
            m == b@.len(),
            n < usize::MAX,
            m < usize::MAX,
            t@.len() == k,
            forall|x: int| 0 <= x < t@.len() ==> #[trigger] t@[x]@.len() == m + 1,
            forall|x: int, y: int| 0 <= x < t@.len() && 0 <= y <= m ==> #[trigger] t@[x]@[y] == lcs_len(a@.skip(n - x), b@.skip(y)),
        decreases n + 1 - k,
    {
        let i = n - k;
        let mut row = zeros(m + 1);
        proof {
            assert(b@.skip(m as int).len() == 0);
        }
        let mut j: usize = m;
        while j > 0
            invariant
                j <= m,
                i < n,
                n == a@.len(),
                m == b@.len(),
                m < usize::MAX,
                t@.len() == k,
                k == n - i,
                forall|x: int| 0 <= x < t@.len() ==> #[trigger] t@[x]@.len() == m + 1,
                forall|x: int, y: int| 0 <= x < t@.len() && 0 <= y <= m ==> #[trigger] t@[x]@[y] == lcs_len(a@.skip(n - x), b@.skip(y)),
                row@.len() == m + 1,
                row@[m as int] == 0,
                forall|y: int| j <= y <= m ==> #[trigger] row@[y] == lcs_len(a@.skip(i as int), b@.skip(y)),
            decreases j,
        {
            j = j - 1;
            let prev = &t[k - 1];
            let ghost x = a@.skip(i as int);
            let ghost y = b@.skip(j as int);
            proof {
                assert(x[0] == a@[i as int]);
                assert(y[0] == b@[j as int]);
                assert(x.drop_first() =~= a@.skip(i + 1));
                assert(y.drop_first() =~= b@.skip(j + 1));
                assert(n - (k - 1) == i + 1);
                lemma_lcs_bound(a@.skip(i + 1), b@.skip(j + 1));
                lemma_lcs_bound(a@.skip(i + 1), b@.skip(j as int));
                lemma_lcs_bound(x, b@.skip(j + 1));
                assert(prev@[j + 1] == lcs_len(a@.skip(i + 1), b@.skip(j + 1)));
                assert(prev@[j as int] == lcs_len(a@.skip(i + 1), b@.skip(j as int)));
            }
            let v = if a[i] == b[j] {
                prev[j + 1] + 1
            } else if prev[j] >= row[j + 1] {
                prev[j]
            } else {
                row[j + 1]
            };
            row[j] = v;
            assert(row@[j as int] == lcs_len(x, y));
        }
        proof {
            assert(row@[m as int] == lcs_len(a@.skip(i as int), b@.skip(m as int)));
        }
        t.push(row);
        k = k + 1;
    }
    t
}

proof fn lemma_chars_push(ops: Seq<CharDiff>, op: CharDiff)
    ensures
        left_chars(ops.push(op)) == match op {
            CharDiff::Right(_) => left_chars(ops),
            CharDiff::Both(c) => left_chars(ops).push(c),
            CharDiff::Left(c) => left_chars(ops).push(c),
        },
        right_chars(ops.push(op)) == match op {
            CharDiff::Left(_) => right_chars(ops),
            CharDiff::Both(c) => right_chars(ops).push(c),
            CharDiff::Right(c) => right_chars(ops).push(c),
        },
        shared_count(ops.push(op)) == shared_count(ops) + if op is Both {
            1nat
        } else {
            0nat
        },
{
    assert(ops.push(op).drop_last() =~= ops);
}

/// Compares two texts character by character, along a longest common
/// subsequence. The steps spell out both texts.
pub fn diff_chars(a: &Vec<char>, b: &Vec<char>) -> (r: Vec<CharDiff>)
    ensures
        left_chars(r@) == a@,
        right_chars(r@) == b@,
        a@.len() < usize::MAX && b@.len() < usize::MAX ==> shared_count(r@) == lcs_len(a@, b@),
{
    let n = a.len();
    let m = b.len();
    let mut ops: Vec<CharDiff> = Vec::new();
    if n == usize::MAX || m == usize::MAX {
        let mut i: usize = 0;
        while i < n
            invariant
                i <= n,
                n == a@.len(),
                left_chars(ops@) == a@.take(i as int),
                right_chars(ops@) == Seq::<char>::empty(),
            decreases n - i,
        {
            let ghost prev = ops@;
            ops.push(CharDiff::Left(a[i]));
            proof {
                lemma_chars_push(prev, CharDiff::Left(a@[i as int]));
            }
            i = i + 1;
            assert(a@.take(i as int) =~= left_chars(ops@));
        }
        let mut j: usize = 0;
        while j < m
            invariant
                j <= m,
                m == b@.len(),
                left_chars(ops@) == a@,
                right_chars(ops@) == b@.take(j as int),
            decreases m - j,
        {
            let ghost prev = ops@;
            ops.push(CharDiff::Right(b[j]));
            proof {
                lemma_chars_push(prev, CharDiff::Right(b@[j as int]));
            }
            j = j + 1;
            assert(b@.take(j as int) =~= right_chars(ops@));
        }
        assert(a@.take(n as int) =~= a@);
        assert(b@.take(m as int) =~= b@);
        return ops;
    }
    let t = lcs_table(a, b);
    let mut i: usize = 0;
    let mut j: usize = 0;
    assert(a@.skip(0) =~= a@);
    assert(b@.skip(0) =~= b@);
    while i < n || j < m
        invariant
            i <= n,
            j <= m,
            n == a@.len(),
            m == b@.len(),
            t@.len() == n + 1,
            forall|k: int| 0 <= k < t@.len() ==> #[trigger] t@[k]@.len() == m + 1,
            forall|k: int, y: int| 0 <= k < t@.len() && 0 <= y <= m ==> #[trigger] t@[k]@[y] == lcs_len(a@.skip(n - k), b@.skip(y)),
            left_chars(ops@) == a@.take(i as int),
            right_chars(ops@) == b@.take(j as int),
            shared_count(ops@) + lcs_len(a@.skip(i as int), b@.skip(j as int)) == lcs_len(a@, b@),
        decreases n - i + m - j,
    {
        let ghost prev = ops@;
        proof {
            let x = a@.skip(i as int);
            let y = b@.skip(j as int);
            if i < n {
                assert(x[0] == a@[i as int]);
                assert(x.drop_first() =~= a@.skip(i + 1));
            }
            if j < m {
                assert(y[0] == b@[j as int]);
                assert(y.drop_first() =~= b@.skip(j + 1));
            }
            if i < n && j < m {
                assert(t@[n - i - 1]@[j as int] == lcs_len(a@.skip(i + 1), b@.skip(j as int)));
                assert(t@[n - i as int]@[j + 1] == lcs_len(a@.skip(i as int), b@.skip(j + 1)));
            }
            if i == n {
                assert(x.len() == 0);
                assert(b@.skip(j + 1).len() >= 0);
            }
            if j == m {
                assert(y.len() == 0);
            }
        }
        if i == n {
            let op = CharDiff::Right(b[j]);
            ops.push(op);
            proof {
                lemma_chars_push(prev, op);
            }
            j = j + 1;
        } else if j == m {
            let op = CharDiff::Left(a[i]);
            ops.push(op);
            proof {
                lemma_chars_push(prev, op);
            }
            i = i + 1;
        } else if a[i] == b[j] {
            let op = CharDiff::Both(a[i]);
            ops.push(op);
            proof {
                lemma_chars_push(prev, op);
            }
            i = i + 1;
            j = j + 1;
        } else if t[n - i - 1][j] >= t[n - i][j + 1] {
            let op = CharDiff::Left(a[i]);
            ops.push(op);
            proof {
                lemma_chars_push(prev, op);
            }
            i = i + 1;
        } else {
            let op = CharDiff::Right(b[j]);
            ops.push(op);
            proof {
                lemma_chars_push(prev, op);
            }
            j = j + 1;
        }
        assert(a@.take(i as int) =~= left_chars(ops@));
        assert(b@.take(j as int) =~= right_chars(ops@));
    }
    assert(a@.take(n as int) =~= a@);
    assert(b@.take(m as int) =~= b@);
    ops
}


// ---------------------------------------------------------------------------
// Versions
// ---------------------------------------------------------------------------

pub open spec fn digit_char(d: nat) -> char {
    seq!['0', '1', '2', '3', '4', '5', '6', '7', '8', '9'][d as int]
}

/// The decimal digits of `n`, without leading zeros.
pub open spec fn decimal(n: nat) -> Seq<char>
    decreases n,
{
    if n < 10 {
        seq![digit_char(n)]
    } else {
        decimal(n / 10).push(digit_char(n % 10))
    }
}

/// Relies on std's `Display` for `usize` (through `to_string`): the
/// decimal digits of the number, without leading zeros.
#[verifier::external_body]
fn decimal_text(n: usize) -> (r: String)
    ensures
        r@ == decimal(n as nat),
{
    n.to_string()
}

/// ` ×N`, the mark of a version that occurs `N` times.
pub open spec fn multiplicity_mark(n: nat) -> Seq<char> {
    seq![' ', '\u{d7}'] + decimal(n)
}

/// How a version reads in the report: its text, and ` ×N` where it occurs
/// `N > 1` times.
pub open spec fn display_of(v: VersionView) -> Seq<char> {
    if v.multiplicity > 1 {
        v.text + multiplicity_mark(v.multiplicity)
    } else {
        v.text
    }
}

fn multiplicity_text(n: usize) -> (r: String)
    ensures
        r@ == multiplicity_mark(n as nat),
{
    let mut r = String::new();
    proof {
        reveal_strlit(" \u{d7}");
    }
    r.append(" \u{d7}");
    let d = decimal_text(n);
    r.append(d.as_str());
    r
}

impl Version {
    /// How the version reads in the report: its text, and ` ×N` where it
    /// occurs `N > 1` times.
    pub fn display_string(&self) -> (r: String)
        ensures
            r@ == display_of(self@),
    {
        let mut r = self.name.clone();
        if self.multiplicity > 1 {
            let m = multiplicity_text(self.multiplicity);
            r.append(m.as_str());
        }
        r
    }
}

/// Writes the pieces `from..to` of a version: components in `st`,
/// separators plain.
fn push_pieces(out: &mut Vec<Span>, ps: &Vec<VersionPiece>, from: usize, to: usize, st: Style)
    requires
        from <= to <= ps@.len(),
    ensures
        spans_text(span_views(final(out)@)) == spans_text(span_views(old(out)@)) + concat_pieces(
            piece_views(ps@).subrange(from as int, to as int),
        ),
{
    let ghost start = spans_text(span_views(out@));
    let ghost pv = piece_views(ps@);
    let mut k = from;
    assert(pv.subrange(from as int, from as int) =~= Seq::<PieceView>::empty());
    while k < to
        invariant
            from <= k <= to,
            to <= ps@.len(),
            pv == piece_views(ps@),
            spans_text(span_views(out@)) == start + concat_pieces(pv.subrange(from as int, k as int)),
        decreases to - k,
    {
        assert(pv.subrange(from as int, k + 1).drop_last() =~= pv.subrange(from as int, k as int));
        assert(pv.subrange(from as int, k + 1).last() == pv[k as int]);
        match &ps[k] {
            VersionPiece::Component(c) => {
                push_span(out, c.0.clone(), st);
            },
            VersionPiece::Separator(t) => {
                push_span(out, t.clone(), Style { color: Color::Plain, bold: false, italic: false });
            },
        }
        k = k + 1;
    }
}

/// Writes a whole version: its components in `st`, its separators plain.
fn push_version(out: &mut Vec<Span>, v: &Version, st: Style)
    ensures
        spans_text(span_views(final(out)@)) == spans_text(span_views(old(out)@)) + v@.text,
{
    let ps = v.pieces();
    push_pieces(out, &ps, 0, ps.len(), st);
    proof {
        lemma_pieces_concat(v@.text);
        assert(piece_views(ps@).subrange(0, ps@.len() as int) =~= piece_views(ps@));
    }
}

fn same_piece(a: &VersionPiece, b: &VersionPiece) -> (r: bool)
    ensures
        r == (a@ == b@),
{
    match (a, b) {
        (VersionPiece::Component(x), VersionPiece::Component(y)) => x.0 == y.0,
        (VersionPiece::Separator(x), VersionPiece::Separator(y)) => *x == *y,
        _ => false,
    }
}

fn piece_text(p: &VersionPiece) -> (r: &String)
    ensures
        r@ == p@.text(),
{
    match p {
        VersionPiece::Component(c) => &c.0,
        VersionPiece::Separator(t) => t,
    }
}

fn yellow() -> (r: Style)
    ensures
        r == (Style { color: Color::Yellow, bold: false, italic: false }),
{
    Style { color: Color::Yellow, bold: false, italic: false }
}

fn red() -> (r: Style)
    ensures
        r == (Style { color: Color::Red, bold: false, italic: false }),
{
    Style { color: Color::Red, bold: false, italic: false }
}

fn green() -> (r: Style)
    ensures
        r == (Style { color: Color::Green, bold: false, italic: false }),
{
    Style { color: Color::Green, bold: false, italic: false }
}

/// Whether two texts longer than twenty characters differ at every
/// position.
fn all_positions_differ(a: &Vec<char>, b: &Vec<char>) -> (r: bool) {
    if a.len() <= 20 || b.len() <= 20 {
        return false;
    }
    let mut k: usize = 0;
    while k < a.len() && k < b.len()
        invariant
            k <= a@.len(),
            k <= b@.len(),
        decreases a.len() - k,
    {
        if a[k] == b[k] {
            return false;
        }
        k = k + 1;
    }
    true
}

/// Writes two differing components character by character: shared
/// characters yellow until the first difference, and after it in red and
/// green; characters of one side only in red (old) or green (new).
fn push_component_diff(old_out: &mut Vec<Span>, new_out: &mut Vec<Span>, a: &String, b: &String)
    ensures
        spans_text(span_views(final(old_out)@)) == spans_text(span_views(old(old_out)@)) + a@,
        spans_text(span_views(final(new_out)@)) == spans_text(span_views(old(new_out)@)) + b@,
{
    let x = chars_of(a.as_str());
    let y = chars_of(b.as_str());
    if all_positions_differ(&x, &y) {
        push_span(old_out, a.clone(), red());
        push_span(new_out, b.clone(), green());
        return;
    }
    let ops = diff_chars(&x, &y);
    let xl = x.len();
    let yl = y.len();
    let ghost so = spans_text(span_views(old_out@));
    let ghost sn = spans_text(span_views(new_out@));
    let mut active = false;
    let mut ia: usize = 0;
    let mut ib: usize = 0;
    let mut k: usize = 0;
    while k < ops.len()
        invariant
            k <= ops@.len(),
            x@ == a@,
            y@ == b@,
            xl == a@.len(),
            yl == b@.len(),
            left_chars(ops@) == a@,
            right_chars(ops@) == b@,
            ia == left_chars(ops@.take(k as int)).len(),
            ib == right_chars(ops@.take(k as int)).len(),
            spans_text(span_views(old_out@)) == so + left_chars(ops@.take(k as int)),
            spans_text(span_views(new_out@)) == sn + right_chars(ops@.take(k as int)),
        decreases ops.len() - k,
    {
        proof {
            assert(ops@.take(k + 1) =~= ops@.take(k as int).push(ops@[k as int]));
            lemma_chars_push(ops@.take(k as int), ops@[k as int]);
            lemma_prefix_chars(ops@, k as int + 1);
            assert(left_chars(ops@.take(k + 1)).len() <= xl);
            assert(right_chars(ops@.take(k + 1)).len() <= yl);
        }
        match ops[k] {
            CharDiff::Both(_) => {
                let st_old = if active { red() } else { yellow() };
                let st_new = if active { green() } else { yellow() };
                push_span(old_out, substring(a.as_str(), ia, ia + 1), st_old);
                push_span(new_out, substring(b.as_str(), ib, ib + 1), st_new);
                proof {
                    assert(a@.subrange(ia as int, ia + 1) =~= seq![left_chars(ops@.take(k + 1)).last()]);
                    assert(b@.subrange(ib as int, ib + 1) =~= seq![right_chars(ops@.take(k + 1)).last()]);
                }
                ia = ia + 1;
                ib = ib + 1;
            },
            CharDiff::Left(_) => {
                push_span(old_out, substring(a.as_str(), ia, ia + 1), red());
                proof {
                    assert(a@.subrange(ia as int, ia + 1) =~= seq![left_chars(ops@.take(k + 1)).last()]);
                }
                active = true;
                ia = ia + 1;
            },
            CharDiff::Right(_) => {
                push_span(new_out, substring(b.as_str(), ib, ib + 1), green());
                proof {
                    assert(b@.subrange(ib as int, ib + 1) =~= seq![right_chars(ops@.take(k + 1)).last()]);
                }
                active = true;
                ib = ib + 1;
            },
        }
        k = k + 1;
    }
    assert(ops@.take(ops@.len() as int) =~= ops@);
}

/// What the steps up to `k` spell is a prefix of what all of them spell.
proof fn lemma_prefix_chars(ops: Seq<CharDiff>, k: int)
    requires
        0 <= k <= ops.len(),
    ensures
        left_chars(ops.take(k)).len() <= left_chars(ops).len(),
        right_chars(ops.take(k)).len() <= right_chars(ops).len(),
        left_chars(ops.take(k)) == left_chars(ops).take(left_chars(ops.take(k)).len() as int),
        right_chars(ops.take(k)) == right_chars(ops).take(right_chars(ops.take(k)).len() as int),
    decreases ops.len() - k,
{
    if k == ops.len() {
        assert(ops.take(k) =~= ops);
        assert(left_chars(ops).take(left_chars(ops).len() as int) =~= left_chars(ops));
        assert(right_chars(ops).take(right_chars(ops).len() as int) =~= right_chars(ops));
    } else {
        lemma_prefix_chars(ops, k + 1);
        assert(ops.take(k + 1) =~= ops.take(k).push(ops[k]));
        lemma_chars_push(ops.take(k), ops[k]);
        let l = left_chars(ops.take(k + 1));
        let r = right_chars(ops.take(k + 1));
        assert(left_chars(ops.take(k)) =~= l.take(left_chars(ops.take(k)).len() as int));
        assert(right_chars(ops.take(k)) =~= r.take(right_chars(ops.take(k)).len() as int));
        assert(left_chars(ops).take(l.len() as int).take(left_chars(ops.take(k)).len() as int)
            =~= left_chars(ops).take(left_chars(ops.take(k)).len() as int));
        assert(right_chars(ops).take(r.len() as int).take(right_chars(ops.take(k)).len() as int)
            =~= right_chars(ops).take(right_chars(ops.take(k)).len() as int));
    }
}


proof fn lemma_concat_split(pv: Seq<PieceView>, a: int, b: int, c: int)
    requires
        0 <= a <= b <= c <= pv.len(),
    ensures
        concat_pieces(pv.subrange(a, c)) == concat_pieces(pv.subrange(a, b)) + concat_pieces(
            pv.subrange(b, c),
        ),
    decreases c - b,
{
    if b == c {
        assert(pv.subrange(b, c) =~= Seq::<PieceView>::empty());
        assert(pv.subrange(a, c) =~= pv.subrange(a, b));
    } else {
        lemma_concat_split(pv, a, b, c - 1);
        assert(pv.subrange(a, c).drop_last() =~= pv.subrange(a, c - 1));
        assert(pv.subrange(b, c).drop_last() =~= pv.subrange(b, c - 1));
    }
}

/// Writes the pieces of two versions at the same position.
fn push_piece_pair(
    old_out: &mut Vec<Span>,
    new_out: &mut Vec<Span>,
    po: &VersionPiece,
    pn: &VersionPiece,
)
    ensures
        spans_text(span_views(final(old_out)@)) == spans_text(span_views(old(old_out)@)) + po@.text(),
        spans_text(span_views(final(new_out)@)) == spans_text(span_views(old(new_out)@)) + pn@.text(),
{
    if same_piece(po, pn) {
        let st = match po {
            VersionPiece::Component(_) => yellow(),
            VersionPiece::Separator(_) => Style { color: Color::Plain, bold: false, italic: false },
        };
        push_span(old_out, piece_text(po).clone(), st);
        push_span(new_out, piece_text(pn).clone(), st);
    } else {
        match (po, pn) {
            (VersionPiece::Component(a), VersionPiece::Component(b)) => {
                push_component_diff(old_out, new_out, &a.0, &b.0);
            },
            _ => {
                let so = match po {
                    VersionPiece::Component(_) => red(),
                    VersionPiece::Separator(_) => Style { color: Color::Plain, bold: false, italic: false },
                };
                let sn = match pn {
                    VersionPiece::Component(_) => green(),
                    VersionPiece::Separator(_) => Style { color: Color::Plain, bold: false, italic: false },
                };
                push_span(old_out, piece_text(po).clone(), so);
                push_span(new_out, piece_text(pn).clone(), sn);
            },
        }
    }
}

/// Writes two differing versions side by side: the pieces they share at
/// the start and at the end in yellow, and those in between compared
/// position by position.
fn push_changed_pair(old_out: &mut Vec<Span>, new_out: &mut Vec<Span>, o: &Version, n: &Version)
    ensures
        spans_text(span_views(final(old_out)@)) == spans_text(span_views(old(old_out)@)) + o@.text,
        spans_text(span_views(final(new_out)@)) == spans_text(span_views(old(new_out)@)) + n@.text,
{
    let po = o.pieces();
    let pn = n.pieces();
    let ghost vo = piece_views(po@);
    let ghost vn = piece_views(pn@);
    let lo = po.len();
    let ln = pn.len();
    let mut p: usize = 0;
    while p < lo && p < ln && same_piece(&po[p], &pn[p])
        invariant
            p <= lo,
            p <= ln,
            lo == po@.len(),
            ln == pn@.len(),
        decreases lo - p,
    {
        p = p + 1;
    }
    let mut s: usize = 0;
    while s < lo - p && s < ln - p && same_piece(&po[lo - 1 - s], &pn[ln - 1 - s])
        invariant
            p <= lo,
            p <= ln,
            s <= lo - p,
            s <= ln - p,
            lo == po@.len(),
            ln == pn@.len(),
        decreases lo - s,
    {
        s = s + 1;
    }
    let ghost so = spans_text(span_views(old_out@));
    let ghost sn = spans_text(span_views(new_out@));
    let yl = yellow();
    push_pieces(old_out, &po, 0, p, yl);
    push_pieces(new_out, &pn, 0, p, yl);
    let mo = lo - s;
    let mn = ln - s;
    let mut k = p;
    while k < mo || k < mn
        invariant
            p <= k,
            p <= mo <= lo,
            p <= mn <= ln,
            k <= mo || k <= mn,
            lo == po@.len(),
            ln == pn@.len(),
            vo == piece_views(po@),
            vn == piece_views(pn@),
            spans_text(span_views(old_out@)) == so + concat_pieces(vo.subrange(0, if k < mo { k as int } else { mo as int })),
            spans_text(span_views(new_out@)) == sn + concat_pieces(vn.subrange(0, if k < mn { k as int } else { mn as int })),
        decreases (if mo > mn { mo } else { mn }) - k,
    {
        proof {
            if k < mo {
                assert(vo.subrange(0, k + 1).drop_last() =~= vo.subrange(0, k as int));
                assert(vo.subrange(0, k + 1).last() == vo[k as int]);
                assert(concat_pieces(vo.subrange(0, k + 1)) == concat_pieces(vo.subrange(0, k as int)) + vo[k as int].text());
                assert(vo[k as int] == po@[k as int]@);
                assert(vo.subrange(k as int, k + 1) =~= seq![vo[k as int]]);
                assert(seq![vo[k as int]].drop_last() =~= Seq::<PieceView>::empty());
                assert(concat_pieces(Seq::<PieceView>::empty()) == Seq::<char>::empty());
                assert(Seq::<char>::empty() + vo[k as int].text() =~= vo[k as int].text());
                assert(concat_pieces(seq![vo[k as int]]) == vo[k as int].text());
                assert(concat_pieces(vo.subrange(k as int, k + 1)) == vo[k as int].text());
            }
            if k < mn {
                assert(vn.subrange(0, k + 1).drop_last() =~= vn.subrange(0, k as int));
                assert(vn.subrange(0, k + 1).last() == vn[k as int]);
                assert(concat_pieces(vn.subrange(0, k + 1)) == concat_pieces(vn.subrange(0, k as int)) + vn[k as int].text());
                assert(vn[k as int] == pn@[k as int]@);
                assert(vn.subrange(k as int, k + 1) =~= seq![vn[k as int]]);
                assert(seq![vn[k as int]].drop_last() =~= Seq::<PieceView>::empty());
                assert(concat_pieces(Seq::<PieceView>::empty()) == Seq::<char>::empty());
                assert(Seq::<char>::empty() + vn[k as int].text() =~= vn[k as int].text());
                assert(concat_pieces(seq![vn[k as int]]) == vn[k as int].text());
                assert(concat_pieces(vn.subrange(k as int, k + 1)) == vn[k as int].text());
            }
        }
        if k < mo && k < mn {
            push_piece_pair(old_out, new_out, &po[k], &pn[k]);
        } else if k < mo {
            push_pieces(old_out, &po, k, k + 1, red());
        } else {
            push_pieces(new_out, &pn, k, k + 1, green());
        }
        k = k + 1;
    }
    push_pieces(old_out, &po, mo, lo, yl);
    push_pieces(new_out, &pn, mn, ln, yl);
    proof {
        lemma_concat_split(vo, 0, mo as int, lo as int);
        lemma_concat_split(vn, 0, mn as int, ln as int);
        lemma_concat_split(vo, 0, p as int, p as int);
        assert(vo.subrange(0, lo as int) =~= vo);
        assert(vn.subrange(0, ln as int) =~= vn);
        lemma_pieces_concat(o@.text);
        lemma_pieces_concat(n@.text);
    }
}


/// `<others>`, standing for the versions both sides have.
pub open spec fn others() -> Seq<char> {
    seq!['<', 'o', 't', 'h', 'e', 'r', 's', '>']
}

/// The items that one side (the old one where `left`) lists, following the
/// pairing: each of its versions as the report shows it, leaving out pairs
/// of equal texts.
pub open spec fn side_items(
    ps: Seq<Pairing>,
    old: Seq<VersionView>,
    new: Seq<VersionView>,
    left: bool,
) -> Seq<Seq<char>>
    decreases ps.len(),
{
    if ps.len() == 0 {
        Seq::empty()
    } else {
        let rest = side_items(ps.drop_last(), old, new, left);
        match ps.last() {
            Pairing::Left(i) => if left {
                rest.push(display_of(old[i as int]))
            } else {
                rest
            },
            Pairing::Right(j) => if left {
                rest
            } else {
                rest.push(display_of(new[j as int]))
            },
            Pairing::Both(i, j) => if old[i as int].text == new[j as int].text {
                rest
            } else if left {
                rest.push(display_of(old[i as int]))
            } else {
                rest.push(display_of(new[j as int]))
            },
        }
    }
}

/// The items, each after a space, the second and later ones after a comma.
pub open spec fn joined(items: Seq<Seq<char>>) -> Seq<char>
    decreases items.len(),
{
    if items.len() == 0 {
        Seq::empty()
    } else if items.len() == 1 {
        seq![' '] + items[0]
    } else {
        joined(items.drop_last()) + seq![','] + seq![' '] + items.last()
    }
}

/// What one side of a report line reads.
pub open spec fn side_text(
    ps: Seq<Pairing>,
    old: Seq<VersionView>,
    new: Seq<VersionView>,
    left: bool,
    has_common: bool,
) -> Seq<char> {
    let items = side_items(ps, old, new, left);
    joined(
        if has_common {
            items.push(others())
        } else {
            items
        },
    )
}

pub open spec fn versions_view(vs: Seq<Version>) -> Seq<VersionView> {
    vs.map_values(|v: Version| v@)
}

/// Writes the lead before an item: a space before the first, a comma and a
/// space before the others.
fn push_lead(out: &mut Vec<Span>, first: bool)
    ensures
        spans_text(span_views(final(out)@)) == spans_text(span_views(old(out)@)) + if first {
            seq![' ']
        } else {
            seq![','] + seq![' ']
        },
{
    let plain = Style { color: Color::Plain, bold: false, italic: false };
    if first {
        proof {
            reveal_strlit(" ");
        }
        push_span(out, " ".to_owned(), plain);
        assert(" "@ =~= seq![' ']);
    } else {
        proof {
            reveal_strlit(", ");
        }
        push_span(out, ", ".to_owned(), plain);
        assert(", "@ =~= seq![','] + seq![' ']);
    }
}

proof fn lemma_joined_push(items: Seq<Seq<char>>, x: Seq<char>)
    ensures
        joined(items.push(x)) == joined(items) + if items.len() == 0 {
            seq![' '] + x
        } else {
            seq![','] + seq![' '] + x
        },
{
    assert(items.push(x).drop_last() =~= items);
    if items.len() == 0 {
        assert(Seq::<char>::empty() + (seq![' '] + x) =~= seq![' '] + x);
    } else {
        assert(joined(items) + seq![','] + seq![' '] + x =~= joined(items) + (seq![','] + seq![' '] + x));
    }
}

/// Writes the multiplicity mark of a version that occurs more than once.
fn push_mark(out: &mut Vec<Span>, n: usize, st: Style)
    ensures
        spans_text(span_views(final(out)@)) == spans_text(span_views(old(out)@)) + if n > 1 {
            multiplicity_mark(n as nat)
        } else {
            Seq::empty()
        },
{
    if n > 1 {
        push_span(out, multiplicity_text(n), st);
    } else {
        assert(spans_text(span_views(out@)) + Seq::<char>::empty() =~= spans_text(span_views(out@)));
    }
}

pub open spec fn lead(first: bool) -> Seq<char> {
    if first {
        seq![' ']
    } else {
        seq![','] + seq![' ']
    }
}

/// Writes one version on its own, as an item of a list.
fn push_item(out: &mut Vec<Span>, v: &Version, st: Style, first: bool)
    ensures
        spans_text(span_views(final(out)@)) == spans_text(span_views(old(out)@)) + (lead(first)
            + display_of(v@)),
{
    let ghost t0 = spans_text(span_views(out@));
    push_lead(out, first);
    push_version(out, v, st);
    push_mark(out, v.multiplicity, st);
    assert(t0 + lead(first) + v@.text + (if v@.multiplicity > 1 {
        multiplicity_mark(v@.multiplicity)
    } else {
        Seq::empty()
    }) =~= t0 + (lead(first) + display_of(v@)));
}

/// Writes a pair of differing versions, as items of the two lists.
fn push_pair_items(
    oa: &mut Vec<Span>,
    na: &mut Vec<Span>,
    o: &Version,
    n: &Version,
    first_old: bool,
    first_new: bool,
)
    ensures
        spans_text(span_views(final(oa)@)) == spans_text(span_views(old(oa)@)) + (lead(first_old)
            + display_of(o@)),
        spans_text(span_views(final(na)@)) == spans_text(span_views(old(na)@)) + (lead(first_new)
            + display_of(n@)),
{
    let ghost t0 = spans_text(span_views(oa@));
    let ghost u0 = spans_text(span_views(na@));
    push_lead(oa, first_old);
    push_lead(na, first_new);
    push_changed_pair(oa, na, o, n);
    let mo = o.multiplicity;
    let mn = n.multiplicity;
    if mo == mn {
        push_mark(oa, mo, yellow());
        push_mark(na, mn, yellow());
    } else {
        push_mark(oa, mo, red());
        push_mark(na, mn, green());
    }
    assert(t0 + lead(first_old) + o@.text + (if o@.multiplicity > 1 {
        multiplicity_mark(o@.multiplicity)
    } else {
        Seq::empty()
    }) =~= t0 + (lead(first_old) + display_of(o@)));
    assert(u0 + lead(first_new) + n@.text + (if n@.multiplicity > 1 {
        multiplicity_mark(n@.multiplicity)
    } else {
        Seq::empty()
    }) =~= u0 + (lead(first_new) + display_of(n@)));
}

/// Writes the two version lists of a record, following a pairing of the
/// old and new versions: versions on one side only in red (old) or green
/// (new), pairs of versions compared piece by piece, and `<others>` where
/// the sides share versions.
#[verifier::rlimit(60)]
pub fn render_version_lists(
    old: &Vec<Version>,
    new: &Vec<Version>,
    ps: &Vec<Pairing>,
    has_common: bool,
) -> (r: (Vec<Span>, Vec<Span>))
    requires
        complete_pairing(ps@, old@.len() as int, new@.len() as int),
    ensures
        spans_text(span_views(r.0@)) == side_text(ps@, versions_view(old@), versions_view(new@), true, has_common),
        spans_text(span_views(r.1@)) == side_text(ps@, versions_view(old@), versions_view(new@), false, has_common),
{
    let ghost ov = versions_view(old@);
    let ghost nv = versions_view(new@);
    let mut oa: Vec<Span> = Vec::new();
    let mut na: Vec<Span> = Vec::new();
    let mut wrote_old = false;
    let mut wrote_new = false;
    let mut k: usize = 0;
    proof {
        assert(spans_text(span_views(oa@)) == Seq::<char>::empty());
        assert(spans_text(span_views(na@)) == Seq::<char>::empty());
    }
    while k < ps.len()
        invariant
            k <= ps@.len(),
            complete_pairing(ps@, old@.len() as int, new@.len() as int),
            ov == versions_view(old@),
            nv == versions_view(new@),
            spans_text(span_views(oa@)) == joined(side_items(ps@.take(k as int), ov, nv, true)),
            spans_text(span_views(na@)) == joined(side_items(ps@.take(k as int), ov, nv, false)),
            wrote_old == (side_items(ps@.take(k as int), ov, nv, true).len() > 0),
            wrote_new == (side_items(ps@.take(k as int), ov, nv, false).len() > 0),
        decreases ps.len() - k,
    {
        let ghost t0 = ps@.take(k as int);
        let ghost lo = side_items(t0, ov, nv, true);
        let ghost ln = side_items(t0, ov, nv, false);
        let first_old = !wrote_old;
        let first_new = !wrote_new;
        proof {
            assert(ps@.take(k + 1).drop_last() =~= t0);
            assert(ps@.take(k + 1).last() == ps@[k as int]);
            lemma_joined_empty(lo);
            lemma_joined_empty(ln);
            lemma_spans_empty(span_views(oa@));
            lemma_spans_empty(span_views(na@));
            let p = ps@[k as int];
            if crate::pairing::left_of(p) is Some {
                assert(0 <= crate::pairing::left_of(p)->0 < old@.len());
            }
            if crate::pairing::right_of(p) is Some {
                assert(0 <= crate::pairing::right_of(p)->0 < new@.len());
            }
        }
        let ghost t1 = ps@.take(k + 1);
        match ps[k] {
            Pairing::Left(i) => {
                push_item(&mut oa, &old[i], red(), first_old);
                wrote_old = true;
                proof {
                    assert(ov[i as int] == old@[i as int]@);
                    assert(side_items(t1, ov, nv, true) == lo.push(display_of(ov[i as int])));
                    assert(side_items(t1, ov, nv, false) == ln);
                    lemma_joined_push(lo, display_of(ov[i as int]));
                }
            },
            Pairing::Right(j) => {
                push_item(&mut na, &new[j], green(), first_new);
                wrote_new = true;
                proof {
                    assert(nv[j as int] == new@[j as int]@);
                    assert(side_items(t1, ov, nv, false) == ln.push(display_of(nv[j as int])));
                    assert(side_items(t1, ov, nv, true) == lo);
                    lemma_joined_push(ln, display_of(nv[j as int]));
                }
            },
            Pairing::Both(i, j) => {
                proof {
                    assert(ov[i as int] == old@[i as int]@);
                    assert(nv[j as int] == new@[j as int]@);
                }
                if old[i].name != new[j].name {
                    push_pair_items(&mut oa, &mut na, &old[i], &new[j], first_old, first_new);
                    wrote_old = true;
                    wrote_new = true;
                    proof {
                        assert(side_items(t1, ov, nv, true) == lo.push(display_of(ov[i as int])));
                        assert(side_items(t1, ov, nv, false) == ln.push(display_of(nv[j as int])));
                        lemma_joined_push(lo, display_of(ov[i as int]));
                        lemma_joined_push(ln, display_of(nv[j as int]));
                    }
                } else {
                    assert(side_items(t1, ov, nv, true) == lo);
                    assert(side_items(t1, ov, nv, false) == ln);
                }
            },
        }
        k = k + 1;
    }
    assert(ps@.take(ps@.len() as int) =~= ps@);
    if has_common {
        let ghost lo = side_items(ps@, ov, nv, true);
        let ghost ln = side_items(ps@, ov, nv, false);
        proof {
            lemma_joined_empty(lo);
            lemma_joined_empty(ln);
            lemma_spans_empty(span_views(oa@));
            lemma_spans_empty(span_views(na@));
            lemma_joined_push(lo, others());
            lemma_joined_push(ln, others());
            reveal_strlit("<others>");
            assert("<others>"@ =~= others());
        }
        let first_old = !wrote_old;
        let first_new = !wrote_new;
        let blue = Style { color: Color::Blue, bold: false, italic: true };
        push_lead(&mut oa, first_old);
        push_span(&mut oa, "<others>".to_owned(), blue);
        push_lead(&mut na, first_new);
        push_span(&mut na, "<others>".to_owned(), blue);
    }
    (oa, na)
}

proof fn lemma_joined_empty(items: Seq<Seq<char>>)
    ensures
        joined(items).len() == 0 <==> items.len() == 0,
    decreases items.len(),
{
    if items.len() > 1 {
        lemma_joined_empty(items.drop_last());
    }
}

proof fn lemma_spans_empty(ss: Seq<SpanView>)
    ensures
        ss.len() == 0 ==> spans_text(ss).len() == 0,
{
}


// ---------------------------------------------------------------------------
// Report lines
// ---------------------------------------------------------------------------

/// The number of terminal columns that a text takes.
pub uninterp spec fn display_width(s: Seq<char>) -> nat;

/// Relies on unicode-width's `UnicodeWidthStr::width`: the columns the text
/// takes in a terminal, which depend on its characters alone.
#[verifier::external_body]
fn text_width(s: &str) -> (r: usize)
    ensures
        r as nat == display_width(s@),
{
    unicode_width::UnicodeWidthStr::width(s)
}

/// The letter of a status, and its style.
pub open spec fn status_mark(st: DiffStatus) -> (char, Style) {
    match st {
        DiffStatus::Changed(Change::UpgradeDowngrade) => ('C', Style { color: Color::Yellow, bold: true, italic: false }),
        DiffStatus::Changed(Change::Upgraded) => ('U', Style { color: Color::BrightCyan, bold: true, italic: false }),
        DiffStatus::Changed(Change::Downgraded) => ('D', Style { color: Color::Magenta, bold: true, italic: false }),
        DiffStatus::Added => ('A', Style { color: Color::Green, bold: true, italic: false }),
        DiffStatus::Removed => ('R', Style { color: Color::Red, bold: true, italic: false }),
    }
}

/// The mark of a selection status, and its style, which the package name
/// shares.
pub open spec fn selection_mark(sel: DerivationSelectionStatus) -> (char, Style) {
    match sel {
        DerivationSelectionStatus::Selected => ('*', Style { color: Color::Plain, bold: true, italic: false }),
        DerivationSelectionStatus::NewlySelected => ('+', Style { color: Color::Plain, bold: true, italic: false }),
        DerivationSelectionStatus::Unselected => ('.', plain_style()),
        DerivationSelectionStatus::NewlyUnselected => ('-', plain_style()),
    }
}

/// Relies on std's `char::to_string`: the text of the one character.
#[verifier::external_body]
pub(crate) fn char_text(c: char) -> (r: String)
    ensures
        r@ == seq![c],
{
    c.to_string()
}

impl DiffStatus {
    /// The letter of the status, and its style.
    pub fn char(self) -> (r: (char, Style))
        ensures
            r == status_mark(self),
    {
        match self {
            DiffStatus::Changed(Change::UpgradeDowngrade) => ('C', style(Color::Yellow, true, false)),
            DiffStatus::Changed(Change::Upgraded) => ('U', style(Color::BrightCyan, true, false)),
            DiffStatus::Changed(Change::Downgraded) => ('D', style(Color::Magenta, true, false)),
            DiffStatus::Added => ('A', style(Color::Green, true, false)),
            DiffStatus::Removed => ('R', style(Color::Red, true, false)),
        }
    }
}

impl DerivationSelectionStatus {
    /// The mark of the selection status, and its style.
    pub fn char(self) -> (r: (char, Style))
        ensures
            r == selection_mark(self),
    {
        match self {
            DerivationSelectionStatus::Selected => ('*', style(Color::Plain, true, false)),
            DerivationSelectionStatus::NewlySelected => ('+', style(Color::Plain, true, false)),
            DerivationSelectionStatus::Unselected => ('.', style(Color::Plain, false, false)),
            DerivationSelectionStatus::NewlyUnselected => ('-', style(Color::Plain, false, false)),
        }
    }
}

pub open spec fn spaces(n: nat) -> Seq<char> {
    Seq::new(n, |i: int| ' ')
}

/// ` ->` between the two sides, where both have something.
pub open spec fn arrow(old_side: Seq<char>, new_side: Seq<char>) -> Seq<char> {
    if old_side.len() > 0 && new_side.len() > 0 {
        seq![' ', '-', '>']
    } else {
        Seq::empty()
    }
}

/// What the line of a record reads, with the pairing `ps` of its versions
/// and names padded to `width` columns.
pub open spec fn entry_text(rec: DiffRecord, ps: Seq<Pairing>, width: nat) -> Seq<char> {
    let o = side_text(ps, versions_view(rec.old@), versions_view(rec.new@), true, rec.has_common_versions);
    let n = side_text(ps, versions_view(rec.old@), versions_view(rec.new@), false, rec.has_common_versions);
    seq!['['] + seq![status_mark(rec.status).0] + seq![selection_mark(rec.selection).0] + seq![']', ' ']
        + rec.name@ + spaces((width - display_width(rec.name@)) as nat) + o + arrow(o, n) + n
}

/// The line of `rec` reads as its entry text, following the record's
/// pairing.
pub open spec fn entry_line(rec: DiffRecord, line: Seq<SpanView>, width: nat) -> bool {
    entry_text(rec, rec.pairing@, width) == spans_text(line)
}

/// A record whose pairing uses each of its old and new versions once.
pub open spec fn record_paired(rec: DiffRecord) -> bool {
    complete_pairing(rec.pairing@, rec.old@.len() as int, rec.new@.len() as int)
}

proof fn lemma_spans_prefix(ss: Seq<SpanView>, j: int)
    requires
        0 <= j <= ss.len(),
    ensures
        spans_text(ss.take(j)).len() <= spans_text(ss).len(),
    decreases ss.len() - j,
{
    if j < ss.len() {
        lemma_spans_prefix(ss, j + 1);
        assert(ss.take(j + 1).drop_last() =~= ss.take(j));
    } else {
        assert(ss.take(j) =~= ss);
    }
}

/// Whether the spans hold no text.
fn spans_empty(ss: &Vec<Span>) -> (r: bool)
    ensures
        r == (spans_text(span_views(ss@)).len() == 0),
{
    let ghost sv = span_views(ss@);
    let mut k: usize = 0;
    while k < ss.len()
        invariant
            k <= ss@.len(),
            sv == span_views(ss@),
            spans_text(sv.take(k as int)).len() == 0,
        decreases ss.len() - k,
    {
        assert(sv.take(k + 1).drop_last() =~= sv.take(k as int));
        assert(sv.take(k + 1).last() == ss@[k as int]@);
        if !ss[k].text.as_str().is_empty() {
            proof {
                lemma_spans_prefix(sv, k + 1);
            }
            return false;
        }
        k = k + 1;
    }
    assert(sv.take(ss@.len() as int) =~= sv);
    true
}

fn push_text(out: &mut Vec<Span>, s: &str, st: Style)
    ensures
        spans_text(span_views(final(out)@)) == spans_text(span_views(old(out)@)) + s@,
{
    push_span(out, s.to_owned(), st);
}

fn space_text(n: usize) -> (r: String)
    ensures
        r@ == spaces(n as nat),
{
    let mut r = String::new();
    let mut k: usize = 0;
    proof {
        reveal_strlit(" ");
    }
    while k < n
        invariant
            k <= n,
            r@ == spaces(k as nat),
        decreases n - k,
    {
        proof {
            reveal_strlit(" ");
        }
        assert(" "@ =~= seq![' ']);
        r.append(" ");
        k = k + 1;
        assert(r@ =~= spaces(k as nat));
    }
    r
}

/// The line of one record: its status and selection marks, its name padded
/// to `width` columns, and its old and new versions.
pub fn render_entry(rec: &DiffRecord, width: usize) -> (r: Vec<Span>)
    requires
        display_width(rec.name@) <= width,
        record_paired(*rec),
    ensures
        entry_line(*rec, span_views(r@), width as nat),
{
    let mut line: Vec<Span> = Vec::new();
    let plain = Style { color: Color::Plain, bold: false, italic: false };
    let (sc, sst) = rec.status.char();
    let (lc, lst) = rec.selection.char();
    proof {
        reveal_strlit("[");
        reveal_strlit("] ");
    }
    push_text(&mut line, "[", plain);
    push_span(&mut line, char_text(sc), sst);
    push_span(&mut line, char_text(lc), lst);
    push_text(&mut line, "] ", plain);
    push_span(&mut line, rec.name.clone(), lst);
    let w = text_width(rec.name.as_str());
    push_span(&mut line, space_text(width - w), plain);
    let (oa, na) = render_version_lists(&rec.old, &rec.new, &rec.pairing, rec.has_common_versions);
    let ghost oav = span_views(oa@);
    let ghost nav = span_views(na@);
    let ot_empty = spans_empty(&oa);
    let nt_empty = spans_empty(&na);
    append_spans(&mut line, oa);
    proof {
        reveal_strlit(" ->");
    }
    if !ot_empty && !nt_empty {
        push_text(&mut line, " ->", plain);
    }
    append_spans(&mut line, na);
    proof {
        let ps = rec.pairing@;
        assert(" ->"@ =~= seq![' ', '-', '>']);
        assert("["@ =~= seq!['[']);
        assert("] "@ =~= seq![']', ' ']);
        assert(entry_text(*rec, ps, width as nat) =~= spans_text(span_views(line@)));
    }
    line
}


/// A line of the report.
pub enum LineKind {
    /// The empty line before a section other than the first.
    Blank,
    /// The header of the section of the given rank.
    Header(int),
    /// The line of the record at the given position.
    Entry(int),
}

/// The lines of a report of the records `rs`, in order: each section opens
/// with its header, after an empty line unless it is the first.
pub open spec fn layout(rs: Seq<DiffRecord>) -> Seq<LineKind>
    decreases rs.len(),
{
    if rs.len() == 0 {
        Seq::empty()
    } else {
        let k = rs.len() - 1;
        let prev = layout(rs.drop_last());
        if k == 0 {
            seq![LineKind::Header(rs[0].status.rank()), LineKind::Entry(0)]
        } else if rs[k].status.rank() != rs[k - 1].status.rank() {
            prev + seq![LineKind::Blank, LineKind::Header(rs[k].status.rank()), LineKind::Entry(k)]
        } else {
            prev.push(LineKind::Entry(k))
        }
    }
}

/// `CHANGED`, `ADDED` or `REMOVED`.
pub open spec fn header_text(rank: int) -> Seq<char> {
    if rank == 0 {
        seq!['C', 'H', 'A', 'N', 'G', 'E', 'D']
    } else if rank == 1 {
        seq!['A', 'D', 'D', 'E', 'D']
    } else {
        seq!['R', 'E', 'M', 'O', 'V', 'E', 'D']
    }
}

/// The widest name, in columns.
pub open spec fn max_width(rs: Seq<DiffRecord>) -> nat
    decreases rs.len(),
{
    if rs.len() == 0 {
        0
    } else {
        let w = display_width(rs.last().name@);
        let m = max_width(rs.drop_last());
        if w > m {
            w
        } else {
            m
        }
    }
}

proof fn lemma_max_width(rs: Seq<DiffRecord>, k: int)
    requires
        0 <= k < rs.len(),
    ensures
        display_width(rs[k].name@) <= max_width(rs),
    decreases rs.len(),
{
    if k < rs.len() - 1 {
        lemma_max_width(rs.drop_last(), k);
    }
}

/// `line` is what the report shows for `kind`.
pub open spec fn line_shows(rs: Seq<DiffRecord>, kind: LineKind, line: Seq<SpanView>) -> bool {
    match kind {
        LineKind::Blank => line.len() == 0,
        LineKind::Header(r) => line.len() == 1 && line[0].text == header_text(r) && line[0].style
            == (Style { color: Color::Plain, bold: true, italic: false }),
        LineKind::Entry(k) => entry_line(rs[k], line, max_width(rs)),
    }
}

pub open spec fn line_views(ls: Seq<Vec<Span>>) -> Seq<Seq<SpanView>> {
    ls.map_values(|l: Vec<Span>| span_views(l@))
}

fn header_line(rank: u8) -> (r: Vec<Span>)
    ensures
        r@.len() == 1,
        r@[0]@.text == header_text(rank as int),
        r@[0]@.style == (Style { color: Color::Plain, bold: true, italic: false }),
{
    let bold = Style { color: Color::Plain, bold: true, italic: false };
    let text = if rank == 0 {
        proof {
            reveal_strlit("CHANGED");
        }
        let t = "CHANGED".to_owned();
        assert(t@ =~= header_text(0));
        t
    } else if rank == 1 {
        proof {
            reveal_strlit("ADDED");
        }
        let t = "ADDED".to_owned();
        assert(t@ =~= header_text(1));
        t
    } else {
        proof {
            reveal_strlit("REMOVED");
        }
        let t = "REMOVED".to_owned();
        assert(t@ =~= header_text(rank as int));
        t
    };
    let mut r: Vec<Span> = Vec::new();
    r.push(Span { text, style: bold });
    r
}

/// The lines of the report of `records`, which are in report order: a
/// header for each section, and a line for each record with the names
/// padded to the widest.
pub fn render_report(records: &Vec<DiffRecord>) -> (r: Vec<Vec<Span>>)
    requires
        forall|k: int| 0 <= k < records@.len() ==> record_paired(#[trigger] records@[k]),
    ensures
        r@.len() == layout(records@).len(),
        forall|i: int| 0 <= i < r@.len() ==> line_shows(records@, #[trigger] layout(records@)[i], span_views(r@[i]@)),
{
    let ghost rs = records@;
    let mut width: usize = 0;
    let mut k: usize = 0;
    while k < records.len()
        invariant
            k <= rs.len(),
            rs == records@,
            width == max_width(rs.take(k as int)),
        decreases records.len() - k,
    {
        assert(rs.take(k + 1).drop_last() =~= rs.take(k as int));
        let w = text_width(records[k].name.as_str());
        if w > width {
            width = w;
        }
        k = k + 1;
    }
    assert(rs.take(rs.len() as int) =~= rs);
    let mut lines: Vec<Vec<Span>> = Vec::new();
    let mut k: usize = 0;
    while k < records.len()
        invariant
            k <= rs.len(),
            rs == records@,
            width == max_width(rs),
            forall|t: int| 0 <= t < rs.len() ==> record_paired(#[trigger] rs[t]),
            lines@.len() == layout(rs.take(k as int)).len(),
            forall|i: int| 0 <= i < lines@.len() ==> line_shows(rs, #[trigger] layout(rs.take(k as int))[i], span_views(lines@[i]@)),
        decreases records.len() - k,
    {
        let ghost t1 = rs.take(k + 1);
        let ghost prev = layout(rs.take(k as int));
        let ghost before = lines@;
        assert(t1.drop_last() =~= rs.take(k as int));
        proof {
            lemma_max_width(rs, k as int);
        }
        let sec = records[k].status.section();
        let new_section = k == 0 || records[k - 1].status.section() != sec;
        if new_section {
            if k > 0 {
                lines.push(Vec::new());
            }
            lines.push(header_line(sec));
        }
        lines.push(render_entry(&records[k], width));
        proof {
            let l = layout(t1);
            assert(t1[k as int] == rs[k as int]);
            if k > 0 {
                assert(t1[k - 1] == rs[k - 1]);
            }
            assert(lines@.len() == l.len());
            assert forall|i: int| 0 <= i < lines@.len() implies line_shows(rs, #[trigger] layout(rs.take(k + 1))[i], span_views(lines@[i]@)) by {
                if i < before.len() {
                    assert(lines@[i] == before[i]);
                    assert(l[i] == prev[i]);
                } else if i == lines@.len() - 1 {
                    assert(l[i] == LineKind::Entry(k as int));
                } else if new_section && k > 0 && i == before.len() {
                    assert(l[i] == LineKind::Blank);
                    assert(span_views(lines@[i]@) =~= Seq::<SpanView>::empty());
                } else {
                    assert(l[i] == LineKind::Header(rs[k as int].status.rank()));
                }
            }
        }
        k = k + 1;
    }
    assert(rs.take(rs.len() as int) =~= rs);
    lines
}


/// Compares the two closures and appends the lines of the report to
/// `out`. Returns the number of records.
pub fn write_packages_diffln(
    out: &mut Vec<Vec<Span>>,
    paths_old: &Vec<StorePath>,
    paths_new: &Vec<StorePath>,
    system_old: &Vec<StorePath>,
    system_new: &Vec<StorePath>,
) -> (r: usize)
    ensures
        exists|rs: Seq<DiffRecord>|
            {
                &&& #[trigger] diff_report(
                    parsed_all(path_views(paths_old@)),
                    parsed_all(path_views(paths_new@)),
                    names_of(parsed_all(path_views(system_old@))),
                    names_of(parsed_all(path_views(system_new@))),
                    rs,
                )
                &&& r == rs.len()
                &&& final(out)@.len() == old(out)@.len() + layout(rs).len()
                &&& forall|i: int|
                    0 <= i < layout(rs).len() ==> line_shows(
                        rs,
                        #[trigger] layout(rs)[i],
                        span_views(final(out)@[old(out)@.len() + i]@),
                    )
                &&& forall|i: int| 0 <= i < old(out)@.len() ==> #[trigger] final(out)@[i] == old(out)@[i]
            },
{
    let records = generate_diffs(paths_old, paths_new, system_old, system_new);
    proof {
        assert forall|k: int| 0 <= k < records@.len() implies record_paired(#[trigger] records@[k]) by {
            assert(crate::report::record_of(
                parsed_all(path_views(paths_old@)),
                parsed_all(path_views(paths_new@)),
                names_of(parsed_all(path_views(system_old@))),
                names_of(parsed_all(path_views(system_new@))),
                records@[k],
            ));
            assert(crate::diff::version_views(records@[k].old@).len() == records@[k].old@.len());
            assert(crate::diff::version_views(records@[k].new@).len() == records@[k].new@.len());
        }
    }
    let mut lines = render_report(&records);
    let ghost ls = lines@;
    let ghost start = out@;
    out.append(&mut lines);
    proof {
        let rs = records@;
        assert(out@ == start + ls);
        assert forall|i: int| 0 <= i < layout(rs).len() implies line_shows(
            rs,
            #[trigger] layout(rs)[i],
            span_views(out@[start.len() + i]@),
        ) by {
            assert(out@[start.len() + i] == ls[i]);
        }
        assert forall|i: int| 0 <= i < start.len() implies #[trigger] out@[i] == start[i] by {}
        assert(diff_report(
            parsed_all(path_views(paths_old@)),
            parsed_all(path_views(paths_new@)),
            names_of(parsed_all(path_views(system_old@))),
            names_of(parsed_all(path_views(system_new@))),
            rs,
        ));
    }
    records.len()
}

// ---------------------------------------------------------------------------
// Closure sizes
// ---------------------------------------------------------------------------

/// How a number of bytes reads, with its unit.
pub uninterp spec fn size_display(bytes: int) -> Seq<char>;

/// Relies on the size crate: `Size::from_bytes` shown through its `Display`
/// impl, whose text depends on the number of bytes alone.
#[verifier::external_body]
fn size_text(bytes: i64) -> (r: String)
    ensures
        r@ == size_display(bytes as int),
{
    size::Size::from_bytes(bytes).to_string()
}

pub open spec fn size_line(old_bytes: int, new_bytes: int) -> Seq<SpanView> {
    seq![
        SpanView { text: seq!['S', 'I', 'Z', 'E'], style: Style { color: Color::Plain, bold: true, italic: false } },
        SpanView { text: seq![':', ' '], style: plain_style() },
        SpanView { text: size_display(old_bytes), style: Style { color: Color::Red, bold: false, italic: false } },
        SpanView { text: seq![' ', '-', '>', ' '], style: plain_style() },
        SpanView { text: size_display(new_bytes), style: Style { color: Color::Green, bold: false, italic: false } },
    ]
}

pub open spec fn diff_line(old_bytes: int, new_bytes: int) -> Seq<SpanView> {
    seq![
        SpanView { text: seq!['D', 'I', 'F', 'F'], style: Style { color: Color::Plain, bold: true, italic: false } },
        SpanView { text: seq![':', ' '], style: plain_style() },
        SpanView {
            text: size_display(new_bytes - old_bytes),
            style: Style {
                color: if new_bytes - old_bytes > 0 { Color::Green } else { Color::Red },
                bold: false,
                italic: false,
            },
        },
    ]
}

/// Equal closure sizes give a difference of zero bytes, shown in red.
pub proof fn lemma_same_size_zero_delta(bytes: int)
    ensures
        diff_line(bytes, bytes)[2].text == size_display(0),
        diff_line(bytes, bytes)[2].style.color == Color::Red,
{
}

fn literal(s: &str) -> (r: String)
    ensures
        r@ == s@,
{
    s.to_owned()
}

/// Appends the two lines on the closure sizes: the old and new size, and
/// the difference, green where the closure grew and red otherwise.
pub fn write_size_diffln(out: &mut Vec<Vec<Span>>, size_old: i64, size_new: i64)
    requires
        size_old >= 0,
        size_new >= 0,
    ensures
        line_views(final(out)@) == line_views(old(out)@).push(size_line(size_old as int, size_new as int)).push(
            diff_line(size_old as int, size_new as int),
        ),
{
    proof {
        reveal_strlit("SIZE");
        reveal_strlit("DIFF");
        reveal_strlit(": ");
        reveal_strlit(" -> ");
    }
    assert("SIZE"@ =~= seq!['S', 'I', 'Z', 'E']);
    assert("DIFF"@ =~= seq!['D', 'I', 'F', 'F']);
    assert(": "@ =~= seq![':', ' ']);
    assert(" -> "@ =~= seq![' ', '-', '>', ' ']);
    let bold = Style { color: Color::Plain, bold: true, italic: false };
    let plain = Style { color: Color::Plain, bold: false, italic: false };
    let mut first: Vec<Span> = Vec::new();
    first.push(Span { text: literal("SIZE"), style: bold });
    first.push(Span { text: literal(": "), style: plain });
    first.push(Span { text: size_text(size_old), style: red() });
    first.push(Span { text: literal(" -> "), style: plain });
    first.push(Span { text: size_text(size_new), style: green() });
    let delta = size_new - size_old;
    let mut second: Vec<Span> = Vec::new();
    second.push(Span { text: literal("DIFF"), style: bold });
    second.push(Span { text: literal(": "), style: plain });
    second.push(Span { text: size_text(delta), style: if delta > 0 { green() } else { red() } });
    assert(span_views(first@) =~= size_line(size_old as int, size_new as int));
    assert(span_views(second@) =~= diff_line(size_old as int, size_new as int));
    let ghost before = line_views(out@);
    out.push(first);
    out.push(second);
    assert(line_views(out@) =~= before.push(size_line(size_old as int, size_new as int)).push(
        diff_line(size_old as int, size_new as int),
    ));
}

} // verus!
