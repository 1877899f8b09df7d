//! An older, simpler reading of version strings: runs of digits and runs of
//! other characters, with `.` and `-` between them.
use vstd::prelude::*;

use std::cmp::Ordering;

use crate::report::no_version;
use crate::store_path::{base_name, name_of, split_base_name, version_of, NameAndVersion};
use crate::text::chars_of;
use crate::version::{
    compare_components, component_cmp, is_digit, ord_value, VersionComponent as Component,
};

verus! {

/// A run of a version string: a number, or text.
#[derive(PartialEq, Eq, Debug)]
pub enum VersionComponent {
    Number(u64),
    Text(String),
}

/// A run as plain values.
pub enum TokenView {
    Number(nat),
    Text(Seq<char>),
}

impl View for VersionComponent {
    type V = TokenView;

    open spec fn view(&self) -> TokenView {
        match self {
            VersionComponent::Number(n) => TokenView::Number(*n as nat),
            VersionComponent::Text(t) => TokenView::Text(t@),
        }
    }
}

pub open spec fn is_dot_or_dash(c: char) -> bool {
    c == '.' || c == '-'
}

/// `s` without its leading dots and dashes.
pub open spec fn skip_separators(s: Seq<char>) -> Seq<char>
    decreases s.len(),
{
    if s.len() > 0 && is_dot_or_dash(s[0]) {
        skip_separators(s.drop_first())
    } else {
        s
    }
}

/// The length of the run at the start of `s` whose characters are digits
/// exactly when `digits`, and are no dot or dash.
pub open spec fn run_len(s: Seq<char>, digits: bool) -> nat
    decreases s.len(),
{
    if s.len() > 0 && is_digit(s[0]) == digits && !is_dot_or_dash(s[0]) {
        1 + run_len(s.drop_first(), digits)
    } else {
        0
    }
}

/// The number that a run of digits spells.
pub open spec fn digits_value(s: Seq<char>) -> nat
    decreases s.len(),
{
    if s.len() == 0 {
        0
    } else {
        digits_value(s.drop_last()) * 10 + (s.last() as nat - '0' as nat) as nat
    }
}

pub proof fn lemma_skip_len(s: Seq<char>)
    ensures
        skip_separators(s).len() <= s.len(),
        skip_separators(s) == s.skip(s.len() - skip_separators(s).len()),
        skip_separators(s).len() > 0 ==> !is_dot_or_dash(skip_separators(s)[0]),
    decreases s.len(),
{
    if s.len() > 0 && is_dot_or_dash(s[0]) {
        lemma_skip_len(s.drop_first());
        assert(s.drop_first().skip(s.drop_first().len() - skip_separators(s.drop_first()).len())
            =~= s.skip(s.len() - skip_separators(s).len()));
    } else {
        assert(s.skip(0) =~= s);
    }
}

pub proof fn lemma_run_len(s: Seq<char>, digits: bool)
    ensures
        run_len(s, digits) <= s.len(),
        s.len() > 0 && is_digit(s[0]) == digits && !is_dot_or_dash(s[0]) ==> run_len(s, digits) >= 1,
    decreases s.len(),
{
    if s.len() > 0 && is_digit(s[0]) == digits && !is_dot_or_dash(s[0]) {
        lemma_run_len(s.drop_first(), digits);
    }
}

/// The runs of `s`, left to right; a number too large for 64 bits ends
/// them.
pub open spec fn tokens(s: Seq<char>) -> Seq<TokenView>
    decreases s.len(),
{
    let t = skip_separators(s);
    if t.len() == 0 {
        Seq::empty()
    } else {
        let d = is_digit(t[0]);
        let n = run_len(t, d);
        let run = t.take(n as int);
        proof {
            lemma_skip_len(s);
            lemma_run_len(t, d);
        }
        if d {
            if digits_value(run) > u64::MAX {
                Seq::empty()
            } else {
                seq![TokenView::Number(digits_value(run))] + tokens(t.skip(n as int))
            }
        } else {
            seq![TokenView::Text(run)] + tokens(t.skip(n as int))
        }
    }
}

proof fn lemma_tokens_step(s: Seq<char>, n: nat)
    requires
        skip_separators(s).len() > 0,
        n == run_len(skip_separators(s), is_digit(skip_separators(s)[0])),
    ensures
        ({
            let t = skip_separators(s);
            let run = t.take(n as int);
            tokens(s) == if is_digit(t[0]) {
                if digits_value(run) > u64::MAX {
                    Seq::empty()
                } else {
                    seq![TokenView::Number(digits_value(run))] + tokens(t.skip(n as int))
                }
            } else {
                seq![TokenView::Text(run)] + tokens(t.skip(n as int))
            }
        }),
{
}

/// Yields the runs of a version string one by one.
pub struct VersionComponentIterator {
    v: Vec<char>,
    pos: usize,
}

impl VersionComponentIterator {
    /// The runs that are left.
    pub closed spec fn remaining(&self) -> Seq<TokenView> {
        tokens(self.v@.skip(self.pos as int))
    }

    pub closed spec fn well_formed(&self) -> bool {
        self.pos <= self.v@.len()
    }

    pub fn new(v: &str) -> (r: Self)
        ensures
            r.well_formed(),
            r.remaining() == tokens(v@),
    {
        let cs = chars_of(v);
        assert(cs@.skip(0) =~= cs@);
        VersionComponentIterator { v: cs, pos: 0 }
    }

    /// The next run, if any.
    pub fn next(&mut self) -> (r: Option<VersionComponent>)
        requires
            old(self).well_formed(),
        ensures
            final(self).well_formed(),
            old(self).remaining().len() == 0 ==> r is None && final(self).remaining().len() == 0,
            old(self).remaining().len() > 0 ==> r is Some && r->0@ == old(self).remaining()[0]
                && final(self).remaining() == old(self).remaining().drop_first(),
    {
        let ghost s = self.v@.skip(self.pos as int);
        let n = self.v.len();
        let start = self.pos;
        // Leading dots and dashes.
        let mut i = self.pos;
        while i < n && (self.v[i] == '.' || self.v[i] == '-')
            invariant
                start <= i <= n,
                n == self.v@.len(),
                s == self.v@.skip(start as int),
                skip_separators(s) == skip_separators(self.v@.skip(i as int)),
            decreases n - i,
        {
            assert(self.v@.skip(i as int).drop_first() =~= self.v@.skip(i + 1));
            i = i + 1;
        }
        let ghost t = self.v@.skip(i as int);
        assert(skip_separators(t) == t);
        assert(skip_separators(s) == t);
        if i == n {
            self.pos = n;
            assert(t.len() == 0);
            return None;
        }
        let d = '0' <= self.v[i] && self.v[i] <= '9';
        assert(t[0] == self.v@[i as int]);
        let mut j = i;
        while j < n && ('0' <= self.v[j] && self.v[j] <= '9') == d && self.v[j] != '.' && self.v[j] != '-'
            invariant
                i <= j <= n,
                n == self.v@.len(),
                t == self.v@.skip(i as int),
                run_len(t, d) == (j - i) + run_len(self.v@.skip(j as int), d),
                forall|x: int| i <= x < j ==> is_digit(#[trigger] self.v@[x]) == d,
            decreases n - j,
        {
            assert(self.v@.skip(j as int).drop_first() =~= self.v@.skip(j + 1));
            assert(self.v@.skip(j as int)[0] == self.v@[j as int]);
            j = j + 1;
        }
        assert(run_len(self.v@.skip(j as int), d) == 0) by {
            if j < n {
                assert(self.v@.skip(j as int)[0] == self.v@[j as int]);
            }
        }
        let ghost run = t.take((j - i) as int);
        assert(t.skip((j - i) as int) =~= self.v@.skip(j as int));
        proof {
            lemma_run_len(t, d);
            assert(run_len(t, d) == j - i);
            lemma_tokens_step(s, (j - i) as nat);
        }
        if d {
            // The run's value, unless it is too large.
            let mut acc: u64 = 0;
            let mut k = i;
            while k < j
                invariant
                    i <= k <= j <= n,
                    n == self.v@.len(),
                    run == t.take((j - i) as int),
                    t == self.v@.skip(i as int),
                    skip_separators(s) == t,
                    s == old(self).v@.skip(old(self).pos as int),
                    self.v@ == old(self).v@,
                    t.len() > 0,
                    is_digit(t[0]),
                    d,
                    tokens(s) == (if digits_value(run) > u64::MAX {
                        Seq::empty()
                    } else {
                        seq![TokenView::Number(digits_value(run))] + tokens(t.skip((j - i) as int))
                    }),
                    forall|x: int| i <= x < j ==> is_digit(#[trigger] self.v@[x]),
                    acc as nat == digits_value(self.v@.subrange(i as int, k as int)),
                decreases j - k,
            {
                let digit = (self.v[k] as u32 - '0' as u32) as u64;
                assert(self.v@.subrange(i as int, k + 1).drop_last() =~= self.v@.subrange(i as int, k as int));
                assert(self.v@.subrange(i as int, k + 1).last() == self.v@[k as int]);
                assert(digits_value(self.v@.subrange(i as int, k + 1)) == acc * 10 + digit);
                if acc > (u64::MAX - digit) / 10 {
                    proof {
                        assert(acc * 10 + digit > u64::MAX) by (nonlinear_arith)
                            requires acc > (u64::MAX - digit) / 10, digit <= 9;
                        lemma_value_grows(self.v@.subrange(i as int, j as int), (k + 1 - i) as int);
                        assert(self.v@.subrange(i as int, j as int).take((k + 1 - i) as int) =~= self.v@.subrange(i as int, k + 1));
                        assert(run =~= self.v@.subrange(i as int, j as int));
                        assert(digits_value(run) > u64::MAX);
                        assert(tokens(s).len() == 0);
                    }
                    self.pos = n;
                    assert(self.v@.skip(n as int).len() == 0);
                    return None;
                }
                proof {
                    assert(acc * 10 + digit <= u64::MAX) by (nonlinear_arith)
                        requires acc <= (u64::MAX - digit) / 10, digit <= 9;
                }
                acc = acc * 10 + digit;
                k = k + 1;
            }
            assert(run =~= self.v@.subrange(i as int, j as int));
            self.pos = j;
            Some(VersionComponent::Number(acc))
        } else {
            let text = substring_chars(&self.v, i, j);
            assert(text@ =~= run);
            self.pos = j;
            Some(VersionComponent::Text(text))
        }
    }
}

/// The value of a run of digits is at least that of each of its prefixes.
proof fn lemma_value_grows(s: Seq<char>, k: int)
    requires
        0 <= k <= s.len(),
    ensures
        digits_value(s.take(k)) <= digits_value(s),
    decreases s.len() - k,
{
    if k < s.len() {
        lemma_value_grows(s.drop_last(), if k < s.len() - 1 { k } else { k });
        if k <= s.len() - 1 {
            assert(s.drop_last().take(k) =~= s.take(k));
            if k < s.len() - 1 {
                lemma_value_grows(s.drop_last(), k);
            } else {
                assert(s.drop_last().take(k) =~= s.drop_last());
            }
        }
    } else {
        assert(s.take(k) =~= s);
    }
}

fn substring_chars(cs: &Vec<char>, from: usize, to: usize) -> (r: String)
    requires
        from <= to <= cs@.len(),
    ensures
        r@ == cs@.subrange(from as int, to as int),
{
    let mut r = String::new();
    let mut k = from;
    while k < to
        invariant
            from <= k <= to <= cs@.len(),
            r@ == cs@.subrange(from as int, k as int),
        decreases to - k,
    {
        let piece = char_string(cs[k]);
        r.append(piece.as_str());
        k = k + 1;
        assert(r@ =~= cs@.subrange(from as int, k as int));
    }
    r
}

fn char_string(c: char) -> (r: String)
    ensures
        r@ == seq![c],
{
    crate::render::char_text(c)
}


/// The runs of `s`, left to right, as texts: digits are not read as
/// numbers, so no run is too long.
pub open spec fn runs(s: Seq<char>) -> Seq<Seq<char>>
    decreases s.len(),
{
    let t = skip_separators(s);
    if t.len() == 0 {
        Seq::empty()
    } else {
        let n = run_len(t, is_digit(t[0]));
        proof {
            lemma_skip_len(s);
            lemma_run_len(t, is_digit(t[0]));
        }
        seq![t.take(n as int)] + runs(t.skip(n as int))
    }
}

/// Runs compared pair by pair as components are: runs of digits by
/// magnitude, above any text; texts lexicographically, `pre` below every
/// other text. Where one list is a prefix of the other, the shorter is less.
pub open spec fn runs_cmp(a: Seq<Seq<char>>, b: Seq<Seq<char>>) -> int
    decreases a.len(),
{
    if a.len() == 0 {
        if b.len() == 0 {
            0
        } else {
            -1
        }
    } else if b.len() == 0 {
        1
    } else if component_cmp(a[0], b[0]) != 0 {
        component_cmp(a[0], b[0])
    } else {
        runs_cmp(a.drop_first(), b.drop_first())
    }
}

/// Where a run starts and ends.
pub struct RunBounds {
    pub start: usize,
    pub end: usize,
}

/// The next run of `cs` at or after `pos`.
fn next_run(cs: &Vec<char>, pos: usize) -> (r: Option<RunBounds>)
    requires
        pos <= cs@.len(),
    ensures
        r is None ==> runs(cs@.skip(pos as int)).len() == 0,
        r is Some ==> {
            let b = r->0;
            &&& pos <= b.start < b.end <= cs@.len()
            &&& runs(cs@.skip(pos as int)) == seq![cs@.subrange(b.start as int, b.end as int)] + runs(
                cs@.skip(b.end as int),
            )
        },
{
    let ghost s = cs@.skip(pos as int);
    let n = cs.len();
    let mut i = pos;
    while i < n && (cs[i] == '.' || cs[i] == '-')
        invariant
            pos <= i <= n,
            n == cs@.len(),
            s == cs@.skip(pos as int),
            skip_separators(s) == skip_separators(cs@.skip(i as int)),
        decreases n - i,
    {
        assert(cs@.skip(i as int).drop_first() =~= cs@.skip(i + 1));
        i = i + 1;
    }
    let ghost t = cs@.skip(i as int);
    assert(skip_separators(t) == t);
    if i == n {
        assert(t.len() == 0);
        return None;
    }
    let d = '0' <= cs[i] && cs[i] <= '9';
    assert(t[0] == cs@[i as int]);
    let mut j = i;
    while j < n && ('0' <= cs[j] && cs[j] <= '9') == d && cs[j] != '.' && cs[j] != '-'
        invariant
            i <= j <= n,
            n == cs@.len(),
            t == cs@.skip(i as int),
            run_len(t, d) == (j - i) + run_len(cs@.skip(j as int), d),
        decreases n - j,
    {
        assert(cs@.skip(j as int).drop_first() =~= cs@.skip(j + 1));
        assert(cs@.skip(j as int)[0] == cs@[j as int]);
        j = j + 1;
    }
    assert(run_len(cs@.skip(j as int), d) == 0) by {
        if j < n {
            assert(cs@.skip(j as int)[0] == cs@[j as int]);
        }
    }
    proof {
        lemma_run_len(t, d);
        lemma_skip_len(s);
    }
    assert(t.skip((j - i) as int) =~= cs@.skip(j as int));
    assert(t.take((j - i) as int) =~= cs@.subrange(i as int, j as int));
    Some(RunBounds { start: i, end: j })
}

/// Compares two version strings run by run.
pub fn compare_versions(a: &str, b: &str) -> (r: Ordering)
    ensures
        ord_value(r) == runs_cmp(runs(a@), runs(b@)),
{
    let x = chars_of(a);
    let y = chars_of(b);
    let mut i: usize = 0;
    let mut j: usize = 0;
    assert(x@.skip(0) =~= x@);
    assert(y@.skip(0) =~= y@);
    loop
        invariant
            i <= x@.len(),
            j <= y@.len(),
            x@ == a@,
            y@ == b@,
            runs_cmp(runs(a@), runs(b@)) == runs_cmp(runs(x@.skip(i as int)), runs(y@.skip(j as int))),
        decreases x@.len() - i,
    {
        let ghost ra = runs(x@.skip(i as int));
        let ghost rb = runs(y@.skip(j as int));
        match (next_run(&x, i), next_run(&y, j)) {
            (None, None) => {
                return Ordering::Equal;
            },
            (None, Some(_)) => {
                return Ordering::Less;
            },
            (Some(_), None) => {
                return Ordering::Greater;
            },
            (Some(bx), Some(by)) => {
                let cx = Component(substring_chars(&x, bx.start, bx.end));
                let cy = Component(substring_chars(&y, by.start, by.end));
                let c = compare_components(&cx, &cy);
                assert(ra[0] == cx@ && rb[0] == cy@);
                assert(ra.drop_first() =~= runs(x@.skip(bx.end as int)));
                assert(rb.drop_first() =~= runs(y@.skip(by.end as int)));
                match c {
                    Ordering::Equal => {},
                    _ => {
                        return c;
                    },
                }
                i = bx.end;
                j = by.end;
            },
        }
    }
}

/// Why a path could not be split into a name and a version.
#[derive(PartialEq, Eq, Structural, Debug, Clone, Copy)]
pub enum ParseError {
    /// The path is shorter than a store path's prefix, or that prefix is
    /// not plain ASCII.
    TooShort,
    /// Nothing after the prefix can be a package name.
    NoName,
}

/// The first 44 characters of `p` are ASCII, so that they are its first 44
/// bytes.
pub open spec fn ascii_prefix(p: Seq<char>) -> bool {
    p.len() >= 44 && forall|i: int| 0 <= i < 44 ==> #[trigger] p[i] <= '\u{7f}'
}

/// Splits a store path, whose first 44 bytes are the store directory and
/// the hash, into the package name and version; the version is `<none>`
/// where the path has none.
pub fn get_version(pack: &str) -> (r: Result<(String, String), ParseError>)
    ensures
        r is Ok <==> ascii_prefix(pack@) && base_name(pack@).len() > 0,
        !ascii_prefix(pack@) <==> r == Err::<(String, String), _>(ParseError::TooShort),
        ascii_prefix(pack@) && base_name(pack@).len() == 0 <==> r == Err::<(String, String), _>(
            ParseError::NoName,
        ),
        r is Ok ==> {
            let t = base_name(pack@);
            &&& r->Ok_0.0@ == name_of(t)
            &&& r->Ok_0.1@ == match version_of(t) {
                Some(v) => v,
                None => no_version(),
            }
        },
{
    let cs = chars_of(pack);
    if cs.len() < 44 {
        return Err(ParseError::TooShort);
    }
    let mut i: usize = 0;
    while i < 44
        invariant
            i <= 44,
            cs@ == pack@,
            cs@.len() >= 44,
            forall|k: int| 0 <= k < i ==> #[trigger] cs@[k] <= '\u{7f}',
        decreases 44 - i,
    {
        if cs[i] > '\u{7f}' {
            return Err(ParseError::TooShort);
        }
        i = i + 1;
    }
    match split_base_name(pack, &cs) {
        None => Err(ParseError::NoName),
        Some(NameAndVersion { name, version: Some(v) }) => Ok((name, v)),
        Some(NameAndVersion { name, version: None }) => {
            proof {
                reveal_strlit("<none>");
            }
            let none = "<none>".to_owned();
            assert(none@ =~= no_version());
            Ok((name, none))
        },
    }
}


// ---------------------------------------------------------------------------
// Packages by name
// ---------------------------------------------------------------------------

/// The name and version that `get_version` gives for a path, if any.
pub open spec fn legacy_parsed(p: Seq<char>) -> Option<(Seq<char>, Seq<char>)> {
    if ascii_prefix(p) && base_name(p).len() > 0 {
        let t = base_name(p);
        Some(
            (
                name_of(t),
                match version_of(t) {
                    Some(v) => v,
                    None => no_version(),
                },
            ),
        )
    } else {
        None
    }
}

/// The name that `get_version` gives for a path, if any.
pub open spec fn legacy_name(p: Seq<char>) -> Option<Seq<char>> {
    match legacy_parsed(p) {
        Some((n, _)) => Some(n),
        None => None,
    }
}

/// Whether some path parses with the name `n`.
pub open spec fn has_name(ps: Seq<Seq<char>>, n: Seq<char>) -> bool {
    exists|i: int| 0 <= i < ps.len() && #[trigger] legacy_name(ps[i]) == Some(n)
}

/// Whether some path parses with the name `n` and the version `v`.
pub open spec fn has_version(ps: Seq<Seq<char>>, n: Seq<char>, v: Seq<char>) -> bool {
    exists|i: int| 0 <= i < ps.len() && #[trigger] legacy_parsed(ps[i]) == Some((n, v))
}

pub open spec fn strings_of(vs: Seq<String>) -> Seq<Seq<char>> {
    vs.map_values(|s: String| s@)
}

/// Each package name once, with each of its versions once.
pub struct Grouped {
    pub entries: Vec<(String, Vec<String>)>,
}

/// The entries of `g` are the names of `ps`, each once, with the versions
/// that `ps` gives them, each once.
pub open spec fn groups(ps: Seq<Seq<char>>, es: Seq<(String, Vec<String>)>) -> bool {
    &&& forall|a: int, b: int| 0 <= a < es.len() && 0 <= b < es.len() && a != b ==> #[trigger] es[a].0@ != #[trigger] es[b].0@
    &&& forall|k: int| 0 <= k < es.len() ==> has_name(ps, #[trigger] es[k].0@)
    &&& forall|n: Seq<char>| has_name(ps, n) ==> exists|k: int| 0 <= k < es.len() && #[trigger] es[k].0@ == n
    &&& forall|k: int| 0 <= k < es.len() ==> strings_of(#[trigger] es[k].1@).no_duplicates()
    &&& forall|k: int, v: Seq<char>| 0 <= k < es.len() ==> (#[trigger] strings_of(es[k].1@).contains(v) <==> has_version(ps, es[k].0@, v))
}

fn find_string(vs: &Vec<String>, x: &String) -> (r: bool)
    ensures
        r == strings_of(vs@).contains(x@),
{
    let mut k: usize = 0;
    while k < vs.len()
        invariant
            k <= vs@.len(),
            forall|t: int| 0 <= t < k ==> strings_of(vs@)[t] != x@,
        decreases vs.len() - k,
    {
        assert(strings_of(vs@)[k as int] == vs@[k as int]@);
        if vs[k] == *x {
            return true;
        }
        k = k + 1;
    }
    false
}

fn find_entry(es: &Vec<(String, Vec<String>)>, name: &String) -> (r: Option<usize>)
    ensures
        r is Some ==> r->0 < es@.len() && es@[r->0 as int].0@ == name@,
        r is None ==> forall|k: int| 0 <= k < es@.len() ==> es@[k].0@ != name@,
{
    let mut k: usize = 0;
    while k < es.len()
        invariant
            k <= es@.len(),
            forall|t: int| 0 <= t < k ==> es@[t].0@ != name@,
        decreases es.len() - k,
    {
        if es[k].0 == *name {
            return Some(k);
        }
        k = k + 1;
    }
    None
}

/// Groups the versions of the paths by package name; paths that do not
/// parse are left out.
pub fn group_versions(paths: &Vec<String>) -> (r: Grouped)
    ensures
        groups(strings_of(paths@), r.entries@),
{
    let ghost ps = strings_of(paths@);
    let mut es: Vec<(String, Vec<String>)> = Vec::new();
    let mut i: usize = 0;
    while i < paths.len()
        invariant
            i <= paths@.len(),
            ps == strings_of(paths@),
            groups(ps.take(i as int), es@),
        decreases paths.len() - i,
    {
        let ghost pre = ps.take(i as int);
        let ghost post = ps.take(i + 1);
        let ghost before = es@;
        assert(post[i as int] == paths@[i as int]@);
        assert(post.last() == post[i as int]);
        match get_version(paths[i].as_str()) {
            Ok((name, version)) => {
                let ghost nv = (name@, version@);
                assert(legacy_parsed(post[i as int]) == Some(nv));
                match find_entry(&es, &name) {
                    Some(k) => {
                        if !find_string(&es[k].1, &version) {
                            let (n, mut vs) = es.remove(k);
                            let ghost old_vs = strings_of(vs@);
                            vs.push(version);
                            assert(strings_of(vs@) =~= old_vs.push(nv.1));
                            es.insert(k, (n, vs));
                            proof {
                                lemma_group_new_version(pre, post, before, es@, nv, k as int);
                            }
                        } else {
                            proof {
                                lemma_group_known(pre, post, before, nv, k as int);
                            }
                        }
                    },
                    None => {
                        let mut vs: Vec<String> = Vec::new();
                        vs.push(version);
                        assert(strings_of(vs@) =~= seq![nv.1]);
                        es.push((name, vs));
                        proof {
                            lemma_group_new_name(pre, post, before, es@, nv);
                        }
                    },
                }
            },
            Err(_) => {
                proof {
                    assert(legacy_parsed(post[i as int]) is None);
                    lemma_group_skip(pre, post, es@);
                }
            },
        }
        i = i + 1;
    }
    assert(ps.take(paths@.len() as int) =~= ps);
    Grouped { entries: es }
}

proof fn lemma_group_skip(pre: Seq<Seq<char>>, post: Seq<Seq<char>>, es: Seq<(String, Vec<String>)>)
    requires
        post.len() == pre.len() + 1,
        forall|j: int| 0 <= j < pre.len() ==> post[j] == pre[j],
        legacy_parsed(post.last()) is None,
        groups(pre, es),
    ensures
        groups(post, es),
{
    assert forall|n: Seq<char>| has_name(post, n) implies has_name(pre, n) by {
        let j = choose|j: int| 0 <= j < post.len() && #[trigger] legacy_name(post[j]) == Some(n);
        assert(j < pre.len());
        assert(pre[j] == post[j]);
    }
    assert forall|n: Seq<char>| has_name(pre, n) implies has_name(post, n) by {
        let j = choose|j: int| 0 <= j < pre.len() && #[trigger] legacy_name(pre[j]) == Some(n);
        assert(post[j] == pre[j]);
    }
    assert forall|n: Seq<char>, v: Seq<char>| has_version(post, n, v) <==> has_version(pre, n, v) by {
        if has_version(post, n, v) {
            let j = choose|j: int| 0 <= j < post.len() && #[trigger] legacy_parsed(post[j]) == Some((n, v));
            assert(j < pre.len());
            assert(pre[j] == post[j]);
        }
        if has_version(pre, n, v) {
            let j = choose|j: int| 0 <= j < pre.len() && #[trigger] legacy_parsed(pre[j]) == Some((n, v));
            assert(post[j] == pre[j]);
        }
    }
}

/// What one more path adds to the names and versions.
proof fn lemma_one_more(pre: Seq<Seq<char>>, post: Seq<Seq<char>>, nv: (Seq<char>, Seq<char>))
    requires
        post.len() == pre.len() + 1,
        forall|j: int| 0 <= j < pre.len() ==> post[j] == pre[j],
        legacy_parsed(post.last()) == Some(nv),
    ensures
        forall|m: Seq<char>| #[trigger] has_name(post, m) <==> (has_name(pre, m) || m == nv.0),
        forall|m: Seq<char>, w: Seq<char>| #[trigger] has_version(post, m, w) <==> (has_version(pre, m, w) || (m == nv.0 && w == nv.1)),
{
    let last = post.len() - 1;
    assert forall|m: Seq<char>| #[trigger] has_name(post, m) <==> (has_name(pre, m) || m == nv.0) by {
        if has_name(post, m) {
            let j = choose|j: int| 0 <= j < post.len() && #[trigger] legacy_name(post[j]) == Some(m);
            if j < pre.len() {
                assert(pre[j] == post[j]);
            }
        }
        if has_name(pre, m) {
            let j = choose|j: int| 0 <= j < pre.len() && #[trigger] legacy_name(pre[j]) == Some(m);
            assert(post[j] == pre[j]);
        }
        if m == nv.0 {
            assert(legacy_name(post[last]) == Some(m));
        }
    }
    assert forall|m: Seq<char>, w: Seq<char>| #[trigger] has_version(post, m, w) <==> (has_version(pre, m, w) || (m == nv.0 && w == nv.1)) by {
        if has_version(post, m, w) {
            let j = choose|j: int| 0 <= j < post.len() && #[trigger] legacy_parsed(post[j]) == Some((m, w));
            if j < pre.len() {
                assert(pre[j] == post[j]);
            }
        }
        if has_version(pre, m, w) {
            let j = choose|j: int| 0 <= j < pre.len() && #[trigger] legacy_parsed(pre[j]) == Some((m, w));
            assert(post[j] == pre[j]);
        }
        if m == nv.0 && w == nv.1 {
            assert(legacy_parsed(post[last]) == Some((m, w)));
        }
    }
}

/// The version is known already: nothing changes.
proof fn lemma_group_known(pre: Seq<Seq<char>>, post: Seq<Seq<char>>, es: Seq<(String, Vec<String>)>, nv: (Seq<char>, Seq<char>), k: int)
    requires
        post.len() == pre.len() + 1,
        forall|j: int| 0 <= j < pre.len() ==> post[j] == pre[j],
        legacy_parsed(post.last()) == Some(nv),
        groups(pre, es),
        0 <= k < es.len(),
        es[k].0@ == nv.0,
        strings_of(es[k].1@).contains(nv.1),
    ensures
        groups(post, es),
{
    lemma_one_more(pre, post, nv);
    assert forall|q: int, w: Seq<char>| 0 <= q < es.len() implies (#[trigger] strings_of(es[q].1@).contains(w) <==> has_version(post, es[q].0@, w)) by {
        if q != k && es[q].0@ == nv.0 {
            assert(es[q].0@ == es[k].0@);
        }
    }
}

/// A new version of a known name.
proof fn lemma_group_new_version(pre: Seq<Seq<char>>, post: Seq<Seq<char>>, es: Seq<(String, Vec<String>)>, after: Seq<(String, Vec<String>)>, nv: (Seq<char>, Seq<char>), k: int)
    requires
        post.len() == pre.len() + 1,
        forall|j: int| 0 <= j < pre.len() ==> post[j] == pre[j],
        legacy_parsed(post.last()) == Some(nv),
        groups(pre, es),
        0 <= k < es.len(),
        es[k].0@ == nv.0,
        !strings_of(es[k].1@).contains(nv.1),
        after.len() == es.len(),
        forall|j: int| 0 <= j < es.len() && j != k ==> after[j] == es[j],
        after[k].0@ == nv.0,
        strings_of(after[k].1@) == strings_of(es[k].1@).push(nv.1),
    ensures
        groups(post, after),
{
    lemma_one_more(pre, post, nv);
    assert forall|a: int, b: int| 0 <= a < after.len() && 0 <= b < after.len() && a != b implies #[trigger] after[a].0@ != #[trigger] after[b].0@ by {
        if a != k && b != k {
            assert(after[a] == es[a] && after[b] == es[b]);
        } else if a == k {
            assert(after[b] == es[b]);
        } else {
            assert(after[a] == es[a]);
        }
    }
    assert forall|q: int| 0 <= q < after.len() implies has_name(post, #[trigger] after[q].0@) by {
        if q != k {
            assert(after[q] == es[q]);
        }
    }
    assert forall|n: Seq<char>| has_name(post, n) implies exists|q: int| 0 <= q < after.len() && #[trigger] after[q].0@ == n by {
        if n == nv.0 {
            assert(after[k].0@ == n);
        } else {
            let q = choose|q: int| 0 <= q < es.len() && #[trigger] es[q].0@ == n;
            if q != k {
                assert(after[q] == es[q]);
            }
        }
    }
    assert forall|q: int| 0 <= q < after.len() implies strings_of(#[trigger] after[q].1@).no_duplicates() by {
        if q != k {
            assert(after[q] == es[q]);
        } else {
            let old_vs = strings_of(es[k].1@);
            let new_vs = strings_of(after[k].1@);
            assert forall|x: int, y: int| 0 <= x < new_vs.len() && 0 <= y < new_vs.len() && x != y implies new_vs[x] != new_vs[y] by {
                if x < old_vs.len() && y < old_vs.len() {
                    assert(new_vs[x] == old_vs[x] && new_vs[y] == old_vs[y]);
                } else if x < old_vs.len() {
                    assert(new_vs[x] == old_vs[x]);
                    assert(old_vs.contains(old_vs[x]));
                } else {
                    assert(new_vs[y] == old_vs[y]);
                    assert(old_vs.contains(old_vs[y]));
                }
            }
        }
    }
    assert forall|q: int, w: Seq<char>| 0 <= q < after.len() implies (#[trigger] strings_of(after[q].1@).contains(w) <==> has_version(post, after[q].0@, w)) by {
        if q != k {
            assert(after[q] == es[q]);
            if es[q].0@ == nv.0 {
                assert(es[q].0@ == es[k].0@);
            }
        } else {
            let old_vs = strings_of(es[k].1@);
            let new_vs = strings_of(after[k].1@);
            if new_vs.contains(w) {
                let x = choose|x: int| 0 <= x < new_vs.len() && new_vs[x] == w;
                if x < old_vs.len() {
                    assert(old_vs[x] == w);
                }
            }
            if old_vs.contains(w) {
                let x = choose|x: int| 0 <= x < old_vs.len() && old_vs[x] == w;
                assert(new_vs[x] == w);
            }
            if w == nv.1 {
                assert(new_vs[old_vs.len() as int] == w);
            }
        }
    }
}

/// A new name.
proof fn lemma_group_new_name(pre: Seq<Seq<char>>, post: Seq<Seq<char>>, es: Seq<(String, Vec<String>)>, after: Seq<(String, Vec<String>)>, nv: (Seq<char>, Seq<char>))
    requires
        post.len() == pre.len() + 1,
        forall|j: int| 0 <= j < pre.len() ==> post[j] == pre[j],
        legacy_parsed(post.last()) == Some(nv),
        groups(pre, es),
        forall|k: int| 0 <= k < es.len() ==> es[k].0@ != nv.0,
        after.len() == es.len() + 1,
        forall|j: int| 0 <= j < es.len() ==> after[j] == es[j],
        after.last().0@ == nv.0,
        strings_of(after.last().1@) == seq![nv.1],
    ensures
        groups(post, after),
{
    lemma_one_more(pre, post, nv);
    let last = es.len() as int;
    assert forall|a: int, b: int| 0 <= a < after.len() && 0 <= b < after.len() && a != b implies #[trigger] after[a].0@ != #[trigger] after[b].0@ by {
        if a != last && b != last {
            assert(after[a] == es[a] && after[b] == es[b]);
        } else if a == last {
            assert(after[b] == es[b]);
        } else {
            assert(after[a] == es[a]);
        }
    }
    assert forall|q: int| 0 <= q < after.len() implies has_name(post, #[trigger] after[q].0@) by {
        if q != last {
            assert(after[q] == es[q]);
        }
    }
    assert forall|n: Seq<char>| has_name(post, n) implies exists|q: int| 0 <= q < after.len() && #[trigger] after[q].0@ == n by {
        if n == nv.0 {
            assert(after[last].0@ == n);
        } else {
            let q = choose|q: int| 0 <= q < es.len() && #[trigger] es[q].0@ == n;
            assert(after[q] == es[q]);
        }
    }
    assert forall|q: int| 0 <= q < after.len() implies strings_of(#[trigger] after[q].1@).no_duplicates() by {
        if q != last {
            assert(after[q] == es[q]);
        }
    }
    assert forall|q: int, w: Seq<char>| 0 <= q < after.len() implies (#[trigger] strings_of(after[q].1@).contains(w) <==> has_version(post, after[q].0@, w)) by {
        if q != last {
            assert(after[q] == es[q]);
        } else {
            if has_version(pre, nv.0, w) {
                let j = choose|j: int| 0 <= j < pre.len() && #[trigger] legacy_parsed(pre[j]) == Some((nv.0, w));
                assert(has_name(pre, nv.0)) by {
                    assert(legacy_name(pre[j]) == Some(nv.0));
                }
            }
            if w == nv.1 {
                assert(seq![nv.1][0] == w);
            }
        }
    }
}


pub open spec fn keys_of(es: Seq<(String, Vec<String>)>) -> Seq<Seq<char>> {
    es.map_values(|e: (String, Vec<String>)| e.0@)
}

/// The packages of two closures, by name, and which names were added,
/// removed, or kept.
pub struct PackageDiff {
    pub pkg_to_versions_pre: Vec<(String, Vec<String>)>,
    pub pkg_to_versions_post: Vec<(String, Vec<String>)>,
    pub pre_keys: Vec<String>,
    pub post_keys: Vec<String>,
    pub added: Vec<String>,
    pub removed: Vec<String>,
    pub changed: Vec<String>,
}

fn names_of_entries(es: &Vec<(String, Vec<String>)>) -> (r: Vec<String>)
    ensures
        strings_of(r@) == keys_of(es@),
{
    let mut r: Vec<String> = Vec::new();
    let mut k: usize = 0;
    while k < es.len()
        invariant
            k <= es@.len(),
            r@.len() == k,
            strings_of(r@) == keys_of(es@).take(k as int),
        decreases es.len() - k,
    {
        let ghost prev = r@;
        r.push(es[k].0.clone());
        assert forall|i: int| 0 <= i < k + 1 implies #[trigger] strings_of(r@)[i] == keys_of(es@).take(k + 1)[i] by {
            if i < k {
                assert(r@[i] == prev[i]);
                assert(strings_of(prev)[i] == keys_of(es@).take(k as int)[i]);
            }
        }
        k = k + 1;
        assert(strings_of(r@) =~= keys_of(es@).take(k as int));
    }
    assert(keys_of(es@).take(es@.len() as int) =~= keys_of(es@));
    r
}

/// The names of `a` that `b` has (`keep`) or lacks (`!keep`).
fn select_names(a: &Vec<(String, Vec<String>)>, b: &Vec<(String, Vec<String>)>, keep: bool) -> (r: Vec<String>)
    requires
        keys_of(a@).no_duplicates(),
    ensures
        strings_of(r@).no_duplicates(),
        forall|n: Seq<char>| #[trigger] strings_of(r@).contains(n) <==> (keys_of(a@).contains(n) && keys_of(b@).contains(n) == keep),
{
    let ghost ka = keys_of(a@);
    let ghost kb = keys_of(b@);
    let mut r: Vec<String> = Vec::new();
    let mut k: usize = 0;
    while k < a.len()
        invariant
            k <= a@.len(),
            ka == keys_of(a@),
            kb == keys_of(b@),
            ka.no_duplicates(),
            strings_of(r@).no_duplicates(),
            forall|n: Seq<char>| #[trigger] strings_of(r@).contains(n) <==> (ka.take(k as int).contains(n) && kb.contains(n) == keep),
        decreases a.len() - k,
    {
        let name = &a[k].0;
        let ghost nm = name@;
        assert(ka[k as int] == nm);
        let found = find_entry(b, name);
        let in_b = found.is_some();
        proof {
            if let Some(j) = found {
                assert(kb[j as int] == nm);
            } else {
                assert(!kb.contains(nm)) by {
                    if kb.contains(nm) {
                        let j = choose|j: int| 0 <= j < kb.len() && kb[j] == nm;
                        assert(b@[j].0@ == nm);
                    }
                }
            }
        }
        let ghost prev = strings_of(r@);
        let ghost t1 = ka.take(k + 1);
        let ghost t0 = ka.take(k as int);
        assert(t1 =~= t0.push(nm));
        assert(!t0.contains(nm)) by {
            if t0.contains(nm) {
                let j = choose|j: int| 0 <= j < t0.len() && t0[j] == nm;
                assert(ka[j] == ka[k as int]);
            }
        }
        if in_b == keep {
            r.push(name.clone());
            proof {
                assert(strings_of(r@) =~= prev.push(nm));
                assert(!prev.contains(nm));
                assert forall|x: int, y: int| 0 <= x < strings_of(r@).len() && 0 <= y < strings_of(r@).len() && x != y implies strings_of(r@)[x] != strings_of(r@)[y] by {
                    if x < prev.len() && y < prev.len() {
                    } else if x < prev.len() {
                        assert(prev.contains(prev[x]));
                    } else {
                        assert(prev.contains(prev[y]));
                    }
                }
            }
        }
        proof {
            assert forall|n: Seq<char>| #[trigger] strings_of(r@).contains(n) <==> (t1.contains(n) && kb.contains(n) == keep) by {
                if strings_of(r@).contains(n) && !prev.contains(n) {
                    let x = choose|x: int| 0 <= x < strings_of(r@).len() && strings_of(r@)[x] == n;
                    assert(x == prev.len());
                }
                if prev.contains(n) && strings_of(r@) != prev {
                    let x = choose|x: int| 0 <= x < prev.len() && prev[x] == n;
                    assert(strings_of(r@)[x] == n);
                }
                if t1.contains(n) && n != nm {
                    let x = choose|x: int| 0 <= x < t1.len() && t1[x] == n;
                    assert(t0[x] == n);
                }
                if t0.contains(n) {
                    let x = choose|x: int| 0 <= x < t0.len() && t0[x] == n;
                    assert(t1[x] == n);
                }
                if n == nm {
                    assert(t1[k as int] == n);
                    if in_b == keep {
                        assert(strings_of(r@)[prev.len() as int] == n);
                    }
                }
            }
        }
        k = k + 1;
    }
    assert(ka.take(a@.len() as int) =~= ka);
    r
}

proof fn lemma_keys_of_groups(ps: Seq<Seq<char>>, es: Seq<(String, Vec<String>)>)
    requires
        groups(ps, es),
    ensures
        keys_of(es).no_duplicates(),
        forall|n: Seq<char>| #[trigger] keys_of(es).contains(n) <==> has_name(ps, n),
{
    let ks = keys_of(es);
    assert forall|a: int, b: int| 0 <= a < ks.len() && 0 <= b < ks.len() && a != b implies ks[a] != ks[b] by {
        assert(ks[a] == es[a].0@ && ks[b] == es[b].0@);
    }
    assert forall|n: Seq<char>| #[trigger] ks.contains(n) <==> has_name(ps, n) by {
        if ks.contains(n) {
            let k = choose|k: int| 0 <= k < ks.len() && ks[k] == n;
            assert(es[k].0@ == n);
        }
        if has_name(ps, n) {
            let k = choose|k: int| 0 <= k < es.len() && #[trigger] es[k].0@ == n;
            assert(ks[k] == n);
        }
    }
}

impl PackageDiff {
    /// Groups the packages of both closures by name, and splits the names
    /// into those added, removed, and on both sides.
    pub fn new(pkgs_pre: &Vec<String>, pkgs_post: &Vec<String>) -> (r: PackageDiff)
        ensures
            groups(strings_of(pkgs_pre@), r.pkg_to_versions_pre@),
            groups(strings_of(pkgs_post@), r.pkg_to_versions_post@),
            strings_of(r.pre_keys@) == keys_of(r.pkg_to_versions_pre@),
            strings_of(r.post_keys@) == keys_of(r.pkg_to_versions_post@),
            strings_of(r.added@).no_duplicates(),
            strings_of(r.removed@).no_duplicates(),
            strings_of(r.changed@).no_duplicates(),
            forall|n: Seq<char>| #[trigger] strings_of(r.added@).contains(n) <==> (has_name(strings_of(pkgs_post@), n) && !has_name(strings_of(pkgs_pre@), n)),
            forall|n: Seq<char>| #[trigger] strings_of(r.removed@).contains(n) <==> (has_name(strings_of(pkgs_pre@), n) && !has_name(strings_of(pkgs_post@), n)),
            forall|n: Seq<char>| #[trigger] strings_of(r.changed@).contains(n) <==> (has_name(strings_of(pkgs_pre@), n) && has_name(strings_of(pkgs_post@), n)),
    {
        let pre = group_versions(pkgs_pre).entries;
        let post = group_versions(pkgs_post).entries;
        proof {
            lemma_keys_of_groups(strings_of(pkgs_pre@), pre@);
            lemma_keys_of_groups(strings_of(pkgs_post@), post@);
        }
        let pre_keys = names_of_entries(&pre);
        let post_keys = names_of_entries(&post);
        let added = select_names(&post, &pre, false);
        let removed = select_names(&pre, &post, false);
        let changed = select_names(&pre, &post, true);
        PackageDiff {
            pkg_to_versions_pre: pre,
            pkg_to_versions_post: post,
            pre_keys,
            post_keys,
            added,
            removed,
            changed,
        }
    }
}

} // verus!
