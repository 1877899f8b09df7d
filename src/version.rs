//! Versions: splitting a version string into pieces, and the order on
//! versions.
use vstd::prelude::*;

use std::cmp::Ordering;

use crate::text::{chars_of, substring};

verus! {

/// The characters that split a version string into pieces.
pub open spec fn is_separator(c: char) -> bool {
    c == '.' || c == '-' || c == '_' || c == '+' || c == '*' || c == '=' || c == '\u{d7}'
        || c == ' '
}

pub fn is_separator_char(c: char) -> (r: bool)
    ensures
        r == is_separator(c),
{
    c == '.' || c == '-' || c == '_' || c == '+' || c == '*' || c == '=' || c == '\u{d7}'
        || c == ' '
}

/// What a piece of a version string is: a run of ordinary characters, or a
/// single separator.
pub enum PieceView {
    Component(Seq<char>),
    Separator(Seq<char>),
}

impl PieceView {
    pub open spec fn text(self) -> Seq<char> {
        match self {
            PieceView::Component(t) => t,
            PieceView::Separator(t) => t,
        }
    }
}

/// The pieces of `s` from left to right: each separator on its own, and each
/// maximal run of other characters as one component.
pub open spec fn pieces_of(s: Seq<char>) -> Seq<PieceView>
    decreases s.len(),
{
    if s.len() == 0 {
        Seq::empty()
    } else {
        let prev = pieces_of(s.drop_last());
        let c = s.last();
        if is_separator(c) {
            prev.push(PieceView::Separator(seq![c]))
        } else if s.len() > 1 && !is_separator(s[s.len() - 2]) {
            prev.update(prev.len() - 1, PieceView::Component(prev.last().text().push(c)))
        } else {
            prev.push(PieceView::Component(seq![c]))
        }
    }
}

/// The texts of the pieces, joined.
pub open spec fn concat_pieces(ps: Seq<PieceView>) -> Seq<char>
    decreases ps.len(),
{
    if ps.len() == 0 {
        Seq::empty()
    } else {
        concat_pieces(ps.drop_last()) + ps.last().text()
    }
}

/// The texts of the components among the pieces, in order.
pub open spec fn components_of_pieces(ps: Seq<PieceView>) -> Seq<Seq<char>>
    decreases ps.len(),
{
    if ps.len() == 0 {
        Seq::empty()
    } else {
        let rest = components_of_pieces(ps.drop_last());
        match ps.last() {
            PieceView::Component(t) => rest.push(t),
            PieceView::Separator(_) => rest,
        }
    }
}

/// The components of a version string.
pub open spec fn components_of(s: Seq<char>) -> Seq<Seq<char>> {
    components_of_pieces(pieces_of(s))
}

/// A non-empty `s` has pieces, and its last piece is a component exactly when
/// its last character is no separator; that component is the run of
/// non-separators that ends `s`.
pub proof fn lemma_last_piece(s: Seq<char>)
    requires
        s.len() > 0,
    ensures
        pieces_of(s).len() > 0,
        pieces_of(s).last() is Component <==> !is_separator(s.last()),
        pieces_of(s).last() is Separator ==> pieces_of(s).last().text() == seq![s.last()],
    decreases s.len(),
{
    if s.len() > 1 {
        lemma_last_piece(s.drop_last());
    }
}

/// The pieces of a version string, joined, give back the string.
pub proof fn lemma_pieces_concat(s: Seq<char>)
    ensures
        concat_pieces(pieces_of(s)) == s,
    decreases s.len(),
{
    if s.len() > 0 {
        let prev = pieces_of(s.drop_last());
        lemma_pieces_concat(s.drop_last());
        let c = s.last();
        let ps = pieces_of(s);
        if is_separator(c) {
            assert(ps.drop_last() =~= prev);
        } else if s.len() > 1 && !is_separator(s[s.len() - 2]) {
            lemma_last_piece(s.drop_last());
            assert(ps.drop_last() =~= prev.drop_last());
            assert(concat_pieces(prev) == concat_pieces(prev.drop_last()) + prev.last().text());
        } else {
            assert(ps.drop_last() =~= prev);
        }
        assert(s =~= s.drop_last().push(c));
    }
}

/// A component of a version string.
pub struct VersionComponent(pub String);

impl View for VersionComponent {
    type V = Seq<char>;

    open spec fn view(&self) -> Seq<char> {
        self.0@
    }
}

impl Clone for VersionComponent {
    fn clone(&self) -> (r: Self)
        ensures
            r@ == self@,
    {
        VersionComponent(self.0.clone())
    }
}

impl PartialEq for VersionComponent {
    fn eq(&self, other: &VersionComponent) -> (r: bool) {
        self.0 == other.0
    }
}

impl vstd::std_specs::cmp::PartialEqSpecImpl for VersionComponent {
    open spec fn obeys_eq_spec() -> bool {
        true
    }

    open spec fn eq_spec(&self, other: &VersionComponent) -> bool {
        self@ == other@
    }
}

/// Components are equal when their texts are.
pub proof fn lemma_component_eq_by_view()
    ensures
        vstd::laws_eq::obeys_view_eq::<VersionComponent>(),
{
    reveal(vstd::laws_eq::obeys_view_eq);
}

/// A piece of a version string: a component, or a separator.
pub enum VersionPiece {
    Component(VersionComponent),
    Separator(String),
}

impl View for VersionPiece {
    type V = PieceView;

    open spec fn view(&self) -> PieceView {
        match self {
            VersionPiece::Component(c) => PieceView::Component(c@),
            VersionPiece::Separator(s) => PieceView::Separator(s@),
        }
    }
}

impl VersionPiece {
    /// The component this piece is, if it is one.
    pub fn component(self) -> (r: Option<VersionComponent>)
        ensures
            self is Component <==> r is Some,
            r is Some ==> r->0@ == self@.text(),
    {
        match self {
            VersionPiece::Component(c) => Some(c),
            VersionPiece::Separator(_) => None,
        }
    }
}

impl Clone for VersionPiece {
    fn clone(&self) -> (r: Self)
        ensures
            r@ == self@,
    {
        match self {
            VersionPiece::Component(c) => VersionPiece::Component(c.clone()),
            VersionPiece::Separator(t) => VersionPiece::Separator(t.clone()),
        }
    }
}

pub open spec fn piece_views(ps: Seq<VersionPiece>) -> Seq<PieceView> {
    ps.map_values(|p: VersionPiece| p@)
}

/// Splits `v` into its pieces.
pub fn pieces(v: &str) -> (r: Vec<VersionPiece>)
    ensures
        piece_views(r@) == pieces_of(v@),
{
    let cs = chars_of(v);
    let n = cs.len();
    let mut out: Vec<VersionPiece> = Vec::new();
    let mut start: usize = 0;
    let mut i: usize = 0;
    while i < n
        invariant
            cs@ == v@,
            n == cs@.len(),
            start <= i <= n,
            start < i ==> piece_views(out@).push(
                PieceView::Component(v@.subrange(start as int, i as int)),
            ) == pieces_of(v@.take(i as int)),
            start == i ==> piece_views(out@) == pieces_of(v@.take(i as int)),
            forall|k: int| start <= k < i ==> !is_separator(#[trigger] v@[k]),
            start > 0 ==> is_separator(v@[start - 1]),
        decreases n - i,
    {
        let c = cs[i];
        let ghost s = v@.take(i as int + 1);
        assert(s.drop_last() =~= v@.take(i as int));
        if is_separator_char(c) {
            if start < i {
                out.push(VersionPiece::Component(VersionComponent(substring(v, start, i))));
            }
            out.push(VersionPiece::Separator(substring(v, i, i + 1)));
            assert(v@.subrange(i as int, i as int + 1) =~= seq![c]);
            assert(piece_views(out@) =~= pieces_of(s));
            start = i + 1;
        } else {
            if start < i {
                assert(v@.subrange(start as int, i as int + 1) =~= v@.subrange(
                    start as int,
                    i as int,
                ).push(c));
                proof {
                    lemma_last_piece(v@.take(i as int));
                }
                assert(piece_views(out@).push(
                    PieceView::Component(v@.subrange(start as int, i as int + 1)),
                ) =~= pieces_of(s));
            } else {
                assert(v@.subrange(start as int, i as int + 1) =~= seq![c]);
                assert(piece_views(out@).push(
                    PieceView::Component(v@.subrange(start as int, i as int + 1)),
                ) =~= pieces_of(s));
            }
        }
        i = i + 1;
    }
    if start < n {
        out.push(VersionPiece::Component(VersionComponent(substring(v, start, n))));
    }
    assert(v@.take(n as int) =~= v@);
    assert(piece_views(out@) =~= pieces_of(v@));
    out
}


/// Yields the pieces of a version string, left to right.
pub struct VersionIter {
    pieces: Vec<VersionPiece>,
    pos: usize,
}

impl VersionIter {
    /// The pieces not yet yielded.
    pub closed spec fn remaining(&self) -> Seq<PieceView> {
        piece_views(self.pieces@).skip(self.pos as int)
    }

    pub closed spec fn well_formed(&self) -> bool {
        self.pos <= self.pieces@.len()
    }

    pub fn from(v: &str) -> (r: VersionIter)
        ensures
            r.well_formed(),
            r.remaining() == pieces_of(v@),
    {
        let r = VersionIter { pieces: pieces(v), pos: 0 };
        assert(piece_views(r.pieces@).skip(0) =~= piece_views(r.pieces@));
        r
    }

    /// The next piece, if any.
    pub fn next(&mut self) -> (r: Option<VersionPiece>)
        requires
            old(self).well_formed(),
        ensures
            final(self).well_formed(),
            old(self).remaining().len() == 0 ==> r is None && final(self).remaining().len() == 0,
            old(self).remaining().len() > 0 ==> r is Some && r->0@ == old(self).remaining()[0]
                && final(self).remaining() == old(self).remaining().drop_first(),
    {
        if self.pos >= self.pieces.len() {
            return None;
        }
        let p = self.pieces[self.pos].clone();
        let ghost before = piece_views(self.pieces@);
        assert(before.skip(self.pos as int)[0] == before[self.pos as int]);
        assert(before.skip(self.pos as int).drop_first() =~= before.skip(self.pos + 1));
        self.pos = self.pos + 1;
        Some(p)
    }
}

// ---------------------------------------------------------------------------
// The order on components and on versions
// ---------------------------------------------------------------------------

/// An `Ordering` as -1, 0 or 1.
pub open spec fn ord_value(o: Ordering) -> int {
    match o {
        Ordering::Less => -1,
        Ordering::Equal => 0,
        Ordering::Greater => 1,
    }
}

pub fn ordering_of(v: i8) -> (r: Ordering)
    requires
        -1 <= v <= 1,
    ensures
        ord_value(r) == v as int,
{
    if v < 0 {
        Ordering::Less
    } else if v == 0 {
        Ordering::Equal
    } else {
        Ordering::Greater
    }
}

pub open spec fn is_digit(c: char) -> bool {
    '0' <= c && c <= '9'
}

/// A numeric component: non-empty, and only ASCII digits.
pub open spec fn is_numeric(s: Seq<char>) -> bool {
    s.len() > 0 && forall|i: int| 0 <= i < s.len() ==> is_digit(#[trigger] s[i])
}

/// `s` without its leading zeros.
pub open spec fn trim_zeros(s: Seq<char>) -> Seq<char>
    decreases s.len(),
{
    if s.len() > 0 && s[0] == '0' {
        trim_zeros(s.drop_first())
    } else {
        s
    }
}

/// Lexicographic comparison by code point (the order of the UTF-8 bytes).
pub open spec fn lex_cmp(a: Seq<char>, b: Seq<char>) -> int
    decreases a.len(),
{
    if a.len() == 0 {
        if b.len() == 0 {
            0
        } else {
            -1
        }
    } else if b.len() == 0 {
        1
    } else if a[0] < b[0] {
        -1
    } else if a[0] > b[0] {
        1
    } else {
        lex_cmp(a.drop_first(), b.drop_first())
    }
}

/// Numeric components compare by magnitude: without leading zeros, the
/// longer is greater, and digits of one length compare lexicographically.
pub open spec fn numeric_cmp(a: Seq<char>, b: Seq<char>) -> int {
    let x = trim_zeros(a);
    let y = trim_zeros(b);
    if x.len() < y.len() {
        -1
    } else if x.len() > y.len() {
        1
    } else {
        lex_cmp(x, y)
    }
}

pub open spec fn is_pre(s: Seq<char>) -> bool {
    s == seq!['p', 'r', 'e']
}

/// Other components compare lexicographically, except that `pre` is below
/// every other one.
pub open spec fn text_cmp(a: Seq<char>, b: Seq<char>) -> int {
    if is_pre(a) {
        if is_pre(b) {
            0
        } else {
            -1
        }
    } else if is_pre(b) {
        1
    } else {
        lex_cmp(a, b)
    }
}

/// The order on components; a numeric component is above any other.
pub open spec fn component_cmp(a: Seq<char>, b: Seq<char>) -> int {
    if is_numeric(a) {
        if is_numeric(b) {
            numeric_cmp(a, b)
        } else {
            1
        }
    } else if is_numeric(b) {
        -1
    } else {
        text_cmp(a, b)
    }
}

pub open spec fn all_numeric(cs: Seq<Seq<char>>) -> bool {
    forall|i: int| 0 <= i < cs.len() ==> is_numeric(#[trigger] cs[i])
}

/// The order on sequences of components. The first pair that differs
/// decides. Where one sequence runs out first, the other is greater when
/// its remaining components are all numeric, and a pre-release (smaller)
/// otherwise.
pub open spec fn components_cmp(a: Seq<Seq<char>>, b: Seq<Seq<char>>) -> int
    decreases a.len(),
{
    if a.len() == 0 {
        if b.len() == 0 {
            0
        } else if all_numeric(b) {
            -1
        } else {
            1
        }
    } else if b.len() == 0 {
        if all_numeric(a) {
            1
        } else {
            -1
        }
    } else if component_cmp(a[0], b[0]) != 0 {
        component_cmp(a[0], b[0])
    } else {
        components_cmp(a.drop_first(), b.drop_first())
    }
}

/// The order on version strings.
pub open spec fn version_cmp(a: Seq<char>, b: Seq<char>) -> int {
    components_cmp(components_of(a), components_of(b))
}

pub proof fn lemma_lex_antisymmetric(a: Seq<char>, b: Seq<char>)
    ensures
        lex_cmp(a, b) == -lex_cmp(b, a),
        lex_cmp(a, b) == 0 <==> a == b,
    decreases a.len(),
{
    if a.len() > 0 && b.len() > 0 {
        lemma_lex_antisymmetric(a.drop_first(), b.drop_first());
        if a[0] == b[0] && a.drop_first() == b.drop_first() {
            assert(a =~= seq![a[0]] + a.drop_first());
            assert(b =~= seq![b[0]] + b.drop_first());
        }
    }
    if a.len() == 0 && b.len() == 0 {
        assert(a =~= b);
    }
}

pub proof fn lemma_lex_transitive(a: Seq<char>, b: Seq<char>, c: Seq<char>)
    requires
        lex_cmp(a, b) <= 0,
        lex_cmp(b, c) <= 0,
    ensures
        lex_cmp(a, c) <= 0,
    decreases a.len(),
{
    if a.len() > 0 && b.len() > 0 && c.len() > 0 {
        if a[0] == b[0] && b[0] == c[0] {
            lemma_lex_transitive(a.drop_first(), b.drop_first(), c.drop_first());
        }
    }
}

pub proof fn lemma_component_antisymmetric(a: Seq<char>, b: Seq<char>)
    ensures
        component_cmp(a, b) == -component_cmp(b, a),
{
    lemma_lex_antisymmetric(a, b);
    lemma_lex_antisymmetric(trim_zeros(a), trim_zeros(b));
}

pub proof fn lemma_component_transitive(a: Seq<char>, b: Seq<char>, c: Seq<char>)
    requires
        component_cmp(a, b) <= 0,
        component_cmp(b, c) <= 0,
    ensures
        component_cmp(a, c) <= 0,
{
    if is_numeric(a) && is_numeric(b) && is_numeric(c) {
        let (x, y, z) = (trim_zeros(a), trim_zeros(b), trim_zeros(c));
        if x.len() == y.len() && y.len() == z.len() {
            lemma_lex_transitive(x, y, z);
        }
    } else if !is_numeric(a) && !is_numeric(b) && !is_numeric(c) {
        if !is_pre(a) && !is_pre(b) && !is_pre(c) {
            lemma_lex_transitive(a, b, c);
        }
    }
}

/// Comparing with the one or with the other of two equivalent components
/// gives the same answer, and a strict step followed by a weak one is
/// strict.
pub proof fn lemma_component_steps(a: Seq<char>, b: Seq<char>, c: Seq<char>)
    ensures
        component_cmp(a, b) < 0 && component_cmp(b, c) <= 0 ==> component_cmp(a, c) < 0,
        component_cmp(a, b) <= 0 && component_cmp(b, c) < 0 ==> component_cmp(a, c) < 0,
        component_cmp(a, b) == 0 && component_cmp(b, c) == 0 ==> component_cmp(a, c) == 0,
{
    lemma_component_antisymmetric(a, b);
    lemma_component_antisymmetric(b, c);
    lemma_component_antisymmetric(a, c);
    if component_cmp(a, b) <= 0 && component_cmp(b, c) <= 0 {
        lemma_component_transitive(a, b, c);
    }
    if component_cmp(c, a) <= 0 && component_cmp(a, b) <= 0 {
        lemma_component_transitive(c, a, b);
    }
    if component_cmp(b, c) <= 0 && component_cmp(c, a) <= 0 {
        lemma_component_transitive(b, c, a);
    }
    lemma_component_antisymmetric(c, b);
    lemma_component_antisymmetric(b, a);
    if component_cmp(c, b) <= 0 && component_cmp(b, a) <= 0 {
        lemma_component_transitive(c, b, a);
    }
}

/// Swapping the two versions negates the comparison.
pub proof fn lemma_components_antisymmetric(a: Seq<Seq<char>>, b: Seq<Seq<char>>)
    ensures
        components_cmp(a, b) == -components_cmp(b, a),
    decreases a.len(),
{
    if a.len() > 0 && b.len() > 0 {
        lemma_component_antisymmetric(a[0], b[0]);
        lemma_components_antisymmetric(a.drop_first(), b.drop_first());
    }
}

/// Swapping two versions negates their comparison.
pub proof fn lemma_version_order_antisymmetric(a: Seq<char>, b: Seq<char>)
    ensures
        version_cmp(a, b) == -version_cmp(b, a),
{
    lemma_components_antisymmetric(components_of(a), components_of(b));
}

/// `y` begins with components equivalent to all of `x`, and goes on with a
/// tail that holds a non-numeric component: `y` is a pre-release of `x`.
pub open spec fn prerelease_extension(x: Seq<Seq<char>>, y: Seq<Seq<char>>) -> bool {
    &&& x.len() < y.len()
    &&& forall|i: int| 0 <= i < x.len() ==> component_cmp(#[trigger] x[i], y[i]) == 0
    &&& !all_numeric(y.skip(x.len() as int))
}

/// None of the three is a pre-release extension of another.
pub open spec fn no_prerelease_extension(
    a: Seq<Seq<char>>,
    b: Seq<Seq<char>>,
    c: Seq<Seq<char>>,
) -> bool {
    &&& !prerelease_extension(a, b) && !prerelease_extension(b, a)
    &&& !prerelease_extension(a, c) && !prerelease_extension(c, a)
    &&& !prerelease_extension(b, c) && !prerelease_extension(c, b)
}

proof fn lemma_prerelease_tail(x: Seq<Seq<char>>, y: Seq<Seq<char>>)
    requires
        x.len() > 0,
        y.len() > 0,
        component_cmp(x[0], y[0]) == 0,
    ensures
        prerelease_extension(x.drop_first(), y.drop_first()) ==> prerelease_extension(x, y),
{
    if prerelease_extension(x.drop_first(), y.drop_first()) {
        assert(y.skip(x.len() as int) =~= y.drop_first().skip(x.drop_first().len() as int));
        assert forall|i: int| 0 <= i < x.len() implies component_cmp(#[trigger] x[i], y[i])
            == 0 by {
            if i > 0 {
                assert(x[i] == x.drop_first()[i - 1]);
            }
        }
    }
}

proof fn lemma_empty_prerelease(y: Seq<Seq<char>>)
    ensures
        y.len() > 0 && !all_numeric(y) ==> prerelease_extension(Seq::empty(), y),
{
    assert(y.skip(0) =~= y);
}

/// Among versions none of which is a pre-release extension of another, the
/// order is transitive.
pub proof fn lemma_components_transitive(a: Seq<Seq<char>>, b: Seq<Seq<char>>, c: Seq<Seq<char>>)
    requires
        no_prerelease_extension(a, b, c),
        components_cmp(a, b) <= 0,
        components_cmp(b, c) <= 0,
    ensures
        components_cmp(a, c) <= 0,
    decreases a.len(),
{
    lemma_empty_prerelease(a);
    lemma_empty_prerelease(b);
    lemma_empty_prerelease(c);
    if a.len() > 0 && b.len() > 0 && c.len() > 0 {
        lemma_component_steps(a[0], b[0], c[0]);
        if component_cmp(a[0], b[0]) == 0 && component_cmp(b[0], c[0]) == 0 {
            lemma_component_antisymmetric(a[0], b[0]);
            lemma_component_antisymmetric(b[0], c[0]);
            lemma_component_antisymmetric(a[0], c[0]);
            lemma_component_steps(c[0], b[0], a[0]);
            lemma_prerelease_tail(a, b);
            lemma_prerelease_tail(b, a);
            lemma_prerelease_tail(a, c);
            lemma_prerelease_tail(c, a);
            lemma_prerelease_tail(b, c);
            lemma_prerelease_tail(c, b);
            lemma_components_transitive(a.drop_first(), b.drop_first(), c.drop_first());
        }
    }
}


pub open spec fn component_views(cs: Seq<VersionComponent>) -> Seq<Seq<char>> {
    cs.map_values(|c: VersionComponent| c@)
}

/// The components of `v`, separators left out.
pub fn components(v: &str) -> (r: Vec<VersionComponent>)
    ensures
        component_views(r@) == components_of(v@),
{
    let ps = pieces(v);
    let ghost all = piece_views(ps@);
    let mut out: Vec<VersionComponent> = Vec::new();
    let mut i: usize = 0;
    while i < ps.len()
        invariant
            all == piece_views(ps@),
            i <= ps.len(),
            component_views(out@) == components_of_pieces(all.take(i as int)),
        decreases ps.len() - i,
    {
        assert(all.take(i + 1).drop_last() =~= all.take(i as int));
        match &ps[i] {
            VersionPiece::Component(c) => {
                out.push(c.clone());
            },
            VersionPiece::Separator(_) => {},
        }
        assert(component_views(out@) =~= components_of_pieces(all.take(i + 1)));
        i = i + 1;
    }
    assert(all.take(ps.len() as int) =~= all);
    out
}

fn is_numeric_chars(cs: &Vec<char>) -> (r: bool)
    ensures
        r == is_numeric(cs@),
{
    if cs.len() == 0 {
        return false;
    }
    let mut i: usize = 0;
    while i < cs.len()
        invariant
            i <= cs.len(),
            forall|k: int| 0 <= k < i ==> is_digit(#[trigger] cs@[k]),
        decreases cs.len() - i,
    {
        if !('0' <= cs[i] && cs[i] <= '9') {
            return false;
        }
        i = i + 1;
    }
    true
}

fn leading_zeros(cs: &Vec<char>) -> (k: usize)
    ensures
        k <= cs.len(),
        cs@.skip(k as int) == trim_zeros(cs@),
{
    let mut k: usize = 0;
    assert(cs@.skip(0) =~= cs@);
    while k < cs.len() && cs[k] == '0'
        invariant
            k <= cs.len(),
            trim_zeros(cs@.skip(k as int)) == trim_zeros(cs@),
        decreases cs.len() - k,
    {
        assert(cs@.skip(k as int).drop_first() =~= cs@.skip(k as int + 1));
        k = k + 1;
    }
    k
}

fn lex_compare(a: &Vec<char>, start_a: usize, b: &Vec<char>, start_b: usize) -> (r: i8)
    requires
        start_a <= a.len(),
        start_b <= b.len(),
    ensures
        r as int == lex_cmp(a@.skip(start_a as int), b@.skip(start_b as int)),
        -1 <= r <= 1,
{
    let mut i = start_a;
    let mut j = start_b;
    while i < a.len() && j < b.len()
        invariant
            i <= a.len(),
            j <= b.len(),
            lex_cmp(a@.skip(i as int), b@.skip(j as int)) == lex_cmp(
                a@.skip(start_a as int),
                b@.skip(start_b as int),
            ),
        decreases a.len() - i,
    {
        let ghost x = a@.skip(i as int);
        let ghost y = b@.skip(j as int);
        assert(x[0] == a@[i as int]);
        assert(y[0] == b@[j as int]);
        if a[i] < b[j] {
            return -1;
        } else if a[i] > b[j] {
            return 1;
        }
        assert(x.drop_first() =~= a@.skip(i as int + 1));
        assert(y.drop_first() =~= b@.skip(j as int + 1));
        i = i + 1;
        j = j + 1;
    }
    if i < a.len() {
        1
    } else if j < b.len() {
        -1
    } else {
        0
    }
}

fn is_pre_chars(cs: &Vec<char>) -> (r: bool)
    ensures
        r == is_pre(cs@),
{
    let r = cs.len() == 3 && cs[0] == 'p' && cs[1] == 'r' && cs[2] == 'e';
    if r {
        assert(cs@ =~= seq!['p', 'r', 'e']);
    }
    r
}

/// Compares two components.
pub fn compare_components(a: &VersionComponent, b: &VersionComponent) -> (r: Ordering)
    ensures
        ord_value(r) == component_cmp(a@, b@),
{
    let x = chars_of(a.0.as_str());
    let y = chars_of(b.0.as_str());
    let xn = is_numeric_chars(&x);
    let yn = is_numeric_chars(&y);
    if xn && yn {
        let i = leading_zeros(&x);
        let j = leading_zeros(&y);
        if x.len() - i < y.len() - j {
            Ordering::Less
        } else if x.len() - i > y.len() - j {
            Ordering::Greater
        } else {
            ordering_of(lex_compare(&x, i, &y, j))
        }
    } else if xn {
        Ordering::Greater
    } else if yn {
        Ordering::Less
    } else {
        let xp = is_pre_chars(&x);
        let yp = is_pre_chars(&y);
        if xp && yp {
            Ordering::Equal
        } else if xp {
            Ordering::Less
        } else if yp {
            Ordering::Greater
        } else {
            assert(x@.skip(0) =~= x@);
            assert(y@.skip(0) =~= y@);
            ordering_of(lex_compare(&x, 0, &y, 0))
        }
    }
}

fn all_numeric_from(cs: &Vec<VersionComponent>, i: usize) -> (r: bool)
    requires
        i <= cs.len(),
    ensures
        r == all_numeric(component_views(cs@).skip(i as int)),
{
    let mut k = i;
    while k < cs.len()
        invariant
            i <= k <= cs.len(),
            forall|m: int| i <= m < k ==> is_numeric(#[trigger] component_views(cs@)[m]),
        decreases cs.len() - k,
    {
        let c = chars_of(cs[k].0.as_str());
        if !is_numeric_chars(&c) {
            assert(component_views(cs@).skip(i as int)[k - i] == component_views(cs@)[k as int]);
            return false;
        }
        k = k + 1;
    }
    assert forall|m: int| 0 <= m < component_views(cs@).skip(i as int).len() implies is_numeric(
        #[trigger] component_views(cs@).skip(i as int)[m],
    ) by {
        assert(component_views(cs@).skip(i as int)[m] == component_views(cs@)[i + m]);
    }
    true
}

/// Compares two sequences of components.
pub fn compare_component_lists(a: &Vec<VersionComponent>, b: &Vec<VersionComponent>) -> (r:
    Ordering)
    ensures
        ord_value(r) == components_cmp(component_views(a@), component_views(b@)),
{
    let ghost av = component_views(a@);
    let ghost bv = component_views(b@);
    let mut i: usize = 0;
    assert(av.skip(0) =~= av);
    assert(bv.skip(0) =~= bv);
    while i < a.len() && i < b.len()
        invariant
            i <= a.len(),
            i <= b.len(),
            av == component_views(a@),
            bv == component_views(b@),
            components_cmp(av, bv) == components_cmp(av.skip(i as int), bv.skip(i as int)),
        decreases a.len() - i,
    {
        let c = compare_components(&a[i], &b[i]);
        assert(av.skip(i as int)[0] == av[i as int]);
        assert(bv.skip(i as int)[0] == bv[i as int]);
        match c {
            Ordering::Equal => {},
            _ => {
                return c;
            },
        }
        assert(av.skip(i as int).drop_first() =~= av.skip(i as int + 1));
        assert(bv.skip(i as int).drop_first() =~= bv.skip(i as int + 1));
        i = i + 1;
    }
    if i < a.len() {
        if all_numeric_from(a, i) {
            Ordering::Greater
        } else {
            Ordering::Less
        }
    } else if i < b.len() {
        if all_numeric_from(b, i) {
            Ordering::Less
        } else {
            Ordering::Greater
        }
    } else {
        Ordering::Equal
    }
}

/// Compares two texts lexicographically.
pub fn compare_text(a: &str, b: &str) -> (r: Ordering)
    ensures
        ord_value(r) == lex_cmp(a@, b@),
{
    let x = chars_of(a);
    let y = chars_of(b);
    assert(x@.skip(0) =~= x@);
    assert(y@.skip(0) =~= y@);
    ordering_of(lex_compare(&x, 0, &y, 0))
}

/// Whether `a` comes after `b` lexicographically.
pub fn text_after(a: &str, b: &str) -> (r: bool)
    ensures
        r == (lex_cmp(a@, b@) > 0),
{
    match compare_text(a, b) {
        Ordering::Greater => true,
        _ => false,
    }
}

/// A version: its text, and how many times it occurs.
pub struct Version {
    pub name: String,
    pub multiplicity: usize,
}

/// A version as plain values: its text, and its multiplicity.
pub struct VersionView {
    pub text: Seq<char>,
    pub multiplicity: nat,
}

impl View for Version {
    type V = VersionView;

    open spec fn view(&self) -> VersionView {
        VersionView { text: self.name@, multiplicity: self.multiplicity as nat }
    }
}

impl Clone for Version {
    fn clone(&self) -> (r: Self)
        ensures
            r@ == self@,
    {
        Version { name: self.name.clone(), multiplicity: self.multiplicity }
    }
}

/// Two versions are equal when their texts are; the multiplicity is left
/// out.
impl PartialEq for Version {
    fn eq(&self, other: &Version) -> (r: bool) {
        self.name == other.name
    }
}

impl vstd::std_specs::cmp::PartialEqSpecImpl for Version {
    open spec fn obeys_eq_spec() -> bool {
        true
    }

    open spec fn eq_spec(&self, other: &Version) -> bool {
        self.name@ == other.name@
    }
}

impl Version {
    /// A version that occurs once.
    pub fn new(name: String) -> (r: Version)
        ensures
            r@.text == name@,
            r@.multiplicity == 1,
    {
        Version { name, multiplicity: 1 }
    }

    /// The pieces of the version, left to right.
    pub fn pieces(&self) -> (r: Vec<VersionPiece>)
        ensures
            piece_views(r@) == pieces_of(self@.text),
    {
        pieces(self.name.as_str())
    }

    /// Compares two versions by their components.
    pub fn compare(&self, other: &Version) -> (r: Ordering)
        ensures
            ord_value(r) == version_cmp(self@.text, other@.text),
    {
        let a = components(self.name.as_str());
        let b = components(other.name.as_str());
        compare_component_lists(&a, &b)
    }
}


/// The version order is transitive among versions none of which is a
/// pre-release extension of another.
pub proof fn lemma_version_order_transitive(a: Seq<char>, b: Seq<char>, c: Seq<char>)
    requires
        no_prerelease_extension(components_of(a), components_of(b), components_of(c)),
        version_cmp(a, b) <= 0,
        version_cmp(b, c) <= 0,
    ensures
        version_cmp(a, c) <= 0,
{
    lemma_components_transitive(components_of(a), components_of(b), components_of(c));
}

} // verus!
