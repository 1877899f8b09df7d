//! Store paths, and splitting their base name into a package name and a
//! version.
use vstd::prelude::*;

use crate::text::{chars_of, substring};
use crate::version::{is_digit, Version};

verus! {

/// `/nix/store/`
pub open spec fn store_dir() -> Seq<char> {
    seq!['/', 'n', 'i', 'x', '/', 's', 't', 'o', 'r', 'e', '/']
}

fn store_dir_chars() -> (r: Vec<char>)
    ensures
        r@ == store_dir(),
{
    let r = vec!['/', 'n', 'i', 'x', '/', 's', 't', 'o', 'r', 'e', '/'];
    assert(r@ =~= store_dir());
    r
}

/// The length of `/nix/store/<hash>-`.
pub const HASHED_PREFIX_LEN: usize = 44;

/// `p` begins with the store directory.
pub open spec fn in_store(p: Seq<char>) -> bool {
    p.len() >= 11 && p.take(11) == store_dir()
}

/// `p` has the shape `/nix/store/<32 ASCII characters>-...`, so that its
/// first 44 bytes are the store directory, the hash and a dash.
pub open spec fn has_hashed_prefix(p: Seq<char>) -> bool {
    &&& in_store(p)
    &&& p.len() >= 44
    &&& forall|i: int| 11 <= i < 43 ==> #[trigger] p[i] <= '\u{7f}'
    &&& p[43] == '-'
}

/// The text after the last line break of `t` (all of `t` if it has none).
/// The name pattern's `.` does not cross a line break, and the pattern is
/// anchored at the end, so only this text can match.
pub open spec fn last_line(t: Seq<char>) -> Seq<char>
    decreases t.len(),
{
    if t.len() == 0 {
        t
    } else if t.last() == '\n' {
        Seq::empty()
    } else {
        last_line(t.drop_last()).push(t.last())
    }
}

/// The first position `k >= from` at which `t` has a dash followed by an
/// ASCII digit.
pub open spec fn first_split(t: Seq<char>, from: int) -> Option<int>
    decreases t.len() - from,
{
    if from < 0 || from + 1 >= t.len() {
        None
    } else if t[from] == '-' && is_digit(t[from + 1]) {
        Some(from)
    } else {
        first_split(t, from + 1)
    }
}

/// The name: the shortest non-empty prefix followed by `-<digit>`, or all of
/// the text when there is no such prefix.
pub open spec fn name_of(t: Seq<char>) -> Seq<char> {
    match first_split(t, 1) {
        Some(k) => t.take(k),
        None => t,
    }
}

/// The version: what follows the dash after the name, if there is one.
pub open spec fn version_of(t: Seq<char>) -> Option<Seq<char>> {
    match first_split(t, 1) {
        Some(k) => Some(t.skip(k + 1)),
        None => None,
    }
}

/// The part of a store path that names the package.
pub open spec fn base_name(p: Seq<char>) -> Seq<char> {
    last_line(p.skip(44))
}

proof fn lemma_last_line_plain(t: Seq<char>)
    requires
        forall|i: int| 0 <= i < t.len() ==> #[trigger] t[i] != '\n',
    ensures
        last_line(t) == t,
    decreases t.len(),
{
    if t.len() > 0 {
        lemma_last_line_plain(t.drop_last());
        assert(t =~= t.drop_last().push(t.last()));
    }
}

proof fn lemma_first_split_after(t: Seq<char>, from: int)
    ensures
        first_split(t, from) is Some ==> first_split(t, from)->0 >= from,
        first_split(t, from) is Some ==> first_split(t, from)->0 + 1 < t.len(),
    decreases t.len() - from,
{
    if from >= 0 && from + 1 < t.len() && !(t[from] == '-' && is_digit(t[from + 1])) {
        lemma_first_split_after(t, from + 1);
    }
}

proof fn lemma_first_split_skips(t: Seq<char>, from: int, to: int)
    requires
        1 <= from <= to < t.len(),
        forall|k: int| from <= k < to ==> !(t[k] == '-' && #[trigger] is_digit(t[k + 1])),
    ensures
        first_split(t, from) == first_split(t, to),
    decreases to - from,
{
    if from < to {
        lemma_first_split_skips(t, from + 1, to);
    }
}

/// The store path `/nix/store/<32 zeros>-<name>-<version>`.
pub open spec fn built_path(name: Seq<char>, version: Seq<char>) -> Seq<char> {
    store_dir() + Seq::new(32, |i: int| '0') + seq!['-'] + name + seq!['-'] + version
}

/// A path built from the store directory, a hash, a name and a version
/// parses back into that name and version exactly when the version begins
/// with a digit. This holds for names in which no dash is followed by a
/// digit, and for names and versions without line breaks.
pub proof fn lemma_parse_built_path(name: Seq<char>, version: Seq<char>)
    requires
        name.len() > 0,
        forall|k: int| 1 <= k < name.len() - 1 ==> !(name[k] == '-' && #[trigger] is_digit(name[k + 1])),
        forall|i: int| 0 <= i < name.len() ==> #[trigger] name[i] != '\n',
        forall|i: int| 0 <= i < version.len() ==> #[trigger] version[i] != '\n',
    ensures
        has_hashed_prefix(built_path(name, version)),
        base_name(built_path(name, version)).len() > 0,
        (name_of(base_name(built_path(name, version))) == name && version_of(
            base_name(built_path(name, version)),
        ) == Some(version)) <==> (version.len() > 0 && is_digit(version[0])),
{
    let p = built_path(name, version);
    let t = name + seq!['-'] + version;
    assert(p.take(11) =~= store_dir());
    assert(p.skip(44) =~= t);
    assert forall|i: int| 0 <= i < t.len() implies #[trigger] t[i] != '\n' by {
        if i < name.len() {
            assert(t[i] == name[i]);
        } else if i > name.len() {
            assert(t[i] == version[i - name.len() - 1]);
        }
    }
    lemma_last_line_plain(t);
    let n = name.len() as int;
    assert forall|k: int| 1 <= k < n implies !(t[k] == '-' && #[trigger] is_digit(t[k + 1])) by {
        if k < n - 1 {
            assert(t[k] == name[k]);
            assert(t[k + 1] == name[k + 1]);
        } else {
            assert(t[k + 1] == '-');
        }
    }
    if n > 1 {
        lemma_first_split_skips(t, 1, n);
    }
    assert(t[n] == '-');
    if version.len() > 0 && is_digit(version[0]) {
        assert(t[n + 1] == version[0]);
        assert(t.take(n) =~= name);
        assert(t.skip(n + 1) =~= version);
    } else {
        if version.len() > 0 {
            assert(t[n + 1] == version[0]);
        }
        lemma_first_split_after(t, n + 1);
        match first_split(t, n + 1) {
            Some(k) => {
                assert(t.take(k).len() != name.len());
            },
            None => {
                assert(t.len() != name.len());
            },
        }
    }
}

/// A package name, and its version where it has one.
pub struct NameAndVersion {
    pub name: String,
    pub version: Option<String>,
}

/// Splits the text after the first 44 characters of `path` into a name and
/// a version, where it holds a name.
pub(crate) fn split_base_name(path: &str, cs: &Vec<char>) -> (r: Option<NameAndVersion>)
    requires
        cs@ == path@,
        cs@.len() >= 44,
    ensures
        r is None <==> base_name(path@).len() == 0,
        r is Some ==> {
            let t = base_name(path@);
            &&& r->0.name@ == name_of(t)
            &&& r->0.version is Some <==> version_of(t) is Some
            &&& r->0.version is Some ==> r->0.version->0@ == version_of(t)->0
        },
{
    let n = cs.len();
    // Where the last line begins.
    let mut start: usize = 44;
    let mut j: usize = 44;
    assert(cs@.subrange(44, 44) =~= Seq::<char>::empty());
    while j < n
        invariant
            cs@ == path@,
            n == cs.len(),
            44 <= start <= j <= n,
            cs@.len() >= 44,
            cs@.subrange(start as int, j as int) == last_line(cs@.subrange(44, j as int)),
        decreases n - j,
    {
        assert(cs@.subrange(44, j + 1).drop_last() =~= cs@.subrange(44, j as int));
        if cs[j] == '\n' {
            start = j + 1;
            assert(cs@.subrange(start as int, j + 1) =~= Seq::<char>::empty());
        } else {
            assert(cs@.subrange(start as int, j + 1) =~= cs@.subrange(
                start as int,
                j as int,
            ).push(cs@[j as int]));
        }
        j = j + 1;
    }
    assert(cs@.subrange(44, n as int) =~= cs@.skip(44));
    let ghost t = cs@.subrange(start as int, n as int);
    assert(t == base_name(path@));
    if start == n {
        return None;
    }
    // The shortest name that is followed by `-<digit>`.
    let mut k: usize = start + 1;
    while k < n - 1
        invariant
            cs@.len() >= 44,
            t == base_name(path@),
            start < n,
            cs@ == path@,
            n == cs.len(),
            start < k <= n,
            t == cs@.subrange(start as int, n as int),
            first_split(t, 1) == first_split(t, k - start),
        decreases n - k,
    {
        assert(t[k - start] == cs@[k as int]);
        assert(t[k - start + 1] == cs@[k + 1]);
        if cs[k] == '-' && '0' <= cs[k + 1] && cs[k + 1] <= '9' {
            let name = substring(path, start, k);
            let version = substring(path, k + 1, n);
            assert(name@ =~= t.take(k - start));
            assert(version@ =~= t.skip(k - start + 1));
            return Some(NameAndVersion { name, version: Some(version) });
        }
        k = k + 1;
    }
    let name = substring(path, start, n);
    Some(NameAndVersion { name, version: None })
}

/// Why a store path could not be used.
#[derive(PartialEq, Eq, Structural, Debug, Clone, Copy)]
pub enum StorePathError {
    /// The path does not begin with `/nix/store/`.
    NotInStore,
    /// The path lacks the `/nix/store/<hash>-` prefix.
    BadShape,
    /// Nothing after the prefix can be a package name.
    NoName,
}

/// The id of a row of the store database.
#[derive(PartialEq, Eq, Structural, Debug, Clone, Copy, Hash)]
pub struct DerivationId(pub i64);

/// A path that begins with `/nix/store/`.
#[derive(Debug, Hash)]
pub struct StorePath {
    path: String,
}

impl View for StorePath {
    type V = Seq<char>;

    closed spec fn view(&self) -> Seq<char> {
        self.path@
    }
}

impl Clone for StorePath {
    fn clone(&self) -> (r: Self)
        ensures
            r@ == self@,
    {
        proof {
            use_type_invariant(self);
        }
        StorePath { path: self.path.clone() }
    }
}

impl PartialEq for StorePath {
    fn eq(&self, other: &StorePath) -> (r: bool) {
        self.path == other.path
    }
}

impl vstd::std_specs::cmp::PartialEqSpecImpl for StorePath {
    open spec fn obeys_eq_spec() -> bool {
        true
    }

    open spec fn eq_spec(&self, other: &StorePath) -> bool {
        self@ == other@
    }
}

fn starts_with_store_dir(cs: &Vec<char>) -> (r: bool)
    ensures
        r == in_store(cs@),
{
    let dir = store_dir_chars();
    if cs.len() < 11 {
        return false;
    }
    let mut i: usize = 0;
    while i < 11
        invariant
            cs.len() >= 11,
            dir@ == store_dir(),
            i <= 11,
            forall|k: int| 0 <= k < i ==> cs@[k] == #[trigger] dir@[k],
        decreases 11 - i,
    {
        if cs[i] != dir[i] {
            assert(cs@.take(11)[i as int] != store_dir()[i as int]);
            return false;
        }
        i = i + 1;
    }
    assert(cs@.take(11) =~= store_dir());
    true
}

impl StorePath {
    /// Every store path begins with the store directory.
    #[verifier::type_invariant]
    spec fn well_formed(self) -> bool {
        in_store(self.path@)
    }

    /// Accepts `path` when it begins with `/nix/store/`.
    pub fn try_from(path: String) -> (r: Result<StorePath, StorePathError>)
        ensures
            r is Ok <==> in_store(path@),
            r is Ok ==> r->Ok_0@ == path@,
            r is Err ==> r->Err_0 == StorePathError::NotInStore,
    {
        let cs = chars_of(path.as_str());
        if starts_with_store_dir(&cs) {
            Ok(StorePath { path })
        } else {
            Err(StorePathError::NotInStore)
        }
    }

    /// The path as text.
    pub fn as_str(&self) -> (r: &str)
        ensures
            r@ == self@,
    {
        self.path.as_str()
    }

    /// Splits the base name of the path into the package name and, where the
    /// name is followed by `-<digit>`, the version.
    pub fn parse_name_and_version(&self) -> (r: Result<(String, Option<Version>), StorePathError>)
        ensures
            r is Ok <==> has_hashed_prefix(self@) && base_name(self@).len() > 0,
            !has_hashed_prefix(self@) <==> r == Err::<(String, Option<Version>), _>(
                StorePathError::BadShape,
            ),
            has_hashed_prefix(self@) && base_name(self@).len() == 0 <==> r == Err::<
                (String, Option<Version>),
                _,
            >(StorePathError::NoName),
            r is Ok ==> {
                let t = base_name(self@);
                &&& r->Ok_0.0@ == name_of(t)
                &&& r->Ok_0.1 is Some <==> version_of(t) is Some
                &&& r->Ok_0.1 is Some ==> r->Ok_0.1->0@.text == version_of(t)->0
                &&& r->Ok_0.1 is Some ==> r->Ok_0.1->0@.multiplicity == 1
            },
    {
        let cs = chars_of(self.path.as_str());
        if !starts_with_store_dir(&cs) || cs.len() < HASHED_PREFIX_LEN || cs[43] != '-' {
            return Err(StorePathError::BadShape);
        }
        let mut i: usize = 11;
        while i < 43
            invariant
                in_store(self@),
                cs@[43] == '-',
                cs@ == self@,
                cs.len() >= 44,
                11 <= i <= 43,
                forall|k: int| 11 <= k < i ==> #[trigger] cs@[k] <= '\u{7f}',
            decreases 43 - i,
        {
            if cs[i] > '\u{7f}' {
                return Err(StorePathError::BadShape);
            }
            i = i + 1;
        }
        match split_base_name(self.path.as_str(), &cs) {
            None => Err(StorePathError::NoName),
            Some(NameAndVersion { name, version: None }) => Ok((name, None)),
            Some(NameAndVersion { name, version: Some(version) }) => Ok(
                (name, Some(Version::new(version))),
            ),
        }
    }
}

} // verus!
