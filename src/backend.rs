//! What the store backends decide without touching the store: reading the
//! output of the Nix commands, and which backend of a fallback chain to try.
use vstd::prelude::*;

use crate::report::path_views;
use crate::store_path::{in_store, StorePath, StorePathError};
use crate::text::{chars_of, substring};
use crate::version::is_digit;

verus! {

/// The backend that runs the Nix commands; it has no state.
pub struct CommandBackend;

/// The lines of `s`: split at each `\n`, a `\r` before it dropped, and no
/// line after a final `\n`.
pub open spec fn lines_of(s: Seq<char>) -> Seq<Seq<char>>
    decreases s.len(),
{
    if s.len() == 0 {
        Seq::empty()
    } else {
        let k = first_newline(s, 0);
        proof {
            lemma_first_newline(s, 0);
        }
        let line = s.take(k);
        let line = if line.len() > 0 && line.last() == '\r' && k < s.len() {
            line.drop_last()
        } else {
            line
        };
        if k < s.len() {
            seq![line] + lines_of(s.skip(k + 1))
        } else {
            seq![line]
        }
    }
}

/// The position of the first `\n` at or after `from`, or the length.
pub open spec fn first_newline(s: Seq<char>, from: int) -> int
    decreases s.len() - from,
{
    if from < 0 || from >= s.len() {
        s.len() as int
    } else if s[from] == '\n' {
        from
    } else {
        first_newline(s, from + 1)
    }
}

pub proof fn lemma_first_newline(s: Seq<char>, from: int)
    requires
        0 <= from <= s.len(),
    ensures
        from <= first_newline(s, from) <= s.len(),
        first_newline(s, from) < s.len() ==> s[first_newline(s, from)] == '\n',
        forall|i: int| from <= i < first_newline(s, from) ==> s[i] != '\n',
    decreases s.len() - from,
{
    if from < s.len() && s[from] != '\n' {
        lemma_first_newline(s, from + 1);
    }
}

/// Whether every line is in the store.
pub open spec fn all_in_store(ls: Seq<Seq<char>>) -> bool {
    forall|i: int| 0 <= i < ls.len() ==> in_store(#[trigger] ls[i])
}

/// Unicode white space, as `char::is_whitespace` has it.
pub open spec fn is_space(c: char) -> bool {
    ('\u{9}' <= c && c <= '\u{d}') || c == ' ' || c == '\u{85}' || c == '\u{a0}' || c == '\u{1680}'
        || ('\u{2000}' <= c && c <= '\u{200a}') || c == '\u{2028}' || c == '\u{2029}' || c
        == '\u{202f}' || c == '\u{205f}' || c == '\u{3000}'
}

fn is_space_char(c: char) -> (r: bool)
    ensures
        r == is_space(c),
{
    ('\u{9}' <= c && c <= '\u{d}') || c == ' ' || c == '\u{85}' || c == '\u{a0}' || c == '\u{1680}'
        || ('\u{2000}' <= c && c <= '\u{200a}') || c == '\u{2028}' || c == '\u{2029}' || c
        == '\u{202f}' || c == '\u{205f}' || c == '\u{3000}'
}

/// The last run of non-space characters of `s` (empty if there is none).
pub open spec fn last_word(s: Seq<char>) -> Seq<char>
    decreases s.len(),
{
    if s.len() == 0 {
        s
    } else if is_space(s.last()) {
        last_word(s.drop_last())
    } else {
        word_end(s)
    }
}

/// The run of non-space characters that ends `s`.
pub open spec fn word_end(s: Seq<char>) -> Seq<char>
    decreases s.len(),
{
    if s.len() == 0 || is_space(s.last()) {
        Seq::empty()
    } else {
        word_end(s.drop_last()).push(s.last())
    }
}

/// The number that a run of digits spells.
pub open spec fn decimal_value(s: Seq<char>) -> nat
    decreases s.len(),
{
    if s.len() == 0 {
        0
    } else {
        decimal_value(s.drop_last()) * 10 + (s.last() as nat - '0' as nat) as nat
    }
}

pub open spec fn all_digits(s: Seq<char>) -> bool {
    forall|i: int| 0 <= i < s.len() ==> is_digit(#[trigger] s[i])
}

/// The unsigned number that a word spells, as `u64`'s `from_str` reads it:
/// an optional `+`, then at least one digit, and a value that fits.
pub open spec fn word_value(w: Seq<char>) -> Option<u64> {
    let digits = if w.len() > 0 && w[0] == '+' {
        w.drop_first()
    } else {
        w
    };
    if digits.len() > 0 && all_digits(digits) && decimal_value(digits) <= u64::MAX {
        Some(decimal_value(digits) as u64)
    } else {
        None
    }
}

impl CommandBackend {
    /// The store paths that a command printed, one per line; the first line
    /// that is no store path is an error.
    pub fn parse_path_lines(output: &str) -> (r: Result<Vec<StorePath>, StorePathError>)
        ensures
            r is Ok <==> all_in_store(lines_of(output@)),
            r is Ok ==> path_views(r->Ok_0@) == lines_of(output@),
            r is Err ==> r->Err_0 == StorePathError::NotInStore,
    {
        let cs = chars_of(output);
        let n = cs.len();
        let mut out: Vec<StorePath> = Vec::new();
        let mut start: usize = 0;
        assert(output@.skip(0) =~= output@);
        while start < n
            invariant
                start <= n,
                n == cs@.len(),
                cs@ == output@,
                lines_of(output@) == path_views(out@) + lines_of(output@.skip(start as int)),
                all_in_store(path_views(out@)),
            decreases n - start,
        {
            let ghost rest = output@.skip(start as int);
            let mut k = start;
            while k < n && cs[k] != '\n'
                invariant
                    start <= k <= n,
                    n == cs@.len(),
                    cs@ == output@,
                    rest == output@.skip(start as int),
                    first_newline(rest, 0) == first_newline(rest, k - start),
                decreases n - k,
            {
                assert(rest[k - start] == cs@[k as int]);
                k = k + 1;
            }
            proof {
                if k < n {
                    assert(rest[k - start] == cs@[k as int]);
                }
                lemma_first_newline(rest, 0);
            }
            let mut end = k;
            if end > start && cs[end - 1] == '\r' && k < n {
                end = end - 1;
            }
            let line = substring(output, start, end);
            let ghost lv = line@;
            assert(lv =~= (if rest.take(k - start).len() > 0 && rest.take(k - start).last() == '\r' && k - start < rest.len() {
                rest.take(k - start).drop_last()
            } else {
                rest.take(k - start)
            }));
            match StorePath::try_from(line) {
                Ok(p) => {
                    let ghost before = path_views(out@);
                    out.push(p);
                    assert(path_views(out@) =~= before.push(lv));
                    if k < n {
                        assert(rest.skip(k - start + 1) =~= output@.skip(k + 1));
                        assert(lines_of(rest) == seq![lv] + lines_of(rest.skip(k - start + 1)));
                        assert(before + lines_of(rest) =~= path_views(out@) + lines_of(output@.skip(k + 1)));
                        start = k + 1;
                    } else {
                        assert(lines_of(rest) == seq![lv]);
                        assert(output@.skip(n as int) =~= Seq::<char>::empty());
                        assert(before + lines_of(rest) =~= path_views(out@) + lines_of(output@.skip(n as int)));
                        start = n;
                    }
                },
                Err(e) => {
                    proof {
                        assert(lines_of(rest)[0] == lv);
                        let all = lines_of(output@);
                        assert(all[path_views(out@).len() as int] == lv);
                    }
                    return Err(e);
                },
            }
        }
        assert(output@.skip(n as int) =~= Seq::<char>::empty());
        assert(path_views(out@) + Seq::<Seq<char>>::empty() =~= path_views(out@));
        Ok(out)
    }

    /// The closure size that `nix path-info --closure-size` printed: the
    /// number in its last word.
    pub fn parse_closure_size(output: &str) -> (r: Option<u64>)
        ensures
            r == word_value(last_word(output@)),
    {
        let cs = chars_of(output);
        let mut end = cs.len();
        assert(cs@.take(end as int) =~= cs@);
        while end > 0 && is_space_char(cs[end - 1])
            invariant
                end <= cs@.len(),
                cs@ == output@,
                last_word(output@) == last_word(cs@.take(end as int)),
            decreases end,
        {
            assert(cs@.take(end as int).drop_last() =~= cs@.take(end - 1));
            end = end - 1;
        }
        let mut start = end;
        proof {
            if end > 0 {
                assert(cs@.take(end as int).last() == cs@[end - 1]);
            }
        }
        assert(cs@.subrange(end as int, end as int) =~= Seq::<char>::empty());
        while start > 0 && !is_space_char(cs[start - 1])
            invariant
                start <= end <= cs@.len(),
                cs@ == output@,
                word_end(cs@.take(end as int)) == word_end(cs@.take(start as int)) + cs@.subrange(start as int, end as int),
            decreases start,
        {
            assert(cs@.take(start as int).drop_last() =~= cs@.take(start - 1));
            assert(cs@.take(start as int).last() == cs@[start - 1]);
            assert(cs@.subrange(start - 1, end as int) =~= seq![cs@[start - 1]] + cs@.subrange(start as int, end as int));
            assert(word_end(cs@.take(start as int)) == word_end(cs@.take(start - 1)).push(cs@[start - 1]));
            assert(word_end(cs@.take(start - 1)).push(cs@[start - 1]) + cs@.subrange(start as int, end as int)
                =~= word_end(cs@.take(start - 1)) + cs@.subrange(start - 1, end as int));
            start = start - 1;
        }
        proof {
            if start > 0 {
                assert(cs@.take(start as int).last() == cs@[start - 1]);
            }
            assert(word_end(cs@.take(start as int)) == Seq::<char>::empty());
            assert(Seq::<char>::empty() + cs@.subrange(start as int, end as int) =~= cs@.subrange(start as int, end as int));
            if end > 0 {
                assert(last_word(cs@.take(end as int)) == word_end(cs@.take(end as int)));
            }
        }
        let ghost w = cs@.subrange(start as int, end as int);
        assert(w == last_word(output@));
        // An optional plus sign, then the digits.
        let mut i = start;
        if i < end && cs[i] == '+' {
            i = i + 1;
        }
        let ghost digits = cs@.subrange(i as int, end as int);
        assert(digits =~= (if w.len() > 0 && w[0] == '+' { w.drop_first() } else { w }));
        if i == end {
            return None;
        }
        let mut acc: u64 = 0;
        let mut k = i;
        assert(cs@.subrange(i as int, i as int) =~= Seq::<char>::empty());
        while k < end
            invariant
                i <= k <= end <= cs@.len(),
                digits == cs@.subrange(i as int, end as int),
                w == last_word(output@),
                digits == (if w.len() > 0 && w[0] == '+' { w.drop_first() } else { w }),
                digits.len() > 0,
                all_digits(cs@.subrange(i as int, k as int)),
                acc as nat == decimal_value(cs@.subrange(i as int, k as int)),
            decreases end - k,
        {
            let c = cs[k];
            assert(cs@.subrange(i as int, k + 1).drop_last() =~= cs@.subrange(i as int, k as int));
            assert(cs@.subrange(i as int, k + 1).last() == c);
            if !('0' <= c && c <= '9') {
                assert(digits[k - i] == c);
                return None;
            }
            let d = (c as u32 - '0' as u32) as u64;
            if acc > (u64::MAX - d) / 10 {
                proof {
                    assert(acc * 10 + d > u64::MAX) by (nonlinear_arith)
                        requires acc > (u64::MAX - d) / 10, d <= 9;
                    assert(decimal_value(cs@.subrange(i as int, k + 1)) > u64::MAX);
                    lemma_value_prefix(digits, k + 1 - i);
                    assert(digits.take(k + 1 - i) =~= cs@.subrange(i as int, k + 1));
                }
                return None;
            }
            proof {
                assert(acc * 10 + d <= u64::MAX) by (nonlinear_arith)
                    requires acc <= (u64::MAX - d) / 10, d <= 9;
            }
            acc = acc * 10 + d;
            k = k + 1;
            assert forall|x: int| 0 <= x < cs@.subrange(i as int, k as int).len() implies is_digit(
                #[trigger] cs@.subrange(i as int, k as int)[x],
            ) by {
                if x < k - 1 - i {
                    assert(cs@.subrange(i as int, k as int)[x] == cs@.subrange(i as int, k - 1)[x]);
                }
            }
        }
        Some(acc)
    }
}

/// Whether the digits of a prefix spell at most what all of them spell.
proof fn lemma_value_prefix(s: Seq<char>, k: int)
    requires
        0 <= k <= s.len(),
    ensures
        decimal_value(s.take(k)) <= decimal_value(s),
    decreases s.len() - k,
{
    if k < s.len() {
        assert(s.drop_last().take(k) =~= s.take(k));
        if k < s.len() - 1 {
            lemma_value_prefix(s.drop_last(), k);
        } else {
            assert(s.drop_last().take(k) =~= s.drop_last());
        }
    } else {
        assert(s.take(k) =~= s);
    }
}

/// The first backend at or after `from` that is connected.
pub open spec fn next_connected(connected: Seq<bool>, from: int) -> Option<int>
    decreases connected.len() - from,
{
    if from < 0 || from >= connected.len() {
        None
    } else if connected[from] {
        Some(from)
    } else {
        next_connected(connected, from + 1)
    }
}

/// Which backend of a fallback chain to try next: the first connected one
/// at or after `from`; `None` when every one has been tried.
pub fn next_backend(connected: &Vec<bool>, from: usize) -> (r: Option<usize>)
    ensures
        r == match next_connected(connected@, from as int) {
            Some(i) => Some(i as usize),
            None => None::<usize>,
        },
        r is Some ==> from <= r->0 < connected@.len() && connected@[r->0 as int],
{
    let mut i = from;
    while i < connected.len()
        invariant
            from <= i,
            next_connected(connected@, from as int) == next_connected(connected@, i as int),
            forall|k: int| from <= k < i && k < connected@.len() ==> !connected@[k],
        decreases connected.len() - i,
    {
        if connected[i] {
            return Some(i);
        }
        i = i + 1;
    }
    None
}

/// A chain of backends is connected when at least one of them is.
pub fn any_connected(connected: &Vec<bool>) -> (r: bool)
    ensures
        r == exists|i: int| 0 <= i < connected@.len() && connected@[i],
{
    match next_backend(connected, 0) {
        Some(_) => true,
        None => {
            proof {
                lemma_none_connected(connected@, 0);
            }
            false
        },
    }
}

proof fn lemma_none_connected(c: Seq<bool>, from: int)
    requires
        0 <= from,
        next_connected(c, from) is None,
    ensures
        forall|i: int| from <= i < c.len() ==> !c[i],
    decreases c.len() - from,
{
    if from < c.len() {
        lemma_none_connected(c, from + 1);
    }
}

} // verus!
