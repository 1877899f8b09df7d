//! Store paths of a fixed shape, and the ids of the paths of a closure, for
//! building test stores.
use vstd::prelude::*;

use crate::store_path::store_dir;

verus! {

/// `/nix/store/` followed by a hash of 32 zeros and a dash.
pub open spec fn fixture_prefix() -> Seq<char> {
    store_dir() + Seq::new(32, |i: int| '0') + seq!['-']
}

/// The prefix of every fixture path.
pub fn store_prefix() -> (r: &'static str)
    ensures
        r@ == fixture_prefix(),
{
    let s = "/nix/store/00000000000000000000000000000000-";
    proof {
        reveal_strlit("/nix/store/00000000000000000000000000000000-");
    }
    assert(s@ =~= fixture_prefix());
    s
}

/// The store path of the package `name`.
pub fn store_path(name: &str) -> (r: String)
    ensures
        r@ == fixture_prefix() + name@,
{
    let mut r = store_prefix().to_owned();
    r.append(name);
    r
}

/// The store path of the system `name`.
pub fn system_path(name: &str) -> (r: String)
    ensures
        r@ == fixture_prefix() + name@ + seq!['-', 's', 'y', 's', 't', 'e', 'm'],
{
    let mut r = store_path(name);
    proof {
        reveal_strlit("-system");
    }
    r.append("-system");
    assert("-system"@ =~= seq!['-', 's', 'y', 's', 't', 'e', 'm']);
    r
}

/// The store path of the `system-path` derivation of the system `name`.
pub fn system_path_derivation(name: &str) -> (r: String)
    ensures
        r@ == fixture_prefix() + name@ + seq!['-', 's', 'y', 's', 't', 'e', 'm', '-', 'p', 'a', 't', 'h'],
{
    let mut r = store_path(name);
    proof {
        reveal_strlit("-system-path");
    }
    r.append("-system-path");
    assert("-system-path"@ =~= seq!['-', 's', 'y', 's', 't', 'e', 'm', '-', 'p', 'a', 't', 'h']);
    r
}

/// The id given to `path`: the first one recorded for it.
pub open spec fn id_of(entries: Seq<(Seq<char>, i64)>, path: Seq<char>) -> Option<i64>
    decreases entries.len(),
{
    if entries.len() == 0 {
        None
    } else {
        match id_of(entries.drop_last(), path) {
            Some(id) => Some(id),
            None => if entries.last().0 == path {
                Some(entries.last().1)
            } else {
                None
            },
        }
    }
}

/// The paths of a closure in a test store, with their row ids.
pub struct Closure {
    path_ids: Vec<(String, i64)>,
}

impl Closure {
    pub closed spec fn entries(&self) -> Seq<(Seq<char>, i64)> {
        self.path_ids@.map_values(|e: (String, i64)| (e.0@, e.1))
    }

    /// A closure with no paths.
    pub fn new() -> (r: Closure)
        ensures
            forall|p: Seq<char>| id_of(#[trigger] r.entries(), p) is None,
    {
        let r = Closure { path_ids: Vec::new() };
        assert(r.entries() =~= Seq::<(Seq<char>, i64)>::empty());
        r
    }

    /// Records `id` for `path`, unless the path has one already.
    pub fn record(&mut self, path: String, id: i64)
        ensures
            forall|p: Seq<char>| #[trigger] id_of(final(self).entries(), p) == if p == path@ && id_of(old(self).entries(), p) is None {
                Some(id)
            } else {
                id_of(old(self).entries(), p)
            },
    {
        let ghost before = self.entries();
        let ghost key = path@;
        self.path_ids.push((path, id));
        assert(self.entries() =~= before.push((key, id)));
        assert(self.entries().drop_last() =~= before);
    }

    /// The id of `path`, if it is in the closure.
    pub fn get_id(&self, path: &str) -> (r: Option<i64>)
        ensures
            r == id_of(self.entries(), path@),
    {
        let ghost es = self.entries();
        let key = path.to_owned();
        let mut k: usize = 0;
        while k < self.path_ids.len()
            invariant
                k <= self.path_ids@.len(),
                es == self.entries(),
                key@ == path@,
                id_of(es.take(k as int), path@) is None,
            decreases self.path_ids.len() - k,
        {
            assert(es.take(k + 1).drop_last() =~= es.take(k as int));
            assert(es.take(k + 1).last() == es[k as int]);
            assert(es[k as int] == (self.path_ids@[k as int].0@, self.path_ids@[k as int].1));
            if self.path_ids[k].0 == key {
                proof {
                    lemma_id_of_prefix(es, k as int + 1, path@);
                }
                return Some(self.path_ids[k].1);
            }
            k = k + 1;
        }
        assert(es.take(es.len() as int) =~= es);
        None
    }
}

proof fn lemma_id_of_prefix(es: Seq<(Seq<char>, i64)>, k: int, p: Seq<char>)
    requires
        0 <= k <= es.len(),
        id_of(es.take(k), p) is Some,
    ensures
        id_of(es, p) == id_of(es.take(k), p),
    decreases es.len() - k,
{
    if k < es.len() {
        assert(es.take(k + 1).drop_last() =~= es.take(k));
        lemma_id_of_prefix(es, k + 1, p);
    } else {
        assert(es.take(k) =~= es);
    }
}

} // verus!
