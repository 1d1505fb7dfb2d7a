//! Hierarchical lookup over a store, scoped to a working directory.
//!
//! Both read paths walk the working directory's ancestor chain, but with
//! opposite precedence: [`Projector::get_value_all`] merges ancestors from
//! the root downward, so the directory closest to the working directory
//! wins on a repeated key, while [`Projector::get_value`] keeps overwriting
//! its candidate while walking outward, so the most distant ancestor wins.
//! Both behaviors are externally observable and are kept exactly as they
//! are.
//!
//! The chain is built by [`parent_of`], a plain string operation: every
//! `/` is one step, so a path with a trailing or doubled separator has a
//! longer chain than its component-normalized form (`/a/b/` steps through
//! `/a/b`, where a component-based parent would step to `/a` at once), and
//! the walks can consult those extra directories. This matches the store's
//! exact-string lookup, which likewise never normalizes separators.

use vstd::prelude::*;

use crate::paths::{
    in_chain, lemma_in_chain_len, lemma_in_chain_trans, lemma_parent_shorter, parent, parent_of,
};
use crate::json::{from_json, json_data, json_of, to_json};
use crate::store::{default_data, Data, Dir};

verus! {

/// The mapping kept for exactly `p`, or the empty mapping when the store
/// has no row for `p`.
pub open spec fn dir_map_at(
    m: Map<Seq<char>, Map<Seq<char>, Seq<char>>>,
    p: Seq<char>,
) -> Map<Seq<char>, Seq<char>> {
    if m.contains_key(p) {
        m[p]
    } else {
        Map::empty()
    }
}

/// The merged mapping for working directory `p`: ancestors are merged from
/// the root downward, and on a repeated key the directory closest to `p`
/// wins.
pub open spec fn resolve_all(
    m: Map<Seq<char>, Map<Seq<char>, Seq<char>>>,
    p: Seq<char>,
) -> Map<Seq<char>, Seq<char>>
    decreases p.len(),
    via resolve_all_decreases
{
    match parent_of(p) {
        Some(q) => resolve_all(m, q).union_prefer_right(dir_map_at(m, p)),
        None => dir_map_at(m, p),
    }
}

#[via_fn]
proof fn resolve_all_decreases(m: Map<Seq<char>, Map<Seq<char>, Seq<char>>>, p: Seq<char>) {
    lemma_parent_shorter(p);
}

/// The single-key lookup for working directory `p`: the walk starts at `p`
/// and moves outward, keeping the value of each directory that defines
/// `k`, so the value of the most distant ancestor that defines `k` is the
/// one returned.
pub open spec fn resolve_one(
    m: Map<Seq<char>, Map<Seq<char>, Seq<char>>>,
    p: Seq<char>,
    k: Seq<char>,
) -> Option<Seq<char>>
    decreases p.len(),
    via resolve_one_decreases
{
    let here = if dir_map_at(m, p).contains_key(k) {
        Some(dir_map_at(m, p)[k])
    } else {
        None::<Seq<char>>
    };
    match parent_of(p) {
        Some(q) => if resolve_one(m, q, k) is Some {
            resolve_one(m, q, k)
        } else {
            here
        },
        None => here,
    }
}

#[via_fn]
proof fn resolve_one_decreases(
    m: Map<Seq<char>, Map<Seq<char>, Seq<char>>>,
    p: Seq<char>,
    k: Seq<char>,
) {
    lemma_parent_shorter(p);
}

/// A store scoped to a configuration file path and a working directory.
pub struct Projector {
    pub config: String,
    pub pwd: String,
    pub data: Data,
}

impl Projector {
    /// Well-formed: the held store is well-formed.
    pub open spec fn wf(self) -> bool {
        self.data.wf()
    }

    /// The merged view of every key visible from the working directory.
    pub fn get_value_all(&self) -> (r: Dir)
        requires
            self.wf(),
        ensures
            r.wf(),
            r.as_map() =~= resolve_all(self.data.as_map(), self.pwd@),
    {
        let ghost m = self.data.as_map();
        let mut chain: Vec<String> = Vec::new();
        let mut current: Option<String> = Some(self.pwd.clone());
        while current.is_some()
            invariant
                current matches Some(p) ==> {
                    &&& chain@.len() > 0 ==> parent_of(chain@.last()@) == Some(p@)
                    &&& chain@.len() == 0 ==> p@ == self.pwd@
                },
                current is None ==> chain@.len() > 0 && parent_of(chain@.last()@) is None,
                chain@.len() > 0 ==> chain@[0]@ == self.pwd@,
                forall|j: int| 0 < j < chain@.len()
                    ==> parent_of(chain@[j - 1]@) == Some((#[trigger] chain@[j])@),
            decreases (match current {
                Some(p) => p@.len() + 1,
                None => 0nat,
            }),
        {
            let p = current.unwrap();
            proof {
                lemma_parent_shorter(p@);
            }
            let next = parent(p.as_str());
            chain.push(p);
            current = next;
        }
        let mut out = Dir::new();
        let mut i: usize = chain.len();
        proof {
            lemma_resolve_all_skip_absent(m, chain@.last()@);
        }
        while i > 0
            invariant
                i <= chain@.len(),
                chain@.len() > 0,
                self.wf(),
                m == self.data.as_map(),
                out.wf(),
                chain@.len() > 0 ==> chain@[0]@ == self.pwd@,
                parent_of(chain@.last()@) is None,
                forall|j: int| 0 < j < chain@.len()
                    ==> parent_of(chain@[j - 1]@) == Some((#[trigger] chain@[j])@),
                i == chain@.len() ==> out.as_map() =~= Map::<Seq<char>, Seq<char>>::empty(),
                i < chain@.len() ==> out.as_map() =~= resolve_all(m, chain@[i as int]@),
            decreases i,
        {
            i = i - 1;
            let ghost before = out.as_map();
            if let Some(d) = self.data.get_directory_entries(chain[i].as_str()) {
                let n = d.entries.len();
                let ghost kvs = d.kvs();
                let mut j: usize = 0;
                while j < n
                    invariant
                        j <= n,
                        n == d.entries@.len(),
                        kvs == d.kvs(),
                        d.wf(),
                        out.wf(),
                        out.as_map() =~= before.union_prefer_right(
                            crate::store::pairs_to_map(kvs.take(j as int)),
                        ),
                    decreases n - j,
                {
                    let e = &d.entries[j];
                    let k = e.key.clone();
                    let v = e.val.clone();
                    out.upsert(k, v);
                    j = j + 1;
                    proof {
                        assert(kvs.take(j as int).drop_last() =~= kvs.take(j as int - 1));
                        assert(out.as_map() =~= before.union_prefer_right(
                            crate::store::pairs_to_map(kvs.take(j as int)),
                        ));
                    }
                }
                proof {
                    assert(kvs.take(n as int) =~= kvs);
                    assert(out.as_map() =~= before.union_prefer_right(d.as_map()));
                    assert(dir_map_at(m, chain@[i as int]@) == d.as_map());
                }
            } else {
                proof {
                    assert(before.union_prefer_right(Map::<Seq<char>, Seq<char>>::empty())
                        =~= before);
                }
            }
            proof {
                if i + 1 == chain@.len() {
                    assert(out.as_map() =~= resolve_all(m, chain@[i as int]@));
                } else {
                    assert(parent_of(chain@[i as int]@) == Some(chain@[i as int + 1]@));
                    assert(out.as_map() =~= resolve_all(m, chain@[i as int]@));
                }
            }
        }
        proof {
            assert(out.as_map() =~= resolve_all(m, self.pwd@));
        }
        out
    }
}

/// A directory whose whole ancestor chain is absent from the store
/// resolves to the empty mapping; in particular the chain's last element,
/// which has no parent, contributes nothing beyond its own row.
proof fn lemma_resolve_all_skip_absent(
    m: Map<Seq<char>, Map<Seq<char>, Seq<char>>>,
    p: Seq<char>,
)
    requires
        parent_of(p) is None,
    ensures
        resolve_all(m, p) == dir_map_at(m, p),
{
}

/// What a store's map becomes when `key` is removed under `path`: a no-op
/// when the store has no row for `path`.
pub open spec fn remove_spec(
    m: Map<Seq<char>, Map<Seq<char>, Seq<char>>>,
    path: Seq<char>,
    key: Seq<char>,
) -> Map<Seq<char>, Map<Seq<char>, Seq<char>>> {
    if m.contains_key(path) {
        m.insert(path, m[path].remove(key))
    } else {
        m
    }
}

/// What a store's map becomes when `key` is set to `value` under `path`.
pub open spec fn upsert_spec(
    m: Map<Seq<char>, Map<Seq<char>, Seq<char>>>,
    path: Seq<char>,
    key: Seq<char>,
    value: Seq<char>,
) -> Map<Seq<char>, Map<Seq<char>, Seq<char>>> {
    m.insert(path, dir_map_at(m, path).insert(key, value))
}

impl Projector {
    /// Builds a projector from the text of the configuration file, or from
    /// nothing when that file is absent.
    ///
    /// The reading is best-effort: text that does not parse as a store
    /// document falls back silently to an empty store, so that a corrupted
    /// configuration file never blocks an operation. A mutating operation
    /// after such a fallback starts from the empty store, and its save
    /// drops the malformed data.
    pub fn new(config: String, pwd: String, contents: Option<String>) -> (r: Projector)
        ensures
            r.wf(),
            r.config@ == config@,
            r.pwd@ == pwd@,
            (match contents {
                None => r.data.rows().len() == 0,
                Some(s) => match json_data(s@) {
                    Some(rows) => if crate::store::rows_wf(rows) {
                        r.data.rows() == rows
                    } else {
                        r.data.rows().len() == 0
                    },
                    None => r.data.rows().len() == 0,
                },
            }),
    {
        let data = match contents {
            Some(s) => match from_json(s.as_str()) {
                Some(d) => {
                    proof {
                        crate::store::lemma_wf_rows(d);
                    }
                    d
                },
                None => default_data(),
            },
            None => default_data(),
        };
        Projector { config, pwd, data }
    }

    /// The document to persist for the held store.
    pub fn save_contents(&self) -> (r: String)
        ensures
            r@ == json_of(self.data.rows()),
    {
        to_json(&self.data)
    }

    /// The single-key lookup: the most distant ancestor of the working
    /// directory that defines `key` gives the value.
    pub fn get_value(&self, key: String) -> (r: Option<String>)
        requires
            self.wf(),
        ensures
            match r {
                Some(v) => resolve_one(self.data.as_map(), self.pwd@, key@) == Some(v@),
                None => resolve_one(self.data.as_map(), self.pwd@, key@) is None,
            },
    {
        let ghost m = self.data.as_map();
        let mut out: Option<String> = None;
        let mut current: Option<String> = Some(self.pwd.clone());
        while current.is_some()
            invariant
                self.wf(),
                m == self.data.as_map(),
                match current {
                    Some(p) => resolve_one(m, self.pwd@, key@) == (
                    if resolve_one(m, p@, key@) is Some {
                        resolve_one(m, p@, key@)
                    } else {
                        match out {
                            Some(v) => Some(v@),
                            None => None,
                        }
                    }),
                    None => resolve_one(m, self.pwd@, key@) == (match out {
                        Some(v) => Some(v@),
                        None => None,
                    }),
                },
            decreases (match current {
                Some(p) => p@.len() + 1,
                None => 0nat,
            }),
        {
            let p = current.unwrap();
            proof {
                lemma_parent_shorter(p@);
            }
            if let Some(d) = self.data.get_directory_entries(p.as_str()) {
                if let Some(v) = d.get(key.as_str()) {
                    out = Some(v.clone());
                }
            }
            current = parent(p.as_str());
        }
        out
    }

    /// Sets `key` to `value` under the working directory, creating that
    /// directory's mapping when it is absent.
    pub fn set_value(&mut self, key: String, value: String)
        requires
            old(self).wf(),
        ensures
            final(self).wf(),
            final(self).config == old(self).config,
            final(self).pwd == old(self).pwd,
            final(self).data.as_map() =~= upsert_spec(
                old(self).data.as_map(),
                old(self).pwd@,
                key@,
                value@,
            ),
    {
        let path = self.pwd.clone();
        self.data.upsert(path, key, value);
    }

    /// Removes `key` under the working directory; a silent no-op when the
    /// key, or the directory itself, is absent from the store.
    pub fn remove_value(&mut self, key: &str)
        requires
            old(self).wf(),
        ensures
            final(self).wf(),
            final(self).config == old(self).config,
            final(self).pwd == old(self).pwd,
            final(self).data.as_map() =~= remove_spec(
                old(self).data.as_map(),
                old(self).pwd@,
                key@,
            ),
    {
        let path = self.pwd.clone();
        self.data.remove(path.as_str(), key);
    }
}

/// A store in which every present directory is longer than `p` contributes
/// nothing anywhere on the chain of `p`.
proof fn lemma_resolve_all_all_longer(
    m: Map<Seq<char>, Map<Seq<char>, Seq<char>>>,
    p: Seq<char>,
)
    requires
        forall|q: Seq<char>| m.contains_key(q) ==> q.len() > p.len(),
    ensures
        resolve_all(m, p) =~= Map::<Seq<char>, Seq<char>>::empty(),
    decreases p.len(),
{
    lemma_parent_shorter(p);
    match parent_of(p) {
        Some(q) => {
            lemma_resolve_all_all_longer(m, q);
        },
        None => {},
    }
}

/// On an empty store, the merged view of any working directory is empty.
pub proof fn lemma_resolve_all_empty_store(pwd: Seq<char>)
    ensures
        resolve_all(Map::<Seq<char>, Map<Seq<char>, Seq<char>>>::empty(), pwd)
            =~= Map::<Seq<char>, Seq<char>>::empty(),
{
    lemma_resolve_all_all_longer(Map::empty(), pwd);
}

/// When only the working directory itself has entries, the merged view is
/// exactly that directory's mapping.
pub proof fn lemma_resolve_all_only_pwd(
    m: Map<Seq<char>, Map<Seq<char>, Seq<char>>>,
    pwd: Seq<char>,
)
    requires
        forall|q: Seq<char>| m.contains_key(q) ==> q == pwd,
    ensures
        resolve_all(m, pwd) =~= dir_map_at(m, pwd),
{
    lemma_parent_shorter(pwd);
    match parent_of(pwd) {
        Some(q) => {
            lemma_resolve_all_all_longer(m, q);
        },
        None => {},
    }
}

/// Override precedence of the merged view: when the working directory
/// defines `k` as `v1` and an ancestor defines `k` as `v2`, the merged
/// view holds `v1` — the directory closest to the working directory wins.
pub proof fn lemma_resolve_all_override(
    m: Map<Seq<char>, Map<Seq<char>, Seq<char>>>,
    pwd: Seq<char>,
    a: Seq<char>,
    k: Seq<char>,
    v1: Seq<char>,
    v2: Seq<char>,
)
    requires
        in_chain(pwd, a),
        a != pwd,
        dir_map_at(m, pwd).contains_key(k) && dir_map_at(m, pwd)[k] == v1,
        dir_map_at(m, a).contains_key(k) && dir_map_at(m, a)[k] == v2,
    ensures
        resolve_all(m, pwd).contains_key(k),
        resolve_all(m, pwd)[k] == v1,
{
    lemma_in_chain_len(pwd, a);
    assert(parent_of(pwd) is Some) by {
        if parent_of(pwd) is None {
            assert(pwd == a);
        }
    }
}

/// Nothing on the chain of `p` defines `k`: the single-key walk finds
/// nothing.
proof fn lemma_resolve_one_none(
    m: Map<Seq<char>, Map<Seq<char>, Seq<char>>>,
    p: Seq<char>,
    k: Seq<char>,
)
    requires
        forall|b: Seq<char>| #[trigger] in_chain(p, b) ==> !dir_map_at(m, b).contains_key(k),
    ensures
        resolve_one(m, p, k) is None,
    decreases p.len(),
{
    lemma_parent_shorter(p);
    assert(in_chain(p, p));
    match parent_of(p) {
        Some(q) => {
            assert forall|b: Seq<char>| #[trigger] in_chain(q, b)
                implies !dir_map_at(m, b).contains_key(k) by {
                assert(in_chain(p, b));
            }
            lemma_resolve_one_none(m, q, k);
        },
        None => {},
    }
}

/// When `a` lies on the chain of `p`, defines `k` as `v2`, and no strict
/// ancestor of `a` defines `k`, the single-key walk from `p` returns `v2`.
proof fn lemma_resolve_one_topmost(
    m: Map<Seq<char>, Map<Seq<char>, Seq<char>>>,
    p: Seq<char>,
    a: Seq<char>,
    k: Seq<char>,
)
    requires
        in_chain(p, a),
        dir_map_at(m, a).contains_key(k),
        forall|b: Seq<char>| #[trigger] in_chain(a, b) && b != a
            ==> !dir_map_at(m, b).contains_key(k),
    ensures
        resolve_one(m, p, k) == Some(dir_map_at(m, a)[k]),
    decreases p.len(),
{
    lemma_parent_shorter(p);
    if p == a {
        match parent_of(p) {
            Some(q) => {
                assert forall|b: Seq<char>| #[trigger] in_chain(q, b)
                    implies !dir_map_at(m, b).contains_key(k) by {
                    lemma_in_chain_len(q, b);
                    assert(in_chain(a, b));
                    assert(b != a);
                }
                lemma_resolve_one_none(m, q, k);
            },
            None => {},
        }
    } else {
        match parent_of(p) {
            Some(q) => {
                lemma_resolve_one_topmost(m, q, a, k);
            },
            None => {},
        }
    }
}

/// Asymmetric override precedence of the single-key walk: under the same
/// setup as [`lemma_resolve_all_override`], with no third chain directory
/// defining `k`, the walk returns the ancestor's value `v2` — the opposite
/// of the merged view's `v1`. Both behaviors are deliberate reproductions
/// of externally observable ones.
pub proof fn lemma_resolve_one_ancestor_wins(
    m: Map<Seq<char>, Map<Seq<char>, Seq<char>>>,
    pwd: Seq<char>,
    a: Seq<char>,
    k: Seq<char>,
    v1: Seq<char>,
    v2: Seq<char>,
)
    requires
        in_chain(pwd, a),
        a != pwd,
        dir_map_at(m, pwd).contains_key(k) && dir_map_at(m, pwd)[k] == v1,
        dir_map_at(m, a).contains_key(k) && dir_map_at(m, a)[k] == v2,
        forall|b: Seq<char>| #[trigger] in_chain(pwd, b) && b != pwd && b != a
            ==> !dir_map_at(m, b).contains_key(k),
    ensures
        resolve_one(m, pwd, k) == Some(v2),
        v1 != v2 ==> resolve_one(m, pwd, k) != Some(v1),
{
    lemma_in_chain_len(pwd, a);
    assert forall|b: Seq<char>| #[trigger] in_chain(a, b) && b != a
        implies !dir_map_at(m, b).contains_key(k) by {
        lemma_in_chain_trans(pwd, a, b);
        lemma_in_chain_len(a, b);
        assert(b != pwd);
    }
    lemma_resolve_one_topmost(m, pwd, a, k);
}

/// Removing a key twice has the same effect on the store as removing it
/// once.
pub proof fn lemma_remove_idempotent(
    m: Map<Seq<char>, Map<Seq<char>, Seq<char>>>,
    path: Seq<char>,
    key: Seq<char>,
)
    ensures
        remove_spec(remove_spec(m, path, key), path, key) =~~= remove_spec(m, path, key),
{
    if m.contains_key(path) {
        assert(m[path].remove(key).remove(key) =~= m[path].remove(key));
    }
}

} // verus!
