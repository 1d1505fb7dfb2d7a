//! Parent computation on directory path strings.
//!
//! A path's parent is the path with its last `/`-separated component
//! removed: the parent of `/a/b` is `/a`, the parent of `/a` is `/`, and
//! the root `/` (as well as the empty path) has no parent. A path without
//! any separator has the empty path as its parent. Paths are treated as
//! plain strings: no normalization or canonicalization is performed.

use vstd::prelude::*;

verus! {

/// Index of the last `/` in `p`, or `-1` if `p` contains none.
pub open spec fn last_slash(p: Seq<char>) -> int
    decreases p.len(),
{
    if p.len() == 0 {
        -1
    } else if p[p.len() - 1] == '/' {
        p.len() - 1
    } else {
        last_slash(p.drop_last())
    }
}

pub proof fn lemma_last_slash(p: Seq<char>)
    ensures
        -1 <= last_slash(p) < p.len(),
        last_slash(p) >= 0 ==> p[last_slash(p)] == '/',
        forall|j: int| last_slash(p) < j < p.len() ==> p[j] != '/',
    decreases p.len(),
{
    if p.len() == 0 {
    } else if p[p.len() - 1] == '/' {
    } else {
        lemma_last_slash(p.drop_last());
        assert forall|j: int| last_slash(p) < j < p.len() implies p[j] != '/' by {
            if j < p.len() - 1 {
                assert(p.drop_last()[j] == p[j]);
            }
        }
    }
}

/// The parent directory of `p`, or `None` for the root `/` and for the
/// empty path.
pub open spec fn parent_of(p: Seq<char>) -> Option<Seq<char>> {
    if p.len() == 0 || (p.len() == 1 && p[0] == '/') {
        None
    } else {
        let i = last_slash(p);
        if i <= 0 {
            if i == 0 {
                Some(seq!['/'])
            } else {
                Some(Seq::empty())
            }
        } else {
            Some(p.subrange(0, i))
        }
    }
}

/// A path's parent is strictly shorter than the path itself.
pub proof fn lemma_parent_shorter(p: Seq<char>)
    ensures
        parent_of(p) matches Some(q) ==> q.len() < p.len(),
{
    lemma_last_slash(p);
    if !(p.len() == 0 || (p.len() == 1 && p[0] == '/')) {
        let i = last_slash(p);
        if i == 0 && p.len() == 1 {
            assert(p[0] == '/');
        }
    }
}

/// Whether `a` lies on the ancestor chain of `p`; the chain starts at `p`
/// itself, so `in_chain(p, p)` holds.
pub open spec fn in_chain(p: Seq<char>, a: Seq<char>) -> bool
    decreases p.len(),
    via in_chain_decreases
{
    p == a || match parent_of(p) {
        Some(q) => in_chain(q, a),
        None => false,
    }
}

#[via_fn]
proof fn in_chain_decreases(p: Seq<char>, a: Seq<char>) {
    lemma_parent_shorter(p);
}

/// Everything on the ancestor chain of `p` is at most as long as `p`, and
/// everything but `p` itself is strictly shorter.
pub proof fn lemma_in_chain_len(p: Seq<char>, a: Seq<char>)
    requires
        in_chain(p, a),
    ensures
        a.len() <= p.len(),
        a != p ==> a.len() < p.len(),
    decreases p.len(),
{
    lemma_parent_shorter(p);
    if p != a {
        match parent_of(p) {
            Some(q) => lemma_in_chain_len(q, a),
            None => {},
        }
    }
}

/// The ancestor chain is transitive.
pub proof fn lemma_in_chain_trans(p: Seq<char>, a: Seq<char>, b: Seq<char>)
    requires
        in_chain(p, a),
        in_chain(a, b),
    ensures
        in_chain(p, b),
    decreases p.len(),
{
    lemma_parent_shorter(p);
    if p != a {
        match parent_of(p) {
            Some(q) => lemma_in_chain_trans(q, a, b),
            None => {},
        }
    }
}

/// Computes `parent_of` on a path string.
pub fn parent(p: &str) -> (r: Option<String>)
    ensures
        match r {
            Some(q) => parent_of(p@) == Some(q@),
            None => parent_of(p@) is None,
        },
{
    let n = p.unicode_len();
    if n == 0 {
        return None;
    }
    if n == 1 && p.get_char(0) == '/' {
        return None;
    }
    let mut j = n;
    let mut found: bool = false;
    let mut idx: usize = 0;
    while j > 0 && !found
        invariant
            0 <= j <= n,
            n == p@.len(),
            !found ==> forall|k: int| j <= k < n ==> p@[k] != '/',
            found ==> j < n && p@[j as int] == '/' && idx == j
                && forall|k: int| j < k < n ==> p@[k] != '/',
        decreases j,
    {
        if p.get_char(j - 1) == '/' {
            found = true;
            idx = j - 1;
            j = j - 1;
        } else {
            j = j - 1;
        }
    }
    proof {
        lemma_last_slash(p@);
        if found {
            assert(last_slash(p@) == idx as int);
        } else {
            assert(last_slash(p@) == -1);
        }
    }
    if !found {
        let e = String::new();
        return Some(e);
    }
    if idx == 0 {
        let root = "/";
        proof {
            reveal_strlit("/");
        }
        let r = root.to_owned();
        assert(r@ =~= seq!['/']);
        return Some(r);
    }
    let q = p.substring_char(0, idx);
    Some(q.to_owned())
}

} // verus!
