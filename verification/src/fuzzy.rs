//! The resolver: fuzzy-subsequence scoring with locality bonuses, and the
//! selection of the single best-matching alias from the registry.
//!
//! A query scores against an alias by the best embedding of the query as a
//! subsequence of the alias. Every matched character is worth one point,
//! a character matched right after another matched one earns a contiguity
//! bonus, and a character matched at the start of the alias, after a `_` or
//! `-` separator, or at a lower-to-upper case transition earns a boundary
//! bonus. A query that is not a subsequence of the alias is disqualified
//! (it scores below every qualifying score). Ties between equal-scoring
//! aliases are broken deterministically: the earliest-inserted wins.
use vstd::prelude::*;

use crate::config::Config;
use crate::model::Model;

verus! {

/// A word separator inside an alias.
pub open spec fn is_word_sep(c: char) -> bool {
    c == '_' || c == '-'
}

/// ASCII lower-case letter.
pub open spec fn is_lower(c: char) -> bool {
    'a' <= c && c <= 'z'
}

/// ASCII upper-case letter.
pub open spec fn is_upper(c: char) -> bool {
    'A' <= c && c <= 'Z'
}

/// A match of `c` sits on a boundary: at the start of the alias, right
/// after a separator, or at a lower-to-upper case transition.
pub open spec fn boundary(prev: Option<char>, c: char) -> bool {
    match prev {
        None => true,
        Some(p) => is_word_sep(p) || (is_lower(p) && is_upper(c)),
    }
}

/// Points earned by matching `c`: one point, plus two when the previous
/// alias character was also matched, plus three on a boundary.
pub open spec fn gain(prev: Option<char>, just: bool, c: char) -> int {
    1 + (if just {
        2int
    } else {
        0int
    }) + (if boundary(prev, c) {
        3int
    } else {
        0int
    })
}

/// The best score over all embeddings of `q` as a subsequence of `a`.
/// `prev` is the alias character before `a` (None at the very start) and
/// `just` says whether it was matched. `None` means no embedding exists.
pub open spec fn sc(q: Seq<char>, a: Seq<char>, prev: Option<char>, just: bool) -> Option<int>
    decreases a.len(),
{
    if q.len() == 0 {
        Some(0)
    } else if a.len() == 0 {
        None
    } else {
        let skip = sc(q, a.drop_first(), Some(a[0]), false);
        if q[0] == a[0] {
            let g = gain(prev, just, a[0]);
            match sc(q.drop_first(), a.drop_first(), Some(a[0]), true) {
                Some(s) => match skip {
                    Some(t) => Some(
                        if s + g >= t {
                            s + g
                        } else {
                            t
                        },
                    ),
                    None => Some(s + g),
                },
                None => skip,
            }
        } else {
            skip
        }
    }
}

/// The score of query `q` against alias `a`.
pub open spec fn score(q: Seq<char>, a: Seq<char>) -> Option<int> {
    sc(q, a, None, false)
}

/// A score folded into a total order: a disqualified candidate ranks below
/// every qualifying one.
pub open spec fn rank(q: Seq<char>, a: Seq<char>) -> int {
    match score(q, a) {
        None => -1,
        Some(s) => s,
    }
}

/// `q` occurs in `a` as a subsequence (all of `q`, in order).
pub open spec fn is_subseq(q: Seq<char>, a: Seq<char>) -> bool
    decreases a.len(),
{
    if q.len() == 0 {
        true
    } else if a.len() == 0 {
        false
    } else if q[0] == a[0] {
        is_subseq(q.drop_first(), a.drop_first()) || is_subseq(q, a.drop_first())
    } else {
        is_subseq(q, a.drop_first())
    }
}

/// Every qualifying score lies between 0 and six points per query character.
pub proof fn lemma_sc_bound(q: Seq<char>, a: Seq<char>, prev: Option<char>, just: bool)
    ensures
        sc(q, a, prev, just) matches Some(s) ==> 0 <= s <= 6 * q.len(),
    decreases a.len(),
{
    if q.len() > 0 && a.len() > 0 {
        lemma_sc_bound(q, a.drop_first(), Some(a[0]), false);
        lemma_sc_bound(q.drop_first(), a.drop_first(), Some(a[0]), true);
    }
}

/// A query qualifies (scores `Some`) exactly when it is a subsequence of
/// the alias: a non-subsequence query is disqualified.
pub proof fn lemma_sc_subseq(q: Seq<char>, a: Seq<char>, prev: Option<char>, just: bool)
    ensures
        sc(q, a, prev, just) is Some <==> is_subseq(q, a),
    decreases a.len(),
{
    if q.len() > 0 && a.len() > 0 {
        lemma_sc_subseq(q, a.drop_first(), Some(a[0]), false);
        lemma_sc_subseq(q.drop_first(), a.drop_first(), Some(a[0]), true);
    }
}

/// Index of the best-ranked alias in the model: the earliest entry whose
/// rank no later entry exceeds (strictly greater replaces).
pub open spec fn best_idx(m: Model, q: Seq<char>) -> int
    decreases m.len(),
{
    if m.len() <= 1 {
        0
    } else {
        let b = best_idx(m.drop_last(), q);
        if rank(q, m.last().0) > rank(q, m[b].0) {
            m.len() - 1
        } else {
            b
        }
    }
}

/// The resolver's result on the model: the path of the best-ranked alias,
/// or none when the registry is empty.
pub open spec fn find_match_spec(m: Model, q: Seq<char>) -> Option<Seq<char>> {
    if m.len() == 0 {
        None
    } else {
        Some(m[best_idx(m, q)].1)
    }
}

/// The chosen index is in range, carries the maximal rank, and is the
/// earliest entry of that rank.
pub proof fn lemma_best_idx(m: Model, q: Seq<char>)
    requires
        m.len() > 0,
    ensures
        0 <= best_idx(m, q) < m.len(),
        forall|j: int| 0 <= j < m.len() ==> rank(q, #[trigger] m[j].0) <= rank(q, m[best_idx(m, q)].0),
        forall|j: int| 0 <= j < best_idx(m, q) ==> rank(q, #[trigger] m[j].0) < rank(q, m[best_idx(m, q)].0),
    decreases m.len(),
{
    if m.len() > 1 {
        lemma_best_idx(m.drop_last(), q);
        let ml = m.drop_last();
        let b0 = best_idx(ml, q);
        let b = best_idx(m, q);
        assert(ml[b0] == m[b0]);
        assert(m.last() == m[m.len() - 1]);
        assert forall|j: int| 0 <= j < m.len() implies rank(q, #[trigger] m[j].0) <= rank(
            q,
            m[b].0,
        ) by {
            if j < m.len() - 1 {
                assert(ml[j] == m[j]);
                assert(rank(q, ml[j].0) <= rank(q, ml[b0].0));
            }
        }
        assert forall|j: int| 0 <= j < b implies rank(q, #[trigger] m[j].0) < rank(q, m[b].0) by {
            if j < m.len() - 1 {
                assert(ml[j] == m[j]);
                if j < b0 {
                    assert(rank(q, ml[j].0) < rank(q, ml[b0].0));
                } else {
                    assert(rank(q, ml[j].0) <= rank(q, ml[b0].0));
                }
            }
        }
    }
}

/// A query that names an existing alias exactly, when that alias is the
/// unique maximum-scoring candidate, resolves to that alias's path.
pub proof fn lemma_exact_match_resolves(m: Model, q: Seq<char>, i: int)
    requires
        0 <= i < m.len(),
        m[i].0 == q,
        forall|j: int| 0 <= j < m.len() && j != i ==> rank(q, #[trigger] m[j].0) < rank(q, m[i].0),
    ensures
        find_match_spec(m, q) == Some(m[i].1),
{
    lemma_best_idx(m, q);
    let b = best_idx(m, q);
    if b != i {
        assert(rank(q, m[b].0) < rank(q, m[i].0));
        assert(rank(q, m[i].0) <= rank(q, m[b].0));
        assert(false);
    }
}

/// Decides whether a match of `c` after `prev` sits on a boundary.
fn boundary_at(prev: Option<char>, c: char) -> (r: bool)
    ensures
        r == boundary(prev, c),
{
    match prev {
        None => true,
        Some(p) => p == '_' || p == '-' || (('a' <= p && p <= 'z') && ('A' <= c && c <= 'Z')),
    }
}

/// The best score for embedding `q` from `qi` on into `a` from `ai` on,
/// mirroring `sc` on the corresponding suffixes.
fn score_from(
    q: &str,
    a: &str,
    qlen: usize,
    alen: usize,
    qi: usize,
    ai: usize,
    prev: Option<char>,
    just: bool,
) -> (r: Option<u128>)
    requires
        qlen == q@.len(),
        alen == a@.len(),
        qi <= qlen,
        ai <= alen,
    ensures
        match r {
            None => sc(q@.skip(qi as int), a@.skip(ai as int), prev, just) is None,
            Some(v) => sc(q@.skip(qi as int), a@.skip(ai as int), prev, just) == Some(v as int),
        },
    decreases alen - ai,
{
    let ghost qs = q@.skip(qi as int);
    let ghost as_ = a@.skip(ai as int);
    if qi == qlen {
        return Some(0);
    }
    if ai == alen {
        return None;
    }
    let ac = a.get_char(ai);
    proof {
        assert(as_[0] == a@[ai as int]);
        assert(as_.drop_first() =~= a@.skip(ai as int + 1));
        assert(qs[0] == q@[qi as int]);
        assert(qs.drop_first() =~= q@.skip(qi as int + 1));
    }
    let skip = score_from(q, a, qlen, alen, qi, ai + 1, Some(ac), false);
    let qc = q.get_char(qi);
    if qc == ac {
        let matched = score_from(q, a, qlen, alen, qi + 1, ai + 1, Some(ac), true);
        let mut g: u128 = 1;
        if just {
            g += 2;
        }
        if boundary_at(prev, ac) {
            g += 3;
        }
        proof {
            assert(g as int == gain(prev, just, as_[0]));
            lemma_sc_bound(qs.drop_first(), as_.drop_first(), Some(as_[0]), true);
        }
        match matched {
            Some(s) => {
                match skip {
                    Some(t) => {
                        if s + g >= t {
                            Some(s + g)
                        } else {
                            Some(t)
                        }
                    },
                    None => Some(s + g),
                }
            },
            None => skip,
        }
    } else {
        skip
    }
}

/// The score of query `q` against alias `a` (`None`: not a subsequence).
pub fn fuzzy_score(q: &str, a: &str) -> (r: Option<u128>)
    ensures
        match r {
            None => score(q@, a@) is None,
            Some(v) => score(q@, a@) == Some(v as int),
        },
{
    let qlen = q.unicode_len();
    let alen = a.unicode_len();
    let r = score_from(q, a, qlen, alen, 0, 0, None, false);
    proof {
        assert(q@.skip(0) =~= q@);
        assert(a@.skip(0) =~= a@);
    }
    r
}

/// Rank as the exec scorer reports it.
pub open spec fn opt_rank(s: Option<u128>) -> int {
    match s {
        None => -1,
        Some(v) => v as int,
    }
}

/// Whether a candidate with score `new` beats the current best `cur`.
fn beats(new: &Option<u128>, cur: &Option<u128>) -> (r: bool)
    ensures
        r == (opt_rank(*new) > opt_rank(*cur)),
{
    match new {
        None => false,
        Some(s) => match cur {
            None => true,
            Some(t) => *s > *t,
        },
    }
}

/// Resolve `query` against the registry: the path of the best-scoring
/// alias, or none exactly when the registry is empty. Among equal-ranked
/// aliases the earliest-inserted one wins.
pub fn find_match(cfg: &Config, query: &str) -> (r: Option<String>)
    ensures
        r is Some <==> cfg.entries().len() > 0,
        r matches Some(p) ==> find_match_spec(cfg.entries(), query@) == Some(p@),
{
    let ghost m = cfg.entries();
    let mut best_i: usize = 0;
    let mut best_score: Option<u128> = None;
    let mut have: bool = false;
    let mut i: usize = 0;
    while i < cfg.projects.len()
        invariant
            m == cfg.entries(),
            m.len() == cfg.projects@.len(),
            forall|j: int|
                0 <= j < m.len() ==> m[j] == (cfg.projects@[j].0@, cfg.projects@[j].1@),
            0 <= i <= cfg.projects.len(),
            have <==> i > 0,
            have ==> best_i < i && best_i as int == best_idx(m.take(i as int), query@),
            have ==> opt_rank(best_score) == rank(query@, m[best_i as int].0),
        decreases cfg.projects.len() - i,
    {
        let s = fuzzy_score(query, cfg.projects[i].0.as_str());
        proof {
            assert(m[i as int].0 == cfg.projects@[i as int].0@);
        }
        if !have {
            best_i = 0;
            best_score = s;
            have = true;
            proof {
                assert(m.take(1).len() == 1);
                assert(best_idx(m.take(1), query@) == 0);
                assert(m.take(1)[0] == m[0]);
            }
        } else {
            let ghost t = m.take(i as int + 1);
            proof {
                assert(t.drop_last() =~= m.take(i as int));
                assert(t.last() == m[i as int]);
                assert(t[best_i as int] == m[best_i as int]);
                assert(t.len() > 1);
            }
            if beats(&s, &best_score) {
                best_i = i;
                best_score = s;
            }
            proof {
                assert(t[best_i as int] == m[best_i as int]);
            }
        }
        i += 1;
    }
    if have {
        proof {
            assert(m.take(i as int) =~= m);
        }
        Some(cfg.projects[best_i].1.clone())
    } else {
        proof {
            assert(m.len() == 0);
        }
        None
    }
}

} // verus!
