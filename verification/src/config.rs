//! The alias store: a registry of `alias -> path` bindings with unique
//! aliases, plus derivation of a default alias from a directory path.
use vstd::prelude::*;

use crate::model::{
    lemma_insert_absent, lemma_insert_found, lemma_insert_val, lemma_insert_wf,
    lemma_remove_absent, lemma_remove_found, lemma_remove_wf, m_has, m_insert,
    m_remove, m_val, m_wf, Model,
};

verus! {

/// The in-memory registry: `(alias, path)` pairs in insertion order.
/// Aliases are unique; paths are arbitrary strings, stored as given.
pub struct Config {
    pub projects: Vec<(String, String)>,
}

/// The entries of a vector of `(alias, path)` pairs, as a model.
pub open spec fn vec_model(v: Seq<(String, String)>) -> Model {
    v.map_values(|p: (String, String)| (p.0@, p.1@))
}

impl Config {
    /// The registry as a mathematical model: its entries as character
    /// sequences, in order.
    pub open spec fn entries(&self) -> Model {
        vec_model(self.projects@)
    }

    /// Well-formed: aliases are pairwise distinct.
    pub open spec fn wf(&self) -> bool {
        m_wf(self.entries())
    }

    /// An empty registry.
    pub fn new() -> (r: Config)
        ensures
            r.wf(),
            r.entries() == Seq::<(Seq<char>, Seq<char>)>::empty(),
    {
        let r = Config { projects: Vec::new() };
        proof {
            assert(r.entries() =~= Seq::<(Seq<char>, Seq<char>)>::empty());
        }
        r
    }

    /// Bind `alias` to `path`. An existing binding of `alias` is replaced in
    /// place; a new alias is appended. Last write wins, no conflict error.
    pub fn insert(&mut self, alias: String, path: String)
        requires
            old(self).wf(),
        ensures
            final(self).wf(),
            final(self).entries() == m_insert(old(self).entries(), alias@, path@),
            m_val(final(self).entries(), alias@) == Some(path@),
    {
        let ghost m = old(self).entries();
        let mut i: usize = 0;
        while i < self.projects.len()
            invariant
                *self == *old(self),
                m == old(self).entries(),
                m_wf(m),
                m.len() == self.projects@.len(),
                forall|j: int|
                    0 <= j < m.len() ==> m[j] == (
                        self.projects@[j].0@,
                        self.projects@[j].1@,
                    ),
                0 <= i <= self.projects.len(),
                forall|j: int| 0 <= j < i ==> m[j].0 != alias@,
            decreases self.projects.len() - i,
        {
            if self.projects[i].0 == alias {
                proof {
                    assert(m[i as int].0 == alias@);
                }
                self.projects.remove(i);
                self.projects.insert(i, (alias, path));
                proof {
                    lemma_insert_found(m, alias@, path@, i as int);
                    assert(self.entries() =~~= m.update(i as int, (alias@, path@)));
                    lemma_insert_wf(m, alias@, path@);
                    lemma_insert_val(m, alias@, path@, alias@);
                }
                return;
            }
            i += 1;
        }
        self.projects.push((alias, path));
        proof {
            lemma_insert_absent(m, alias@, path@);
            assert(self.entries() =~~= m.push((alias@, path@)));
            lemma_insert_wf(m, alias@, path@);
            lemma_insert_val(m, alias@, path@, alias@);
        }
    }

    /// Drop the binding of `alias`. Returns whether it existed; an absent
    /// alias leaves the registry unchanged.
    pub fn remove(&mut self, alias: &String) -> (r: bool)
        requires
            old(self).wf(),
        ensures
            final(self).wf(),
            r == m_has(old(self).entries(), alias@),
            final(self).entries() == m_remove(old(self).entries(), alias@),
            !r ==> final(self).entries() == old(self).entries(),
    {
        let ghost m = old(self).entries();
        let mut i: usize = 0;
        while i < self.projects.len()
            invariant
                *self == *old(self),
                m == old(self).entries(),
                m_wf(m),
                m.len() == self.projects@.len(),
                forall|j: int|
                    0 <= j < m.len() ==> m[j] == (
                        self.projects@[j].0@,
                        self.projects@[j].1@,
                    ),
                0 <= i <= self.projects.len(),
                forall|j: int| 0 <= j < i ==> m[j].0 != alias@,
            decreases self.projects.len() - i,
        {
            if self.projects[i].0 == *alias {
                proof {
                    assert(m[i as int].0 == alias@);
                }
                self.projects.remove(i);
                proof {
                    lemma_remove_found(m, alias@, i as int);
                    assert(self.entries() =~~= m.remove(i as int));
                    lemma_remove_wf(m, alias@);
                }
                return true;
            }
            i += 1;
        }
        proof {
            lemma_remove_absent(m, alias@);
            assert(self.entries() =~~= m);
        }
        false
    }

    /// Move the path bound to `old_alias` over to `new_alias`, dropping
    /// `old_alias`. Returns false and changes nothing when `old_alias` is
    /// absent; a pre-existing binding of `new_alias` is silently overwritten.
    pub fn rename(&mut self, old_alias: &String, new_alias: String) -> (r: bool)
        requires
            old(self).wf(),
        ensures
            final(self).wf(),
            r == m_has(old(self).entries(), old_alias@),
            !r ==> final(self).entries() == old(self).entries(),
            r ==> final(self).entries() == m_insert(
                m_remove(old(self).entries(), old_alias@),
                new_alias@,
                m_val(old(self).entries(), old_alias@)->Some_0,
            ),
    {
        let ghost m = old(self).entries();
        let mut i: usize = 0;
        while i < self.projects.len()
            invariant
                *self == *old(self),
                m == old(self).entries(),
                m_wf(m),
                m.len() == self.projects@.len(),
                forall|j: int|
                    0 <= j < m.len() ==> m[j] == (
                        self.projects@[j].0@,
                        self.projects@[j].1@,
                    ),
                0 <= i <= self.projects.len(),
                forall|j: int| 0 <= j < i ==> m[j].0 != old_alias@,
            decreases self.projects.len() - i,
        {
            if self.projects[i].0 == *old_alias {
                proof {
                    assert(m[i as int].0 == old_alias@);
                }
                let pair = self.projects.remove(i);
                proof {
                    lemma_remove_found(m, old_alias@, i as int);
                    assert(self.entries() =~~= m.remove(i as int));
                    assert(self.entries() == m_remove(m, old_alias@));
                    lemma_remove_wf(m, old_alias@);
                    assert(pair.1@ == m_val(m, old_alias@)->Some_0);
                }
                self.insert(new_alias, pair.1);
                return true;
            }
            i += 1;
        }
        proof {
            lemma_remove_absent(m, old_alias@);
        }
        false
    }
}

/// A path separator: forward slash or backslash.
pub open spec fn is_sep(c: char) -> bool {
    c == '/' || c == '\\'
}

/// The part of `s` after its last path separator (empty when `s` is empty
/// or ends with a separator).
pub open spec fn last_segment(s: Seq<char>) -> Seq<char>
    decreases s.len(),
{
    if s.len() == 0 {
        Seq::empty()
    } else if is_sep(s.last()) {
        Seq::empty()
    } else {
        last_segment(s.drop_last()).push(s.last())
    }
}

/// Every character that is not an ASCII letter or digit becomes `_`.
pub open spec fn sanitize(s: Seq<char>) -> Seq<char> {
    s.map_values(|c: char| if crate::is_ascii_alnum(c) { c } else { '_' })
}

/// The default alias for a directory: its last path segment, sanitized;
/// the literal `unknown` when that segment is empty.
pub open spec fn derived_alias(dir: Seq<char>) -> Seq<char> {
    if last_segment(dir).len() == 0 {
        "unknown"@
    } else {
        sanitize(last_segment(dir))
    }
}

/// When `s` has no separator at or after `start`, and `start` is 0 or
/// preceded by a separator, the last segment is exactly `s` from `start` on.
proof fn lemma_last_segment_from(s: Seq<char>, start: int)
    requires
        0 <= start <= s.len(),
        forall|j: int| start <= j < s.len() ==> !is_sep(#[trigger] s[j]),
        start > 0 ==> is_sep(s[start - 1]),
    ensures
        last_segment(s) == s.skip(start),
    decreases s.len(),
{
    if s.len() == start {
        if start == 0 {
            assert(last_segment(s) =~= s.skip(start));
        } else {
            assert(is_sep(s.last()));
            assert(last_segment(s) =~= s.skip(start));
        }
    } else {
        assert(!is_sep(s.last()));
        lemma_last_segment_from(s.drop_last(), start);
        assert(last_segment(s) == last_segment(s.drop_last()).push(s.last()));
        assert(last_segment(s) =~= s.skip(start));
    }
}

/// Compute the default alias for the directory path `dir`: the last path
/// segment with every non-alphanumeric character replaced by `_`, or
/// `unknown` when the segment is empty.
pub fn derive_alias(dir: &str) -> (r: String)
    ensures
        r@ == derived_alias(dir@),
{
    let len = dir.unicode_len();
    let mut start: usize = 0;
    let mut i: usize = 0;
    while i < len
        invariant
            len == dir@.len(),
            0 <= start <= i <= len,
            forall|j: int| start <= j < i ==> !is_sep(#[trigger] dir@[j]),
            start > 0 ==> is_sep(dir@[start as int - 1]),
        decreases len - i,
    {
        let c = dir.get_char(i);
        if c == '/' || c == '\\' {
            start = i + 1;
        }
        i += 1;
    }
    proof {
        lemma_last_segment_from(dir@, start as int);
    }
    if start == len {
        let r = String::from_str("unknown");
        proof {
            assert(last_segment(dir@) =~= Seq::<char>::empty());
        }
        r
    } else {
        let mut out = String::new();
        let mut j: usize = start;
        while j < len
            invariant
                len == dir@.len(),
                start <= j <= len,
                out@.len() == j - start,
                forall|p: int|
                    0 <= p < out@.len() ==> out@[p] == (if crate::is_ascii_alnum(
                        dir@[start + p],
                    ) {
                        dir@[start + p]
                    } else {
                        '_'
                    }),
            decreases len - j,
        {
            let c = dir.get_char(j);
            if crate::ascii_alnum(c) {
                crate::push_char(&mut out, c);
            } else {
                crate::push_char(&mut out, '_');
            }
            j += 1;
        }
        proof {
            assert(out@ =~= sanitize(dir@.skip(start as int)));
            assert(last_segment(dir@).len() > 0);
        }
        out
    }
}

} // verus!
