//! Mathematical model of the alias registry: a sequence of
//! `(alias, path)` pairs with pairwise-distinct aliases, together with
//! the insert/remove operations and how lookups behave under them.
use vstd::prelude::*;

verus! {

/// The model of a registry: entries in insertion order, as character sequences.
pub type Model = Seq<(Seq<char>, Seq<char>)>;

/// All aliases in the model are pairwise distinct.
pub open spec fn m_wf(m: Model) -> bool {
    forall|i: int, j: int| 0 <= i < j < m.len() ==> m[i].0 != m[j].0
}

/// The path bound to alias `k`, or `None` when `k` is absent.
pub open spec fn m_val(m: Model, k: Seq<char>) -> Option<Seq<char>>
    decreases m.len(),
{
    if m.len() == 0 {
        None
    } else if m[0].0 == k {
        Some(m[0].1)
    } else {
        m_val(m.drop_first(), k)
    }
}

/// Whether alias `k` is bound in the model.
pub open spec fn m_has(m: Model, k: Seq<char>) -> bool {
    m_val(m, k) is Some
}

/// Insert `(k, v)`: replaces the value in place when `k` is present,
/// appends at the end otherwise (last write wins, order preserved).
pub open spec fn m_insert(m: Model, k: Seq<char>, v: Seq<char>) -> Model
    decreases m.len(),
{
    if m.len() == 0 {
        seq![(k, v)]
    } else if m[0].0 == k {
        seq![(k, v)] + m.drop_first()
    } else {
        seq![m[0]] + m_insert(m.drop_first(), k, v)
    }
}

/// Remove the first entry bound to `k`, if any.
pub open spec fn m_remove(m: Model, k: Seq<char>) -> Model
    decreases m.len(),
{
    if m.len() == 0 {
        m
    } else if m[0].0 == k {
        m.drop_first()
    } else {
        seq![m[0]] + m_remove(m.drop_first(), k)
    }
}

/// `m_has` is equivalent to an index witness.
pub proof fn lemma_has_index(m: Model, k: Seq<char>)
    ensures
        m_has(m, k) <==> exists|i: int| 0 <= i < m.len() && m[i].0 == k,
    decreases m.len(),
{
    if m.len() > 0 {
        lemma_has_index(m.drop_first(), k);
        if m[0].0 != k {
            if m_has(m, k) {
                let i = choose|i: int|
                    0 <= i < m.drop_first().len() && m.drop_first()[i].0 == k;
                assert(m[i + 1].0 == k);
            }
            if exists|i: int| 0 <= i < m.len() && m[i].0 == k {
                let i = choose|i: int| 0 <= i < m.len() && m[i].0 == k;
                assert(m.drop_first()[i - 1].0 == k);
            }
        }
    }
}

/// How lookups read through an insert: the inserted alias maps to the new
/// value and every other alias is untouched.
pub proof fn lemma_insert_val(m: Model, k: Seq<char>, v: Seq<char>, k2: Seq<char>)
    ensures
        m_val(m_insert(m, k, v), k2) == if k2 == k {
            Some(v)
        } else {
            m_val(m, k2)
        },
    decreases m.len(),
{
    if m.len() > 0 && m[0].0 != k {
        lemma_insert_val(m.drop_first(), k, v, k2);
        let r = seq![m[0]] + m_insert(m.drop_first(), k, v);
        assert(m_insert(m, k, v) == r);
        assert(r[0] == m[0]);
        assert(r.len() > 0);
        assert(r.drop_first() == m_insert(m.drop_first(), k, v));
        if r[0].0 == k2 {
            assert(m_val(r, k2) == Some(r[0].1));
            assert(m_val(m, k2) == Some(m[0].1));
        } else {
            assert(m_val(r, k2) == m_val(r.drop_first(), k2));
            assert(m_val(m, k2) == m_val(m.drop_first(), k2));
        }
    } else if m.len() > 0 && m[0].0 == k {
        let r = seq![(k, v)] + m.drop_first();
        assert(m_insert(m, k, v) == r);
        assert(r[0] == (k, v));
        assert(r.drop_first() == m.drop_first());
        if k2 == k {
            assert(m_val(r, k2) == Some(v));
        } else {
            assert(m_val(r, k2) == m_val(r.drop_first(), k2));
            assert(m_val(m, k2) == m_val(m.drop_first(), k2));
        }
    } else {
        let r = seq![(k, v)];
        assert(m_insert(m, k, v) == r);
        assert(r[0] == (k, v));
        assert(r.drop_first() == Seq::<(Seq<char>, Seq<char>)>::empty());
        if k2 == k {
            assert(m_val(r, k2) == Some(v));
        } else {
            assert(m_val(r, k2) == m_val(r.drop_first(), k2));
            assert(m_val(r.drop_first(), k2) == None::<Seq<char>>);
        }
    }
}

/// How lookups read through a remove, on a well-formed model: the removed
/// alias is gone and every other alias is untouched.
pub proof fn lemma_remove_val(m: Model, k: Seq<char>, k2: Seq<char>)
    requires
        m_wf(m),
    ensures
        m_val(m_remove(m, k), k2) == if k2 == k {
            None::<Seq<char>>
        } else {
            m_val(m, k2)
        },
    decreases m.len(),
{
    if m.len() > 0 {
        assert(m_wf(m.drop_first())) by {
            assert(forall|i: int, j: int|
                0 <= i < j < m.drop_first().len() ==> #[trigger] m.drop_first()[i].0
                    != #[trigger] m.drop_first()[j].0) by {
                assert(forall|i: int|
                    0 <= i < m.drop_first().len() ==> #[trigger] m.drop_first()[i] == m[i + 1]);
            }
        }
        if m[0].0 == k {
            if k2 == k {
                lemma_has_index(m.drop_first(), k);
                assert(forall|i: int|
                    0 <= i < m.drop_first().len() ==> #[trigger] m.drop_first()[i] == m[i + 1]);
                assert(!m_has(m.drop_first(), k));
            }
        } else {
            lemma_remove_val(m.drop_first(), k, k2);
            let r = seq![m[0]] + m_remove(m.drop_first(), k);
            assert(r.drop_first() == m_remove(m.drop_first(), k));
        }
    }
}

/// Insert keeps the model well formed.
pub proof fn lemma_insert_wf(m: Model, k: Seq<char>, v: Seq<char>)
    requires
        m_wf(m),
    ensures
        m_wf(m_insert(m, k, v)),
        m_insert(m, k, v).len() == if m_has(m, k) {
            m.len()
        } else {
            m.len() + 1
        },
    decreases m.len(),
{
    if m.len() > 0 {
        assert(forall|i: int|
            0 <= i < m.drop_first().len() ==> #[trigger] m.drop_first()[i] == m[i + 1]);
        lemma_insert_wf(m.drop_first(), k, v);
        if m[0].0 == k {
            let r = seq![(k, v)] + m.drop_first();
            lemma_has_index(m.drop_first(), k);
        } else {
            let r = seq![m[0]] + m_insert(m.drop_first(), k, v);
            lemma_insert_keys(m.drop_first(), k, v);
        }
    }
}

/// Every alias of an inserted model is the inserted alias or one of the old ones.
pub proof fn lemma_insert_keys(m: Model, k: Seq<char>, v: Seq<char>)
    ensures
        forall|i: int|
            0 <= i < m_insert(m, k, v).len() ==> #[trigger] m_insert(m, k, v)[i].0 == k
                || exists|j: int| 0 <= j < m.len() && m[j].0 == m_insert(m, k, v)[i].0,
    decreases m.len(),
{
    if m.len() > 0 && m[0].0 != k {
        lemma_insert_keys(m.drop_first(), k, v);
        let r = seq![m[0]] + m_insert(m.drop_first(), k, v);
        assert forall|i: int|
            0 <= i < r.len() implies #[trigger] r[i].0 == k || exists|j: int|
            0 <= j < m.len() && m[j].0 == r[i].0 by {
            if i == 0 {
                assert(m[0].0 == r[0].0);
            } else {
                let ri = m_insert(m.drop_first(), k, v)[i - 1];
                assert(r[i] == ri);
                if ri.0 != k {
                    let j = choose|j: int|
                        0 <= j < m.drop_first().len() && m.drop_first()[j].0 == ri.0;
                    assert(m[j + 1].0 == ri.0);
                }
            }
        }
    }
}

/// Remove keeps the model well formed.
pub proof fn lemma_remove_wf(m: Model, k: Seq<char>)
    requires
        m_wf(m),
    ensures
        m_wf(m_remove(m, k)),
    decreases m.len(),
{
    if m.len() > 0 {
        assert(forall|i: int|
            0 <= i < m.drop_first().len() ==> #[trigger] m.drop_first()[i] == m[i + 1]);
        lemma_remove_wf(m.drop_first(), k);
        if m[0].0 != k {
            let r = seq![m[0]] + m_remove(m.drop_first(), k);
            lemma_remove_keys(m.drop_first(), k);
        }
    }
}

/// Every alias of a removed model was an alias of the old one.
pub proof fn lemma_remove_keys(m: Model, k: Seq<char>)
    ensures
        forall|i: int|
            0 <= i < m_remove(m, k).len() ==> exists|j: int|
                0 <= j < m.len() && m[j].0 == #[trigger] m_remove(m, k)[i].0,
    decreases m.len(),
{
    if m.len() > 0 {
        if m[0].0 == k {
            assert forall|i: int| 0 <= i < m_remove(m, k).len() implies exists|j: int|
                0 <= j < m.len() && m[j].0 == #[trigger] m_remove(m, k)[i].0 by {
                assert(m_remove(m, k)[i] == m[i + 1]);
            }
        } else {
            lemma_remove_keys(m.drop_first(), k);
            let r = seq![m[0]] + m_remove(m.drop_first(), k);
            assert forall|i: int| 0 <= i < r.len() implies exists|j: int|
                0 <= j < m.len() && m[j].0 == #[trigger] r[i].0 by {
                if i == 0 {
                    assert(m[0].0 == r[0].0);
                } else {
                    let ri = m_remove(m.drop_first(), k)[i - 1];
                    assert(r[i] == ri);
                    let j = choose|j: int|
                        0 <= j < m.drop_first().len() && m.drop_first()[j].0 == ri.0;
                    assert(m[j + 1].0 == ri.0);
                }
            }
        }
    }
}

/// When `k` first occurs at index `i`, inserting `(k, v)` updates that slot.
pub proof fn lemma_insert_found(m: Model, k: Seq<char>, v: Seq<char>, i: int)
    requires
        0 <= i < m.len(),
        m[i].0 == k,
        forall|j: int| 0 <= j < i ==> m[j].0 != k,
    ensures
        m_insert(m, k, v) == m.update(i, (k, v)),
    decreases i,
{
    if i == 0 {
        assert(m_insert(m, k, v) == seq![(k, v)] + m.drop_first());
        assert(m_insert(m, k, v) =~= m.update(0, (k, v)));
    } else {
        assert(forall|j: int|
            0 <= j < m.drop_first().len() ==> #[trigger] m.drop_first()[j] == m[j + 1]);
        lemma_insert_found(m.drop_first(), k, v, i - 1);
        assert(m_insert(m, k, v) == seq![m[0]] + m_insert(m.drop_first(), k, v));
        assert(m_insert(m, k, v) =~= m.update(i, (k, v)));
    }
}

/// When `k` is absent, inserting `(k, v)` appends it.
pub proof fn lemma_insert_absent(m: Model, k: Seq<char>, v: Seq<char>)
    requires
        forall|j: int| 0 <= j < m.len() ==> m[j].0 != k,
    ensures
        m_insert(m, k, v) == m.push((k, v)),
    decreases m.len(),
{
    if m.len() == 0 {
        assert(m_insert(m, k, v) =~= m.push((k, v)));
    } else {
        assert(forall|j: int|
            0 <= j < m.drop_first().len() ==> #[trigger] m.drop_first()[j] == m[j + 1]);
        lemma_insert_absent(m.drop_first(), k, v);
        assert(m_insert(m, k, v) == seq![m[0]] + m_insert(m.drop_first(), k, v));
        assert(m_insert(m, k, v) =~= m.push((k, v)));
    }
}

/// When `k` first occurs at index `i`, removing `k` deletes that slot.
pub proof fn lemma_remove_found(m: Model, k: Seq<char>, i: int)
    requires
        0 <= i < m.len(),
        m[i].0 == k,
        forall|j: int| 0 <= j < i ==> m[j].0 != k,
    ensures
        m_remove(m, k) == m.remove(i),
        m_val(m, k) == Some(m[i].1),
    decreases i,
{
    if i == 0 {
        assert(m_remove(m, k) == m.drop_first());
        assert(m_remove(m, k) =~= m.remove(0));
    } else {
        assert(forall|j: int|
            0 <= j < m.drop_first().len() ==> #[trigger] m.drop_first()[j] == m[j + 1]);
        lemma_remove_found(m.drop_first(), k, i - 1);
        assert(m_remove(m, k) == seq![m[0]] + m_remove(m.drop_first(), k));
        assert(m_remove(m, k) =~= m.remove(i));
    }
}

/// When `k` is absent, removing `k` changes nothing.
pub proof fn lemma_remove_absent(m: Model, k: Seq<char>)
    requires
        forall|j: int| 0 <= j < m.len() ==> m[j].0 != k,
    ensures
        m_remove(m, k) == m,
        m_val(m, k) == None::<Seq<char>>,
    decreases m.len(),
{
    if m.len() > 0 {
        assert(forall|j: int|
            0 <= j < m.drop_first().len() ==> #[trigger] m.drop_first()[j] == m[j + 1]);
        lemma_remove_absent(m.drop_first(), k);
        assert(m_remove(m, k) == seq![m[0]] + m_remove(m.drop_first(), k));
        assert(m_remove(m, k) =~= m);
    }
}

/// Renaming `old_k` to `new_k` moves the bound path: afterwards `new_k` is
/// bound to the old path of `old_k`, `old_k` is gone (when distinct from
/// `new_k`), a pre-existing binding of `new_k` is overwritten, and every
/// other alias keeps its binding.
pub proof fn lemma_rename_semantics(m: Model, old_k: Seq<char>, new_k: Seq<char>)
    requires
        m_wf(m),
        m_has(m, old_k),
    ensures
        ({
            let r = m_insert(m_remove(m, old_k), new_k, m_val(m, old_k)->Some_0);
            &&& m_val(r, new_k) == m_val(m, old_k)
            &&& old_k != new_k ==> !m_has(r, old_k)
            &&& forall|k: Seq<char>|
                k != old_k && k != new_k ==> m_val(r, k) == m_val(m, k)
        }),
{
    let v = m_val(m, old_k)->Some_0;
    let r = m_insert(m_remove(m, old_k), new_k, v);
    lemma_insert_val(m_remove(m, old_k), new_k, v, new_k);
    if old_k != new_k {
        lemma_insert_val(m_remove(m, old_k), new_k, v, old_k);
        lemma_remove_val(m, old_k, old_k);
    }
    assert forall|k: Seq<char>| k != old_k && k != new_k implies m_val(r, k) == m_val(m, k) by {
        lemma_insert_val(m_remove(m, old_k), new_k, v, k);
        lemma_remove_val(m, old_k, k);
    }
}

} // verus!
