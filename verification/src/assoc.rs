//! Shared model of string-keyed association sequences: the key list, first
//! occurrence of a key, and the denoted map, with the lemmas that connect
//! them. Both the model registry and the byte store are specified with
//! these.

use vstd::prelude::*;

verus! {

/// The keys of a sequence of `(key, value)` entries, in order.
pub open spec fn entry_names<T>(es: Seq<(Seq<char>, T)>) -> Seq<Seq<char>> {
    es.map_values(|e: (Seq<char>, T)| e.0)
}

/// No key occurs twice.
pub open spec fn names_unique<T>(es: Seq<(Seq<char>, T)>) -> bool {
    forall|i: int, j: int|
        0 <= i < j < es.len() ==> #[trigger] entry_names(es)[i] != #[trigger] entry_names(es)[j]
}

/// The position of the first entry keyed `name`; the length when there is
/// none.
pub open spec fn index_of_name<T>(es: Seq<(Seq<char>, T)>, name: Seq<char>) -> int
    decreases es.len(),
{
    if es.len() == 0 {
        0
    } else if es[0].0 == name {
        0
    } else {
        1 + index_of_name(es.drop_first(), name)
    }
}

/// Whether some entry is keyed `name`.
pub open spec fn has_name<T>(es: Seq<(Seq<char>, T)>, name: Seq<char>) -> bool {
    entry_names(es).contains(name)
}

/// The value of the first entry keyed `name`.
pub open spec fn value_of<T>(es: Seq<(Seq<char>, T)>, name: Seq<char>) -> T {
    es[index_of_name(es, name)].1
}

/// The map an entry sequence denotes; a later entry for a key overrides an
/// earlier one (irrelevant once keys are unique).
pub open spec fn entry_map<T>(es: Seq<(Seq<char>, T)>) -> Map<Seq<char>, T>
    decreases es.len(),
{
    if es.len() == 0 {
        Map::empty()
    } else {
        entry_map(es.drop_last()).insert(es.last().0, es.last().1)
    }
}

/// What `index_of_name` points at.
pub(crate) proof fn lemma_index_of_name<T>(es: Seq<(Seq<char>, T)>, name: Seq<char>)
    ensures
        0 <= index_of_name(es, name) <= es.len(),
        index_of_name(es, name) < es.len() ==> es[index_of_name(es, name)].0 == name,
        (index_of_name(es, name) < es.len()) <==> has_name(es, name),
        forall|j: int| 0 <= j < index_of_name(es, name) ==> es[j].0 != name,
    decreases es.len(),
{
    if es.len() > 0 && es[0].0 != name {
        let t = es.drop_first();
        lemma_index_of_name(t, name);
        assert(forall|j: int| 0 <= j < t.len() ==> t[j] == es[j + 1]);
        if has_name(t, name) {
            let j = choose|j: int| 0 <= j < entry_names(t).len() && entry_names(t)[j] == name;
            assert(entry_names(es)[j + 1] == name);
            assert(has_name(es, name));
        }
        if has_name(es, name) {
            let j = choose|j: int| 0 <= j < entry_names(es).len() && entry_names(es)[j] == name;
            assert(j > 0);
            assert(entry_names(t)[j - 1] == name);
            assert(has_name(t, name));
        }
        assert forall|j: int| 0 <= j < index_of_name(es, name) implies es[j].0 != name by {
            if j > 0 {
                assert(t[j - 1] == es[j]);
                assert(t[j - 1].0 != name);
            }
        }
    } else if es.len() > 0 {
        assert(entry_names(es)[0] == name);
    } else {
        if has_name(es, name) {
            let j = choose|j: int| 0 <= j < entry_names(es).len() && entry_names(es)[j] == name;
        }
    }
}

/// A first match at `j` pins `index_of_name` to `j`.
pub(crate) proof fn lemma_index_of_name_is<T>(es: Seq<(Seq<char>, T)>, name: Seq<char>, j: int)
    requires
        0 <= j < es.len(),
        es[j].0 == name,
        forall|k: int| 0 <= k < j ==> es[k].0 != name,
    ensures
        index_of_name(es, name) == j,
    decreases es.len(),
{
    if j > 0 {
        let t = es.drop_first();
        assert(forall|k: int| 0 <= k < t.len() ==> t[k] == es[k + 1]);
        lemma_index_of_name_is(t, name, j - 1);
    }
}

/// A key is in the denoted map exactly when some entry carries it.
pub(crate) proof fn lemma_entry_map_dom<T>(es: Seq<(Seq<char>, T)>)
    ensures
        forall|k: Seq<char>| #![auto] entry_map(es).dom().contains(k) <==> has_name(es, k),
    decreases es.len(),
{
    if es.len() > 0 {
        let es0 = es.drop_last();
        lemma_entry_map_dom(es0);
        assert forall|k: Seq<char>| #![auto] entry_map(es).dom().contains(k) implies has_name(
            es,
            k,
        ) by {
            if k == es.last().0 {
                assert(entry_names(es)[es.len() - 1] == k);
            } else {
                assert(entry_map(es0).dom().contains(k));
                assert(has_name(es0, k));
                let i = choose|i: int| 0 <= i < entry_names(es0).len() && entry_names(es0)[i] == k;
                assert(entry_names(es)[i] == k);
            }
        }
        assert forall|k: Seq<char>| #![auto] has_name(es, k) implies entry_map(es).dom().contains(
            k,
        ) by {
            let i = choose|i: int| 0 <= i < entry_names(es).len() && entry_names(es)[i] == k;
            if i < es.len() - 1 {
                assert(entry_names(es0)[i] == k);
                assert(has_name(es0, k));
                assert(entry_map(es0).dom().contains(k));
            } else {
                assert(k == es.last().0);
            }
        }
    }
}

/// Placing a fresh `(k, v)` entry between `a` and `b` denotes the map of
/// `a + b` updated at `k`, as long as no entry of `b` overrides `k`.
pub(crate) proof fn lemma_entry_map_insert_middle<T>(
    a: Seq<(Seq<char>, T)>,
    b: Seq<(Seq<char>, T)>,
    k: Seq<char>,
    v: T,
)
    requires
        !has_name(b, k),
    ensures
        entry_map(a + seq![(k, v)] + b) == entry_map(a + b).insert(k, v),
    decreases b.len(),
{
    if b.len() == 0 {
        let whole = a + seq![(k, v)] + b;
        assert(whole.drop_last() =~= a);
        assert(whole.last() == (k, v));
        assert(a + b =~= a);
    } else {
        let t = b.last();
        let b0 = b.drop_last();
        assert(entry_names(b)[b.len() - 1] == t.0);
        assert(forall|i: int| 0 <= i < b0.len() ==> entry_names(b0)[i] == entry_names(b)[i]);
        assert forall|i: int| 0 <= i < b0.len() implies entry_names(b0)[i] != k by {
            if entry_names(b0)[i] == k {
                assert(entry_names(b)[i] == k);
                assert(has_name(b, k));
            }
        }
        assert(!has_name(b0, k)) by {
            if has_name(b0, k) {
                let i = choose|i: int|
                    0 <= i < entry_names(b0).len() && entry_names(b0)[i] == k;
            }
        }
        lemma_entry_map_insert_middle(a, b0, k, v);
        let whole = a + seq![(k, v)] + b;
        assert(whole.drop_last() =~= a + seq![(k, v)] + b0);
        assert(whole.last() == t);
        let shorter = a + b;
        assert(shorter.drop_last() =~= a + b0);
        assert(shorter.last() == t);
        assert(t.0 != k);
        assert(entry_map(a + b0).insert(k, v).insert(t.0, t.1) =~= entry_map(a + b0).insert(
            t.0,
            t.1,
        ).insert(k, v));
    }
}

} // verus!
