//! A keyed byte store: a registry interface whose behaviour is pinned to a
//! map from key to bytes, an in-memory registry implementing it, and the
//! save/load/delete/exists/size operations the rest of a canister uses.

use vstd::prelude::*;

verus! {

use vstd::string::StrSliceExecFns;
use crate::http::str_eq;
use crate::assoc::entry_map;
use crate::assoc::entry_names;
use crate::assoc::has_name;
use crate::assoc::index_of_name;
use crate::assoc::names_unique;
use crate::assoc::lemma_entry_map_dom;
use crate::assoc::lemma_entry_map_insert_middle;
use crate::assoc::lemma_index_of_name;
use crate::assoc::lemma_index_of_name_is;

/// A registry that stores bytes under string keys. Implement this for the
/// store backing a canister; every operation's effect is pinned to the
/// registry's map of contents.
pub trait StorageRegistry {
    /// The registry's own well-formedness; operations keep it.
    spec fn inv(&self) -> bool;

    /// The stored contents, as a map from key to bytes.
    spec fn contents(&self) -> Map<Seq<char>, Seq<u8>>;

    /// Store `value` under `key`, replacing anything already there.
    fn insert(&mut self, key: String, value: Vec<u8>)
        requires
            old(self).inv(),
        ensures
            final(self).inv(),
            final(self).contents() == old(self).contents().insert(key@, value@),
    ;

    /// The bytes stored under `key`, if any.
    fn get(&self, key: &String) -> (r: Option<Vec<u8>>)
        requires
            self.inv(),
        ensures
            r is Some <==> self.contents().dom().contains(key@),
            r matches Some(v) ==> v@ == self.contents()[key@],
    ;

    /// Drop and return the bytes stored under `key`, if any.
    fn remove(&mut self, key: &String) -> (r: Option<Vec<u8>>)
        requires
            old(self).inv(),
        ensures
            final(self).inv(),
            final(self).contents() == old(self).contents().remove(key@),
            r is Some <==> old(self).contents().dom().contains(key@),
            r matches Some(v) ==> v@ == old(self).contents()[key@],
    ;
}

/// An in-memory registry: entries in insertion order with unique keys.
pub struct MemoryRegistry {
    entries: Vec<(String, Vec<u8>)>,
}

impl MemoryRegistry {
    /// The `(key, value)` entries in insertion order.
    pub closed spec fn entries_view(self) -> Seq<(Seq<char>, Seq<u8>)> {
        self.entries@.map_values(|e: (String, Vec<u8>)| (e.0@, e.1@))
    }

    /// Well-formed: keys are unique (every public operation keeps this).
    pub open spec fn wf(self) -> bool {
        names_unique(self.entries_view())
    }

    /// An empty registry.
    pub fn new() -> (r: MemoryRegistry)
        ensures
            r.wf(),
            r.contents() == Map::<Seq<char>, Seq<u8>>::empty(),
    {
        let r = MemoryRegistry { entries: Vec::new() };
        proof {
            assert(r.entries_view() =~= Seq::<(Seq<char>, Seq<u8>)>::empty());
        }
        r
    }

    /// The position of the first entry keyed `key`, if any.
    fn find(&self, key: &str) -> (r: Option<usize>)
        ensures
            r is Some <==> has_name(self.entries_view(), key@),
            r matches Some(i) ==> i == index_of_name(self.entries_view(), key@) && i
                < self.entries_view().len(),
    {
        proof {
            lemma_index_of_name(self.entries_view(), key@);
        }
        let n = self.entries.len();
        let mut i: usize = 0;
        while i < n
            invariant
                i <= n,
                n == self.entries@.len(),
                forall|k: int| 0 <= k < i ==> self.entries_view()[k].0 != key@,
            decreases n - i,
        {
            if str_eq(self.entries[i].0.as_str(), key) {
                proof {
                    lemma_index_of_name_is(self.entries_view(), key@, i as int);
                    assert(entry_names(self.entries_view())[i as int] == key@);
                }
                return Some(i);
            }
            i += 1;
        }
        proof {
            assert forall|j: int|
                0 <= j < entry_names(self.entries_view()).len() implies entry_names(
                self.entries_view(),
            )[j] != key@ by {
                assert(self.entries_view()[j].0 != key@);
            }
            assert(!has_name(self.entries_view(), key@));
        }
        None
    }
}

impl StorageRegistry for MemoryRegistry {
    open spec fn inv(&self) -> bool {
        self.wf()
    }

    closed spec fn contents(&self) -> Map<Seq<char>, Seq<u8>> {
        entry_map(self.entries_view())
    }

    fn insert(&mut self, key: String, value: Vec<u8>) {
        let ghost old_es = self.entries_view();
        let ghost keyv = key@;
        proof {
            lemma_index_of_name(old_es, keyv);
            lemma_entry_map_dom(old_es);
        }
        let found = self.find(key.as_str());
        match found {
            Some(i) => {
                let ghost p = i as int;
                self.entries.remove(i);
                self.entries.insert(i, (key, value));
                proof {
                    let a = old_es.take(p);
                    let b = old_es.skip(p + 1);
                    assert(self.entries_view() =~= a + seq![(keyv, value@)] + b);
                    assert(old_es =~= a + seq![(keyv, old_es[p].1)] + b);
                    assert forall|j: int|
                        0 <= j < entry_names(b).len() implies entry_names(b)[j] != keyv by {
                        assert(entry_names(b)[j] == entry_names(old_es)[p + 1 + j]);
                        assert(entry_names(old_es)[p] == keyv);
                    }
                    assert(!has_name(b, keyv)) by {
                        if has_name(b, keyv) {
                            let j = choose|j: int|
                                0 <= j < entry_names(b).len() && entry_names(b)[j] == keyv;
                        }
                    }
                    lemma_entry_map_insert_middle(a, b, keyv, value@);
                    lemma_entry_map_insert_middle(a, b, keyv, old_es[p].1);
                    assert(entry_map(a + b).insert(keyv, old_es[p].1).insert(keyv, value@)
                        =~= entry_map(a + b).insert(keyv, value@));
                    assert(entry_names(self.entries_view()) =~= entry_names(old_es));
                }
            },
            None => {
                self.entries.push((key, value));
                proof {
                    let a = old_es;
                    let b = Seq::<(Seq<char>, Seq<u8>)>::empty();
                    assert(self.entries_view() =~= a + seq![(keyv, value@)] + b);
                    assert(!has_name(b, keyv)) by {
                        if has_name(b, keyv) {
                            let j = choose|j: int|
                                0 <= j < entry_names(b).len() && entry_names(b)[j] == keyv;
                        }
                    }
                    lemma_entry_map_insert_middle(a, b, keyv, value@);
                    assert(a + b =~= old_es);
                    assert forall|x: int, y: int|
                        0 <= x < y < self.entries_view().len() implies #[trigger] entry_names(
                        self.entries_view(),
                    )[x] != #[trigger] entry_names(self.entries_view())[y] by {
                        if y < old_es.len() {
                            assert(entry_names(old_es)[x] != entry_names(old_es)[y]);
                        } else {
                            assert(entry_names(self.entries_view())[y] == keyv);
                            assert(entry_names(self.entries_view())[x] == entry_names(old_es)[x]);
                            if entry_names(old_es)[x] == keyv {
                                assert(has_name(old_es, keyv));
                            }
                        }
                    }
                }
            },
        }
    }

    fn get(&self, key: &String) -> (r: Option<Vec<u8>>) {
        proof {
            lemma_entry_map_dom(self.entries_view());
            lemma_index_of_name(self.entries_view(), key@);
        }
        let found = self.find(key.as_str());
        match found {
            Some(i) => {
                let v = vstd::slice::slice_to_vec(self.entries[i].1.as_slice());
                proof {
                    assert(v@ == self.entries_view()[i as int].1);
                    assert forall|j: int|
                        (i as int) < j < self.entries_view().len() implies self.entries_view()[j].0
                        != self.entries_view()[i as int].0 by {
                        assert(entry_names(self.entries_view())[i as int] != entry_names(
                            self.entries_view(),
                        )[j]);
                    }
                    lemma_entry_map_at(self.entries_view(), i as int);
                }
                Some(v)
            },
            None => None,
        }
    }

    fn remove(&mut self, key: &String) -> (r: Option<Vec<u8>>) {
        let ghost old_es = self.entries_view();
        let ghost keyv = key@;
        proof {
            lemma_entry_map_dom(old_es);
            lemma_index_of_name(old_es, keyv);
        }
        let found = self.find(key.as_str());
        match found {
            Some(i) => {
                let ghost p = i as int;
                let entry = self.entries.remove(i);
                proof {
                    let a = old_es.take(p);
                    let b = old_es.skip(p + 1);
                    assert(old_es =~= a + seq![(keyv, old_es[p].1)] + b);
                    assert(self.entries_view() =~= a + b);
                    assert forall|j: int|
                        0 <= j < entry_names(b).len() implies entry_names(b)[j] != keyv by {
                        assert(entry_names(b)[j] == entry_names(old_es)[p + 1 + j]);
                        assert(entry_names(old_es)[p] == keyv);
                    }
                    assert(!has_name(b, keyv)) by {
                        if has_name(b, keyv) {
                            let j = choose|j: int|
                                0 <= j < entry_names(b).len() && entry_names(b)[j] == keyv;
                        }
                    }
                    lemma_entry_map_insert_middle(a, b, keyv, old_es[p].1);
                    lemma_entry_map_dom(a + b);
                    assert forall|j: int|
                        0 <= j < entry_names(a + b).len() implies entry_names(a + b)[j]
                        != keyv by {
                        if j < p {
                            assert(entry_names(a + b)[j] == entry_names(old_es)[j]);
                            assert(entry_names(old_es)[p] == keyv);
                        } else {
                            assert(entry_names(a + b)[j] == entry_names(old_es)[j + 1]);
                            assert(entry_names(old_es)[p] == keyv);
                        }
                    }
                    assert(!has_name(a + b, keyv)) by {
                        if has_name(a + b, keyv) {
                            let j = choose|j: int|
                                0 <= j < entry_names(a + b).len() && entry_names(a + b)[j] == keyv;
                        }
                    }
                    assert(!entry_map(a + b).dom().contains(keyv));
                    assert(entry_map(a + b) =~= entry_map(a + b).insert(keyv, old_es[p].1).remove(
                        keyv,
                    ));
                    assert(entry.1@ == old_es[p].1);
                    assert forall|j: int| p < j < old_es.len() implies old_es[j].0
                        != old_es[p].0 by {
                        assert(entry_names(old_es)[p] != entry_names(old_es)[j]);
                    }
                    lemma_entry_map_at(old_es, p);
                    assert forall|x: int, y: int|
                        0 <= x < y < self.entries_view().len() implies #[trigger] entry_names(
                        self.entries_view(),
                    )[x] != #[trigger] entry_names(self.entries_view())[y] by {
                        let ox: int = if x < p {
                            x
                        } else {
                            x + 1
                        };
                        let oy: int = if y < p {
                            y
                        } else {
                            y + 1
                        };
                        assert(entry_names(self.entries_view())[x] == entry_names(old_es)[ox]);
                        assert(entry_names(self.entries_view())[y] == entry_names(old_es)[oy]);
                        assert(entry_names(old_es)[ox] != entry_names(old_es)[oy]);
                    }
                }
                Some(entry.1)
            },
            None => {
                proof {
                    assert(entry_map(old_es) =~= entry_map(old_es).remove(keyv));
                }
                None
            },
        }
    }
}

/// With unique keys, the denoted map holds each entry's value at its key.
proof fn lemma_entry_map_at(es: Seq<(Seq<char>, Seq<u8>)>, i: int)
    requires
        0 <= i < es.len(),
        forall|j: int| i < j < es.len() ==> es[j].0 != es[i].0,
    ensures
        entry_map(es).dom().contains(es[i].0),
        entry_map(es)[es[i].0] == es[i].1,
    decreases es.len(),
{
    if i < es.len() - 1 {
        let es0 = es.drop_last();
        assert(forall|j: int| 0 <= j < es0.len() ==> es0[j] == es[j]);
        lemma_entry_map_at(es0, i);
        assert(es.last().0 != es[i].0);
    }
}

/// Store `bytes` under `key`, replacing anything already there.
pub fn save_bytes<R: StorageRegistry>(registry: &mut R, key: &str, bytes: Vec<u8>)
    requires
        old(registry).inv(),
    ensures
        final(registry).inv(),
        final(registry).contents() == old(registry).contents().insert(key@, bytes@),
{
    registry.insert(key.to_owned(), bytes);
}

/// The bytes stored under `key`, if any.
pub fn load_bytes<R: StorageRegistry>(registry: &R, key: &str) -> (r: Option<Vec<u8>>)
    requires
        registry.inv(),
    ensures
        r is Some <==> registry.contents().dom().contains(key@),
        r matches Some(v) ==> v@ == registry.contents()[key@],
{
    registry.get(&key.to_owned())
}

/// Drop whatever is stored under `key`, reporting whether something was.
pub fn delete<R: StorageRegistry>(registry: &mut R, key: &str) -> (removed: bool)
    requires
        old(registry).inv(),
    ensures
        final(registry).inv(),
        removed == old(registry).contents().dom().contains(key@),
        final(registry).contents() == old(registry).contents().remove(key@),
{
    registry.remove(&key.to_owned()).is_some()
}

/// Whether something is stored under `key`.
pub fn exists_key<R: StorageRegistry>(registry: &R, key: &str) -> (r: bool)
    requires
        registry.inv(),
    ensures
        r == registry.contents().dom().contains(key@),
{
    registry.get(&key.to_owned()).is_some()
}

/// The size in bytes of what is stored under `key`, if anything is.
pub fn size<R: StorageRegistry>(registry: &R, key: &str) -> (r: Option<usize>)
    requires
        registry.inv(),
    ensures
        r is Some <==> registry.contents().dom().contains(key@),
        r matches Some(n) ==> n == registry.contents()[key@].len(),
{
    match registry.get(&key.to_owned()) {
        Some(bytes) => Some(bytes.len()),
        None => None,
    }
}

} // verus!
