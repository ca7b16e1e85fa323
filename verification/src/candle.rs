//! Model infrastructure: a trait for models loadable from raw bytes, their
//! metadata, and a registry that holds several named models and tracks which
//! one is active.

use vstd::prelude::*;

verus! {

use vstd::string::StrSliceExecFns;
use vstd::string::StringExecFns;
use crate::http::str_eq;
use crate::http::string_views;
use crate::assoc::entry_names;
use crate::assoc::names_unique;
use crate::assoc::index_of_name;
use crate::assoc::has_name;
use crate::assoc::value_of;
use crate::assoc::lemma_index_of_name;
use crate::assoc::lemma_index_of_name_is;

/// A model that can be loaded from raw weight bytes (with optional
/// configuration bytes), report its metadata, and reset its internal state.
/// What loading accepts and what the metadata says is each model's own
/// affair; nothing here constrains it.
pub trait CandleModel: Sized {
    fn load(weights: Vec<u8>, config: Option<Vec<u8>>) -> Result<Self, String>;

    fn metadata(&self) -> ModelMetadata;

    fn reset(&mut self);
}

/// Descriptive facts about a loaded model.
#[derive(Debug, Clone)]
pub struct ModelMetadata {
    pub name: String,
    pub version: String,
    pub architecture: String,
    pub parameters: u64,
    pub context_length: Option<usize>,
}

/// A mutable borrow of a pair's second component: afterwards the pair holds
/// its old first component beside whatever the caller left behind the
/// borrow.
fn pair_value_mut<A, B>(pair: &mut (A, B)) -> (ret: &mut B)
    ensures
        *ret == old(pair).1,
        *final(pair) == (old(pair).0, *final(ret)),
{
    &mut pair.1
}

/// Several models registered under names, at most one of them active. The
/// entries are kept in registration order with unique names.
pub struct ModelManager<T> {
    models: Vec<(String, T)>,
    active_model: Option<String>,
}

impl<T> ModelManager<T> {
    /// The `(name, model)` entries, in registration order.
    pub closed spec fn entries(self) -> Seq<(Seq<char>, T)> {
        self.models@.map_values(|e: (String, T)| (e.0@, e.1))
    }

    /// The name of the active model, if one is set.
    pub closed spec fn spec_active(self) -> Option<Seq<char>> {
        match self.active_model {
            Option::None => None,
            Option::Some(s) => Some(s@),
        }
    }

    /// Well-formed: entry names are unique.
    pub open spec fn wf(self) -> bool {
        names_unique(self.entries())
    }

    /// An empty registry with no active model.
    pub fn new() -> (r: Self)
        ensures
            r.wf(),
            r.entries() == Seq::<(Seq<char>, T)>::empty(),
            r.spec_active() is None,
    {
        let r = ModelManager { models: Vec::new(), active_model: None };
        proof {
            assert(r.entries() =~= Seq::<(Seq<char>, T)>::empty());
        }
        r
    }

    /// The position of the first entry named `name`, if any.
    fn find(&self, name: &str) -> (r: Option<usize>)
        ensures
            r is Some <==> has_name(self.entries(), name@),
            r matches Some(i) ==> i == index_of_name(self.entries(), name@) && i
                < self.entries().len(),
    {
        proof {
            lemma_index_of_name(self.entries(), name@);
        }
        let n = self.models.len();
        let mut i: usize = 0;
        while i < n
            invariant
                i <= n,
                n == self.models@.len(),
                forall|k: int| 0 <= k < i ==> self.entries()[k].0 != name@,
            decreases n - i,
        {
            if str_eq(self.models[i].0.as_str(), name) {
                proof {
                    lemma_index_of_name_is(self.entries(), name@, i as int);
                    assert(entry_names(self.entries())[i as int] == name@);
                }
                return Some(i);
            }
            i += 1;
        }
        proof {
            assert forall|j: int|
                0 <= j < entry_names(self.entries()).len() implies entry_names(self.entries())[j]
                != name@ by {
                assert(self.entries()[j].0 != name@);
            }
            assert(!has_name(self.entries(), name@));
        }
        None
    }

    /// Register `model` under `name`, replacing any model already there;
    /// the first registration becomes active.
    pub fn register(&mut self, name: String, model: T)
        requires
            old(self).wf(),
        ensures
            final(self).wf(),
            has_name(old(self).entries(), name@) ==> final(self).entries() == old(
                self,
            ).entries().update(index_of_name(old(self).entries(), name@), (name@, model)),
            !has_name(old(self).entries(), name@) ==> final(self).entries()
                == old(self).entries().push((name@, model)),
            final(self).spec_active() == if old(self).spec_active() is None {
                Some(name@)
            } else {
                old(self).spec_active()
            },
    {
        let ghost old_es = self.entries();
        let ghost namev = name@;
        let found = self.find(name.as_str());
        let name_for_active = if self.active_model.is_none() {
            Some(name.clone())
        } else {
            None
        };
        match found {
            Some(i) => {
                proof {
                    lemma_index_of_name(old_es, namev);
                }
                self.models.remove(i);
                self.models.insert(i, (name, model));
                proof {
                    assert(self.entries() =~= old_es.update(i as int, (namev, model)));
                    assert(old_es[i as int].0 == namev);
                    assert(entry_names(self.entries()) =~= entry_names(old_es));
                }
            },
            None => {
                self.models.push((name, model));
                proof {
                    assert(self.entries() =~= old_es.push((namev, model)));
                    assert forall|j: int|
                        0 <= j < old_es.len() implies entry_names(old_es)[j] != namev by {
                        if entry_names(old_es)[j] == namev {
                            assert(has_name(old_es, namev));
                        }
                    }
                    assert forall|x: int, y: int|
                        0 <= x < y < self.entries().len() implies #[trigger] entry_names(
                        self.entries(),
                    )[x] != #[trigger] entry_names(self.entries())[y] by {
                        if y < old_es.len() {
                            assert(entry_names(old_es)[x] != entry_names(old_es)[y]);
                        } else {
                            assert(entry_names(self.entries())[y] == namev);
                            assert(entry_names(self.entries())[x] == entry_names(old_es)[x]);
                        }
                    }
                }
            },
        }
        match name_for_active {
            Some(nm) => {
                self.active_model = Some(nm);
            },
            None => {},
        }
    }

    /// Make the model registered under `name` active; fails without change
    /// when no such model exists.
    pub fn set_active(&mut self, name: &str) -> (r: Result<(), String>)
        ensures
            r is Ok <==> has_name(old(self).entries(), name@),
            final(self).entries() == old(self).entries(),
            r is Ok ==> final(self).spec_active() == Some(name@),
            r matches Err(m) ==> *final(self) == *old(self) && m@ == "Model '"@ + name@
                + "' not found"@,
    {
        let found = self.find(name);
        match found {
            Some(_) => {
                self.active_model = Some(name.to_owned());
                Ok(())
            },
            None => {
                let mut msg = String::new();
                msg.append("Model '");
                msg.append(name);
                msg.append("' not found");
                Err(msg)
            },
        }
    }

    /// The active model, if one is set and still registered.
    pub fn active(&self) -> (r: Option<&T>)
        ensures
            ({
                match self.spec_active() {
                    Option::None => r is None,
                    Option::Some(n) => {
                        if has_name(self.entries(), n) {
                            r matches Some(v) && *v == value_of(self.entries(), n)
                        } else {
                            r is None
                        }
                    },
                }
            }),
    {
        match &self.active_model {
            None => None,
            Some(nm) => {
                let found = self.find(nm.as_str());
                match found {
                    Some(i) => Some(&self.models[i].1),
                    None => None,
                }
            },
        }
    }

    /// The model registered under `name`, if any.
    pub fn get(&self, name: &str) -> (r: Option<&T>)
        ensures
            r is Some <==> has_name(self.entries(), name@),
            r matches Some(v) ==> *v == value_of(self.entries(), name@),
    {
        let found = self.find(name);
        match found {
            Some(i) => Some(&self.models[i].1),
            None => None,
        }
    }

    /// The model registered under `name`, for mutation in place: the entry
    /// keeps its name and position, only its model changes to whatever the
    /// caller leaves behind the returned reference.
    pub fn get_mut(&mut self, name: &str) -> (r: Option<&mut T>)
        ensures
            r is Some <==> has_name(old(self).entries(), name@),
            r matches Some(v) ==> *v == value_of(old(self).entries(), name@)
                && final(self).entries() =~= old(self).entries().update(
                index_of_name(old(self).entries(), name@),
                (name@, *final(v)),
            ) && final(self).spec_active() == old(self).spec_active(),
            r is None ==> *final(self) == *old(self),
    {
        let found = self.find(name);
        match found {
            Some(i) => {
                proof {
                    lemma_index_of_name(self.entries(), name@);
                }
                let entry = &mut self.models[i];
                let v = pair_value_mut(entry);
                Some(v)
            },
            None => None,
        }
    }

    /// The active model, for mutation in place, when one is set and still
    /// registered; as with `get_mut`, only that entry's model changes.
    pub fn active_mut(&mut self) -> (r: Option<&mut T>)
        ensures
            ({
                match old(self).spec_active() {
                    Option::None => r is None && *final(self) == *old(self),
                    Option::Some(n) => {
                        if has_name(old(self).entries(), n) {
                            r matches Some(v) && *v == value_of(old(self).entries(), n)
                                && final(self).entries() =~= old(self).entries().update(
                                index_of_name(old(self).entries(), n),
                                (n, *final(v)),
                            ) && final(self).spec_active() == old(self).spec_active()
                        } else {
                            r is None && *final(self) == *old(self)
                        }
                    },
                }
            }),
    {
        let name = match &self.active_model {
            None => {
                return None;
            },
            Some(s) => s.clone(),
        };
        self.get_mut(name.as_str())
    }

    /// The registered names, in registration order.
    pub fn list(&self) -> (names: Vec<String>)
        ensures
            string_views(names@) == entry_names(self.entries()),
    {
        let n = self.models.len();
        let mut names: Vec<String> = Vec::new();
        let mut i: usize = 0;
        while i < n
            invariant
                i <= n,
                n == self.models@.len(),
                string_views(names@) =~= entry_names(self.entries()).take(i as int),
            decreases n - i,
        {
            let nm = self.models[i].0.clone();
            proof {
                assert(string_views(names@.push(nm)) =~= string_views(
                    names@,
                ).push(nm@));
                assert(string_views(names@).push(entry_names(self.entries())[i as int])
                    =~= entry_names(self.entries()).take(i + 1));
            }
            names.push(nm);
            i += 1;
        }
        proof {
            assert(entry_names(self.entries()).take(n as int) =~= entry_names(self.entries()));
        }
        names
    }

    /// Unregister and return the model under `name`; clears the active mark
    /// when it pointed there. Removing an absent name does nothing.
    pub fn remove(&mut self, name: &str) -> (r: Option<T>)
        requires
            old(self).wf(),
        ensures
            final(self).wf(),
            r is Some <==> has_name(old(self).entries(), name@),
            r matches Some(v) ==> v == value_of(old(self).entries(), name@)
                && final(self).entries() == old(self).entries().remove(
                index_of_name(old(self).entries(), name@),
            ),
            r is None ==> final(self).entries() == old(self).entries(),
            final(self).spec_active() == if old(self).spec_active() == Some(name@) {
                Option::<Seq<char>>::None
            } else {
                old(self).spec_active()
            },
    {
        let ghost old_es = self.entries();
        let found = self.find(name);
        let r = match found {
            Some(i) => {
                let entry = self.models.remove(i);
                proof {
                    assert(self.entries() =~= old_es.remove(i as int));
                    assert forall|x: int, y: int|
                        0 <= x < y < self.entries().len() implies #[trigger] entry_names(
                        self.entries(),
                    )[x] != #[trigger] entry_names(self.entries())[y] by {
                        let ox: int = if x < i as int {
                            x
                        } else {
                            x + 1
                        };
                        let oy: int = if y < i as int {
                            y
                        } else {
                            y + 1
                        };
                        assert(entry_names(self.entries())[x] == entry_names(old_es)[ox]);
                        assert(entry_names(self.entries())[y] == entry_names(old_es)[oy]);
                        assert(entry_names(old_es)[ox] != entry_names(old_es)[oy]);
                    }
                }
                Some(entry.1)
            },
            None => None,
        };
        let clear_active = match &self.active_model {
            Some(a) => str_eq(a.as_str(), name),
            None => false,
        };
        if clear_active {
            self.active_model = None;
        }
        r
    }

    /// The active model's name, if one is set.
    pub fn active_name(&self) -> (r: Option<&str>)
        ensures
            r is Some <==> self.spec_active() is Some,
            r matches Some(n) ==> self.spec_active() == Some(n@),
    {
        match &self.active_model {
            Some(n) => Some(n.as_str()),
            None => None,
        }
    }
}


impl<T> Default for ModelManager<T> {
    /// An empty registry with no active model.
    fn default() -> (r: Self)
        ensures
            r.wf(),
            r.entries() == Seq::<(Seq<char>, T)>::empty(),
            r.spec_active() is None,
    {
        Self::new()
    }
}

} // verus!
