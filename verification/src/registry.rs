//! The registry: one descriptor bound per interface key.

use vstd::prelude::*;

use crate::descriptor::{contains_key, desc_model, descriptor_of, find_key, keys_distinct,
    lemma_find_key, reg_model, Descriptor, EntryM};
use crate::RegistryError;

verus! {

/// A mapping from interface keys to descriptors, in registration order.
/// No key is bound twice: a second registration is refused, and only an
/// explicit override applied at build time may replace a binding.
pub struct Registry {
    entries: Vec<(String, Descriptor)>,
}

impl View for Registry {
    type V = Seq<EntryM>;

    closed spec fn view(&self) -> Seq<EntryM> {
        reg_model(self.entries@)
    }
}

impl Registry {
    /// Every key bound at most once.
    pub open spec fn wf(&self) -> bool {
        keys_distinct(self@)
    }

    /// An empty registry.
    pub fn new() -> (r: Registry)
        ensures
            r.wf(),
            r@ =~~= Seq::<EntryM>::empty(),
    {
        Registry { entries: Vec::new() }
    }

    /// Consumes the registry and hands its bindings out, in registration
    /// order.
    pub fn into_entries(self) -> (r: Vec<(String, Descriptor)>)
        ensures
            reg_model(r@) == self@,
    {
        self.entries
    }

    /// Binds `descriptor` to `key`. Fails with `DuplicateBinding` if `key`
    /// is already bound, leaving the registry unchanged.
    #[verifier::loop_isolation(false)]
    pub fn register(&mut self, key: String, descriptor: Descriptor) -> (r: Result<
        (),
        RegistryError,
    >)
        requires
            old(self).wf(),
        ensures
            final(self).wf(),
            match r {
                Ok(()) => !contains_key(old(self)@, key@) && final(self)@ =~~= old(self)@.push(
                    (key@, desc_model(descriptor)),
                ),
                Err(e) => {
                    &&& contains_key(old(self)@, key@)
                    &&& final(self)@ == old(self)@
                    &&& e matches RegistryError::DuplicateBinding(k) && k@ == key@
                },
            },
    {
        proof {
            lemma_find_key(self@, key@);
        }
        let n = self.entries.len();
        let mut i: usize = 0;
        while i < n
            invariant
                forall|t: int| 0 <= t < i ==> self@[t].0 != key@,
            decreases n - i,
        {
            if self.entries[i].0 == key {
                proof {
                    assert(self@[i as int].0 == key@);
                }
                return Err(RegistryError::DuplicateBinding(key));
            }
            i += 1;
        }
        self.entries.push((key, descriptor));
        proof {
            assert(self@ =~~= old(self)@.push((key@, desc_model(descriptor))));
            assert forall|a: int, b: int|
                0 <= a < b < self@.len() implies self@[a].0 != self@[b].0 by {
                assert(self@[a] == old(self)@[a]);
                if b < self@.len() - 1 {
                    assert(self@[b] == old(self)@[b]);
                    assert(old(self)@[a].0 != old(self)@[b].0);
                } else {
                    assert(self@[b].0 == key@);
                }
            }
        }
        Ok(())
    }

    /// Looks the binding of `key` up. Fails with `UnknownInterface` if
    /// `key` is not bound.
    #[verifier::loop_isolation(false)]
    pub fn lookup(&self, key: &String) -> (r: Result<&Descriptor, RegistryError>)
        ensures
            match r {
                Ok(d) => contains_key(self@, key@) && desc_model(*d) == descriptor_of(
                    self@,
                    key@,
                ),
                Err(e) => {
                    &&& !contains_key(self@, key@)
                    &&& e matches RegistryError::UnknownInterface(k) && k@ == key@
                },
            },
    {
        proof {
            lemma_find_key(self@, key@);
        }
        let n = self.entries.len();
        let mut i: usize = 0;
        while i < n
            invariant
                forall|t: int| 0 <= t < i ==> self@[t].0 != key@,
            decreases n - i,
        {
            if self.entries[i].0 == *key {
                proof {
                    assert(self@[i as int].0 == key@);
                    assert(find_key(self@, key@) == i as int);
                    assert(desc_model(self.entries@[i as int].1) == self@[i as int].1);
                }
                return Ok(&self.entries[i].1);
            }
            i += 1;
        }
        Err(RegistryError::UnknownInterface(key.clone()))
    }
}

} // verus!
