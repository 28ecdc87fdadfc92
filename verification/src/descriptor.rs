//! Descriptors: the registered construction recipes, the instances they
//! produce, and the mathematical model of a registry's dependency graph.

use vstd::prelude::*;

verus! {

/// Lifecycle of a bound implementation: a `Singleton` is constructed once
/// during the build and shared; a `Transient` is constructed anew on every
/// resolution and never cached.
#[derive(Clone, Copy, PartialEq, Eq, Structural)]
pub enum Lifecycle {
    Singleton,
    Transient,
}

/// A named constructor parameter. `value` holds the default supplied at
/// registration, if any; a parameter override replaces it. A parameter whose
/// value is still `None` when the container is built fails the build.
pub struct Param {
    pub name: String,
    pub value: Option<String>,
}

/// The recipe bound to an interface key: which implementation to construct,
/// with which lifecycle, from which dependencies and parameters.
///
/// The construction function itself is opaque user code; the container
/// models it by its outcome: with `failure` at `None` it assembles an
/// [`Instance`] from the resolved dependencies and the parameter values, and
/// with `failure` at `Some(cause)` it fails with that cause.
pub struct Descriptor {
    pub impl_name: String,
    pub lifecycle: Lifecycle,
    pub deps: Vec<String>,
    pub params: Vec<Param>,
    pub failure: Option<String>,
}

/// How a constructed instance holds one of its dependencies.
pub enum DepRef {
    /// A shared reference to the singleton instance with this id.
    Shared(u64),
    /// An owned instance freshly constructed by a transient provider.
    Owned(Box<Instance>),
    /// A handle to a transient binding, to be resolved when first needed:
    /// a singleton never invokes a provider while the build is running.
    Deferred(String),
}

/// A constructed instance. `id` is its identity: the container never hands
/// out two different instances with the same id, and a singleton keeps its
/// id for the container's lifetime.
pub struct Instance {
    pub id: u64,
    pub key: String,
    pub impl_name: String,
    pub params: Vec<(String, String)>,
    pub deps: Vec<DepRef>,
}

impl Descriptor {
    /// A singleton recipe with no dependencies and no parameters.
    pub fn singleton(impl_name: String) -> (r: Descriptor)
        ensures
            desc_model(r) =~~= (DescModel {
                impl_name: impl_name@,
                lifecycle: Lifecycle::Singleton,
                deps: Seq::empty(),
                params: Seq::empty(),
                failure: None,
            }),
    {
        Descriptor {
            impl_name,
            lifecycle: Lifecycle::Singleton,
            deps: Vec::new(),
            params: Vec::new(),
            failure: None,
        }
    }

    /// A transient recipe with no dependencies and no parameters.
    pub fn transient(impl_name: String) -> (r: Descriptor)
        ensures
            desc_model(r) =~~= (DescModel {
                impl_name: impl_name@,
                lifecycle: Lifecycle::Transient,
                deps: Seq::empty(),
                params: Seq::empty(),
                failure: None,
            }),
    {
        Descriptor {
            impl_name,
            lifecycle: Lifecycle::Transient,
            deps: Vec::new(),
            params: Vec::new(),
            failure: None,
        }
    }
}

/// One registry binding: an interface key and the descriptor bound to it.
pub type Entry = (String, Descriptor);

/// The model of a parameter: its name and optional value, as character
/// sequences.
#[verifier::ext_equal]
pub ghost struct ParamModel {
    pub name: Seq<char>,
    pub value: Option<Seq<char>>,
}

/// The model of a descriptor: what the recipe says, with every string as a
/// character sequence.
#[verifier::ext_equal]
pub ghost struct DescModel {
    pub impl_name: Seq<char>,
    pub lifecycle: Lifecycle,
    pub deps: Seq<Seq<char>>,
    pub params: Seq<ParamModel>,
    pub failure: Option<Seq<char>>,
}

/// The model of one registry binding.
pub type EntryM = (Seq<char>, DescModel);

pub open spec fn param_model(p: Param) -> ParamModel {
    ParamModel {
        name: p.name@,
        value: match p.value {
            Option::Some(v) => Option::Some(v@),
            Option::None => Option::None,
        },
    }
}

pub open spec fn desc_model(d: Descriptor) -> DescModel {
    DescModel {
        impl_name: d.impl_name@,
        lifecycle: d.lifecycle,
        deps: Seq::new(d.deps@.len(), |i: int| d.deps@[i]@),
        params: Seq::new(d.params@.len(), |i: int| param_model(d.params@[i])),
        failure: match d.failure {
            Option::Some(c) => Option::Some(c@),
            Option::None => Option::None,
        },
    }
}

/// The model of a whole registry state: each binding as key and descriptor
/// model, in registration order.
pub open spec fn reg_model(es: Seq<Entry>) -> Seq<EntryM> {
    Seq::new(es.len(), |i: int| (es[i].0@, desc_model(es[i].1)))
}

/// The position of the first entry bound to `key`, or -1 if none is.
pub open spec fn find_key(ms: Seq<EntryM>, key: Seq<char>) -> int
    decreases ms.len(),
{
    if ms.len() == 0 {
        -1
    } else if ms[0].0 == key {
        0
    } else {
        let r = find_key(ms.drop_first(), key);
        if r < 0 {
            -1
        } else {
            r + 1
        }
    }
}

/// Whether some entry is bound to `key`.
pub open spec fn contains_key(ms: Seq<EntryM>, key: Seq<char>) -> bool {
    find_key(ms, key) >= 0
}

/// The descriptor bound to `key` (the first one, where several are bound).
pub open spec fn descriptor_of(ms: Seq<EntryM>, key: Seq<char>) -> DescModel {
    ms[find_key(ms, key)].1
}

pub proof fn lemma_find_key(ms: Seq<EntryM>, key: Seq<char>)
    ensures
        find_key(ms, key) == -1 || (0 <= find_key(ms, key) < ms.len()),
        find_key(ms, key) >= 0 ==> ms[find_key(ms, key)].0 == key,
        forall|i: int| 0 <= i < ms.len() && ms[i].0 == key ==> find_key(ms, key) >= 0,
        forall|i: int| 0 <= i < find_key(ms, key) ==> ms[i].0 != key,
    decreases ms.len(),
{
    if ms.len() > 0 && ms[0].0 != key {
        lemma_find_key(ms.drop_first(), key);
        assert forall|i: int| 0 <= i < ms.len() && ms[i].0 == key implies find_key(ms, key)
            >= 0 by {
            if i > 0 {
                assert(ms.drop_first()[i - 1] == ms[i]);
            }
        }
        assert forall|i: int| 0 <= i < find_key(ms, key) implies ms[i].0 != key by {
            if i > 0 {
                assert(ms.drop_first()[i - 1] == ms[i]);
            }
        }
    }
}

/// The position of the first parameter named `name`, or -1 if none is.
pub open spec fn find_param(ps: Seq<ParamModel>, name: Seq<char>) -> int
    decreases ps.len(),
{
    if ps.len() == 0 {
        -1
    } else if ps[0].name == name {
        0
    } else {
        let r = find_param(ps.drop_first(), name);
        if r < 0 {
            -1
        } else {
            r + 1
        }
    }
}

pub proof fn lemma_find_param(ps: Seq<ParamModel>, name: Seq<char>)
    ensures
        find_param(ps, name) == -1 || (0 <= find_param(ps, name) < ps.len()),
        find_param(ps, name) >= 0 ==> ps[find_param(ps, name)].name == name,
        forall|i: int| 0 <= i < ps.len() && ps[i].name == name ==> find_param(ps, name) >= 0,
        forall|i: int| 0 <= i < find_param(ps, name) ==> ps[i].name != name,
    decreases ps.len(),
{
    if ps.len() > 0 && ps[0].name != name {
        lemma_find_param(ps.drop_first(), name);
        assert forall|i: int| 0 <= i < ps.len() && ps[i].name == name implies find_param(
            ps,
            name,
        ) >= 0 by {
            if i > 0 {
                assert(ps.drop_first()[i - 1] == ps[i]);
            }
        }
        assert forall|i: int| 0 <= i < find_param(ps, name) implies ps[i].name != name by {
            if i > 0 {
                assert(ps.drop_first()[i - 1] == ps[i]);
            }
        }
    }
}

/// No two entries are bound to the same key.
pub open spec fn keys_distinct(ms: Seq<EntryM>) -> bool {
    forall|i: int, j: int| 0 <= i < j < ms.len() ==> ms[i].0 != ms[j].0
}

/// There is an edge from `a` to `b`: `a` is bound and its descriptor
/// declares a dependency on `b`.
pub open spec fn dep_edge(ms: Seq<EntryM>, a: Seq<char>, b: Seq<char>) -> bool {
    contains_key(ms, a) && exists|j: int|
        0 <= j < descriptor_of(ms, a).deps.len() && descriptor_of(ms, a).deps[j] == b
}

/// Every dependency key declared by every descriptor is itself bound.
pub open spec fn deps_complete(ms: Seq<EntryM>) -> bool {
    forall|i: int, j: int|
        0 <= i < ms.len() && 0 <= j < ms[i].1.deps.len() ==> contains_key(
            ms,
            #[trigger] ms[i].1.deps[j],
        )
}

/// Every parameter of every descriptor has a value.
pub open spec fn params_complete(ms: Seq<EntryM>) -> bool {
    forall|i: int, j: int|
        0 <= i < ms.len() && 0 <= j < ms[i].1.params.len() ==> (#[trigger] ms[i].1.params[j].value)
            is Some
}

/// No singleton descriptor's construction function fails.
pub open spec fn singletons_ok(ms: Seq<EntryM>) -> bool {
    forall|i: int|
        0 <= i < ms.len() && (#[trigger] ms[i].1.lifecycle) is Singleton ==> ms[i].1.failure
            is None
}

/// No descriptor's construction function fails.
pub open spec fn constructions_ok(ms: Seq<EntryM>) -> bool {
    forall|i: int| 0 <= i < ms.len() ==> (#[trigger] ms[i].1.failure) is None
}

/// Whether `k` occurs in `ks`.
pub open spec fn in_list(ks: Seq<Seq<char>>, k: Seq<char>) -> bool {
    exists|a: int| 0 <= a < ks.len() && ks[a] == k
}

/// Whether `k` occurs in `om` strictly before position `a`.
pub open spec fn before_in(om: Seq<Seq<char>>, a: int, k: Seq<char>) -> bool {
    exists|b: int| 0 <= b < a && om[b] == k
}

/// `ord` is a construction order for `ms`: it lists the key of every entry,
/// without repetition, and every dependency of a listed key is listed
/// earlier. A registry that admits such an order is acyclic.
pub open spec fn is_construction_order(ms: Seq<EntryM>, ord: Seq<Seq<char>>) -> bool {
    &&& ord.len() == ms.len()
    &&& forall|i: int| 0 <= i < ms.len() ==> in_list(ord, #[trigger] ms[i].0)
    &&& forall|a: int, b: int| 0 <= a < b < ord.len() ==> ord[a] != ord[b]
    &&& forall|a: int| 0 <= a < ord.len() ==> contains_key(ms, #[trigger] ord[a])
    &&& forall|a: int, j: int|
        0 <= a < ord.len() && 0 <= j < descriptor_of(ms, ord[a]).deps.len() ==> before_in(
            ord,
            a,
            #[trigger] descriptor_of(ms, ord[a]).deps[j],
        )
}

/// The registry admits some construction order: its dependency relation is
/// acyclic.
pub open spec fn acyclic(ms: Seq<EntryM>) -> bool {
    exists|ord: Seq<Seq<char>>| is_construction_order(ms, ord)
}

/// `p` is a dependency cycle: a path of at least one edge that returns to
/// its starting key, following declared dependencies at every step.
pub open spec fn is_cycle(ms: Seq<EntryM>, p: Seq<Seq<char>>) -> bool {
    &&& p.len() >= 2
    &&& p[0] == p[p.len() - 1]
    &&& forall|i: int| 0 <= i < p.len() - 1 ==> dep_edge(ms, #[trigger] p[i], p[i + 1])
}

/// The interior of the path `p` repeats no key: together with [`is_cycle`],
/// every key of the cycle appears exactly once before the closing
/// repetition of the starting key.
pub open spec fn cycle_nodes_distinct(p: Seq<Seq<char>>) -> bool {
    forall|i: int, j: int| 0 <= i < j < p.len() - 1 ==> p[i] != p[j]
}

/// A registry on which a build is owed success: every dependency bound,
/// every parameter set, no dependency cycle, and no construction function
/// that fails.
pub open spec fn valid_registry(ms: Seq<EntryM>) -> bool {
    deps_complete(ms) && params_complete(ms) && acyclic(ms) && constructions_ok(ms)
}

} // verus!
