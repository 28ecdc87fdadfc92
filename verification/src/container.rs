//! The container: the immutable, queryable result of a successful build.

use vstd::prelude::*;

use crate::builder::key_model;
use crate::descriptor::{contains_key, deps_complete, desc_model, descriptor_of, find_key,
    is_construction_order, keys_distinct, lemma_find_key, params_complete, reg_model,
    singletons_ok, DepRef, Descriptor, EntryM, Instance, Lifecycle};
use crate::overrides::find_entry;
use crate::ResolutionError;

verus! {

/// No transient descriptor's construction function fails.
pub open spec fn transients_ok(ms: Seq<EntryM>) -> bool {
    forall|i: int|
        0 <= i < ms.len() && (#[trigger] ms[i].1.lifecycle) is Transient ==> ms[i].1.failure
            is None
}

/// The position of the first instance for `key` in `sg`, or -1 if none is.
pub open spec fn find_inst(sg: Seq<Instance>, key: Seq<char>) -> int
    decreases sg.len(),
{
    if sg.len() == 0 {
        -1
    } else if sg[0].key@ == key {
        0
    } else {
        let r = find_inst(sg.drop_first(), key);
        if r < 0 {
            -1
        } else {
            r + 1
        }
    }
}

/// Whether `sg` holds an instance for `key`.
pub open spec fn has_inst(sg: Seq<Instance>, key: Seq<char>) -> bool {
    find_inst(sg, key) >= 0
}

/// The instance held for `key` (the first one, where several are held).
pub open spec fn inst_of(sg: Seq<Instance>, key: Seq<char>) -> Instance {
    sg[find_inst(sg, key)]
}

pub proof fn lemma_find_inst(sg: Seq<Instance>, key: Seq<char>)
    ensures
        find_inst(sg, key) == -1 || (0 <= find_inst(sg, key) < sg.len()),
        find_inst(sg, key) >= 0 ==> sg[find_inst(sg, key)].key@ == key,
        forall|i: int| 0 <= i < sg.len() && sg[i].key@ == key ==> find_inst(sg, key) >= 0,
        forall|i: int| 0 <= i < find_inst(sg, key) ==> sg[i].key@ != key,
    decreases sg.len(),
{
    if sg.len() > 0 && sg[0].key@ != key {
        lemma_find_inst(sg.drop_first(), key);
        assert forall|i: int| 0 <= i < sg.len() && sg[i].key@ == key implies find_inst(sg, key)
            >= 0 by {
            if i > 0 {
                assert(sg.drop_first()[i - 1] == sg[i]);
            }
        }
        assert forall|i: int| 0 <= i < find_inst(sg, key) implies sg[i].key@ != key by {
            if i > 0 {
                assert(sg.drop_first()[i - 1] == sg[i]);
            }
        }
    }
}

/// Pushing an instance keeps every present key's instance where it was,
/// and adds `x` under its key where that key had none.
pub proof fn lemma_find_inst_push(sg: Seq<Instance>, x: Instance, k: Seq<char>)
    ensures
        find_inst(sg.push(x), k) == (if find_inst(sg, k) >= 0 {
            find_inst(sg, k)
        } else if x.key@ == k {
            sg.len() as int
        } else {
            -1int
        }),
    decreases sg.len(),
{
    if sg.len() == 0 {
        assert(sg.push(x)[0] == x);
        assert(sg.push(x).drop_first() =~= sg);
    } else {
        assert(sg.push(x)[0] == sg[0]);
        assert(sg.push(x).drop_first() =~= sg.drop_first().push(x));
        lemma_find_inst_push(sg.drop_first(), x, k);
    }
}

/// The head of `inst` is what the recipe bound to `key` prescribes: the
/// key itself, the implementation name, and every parameter with its
/// resolved value, in declaration order.
pub open spec fn inst_head_matches(ms: Seq<EntryM>, key: Seq<char>, inst: Instance) -> bool {
    let d = descriptor_of(ms, key);
    &&& inst.key@ == key
    &&& inst.impl_name@ == d.impl_name
    &&& inst.params@.len() == d.params.len()
    &&& forall|t: int|
        0 <= t < d.params.len() ==> (#[trigger] inst.params@[t]).0@ == d.params[t].name && Some(
            inst.params@[t].1@,
        ) == d.params[t].value
    &&& inst.deps@.len() == d.deps.len()
}

/// How a singleton instance holds the dependency bound to `dk`: a shared
/// reference to the singleton instance, or a deferred handle to a transient
/// binding — never an owned instance, since no provider runs during the
/// build.
pub open spec fn dep_ref_ok(ms: Seq<EntryM>, sg: Seq<Instance>, dk: Seq<char>, dr: DepRef) -> bool {
    match dr {
        DepRef::Shared(id) => descriptor_of(ms, dk).lifecycle is Singleton && has_inst(sg, dk)
            && inst_of(sg, dk).id == id,
        DepRef::Deferred(k2) => k2@ == dk && contains_key(ms, dk) && descriptor_of(
            ms,
            dk,
        ).lifecycle is Transient,
        DepRef::Owned(_) => false,
    }
}

/// A well-formed singleton instance of the container.
pub open spec fn singleton_inst_ok(ms: Seq<EntryM>, sg: Seq<Instance>, inst: Instance) -> bool {
    &&& contains_key(ms, inst.key@)
    &&& descriptor_of(ms, inst.key@).lifecycle is Singleton
    &&& inst_head_matches(ms, inst.key@, inst)
    &&& forall|t: int|
        0 <= t < inst.deps@.len() ==> dep_ref_ok(
            ms,
            sg,
            descriptor_of(ms, inst.key@).deps[t],
            #[trigger] inst.deps@[t],
        )
}

/// An instance produced by the transient provider bound to `key`: its head
/// follows the recipe, singleton dependencies are shared references into
/// the container, and transient dependencies are owned instances produced
/// by their own providers in turn, all carrying the identity of the
/// resolution that created them.
pub open spec fn transient_inst_ok(
    ms: Seq<EntryM>,
    sg: Seq<Instance>,
    key: Seq<char>,
    inst: Instance,
) -> bool
    decreases inst,
{
    &&& contains_key(ms, key)
    &&& descriptor_of(ms, key).lifecycle is Transient
    &&& descriptor_of(ms, key).failure is None
    &&& inst_head_matches(ms, key, inst)
    &&& forall|t: int|
        0 <= t < inst.deps@.len() ==> {
            let dk = descriptor_of(ms, key).deps[t];
            match #[trigger] inst.deps@[t] {
                DepRef::Shared(id) => descriptor_of(ms, dk).lifecycle is Singleton && has_inst(
                    sg,
                    dk,
                ) && inst_of(sg, dk).id == id,
                DepRef::Owned(b) => descriptor_of(ms, dk).lifecycle is Transient && b.id == inst.id
                    && transient_inst_ok(ms, sg, dk, *b),
                DepRef::Deferred(_) => false,
            }
        }
}

/// Two instances with the same identity and the same content. A singleton
/// handed out by `resolve` is this-equivalent to the stored instance.
pub open spec fn inst_eqv(a: Instance, b: Instance) -> bool {
    &&& a.id == b.id
    &&& a.key@ == b.key@
    &&& a.impl_name@ == b.impl_name@
    &&& a.params@.len() == b.params@.len()
    &&& forall|t: int|
        0 <= t < a.params@.len() ==> (#[trigger] a.params@[t]).0@ == b.params@[t].0@
            && a.params@[t].1@ == b.params@[t].1@
    &&& a.deps@.len() == b.deps@.len()
    &&& forall|t: int|
        0 <= t < a.deps@.len() ==> match (#[trigger] a.deps@[t], b.deps@[t]) {
            (DepRef::Shared(i1), DepRef::Shared(i2)) => i1 == i2,
            (DepRef::Deferred(k1), DepRef::Deferred(k2)) => k1@ == k2@,
            _ => false,
        }
}

/// The immutable result of a successful build: the (possibly overridden)
/// bindings, a construction order over them, one constructed instance per
/// singleton binding, and the next never-used instance identity.
pub struct Container {
    bindings: Vec<(String, Descriptor)>,
    order: Vec<String>,
    singletons: Vec<Instance>,
    next_id: u64,
}

impl Container {
    /// The bindings the container answers lookups from.
    pub closed spec fn model(&self) -> Seq<EntryM> {
        reg_model(self.bindings@)
    }

    /// The construction order the build followed.
    pub closed spec fn order_model(&self) -> Seq<Seq<char>> {
        key_model(self.order@)
    }

    /// The constructed singleton instances.
    pub closed spec fn singletons_model(&self) -> Seq<Instance> {
        self.singletons@
    }

    /// The next instance identity to be handed out; every identity already
    /// handed out is below it.
    pub closed spec fn fresh_mark(&self) -> int {
        self.next_id as int
    }

    /// What a successful build establishes and every resolution preserves.
    pub open spec fn wf(&self) -> bool {
        &&& keys_distinct(self.model())
        &&& deps_complete(self.model())
        &&& params_complete(self.model())
        &&& singletons_ok(self.model())
        &&& is_construction_order(self.model(), self.order_model())
        &&& forall|s: int|
            0 <= s < self.singletons_model().len() ==> singleton_inst_ok(
                self.model(),
                self.singletons_model(),
                #[trigger] self.singletons_model()[s],
            )
        &&& forall|s1: int, s2: int|
            0 <= s1 < s2 < self.singletons_model().len()
                ==> self.singletons_model()[s1].key@ != self.singletons_model()[s2].key@
        &&& forall|s: int|
            0 <= s < self.singletons_model().len() ==> (#[trigger] self.singletons_model()[s].id)
                < self.fresh_mark()
        &&& forall|s1: int, s2: int|
            0 <= s1 < s2 < self.singletons_model().len() ==> self.singletons_model()[s1].id
                != self.singletons_model()[s2].id
        &&& forall|i: int|
            0 <= i < self.model().len() && (#[trigger] self.model()[i].1.lifecycle) is Singleton
                ==> has_inst(self.singletons_model(), self.model()[i].0)
    }

    /// How many singleton instances the build constructed.
    pub fn singleton_count(&self) -> (r: usize)
        ensures
            r == self.singletons_model().len(),
    {
        self.singletons.len()
    }

    /// Whether unused instance identities remain: `resolve` asks for one.
    pub fn has_fresh_identities(&self) -> (r: bool)
        ensures
            r == (self.fresh_mark() < u64::MAX as int),
    {
        self.next_id < u64::MAX
    }

    /// Packages the parts of a finished build.
    pub(crate) fn assemble(
        bindings: Vec<(String, Descriptor)>,
        order: Vec<String>,
        singletons: Vec<Instance>,
        next_id: u64,
    ) -> (c: Container)
        ensures
            c.model() == reg_model(bindings@),
            c.order_model() == key_model(order@),
            c.singletons_model() == singletons@,
            c.fresh_mark() == next_id as int,
    {
        Container { bindings, order, singletons, next_id }
    }
}

/// The position of the first occurrence of `k` in `om`, or -1 if none is.
pub open spec fn pos_of(om: Seq<Seq<char>>, k: Seq<char>) -> int
    decreases om.len(),
{
    if om.len() == 0 {
        -1
    } else if om[0] == k {
        0
    } else {
        let r = pos_of(om.drop_first(), k);
        if r < 0 {
            -1
        } else {
            r + 1
        }
    }
}

pub proof fn lemma_pos_of(om: Seq<Seq<char>>, k: Seq<char>)
    ensures
        pos_of(om, k) == -1 || (0 <= pos_of(om, k) < om.len()),
        pos_of(om, k) >= 0 ==> om[pos_of(om, k)] == k,
        forall|i: int| 0 <= i < om.len() && om[i] == k ==> pos_of(om, k) >= 0,
        forall|i: int| 0 <= i < pos_of(om, k) ==> om[i] != k,
    decreases om.len(),
{
    if om.len() > 0 && om[0] != k {
        lemma_pos_of(om.drop_first(), k);
        assert forall|i: int| 0 <= i < om.len() && om[i] == k implies pos_of(om, k) >= 0 by {
            if i > 0 {
                assert(om.drop_first()[i - 1] == om[i]);
            }
        }
        assert forall|i: int| 0 <= i < pos_of(om, k) implies om[i] != k by {
            if i > 0 {
                assert(om.drop_first()[i - 1] == om[i]);
            }
        }
    }
}

/// In a construction order, every dependency stands strictly before its
/// dependent.
proof fn lemma_dep_pos_lt(ms: Seq<EntryM>, om: Seq<Seq<char>>, key: Seq<char>, j: int)
    requires
        is_construction_order(ms, om),
        contains_key(ms, key),
        0 <= j < descriptor_of(ms, key).deps.len(),
    ensures
        0 <= pos_of(om, descriptor_of(ms, key).deps[j]) < pos_of(om, key),
{
    lemma_find_key(ms, key);
    let fk = find_key(ms, key);
    assert(ms[fk].0 == key);
    assert(crate::descriptor::in_list(om, ms[fk].0));
    lemma_pos_of(om, key);
    let a0 = pos_of(om, key);
    let w = choose|a: int| 0 <= a < om.len() && om[a] == key;
    assert(a0 >= 0);
    assert(om[a0] == key);
    assert(crate::descriptor::before_in(om, a0, descriptor_of(ms, om[a0]).deps[j]));
    let dk = descriptor_of(ms, key).deps[j];
    let b = choose|b: int| 0 <= b < a0 && om[b] == dk;
    lemma_pos_of(om, dk);
    assert(pos_of(om, dk) >= 0);
    if pos_of(om, dk) > b {
        assert(false);
    }
}

/// Finds the position of the stored instance for `key`.
#[verifier::loop_isolation(false)]
fn find_singleton(sg: &Vec<Instance>, key: &String) -> (r: usize)
    requires
        has_inst(sg@, key@),
    ensures
        r < sg@.len(),
        r as int == find_inst(sg@, key@),
{
    proof {
        lemma_find_inst(sg@, key@);
    }
    let n = sg.len();
    let mut i: usize = 0;
    while i < n
        invariant
            forall|t: int| 0 <= t < i ==> sg@[t].key@ != key@,
        decreases n - i,
    {
        if sg[i].key == *key {
            return i;
        }
        i += 1;
    }
    proof {
        assert(false);
    }
    0
}

/// Rebuilds a singleton instance for handing out: same identity, same
/// content.
#[verifier::loop_isolation(false)]
fn duplicate_singleton(inst: &Instance) -> (r: Instance)
    requires
        forall|t: int| 0 <= t < inst.deps@.len() ==> !((#[trigger] inst.deps@[t]) is Owned),
    ensures
        inst_eqv(r, *inst),
{
    let mut params: Vec<(String, String)> = Vec::new();
    let pn = inst.params.len();
    let mut t: usize = 0;
    while t < pn
        invariant
            params@.len() == t,
            t <= pn,
            forall|u: int|
                0 <= u < t ==> (#[trigger] params@[u]).0@ == inst.params@[u].0@ && params@[u].1@
                    == inst.params@[u].1@,
        decreases pn - t,
    {
        params.push((inst.params[t].0.clone(), inst.params[t].1.clone()));
        t += 1;
    }
    let mut deps: Vec<DepRef> = Vec::new();
    let dn = inst.deps.len();
    let mut u: usize = 0;
    while u < dn
        invariant
            deps@.len() == u,
            u <= dn,
            forall|v: int|
                0 <= v < u ==> match (#[trigger] deps@[v], inst.deps@[v]) {
                    (DepRef::Shared(i1), DepRef::Shared(i2)) => i1 == i2,
                    (DepRef::Deferred(k1), DepRef::Deferred(k2)) => k1@ == k2@,
                    _ => false,
                },
        decreases dn - u,
    {
        match &inst.deps[u] {
            DepRef::Shared(id) => {
                deps.push(DepRef::Shared(*id));
            },
            DepRef::Deferred(k) => {
                deps.push(DepRef::Deferred(k.clone()));
            },
            DepRef::Owned(_) => {
                proof {
                    assert(false);
                }
                deps.push(DepRef::Shared(0));
            },
        }
        u += 1;
    }
    Instance {
        id: inst.id,
        key: inst.key.clone(),
        impl_name: inst.impl_name.clone(),
        params,
        deps,
    }
}

impl Container {
    /// Invokes the transient provider bound to `key`, resolving its
    /// declared dependencies: singletons by shared reference, nested
    /// transients by recursive invocation. Every instance the invocation
    /// constructs carries the identity `id`.
    #[verifier::loop_isolation(false)]
    fn provide(&self, key: &String, id: u64) -> (r: Result<Instance, ResolutionError>)
        requires
            self.wf(),
            contains_key(self.model(), key@),
            descriptor_of(self.model(), key@).lifecycle is Transient,
        ensures
            match r {
                Ok(inst) => transient_inst_ok(
                    self.model(),
                    self.singletons_model(),
                    key@,
                    inst,
                ) && inst.id == id,
                Err(e) => {
                    &&& e matches ResolutionError::ProviderFailed { key: k, cause: c }
                    &&& contains_key(self.model(), k@)
                    &&& descriptor_of(self.model(), k@).lifecycle is Transient
                    &&& descriptor_of(self.model(), k@).failure == Some(c@)
                },
            },
            transients_ok(self.model()) ==> r is Ok,
        decreases pos_of(self.order_model(), key@),
    {
        let ghost ms = self.model();
        let i = find_entry(&self.bindings, key);
        proof {
            lemma_find_key(ms, key@);
            assert(i < self.bindings@.len());
            assert(ms[i as int].1 == descriptor_of(ms, key@));
        }
        if let Some(cause) = &self.bindings[i].1.failure {
            proof {
                assert(descriptor_of(ms, key@).failure == Some(cause@));
            }
            return Err(ResolutionError::ProviderFailed { key: key.clone(), cause: cause.clone() });
        }
        let pn = self.bindings[i].1.params.len();
        let mut params: Vec<(String, String)> = Vec::new();
        let mut t: usize = 0;
        while t < pn
            invariant
                params@.len() == t,
                t <= pn,
                forall|u: int|
                    0 <= u < t ==> (#[trigger] params@[u]).0@ == descriptor_of(
                        ms,
                        key@,
                    ).params[u].name && Some(params@[u].1@) == descriptor_of(
                        ms,
                        key@,
                    ).params[u].value,
            decreases pn - t,
        {
            let p = &self.bindings[i].1.params[t];
            match &p.value {
                Some(v) => {
                    params.push((p.name.clone(), v.clone()));
                },
                None => {
                    proof {
                        assert(descriptor_of(ms, key@).params[t as int].value is None);
                        assert(false);
                    }
                    return Err(ResolutionError::UnknownInterface(key.clone()));
                },
            }
            t += 1;
        }
        let dn = self.bindings[i].1.deps.len();
        let mut drefs: Vec<DepRef> = Vec::new();
        let mut u: usize = 0;
        while u < dn
            invariant
                drefs@.len() == u,
                u <= dn,
                forall|v: int|
                    0 <= v < u ==> {
                        let dk = descriptor_of(ms, key@).deps[v];
                        match #[trigger] drefs@[v] {
                            DepRef::Shared(sid) => descriptor_of(ms, dk).lifecycle is Singleton
                                && has_inst(self.singletons_model(), dk) && inst_of(
                                self.singletons_model(),
                                dk,
                            ).id == sid,
                            DepRef::Owned(b) => descriptor_of(ms, dk).lifecycle is Transient
                                && b.id == id && transient_inst_ok(
                                ms,
                                self.singletons_model(),
                                dk,
                                *b,
                            ),
                            DepRef::Deferred(_) => false,
                        }
                    },
            decreases dn - u,
        {
            let dk = &self.bindings[i].1.deps[u];
            proof {
                assert(descriptor_of(ms, key@).deps[u as int] == dk@);
                assert(contains_key(ms, ms[i as int].1.deps[u as int]));
            }
            let di = find_entry(&self.bindings, dk);
            proof {
                lemma_find_key(ms, dk@);
                assert(ms[di as int].1 == descriptor_of(ms, dk@));
            }
            match self.bindings[di].1.lifecycle {
                Lifecycle::Singleton => {
                    let si = find_singleton(&self.singletons, dk);
                    drefs.push(DepRef::Shared(self.singletons[si].id));
                },
                Lifecycle::Transient => {
                    proof {
                        lemma_dep_pos_lt(ms, self.order_model(), key@, u as int);
                    }
                    match self.provide(dk, id) {
                        Ok(child) => {
                            drefs.push(DepRef::Owned(Box::new(child)));
                        },
                        Err(e) => {
                            return Err(e);
                        },
                    }
                },
            }
            u += 1;
        }
        let inst = Instance {
            id,
            key: key.clone(),
            impl_name: self.bindings[i].1.impl_name.clone(),
            params,
            deps: drefs,
        };
        proof {
            assert(inst_head_matches(ms, key@, inst));
        }
        Ok(inst)
    }

    /// Fetches the implementation bound to `key`. A singleton binding
    /// returns the already-constructed shared instance, without
    /// reconstruction; a transient binding invokes its provider now and
    /// returns the freshly constructed, caller-owned instance, carrying an
    /// identity never handed out before. No binding, and the request fails
    /// with `UnknownInterface`; a failing provider surfaces
    /// `ProviderFailed`, naming the provider and its cause, and leaves the
    /// container unchanged.
    ///
    /// Asks for one unused identity ([`Self::has_fresh_identities`]): the
    /// identity space is a machine limit, not a rule of the design.
    pub fn resolve(&mut self, key: &String) -> (r: Result<Instance, ResolutionError>)
        requires
            old(self).wf(),
            old(self).fresh_mark() < u64::MAX as int,
        ensures
            final(self).wf(),
            final(self).model() == old(self).model(),
            final(self).order_model() == old(self).order_model(),
            final(self).singletons_model() == old(self).singletons_model(),
            match r {
                Ok(inst) => {
                    &&& contains_key(old(self).model(), key@)
                    &&& if descriptor_of(old(self).model(), key@).lifecycle is Singleton {
                        &&& inst_eqv(inst, inst_of(old(self).singletons_model(), key@))
                        &&& *final(self) == *old(self)
                    } else {
                        &&& transient_inst_ok(
                            old(self).model(),
                            old(self).singletons_model(),
                            key@,
                            inst,
                        )
                        &&& inst.id == old(self).fresh_mark()
                        &&& final(self).fresh_mark() == old(self).fresh_mark() + 1
                    }
                },
                Err(e) => *final(self) == *old(self) && match e {
                    ResolutionError::UnknownInterface(k) => !contains_key(old(self).model(), key@)
                        && k@ == key@,
                    ResolutionError::ProviderFailed { key: k, cause: c } => {
                        &&& contains_key(old(self).model(), key@)
                        &&& descriptor_of(old(self).model(), key@).lifecycle is Transient
                        &&& contains_key(old(self).model(), k@)
                        &&& descriptor_of(old(self).model(), k@).lifecycle is Transient
                        &&& descriptor_of(old(self).model(), k@).failure == Some(c@)
                    },
                },
            },
            contains_key(old(self).model(), key@) && (descriptor_of(
                old(self).model(),
                key@,
            ).lifecycle is Singleton || transients_ok(old(self).model())) ==> r is Ok,
    {
        let ghost ms = self.model();
        let i = find_entry(&self.bindings, key);
        if i == self.bindings.len() {
            return Err(ResolutionError::UnknownInterface(key.clone()));
        }
        proof {
            lemma_find_key(ms, key@);
            assert(ms[i as int].1 == descriptor_of(ms, key@));
        }
        match self.bindings[i].1.lifecycle {
            Lifecycle::Singleton => {
                proof {
                    assert(has_inst(self.singletons_model(), ms[i as int].0));
                }
                let si = find_singleton(&self.singletons, key);
                proof {
                    let sj = find_inst(self.singletons_model(), key@);
                    assert(singleton_inst_ok(
                        ms,
                        self.singletons_model(),
                        self.singletons_model()[sj],
                    ));
                }
                Ok(duplicate_singleton(&self.singletons[si]))
            },
            Lifecycle::Transient => {
                let id = self.next_id;
                match self.provide(key, id) {
                    Ok(inst) => {
                        self.next_id = self.next_id + 1;
                        Ok(inst)
                    },
                    Err(e) => Err(e),
                }
            },
        }
    }
}

/// A registry that is owed a successful build satisfies each condition the
/// build and the resolver check: complete dependencies and parameters, an
/// admissible construction order, and no failing constructor of either
/// lifecycle.
pub proof fn lemma_valid_registry_parts(ms: Seq<EntryM>)
    requires
        crate::descriptor::valid_registry(ms),
    ensures
        deps_complete(ms),
        params_complete(ms),
        crate::descriptor::acyclic(ms),
        singletons_ok(ms),
        transients_ok(ms),
{
}

} // verus!
