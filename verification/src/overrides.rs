//! Caller-supplied patches applied, in the order given, before the graph is
//! validated and built.

use vstd::prelude::*;

use crate::descriptor::{contains_key, desc_model, descriptor_of, find_key, find_param,
    lemma_find_key, lemma_find_param, param_model, reg_model, DescModel, Descriptor, EntryM,
    Param, ParamModel};
use crate::BuildError;

verus! {

/// A patch applied before validation: either a new value for one named
/// parameter of the targeted descriptor, or a whole replacement descriptor
/// for an interface key. The lifecycle of a replacement descriptor governs
/// later resolution, not the lifecycle it replaces.
pub enum Override {
    Parameter { key: String, name: String, value: String },
    Replace { key: String, descriptor: Descriptor },
}

/// The model of an override.
#[verifier::ext_equal]
pub ghost enum OverrideM {
    Parameter { key: Seq<char>, name: Seq<char>, value: Seq<char> },
    Replace { key: Seq<char>, descriptor: DescModel },
}

pub open spec fn override_model(o: Override) -> OverrideM {
    match o {
        Override::Parameter { key, name, value } => OverrideM::Parameter {
            key: key@,
            name: name@,
            value: value@,
        },
        Override::Replace { key, descriptor } => OverrideM::Replace {
            key: key@,
            descriptor: desc_model(descriptor),
        },
    }
}

pub open spec fn overrides_model(os: Seq<Override>) -> Seq<OverrideM> {
    Seq::new(os.len(), |i: int| override_model(os[i]))
}

/// Whether `o` can be applied to the registry state `ms`: its target key is
/// bound, and a parameter override names a parameter the target declares.
pub open spec fn override_applies(ms: Seq<EntryM>, o: OverrideM) -> bool {
    match o {
        OverrideM::Parameter { key, name, value } => contains_key(ms, key) && find_param(
            descriptor_of(ms, key).params,
            name,
        ) >= 0,
        OverrideM::Replace { key, descriptor } => contains_key(ms, key),
    }
}

/// The registry state after applying `o`: a parameter override sets the
/// named parameter's value on the targeted descriptor and changes nothing
/// else; a replacement override swaps the targeted binding's descriptor
/// wholesale.
pub open spec fn override_applied(ms: Seq<EntryM>, o: OverrideM) -> Seq<EntryM> {
    match o {
        OverrideM::Parameter { key, name, value } => {
            let i = find_key(ms, key);
            let d = ms[i].1;
            let j = find_param(d.params, name);
            let p2 = ParamModel { name: d.params[j].name, value: Some(value) };
            let d2 = DescModel {
                impl_name: d.impl_name,
                lifecycle: d.lifecycle,
                deps: d.deps,
                params: d.params.update(j, p2),
                failure: d.failure,
            };
            ms.update(i, (ms[i].0, d2))
        },
        OverrideM::Replace { key, descriptor } => {
            let i = find_key(ms, key);
            ms.update(i, (ms[i].0, descriptor))
        },
    }
}

/// The position of the first override in `os` that does not apply when the
/// ones before it have been applied to `ms` in order, or -1 if every one
/// applies.
pub open spec fn first_failing(ms: Seq<EntryM>, os: Seq<OverrideM>) -> int
    decreases os.len(),
{
    if os.len() == 0 {
        -1
    } else if !override_applies(ms, os[0]) {
        0
    } else {
        let r = first_failing(override_applied(ms, os[0]), os.drop_first());
        if r < 0 {
            -1
        } else {
            r + 1
        }
    }
}

/// The registry state after applying every override of `os` in order.
/// Meaningful when `first_failing(ms, os) == -1`.
pub open spec fn all_applied(ms: Seq<EntryM>, os: Seq<OverrideM>) -> Seq<EntryM>
    decreases os.len(),
{
    if os.len() == 0 {
        ms
    } else {
        all_applied(override_applied(ms, os[0]), os.drop_first())
    }
}

pub proof fn lemma_all_applied_push(ms: Seq<EntryM>, os: Seq<OverrideM>, o: OverrideM)
    ensures
        all_applied(ms, os.push(o)) == override_applied(all_applied(ms, os), o),
    decreases os.len(),
{
    if os.len() == 0 {
        assert(os.push(o).drop_first() =~= os);
        assert(os.push(o)[0] == o);
        assert(all_applied(ms, os) == ms);
        assert(all_applied(ms, os.push(o)) == all_applied(override_applied(ms, o), os.push(
            o,
        ).drop_first()));
        assert(all_applied(override_applied(ms, o), os.push(o).drop_first())
            == override_applied(ms, o));
    } else {
        assert(os.push(o)[0] == os[0]);
        assert(os.push(o).drop_first() =~= os.drop_first().push(o));
        lemma_all_applied_push(override_applied(ms, os[0]), os.drop_first(), o);
        assert(all_applied(ms, os) == all_applied(override_applied(ms, os[0]), os.drop_first()));
        assert(all_applied(ms, os.push(o)) == all_applied(
            override_applied(ms, os[0]),
            os.drop_first().push(o),
        ));
    }
}

pub proof fn lemma_first_failing_push(ms: Seq<EntryM>, os: Seq<OverrideM>, o: OverrideM)
    requires
        first_failing(ms, os) == -1,
    ensures
        override_applies(all_applied(ms, os), o) ==> first_failing(ms, os.push(o)) == -1,
        !override_applies(all_applied(ms, os), o) ==> first_failing(ms, os.push(o)) == os.len(),
    decreases os.len(),
{
    if os.len() == 0 {
        assert(os.push(o).drop_first() =~= os);
        assert(os.push(o)[0] == o);
        assert(all_applied(ms, os) == ms);
        assert(first_failing(override_applied(ms, o), os.push(o).drop_first()) == -1);
        assert(first_failing(ms, os.push(o)) == ({
            let r = first_failing(override_applied(ms, o), os.push(o).drop_first());
            if !override_applies(ms, o) { 0int } else if r < 0 { -1int } else { r + 1 }
        }));
    } else {
        assert(os.push(o)[0] == os[0]);
        assert(os.push(o).drop_first() =~= os.drop_first().push(o));
        lemma_first_failing_push(override_applied(ms, os[0]), os.drop_first(), o);
        assert(first_failing(ms, os) >= 0 <==> first_failing(
            override_applied(ms, os[0]),
            os.drop_first(),
        ) >= 0);
        assert(all_applied(ms, os) == all_applied(override_applied(ms, os[0]), os.drop_first()));
        assert(first_failing(ms, os.push(o)) == ({
            let r = first_failing(override_applied(ms, os[0]), os.drop_first().push(o));
            if r < 0 { -1int } else { r + 1 }
        }));
    }
}

/// An override that applies keeps every key where it stands.
pub proof fn lemma_override_applied_keys(ms: Seq<EntryM>, o: OverrideM)
    requires
        override_applies(ms, o),
    ensures
        override_applied(ms, o).len() == ms.len(),
        forall|t: int| 0 <= t < ms.len() ==> override_applied(ms, o)[t].0 == ms[t].0,
{
    match o {
        OverrideM::Parameter { key, name, value } => {
            lemma_find_key(ms, key);
        },
        OverrideM::Replace { key, descriptor } => {
            lemma_find_key(ms, key);
        },
    }
}

/// A chain of overrides that all apply keeps every key where it stands.
pub proof fn lemma_all_applied_keys(ms: Seq<EntryM>, os: Seq<OverrideM>)
    requires
        first_failing(ms, os) == -1,
    ensures
        all_applied(ms, os).len() == ms.len(),
        forall|t: int| 0 <= t < ms.len() ==> all_applied(ms, os)[t].0 == ms[t].0,
    decreases os.len(),
{
    if os.len() > 0 {
        lemma_override_applied_keys(ms, os[0]);
        lemma_all_applied_keys(override_applied(ms, os[0]), os.drop_first());
    }
}

/// A parameter override is local: only the value of the named parameter of
/// the targeted descriptor changes; every other binding, every other
/// parameter of the target, and every other part of the target are exactly
/// what they were.
pub proof fn lemma_parameter_override_is_local(
    ms: Seq<EntryM>,
    key: Seq<char>,
    name: Seq<char>,
    value: Seq<char>,
)
    requires
        override_applies(ms, OverrideM::Parameter { key, name, value }),
    ensures
        ({
            let i = find_key(ms, key);
            let j = find_param(ms[i].1.params, name);
            let ms2 = override_applied(ms, OverrideM::Parameter { key, name, value });
            &&& 0 <= i < ms.len() && ms[i].0 == key
            &&& 0 <= j < ms[i].1.params.len() && ms[i].1.params[j].name == name
            &&& ms2.len() == ms.len()
            &&& forall|t: int| 0 <= t < ms.len() && t != i ==> ms2[t] == ms[t]
            &&& ms2[i].0 == ms[i].0
            &&& ms2[i].1.impl_name == ms[i].1.impl_name
            &&& ms2[i].1.lifecycle == ms[i].1.lifecycle
            &&& ms2[i].1.deps == ms[i].1.deps
            &&& ms2[i].1.failure == ms[i].1.failure
            &&& ms2[i].1.params.len() == ms[i].1.params.len()
            &&& forall|t: int|
                0 <= t < ms[i].1.params.len() && t != j ==> ms2[i].1.params[t] == ms[i].1.params[t]
            &&& ms2[i].1.params[j].name == ms[i].1.params[j].name
            &&& ms2[i].1.params[j].value == Some(value)
        }),
{
    lemma_find_key(ms, key);
    lemma_find_param(ms[find_key(ms, key)].1.params, name);
}

/// A replacement override binds exactly the replacement descriptor to the
/// targeted key and leaves every other binding exactly what it was.
pub proof fn lemma_replace_override_binds(ms: Seq<EntryM>, key: Seq<char>, d: DescModel)
    requires
        override_applies(ms, OverrideM::Replace { key, descriptor: d }),
    ensures
        ({
            let ms2 = override_applied(ms, OverrideM::Replace { key, descriptor: d });
            &&& ms2.len() == ms.len()
            &&& contains_key(ms2, key)
            &&& descriptor_of(ms2, key) == d
            &&& forall|t: int| 0 <= t < ms.len() && t != find_key(ms, key) ==> ms2[t] == ms[t]
            &&& ms2[find_key(ms, key)].0 == key
        }),
{
    lemma_find_key(ms, key);
    let i = find_key(ms, key);
    let ms2 = override_applied(ms, OverrideM::Replace { key, descriptor: d });
    assert(ms2[i].0 == key);
    lemma_find_key(ms2, key);
    let i2 = find_key(ms2, key);
    assert(i2 >= 0);
    if i2 < i {
        assert(ms2[i2] == ms[i2]);
        assert(ms[i2].0 != key);
        assert(false);
    }
    if i2 > i {
        assert(ms2[i2].0 != key);
        assert(false);
    }
}

/// What error a failing override chain reports: the first override that
/// does not apply names its target — an unbound interface key, or a
/// parameter its target does not declare.
pub open spec fn override_error_matches(m0: Seq<EntryM>, om: Seq<OverrideM>, e: BuildError) -> bool {
    let f = first_failing(m0, om);
    let st = all_applied(m0, om.take(f));
    &&& f >= 0
    &&& match om[f] {
        OverrideM::Parameter { key, name, .. } => {
            if !contains_key(st, key) {
                e matches BuildError::UnknownInterface(k) && k@ == key
            } else {
                e matches BuildError::MissingParameter { key: k, name: n } && k@ == key && n@
                    == name
            }
        },
        OverrideM::Replace { key, .. } => e matches BuildError::UnknownInterface(k) && k@ == key,
    }
}

/// Where `os` applies cleanly up to position `k` and fails there, `k` is
/// the first failing position of the whole sequence.
pub proof fn lemma_first_failing_at(ms: Seq<EntryM>, os: Seq<OverrideM>, k: int)
    requires
        0 <= k < os.len(),
        first_failing(ms, os.take(k)) == -1,
        !override_applies(all_applied(ms, os.take(k)), os[k]),
    ensures
        first_failing(ms, os) == k,
    decreases k,
{
    if k == 0 {
        assert(os.take(0) =~= Seq::<OverrideM>::empty());
        assert(all_applied(ms, os.take(0)) == ms);
    } else {
        let os1 = os.drop_first();
        assert(os.take(k)[0] == os[0]);
        assert(os.take(k).drop_first() =~= os1.take(k - 1));
        assert(override_applies(ms, os[0]));
        assert(first_failing(override_applied(ms, os[0]), os1.take(k - 1)) == -1);
        assert(all_applied(ms, os.take(k)) == all_applied(
            override_applied(ms, os[0]),
            os1.take(k - 1),
        ));
        assert(os1[k - 1] == os[k]);
        lemma_first_failing_at(override_applied(ms, os[0]), os1, k - 1);
    }
}

/// Finds the position of the binding of `key`, or the number of bindings
/// if `key` is not bound.
#[verifier::loop_isolation(false)]
pub(crate) fn find_entry(entries: &Vec<(String, Descriptor)>, key: &String) -> (r: usize)
    ensures
        r <= entries@.len(),
        r == entries@.len() <==> !contains_key(reg_model(entries@), key@),
        r < entries@.len() ==> r as int == find_key(reg_model(entries@), key@),
{
    proof {
        lemma_find_key(reg_model(entries@), key@);
    }
    let n = entries.len();
    let mut i: usize = 0;
    while i < n
        invariant
            forall|t: int| 0 <= t < i ==> reg_model(entries@)[t].0 != key@,
        decreases n - i,
    {
        if entries[i].0 == *key {
            proof {
                assert(reg_model(entries@)[i as int].0 == key@);
            }
            return i;
        }
        i += 1;
    }
    n
}

/// Finds the position of the parameter named `name`, or the number of
/// parameters if none is.
#[verifier::loop_isolation(false)]
fn find_param_at(params: &Vec<Param>, name: &String) -> (r: usize)
    ensures
        r <= params@.len(),
        ({
            let pm = Seq::new(params@.len(), |t: int| param_model(params@[t]));
            &&& r == params@.len() <==> find_param(pm, name@) == -1
            &&& r < params@.len() ==> r as int == find_param(pm, name@)
        }),
{
    let ghost pm = Seq::new(params@.len(), |t: int| param_model(params@[t]));
    proof {
        lemma_find_param(pm, name@);
    }
    let n = params.len();
    let mut i: usize = 0;
    while i < n
        invariant
            forall|t: int| 0 <= t < i ==> pm[t].name != name@,
        decreases n - i,
    {
        if params[i].name == *name {
            proof {
                assert(pm[i as int].name == name@);
            }
            return i;
        }
        i += 1;
    }
    n
}

/// Applies `overrides` to the bindings in the order given. On success the
/// bindings hold the state with every override applied; on failure they
/// hold the state with the overrides before the first failing one applied,
/// and the error names what the failing override targeted in vain: an
/// unbound interface key, or a parameter its target does not declare.
#[verifier::loop_isolation(false)]
pub fn apply_overrides(entries: &mut Vec<(String, Descriptor)>, overrides: Vec<Override>) -> (r:
    Result<(), BuildError>)
    ensures
        ({
            let m0 = reg_model(old(entries)@);
            let om = overrides_model(overrides@);
            match r {
                Ok(()) => first_failing(m0, om) == -1 && reg_model(final(entries)@)
                    == all_applied(m0, om),
                Err(e) => {
                    let f = first_failing(m0, om);
                    &&& override_error_matches(m0, om, e)
                    &&& reg_model(final(entries)@) == all_applied(m0, om.take(f))
                },
            }
        }),
{
    let ghost m0 = reg_model(entries@);
    let ghost om = overrides_model(overrides@);
    let mut rest = overrides;
    let ghost orig = rest@;
    let total = rest.len();
    let mut oi: usize = 0;
    proof {
        assert(om.take(0) =~= Seq::<OverrideM>::empty());
    }
    while rest.len() > 0
        invariant
            oi + rest@.len() == total,
            total == om.len(),
            forall|t: int| 0 <= t < rest@.len() ==> override_model(#[trigger] rest@[t]) == om[oi + t],
            first_failing(m0, om.take(oi as int)) == -1,
            reg_model(entries@) == all_applied(m0, om.take(oi as int)),
        decreases rest@.len(),
    {
        let ghost prev = reg_model(entries@);
        let ghost rest0 = rest@;
        let o = rest.remove(0);
        proof {
            assert(override_model(o) == om[oi as int]);
            assert(om.take(oi + 1) =~= om.take(oi as int).push(om[oi as int]));
            lemma_first_failing_push(m0, om.take(oi as int), om[oi as int]);
            lemma_all_applied_push(m0, om.take(oi as int), om[oi as int]);
            assert forall|t: int| 0 <= t < rest@.len() implies override_model(
                #[trigger] rest@[t],
            ) == om[oi + 1 + t] by {
                assert(rest@[t] == rest0[t + 1]);
            }
        }
        match o {
            Override::Parameter { key, name, value } => {
                let i = find_entry(entries, &key);
                if i == entries.len() {
                    proof {
                        lemma_first_failing_at(m0, om, oi as int);
                    }
                    return Err(BuildError::UnknownInterface(key));
                }
                let j = find_param_at(&entries[i].1.params, &name);
                proof {
                    assert(prev[i as int].1 =~~= desc_model(entries@[i as int].1));
                }
                if j == entries[i].1.params.len() {
                    proof {
                        lemma_first_failing_at(m0, om, oi as int);
                    }
                    return Err(BuildError::MissingParameter { key, name });
                }
                let ghost before = entries@;
                let ent = entries.remove(i);
                let (kstr, d) = ent;
                let Descriptor { impl_name, lifecycle, deps, params, failure } = d;
                let ghost params0 = params@;
                let mut params2 = params;
                let p = params2.remove(j);
                params2.insert(j, Param { name: p.name, value: Some(value) });
                let d2 = Descriptor { impl_name, lifecycle, deps, params: params2, failure };
                entries.insert(i, (kstr, d2));
                proof {
                    let im = i as int;
                    let jm = j as int;
                    let target = override_applied(prev, om[oi as int]);
                    let km = om[oi as int]->Parameter_key;
                    assert(km == key@);
                    lemma_find_key(prev, km);
                    assert(find_key(prev, km) == im);
                    assert(prev[im].0 == km);
                    assert(override_applies(prev, om[oi as int]));
                    assert(prev[im].1.params =~~= Seq::new(
                        params0.len(),
                        |t: int| param_model(params0[t]),
                    ));
                    assert(find_param(prev[im].1.params, om[oi as int]->Parameter_name) == jm);
                    assert forall|t: int| 0 <= t < params2@.len() implies param_model(
                        #[trigger] params2@[t],
                    ) =~~= (if t == jm {
                        ParamModel {
                            name: prev[im].1.params[jm].name,
                            value: Some(om[oi as int]->Parameter_value),
                        }
                    } else {
                        prev[im].1.params[t]
                    }) by {
                        if t < jm {
                            assert(params2@[t] == params0[t]);
                        } else if t > jm {
                            assert(params2@[t] == params0[t]);
                        } else {
                            assert(params2@[jm].name == params0[jm].name);
                        }
                    }
                    assert forall|t: int| 0 <= t < reg_model(entries@).len() implies reg_model(
                        entries@,
                    )[t] =~~= target[t] by {
                        if t != im {
                            assert(entries@[t] == before[t]);
                        } else {
                            assert(entries@[im].0 == before[im].0);
                            assert(desc_model(entries@[im].1).params =~~= prev[im].1.params.update(
                                jm,
                                ParamModel {
                                    name: prev[im].1.params[jm].name,
                                    value: Some(om[oi as int]->Parameter_value),
                                },
                            ));
                        }
                    }
                    assert(reg_model(entries@) =~~= target);
                }
            },
            Override::Replace { key, descriptor } => {
                let i = find_entry(entries, &key);
                if i == entries.len() {
                    proof {
                        lemma_first_failing_at(m0, om, oi as int);
                    }
                    return Err(BuildError::UnknownInterface(key));
                }
                let ent = entries.remove(i);
                let (kstr, _old_desc) = ent;
                entries.insert(i, (kstr, descriptor));
                proof {
                    assert(override_applies(prev, om[oi as int]));
                    assert forall|t: int| 0 <= t < reg_model(entries@).len() implies reg_model(
                        entries@,
                    )[t] =~~= override_applied(prev, om[oi as int])[t] by {
                        lemma_find_key(prev, entries@[i as int].0@);
                    }
                    assert(reg_model(entries@) =~~= override_applied(prev, om[oi as int]));
                }
            },
        }
        oi += 1;
    }
    proof {
        assert(om.take(oi as int) =~= om);
    }
    Ok(())
}

} // verus!
