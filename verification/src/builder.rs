//! The graph builder: validates a registry, applies overrides, computes a
//! construction order, and eagerly constructs the singleton instances.

use vstd::prelude::*;

use crate::descriptor::{acyclic, before_in, contains_key, cycle_nodes_distinct, dep_edge,
    deps_complete, descriptor_of, find_key, in_list, is_construction_order, is_cycle,
    keys_distinct, lemma_find_key, params_complete, reg_model, singletons_ok, DepRef, Descriptor,
    EntryM, Instance, Lifecycle};
use crate::container::{dep_ref_ok, find_inst, has_inst, inst_head_matches, lemma_find_inst,
    lemma_find_inst_push, singleton_inst_ok, Container};
use crate::overrides::{apply_overrides, find_entry, first_failing, all_applied,
    lemma_all_applied_keys, override_error_matches, overrides_model, Override};
use crate::registry::Registry;
use crate::BuildError;

verus! {

/// The position of `k` in `ord`, where `k` occurs in `ord`.
pub open spec fn pos_in(ord: Seq<Seq<char>>, k: Seq<char>) -> int {
    choose|a: int| 0 <= a < ord.len() && ord[a] == k
}

proof fn lemma_pos_in(ord: Seq<Seq<char>>, k: Seq<char>)
    requires
        exists|a: int| 0 <= a < ord.len() && ord[a] == k,
    ensures
        0 <= pos_in(ord, k) < ord.len(),
        ord[pos_in(ord, k)] == k,
{
}

proof fn lemma_bound_key_in_order(ms: Seq<EntryM>, ord: Seq<Seq<char>>, k: Seq<char>)
    requires
        is_construction_order(ms, ord),
        contains_key(ms, k),
    ensures
        exists|a: int| 0 <= a < ord.len() && ord[a] == k,
{
    lemma_find_key(ms, k);
    let fk = find_key(ms, k);
    assert(ms[fk].0 == k);
    assert(in_list(ord, ms[fk].0));
}

/// Along a dependency edge, the position in a construction order strictly
/// decreases: the dependency stands earlier than its dependent.
proof fn lemma_edge_pos_decreases(ms: Seq<EntryM>, ord: Seq<Seq<char>>, a: Seq<char>, b: Seq<char>)
    requires
        is_construction_order(ms, ord),
        dep_edge(ms, a, b),
    ensures
        exists|x: int| 0 <= x < ord.len() && ord[x] == a,
        exists|x: int| 0 <= x < ord.len() && ord[x] == b,
        pos_in(ord, b) < pos_in(ord, a),
{
    lemma_bound_key_in_order(ms, ord, a);
    lemma_pos_in(ord, a);
    let ia = pos_in(ord, a);
    let j = choose|j: int|
        0 <= j < descriptor_of(ms, a).deps.len() && descriptor_of(ms, a).deps[j] == b;
    assert(ord[ia] == a);
    assert(before_in(ord, ia, descriptor_of(ms, ord[ia]).deps[j]));
    let ib = choose|x: int| 0 <= x < ia && ord[x] == descriptor_of(ms, ord[ia]).deps[j];
    assert(0 <= ib < ia && ord[ib] == b);
    lemma_pos_in(ord, b);
    let ib2 = pos_in(ord, b);
    if ib2 != ib {
        assert(ord[ib2] == ord[ib]);
        assert(false);
    }
}

proof fn lemma_cycle_descends(ms: Seq<EntryM>, ord: Seq<Seq<char>>, p: Seq<Seq<char>>, i: int)
    requires
        is_construction_order(ms, ord),
        is_cycle(ms, p),
        0 <= i < p.len(),
    ensures
        exists|x: int| 0 <= x < ord.len() && ord[x] == p[i],
        pos_in(ord, p[0]) >= pos_in(ord, p[i]) + i,
    decreases i,
{
    if i == 0 {
        assert(dep_edge(ms, p[0], p[1]));
        lemma_bound_key_in_order(ms, ord, p[0]);
    } else {
        lemma_cycle_descends(ms, ord, p, i - 1);
        assert(dep_edge(ms, p[i - 1], p[i]));
        lemma_edge_pos_decreases(ms, ord, p[i - 1], p[i]);
    }
}

/// A registry that admits a construction order has no dependency cycle:
/// along a cycle the position in the order would decrease forever.
pub proof fn lemma_order_excludes_cycle(ms: Seq<EntryM>, ord: Seq<Seq<char>>, p: Seq<Seq<char>>)
    requires
        is_construction_order(ms, ord),
    ensures
        !is_cycle(ms, p),
{
    if is_cycle(ms, p) {
        lemma_cycle_descends(ms, ord, p, p.len() - 1);
        assert(p[p.len() - 1] == p[0]);
        lemma_pos_in(ord, p[0]);
    }
}

/// An acyclic registry has no dependency cycle.
pub proof fn lemma_acyclic_excludes_cycle(ms: Seq<EntryM>, p: Seq<Seq<char>>)
    requires
        acyclic(ms),
    ensures
        !is_cycle(ms, p),
{
    let ord = choose|ord: Seq<Seq<char>>| is_construction_order(ms, ord);
    lemma_order_excludes_cycle(ms, ord, p);
}

/// A registry with a dependency cycle admits no construction order.
pub proof fn lemma_cycle_excludes_order(ms: Seq<EntryM>, p: Seq<Seq<char>>)
    requires
        is_cycle(ms, p),
    ensures
        !acyclic(ms),
{
    if acyclic(ms) {
        lemma_acyclic_excludes_cycle(ms, p);
    }
}

/// The keys of `ss`, as character sequences.
pub open spec fn key_model(ss: Seq<String>) -> Seq<Seq<char>> {
    Seq::new(ss.len(), |i: int| ss[i]@)
}

/// How many elements of `s` are true.
pub open spec fn count_true(s: Seq<bool>) -> nat
    decreases s.len(),
{
    if s.len() == 0 {
        0
    } else {
        (if s[0] {
            1nat
        } else {
            0
        }) + count_true(s.drop_first())
    }
}

proof fn lemma_count_true_le(s: Seq<bool>)
    ensures
        count_true(s) <= s.len(),
    decreases s.len(),
{
    if s.len() > 0 {
        lemma_count_true_le(s.drop_first());
    }
}

proof fn lemma_count_true_full(s: Seq<bool>)
    requires
        count_true(s) == s.len(),
    ensures
        forall|i: int| 0 <= i < s.len() ==> s[i],
    decreases s.len(),
{
    if s.len() > 0 {
        lemma_count_true_le(s.drop_first());
        lemma_count_true_full(s.drop_first());
        assert forall|i: int| 0 <= i < s.len() implies s[i] by {
            if i > 0 {
                assert(s.drop_first()[i - 1]);
            }
        }
    }
}

proof fn lemma_count_true_update(s: Seq<bool>, i: int)
    requires
        0 <= i < s.len(),
        !s[i],
    ensures
        count_true(s.update(i, true)) == count_true(s) + 1,
    decreases s.len(),
{
    let s2 = s.update(i, true);
    if i == 0 {
        assert(s2.drop_first() =~= s.drop_first());
    } else {
        assert(s2[0] == s[0]);
        assert(s2.drop_first() =~= s.drop_first().update(i - 1, true));
        lemma_count_true_update(s.drop_first(), i - 1);
    }
}

proof fn lemma_count_true_push(s: Seq<bool>, b: bool)
    ensures
        count_true(s.push(b)) == count_true(s) + (if b {
            1nat
        } else {
            0
        }),
    decreases s.len(),
{
    if s.len() == 0 {
        assert(s.push(b).drop_first() =~= s);
    } else {
        assert(s.push(b)[0] == s[0]);
        assert(s.push(b).drop_first() =~= s.drop_first().push(b));
        lemma_count_true_push(s.drop_first(), b);
    }
}

/// Whether some entry marked in `done` is bound to `k`.
pub open spec fn done_key(ms: Seq<EntryM>, done: Seq<bool>, k: Seq<char>) -> bool {
    exists|t: int| 0 <= t < ms.len() && done[t] && ms[t].0 == k
}

/// Whether `key` occurs among `keys`.
#[verifier::loop_isolation(false)]
fn key_in(keys: &Vec<String>, key: &String) -> (b: bool)
    ensures
        b == in_list(key_model(keys@), key@),
{
    let n = keys.len();
    let mut i: usize = 0;
    while i < n
        invariant
            forall|a: int| 0 <= a < i ==> key_model(keys@)[a] != key@,
        decreases n - i,
    {
        if keys[i] == *key {
            proof {
                assert(key_model(keys@)[i as int] == key@);
            }
            return true;
        }
        i += 1;
    }
    false
}

/// Checks that every dependency key of every binding is itself bound.
/// On failure, names a binding and the unbound key its descriptor declares.
#[verifier::loop_isolation(false)]
pub fn validate_deps(entries: &Vec<(String, Descriptor)>) -> (r: Result<(), BuildError>)
    requires
        keys_distinct(reg_model(entries@)),
    ensures
        ({
            let ms = reg_model(entries@);
            match r {
                Ok(()) => deps_complete(ms),
                Err(e) => {
                    &&& !deps_complete(ms)
                    &&& e matches BuildError::MissingDependency { key, dependency }
                        && dep_edge(ms, key@, dependency@) && !contains_key(ms, dependency@)
                },
            }
        }),
{
    let ghost ms = reg_model(entries@);
    let n = entries.len();
    let mut i: usize = 0;
    while i < n
        invariant
            forall|t: int, j: int|
                0 <= t < i && 0 <= j < ms[t].1.deps.len() ==> contains_key(
                    ms,
                    #[trigger] ms[t].1.deps[j],
                ),
        decreases n - i,
    {
        let dn = entries[i].1.deps.len();
        let mut j: usize = 0;
        while j < dn
            invariant
                forall|t: int| 0 <= t < j ==> contains_key(ms, #[trigger] ms[i as int].1.deps[t]),
            decreases dn - j,
        {
            let dep = &entries[i].1.deps[j];
            proof {
                assert(ms[i as int].1.deps[j as int] == dep@);
            }
            let di = find_entry(entries, dep);
            if di == entries.len() {
                proof {
                    lemma_find_key(ms, ms[i as int].0);
                    let fk = find_key(ms, ms[i as int].0);
                    assert(ms[fk].0 == ms[i as int].0);
                    if fk != i as int {
                        assert(false);
                    }
                    assert(descriptor_of(ms, ms[i as int].0).deps[j as int] == dep@);
                    assert(dep_edge(ms, ms[i as int].0, dep@));
                    assert(ms[i as int].0 == entries@[i as int].0@);
                }
                return Err(BuildError::MissingDependency {
                    key: entries[i].0.clone(),
                    dependency: dep.clone(),
                });
            }
            j += 1;
        }
        i += 1;
    }
    Ok(())
}

/// Checks that every parameter of every binding has a value. On failure,
/// names a binding and a parameter that has none.
#[verifier::loop_isolation(false)]
pub fn validate_params(entries: &Vec<(String, Descriptor)>) -> (r: Result<(), BuildError>)
    requires
        keys_distinct(reg_model(entries@)),
    ensures
        ({
            let ms = reg_model(entries@);
            match r {
                Ok(()) => params_complete(ms),
                Err(e) => {
                    &&& !params_complete(ms)
                    &&& e matches BuildError::MissingParameter { key, name } && contains_key(
                        ms,
                        key@,
                    ) && exists|t: int|
                        0 <= t < descriptor_of(ms, key@).params.len() && descriptor_of(
                            ms,
                            key@,
                        ).params[t].name == name@ && descriptor_of(ms, key@).params[t].value
                            is None
                },
            }
        }),
{
    let ghost ms = reg_model(entries@);
    let n = entries.len();
    let mut i: usize = 0;
    while i < n
        invariant
            forall|t: int, j: int|
                0 <= t < i && 0 <= j < ms[t].1.params.len() ==> (#[trigger] ms[t].1.params[j].value)
                    is Some,
        decreases n - i,
    {
        let pn = entries[i].1.params.len();
        let mut j: usize = 0;
        while j < pn
            invariant
                forall|t: int|
                    0 <= t < j ==> (#[trigger] ms[i as int].1.params[t].value) is Some,
            decreases pn - j,
        {
            if entries[i].1.params[j].value.is_none() {
                let key = entries[i].0.clone();
                let name = entries[i].1.params[j].name.clone();
                proof {
                    lemma_find_key(ms, key@);
                    let fk = find_key(ms, key@);
                    assert(ms[i as int].0 == key@);
                    assert(fk >= 0);
                    assert(ms[fk].0 == key@);
                    if fk != i as int {
                        assert(false);
                    }
                    assert(ms[i as int].1.params[j as int].name == name@);
                    assert(ms[i as int].1.params[j as int].value is None);
                }
                return Err(BuildError::MissingParameter { key, name });
            }
            j += 1;
        }
        i += 1;
    }
    Ok(())
}

/// Whether every dependency in `deps` is already placed in `ord`.
#[verifier::loop_isolation(false)]
fn deps_placed(deps: &Vec<String>, ord: &Vec<String>) -> (b: bool)
    ensures
        b == forall|j: int| 0 <= j < deps@.len() ==> in_list(key_model(ord@), (#[trigger] deps@[j])@),
{
    let n = deps.len();
    let mut j: usize = 0;
    while j < n
        invariant
            forall|t: int| 0 <= t < j ==> in_list(key_model(ord@), (#[trigger] deps@[t])@),
        decreases n - j,
    {
        if !key_in(ord, &deps[j]) {
            return false;
        }
        j += 1;
    }
    true
}

/// Finds a dependency of the binding at `ti` that is not placed in `ord`.
#[verifier::loop_isolation(false)]
fn find_unplaced_dep(entries: &Vec<(String, Descriptor)>, ord: &Vec<String>, ti: usize) -> (j:
    usize)
    requires
        ti < entries@.len(),
        exists|j: int|
            0 <= j < reg_model(entries@)[ti as int].1.deps.len() && !in_list(
                key_model(ord@),
                #[trigger] reg_model(entries@)[ti as int].1.deps[j],
            ),
    ensures
        j < reg_model(entries@)[ti as int].1.deps.len(),
        !in_list(key_model(ord@), reg_model(entries@)[ti as int].1.deps[j as int]),
{
    let ghost ms = reg_model(entries@);
    let dn = entries[ti].1.deps.len();
    let mut j: usize = 0;
    while j < dn
        invariant
            forall|t: int| 0 <= t < j ==> in_list(key_model(ord@), #[trigger] ms[ti as int].1.deps[t]),
        decreases dn - j,
    {
        if !key_in(ord, &entries[ti].1.deps[j]) {
            proof {
                assert(ms[ti as int].1.deps[j as int] == entries@[ti as int].1.deps@[j as int]@);
            }
            return j;
        }
        j += 1;
    }
    proof {
        assert(false);
    }
    0
}

/// Walks unplaced dependencies from an unplaced binding until a key
/// repeats, and returns the repeating stretch: a dependency cycle.
#[verifier::loop_isolation(false)]
#[verifier::rlimit(80)]
fn extract_cycle(entries: &Vec<(String, Descriptor)>, ord: &Vec<String>, done: &Vec<bool>) -> (p:
    Vec<String>)
    requires
        keys_distinct(reg_model(entries@)),
        deps_complete(reg_model(entries@)),
        done@.len() == reg_model(entries@).len(),
        exists|t: int| 0 <= t < done@.len() && !done@[t],
        forall|t: int|
            0 <= t < done@.len() && done@[t] ==> in_list(
                key_model(ord@),
                #[trigger] reg_model(entries@)[t].0,
            ),
        forall|t: int|
            0 <= t < done@.len() && !done@[t] ==> exists|j: int|
                0 <= j < reg_model(entries@)[t].1.deps.len() && !in_list(
                    key_model(ord@),
                    #[trigger] reg_model(entries@)[t].1.deps[j],
                ),
    ensures
        is_cycle(reg_model(entries@), key_model(p@)),
        cycle_nodes_distinct(key_model(p@)),
{
    let ghost ms = reg_model(entries@);
    let n = entries.len();
    let mut start: usize = 0;
    while start < n && done[start]
        invariant
            start <= n,
            forall|t: int| 0 <= t < start ==> done@[t],
        decreases n - start,
    {
        start += 1;
    }
    proof {
        if start == n {
            assert(false);
        }
    }
    let mut visited: Vec<bool> = Vec::new();
    while visited.len() < n
        invariant
            visited@.len() <= n,
            count_true(visited@) == 0,
            forall|t: int| 0 <= t < visited@.len() ==> !visited@[t],
        decreases n - visited.len(),
    {
        proof {
            lemma_count_true_push(visited@, false);
        }
        visited.push(false);
    }
    let mut path: Vec<String> = Vec::new();
    path.push(entries[start].0.clone());
    let ghost v0 = visited@;
    visited.set(start, true);
    proof {
        lemma_count_true_update(v0, start as int);
        assert(key_model(path@)[0] == ms[start as int].0);
        assert forall|t: int| 0 <= t < n implies (visited@[t] <==> in_list(
            key_model(path@),
            ms[t].0,
        )) by {
            if visited@[t] {
                assert(t == start as int);
                assert(key_model(path@)[0] == ms[t].0);
            }
            if in_list(key_model(path@), ms[t].0) {
                let a = choose|a: int| 0 <= a < 1 && key_model(path@)[a] == ms[t].0;
                assert(ms[t].0 == ms[start as int].0);
                if t != start as int {
                    assert(false);
                }
            }
        }
    }
    loop
        invariant
            visited@.len() == n,
            ms.len() == n,
            1 <= path@.len() <= n,
            count_true(visited@) == path@.len(),
            forall|a: int|
                0 <= a < path@.len() ==> exists|t: int|
                    0 <= t < n && !done@[t] && ms[t].0 == (#[trigger] key_model(path@)[a]),
            forall|t: int| 0 <= t < n ==> (visited@[t] <==> in_list(key_model(path@), ms[t].0)),
            forall|a: int|
                0 <= a < path@.len() - 1 ==> dep_edge(
                    ms,
                    #[trigger] key_model(path@)[a],
                    key_model(path@)[a + 1],
                ),
            forall|a: int, b: int|
                0 <= a < b < path@.len() ==> key_model(path@)[a] != key_model(path@)[b],
        decreases n - path@.len(),
    {
        let ghost path0 = path@;
        let last = path[path.len() - 1].clone();
        proof {
            assert(key_model(path@)[path@.len() - 1] == last@);
            lemma_find_key(ms, last@);
        }
        let ti = find_entry(entries, &last);
        proof {
            let w = choose|t: int|
                0 <= t < n && !done@[t] && ms[t].0 == key_model(path@)[path@.len() - 1];
            assert(ms[w].0 == last@);
            assert(ti < n);
            assert(ms[ti as int].0 == last@);
            if w != ti as int {
                assert(false);
            }
            assert(!done@[ti as int]);
        }
        let j = find_unplaced_dep(entries, ord, ti);
        let d = entries[ti].1.deps[j].clone();
        proof {
            assert(ms[ti as int].1.deps[j as int] == d@);
            assert(contains_key(ms, ms[ti as int].1.deps[j as int]));
            assert(dep_edge(ms, last@, d@)) by {
                assert(find_key(ms, last@) == ti as int);
                assert(descriptor_of(ms, last@).deps[j as int] == d@);
            }
        }
        let pl = path.len();
        let mut a: usize = 0;
        while a < pl
            invariant
                forall|u: int| 0 <= u < a ==> key_model(path@)[u] != d@,
            decreases pl - a,
        {
            if path[a] == d {
                proof {
                    assert(key_model(path@)[a as int] == d@);
                }
                let mut cyc: Vec<String> = Vec::new();
                let mut b: usize = a;
                while b < pl
                    invariant
                        a <= b <= pl,
                        cyc@.len() == b - a,
                        forall|u: int|
                            0 <= u < cyc@.len() ==> key_model(cyc@)[u] == key_model(path@)[a + u],
                    decreases pl - b,
                {
                    let ghost cp = cyc@;
                    cyc.push(path[b].clone());
                    proof {
                        assert forall|u: int| 0 <= u < cyc@.len() implies key_model(cyc@)[u]
                            == key_model(path@)[a + u] by {
                            if u < cyc@.len() - 1 {
                                assert(cyc@[u] == cp[u]);
                                assert(key_model(cp)[u] == key_model(path@)[a + u]);
                            } else {
                                assert(cyc@[u]@ == path@[b as int]@);
                            }
                        }
                    }
                    b += 1;
                }
                let ghost cyc0 = cyc@;
                cyc.push(d);
                proof {
                    let cm = key_model(cyc@);
                    let pm = key_model(path@);
                    assert(cm.len() == pl - a + 1);
                    assert forall|u: int| 0 <= u < cm.len() - 1 implies cm[u] == pm[a + u] by {
                        assert(cyc@[u] == cyc0[u]);
                        assert(key_model(cyc0)[u] == pm[a + u]);
                    }
                    assert(cm[cm.len() - 1] == d@);
                    assert(cm[0] == pm[a as int]);
                    assert(cm[0] == cm[cm.len() - 1]);
                    assert forall|u: int| 0 <= u < cm.len() - 1 implies dep_edge(
                        ms,
                        #[trigger] cm[u],
                        cm[u + 1],
                    ) by {
                        if u < cm.len() - 2 {
                            assert(cm[u] == pm[a + u]);
                            assert(cm[u + 1] == pm[a + u + 1]);
                            assert(dep_edge(ms, pm[a + u], pm[a + u + 1]));
                        } else {
                            assert(cm[u] == pm[pl - 1]);
                            assert(cm[u + 1] == d@);
                            assert(pm[pl - 1] == last@);
                        }
                    }
                }
                return cyc;
            }
            a += 1;
        }
        let di = find_entry(entries, &d);
        proof {
            assert(contains_key(ms, ms[ti as int].1.deps[j as int]));
            assert(contains_key(ms, d@));
            assert(di < n);
            lemma_find_key(ms, d@);
            assert(di as int == find_key(ms, d@));
            assert(ms[di as int].0 == d@);
            assert(!in_list(key_model(path@), ms[di as int].0));
            assert(!visited@[di as int]);
            if done[di as int] {
                assert(in_list(key_model(ord@), ms[di as int].0));
                assert(false);
            }
            if path@.len() == n {
                lemma_count_true_full(visited@);
                assert(false);
            }
            lemma_count_true_update(visited@, di as int);
        }
        path.push(d);
        visited.set(di, true);
        proof {
            assert(key_model(path@) =~= key_model(path0).push(ms[di as int].0));
            assert forall|t: int| 0 <= t < n implies (visited@[t] <==> in_list(
                key_model(path@),
                ms[t].0,
            )) by {
                if visited@[t] {
                    if t == di as int {
                        assert(key_model(path@)[path@.len() - 1] == ms[t].0);
                    } else {
                        let a2 = choose|a2: int|
                            0 <= a2 < path0.len() && key_model(path0)[a2] == ms[t].0;
                        assert(key_model(path@)[a2] == ms[t].0);
                    }
                }
                if in_list(key_model(path@), ms[t].0) && !visited@[t] {
                    let a2 = choose|a2: int|
                        0 <= a2 < path@.len() && key_model(path@)[a2] == ms[t].0;
                    assert(t != di as int);
                    if a2 == path@.len() - 1 {
                        assert(ms[t].0 == ms[di as int].0);
                        assert(false);
                    } else {
                        assert(key_model(path0)[a2] == ms[t].0);
                        assert(false);
                    }
                }
            }
        }
    }
}

proof fn lemma_not_all_true(s: Seq<bool>)
    requires
        count_true(s) < s.len(),
    ensures
        exists|t: int| 0 <= t < s.len() && !s[t],
    decreases s.len(),
{
    if s[0] {
        lemma_not_all_true(s.drop_first());
        let t = choose|t: int| 0 <= t < s.drop_first().len() && !s.drop_first()[t];
        assert(!s[t + 1]);
    } else {
        assert(!s[0]);
    }
}

/// Computes a construction order: repeatedly places, in registration
/// order, a binding whose dependencies are all placed. Where no further
/// binding can be placed, the unplaced bindings wind a dependency cycle,
/// which is extracted and returned as the error.
#[verifier::loop_isolation(false)]
#[verifier::rlimit(80)]
pub fn construction_order(entries: &Vec<(String, Descriptor)>) -> (r: Result<
    Vec<String>,
    Vec<String>,
>)
    requires
        keys_distinct(reg_model(entries@)),
        deps_complete(reg_model(entries@)),
    ensures
        ({
            let ms = reg_model(entries@);
            match r {
                Ok(ord) => is_construction_order(ms, key_model(ord@)),
                Err(p) => is_cycle(ms, key_model(p@)) && cycle_nodes_distinct(key_model(p@)),
            }
        }),
{
    let ghost ms = reg_model(entries@);
    let n = entries.len();
    let mut done: Vec<bool> = Vec::new();
    while done.len() < n
        invariant
            done@.len() <= n,
            count_true(done@) == 0,
            forall|t: int| 0 <= t < done@.len() ==> !done@[t],
        decreases n - done.len(),
    {
        proof {
            lemma_count_true_push(done@, false);
        }
        done.push(false);
    }
    let mut ord: Vec<String> = Vec::new();
    loop
        invariant
            done@.len() == n,
            ms.len() == n,
            ord@.len() <= n,
            count_true(done@) == ord@.len(),
            forall|t: int| 0 <= t < n && done@[t] ==> in_list(key_model(ord@), #[trigger] ms[t].0),
            forall|a: int|
                0 <= a < ord@.len() ==> done_key(ms, done@, #[trigger] key_model(ord@)[a]),
            forall|a: int, b: int|
                0 <= a < b < ord@.len() ==> key_model(ord@)[a] != key_model(ord@)[b],
            forall|a: int, j: int|
                0 <= a < ord@.len() && 0 <= j < descriptor_of(ms, key_model(ord@)[a]).deps.len()
                    ==> before_in(key_model(ord@), a, #[trigger] descriptor_of(
                    ms,
                    key_model(ord@)[a],
                ).deps[j]),
        decreases n - ord@.len(),
    {
        let ghost len0 = ord@.len();
        let mut progressed = false;
        let mut i: usize = 0;
        while i < n
            invariant
                i <= n,
                done@.len() == n,
                ord@.len() <= n,
                count_true(done@) == ord@.len(),
                progressed ==> ord@.len() > len0,
                !progressed ==> ord@.len() == len0,
                forall|t: int|
                    0 <= t < n && done@[t] ==> in_list(key_model(ord@), #[trigger] ms[t].0),
                forall|a: int|
                    0 <= a < ord@.len() ==> done_key(ms, done@, #[trigger] key_model(ord@)[a]),
                forall|a: int, b: int|
                    0 <= a < b < ord@.len() ==> key_model(ord@)[a] != key_model(ord@)[b],
                forall|a: int, j: int|
                    0 <= a < ord@.len() && 0 <= j < descriptor_of(
                        ms,
                        key_model(ord@)[a],
                    ).deps.len() ==> before_in(key_model(ord@), a, #[trigger] descriptor_of(
                        ms,
                        key_model(ord@)[a],
                    ).deps[j]),
                !progressed ==> forall|t: int|
                    0 <= t < i && !done@[t] ==> exists|j: int|
                        0 <= j < ms[t].1.deps.len() && !in_list(
                            key_model(ord@),
                            #[trigger] ms[t].1.deps[j],
                        ),
            decreases n - i,
        {
            if !done[i] {
                let placeable = deps_placed(&entries[i].1.deps, &ord);
                if !placeable {
                    proof {
                        let j = choose|j: int|
                            0 <= j < entries@[i as int].1.deps@.len() && !in_list(
                                key_model(ord@),
                                entries@[i as int].1.deps@[j]@,
                            );
                        assert(ms[i as int].1.deps[j] == entries@[i as int].1.deps@[j]@);
                        assert(0 <= j < ms[i as int].1.deps.len() && !in_list(
                            key_model(ord@),
                            ms[i as int].1.deps[j],
                        ));
                    }
                }
                if placeable {
                    proof {
                        lemma_find_key(ms, ms[i as int].0);
                        if find_key(ms, ms[i as int].0) != i as int {
                            assert(false);
                        }
                    }
                    let ghost ord0 = ord@;
                    let ghost done0 = done@;
                    ord.push(entries[i].0.clone());
                    done.set(i, true);
                    progressed = true;
                    proof {
                        lemma_count_true_update(done0, i as int);
                        lemma_count_true_le(done@);
                        assert(key_model(ord@) =~= key_model(ord0).push(ms[i as int].0));
                        assert forall|a: int|
                            0 <= a < ord0.len() implies key_model(ord0)[a] != ms[i as int].0 by {
                            if key_model(ord0)[a] == ms[i as int].0 {
                                assert(done_key(ms, done0, key_model(ord0)[a]));
                                let t = choose|t: int|
                                    0 <= t < n && done0[t] && ms[t].0 == key_model(ord0)[a];
                                if t != i as int {
                                    assert(false);
                                }
                                assert(false);
                            }
                        }
                        assert forall|t: int|
                            0 <= t < n && done@[t] implies in_list(key_model(ord@), #[trigger] ms[t].0) by {
                            if t == i as int {
                                assert(key_model(ord@)[ord@.len() - 1] == ms[t].0);
                            } else {
                                assert(done0[t]);
                                let a = choose|a: int|
                                    0 <= a < ord0.len() && key_model(ord0)[a] == ms[t].0;
                                assert(key_model(ord@)[a] == ms[t].0);
                            }
                        }
                        assert forall|a: int|
                            0 <= a < ord@.len() implies done_key(
                            ms,
                            done@,
                            #[trigger] key_model(ord@)[a],
                        ) by {
                            if a < ord0.len() {
                                assert(done_key(ms, done0, key_model(ord0)[a]));
                                let t = choose|t: int|
                                    0 <= t < n && done0[t] && ms[t].0 == key_model(ord0)[a];
                                assert(done@[t] && ms[t].0 == key_model(ord@)[a]);
                            } else {
                                assert(done@[i as int] && ms[i as int].0 == key_model(ord@)[a]);
                            }
                        }
                        assert forall|a: int, j: int|
                            0 <= a < ord@.len() && 0 <= j < descriptor_of(
                                ms,
                                key_model(ord@)[a],
                            ).deps.len() implies before_in(
                            key_model(ord@),
                            a,
                            #[trigger] descriptor_of(ms, key_model(ord@)[a]).deps[j],
                        ) by {
                            if a < ord0.len() {
                                assert(key_model(ord@)[a] == key_model(ord0)[a]);
                                assert(before_in(
                                    key_model(ord0),
                                    a,
                                    descriptor_of(ms, key_model(ord0)[a]).deps[j],
                                ));
                                let b = choose|b: int|
                                    0 <= b < a && key_model(ord0)[b] == descriptor_of(
                                        ms,
                                        key_model(ord0)[a],
                                    ).deps[j];
                                assert(key_model(ord@)[b] == descriptor_of(
                                    ms,
                                    key_model(ord@)[a],
                                ).deps[j]);
                            } else {
                                assert(key_model(ord@)[a] == ms[i as int].0);
                                assert(descriptor_of(ms, ms[i as int].0) == ms[i as int].1);
                                assert(ms[i as int].1.deps[j] == entries@[i as int].1.deps@[j]@);
                                assert(in_list(key_model(ord0), ms[i as int].1.deps[j]));
                                let b = choose|b: int|
                                    0 <= b < ord0.len() && key_model(ord0)[b] == ms[i as int].1.deps[j];
                                assert(key_model(ord@)[b] == ms[i as int].1.deps[j]);
                            }
                        }
                    }
                }
            }
            i += 1;
        }
        if ord.len() == n {
            proof {
                lemma_count_true_full(done@);
                assert forall|i2: int| 0 <= i2 < ms.len() implies exists|a: int|
                    0 <= a < key_model(ord@).len() && key_model(ord@)[a] == (#[trigger] ms[i2].0) by {
                    assert(done@[i2]);
                    assert(in_list(key_model(ord@), ms[i2].0));
                }
                assert forall|a: int| 0 <= a < key_model(ord@).len() implies contains_key(
                    ms,
                    #[trigger] key_model(ord@)[a],
                ) by {
                    assert(done_key(ms, done@, key_model(ord@)[a]));
                    let t = choose|t: int|
                        0 <= t < n && done@[t] && ms[t].0 == key_model(ord@)[a];
                    lemma_find_key(ms, ms[t].0);
                }
                assert forall|a: int, j: int|
                    0 <= a < key_model(ord@).len() && 0 <= j < descriptor_of(
                        ms,
                        key_model(ord@)[a],
                    ).deps.len() implies exists|b: int|
                    0 <= b < a && key_model(ord@)[b] == (#[trigger] descriptor_of(
                        ms,
                        key_model(ord@)[a],
                    ).deps[j]) by {
                    assert(before_in(
                        key_model(ord@),
                        a,
                        descriptor_of(ms, key_model(ord@)[a]).deps[j],
                    ));
                    let b = choose|b: int|
                        0 <= b < a && key_model(ord@)[b] == descriptor_of(
                            ms,
                            key_model(ord@)[a],
                        ).deps[j];
                    assert(0 <= b < a && key_model(ord@)[b] == descriptor_of(
                        ms,
                        key_model(ord@)[a],
                    ).deps[j]);
                }
                let ghost om2 = key_model(ord@);
                assert(om2.len() == ms.len());
                assert forall|i2: int|
                    0 <= i2 < ms.len() implies exists|a: int|
                    0 <= a < om2.len() && om2[a] == (#[trigger] ms[i2].0) by {
                    assert(in_list(om2, ms[i2].0));
                    let a = choose|a: int| 0 <= a < om2.len() && om2[a] == ms[i2].0;
                    assert(0 <= a < om2.len() && om2[a] == ms[i2].0);
                }
                assert forall|a: int, j: int|
                    0 <= a < om2.len() && 0 <= j < descriptor_of(ms, om2[a]).deps.len() implies exists|b: int|
                    0 <= b < a && om2[b] == (#[trigger] descriptor_of(ms, om2[a]).deps[j]) by {
                    assert(before_in(om2, a, descriptor_of(ms, om2[a]).deps[j]));
                    let b = choose|b: int|
                        0 <= b < a && om2[b] == descriptor_of(ms, om2[a]).deps[j];
                    assert(0 <= b < a && om2[b] == descriptor_of(ms, om2[a]).deps[j]);
                }
                assert(is_construction_order(ms, om2));
            }
            return Ok(ord);
        }
        if !progressed {
            proof {
                lemma_not_all_true(done@);
            }
            let p = extract_cycle(entries, &ord, &done);
            return Err(p);
        }
    }
}

/// Finds the position of the stored instance for `key`.
#[verifier::loop_isolation(false)]
fn find_built(sg: &Vec<Instance>, key: &String) -> (r: usize)
    requires
        has_inst(sg@, key@),
    ensures
        r < sg@.len(),
        r as int == find_inst(sg@, key@),
{
    proof {
        lemma_find_inst(sg@, key@);
    }
    let n = sg.len();
    let mut i: usize = 0;
    while i < n
        invariant
            forall|t: int| 0 <= t < i ==> sg@[t].key@ != key@,
        decreases n - i,
    {
        if sg[i].key == *key {
            return i;
        }
        i += 1;
    }
    proof {
        assert(false);
    }
    0
}

proof fn lemma_dep_ref_ok_push(
    ms: Seq<EntryM>,
    sg: Seq<Instance>,
    x: Instance,
    dk: Seq<char>,
    dr: DepRef,
)
    requires
        dep_ref_ok(ms, sg, dk, dr),
    ensures
        dep_ref_ok(ms, sg.push(x), dk, dr),
{
    match dr {
        DepRef::Shared(id) => {
            lemma_find_inst(sg, dk);
            lemma_find_inst_push(sg, x, dk);
            assert(sg.push(x)[find_inst(sg, dk)] == sg[find_inst(sg, dk)]);
        },
        _ => {},
    }
}

proof fn lemma_singleton_insts_push(ms: Seq<EntryM>, sg: Seq<Instance>, x: Instance)
    requires
        forall|s: int| 0 <= s < sg.len() ==> singleton_inst_ok(ms, sg, #[trigger] sg[s]),
        singleton_inst_ok(ms, sg, x),
    ensures
        forall|s: int|
            0 <= s < sg.push(x).len() ==> singleton_inst_ok(ms, sg.push(x), #[trigger] sg.push(
                x,
            )[s]),
{
    assert forall|s: int| 0 <= s < sg.push(x).len() implies singleton_inst_ok(
        ms,
        sg.push(x),
        #[trigger] sg.push(x)[s],
    ) by {
        let y = if s < sg.len() {
            sg[s]
        } else {
            x
        };
        assert(sg.push(x)[s] == y);
        assert(singleton_inst_ok(ms, sg, y));
        assert forall|v: int| 0 <= v < y.deps@.len() implies dep_ref_ok(
            ms,
            sg.push(x),
            descriptor_of(ms, y.key@).deps[v],
            #[trigger] y.deps@[v],
        ) by {
            assert(dep_ref_ok(ms, sg, descriptor_of(ms, y.key@).deps[v], y.deps@[v]));
            lemma_dep_ref_ok_push(ms, sg, x, descriptor_of(ms, y.key@).deps[v], y.deps@[v]);
        }
    }
}

/// Constructs the singleton instance for the binding of `k`: parameter
/// values from the (validated) recipe, already-built singleton
/// dependencies by shared reference, transient dependencies as deferred
/// handles — no provider is invoked. A failing constructor surfaces
/// `ComponentConstructionFailed`.
#[verifier::loop_isolation(false)]
fn construct_one(entries: &Vec<(String, Descriptor)>, k: &String, sg: &Vec<Instance>, id: u64) -> (r:
    Result<Instance, BuildError>)
    requires
        keys_distinct(reg_model(entries@)),
        deps_complete(reg_model(entries@)),
        params_complete(reg_model(entries@)),
        contains_key(reg_model(entries@), k@),
        descriptor_of(reg_model(entries@), k@).lifecycle is Singleton,
        forall|j: int|
            0 <= j < descriptor_of(reg_model(entries@), k@).deps.len() && descriptor_of(
                reg_model(entries@),
                (#[trigger] descriptor_of(reg_model(entries@), k@).deps[j]),
            ).lifecycle is Singleton ==> has_inst(
                sg@,
                descriptor_of(reg_model(entries@), k@).deps[j],
            ),
    ensures
        match r {
            Ok(inst) => singleton_inst_ok(reg_model(entries@), sg@, inst) && inst.id == id
                && inst.key@ == k@ && descriptor_of(reg_model(entries@), k@).failure is None,
            Err(e) => e matches BuildError::ComponentConstructionFailed { key, cause } && key@
                == k@ && descriptor_of(reg_model(entries@), k@).failure == Some(cause@),
        },
{
    let ghost ms = reg_model(entries@);
    proof {
        lemma_find_key(ms, k@);
    }
    let i = find_entry(entries, k);
    proof {
        assert(ms[i as int].1 == descriptor_of(ms, k@));
    }
    if let Some(cause) = &entries[i].1.failure {
        proof {
            assert(descriptor_of(ms, k@).failure == Some(cause@));
        }
        return Err(BuildError::ComponentConstructionFailed {
            key: k.clone(),
            cause: cause.clone(),
        });
    }
    let pn = entries[i].1.params.len();
    let mut params: Vec<(String, String)> = Vec::new();
    let mut t: usize = 0;
    while t < pn
        invariant
            params@.len() == t,
            t <= pn,
            forall|u: int|
                0 <= u < t ==> (#[trigger] params@[u]).0@ == descriptor_of(ms, k@).params[u].name
                    && Some(params@[u].1@) == descriptor_of(ms, k@).params[u].value,
        decreases pn - t,
    {
        let p = &entries[i].1.params[t];
        match &p.value {
            Some(v) => {
                params.push((p.name.clone(), v.clone()));
            },
            None => {
                proof {
                    assert(descriptor_of(ms, k@).params[t as int].value is None);
                    assert(false);
                }
                return Err(BuildError::ComponentConstructionFailed {
                    key: k.clone(),
                    cause: p.name.clone(),
                });
            },
        }
        t += 1;
    }
    let dn = entries[i].1.deps.len();
    let mut drefs: Vec<DepRef> = Vec::new();
    let mut u: usize = 0;
    while u < dn
        invariant
            drefs@.len() == u,
            u <= dn,
            forall|v: int|
                0 <= v < u ==> dep_ref_ok(
                    ms,
                    sg@,
                    descriptor_of(ms, k@).deps[v],
                    #[trigger] drefs@[v],
                ),
        decreases dn - u,
    {
        let dk = &entries[i].1.deps[u];
        proof {
            assert(descriptor_of(ms, k@).deps[u as int] == dk@);
            assert(contains_key(ms, ms[i as int].1.deps[u as int]));
            lemma_find_key(ms, dk@);
        }
        let di = find_entry(entries, dk);
        proof {
            assert(ms[di as int].1 == descriptor_of(ms, dk@));
        }
        match entries[di].1.lifecycle {
            Lifecycle::Singleton => {
                let si = find_built(sg, dk);
                drefs.push(DepRef::Shared(sg[si].id));
            },
            Lifecycle::Transient => {
                drefs.push(DepRef::Deferred(dk.clone()));
            },
        }
        u += 1;
    }
    let inst = Instance {
        id,
        key: k.clone(),
        impl_name: entries[i].1.impl_name.clone(),
        params,
        deps: drefs,
    };
    proof {
        assert(inst_head_matches(ms, k@, inst));
    }
    Ok(inst)
}

/// Eagerly constructs one instance per singleton binding, walking the
/// construction order. A failing singleton constructor aborts the whole
/// construction; transient bindings are passed over, never invoked.
#[verifier::loop_isolation(false)]
#[verifier::rlimit(100)]
fn construct_singletons(entries: &Vec<(String, Descriptor)>, order: &Vec<String>) -> (r: Result<
    Vec<Instance>,
    BuildError,
>)
    requires
        keys_distinct(reg_model(entries@)),
        deps_complete(reg_model(entries@)),
        params_complete(reg_model(entries@)),
        is_construction_order(reg_model(entries@), key_model(order@)),
    ensures
        ({
            let ms = reg_model(entries@);
            match r {
                Ok(sg) => {
                    &&& singletons_ok(ms)
                    &&& forall|s: int|
                        0 <= s < sg@.len() ==> singleton_inst_ok(ms, sg@, #[trigger] sg@[s])
                    &&& forall|s1: int, s2: int|
                        0 <= s1 < s2 < sg@.len() ==> sg@[s1].key@ != sg@[s2].key@
                    &&& forall|s: int| 0 <= s < sg@.len() ==> (#[trigger] sg@[s].id) == s
                    &&& forall|i: int|
                        0 <= i < ms.len() && (#[trigger] ms[i].1.lifecycle) is Singleton
                            ==> has_inst(sg@, ms[i].0)
                    &&& sg@.len() <= ms.len()
                },
                Err(e) => {
                    &&& !singletons_ok(ms)
                    &&& e matches BuildError::ComponentConstructionFailed { key, cause }
                        && contains_key(ms, key@) && descriptor_of(ms, key@).lifecycle is Singleton
                        && descriptor_of(ms, key@).failure == Some(cause@)
                },
            }
        }),
{
    let ghost ms = reg_model(entries@);
    let ghost om = key_model(order@);
    let n = order.len();
    let mut sg: Vec<Instance> = Vec::new();
    let mut a: usize = 0;
    while a < n
        invariant
            a <= n,
            n == om.len(),
            sg@.len() <= a,
            forall|s: int| 0 <= s < sg@.len() ==> singleton_inst_ok(ms, sg@, #[trigger] sg@[s]),
            forall|s1: int, s2: int| 0 <= s1 < s2 < sg@.len() ==> sg@[s1].key@ != sg@[s2].key@,
            forall|s: int| 0 <= s < sg@.len() ==> (#[trigger] sg@[s].id) == s,
            forall|s: int|
                0 <= s < sg@.len() ==> before_in(om, a as int, (#[trigger] sg@[s]).key@),
            forall|b: int|
                0 <= b < a && descriptor_of(ms, #[trigger] om[b]).lifecycle is Singleton
                    ==> has_inst(sg@, om[b]),
            forall|b: int|
                0 <= b < a && descriptor_of(ms, #[trigger] om[b]).lifecycle is Singleton
                    ==> descriptor_of(ms, om[b]).failure is None,
        decreases n - a,
    {
        let k = &order[a];
        proof {
            assert(om[a as int] == k@);
            assert(contains_key(ms, k@));
            lemma_find_key(ms, k@);
        }
        let i = find_entry(entries, k);
        proof {
            assert(ms[i as int].1 == descriptor_of(ms, k@));
        }
        match entries[i].1.lifecycle {
            Lifecycle::Transient => {
                proof {
                    assert(descriptor_of(ms, om[a as int]).lifecycle is Transient);
                }
            },
            Lifecycle::Singleton => {
                proof {
                    assert forall|j: int|
                        0 <= j < descriptor_of(ms, k@).deps.len() && descriptor_of(
                            ms,
                            (#[trigger] descriptor_of(ms, k@).deps[j]),
                        ).lifecycle is Singleton implies has_inst(
                        sg@,
                        descriptor_of(ms, k@).deps[j],
                    ) by {
                        assert(before_in(om, a as int, descriptor_of(ms, om[a as int]).deps[j]));
                        let b = choose|b: int|
                            0 <= b < a && om[b] == descriptor_of(ms, k@).deps[j];
                        assert(descriptor_of(ms, om[b]).lifecycle is Singleton);
                    }
                }
                let id = sg.len() as u64;
                match construct_one(entries, k, &sg, id) {
                    Ok(inst) => {
                        proof {
                            assert forall|s: int|
                                0 <= s < sg@.len() implies sg@[s].key@ != k@ by {
                                assert(before_in(om, a as int, sg@[s].key@));
                                let b = choose|b: int| 0 <= b < a && om[b] == sg@[s].key@;
                                if sg@[s].key@ == k@ {
                                    assert(om[b] == om[a as int]);
                                    assert(false);
                                }
                            }
                        }
                        let ghost sg0 = sg@;
                        sg.push(inst);
                        proof {
                            lemma_singleton_insts_push(ms, sg0, inst);
                            assert forall|b: int|
                                0 <= b < a + 1 && descriptor_of(
                                    ms,
                                    #[trigger] om[b],
                                ).lifecycle is Singleton implies has_inst(sg@, om[b]) by {
                                lemma_find_inst_push(sg0, inst, om[b]);
                                if b < a {
                                    assert(has_inst(sg0, om[b]));
                                } else {
                                    assert(om[b] == inst.key@);
                                }
                            }
                            assert forall|s: int|
                                0 <= s < sg@.len() implies before_in(
                                om,
                                a + 1,
                                (#[trigger] sg@[s]).key@,
                            ) by {
                                if s < sg0.len() {
                                    assert(before_in(om, a as int, sg0[s].key@));
                                    let b = choose|b: int| 0 <= b < a && om[b] == sg0[s].key@;
                                    assert(0 <= b < a + 1 && om[b] == sg@[s].key@);
                                } else {
                                    assert(om[a as int] == sg@[s].key@);
                                }
                            }
                        }
                    },
                    Err(e) => {
                        proof {
                            assert(!((#[trigger] ms[i as int].1.lifecycle) is Singleton
                                ==> ms[i as int].1.failure is None));
                        }
                        return Err(e);
                    },
                }
            },
        }
        a += 1;
    }
    proof {
        assert forall|i: int|
            0 <= i < ms.len() && (#[trigger] ms[i].1.lifecycle) is Singleton implies has_inst(
            sg@,
            ms[i].0,
        ) by {
            assert(in_list(om, ms[i].0));
            let b = choose|b: int| 0 <= b < om.len() && om[b] == ms[i].0;
            lemma_find_key(ms, ms[i].0);
            if find_key(ms, ms[i].0) != i {
                assert(false);
            }
            assert(descriptor_of(ms, om[b]).lifecycle is Singleton);
        }
        assert forall|i: int|
            0 <= i < ms.len() && (#[trigger] ms[i].1.lifecycle) is Singleton implies ms[i].1.failure
            is None by {
            assert(in_list(om, ms[i].0));
            let b = choose|b: int| 0 <= b < om.len() && om[b] == ms[i].0;
            lemma_find_key(ms, ms[i].0);
            if find_key(ms, ms[i].0) != i {
                assert(false);
            }
            assert(descriptor_of(ms, om[b]).failure is None);
        }
    }
    Ok(sg)
}


/// A parameter the build found without a value: the named binding declares
/// the named parameter and no default and no override gave it a value.
pub open spec fn missing_param_err(ms: Seq<EntryM>, e: BuildError) -> bool {
    &&& e matches BuildError::MissingParameter { key, name } && contains_key(ms, key@) && exists|
        t: int,
    |
        0 <= t < descriptor_of(ms, key@).params.len() && (#[trigger] descriptor_of(
            ms,
            key@,
        ).params[t]).name == name@ && descriptor_of(ms, key@).params[t].value is None
}

/// Builds a container: applies the overrides in order, validates that
/// every dependency is bound, computes a construction order (rejecting
/// dependency cycles with the offending path), validates that every
/// parameter has a value, and eagerly constructs one shared instance per
/// singleton binding. Any failure aborts the whole build: no container is
/// returned.
///
/// Cycles through transient bindings are rejected like any other: a
/// provider chain that returns to itself could never finish resolving,
/// even though no provider runs during the build itself.
pub fn build(registry: Registry, overrides: Vec<Override>) -> (r: Result<Container, BuildError>)
    requires
        registry.wf(),
    ensures
        ({
            let m0 = registry@;
            let om = overrides_model(overrides@);
            let ok_ov = first_failing(m0, om) == -1;
            let m = all_applied(m0, om);
            &&& match r {
                Ok(c) => {
                    &&& ok_ov
                    &&& c.wf()
                    &&& c.model() == m
                    &&& c.fresh_mark() == c.singletons_model().len()
                    &&& deps_complete(m) && acyclic(m) && params_complete(m) && singletons_ok(m)
                },
                Err(e) => match e {
                    BuildError::UnknownInterface(_) => !ok_ov && override_error_matches(m0, om, e),
                    BuildError::MissingParameter { .. } => (!ok_ov && override_error_matches(
                        m0,
                        om,
                        e,
                    )) || (ok_ov && deps_complete(m) && acyclic(m) && missing_param_err(m, e)),
                    BuildError::MissingDependency { key, dependency } => ok_ov && dep_edge(
                        m,
                        key@,
                        dependency@,
                    ) && !contains_key(m, dependency@),
                    BuildError::DependencyCycle(p) => ok_ov && deps_complete(m) && is_cycle(
                        m,
                        key_model(p@),
                    ) && cycle_nodes_distinct(key_model(p@)),
                    BuildError::ComponentConstructionFailed { key, cause } => ok_ov
                        && deps_complete(m) && acyclic(m) && params_complete(m) && contains_key(
                        m,
                        key@,
                    ) && descriptor_of(m, key@).lifecycle is Singleton && descriptor_of(
                        m,
                        key@,
                    ).failure == Some(cause@),
                },
            }
            &&& (!ok_ov ==> (r matches Err(e2) && override_error_matches(m0, om, e2)))
            &&& (ok_ov && !deps_complete(m) ==> (r matches Err(
                BuildError::MissingDependency { .. },
            )))
            &&& (ok_ov && deps_complete(m) && !acyclic(m) ==> (r matches Err(
                BuildError::DependencyCycle(_),
            )))
            &&& (ok_ov && deps_complete(m) && acyclic(m) && !params_complete(m) ==> (r matches Err(
                BuildError::MissingParameter { .. },
            )))
            &&& (ok_ov && deps_complete(m) && acyclic(m) && params_complete(m) && !singletons_ok(m)
                ==> (r matches Err(BuildError::ComponentConstructionFailed { .. })))
            &&& (ok_ov && deps_complete(m) && acyclic(m) && params_complete(m) && singletons_ok(m)
                ==> r is Ok)
        }),
{
    let ghost m0 = registry@;
    let ghost om = overrides_model(overrides@);
    let mut entries = registry.into_entries();
    match apply_overrides(&mut entries, overrides) {
        Ok(()) => {},
        Err(e) => {
            return Err(e);
        },
    }
    let ghost m = reg_model(entries@);
    proof {
        lemma_all_applied_keys(m0, om);
        assert forall|a: int, b: int| 0 <= a < b < m.len() implies m[a].0 != m[b].0 by {
            assert(m[a].0 == m0[a].0);
            assert(m[b].0 == m0[b].0);
        }
    }
    match validate_deps(&entries) {
        Ok(()) => {},
        Err(e) => {
            return Err(e);
        },
    }
    let ord = match construction_order(&entries) {
        Ok(o) => o,
        Err(p) => {
            proof {
                if acyclic(m) {
                    lemma_acyclic_excludes_cycle(m, key_model(p@));
                }
            }
            return Err(BuildError::DependencyCycle(p));
        },
    };
    proof {
        assert(is_construction_order(m, key_model(ord@)));
        assert(acyclic(m));
    }
    match validate_params(&entries) {
        Ok(()) => {},
        Err(e) => {
            return Err(e);
        },
    }
    let sg = match construct_singletons(&entries, &ord) {
        Ok(sg) => sg,
        Err(e) => {
            return Err(e);
        },
    };
    let next = sg.len() as u64;
    let c = Container::assemble(entries, ord, sg, next);
    proof {
        assert(c.wf());
    }
    Ok(c)
}

} // verus!
