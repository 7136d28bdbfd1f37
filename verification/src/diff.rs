use vstd::prelude::*;
use crate::env::EnvMap;
use crate::error::Error;

verus! {

/// The keys to remove from a service: present in the current environment
/// but absent from the desired secret set.
pub open spec fn delete_keys(
    desired: Map<Seq<char>, Seq<char>>,
    current: Map<Seq<char>, Seq<char>>,
) -> Set<Seq<char>> {
    Set::new(|k: Seq<char>| current.contains_key(k) && !desired.contains_key(k))
}

/// The entries to set on a service: desired entries that are missing from
/// the current environment or carry a different value there.
pub open spec fn upsert_entries(
    desired: Map<Seq<char>, Seq<char>>,
    current: Map<Seq<char>, Seq<char>>,
) -> Map<Seq<char>, Seq<char>> {
    Map::new(
        |k: Seq<char>|
            desired.contains_key(k) && (!current.contains_key(k) || current[k] != desired[k]),
        |k: Seq<char>| desired[k],
    )
}

/// Whether converging `current` to `desired` needs any mutation at all.
pub open spec fn needs_mutation(
    desired: Map<Seq<char>, Seq<char>>,
    current: Map<Seq<char>, Seq<char>>,
) -> bool {
    delete_keys(desired, current) != Set::<Seq<char>>::empty() || upsert_entries(
        desired,
        current,
    ) != Map::<Seq<char>, Seq<char>>::empty()
}

/// The conceptual effect of applying a plan: delete the listed keys, then
/// set every upserted entry.
pub open spec fn apply_plan(
    current: Map<Seq<char>, Seq<char>>,
    dels: Set<Seq<char>>,
    ups: Map<Seq<char>, Seq<char>>,
) -> Map<Seq<char>, Seq<char>> {
    current.remove_keys(dels).union_prefer_right(ups)
}

/// The minimal mutation that converges one service's environment to the
/// desired secret set: keys to delete and entries to set.  The two never
/// speak of the same key.
#[derive(Debug)]
pub struct MutationPlan {
    pub to_delete: Vec<String>,
    pub to_upsert: EnvMap,
}

impl MutationPlan {
    /// The keys to delete, as a set.
    pub open spec fn delete_set(&self) -> Set<Seq<char>> {
        self.to_delete.deep_view().to_set()
    }

    /// An empty plan asks for no mutation.
    pub fn is_empty(&self) -> (r: bool)
        ensures
            r == (self.to_delete@.len() == 0 && self.to_upsert@ =~= Map::<
                Seq<char>,
                Seq<char>,
            >::empty()),
    {
        proof {
            if self.to_delete@.len() > 0 {
                assert(self.to_delete.deep_view().len() > 0);
            }
        }
        self.to_delete.len() == 0 && self.to_upsert.is_empty()
    }
}

/// Lists the keys of `old_env_vars` (a service's current environment) that
/// are absent from `new_env_vars` (the desired set), in entry order.
pub fn list_env_vars_to_delete(old_env_vars: EnvMap, new_env_vars: EnvMap) -> (r: Result<
    Vec<String>,
    Error,
>)
    ensures
        r matches Ok(v) && v.deep_view() == old_env_vars.keys_seq().filter(
            |k: Seq<char>| !new_env_vars@.contains_key(k),
        ),
        r matches Ok(v) && v.deep_view().to_set() == delete_keys(new_env_vars@, old_env_vars@),
        r matches Ok(v) && v.deep_view().no_duplicates(),
{
    let ghost pred = |k: Seq<char>| !new_env_vars@.contains_key(k);
    let mut out: Vec<String> = Vec::new();
    let n = old_env_vars.len();
    proof {
        use_type_invariant(&old_env_vars);
        old_env_vars.lemma_model();
        assert(old_env_vars.keys_seq().take(0).filter(pred) =~= Seq::<Seq<char>>::empty());
        assert(out.deep_view() =~= Seq::<Seq<char>>::empty());
    }
    let mut i: usize = 0;
    while i < n
        invariant
            i <= n,
            n == old_env_vars.kvs().len(),
            out.deep_view() == old_env_vars.keys_seq().take(i as int).filter(pred),
            pred == (|k: Seq<char>| !new_env_vars@.contains_key(k)),
        decreases n - i,
    {
        let key = old_env_vars.key_at(i);
        let ghost keys = old_env_vars.keys_seq();
        proof {
            assert(keys[i as int] == old_env_vars.kvs()[i as int].0);
            assert(keys.take(i as int + 1).drop_last() =~= keys.take(i as int));
            assert(keys.take(i as int + 1).last() == keys[i as int]);
            reveal(Seq::filter);
        }
        if !new_env_vars.contains_key(key.as_str()) {
            let ghost pre = out.deep_view();
            out.push(key.clone());
            proof {
                assert(out.deep_view() =~= pre.push(keys[i as int]));
            }
        }
        i += 1;
    }
    proof {
        use_type_invariant(&old_env_vars);
        old_env_vars.lemma_model();
        use_type_invariant(&new_env_vars);
        new_env_vars.lemma_model();
        let keys = old_env_vars.keys_seq();
        assert(keys.take(n as int) =~= keys);
        assert(keys.no_duplicates());
        lemma_filter_distinct(keys, pred);
        let fout = keys.filter(pred);
        assert forall|k: Seq<char>| #[trigger] keys.contains(k) implies old_env_vars@.contains_key(
            k,
        ) by {
            let w = choose|w: int| 0 <= w < keys.len() && keys[w] == k;
            assert(old_env_vars.kvs()[w].0 == k);
        }
        assert forall|k: Seq<char>|
            #[trigger] old_env_vars@.contains_key(k) implies keys.contains(k) by {
            let w = choose|w: int|
                0 <= w < old_env_vars.kvs().len() && (#[trigger] old_env_vars.kvs()[w]).0 == k;
            assert(keys[w] == k);
        }
        assert forall|k: Seq<char>| #[trigger] fout.to_set().contains(k) implies delete_keys(
            new_env_vars@,
            old_env_vars@,
        ).contains(k) by {
            assert(fout.contains(k));
            assert(keys.contains(k) && pred(k));
        }
        assert forall|k: Seq<char>|
            #[trigger] delete_keys(new_env_vars@, old_env_vars@).contains(k) implies fout.to_set()
            .contains(k) by {
            assert(keys.contains(k));
            assert(pred(k));
            assert(fout.contains(k));
        }
        assert(fout.to_set() =~= delete_keys(new_env_vars@, old_env_vars@));
    }
    Ok(out)
}

/// Lists the entries of `new_env_vars` (the desired set) that are missing
/// from `old_env_vars` (a service's current environment) or differ there,
/// in entry order, with the desired values.
pub fn list_env_pairs_to_update(old_env_vars: EnvMap, new_env_vars: EnvMap) -> (r: Result<
    EnvMap,
    Error,
>)
    ensures
        r matches Ok(m) && m@ == upsert_entries(new_env_vars@, old_env_vars@),
{
    let mut m = EnvMap::new();
    let n = new_env_vars.len();
    proof {
        use_type_invariant(&new_env_vars);
        new_env_vars.lemma_model();
        use_type_invariant(&old_env_vars);
        old_env_vars.lemma_model();
    }
    let mut i: usize = 0;
    while i < n
        invariant
            i <= n,
            n == new_env_vars.kvs().len(),
            new_env_vars.inv(),
            forall|k: Seq<char>|
                #[trigger] m@.contains_key(k) <==> exists|j: int|
                    0 <= j < i && (#[trigger] new_env_vars.kvs()[j]).0 == k && upsert_entries(
                        new_env_vars@,
                        old_env_vars@,
                    ).contains_key(k),
            forall|k: Seq<char>|
                #[trigger] m@.contains_key(k) ==> m@[k] == upsert_entries(
                    new_env_vars@,
                    old_env_vars@,
                )[k],
        decreases n - i,
    {
        let key = new_env_vars.key_at(i);
        let value = new_env_vars.val_at(i);
        let ghost up = upsert_entries(new_env_vars@, old_env_vars@);
        proof {
            new_env_vars.lemma_model();
            assert(new_env_vars@.contains_key(key@) && new_env_vars@[key@] == value@);
        }
        let update = match old_env_vars.get(key.as_str()) {
            None => true,
            Some(old_value) => !old_value.eq(value),
        };
        if update {
            proof {
                assert(up.contains_key(key@) && up[key@] == value@);
            }
            let ghost pre = m@;
            m.insert(key.clone(), value.clone());
            proof {
                assert forall|k: Seq<char>| #[trigger] m@.contains_key(k) implies exists|j: int|
                    0 <= j < i + 1 && (#[trigger] new_env_vars.kvs()[j]).0 == k && up.contains_key(
                        k,
                    ) by {
                    if k == key@ {
                        assert(new_env_vars.kvs()[i as int].0 == k && up.contains_key(k));
                    } else {
                        assert(pre.contains_key(k));
                    }
                }
            }
        } else {
            proof {
                assert(!up.contains_key(key@));
                assert forall|k: Seq<char>| #[trigger] m@.contains_key(k) implies exists|j: int|
                    0 <= j < i + 1 && (#[trigger] new_env_vars.kvs()[j]).0 == k && up.contains_key(
                        k,
                    ) by {}
                assert forall|k: Seq<char>|
                    (exists|j: int|
                        0 <= j < i + 1 && (#[trigger] new_env_vars.kvs()[j]).0 == k
                            && up.contains_key(k)) implies #[trigger] m@.contains_key(k) by {
                    let j = choose|j: int|
                        0 <= j < i + 1 && (#[trigger] new_env_vars.kvs()[j]).0 == k
                            && up.contains_key(k);
                    assert(j != i);
                }
            }
        }
        i += 1;
    }
    proof {
        new_env_vars.lemma_model();
        let up = upsert_entries(new_env_vars@, old_env_vars@);
        assert forall|k: Seq<char>| #[trigger] up.contains_key(k) implies m@.contains_key(k) by {
            let j = choose|j: int|
                0 <= j < new_env_vars.kvs().len() && (#[trigger] new_env_vars.kvs()[j]).0 == k;
        }
        assert(m@ =~= up);
    }
    Ok(m)
}

/// Computes the minimal mutation that converges `current` to `desired`:
/// stale keys are deleted, missing or differing entries are upserted, and
/// entries already equal are left untouched.
pub fn plan(desired: &EnvMap, current: &EnvMap) -> (p: MutationPlan)
    ensures
        p.delete_set() == delete_keys(desired@, current@),
        p.to_delete.deep_view() == current.keys_seq().filter(
            |k: Seq<char>| !desired@.contains_key(k),
        ),
        p.to_delete.deep_view().no_duplicates(),
        p.to_upsert@ == upsert_entries(desired@, current@),
        p.delete_set().disjoint(p.to_upsert@.dom()),
{
    let to_delete = match list_env_vars_to_delete(current.clone(), desired.clone()) {
        Ok(v) => v,
        Err(_) => vstd::pervasive::unreached(),
    };
    let to_upsert = match list_env_pairs_to_update(current.clone(), desired.clone()) {
        Ok(m) => m,
        Err(_) => vstd::pervasive::unreached(),
    };
    let p = MutationPlan { to_delete, to_upsert };
    proof {
        assert forall|k: Seq<char>| #[trigger] p.delete_set().contains(k) implies !p.to_upsert@
            .dom().contains(k) by {}
    }
    p
}

/// Whether the secret list and the service's list differ at all; the
/// whole-list comparison used as a cheap pre-check.
pub fn should_update_docker_service(doppler_secrets: &Vec<String>, docker_secrets: &Vec<String>)
    -> (r: bool)
    ensures
        r == (doppler_secrets.deep_view() != docker_secrets.deep_view()),
{
    let n = doppler_secrets.len();
    if n != docker_secrets.len() {
        return true;
    }
    let mut i: usize = 0;
    while i < n
        invariant
            i <= n,
            n == doppler_secrets.deep_view().len(),
            n == docker_secrets.deep_view().len(),
            forall|j: int|
                0 <= j < i ==> doppler_secrets.deep_view()[j] == docker_secrets.deep_view()[j],
        decreases n - i,
    {
        if !doppler_secrets[i].eq(&docker_secrets[i]) {
            proof {
                assert(doppler_secrets.deep_view()[i as int] != docker_secrets.deep_view()[
                    i as int]);
            }
            return true;
        }
        i += 1;
    }
    proof {
        assert(doppler_secrets.deep_view() =~= docker_secrets.deep_view());
    }
    false
}

/// The views of a list of environments.
pub open spec fn env_views(envs: Seq<EnvMap>) -> Seq<Map<Seq<char>, Seq<char>>> {
    Seq::new(envs.len(), |i: int| envs[i]@)
}

/// The apply decisions of one reconciliation pass: for each resolved
/// service whose plan is non-empty, its name with the keys to delete and
/// the entries to upsert, in service order.
pub open spec fn planned(
    services: Seq<Seq<char>>,
    desired: Map<Seq<char>, Seq<char>>,
    envs: Seq<Map<Seq<char>, Seq<char>>>,
) -> Seq<(Seq<char>, Set<Seq<char>>, Map<Seq<char>, Seq<char>>)>
    decreases services.len(),
{
    if services.len() == 0 {
        Seq::empty()
    } else {
        let rest = planned(services.drop_last(), desired, envs.drop_last());
        if needs_mutation(desired, envs.last()) {
            rest.push(
                (
                    services.last(),
                    delete_keys(desired, envs.last()),
                    upsert_entries(desired, envs.last()),
                ),
            )
        } else {
            rest
        }
    }
}

/// One reconciliation pass's decisions: given the resolved services, the
/// desired secret set, and each service's current environment, the plans
/// worth applying — services whose plan is empty are skipped, which keeps
/// a converged pass free of orchestrator calls.
pub fn plan_all(services: &Vec<String>, desired: &EnvMap, envs: &Vec<EnvMap>) -> (r: Vec<
    (String, MutationPlan),
>)
    requires
        services@.len() == envs@.len(),
    ensures
        Seq::new(
            r@.len(),
            |i: int| (r@[i].0@, r@[i].1.delete_set(), r@[i].1.to_upsert@),
        ) == planned(services.deep_view(), desired@, env_views(envs@)),
{
    let ghost sv = services.deep_view();
    let ghost ev = env_views(envs@);
    let mut r: Vec<(String, MutationPlan)> = Vec::new();
    let n = services.len();
    proof {
        assert(Seq::new(
            r@.len(),
            |i: int| (r@[i].0@, r@[i].1.delete_set(), r@[i].1.to_upsert@),
        ) =~= planned(sv.take(0), desired@, ev.take(0)));
    }
    let mut i: usize = 0;
    while i < n
        invariant
            i <= n,
            n == sv.len(),
            n == ev.len(),
            sv == services.deep_view(),
            ev == env_views(envs@),
            Seq::new(
                r@.len(),
                |j: int| (r@[j].0@, r@[j].1.delete_set(), r@[j].1.to_upsert@),
            ) == planned(sv.take(i as int), desired@, ev.take(i as int)),
        decreases n - i,
    {
        let p = plan(desired, &envs[i]);
        let ghost pre = r@;
        proof {
            assert(sv.take(i as int + 1).drop_last() =~= sv.take(i as int));
            assert(ev.take(i as int + 1).drop_last() =~= ev.take(i as int));
            assert(sv.take(i as int + 1).last() == sv[i as int]);
            assert(ev.take(i as int + 1).last() == ev[i as int]);
            assert(ev[i as int] == envs@[i as int]@);
        }
        if !p.is_empty() {
            proof {
                if !needs_mutation(desired@, ev[i as int]) {
                    assert(delete_keys(desired@, envs@[i as int]@) == Set::<Seq<char>>::empty());
                    if p.to_delete@.len() > 0 {
                        assert(p.to_delete.deep_view().to_set().contains(
                            p.to_delete.deep_view()[0],
                        ));
                    }
                    assert(p.to_upsert@ =~= Map::<Seq<char>, Seq<char>>::empty());
                    assert(false);
                }
            }
            r.push((services[i].clone(), p));
            proof {
                assert(r@[pre.len() as int].0@ == sv[i as int]);
                assert(Seq::new(
                    r@.len(),
                    |j: int| (r@[j].0@, r@[j].1.delete_set(), r@[j].1.to_upsert@),
                ) =~= planned(sv.take(i as int + 1), desired@, ev.take(i as int + 1)));
            }
        } else {
            proof {
                if needs_mutation(desired@, ev[i as int]) {
                    if delete_keys(desired@, envs@[i as int]@) != Set::<Seq<char>>::empty() {
                        assert(p.delete_set() =~= Set::<Seq<char>>::empty());
                    }
                    if upsert_entries(desired@, envs@[i as int]@) != Map::<
                        Seq<char>,
                        Seq<char>,
                    >::empty() {
                        assert(p.to_upsert@ =~= Map::<Seq<char>, Seq<char>>::empty());
                    }
                    assert(false);
                }
                assert(Seq::new(
                    r@.len(),
                    |j: int| (r@[j].0@, r@[j].1.delete_set(), r@[j].1.to_upsert@),
                ) =~= planned(sv.take(i as int + 1), desired@, ev.take(i as int + 1)));
            }
        }
        i += 1;
    }
    proof {
        assert(sv.take(n as int) =~= sv);
        assert(ev.take(n as int) =~= ev);
    }
    r
}

/// Law: converging a state to itself needs no mutation — the plan of any
/// set against itself is empty.
pub proof fn lemma_plan_idempotent(s: Map<Seq<char>, Seq<char>>)
    ensures
        delete_keys(s, s) =~= Set::<Seq<char>>::empty(),
        upsert_entries(s, s) =~= Map::<Seq<char>, Seq<char>>::empty(),
{
}

/// Law: against an empty environment, the plan deletes nothing and upserts
/// exactly the desired set.
pub proof fn lemma_plan_fresh_environment(desired: Map<Seq<char>, Seq<char>>)
    ensures
        delete_keys(desired, Map::<Seq<char>, Seq<char>>::empty()) =~= Set::<Seq<char>>::empty(),
        upsert_entries(desired, Map::<Seq<char>, Seq<char>>::empty()) =~= desired,
{
}

/// Law: a plan never deletes and upserts the same key.
pub proof fn lemma_plan_disjoint(
    desired: Map<Seq<char>, Seq<char>>,
    current: Map<Seq<char>, Seq<char>>,
)
    ensures
        delete_keys(desired, current).disjoint(upsert_entries(desired, current).dom()),
{
}

/// Law: applying the plan converges exactly — deleting the stale keys from
/// `current` and then setting the upserted entries yields `desired`.
pub proof fn lemma_plan_round_trip(
    desired: Map<Seq<char>, Seq<char>>,
    current: Map<Seq<char>, Seq<char>>,
)
    ensures
        apply_plan(
            current,
            delete_keys(desired, current),
            upsert_entries(desired, current),
        ) =~= desired,
{
    let dels = delete_keys(desired, current);
    let ups = upsert_entries(desired, current);
    let applied = apply_plan(current, dels, ups);
    assert forall|k: Seq<char>| #[trigger] applied.contains_key(k) implies desired.contains_key(k)
        && applied[k] == desired[k] by {}
    assert forall|k: Seq<char>| #[trigger] desired.contains_key(k) implies applied.contains_key(
        k,
    ) by {}
}

proof fn lemma_filter_distinct(s: Seq<Seq<char>>, pred: spec_fn(Seq<char>) -> bool)
    requires
        s.no_duplicates(),
    ensures
        s.filter(pred).no_duplicates(),
        forall|k: Seq<char>| s.filter(pred).contains(k) <==> s.contains(k) && pred(k),
    decreases s.len(),
{
    reveal(Seq::filter);
    if s.len() > 0 {
        let sub = s.drop_last();
        assert(sub.no_duplicates());
        lemma_filter_distinct(sub, pred);
        assert forall|k: Seq<char>|
            s.filter(pred).contains(k) <==> s.contains(k) && pred(k) by {
            if sub.contains(k) {
                let w = choose|w: int| 0 <= w < sub.len() && sub[w] == k;
                assert(s[w] == k);
            }
            if s.contains(k) {
                let w = choose|w: int| 0 <= w < s.len() && s[w] == k;
                if w < s.len() - 1 {
                    assert(sub[w] == k);
                }
            }
            if pred(s.last()) {
                assert(s.filter(pred) == sub.filter(pred).push(s.last()));
                if s.filter(pred).contains(k) {
                    let w = choose|w: int|
                        0 <= w < s.filter(pred).len() && s.filter(pred)[w] == k;
                    if w < s.filter(pred).len() - 1 {
                        assert(sub.filter(pred)[w] == k);
                        assert(sub.filter(pred).contains(k));
                    } else {
                        assert(k == s.last());
                        assert(s.contains(s.last()));
                    }
                }
                if sub.filter(pred).contains(k) {
                    let w = choose|w: int|
                        0 <= w < sub.filter(pred).len() && sub.filter(pred)[w] == k;
                    assert(s.filter(pred)[w] == k);
                }
                if k == s.last() {
                    assert(s.filter(pred).last() == k);
                }
            } else {
                assert(s.filter(pred) == sub.filter(pred));
            }
        }
        if pred(s.last()) {
            assert(s.filter(pred) == sub.filter(pred).push(s.last()));
            assert(!sub.contains(s.last()));
            assert(!sub.filter(pred).contains(s.last()));
            let f = sub.filter(pred).push(s.last());
            assert forall|i: int, j: int| 0 <= i < j < f.len() implies f[i] != f[j] by {
                if j == f.len() - 1 {
                    assert(f[i] == sub.filter(pred)[i]);
                    if f[i] == s.last() {
                        assert(sub.filter(pred).contains(s.last()));
                    }
                }
            }
        }
    }
}

} // verus!
