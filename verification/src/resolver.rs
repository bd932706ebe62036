use vstd::prelude::*;
use crate::types::{
    Package, PackageV, InstalledEntry, EntryV, PlanStep, PlanStepV, ResolutionError, name_in, names_distinct,
    store_has, store_at, reg_has, reg_at, settled, is_dep_path, in_closure, files_disjoint,
    step_name,
};
use crate::store::{MetadataStore, store_names};
use crate::registry::Registry;
use crate::strutil::{contains_name, lemma_distinct_names_len, lemma_distinct_name_index};

verus! {

/// Whether the package of this name may be left alone by an install request.
fn is_settled(store: &MetadataStore, reg: &Registry, name: &String) -> (r: bool)
    requires
        store.wf(),
        reg.wf(),
    ensures
        r == settled(store@, reg@, name@),
{
    match reg.get(name) {
        None => false,
        Some(e) => match store.lookup(name) {
            None => true,
            Some(p) => e.version == p.version,
        },
    }
}

/// Linear search for a name among collected packages.
fn contains_pkg_name(v: &Vec<Package>, name: &String) -> (r: bool)
    ensures
        r == name_in(store_names(v.deep_view()), name@),
{
    let mut i: usize = 0;
    while i < v.len()
        invariant
            0 <= i <= v.len(),
            forall|j: int| 0 <= j < i ==> v.deep_view()[j].name != name@,
        decreases v.len() - i,
    {
        if v[i].name == *name {
            proof {
                assert(v.deep_view()[i as int].name == name@);
                assert(store_names(v.deep_view())[i as int] == name@);
            }
            return true;
        }
        i = i + 1;
    }
    proof {
        assert forall|j: int| 0 <= j < store_names(v.deep_view()).len() implies store_names(
            v.deep_view(),
        )[j] != name@ by {
            assert(store_names(v.deep_view())[j] == v.deep_view()[j].name);
        }
    }
    false
}

/// What closure collection guarantees: the collected packages are exactly
/// copies of store entries, each one needs work and is reachable from the
/// request, their direct dependencies either need no work or are themselves
/// collected, and every requested name needing work is collected.
pub open spec fn closure_ok(
    store: Seq<PackageV>,
    reg: Seq<EntryV>,
    req: Seq<Seq<char>>,
    cl: Seq<PackageV>,
) -> bool {
    &&& names_distinct(store_names(cl))
    &&& forall|i: int|
        0 <= i < cl.len() ==> store_has(store, (#[trigger] cl[i]).name) && cl[i] == store_at(
            store,
            cl[i].name,
        )
    &&& forall|i: int|
        0 <= i < cl.len() ==> !settled(store, reg, (#[trigger] cl[i]).name) && in_closure(
            store,
            reg,
            req,
            cl[i].name,
        )
    &&& forall|i: int, k: int|
        0 <= i < cl.len() && 0 <= k < cl[i].deps.len() ==> settled(
            store,
            reg,
            #[trigger] cl[i].deps[k],
        ) || name_in(store_names(cl), cl[i].deps[k])
    &&& forall|r: int|
        0 <= r < req.len() ==> settled(store, reg, #[trigger] req[r]) || name_in(
            store_names(cl),
            req[r],
        )
}

/// Collects every package reachable from the request that needs work,
/// reporting the first name whose metadata cannot be found.
fn collect_closure(store: &MetadataStore, reg: &Registry, req: &Vec<String>) -> (r: Result<
    Vec<Package>,
    ResolutionError,
>)
    requires
        store.wf(),
        reg.wf(),
    ensures
        match r {
            Ok(cl) => closure_ok(store@, reg@, req.deep_view(), cl.deep_view()),
            Err(e) => e matches ResolutionError::UnknownPackage { name } && in_closure(
                store@,
                reg@,
                req.deep_view(),
                name@,
            ) && !store_has(store@, name@),
        },
{
    let ghost reqv = req.deep_view();
    let mut queue: Vec<String> = Vec::new();
    let mut i: usize = 0;
    while i < req.len()
        invariant
            0 <= i <= req.len(),
            queue.deep_view() =~= reqv.subrange(0, i as int),
            reqv == req.deep_view(),
        decreases req.len() - i,
    {
        let n = req[i].clone();
        let ghost qpre = queue.deep_view();
        proof {
            assert(n@ == reqv[i as int]);
        }
        queue.push(n);
        proof {
            assert(queue.deep_view() =~= qpre.push(reqv[i as int]));
            assert(queue.deep_view() =~= reqv.subrange(0, i + 1 as int));
        }
        i = i + 1;
    }
    proof {
        assert(queue.deep_view() =~= reqv);
        assert forall|j: int|
            0 <= j < queue.deep_view().len() && !settled(
                store@,
                reg@,
                (#[trigger] queue.deep_view()[j]),
            ) implies in_closure(store@, reg@, reqv, queue.deep_view()[j]) by {
            let n = queue.deep_view()[j];
            let pth = seq![n];
            assert(n == reqv[j]);
            assert(name_in(reqv, n));
            assert(pth[0] == n && pth.last() == n && pth.len() == 1);
            assert(is_dep_path(store@, reg@, reqv, pth));
        }
        assert forall|r: int| 0 <= r < reqv.len() implies name_in(
            queue.deep_view(),
            #[trigger] reqv[r],
        ) by {
            assert(queue.deep_view()[r] == reqv[r]);
        }
    }

    let mut visited: Vec<Package> = Vec::new();
    let mut qi: usize = 0;
    while qi < queue.len()
        invariant
            store.wf(),
            reg.wf(),
            reqv == req.deep_view(),
            0 <= qi <= queue.len(),
            visited.deep_view().len() <= store@.len(),
            names_distinct(store_names(visited.deep_view())),
            forall|i: int|
                0 <= i < visited.deep_view().len() ==> store_has(
                    store@,
                    (#[trigger] visited.deep_view()[i]).name,
                ) && visited.deep_view()[i] == store_at(store@, visited.deep_view()[i].name),
            forall|i: int|
                0 <= i < visited.deep_view().len() ==> !settled(
                    store@,
                    reg@,
                    (#[trigger] visited.deep_view()[i]).name,
                ) && in_closure(store@, reg@, reqv, visited.deep_view()[i].name),
            // every dependency of a visited package is settled or queued
            forall|i: int, k: int|
                0 <= i < visited.deep_view().len() && 0 <= k < visited.deep_view()[i].deps.len()
                    ==> settled(store@, reg@, #[trigger] visited.deep_view()[i].deps[k]) || name_in(
                    queue.deep_view(),
                    visited.deep_view()[i].deps[k],
                ),
            // every requested name is queued
            forall|r: int| 0 <= r < reqv.len() ==> name_in(queue.deep_view(), #[trigger] reqv[r]),
            // queued names needing work are reachable
            forall|j: int|
                0 <= j < queue.deep_view().len() && !settled(
                    store@,
                    reg@,
                    (#[trigger] queue.deep_view()[j]),
                ) ==> in_closure(store@, reg@, reqv, queue.deep_view()[j]),
            // processed queue entries are settled or collected
            forall|j: int|
                0 <= j < qi ==> settled(store@, reg@, #[trigger] queue.deep_view()[j]) || name_in(
                    store_names(visited.deep_view()),
                    queue.deep_view()[j],
                ),
        decreases store@.len() - visited.deep_view().len(), queue.len() - qi,
    {
        let ghost q0 = queue.deep_view();
        let ghost v0 = visited.deep_view();
        let name = queue[qi].clone();
        proof {
            assert(name@ == q0[qi as int]);
        }
        if contains_pkg_name(&visited, &name) || is_settled(store, reg, &name) {
            proof {
                assert(queue.deep_view()[qi as int] == name@);
            }
            qi = qi + 1;
        } else {
            match store.lookup(&name) {
                None => {
                    return Err(ResolutionError::UnknownPackage { name });
                },
                Some(p) => {
                    let p = p.clone();
                    proof {
                        assert(p@ == store_at(store@, name@));
                        assert(store_names(store@)[crate::types::store_idx(store@, name@)]
                            == p@.name);
                        assert(p@.name == name@);
                    }
                    let ghost pth = choose|pth: Seq<Seq<char>>|
                        is_dep_path(store@, reg@, reqv, pth) && pth.last() == name@;
                    proof {
                        assert(in_closure(store@, reg@, reqv, name@));
                        assert(is_dep_path(store@, reg@, reqv, pth) && pth.last() == name@);
                    }
                    let mut k: usize = 0;
                    while k < p.deps.len()
                        invariant
                            store.wf(),
                            reg.wf(),
                            reqv == req.deep_view(),
                            p@ == store_at(store@, name@),
                            p@.name == name@,
                            store_has(store@, name@),
                            !settled(store@, reg@, name@),
                            is_dep_path(store@, reg@, reqv, pth) && pth.last() == name@,
                            0 <= k <= p.deps.len(),
                            q0.len() <= queue.deep_view().len(),
                            forall|j: int| 0 <= j < q0.len() ==> queue.deep_view()[j] == #[trigger] q0[j],
                            forall|j: int|
                                0 <= j < queue.deep_view().len() && !settled(
                                    store@,
                                    reg@,
                                    (#[trigger] queue.deep_view()[j]),
                                ) ==> in_closure(store@, reg@, reqv, queue.deep_view()[j]),
                            forall|j: int|
                                0 <= j < k ==> name_in(
                                    queue.deep_view(),
                                    #[trigger] p@.deps[j],
                                ),
                        decreases p.deps.len() - k,
                    {
                        let d = p.deps[k].clone();
                        proof {
                            assert(d@ == p.deps.deep_view()[k as int]);
                            assert(p.deps.deep_view()[k as int] == p@.deps[k as int]);
                            if !settled(store@, reg@, d@) {
                                let pth2 = pth.push(d@);
                                assert(pth2.last() == d@);
                                assert(name_in(reqv, pth2[0])) by {
                                    assert(pth2[0] == pth[0]);
                                }
                                assert forall|t: int| 0 <= t < pth2.len() implies !settled(
                                    store@,
                                    reg@,
                                    pth2[t],
                                ) by {
                                    if t < pth.len() {
                                        assert(pth2[t] == pth[t]);
                                    }
                                }
                                assert forall|t: int| 0 <= t < pth2.len() - 1 implies store_has(
                                    store@,
                                    pth2[t],
                                ) && name_in(store_at(store@, pth2[t]).deps, pth2[t + 1]) by {
                                    if t < pth.len() - 1 {
                                        assert(pth2[t] == pth[t]);
                                        assert(pth2[t + 1] == pth[t + 1]);
                                        assert(store_has(store@, pth[t]) && name_in(
                                            store_at(store@, pth[t]).deps,
                                            pth[t + 1],
                                        ));
                                    } else {
                                        assert(pth2[t] == pth.last());
                                        assert(pth2[t] == name@);
                                        assert(pth2[t + 1] == d@);
                                        assert(store_at(store@, name@).deps[k as int] == d@);
                                        assert(name_in(store_at(store@, name@).deps, d@));
                                    }
                                }
                                assert(is_dep_path(store@, reg@, reqv, pth2));
                                assert(in_closure(store@, reg@, reqv, d@));
                            }
                        }
                        let ghost qpre = queue.deep_view();
                        queue.push(d);
                        proof {
                            assert(queue.deep_view() =~= qpre.push(p@.deps[k as int]));
                            assert(queue.deep_view()[qpre.len() as int] == p@.deps[k as int]);
                            assert(name_in(queue.deep_view(), p@.deps[k as int]));
                            assert forall|x: Seq<char>| name_in(qpre, x) implies name_in(
                                queue.deep_view(),
                                x,
                            ) by {
                                let j = choose|j: int| 0 <= j < qpre.len() && qpre[j] == x;
                                assert(queue.deep_view()[j] == x);
                            }
                        }
                        k = k + 1;
                    }
                    let ghost qnew = queue.deep_view();
                    visited.push(p);
                    qi = qi + 1;
                    proof {
                        let vnew = visited.deep_view();
                        assert(vnew =~= v0.push(store_at(store@, name@)));
                        // membership in the old queue survives into the new one
                        assert forall|x: Seq<char>| name_in(q0, x) implies name_in(qnew, x) by {
                            let j = choose|j: int| 0 <= j < q0.len() && q0[j] == x;
                            assert(qnew[j] == x);
                        }
                        // membership among old collected names survives the push
                        assert forall|x: Seq<char>|
                            name_in(store_names(v0), x) implies name_in(
                            store_names(vnew),
                            x,
                        ) by {
                            let j = choose|j: int|
                                0 <= j < store_names(v0).len() && store_names(v0)[j] == x;
                            assert(store_names(v0)[j] == v0[j].name);
                            assert(vnew[j] == v0[j]);
                            assert(store_names(vnew)[j] == x);
                        }
                        // the new name joins the collected names
                        assert(store_names(vnew)[v0.len() as int] == name@);
                        assert(name_in(store_names(vnew), name@));
                        // distinctness of the collected names
                        assert(!name_in(store_names(v0), name@));
                        assert forall|a: int, b: int|
                            0 <= a < b < store_names(vnew).len() implies store_names(vnew)[a]
                            != store_names(vnew)[b] by {
                            assert(store_names(vnew)[a] == vnew[a].name);
                            assert(store_names(vnew)[b] == vnew[b].name);
                            if b < v0.len() {
                                assert(store_names(v0)[a] == v0[a].name);
                                assert(store_names(v0)[b] == v0[b].name);
                            } else {
                                assert(vnew[b].name == name@);
                                assert(store_names(v0)[a] == v0[a].name);
                                assert(name_in(store_names(v0), v0[a].name));
                            }
                        }
                        // the collection still fits inside the store
                        assert forall|i: int|
                            0 <= i < store_names(vnew).len() implies name_in(
                            store_names(store@),
                            #[trigger] store_names(vnew)[i],
                        ) by {
                            assert(store_names(vnew)[i] == vnew[i].name);
                            assert(store_has(store@, vnew[i].name));
                            let w = choose|w: int|
                                0 <= w < store@.len() && store@[w].name == vnew[i].name;
                            assert(store_names(store@)[w] == vnew[i].name);
                        }
                        lemma_distinct_names_len(store_names(vnew), store_names(store@));
                        assert(store_names(vnew).len() == vnew.len());
                        assert(store_names(store@).len() == store@.len());
                        // processed entries remain settled or collected
                        assert forall|j: int| 0 <= j < qi implies settled(
                            store@,
                            reg@,
                            #[trigger] queue.deep_view()[j],
                        ) || name_in(store_names(vnew), queue.deep_view()[j]) by {
                            assert(queue.deep_view()[j] == q0[j]);
                            if j == qi - 1 {
                                assert(q0[j] == name@);
                            } else {
                                assert(settled(store@, reg@, q0[j]) || name_in(
                                    store_names(v0),
                                    q0[j],
                                ));
                            }
                        }
                    }
                },
            }
        }
    }
    proof {
        let cl = visited.deep_view();
        let q = queue.deep_view();
        assert forall|i: int, k: int|
            0 <= i < cl.len() && 0 <= k < cl[i].deps.len() implies settled(
            store@,
            reg@,
            #[trigger] cl[i].deps[k],
        ) || name_in(store_names(cl), cl[i].deps[k]) by {
            if !settled(store@, reg@, cl[i].deps[k]) {
                let j = choose|j: int| 0 <= j < q.len() && q[j] == cl[i].deps[k];
                assert(settled(store@, reg@, q[j]) || name_in(store_names(cl), q[j]));
            }
        }
        assert forall|r: int|
            0 <= r < reqv.len() implies settled(store@, reg@, #[trigger] reqv[r]) || name_in(
            store_names(cl),
            reqv[r],
        ) by {
            let j = choose|j: int| 0 <= j < q.len() && q[j] == reqv[r];
            assert(settled(store@, reg@, q[j]) || name_in(store_names(cl), q[j]));
        }
    }
    Ok(visited)
}


// ---------------------------------------------------------------------------
// Ordering: a deterministic topological order over the closure.
// ---------------------------------------------------------------------------

/// The dependencies the store records for the package a step concerns.
pub open spec fn step_deps(store: Seq<PackageV>, s: PlanStepV) -> Seq<Seq<char>> {
    store_at(store, step_name(s)).deps
}

/// The files the package of a step would place.
pub open spec fn step_files(store: Seq<PackageV>, s: PlanStepV) -> Seq<Seq<char>> {
    store_at(store, step_name(s)).files
}

/// The names of a plan's steps, in plan order.
pub open spec fn plan_names(plan: Seq<PlanStepV>) -> Seq<Seq<char>> {
    plan.map_values(|s: PlanStepV| step_name(s))
}

/// Whether `d` is the name of a step strictly before position `i`.
pub open spec fn planned_before(plan: Seq<PlanStepV>, i: int, d: Seq<char>) -> bool {
    exists|j: int| 0 <= j < i && step_name(#[trigger] plan[j]) == d
}

/// A step an install plan may contain: an exact copy of the store's package,
/// installed fresh or replacing an installed entry.
pub open spec fn install_step_ok(store: Seq<PackageV>, reg: Seq<EntryV>, s: PlanStepV) -> bool {
    match s {
        PlanStepV::Install { pkg } => store_has(store, pkg.name) && pkg == store_at(store, pkg.name)
            && !reg_has(reg, pkg.name),
        PlanStepV::Upgrade { pkg } => store_has(store, pkg.name) && pkg == store_at(store, pkg.name)
            && reg_has(reg, pkg.name),
        PlanStepV::Remove { .. } => false,
    }
}

/// Whether every dependency of package `p` either needs no work or is already
/// named among the first `i` steps.
pub open spec fn deps_sat(
    store: Seq<PackageV>,
    reg: Seq<EntryV>,
    plan: Seq<PlanStepV>,
    i: int,
    p: PackageV,
) -> bool {
    forall|k: int|
        0 <= k < p.deps.len() ==> settled(store, reg, #[trigger] p.deps[k]) || planned_before(
            plan,
            i,
            p.deps[k],
        )
}

/// What a successful install resolution promises: every step is a well-formed
/// install or upgrade of a package that needs work and is reachable from the
/// request, no package is planned twice, every dependency of a planned package
/// is settled or planned earlier, and every requested package that needs work
/// is planned.
pub open spec fn install_plan_ok(
    store: Seq<PackageV>,
    reg: Seq<EntryV>,
    req: Seq<Seq<char>>,
    plan: Seq<PlanStepV>,
) -> bool {
    &&& forall|i: int| 0 <= i < plan.len() ==> install_step_ok(store, reg, #[trigger] plan[i])
    &&& forall|i: int|
        0 <= i < plan.len() ==> !settled(store, reg, step_name(#[trigger] plan[i])) && in_closure(
            store,
            reg,
            req,
            step_name(plan[i]),
        )
    &&& names_distinct(plan_names(plan))
    &&& forall|i: int, k: int|
        0 <= i < plan.len() && 0 <= k < step_deps(store, plan[i]).len() ==> settled(
            store,
            reg,
            #[trigger] step_deps(store, plan[i])[k],
        ) || planned_before(plan, i, step_deps(store, plan[i])[k])
    &&& forall|r: int|
        0 <= r < req.len() ==> settled(store, reg, #[trigger] req[r]) || planned_before(
            plan,
            plan.len() as int,
            req[r],
        )
}

/// Whether the dependencies of step `j` are satisfied by the first `i` steps.
pub open spec fn step_runnable(
    store: Seq<PackageV>,
    reg: Seq<EntryV>,
    plan: Seq<PlanStepV>,
    i: int,
    j: int,
) -> bool {
    deps_sat(store, reg, plan, i, store_at(store, step_name(plan[j])))
}

/// The tie-break rule: whenever a later step could already have run, the
/// earlier step's name precedes it. Together with `install_plan_ok` this pins
/// the plan completely (see `lemma_install_plan_unique`).
pub open spec fn plan_deterministic(
    store: Seq<PackageV>,
    reg: Seq<EntryV>,
    plan: Seq<PlanStepV>,
) -> bool {
    forall|i: int, j: int|
        0 <= i < j < plan.len() && #[trigger] step_runnable(store, reg, plan, i, j)
            ==> crate::strutil::lex_le(step_name(plan[i]), step_name(plan[j]))
}

/// Whether some dependency of package `n` still needs work and is itself named
/// in `ns`.
pub open spec fn stuck_on_member(
    store: Seq<PackageV>,
    reg: Seq<EntryV>,
    ns: Seq<Seq<char>>,
    n: Seq<char>,
) -> bool {
    exists|k: int|
        0 <= k < store_at(store, n).deps.len() && !settled(store, reg, store_at(store, n).deps[k])
            && name_in(ns, store_at(store, n).deps[k])
}

/// A reported cycle: a genuine certificate whose members all lie inside the
/// request's closure.
pub open spec fn cycle_report_ok(
    store: Seq<PackageV>,
    reg: Seq<EntryV>,
    req: Seq<Seq<char>>,
    ns: Seq<Seq<char>>,
) -> bool {
    cyclic_certificate(store, reg, ns) && (forall|i: int|
        0 <= i < ns.len() ==> in_closure(store, reg, req, #[trigger] ns[i]))
}

/// A witness that the dependency graph is stuck: a non-empty set of packages,
/// each needing work, each with a dependency needing work inside the set.
pub open spec fn cyclic_certificate(
    store: Seq<PackageV>,
    reg: Seq<EntryV>,
    ns: Seq<Seq<char>>,
) -> bool {
    &&& ns.len() > 0
    &&& forall|i: int|
        0 <= i < ns.len() ==> store_has(store, #[trigger] ns[i]) && !settled(store, reg, ns[i])
            && stuck_on_member(store, reg, ns, ns[i])
}

/// The step's package name, as stored.
pub fn step_pkg_name<'a>(s: &'a PlanStep) -> (r: &'a String)
    ensures
        r@ == step_name(s@),
{
    match s {
        PlanStep::Install { pkg } => &pkg.name,
        PlanStep::Upgrade { pkg } => &pkg.name,
        PlanStep::Remove { name } => name,
    }
}

/// Whether the plan already names this package.
fn plan_contains_name(plan: &Vec<PlanStep>, name: &String) -> (r: bool)
    ensures
        r == planned_before(plan.deep_view(), plan.deep_view().len() as int, name@),
{
    let mut i: usize = 0;
    while i < plan.len()
        invariant
            0 <= i <= plan.len(),
            forall|j: int| 0 <= j < i ==> step_name(#[trigger] plan.deep_view()[j]) != name@,
        decreases plan.len() - i,
    {
        let sn = step_pkg_name(&plan[i]);
        proof {
            assert(plan.deep_view()[i as int] == plan@[i as int]@);
            assert(sn@ == step_name(plan.deep_view()[i as int]));
        }
        if *sn == *name {
            return true;
        }
        i = i + 1;
    }
    false
}

/// Whether every dependency of `p` is settled or already planned.
fn deps_satisfied(store: &MetadataStore, reg: &Registry, plan: &Vec<PlanStep>, p: &Package) -> (r:
    bool)
    requires
        store.wf(),
        reg.wf(),
    ensures
        r == deps_sat(store@, reg@, plan.deep_view(), plan.deep_view().len() as int, p@),
{
    let ghost planv = plan.deep_view();
    let mut k: usize = 0;
    while k < p.deps.len()
        invariant
            store.wf(),
            reg.wf(),
            planv == plan.deep_view(),
            0 <= k <= p.deps.len(),
            forall|j: int|
                0 <= j < k ==> settled(store@, reg@, #[trigger] p@.deps[j]) || planned_before(
                    planv,
                    planv.len() as int,
                    p@.deps[j],
                ),
        decreases p.deps.len() - k,
    {
        let d = &p.deps[k];
        proof {
            assert(d@ == p@.deps[k as int]);
        }
        if !is_settled(store, reg, d) && !plan_contains_name(plan, d) {
            return false;
        }
        k = k + 1;
    }
    true
}


/// The running state of plan emission: every emitted step is well formed,
/// needed, drawn from the closure, never repeated, placed after its
/// dependencies, and name-least among the packages that could have run.
pub open spec fn emit_inv(
    store: Seq<PackageV>,
    reg: Seq<EntryV>,
    req: Seq<Seq<char>>,
    clv: Seq<PackageV>,
    plan: Seq<PlanStepV>,
) -> bool {
    &&& plan.len() <= clv.len()
    &&& forall|i: int| 0 <= i < plan.len() ==> install_step_ok(store, reg, #[trigger] plan[i])
    &&& forall|i: int|
        0 <= i < plan.len() ==> !settled(store, reg, step_name(#[trigger] plan[i])) && in_closure(
            store,
            reg,
            req,
            step_name(plan[i]),
        )
    &&& names_distinct(plan_names(plan))
    &&& forall|i: int|
        0 <= i < plan.len() ==> name_in(store_names(clv), step_name(#[trigger] plan[i]))
    &&& forall|i: int, k: int|
        0 <= i < plan.len() && 0 <= k < step_deps(store, plan[i]).len() ==> settled(
            store,
            reg,
            #[trigger] step_deps(store, plan[i])[k],
        ) || planned_before(plan, i, step_deps(store, plan[i])[k])
    &&& forall|i: int, c: int|
        #![trigger plan[i], clv[c]]
        0 <= i < plan.len() && 0 <= c < clv.len() && !planned_before(plan, i, clv[c].name)
            && deps_sat(store, reg, plan, i, clv[c]) ==> crate::strutil::lex_le(
            step_name(plan[i]),
            clv[c].name,
        )
}

/// Emitting the name-least runnable closure member preserves `emit_inv`.
#[verifier::rlimit(100)]
proof fn lemma_emit_step(
    store: Seq<PackageV>,
    reg: Seq<EntryV>,
    req: Seq<Seq<char>>,
    clv: Seq<PackageV>,
    plan0: Seq<PlanStepV>,
    stepv: PlanStepV,
    b: int,
)
    requires
        closure_ok(store, reg, req, clv),
        emit_inv(store, reg, req, clv, plan0),
        0 <= b < clv.len(),
        step_name(stepv) == clv[b].name,
        install_step_ok(store, reg, stepv),
        !planned_before(plan0, plan0.len() as int, clv[b].name),
        deps_sat(store, reg, plan0, plan0.len() as int, clv[b]),
        forall|c: int|
            0 <= c < clv.len() && !planned_before(plan0, plan0.len() as int, (#[trigger] clv[c]).name)
                && deps_sat(store, reg, plan0, plan0.len() as int, clv[c])
                ==> crate::strutil::lex_le(clv[b].name, clv[c].name),
    ensures
        emit_inv(store, reg, req, clv, plan0.push(stepv)),
{
    let plan1 = plan0.push(stepv);
    let lnum = plan0.len() as int;
    assert(clv[b] == store_at(store, clv[b].name));
    assert(!settled(store, reg, clv[b].name) && in_closure(store, reg, req, clv[b].name));
    assert(step_name(plan1[lnum]) == clv[b].name);
    assert forall|i: int, d: Seq<char>|
        0 <= i <= lnum implies (planned_before(plan0, i, d) == planned_before(plan1, i, d)) by {
        if planned_before(plan0, i, d) {
            let j = choose|j: int| 0 <= j < i && step_name(plan0[j]) == d;
            assert(step_name(plan1[j]) == d);
        }
        if planned_before(plan1, i, d) {
            let j = choose|j: int| 0 <= j < i && step_name(plan1[j]) == d;
            assert(step_name(plan0[j]) == d);
        }
    }
    assert forall|a: int, e: int|
        0 <= a < e < plan_names(plan1).len() implies plan_names(plan1)[a] != plan_names(
        plan1,
    )[e] by {
        assert(plan_names(plan1)[a] == step_name(plan1[a]));
        assert(plan_names(plan1)[e] == step_name(plan1[e]));
        if e < lnum {
            assert(plan_names(plan0)[a] == step_name(plan0[a]));
            assert(plan_names(plan0)[e] == step_name(plan0[e]));
        } else {
            assert(step_name(plan1[e]) == clv[b].name);
            assert(plan_names(plan0)[a] == step_name(plan0[a]));
            if step_name(plan0[a]) == clv[b].name {
                assert(planned_before(plan0, lnum, clv[b].name));
            }
        }
    }
    assert(name_in(store_names(clv), clv[b].name)) by {
        assert(store_names(clv)[b] == clv[b].name);
    }
    assert forall|i: int, k: int|
        0 <= i < plan1.len() && 0 <= k < step_deps(store, plan1[i]).len() implies settled(
        store,
        reg,
        #[trigger] step_deps(store, plan1[i])[k],
    ) || planned_before(plan1, i, step_deps(store, plan1[i])[k]) by {
        if i < lnum {
            assert(plan1[i] == plan0[i]);
            assert(settled(store, reg, step_deps(store, plan0[i])[k]) || planned_before(
                plan0,
                i,
                step_deps(store, plan0[i])[k],
            ));
        } else {
            assert(plan1[i] == stepv);
            assert(step_deps(store, stepv) == clv[b].deps);
            assert(settled(store, reg, clv[b].deps[k]) || planned_before(
                plan0,
                lnum,
                clv[b].deps[k],
            ));
        }
    }
    assert forall|i: int, c: int|
        #![trigger plan1[i], clv[c]]
        0 <= i < plan1.len() && 0 <= c < clv.len() && !planned_before(plan1, i, clv[c].name)
            && deps_sat(store, reg, plan1, i, clv[c]) implies crate::strutil::lex_le(
        step_name(plan1[i]),
        clv[c].name,
    ) by {
        assert forall|k: int|
            0 <= k < clv[c].deps.len() && !settled(store, reg, #[trigger] clv[c].deps[k])
            implies planned_before(plan0, i, clv[c].deps[k]) by {
            assert(planned_before(plan1, i, clv[c].deps[k]));
        }
        assert(deps_sat(store, reg, plan0, i, clv[c]));
        assert(!planned_before(plan0, i, clv[c].name));
        if i < lnum {
            assert(plan1[i] == plan0[i]);
        } else {
            assert(step_name(plan1[i]) == clv[b].name);
        }
    }
    assert forall|i: int| 0 <= i < plan1.len() implies name_in(
        store_names(clv),
        step_name(#[trigger] plan1[i]),
    ) by {
        if i < lnum {
            assert(plan1[i] == plan0[i]);
        }
    }
    assert(plan1.len() <= clv.len()) by {
        assert forall|i: int| 0 <= i < plan_names(plan1).len() implies name_in(
            store_names(clv),
            #[trigger] plan_names(plan1)[i],
        ) by {
            assert(plan_names(plan1)[i] == step_name(plan1[i]));
        }
        lemma_distinct_names_len(plan_names(plan1), store_names(clv));
    }
}

/// A finished emission is a deterministic install plan covering the closure.
#[verifier::rlimit(100)]
proof fn lemma_emit_finish(
    store: Seq<PackageV>,
    reg: Seq<EntryV>,
    req: Seq<Seq<char>>,
    clv: Seq<PackageV>,
    plan: Seq<PlanStepV>,
)
    requires
        closure_ok(store, reg, req, clv),
        emit_inv(store, reg, req, clv, plan),
        plan.len() == clv.len(),
    ensures
        install_plan_ok(store, reg, req, plan),
        plan_deterministic(store, reg, plan),
        forall|c: int| 0 <= c < clv.len() ==> name_in(plan_names(plan), (#[trigger] clv[c]).name),
{
    assert forall|i: int| 0 <= i < plan.len() implies name_in(
        store_names(clv),
        #[trigger] plan_names(plan)[i],
    ) by {
        assert(plan_names(plan)[i] == step_name(plan[i]));
    }
    assert(plan_names(plan).len() == clv.len());
    assert(store_names(clv).len() == clv.len());
    crate::strutil::lemma_distinct_names_cover(plan_names(plan), store_names(clv));
    assert forall|c: int| 0 <= c < clv.len() implies name_in(
        plan_names(plan),
        (#[trigger] clv[c]).name,
    ) by {
        assert(store_names(clv)[c] == clv[c].name);
        assert(name_in(plan_names(plan), store_names(clv)[c]));
    }
    assert forall|r: int|
        0 <= r < req.len() implies settled(store, reg, #[trigger] req[r]) || planned_before(
        plan,
        plan.len() as int,
        req[r],
    ) by {
        if !settled(store, reg, req[r]) {
            assert(name_in(store_names(clv), req[r]));
            let j = choose|j: int|
                0 <= j < store_names(clv).len() && store_names(clv)[j] == req[r];
            assert(clv[j].name == req[r]);
            assert(name_in(plan_names(plan), clv[j].name));
            let w = choose|w: int|
                0 <= w < plan_names(plan).len() && plan_names(plan)[w] == req[r];
            assert(plan_names(plan)[w] == step_name(plan[w]));
            assert(planned_before(plan, plan.len() as int, req[r]));
        }
    }
    assert(install_plan_ok(store, reg, req, plan));
    assert forall|i: int, j: int|
        0 <= i < j < plan.len() && #[trigger] step_runnable(store, reg, plan, i, j)
        implies crate::strutil::lex_le(step_name(plan[i]), step_name(plan[j])) by {
        assert(name_in(store_names(clv), step_name(plan[j])));
        let c = choose|c: int|
            0 <= c < store_names(clv).len() && store_names(clv)[c] == step_name(plan[j]);
        assert(store_names(clv)[c] == clv[c].name);
        assert(clv[c].name == step_name(plan[j]));
        assert(clv[c] == store_at(store, step_name(plan[j])));
        assert(deps_sat(store, reg, plan, i, clv[c]));
        if planned_before(plan, i, clv[c].name) {
            let w = choose|w: int| 0 <= w < i && step_name(plan[w]) == clv[c].name;
            assert(plan_names(plan)[w] == clv[c].name);
            assert(plan_names(plan)[j] == clv[c].name);
            lemma_distinct_name_index(plan_names(plan), w, j);
            assert(false);
        }
        assert(crate::strutil::lex_le(step_name(plan[i]), clv[c].name));
    }
}

/// A stalled emission yields a cycle witness: the unplanned closure members.
#[verifier::rlimit(100)]
proof fn lemma_emit_stuck(
    store: Seq<PackageV>,
    reg: Seq<EntryV>,
    req: Seq<Seq<char>>,
    clv: Seq<PackageV>,
    plan: Seq<PlanStepV>,
    remv: Seq<Seq<char>>,
)
    requires
        closure_ok(store, reg, req, clv),
        emit_inv(store, reg, req, clv, plan),
        plan.len() < clv.len(),
        forall|c: int|
            0 <= c < clv.len() && !planned_before(plan, plan.len() as int, (#[trigger] clv[c]).name)
                ==> !deps_sat(store, reg, plan, plan.len() as int, clv[c]),
        forall|x: int|
            0 <= x < remv.len() ==> name_in(store_names(clv), #[trigger] remv[x])
                && !planned_before(plan, plan.len() as int, remv[x]),
        forall|j: int|
            0 <= j < clv.len() && !planned_before(plan, plan.len() as int, (#[trigger] clv[j]).name)
                ==> name_in(remv, clv[j].name),
    ensures
        cycle_report_ok(store, reg, req, remv),
{
    let lnum = plan.len() as int;
    if remv.len() == 0 {
        assert forall|j: int| 0 <= j < store_names(clv).len() implies name_in(
            plan_names(plan),
            #[trigger] store_names(clv)[j],
        ) by {
            assert(store_names(clv)[j] == clv[j].name);
            assert(planned_before(plan, lnum, clv[j].name));
            let w = choose|w: int| 0 <= w < lnum && step_name(plan[w]) == clv[j].name;
            assert(plan_names(plan)[w] == clv[j].name);
        }
        lemma_distinct_names_len(store_names(clv), plan_names(plan));
        assert(false);
    }
    assert forall|i: int|
        0 <= i < remv.len() implies store_has(store, #[trigger] remv[i]) && !settled(
        store,
        reg,
        remv[i],
    ) && in_closure(store, reg, req, remv[i]) && stuck_on_member(store, reg, remv, remv[i]) by {
        let j = choose|j: int| 0 <= j < store_names(clv).len() && store_names(clv)[j] == remv[i];
        assert(name_in(store_names(clv), remv[i]));
        assert(store_names(clv)[j] == clv[j].name);
        assert(clv[j].name == remv[i]);
        assert(clv[j] == store_at(store, clv[j].name));
        assert(!planned_before(plan, lnum, clv[j].name));
        assert(!deps_sat(store, reg, plan, lnum, clv[j]));
        let k = choose|k: int|
            0 <= k < clv[j].deps.len() && !(settled(store, reg, clv[j].deps[k]) || planned_before(
                plan,
                lnum,
                clv[j].deps[k],
            ));
        assert(name_in(store_names(clv), clv[j].deps[k]));
        let w = choose|w: int|
            0 <= w < store_names(clv).len() && store_names(clv)[w] == clv[j].deps[k];
        assert(store_names(clv)[w] == clv[w].name);
        assert(clv[w].name == clv[j].deps[k]);
        assert(!planned_before(plan, lnum, clv[w].name));
        assert(name_in(remv, clv[w].name));
        assert(0 <= k < store_at(store, remv[i]).deps.len() && !settled(
            store,
            reg,
            store_at(store, remv[i]).deps[k],
        ) && name_in(remv, store_at(store, remv[i]).deps[k]));
        assert(stuck_on_member(store, reg, remv, remv[i]));
    }
}

/// Collects the closure members that no order can reach: the cycle report.
#[verifier::rlimit(100)]
fn stuck_names(
    store: &MetadataStore,
    reg: &Registry,
    req: Ghost<Seq<Seq<char>>>,
    closure: &Vec<Package>,
    emitted: &Vec<PlanStep>,
) -> (rem: Vec<String>)
    requires
        store.wf(),
        reg.wf(),
        closure_ok(store@, reg@, req@, closure.deep_view()),
        emit_inv(store@, reg@, req@, closure.deep_view(), emitted.deep_view()),
        emitted.deep_view().len() < closure.deep_view().len(),
        forall|c: int|
            0 <= c < closure.deep_view().len() && !planned_before(
                emitted.deep_view(),
                emitted.deep_view().len() as int,
                (#[trigger] closure.deep_view()[c]).name,
            ) ==> !deps_sat(
                store@,
                reg@,
                emitted.deep_view(),
                emitted.deep_view().len() as int,
                closure.deep_view()[c],
            ),
    ensures
        cycle_report_ok(store@, reg@, req@, rem.deep_view()),
{
    let ghost clv = closure.deep_view();
    let ghost plan = emitted.deep_view();
    let ghost lnum = plan.len() as int;
    let mut rem: Vec<String> = Vec::new();
    let mut c: usize = 0;
    while c < closure.len()
        invariant
            store.wf(),
            reg.wf(),
            clv == closure.deep_view(),
            plan == emitted.deep_view(),
            lnum == plan.len() as int,
            0 <= c <= closure.len(),
            forall|x: int|
                0 <= x < rem.deep_view().len() ==> name_in(
                    store_names(clv),
                    #[trigger] rem.deep_view()[x],
                ) && !planned_before(plan, lnum, rem.deep_view()[x]),
            forall|j: int|
                0 <= j < c && !planned_before(plan, lnum, (#[trigger] clv[j]).name) ==> name_in(
                    rem.deep_view(),
                    clv[j].name,
                ),
        decreases closure.len() - c,
    {
        let nm = &closure[c].name;
        proof {
            assert(nm@ == clv[c as int].name);
        }
        if !plan_contains_name(emitted, nm) {
            let ghost rpre = rem.deep_view();
            rem.push(nm.clone());
            proof {
                assert(rem.deep_view() =~= rpre.push(clv[c as int].name));
                assert(rem.deep_view()[rpre.len() as int] == clv[c as int].name);
                assert(name_in(store_names(clv), clv[c as int].name)) by {
                    assert(store_names(clv)[c as int] == clv[c as int].name);
                }
                assert forall|x: Seq<char>| name_in(rpre, x) implies name_in(
                    rem.deep_view(),
                    x,
                ) by {
                    let j = choose|j: int| 0 <= j < rpre.len() && rpre[j] == x;
                    assert(rem.deep_view()[j] == x);
                }
                assert(name_in(rem.deep_view(), clv[c as int].name));
            }
        }
        c = c + 1;
    }
    proof {
        lemma_emit_stuck(store@, reg@, req@, clv, plan, rem.deep_view());
    }
    rem
}

/// Orders the closure into a deterministic, dependency-respecting sequence of
/// install and upgrade steps, or reports the stuck packages as a cycle.
#[verifier::rlimit(100)]
fn order_install(
    store: &MetadataStore,
    reg: &Registry,
    req: Ghost<Seq<Seq<char>>>,
    closure: &Vec<Package>,
) -> (r: Result<Vec<PlanStep>, ResolutionError>)
    requires
        store.wf(),
        reg.wf(),
        closure_ok(store@, reg@, req@, closure.deep_view()),
    ensures
        match r {
            Ok(plan) => install_plan_ok(store@, reg@, req@, plan.deep_view())
                && plan_deterministic(store@, reg@, plan.deep_view()) && plan.deep_view().len()
                == closure.deep_view().len() && (forall|c: int|
                0 <= c < closure.deep_view().len() ==> name_in(
                    plan_names(plan.deep_view()),
                    (#[trigger] closure.deep_view()[c]).name,
                )),
            Err(e) => e matches ResolutionError::CyclicDependency { path } && cycle_report_ok(
                store@,
                reg@,
                req@,
                path.deep_view(),
            ),
        },
{
    let ghost clv = closure.deep_view();
    let ghost reqg = req@;
    let mut emitted: Vec<PlanStep> = Vec::new();
    while emitted.len() < closure.len()
        invariant
            store.wf(),
            reg.wf(),
            reqg == req@,
            closure_ok(store@, reg@, reqg, clv),
            clv == closure.deep_view(),
            emit_inv(store@, reg@, reqg, clv, emitted.deep_view()),
        decreases clv.len() - emitted.deep_view().len(),
    {
        let ghost plan0 = emitted.deep_view();
        let ghost lnum = plan0.len() as int;
        let mut best: Option<usize> = None;
        let mut idx: usize = 0;
        while idx < closure.len()
            invariant
                store.wf(),
                reg.wf(),
                clv == closure.deep_view(),
                plan0 == emitted.deep_view(),
                lnum == plan0.len() as int,
                0 <= idx <= closure.len(),
                match best {
                    Some(b) => b < closure.len() && !planned_before(plan0, lnum, clv[b as int].name)
                        && deps_sat(store@, reg@, plan0, lnum, clv[b as int]) && (forall|c: int|
                        0 <= c < idx && !planned_before(plan0, lnum, (#[trigger] clv[c]).name)
                            && deps_sat(store@, reg@, plan0, lnum, clv[c])
                            ==> crate::strutil::lex_le(clv[b as int].name, clv[c].name)),
                    None => forall|c: int|
                        0 <= c < idx && !planned_before(plan0, lnum, (#[trigger] clv[c]).name)
                            ==> !deps_sat(store@, reg@, plan0, lnum, clv[c]),
                },
            decreases closure.len() - idx,
        {
            let cand = &closure[idx];
            proof {
                assert(cand@ == clv[idx as int]);
            }
            if !plan_contains_name(&emitted, &cand.name) && deps_satisfied(
                store,
                reg,
                &emitted,
                cand,
            ) {
                match best {
                    None => {
                        best = Some(idx);
                    },
                    Some(b) => {
                        if crate::strutil::str_lt(cand.name.as_str(), closure[b].name.as_str()) {
                            proof {
                                assert forall|c: int|
                                    0 <= c < idx + 1 && !planned_before(
                                        plan0,
                                        lnum,
                                        (#[trigger] clv[c]).name,
                                    ) && deps_sat(store@, reg@, plan0, lnum, clv[c])
                                    implies crate::strutil::lex_le(
                                    clv[idx as int].name,
                                    clv[c].name,
                                ) by {
                                    if c < idx {
                                        assert(crate::strutil::lex_le(
                                            clv[b as int].name,
                                            clv[c].name,
                                        ));
                                        if crate::strutil::lex_lt(clv[b as int].name, clv[c].name) {
                                            crate::strutil::lemma_lex_lt_trans(
                                                clv[idx as int].name,
                                                clv[b as int].name,
                                                clv[c].name,
                                            );
                                        }
                                    } else {
                                        crate::strutil::lemma_lex_lt_irrefl(clv[idx as int].name);
                                    }
                                }
                            }
                            best = Some(idx);
                        } else {
                            proof {
                                if !crate::strutil::lex_lt(
                                    clv[b as int].name,
                                    clv[idx as int].name,
                                ) {
                                    crate::strutil::lemma_lex_connex(
                                        clv[b as int].name,
                                        clv[idx as int].name,
                                    );
                                }
                                assert(crate::strutil::lex_le(
                                    clv[b as int].name,
                                    clv[idx as int].name,
                                ));
                            }
                        }
                    },
                }
            }
            idx = idx + 1;
        }
        match best {
            Some(b) => {
                let pkg = closure[b].clone();
                proof {
                    assert(pkg@ == clv[b as int]);
                    assert(pkg@ == store_at(store@, pkg@.name));
                }
                let installed = reg.get(&pkg.name).is_some();
                let step = if installed {
                    PlanStep::Upgrade { pkg }
                } else {
                    PlanStep::Install { pkg }
                };
                proof {
                    assert(step_name(step@) == clv[b as int].name);
                    assert(install_step_ok(store@, reg@, step@));
                }
                emitted.push(step);
                proof {
                    assert(emitted.deep_view() =~= plan0.push(step@));
                    lemma_emit_step(store@, reg@, reqg, clv, plan0, step@, b as int);
                }
            },
            None => {
                let rem = stuck_names(store, reg, req, closure, &emitted);
                return Err(ResolutionError::CyclicDependency { path: rem });
            },
        }
    }
    proof {
        lemma_emit_finish(store@, reg@, reqg, clv, emitted.deep_view());
    }
    Ok(emitted)
}


/// No step's files collide with another step's files or with the files of an
/// installed package that the plan leaves in place.
pub open spec fn plan_conflict_free(
    store: Seq<PackageV>,
    reg: Seq<EntryV>,
    plan: Seq<PlanStepV>,
) -> bool {
    &&& forall|i: int, j: int|
        0 <= i < j < plan.len() ==> files_disjoint(
            step_files(store, #[trigger] plan[i]),
            step_files(store, #[trigger] plan[j]),
        )
    &&& forall|i: int, e: int|
        0 <= i < plan.len() && 0 <= e < reg.len() && !planned_before(
            plan,
            plan.len() as int,
            (#[trigger] reg[e]).name,
        ) ==> files_disjoint(step_files(store, #[trigger] plan[i]), reg[e].files)
}

/// A genuine collision inside this plan: two planned packages both claim
/// destination `f`, or a planned package claims a destination owned by an
/// installed package the plan leaves in place.
pub open spec fn conflict_in_plan(
    store: Seq<PackageV>,
    reg: Seq<EntryV>,
    pl: Seq<PlanStepV>,
    f: Seq<char>,
    a: Seq<char>,
    b: Seq<char>,
) -> bool {
    ||| exists|i: int, j: int|
        #![trigger pl[i], pl[j]]
        0 <= i < j < pl.len() && step_name(pl[i]) == a && step_name(pl[j]) == b && name_in(
            step_files(store, pl[i]),
            f,
        ) && name_in(step_files(store, pl[j]), f)
    ||| exists|i: int, e: int|
        #![trigger pl[i], reg[e]]
        0 <= i < pl.len() && 0 <= e < reg.len() && step_name(pl[i]) == a && reg[e].name == b
            && !planned_before(pl, pl.len() as int, b) && name_in(step_files(store, pl[i]), f)
            && name_in(reg[e].files, f)
}

/// First destination path present in both lists.
fn find_shared_file<'a>(a: &'a Vec<String>, b: &Vec<String>) -> (r: Option<&'a String>)
    ensures
        match r {
            Some(f) => name_in(a.deep_view(), f@) && name_in(b.deep_view(), f@),
            None => files_disjoint(a.deep_view(), b.deep_view()),
        },
{
    let mut i: usize = 0;
    while i < a.len()
        invariant
            0 <= i <= a.len(),
            forall|x: int| 0 <= x < i ==> !name_in(b.deep_view(), #[trigger] a.deep_view()[x]),
        decreases a.len() - i,
    {
        if contains_name(b, &a[i]) {
            proof {
                assert(a.deep_view()[i as int] == a[i as int]@);
                assert(name_in(a.deep_view(), a.deep_view()[i as int]));
            }
            return Some(&a[i]);
        }
        proof {
            assert(a.deep_view()[i as int] == a[i as int]@);
        }
        i = i + 1;
    }
    proof {
        assert forall|f: Seq<char>| name_in(a.deep_view(), f) implies !name_in(
            b.deep_view(),
            f,
        ) by {
            let x = choose|x: int| 0 <= x < a.deep_view().len() && a.deep_view()[x] == f;
            assert(!name_in(b.deep_view(), a.deep_view()[x]));
        }
    }
    None
}

/// The files an install or upgrade step would place; a removal places none.
fn step_file_list<'a>(s: &'a PlanStep) -> (r: Option<&'a Vec<String>>)
    ensures
        match s@ {
            PlanStepV::Install { pkg } => r matches Some(f) && f.deep_view() == pkg.files,
            PlanStepV::Upgrade { pkg } => r matches Some(f) && f.deep_view() == pkg.files,
            PlanStepV::Remove { .. } => r is None,
        },
{
    match s {
        PlanStep::Install { pkg } => Some(&pkg.files),
        PlanStep::Upgrade { pkg } => Some(&pkg.files),
        PlanStep::Remove { .. } => None,
    }
}

/// Looks for a destination claimed twice: by two planned packages, or by a
/// planned package and an installed one the plan leaves in place.
#[verifier::rlimit(100)]
fn check_conflicts(store: &MetadataStore, reg: &Registry, plan: &Vec<PlanStep>) -> (r: Option<
    ResolutionError,
>)
    requires
        store.wf(),
        reg.wf(),
        forall|i: int|
            0 <= i < plan.deep_view().len() ==> install_step_ok(
                store@,
                reg@,
                #[trigger] plan.deep_view()[i],
            ),
        names_distinct(plan_names(plan.deep_view())),
    ensures
        match r {
            None => plan_conflict_free(store@, reg@, plan.deep_view()),
            Some(e) => e matches ResolutionError::FileConflict {
                path,
                package_a,
                package_b,
            } && conflict_in_plan(
                store@,
                reg@,
                plan.deep_view(),
                path@,
                package_a@,
                package_b@,
            ),
        },
{
    let ghost planv = plan.deep_view();
    let mut i: usize = 0;
    while i < plan.len()
        invariant
            store.wf(),
            reg.wf(),
            planv == plan.deep_view(),
            forall|i0: int|
                0 <= i0 < planv.len() ==> install_step_ok(store@, reg@, #[trigger] planv[i0]),
            names_distinct(plan_names(planv)),
            0 <= i <= plan.len(),
            forall|a: int, j: int|
                0 <= a < i && a < j < planv.len() ==> files_disjoint(
                    step_files(store@, #[trigger] planv[a]),
                    step_files(store@, #[trigger] planv[j]),
                ),
            forall|a: int, e: int|
                0 <= a < i && 0 <= e < reg@.len() && !planned_before(
                    planv,
                    planv.len() as int,
                    (#[trigger] reg@[e]).name,
                ) ==> files_disjoint(step_files(store@, #[trigger] planv[a]), reg@[e].files),
        decreases plan.len() - i,
    {
        proof {
            assert(planv[i as int] == plan@[i as int]@);
            assert(install_step_ok(store@, reg@, planv[i as int]));
        }
        let fa = match step_file_list(&plan[i]) {
            Some(f) => f,
            None => {
                proof {
                    assert(false);
                }
                return None;
            },
        };
        proof {
            assert(fa.deep_view() == step_files(store@, planv[i as int]));
        }
        let mut j: usize = i + 1;
        while j < plan.len()
            invariant
                store.wf(),
                reg.wf(),
                planv == plan.deep_view(),
                forall|i0: int|
                    0 <= i0 < planv.len() ==> install_step_ok(store@, reg@, #[trigger] planv[i0]),
                names_distinct(plan_names(planv)),
                0 <= i < plan.len(),
                i < j <= plan.len(),
                fa.deep_view() == step_files(store@, planv[i as int]),
                forall|j0: int|
                    i < j0 < j ==> files_disjoint(
                        step_files(store@, planv[i as int]),
                        step_files(store@, #[trigger] planv[j0]),
                    ),
            decreases plan.len() - j,
        {
            proof {
                assert(planv[j as int] == plan@[j as int]@);
                assert(install_step_ok(store@, reg@, planv[j as int]));
            }
            let fb = match step_file_list(&plan[j]) {
                Some(f) => f,
                None => {
                    proof {
                        assert(false);
                    }
                    return None;
                },
            };
            proof {
                assert(fb.deep_view() == step_files(store@, planv[j as int]));
            }
            if let Some(f) = find_shared_file(fa, fb) {
                let file = f.clone();
                let a_name = step_pkg_name(&plan[i]).clone();
                let b_name = step_pkg_name(&plan[j]).clone();
                proof {
                    assert(a_name@ == step_name(planv[i as int]));
                    assert(b_name@ == step_name(planv[j as int]));
                    assert(plan_names(planv)[i as int] == a_name@);
                    assert(plan_names(planv)[j as int] == b_name@);
                    assert(install_step_ok(store@, reg@, planv[i as int]));
                    assert(install_step_ok(store@, reg@, planv[j as int]));
                    assert(step_files(store@, planv[i as int]) == store_at(store@, a_name@).files);
                    assert(step_files(store@, planv[j as int]) == store_at(store@, b_name@).files);
                }
                return Some(
                    ResolutionError::FileConflict {
                        path: file,
                        package_a: a_name,
                        package_b: b_name,
                    },
                );
            }
            j = j + 1;
        }
        let installed = reg.list();
        let mut e: usize = 0;
        while e < installed.len()
            invariant
                store.wf(),
                reg.wf(),
                planv == plan.deep_view(),
                forall|i0: int|
                    0 <= i0 < planv.len() ==> install_step_ok(store@, reg@, #[trigger] planv[i0]),
                names_distinct(plan_names(planv)),
                0 <= i < plan.len(),
                0 <= e <= installed.len(),
                installed.deep_view() == reg@,
                fa.deep_view() == step_files(store@, planv[i as int]),
                forall|e0: int|
                    0 <= e0 < e && !planned_before(
                        planv,
                        planv.len() as int,
                        (#[trigger] reg@[e0]).name,
                    ) ==> files_disjoint(step_files(store@, planv[i as int]), reg@[e0].files),
            decreases installed.len() - e,
        {
            if !plan_contains_name(plan, &installed[e].name) {
                proof {
                    assert(installed.deep_view()[e as int] == reg@[e as int]);
                    assert(installed[e as int]@.name == reg@[e as int].name);
                }
                if let Some(f) = find_shared_file(fa, &installed[e].files) {
                    let file = f.clone();
                    let a_name = step_pkg_name(&plan[i]).clone();
                    let b_name = installed[e].name.clone();
                    proof {
                        assert(a_name@ == step_name(planv[i as int]));
                        assert(install_step_ok(store@, reg@, planv[i as int]));
                        assert(step_files(store@, planv[i as int]) == store_at(
                            store@,
                            a_name@,
                        ).files);
                        assert(reg_has(reg@, b_name@));
                        let w = crate::types::reg_idx(reg@, b_name@);
                        assert(0 <= w < reg@.len() && reg@[w].name == b_name@);
                        assert(crate::registry::reg_names(reg@)[w] == reg@[w].name);
                        assert(crate::registry::reg_names(reg@)[e as int] == reg@[e as int].name);
                        lemma_distinct_name_index(crate::registry::reg_names(reg@), w, e as int);
                        assert(reg_at(reg@, b_name@) == reg@[e as int]);
                        assert(installed[e as int]@.files == reg@[e as int].files);
                        assert(name_in(reg_at(reg@, b_name@).files, file@));
                        // a planned name never matches a retained entry
                        assert(planned_before(planv, planv.len() as int, a_name@)) by {
                            assert(step_name(planv[i as int]) == a_name@);
                        }
                        assert(a_name@ != b_name@);
                    }
                    return Some(
                        ResolutionError::FileConflict {
                            path: file,
                            package_a: a_name,
                            package_b: b_name,
                        },
                    );
                }
            }
            e = e + 1;
        }
        i = i + 1;
    }
    None
}

/// Everything a completed install resolution promises, success or failure.
pub open spec fn install_result_ok(
    store: Seq<PackageV>,
    reg: Seq<EntryV>,
    req: Seq<Seq<char>>,
    r: Result<Vec<PlanStep>, ResolutionError>,
) -> bool {
    match r {
        Ok(plan) => install_plan_ok(store, reg, req, plan.deep_view()) && plan_deterministic(
            store,
            reg,
            plan.deep_view(),
        ) && plan_conflict_free(store, reg, plan.deep_view()),
        Err(e) => match e {
            ResolutionError::UnknownPackage { name } => in_closure(store, reg, req, name@)
                && !store_has(store, name@),
            ResolutionError::CyclicDependency { path } => cycle_report_ok(
                store,
                reg,
                req,
                path.deep_view(),
            ),
            ResolutionError::FileConflict { path, package_a, package_b } => exists|
                pl: Seq<PlanStepV>,
            |
                #[trigger] install_plan_ok(store, reg, req, pl) && plan_deterministic(
                    store,
                    reg,
                    pl,
                ) && conflict_in_plan(store, reg, pl, path@, package_a@, package_b@),
            ResolutionError::NotInstalled { .. } => false,
            ResolutionError::DependentsExist { .. } => false,
        },
    }
}

/// Turns an install request into an ordered, conflict-free plan, or reports
/// exactly why none exists.
pub fn resolve_install(store: &MetadataStore, reg: &Registry, names: &Vec<String>) -> (r: Result<
    Vec<PlanStep>,
    ResolutionError,
>)
    requires
        store.wf(),
        reg.wf(),
    ensures
        install_result_ok(store@, reg@, names.deep_view(), r),
{
    let closure = match collect_closure(store, reg, names) {
        Ok(cl) => cl,
        Err(e) => {
            return Err(e);
        },
    };
    let plan = match order_install(store, reg, Ghost(names.deep_view()), &closure) {
        Ok(p) => p,
        Err(e) => {
            return Err(e);
        },
    };
    match check_conflicts(store, reg, &plan) {
        Some(e) => {
            proof {
                assert(install_plan_ok(store@, reg@, names.deep_view(), plan.deep_view())
                    && plan_deterministic(store@, reg@, plan.deep_view()));
            }
            Err(e)
        },
        None => Ok(plan),
    }
}


/// Requesting only packages that are already installed at the offered version
/// yields the empty plan: nothing needs work, so nothing is planned.
pub proof fn lemma_settled_request_plans_nothing(
    store: Seq<PackageV>,
    reg: Seq<EntryV>,
    req: Seq<Seq<char>>,
    plan: Seq<PlanStepV>,
)
    requires
        install_plan_ok(store, reg, req, plan),
        forall|r: int| 0 <= r < req.len() ==> settled(store, reg, #[trigger] req[r]),
    ensures
        plan.len() == 0,
{
    if plan.len() > 0 {
        assert(in_closure(store, reg, req, step_name(plan[0])));
        let p = choose|p: Seq<Seq<char>>|
            is_dep_path(store, reg, req, p) && p.last() == step_name(plan[0]);
        assert(!settled(store, reg, p[0]));
        assert(name_in(req, p[0]));
        let j = choose|j: int| 0 <= j < req.len() && req[j] == p[0];
        assert(settled(store, reg, req[j]));
        assert(false);
    }
}

/// Every package that a dependency path reaches is planned.
proof fn lemma_closure_planned(
    store: Seq<PackageV>,
    reg: Seq<EntryV>,
    req: Seq<Seq<char>>,
    plan: Seq<PlanStepV>,
    pth: Seq<Seq<char>>,
)
    requires
        install_plan_ok(store, reg, req, plan),
        is_dep_path(store, reg, req, pth),
    ensures
        planned_before(plan, plan.len() as int, pth.last()),
    decreases pth.len(),
{
    if pth.len() == 1 {
        let j = choose|j: int| 0 <= j < req.len() && req[j] == pth[0];
        assert(name_in(req, pth[0]));
        assert(settled(store, reg, req[j]) || planned_before(plan, plan.len() as int, req[j]));
        assert(!settled(store, reg, pth[0]));
    } else {
        let pre = pth.drop_last();
        assert(pre.len() == pth.len() - 1);
        assert forall|i: int| 0 <= i < pre.len() implies !settled(store, reg, #[trigger] pre[i]) by {
            assert(pre[i] == pth[i]);
        }
        assert forall|i: int|
            0 <= i < pre.len() - 1 implies store_has(store, #[trigger] pre[i]) && name_in(
            store_at(store, pre[i]).deps,
            pre[i + 1],
        ) by {
            assert(pre[i] == pth[i]);
            assert(pre[i + 1] == pth[i + 1]);
        }
        assert(pre[0] == pth[0]);
        assert(is_dep_path(store, reg, req, pre));
        lemma_closure_planned(store, reg, req, plan, pre);
        let prev = pre.last();
        assert(prev == pth[pth.len() - 2]);
        let j = choose|j: int| 0 <= j < plan.len() && step_name(plan[j]) == prev;
        assert(planned_before(plan, plan.len() as int, prev));
        assert(store_has(store, prev) && name_in(store_at(store, prev).deps, pth.last()));
        let k = choose|k: int|
            0 <= k < store_at(store, prev).deps.len() && store_at(store, prev).deps[k]
                == pth.last();
        assert(step_deps(store, plan[j])[k] == pth.last());
        assert(settled(store, reg, step_deps(store, plan[j])[k]) || planned_before(
            plan,
            j,
            step_deps(store, plan[j])[k],
        ));
        assert(!settled(store, reg, pth.last()));
        let w = choose|w: int| 0 <= w < j && step_name(plan[w]) == pth.last();
        assert(planned_before(plan, plan.len() as int, pth.last()));
    }
}

/// Two plans that both satisfy the resolver's contract for the same store,
/// registry and request agree from position `m` on, given that they agree
/// before it.
#[verifier::rlimit(100)]
proof fn lemma_plans_agree(
    store: Seq<PackageV>,
    reg: Seq<EntryV>,
    req: Seq<Seq<char>>,
    p: Seq<PlanStepV>,
    q: Seq<PlanStepV>,
    m: int,
)
    requires
        install_plan_ok(store, reg, req, p),
        plan_deterministic(store, reg, p),
        install_plan_ok(store, reg, req, q),
        plan_deterministic(store, reg, q),
        0 <= m <= p.len(),
        m <= q.len(),
        forall|i: int| 0 <= i < m ==> p[i] == q[i],
    ensures
        p == q,
    decreases p.len() - m,
{
    if m == p.len() {
        if q.len() > m {
            assert(in_closure(store, reg, req, step_name(q[m])));
            let pth = choose|pth: Seq<Seq<char>>|
                is_dep_path(store, reg, req, pth) && pth.last() == step_name(q[m]);
            lemma_closure_planned(store, reg, req, p, pth);
            let j = choose|j: int| 0 <= j < p.len() && step_name(p[j]) == step_name(q[m]);
            assert(q[j] == p[j]);
            assert(plan_names(q)[j] == step_name(q[j]));
            assert(plan_names(q)[m] == step_name(q[m]));
            lemma_distinct_name_index(plan_names(q), j, m);
            assert(false);
        }
        assert(p =~= q);
    } else if m == q.len() {
        assert(in_closure(store, reg, req, step_name(p[m])));
        let pth = choose|pth: Seq<Seq<char>>|
            is_dep_path(store, reg, req, pth) && pth.last() == step_name(p[m]);
        lemma_closure_planned(store, reg, req, q, pth);
        let j = choose|j: int| 0 <= j < q.len() && step_name(q[j]) == step_name(p[m]);
        assert(p[j] == q[j]);
        assert(plan_names(p)[j] == step_name(p[j]));
        assert(plan_names(p)[m] == step_name(p[m]));
        lemma_distinct_name_index(plan_names(p), j, m);
        assert(false);
    } else {
        // the two prefixes plan the same names
        assert forall|d: Seq<char>|
            planned_before(p, m, d) == planned_before(q, m, d) by {
            if planned_before(p, m, d) {
                let j = choose|j: int| 0 <= j < m && step_name(p[j]) == d;
                assert(step_name(q[j]) == d);
            }
            if planned_before(q, m, d) {
                let j = choose|j: int| 0 <= j < m && step_name(q[j]) == d;
                assert(step_name(p[j]) == d);
            }
        }
        // p[m] appears in q at or after m, and could already run there
        assert(in_closure(store, reg, req, step_name(p[m])));
        let pthp = choose|pth: Seq<Seq<char>>|
            is_dep_path(store, reg, req, pth) && pth.last() == step_name(p[m]);
        lemma_closure_planned(store, reg, req, q, pthp);
        let jq = choose|j: int| 0 <= j < q.len() && step_name(q[j]) == step_name(p[m]);
        if jq < m {
            assert(step_name(p[jq]) == step_name(p[m]));
            assert(plan_names(p)[jq] == step_name(p[jq]));
            assert(plan_names(p)[m] == step_name(p[m]));
            lemma_distinct_name_index(plan_names(p), jq, m);
            assert(false);
        }
        assert(step_runnable(store, reg, p, m, m)) by {
            let pk = store_at(store, step_name(p[m]));
            assert forall|k: int|
                0 <= k < pk.deps.len() implies settled(store, reg, #[trigger] pk.deps[k])
                || planned_before(p, m, pk.deps[k]) by {
                assert(step_deps(store, p[m])[k] == pk.deps[k]);
                assert(settled(store, reg, step_deps(store, p[m])[k]) || planned_before(
                    p,
                    m,
                    step_deps(store, p[m])[k],
                ));
            }
        }
        if jq > m {
            assert(step_runnable(store, reg, q, m, jq)) by {
                assert(step_name(q[jq]) == step_name(p[m]));
                let pk = store_at(store, step_name(q[jq]));
                assert forall|k: int|
                    0 <= k < pk.deps.len() implies settled(store, reg, #[trigger] pk.deps[k])
                    || planned_before(q, m, pk.deps[k]) by {
                    assert(step_deps(store, p[m])[k] == pk.deps[k]);
                    assert(settled(store, reg, step_deps(store, p[m])[k]) || planned_before(
                        p,
                        m,
                        step_deps(store, p[m])[k],
                    ));
                }
            }
            assert(crate::strutil::lex_le(step_name(q[m]), step_name(p[m])));
        }
        // and symmetrically q[m] appears in p at or after m
        assert(in_closure(store, reg, req, step_name(q[m])));
        let pthq = choose|pth: Seq<Seq<char>>|
            is_dep_path(store, reg, req, pth) && pth.last() == step_name(q[m]);
        lemma_closure_planned(store, reg, req, p, pthq);
        let jp = choose|j: int| 0 <= j < p.len() && step_name(p[j]) == step_name(q[m]);
        if jp < m {
            assert(step_name(q[jp]) == step_name(q[m]));
            assert(plan_names(q)[jp] == step_name(q[jp]));
            assert(plan_names(q)[m] == step_name(q[m]));
            lemma_distinct_name_index(plan_names(q), jp, m);
            assert(false);
        }
        if jp > m {
            assert(step_runnable(store, reg, p, m, jp)) by {
                assert(step_name(p[jp]) == step_name(q[m]));
                let pk = store_at(store, step_name(p[jp]));
                assert forall|k: int|
                    0 <= k < pk.deps.len() implies settled(store, reg, #[trigger] pk.deps[k])
                    || planned_before(p, m, pk.deps[k]) by {
                    assert(step_deps(store, q[m])[k] == pk.deps[k]);
                    assert(settled(store, reg, step_deps(store, q[m])[k]) || planned_before(
                        q,
                        m,
                        step_deps(store, q[m])[k],
                    ));
                }
            }
            assert(crate::strutil::lex_le(step_name(p[m]), step_name(q[m])));
        }
        // the two names agree, hence the steps agree
        if jq > m && jp > m {
            crate::strutil::lemma_lex_antisym(step_name(p[m]), step_name(q[m]));
        }
        assert(step_name(p[m]) == step_name(q[m]));
        assert(install_step_ok(store, reg, p[m]));
        assert(install_step_ok(store, reg, q[m]));
        assert(p[m] == q[m]);
        lemma_plans_agree(store, reg, req, p, q, m + 1);
    }
}

/// Resolution is deterministic: for one store, registry and request there is
/// exactly one plan satisfying the resolver's contract, so two resolutions of
/// the same request yield identical plans.
pub proof fn lemma_install_plan_unique(
    store: Seq<PackageV>,
    reg: Seq<EntryV>,
    req: Seq<Seq<char>>,
    p: Seq<PlanStepV>,
    q: Seq<PlanStepV>,
)
    requires
        install_plan_ok(store, reg, req, p),
        plan_deterministic(store, reg, p),
        install_plan_ok(store, reg, req, q),
        plan_deterministic(store, reg, q),
    ensures
        p == q,
{
    lemma_plans_agree(store, reg, req, p, q, 0);
}


/// Nodes of a dependency path stay inside a mutually dependent pair.
proof fn lemma_path_stays_in_pair(
    store: Seq<PackageV>,
    reg: Seq<EntryV>,
    req: Seq<Seq<char>>,
    pth: Seq<Seq<char>>,
    a: Seq<char>,
    b: Seq<char>,
    i: int,
)
    requires
        is_dep_path(store, reg, req, pth),
        req.len() == 1,
        req[0] == a || req[0] == b,
        store_at(store, a).deps == seq![b],
        store_at(store, b).deps == seq![a],
        store_has(store, a),
        store_has(store, b),
        0 <= i < pth.len(),
    ensures
        pth[i] == a || pth[i] == b,
    decreases i,
{
    if i == 0 {
        assert(name_in(req, pth[0]));
        let j = choose|j: int| 0 <= j < req.len() && req[j] == pth[0];
        assert(j == 0);
    } else {
        lemma_path_stays_in_pair(store, reg, req, pth, a, b, i - 1);
        assert(store_has(store, pth[i - 1]) && name_in(store_at(store, pth[i - 1]).deps, pth[i]));
        let k = choose|k: int|
            0 <= k < store_at(store, pth[i - 1]).deps.len() && #[trigger] store_at(
                store,
                pth[i - 1],
            ).deps[k] == pth[i];
        if pth[i - 1] == a {
            assert(store_at(store, a).deps[k] == pth[i]);
            assert(seq![b][k] == pth[i]);
        } else {
            assert(store_at(store, b).deps[k] == pth[i]);
            assert(seq![a][k] == pth[i]);
        }
    }
}

/// A store in which two absent packages each depend exactly on the other
/// makes any single request touching either of them fail as a cyclic
/// dependency: no plan, no unknown package and no file conflict is possible.
pub proof fn lemma_mutual_dependency_cycles(
    store: Seq<PackageV>,
    reg: Seq<EntryV>,
    req: Seq<Seq<char>>,
    a: Seq<char>,
    b: Seq<char>,
    r: Result<Vec<PlanStep>, ResolutionError>,
)
    requires
        install_result_ok(store, reg, req, r),
        store_has(store, a),
        store_has(store, b),
        a != b,
        store_at(store, a).deps == seq![b],
        store_at(store, b).deps == seq![a],
        !reg_has(reg, a),
        !reg_has(reg, b),
        req.len() == 1,
        req[0] == a || req[0] == b,
    ensures
        r matches Err(e) && e matches ResolutionError::CyclicDependency { .. },
{
    match r {
        Ok(plan) => {
            let pl = plan.deep_view();
            assert(install_plan_ok(store, reg, req, pl));
            assert(!settled(store, reg, req[0]));
            assert(planned_before(pl, pl.len() as int, req[0]));
            let istart = choose|j: int| 0 <= j < pl.len() && step_name(pl[j]) == req[0];
            assert(step_name(pl[istart]) == a || step_name(pl[istart]) == b);
            lemma_pair_not_planned(store, reg, req, pl, a, b, pl.len() as int);
            assert(false);
        },
        Err(e) => match e {
            ResolutionError::UnknownPackage { name } => {
                assert(in_closure(store, reg, req, name@));
                let pth = choose|pth: Seq<Seq<char>>|
                    is_dep_path(store, reg, req, pth) && pth.last() == name@;
                lemma_path_stays_in_pair(store, reg, req, pth, a, b, pth.len() - 1);
                assert(store_has(store, name@));
                assert(false);
            },
            ResolutionError::CyclicDependency { .. } => {},
            ResolutionError::FileConflict { .. } => {
                let pl = choose|pl: Seq<PlanStepV>|
                    install_plan_ok(store, reg, req, pl) && plan_deterministic(store, reg, pl);
                assert(install_plan_ok(store, reg, req, pl));
                assert(!settled(store, reg, req[0]));
                assert(planned_before(pl, pl.len() as int, req[0]));
                let istart = choose|j: int| 0 <= j < pl.len() && step_name(pl[j]) == req[0];
                assert(step_name(pl[istart]) == a || step_name(pl[istart]) == b);
                lemma_pair_not_planned(store, reg, req, pl, a, b, pl.len() as int);
                assert(false);
            },
            ResolutionError::NotInstalled { .. } => {
                assert(false);
            },
            ResolutionError::DependentsExist { .. } => {
                assert(false);
            },
        },
    }
}

/// In a valid plan, neither member of a mutually dependent, uninstalled pair
/// can appear: each would need the other placed first.
proof fn lemma_pair_not_planned(
    store: Seq<PackageV>,
    reg: Seq<EntryV>,
    req: Seq<Seq<char>>,
    plan: Seq<PlanStepV>,
    a: Seq<char>,
    b: Seq<char>,
    i: int,
)
    requires
        install_plan_ok(store, reg, req, plan),
        store_has(store, a),
        store_has(store, b),
        a != b,
        store_at(store, a).deps == seq![b],
        store_at(store, b).deps == seq![a],
        !reg_has(reg, a),
        !reg_has(reg, b),
        0 <= i <= plan.len(),
    ensures
        forall|j: int| 0 <= j < i ==> step_name(#[trigger] plan[j]) != a && step_name(plan[j]) != b,
    decreases i,
{
    if i > 0 {
        lemma_pair_not_planned(store, reg, req, plan, a, b, i - 1);
        if step_name(plan[i - 1]) == a || step_name(plan[i - 1]) == b {
            let n = step_name(plan[i - 1]);
            let other = if n == a { b } else { a };
            assert(step_deps(store, plan[i - 1]) == seq![other]);
            assert(step_deps(store, plan[i - 1])[0] == other);
            assert(!settled(store, reg, other));
            assert(settled(store, reg, step_deps(store, plan[i - 1])[0]) || planned_before(
                plan,
                i - 1,
                step_deps(store, plan[i - 1])[0],
            ));
            let j = choose|j: int| 0 <= j < i - 1 && step_name(plan[j]) == other;
            assert(step_name(plan[j]) != a && step_name(plan[j]) != b);
            assert(false);
        }
    }
}


// ---------------------------------------------------------------------------
// Removal: cascade computation and reverse-dependency ordering.
// ---------------------------------------------------------------------------

/// Whether installed package `x` depends, directly or transitively, on some
/// requested name, per the registry's recorded edges.
pub open spec fn depends_on_requested(
    reg: Seq<EntryV>,
    req: Seq<Seq<char>>,
    x: Seq<char>,
) -> bool {
    exists|r: int| 0 <= r < req.len() && crate::types::reg_depends_on(reg, x, #[trigger] req[r])
}

/// The cascade of a removal request: the requested names together with every
/// installed dependent of theirs.
pub open spec fn cascade_ok(
    reg: Seq<EntryV>,
    req: Seq<Seq<char>>,
    s: Seq<Seq<char>>,
) -> bool {
    &&& names_distinct(s)
    &&& forall|r: int| 0 <= r < req.len() ==> name_in(s, #[trigger] req[r])
    &&& forall|i: int|
        0 <= i < s.len() ==> name_in(req, #[trigger] s[i]) || (reg_has(reg, s[i]) && !name_in(
            req,
            s[i],
        ) && depends_on_requested(reg, req, s[i]))
    &&& forall|e: int, k: int|
        0 <= e < reg.len() && !name_in(s, (#[trigger] reg[e]).name) && 0 <= k
            < reg[e].deps.len() ==> !name_in(s, #[trigger] reg[e].deps[k])
}

/// Whether, among the first `i` steps, every planned package whose recorded
/// dependencies include the name of step `j` has already been removed.
pub open spec fn remove_runnable(
    reg: Seq<EntryV>,
    plan: Seq<PlanStepV>,
    i: int,
    j: int,
) -> bool {
    forall|t: int|
        0 <= t < plan.len() && name_in(
            reg_at(reg, step_name(#[trigger] plan[t])).deps,
            step_name(plan[j]),
        ) ==> t < i
}

/// What a successful removal resolution promises: only removals of installed
/// packages, each exactly once, covering the cascade that force demands,
/// leaving no retained package with a removed dependency, and ordering every
/// dependent before what it depends on.
pub open spec fn remove_plan_ok(
    reg: Seq<EntryV>,
    req: Seq<Seq<char>>,
    force: bool,
    plan: Seq<PlanStepV>,
) -> bool {
    &&& forall|i: int|
        0 <= i < plan.len() ==> ((#[trigger] plan[i]) matches PlanStepV::Remove { name } && reg_has(
            reg,
            name,
        ))
    &&& names_distinct(plan_names(plan))
    &&& forall|r: int|
        0 <= r < req.len() ==> planned_before(plan, plan.len() as int, #[trigger] req[r])
    &&& forall|i: int|
        0 <= i < plan.len() ==> name_in(req, step_name(#[trigger] plan[i])) || (force && !name_in(
            req,
            step_name(plan[i]),
        ) && depends_on_requested(reg, req, step_name(plan[i])))
    &&& forall|e: int, k: int|
        0 <= e < reg.len() && !planned_before(plan, plan.len() as int, (#[trigger] reg[e]).name)
            && 0 <= k < reg[e].deps.len() ==> !planned_before(
            plan,
            plan.len() as int,
            #[trigger] reg[e].deps[k],
        )
    &&& forall|i: int, j: int|
        #![trigger plan[i], plan[j]]
        0 <= i < plan.len() && 0 <= j < plan.len() && i != j && name_in(
            reg_at(reg, step_name(plan[i])).deps,
            step_name(plan[j]),
        ) ==> i < j
    &&& forall|i: int, j: int|
        0 <= i < j < plan.len() && #[trigger] remove_runnable(reg, plan, i, j)
            ==> crate::strutil::lex_le(step_name(plan[i]), step_name(plan[j]))
}

/// Everything a completed removal resolution promises, success or failure.
pub open spec fn remove_result_ok(
    reg: Seq<EntryV>,
    req: Seq<Seq<char>>,
    force: bool,
    r: Result<Vec<PlanStep>, ResolutionError>,
) -> bool {
    match r {
        Ok(plan) => remove_plan_ok(reg, req, force, plan.deep_view()),
        Err(e) => match e {
            ResolutionError::NotInstalled { name } => name_in(req, name@) && !reg_has(reg, name@),
            ResolutionError::DependentsExist { names } => {
                &&& !force
                &&& names.deep_view().len() > 0
                &&& names_distinct(names.deep_view())
                &&& forall|i: int|
                    0 <= i < names.deep_view().len() ==> reg_has(
                        reg,
                        #[trigger] names.deep_view()[i],
                    ) && !name_in(req, names.deep_view()[i]) && depends_on_requested(
                        reg,
                        req,
                        names.deep_view()[i],
                    )
                &&& forall|e: int|
                    0 <= e < reg.len() && !name_in(req, (#[trigger] reg[e]).name)
                        && depends_on_requested(reg, req, reg[e].name) ==> name_in(
                        names.deep_view(),
                        reg[e].name,
                    )
            },
            ResolutionError::CyclicDependency { path } => remove_cycle_report_ok(
                reg,
                path.deep_view(),
            ),
            _ => false,
        },
    }
}

/// Whether some member of the set still records `n` among its dependencies.
pub open spec fn remove_stuck_member(reg: Seq<EntryV>, ns: Seq<Seq<char>>, n: Seq<char>) -> bool {
    exists|j: int| 0 <= j < ns.len() && name_in(reg_at(reg, #[trigger] ns[j]).deps, n)
}

/// A removal cycle report: installed packages that each still have an
/// unremoved dependent inside the set.
pub open spec fn remove_cycle_report_ok(reg: Seq<EntryV>, ns: Seq<Seq<char>>) -> bool {
    &&& ns.len() > 0
    &&& forall|i: int|
        0 <= i < ns.len() ==> reg_has(reg, #[trigger] ns[i]) && remove_stuck_member(
            reg,
            ns,
            ns[i],
        )
}


/// Whether some recorded dependency of this entry is in the given name set.
fn has_dep_in(e: &InstalledEntry, set: &Vec<String>) -> (r: bool)
    ensures
        r == exists|k: int|
            0 <= k < e@.deps.len() && name_in(set.deep_view(), #[trigger] e@.deps[k]),
{
    let mut k: usize = 0;
    while k < e.deps.len()
        invariant
            0 <= k <= e.deps.len(),
            forall|j: int| 0 <= j < k ==> !name_in(set.deep_view(), #[trigger] e@.deps[j]),
        decreases e.deps.len() - k,
    {
        proof {
            assert(e.deps[k as int]@ == e@.deps[k as int]);
        }
        if contains_name(set, &e.deps[k]) {
            return true;
        }
        k = k + 1;
    }
    false
}

/// A registry path whose tail lies in the set pulls its head in too, given
/// that no entry outside the set depends into it.
proof fn lemma_reg_path_in_set(
    reg: Seq<EntryV>,
    s: Seq<Seq<char>>,
    p: Seq<Seq<char>>,
    i: int,
)
    requires
        crate::types::is_reg_path(reg, p),
        0 <= i < p.len(),
        name_in(s, p.last()),
        names_distinct(crate::registry::reg_names(reg)),
        forall|e: int, k: int|
            0 <= e < reg.len() && !name_in(s, (#[trigger] reg[e]).name) && 0 <= k
                < reg[e].deps.len() ==> !name_in(s, #[trigger] reg[e].deps[k]),
    ensures
        name_in(s, p[i]),
    decreases p.len() - i,
{
    if i == p.len() - 1 {
        assert(p[i] == p.last());
    } else {
        lemma_reg_path_in_set(reg, s, p, i + 1);
        assert(reg_has(reg, p[i]));
        let e = crate::types::reg_idx(reg, p[i]);
        assert(0 <= e < reg.len() && reg[e].name == p[i]);
        assert(reg_at(reg, p[i]) == reg[e]);
        assert(name_in(reg_at(reg, p[i]).deps, p[i + 1]));
        let k = choose|k: int|
            0 <= k < reg[e].deps.len() && #[trigger] reg[e].deps[k] == p[i + 1];
        if !name_in(s, reg[e].name) {
            assert(!name_in(s, reg[e].deps[k]));
            assert(false);
        }
    }
}

/// Collects the cascade of the request: every installed package that depends,
/// directly or transitively, on a requested name, plus the requested names.
#[verifier::rlimit(100)]
fn collect_cascade(reg: &Registry, req: &Vec<String>) -> (r: Vec<String>)
    requires
        reg.wf(),
        names_distinct(req.deep_view()),
        forall|i: int| 0 <= i < req.deep_view().len() ==> reg_has(reg@, #[trigger] req.deep_view()[i]),
    ensures
        cascade_ok(reg@, req.deep_view(), r.deep_view()),
{
    let ghost reqv = req.deep_view();
    let entries = reg.list();
    let mut set: Vec<String> = Vec::new();
    let mut i: usize = 0;
    while i < req.len()
        invariant
            reqv == req.deep_view(),
            0 <= i <= req.len(),
            set.deep_view() =~= reqv.subrange(0, i as int),
        decreases req.len() - i,
    {
        let ghost spre = set.deep_view();
        let n = req[i].clone();
        proof {
            assert(n@ == reqv[i as int]);
        }
        set.push(n);
        proof {
            assert(set.deep_view() =~= spre.push(reqv[i as int]));
            assert(set.deep_view() =~= reqv.subrange(0, i + 1 as int));
        }
        i = i + 1;
    }
    proof {
        assert(set.deep_view() =~= reqv);
        assert forall|r: int| 0 <= r < reqv.len() implies name_in(
            set.deep_view(),
            #[trigger] reqv[r],
        ) by {
            assert(set.deep_view()[r] == reqv[r]);
        }
        assert forall|i: int|
            0 <= i < set.deep_view().len() implies name_in(
            crate::registry::reg_names(reg@),
            #[trigger] set.deep_view()[i],
        ) by {
            assert(set.deep_view()[i] == reqv[i]);
            assert(reg_has(reg@, reqv[i]));
            let w = choose|w: int| 0 <= w < reg@.len() && reg@[w].name == reqv[i];
            assert(crate::registry::reg_names(reg@)[w] == reqv[i]);
        }
        lemma_distinct_names_len(set.deep_view(), crate::registry::reg_names(reg@));
        assert(crate::registry::reg_names(reg@).len() == reg@.len());
    }
    loop
        invariant
            reg.wf(),
            reqv == req.deep_view(),
            entries.deep_view() == reg@,
            names_distinct(reqv),
            forall|i: int| 0 <= i < reqv.len() ==> reg_has(reg@, #[trigger] reqv[i]),
            names_distinct(set.deep_view()),
            set.deep_view().len() <= reg@.len(),
            forall|r: int| 0 <= r < reqv.len() ==> name_in(set.deep_view(), #[trigger] reqv[r]),
            forall|i: int|
                0 <= i < set.deep_view().len() ==> name_in(reqv, #[trigger] set.deep_view()[i]) || (
                reg_has(reg@, set.deep_view()[i]) && !name_in(reqv, set.deep_view()[i])
                    && depends_on_requested(reg@, reqv, set.deep_view()[i])),
        decreases reg@.len() - set.deep_view().len(),
    {
        let ghost s0 = set.deep_view();
        let mut changed = false;
        let mut e: usize = 0;
        while e < entries.len()
            invariant
                reg.wf(),
                reqv == req.deep_view(),
                entries.deep_view() == reg@,
                names_distinct(reqv),
                forall|i: int| 0 <= i < reqv.len() ==> reg_has(reg@, #[trigger] reqv[i]),
                names_distinct(set.deep_view()),
                set.deep_view().len() <= reg@.len(),
                0 <= e <= entries.len(),
                s0.len() <= set.deep_view().len(),
                forall|j: int| 0 <= j < s0.len() ==> set.deep_view()[j] == #[trigger] s0[j],
                !changed ==> set.deep_view() == s0,
                changed ==> set.deep_view().len() > s0.len(),
                forall|r: int| 0 <= r < reqv.len() ==> name_in(set.deep_view(), #[trigger] reqv[r]),
                forall|i: int|
                    0 <= i < set.deep_view().len() ==> name_in(
                        reqv,
                        #[trigger] set.deep_view()[i],
                    ) || (reg_has(reg@, set.deep_view()[i]) && !name_in(reqv, set.deep_view()[i])
                        && depends_on_requested(reg@, reqv, set.deep_view()[i])),
                !changed ==> forall|e0: int, k: int|
                    0 <= e0 < e && !name_in(set.deep_view(), (#[trigger] reg@[e0]).name) && 0 <= k
                        < reg@[e0].deps.len() ==> !name_in(set.deep_view(), #[trigger] reg@[e0].deps[k]),
            decreases entries.len() - e,
        {
            proof {
                assert(entries.deep_view()[e as int] == reg@[e as int]);
                assert(entries[e as int]@ == reg@[e as int]);
            }
            if !contains_name(&set, &entries[e].name) && has_dep_in(&entries[e], &set) {
                let ghost spre = set.deep_view();
                let nm = entries[e].name.clone();
                proof {
                    assert(nm@ == reg@[e as int].name);
                }
                set.push(nm);
                changed = true;
                proof {
                    assert(set.deep_view() =~= spre.push(reg@[e as int].name));
                    assert(set.deep_view()[spre.len() as int] == reg@[e as int].name);
                    let x = reg@[e as int].name;
                    assert(reg_has(reg@, x)) by {
                        assert(reg@[e as int].name == x);
                    }
                    // membership in the old set survives the push
                    assert forall|y: Seq<char>| name_in(spre, y) implies name_in(
                        set.deep_view(),
                        y,
                    ) by {
                        let j = choose|j: int| 0 <= j < spre.len() && spre[j] == y;
                        assert(set.deep_view()[j] == y);
                    }
                    // the new member is a genuine dependent
                    assert(!name_in(reqv, x)) by {
                        if name_in(reqv, x) {
                            assert(name_in(spre, x));
                        }
                    }
                    let k = choose|k: int|
                        0 <= k < reg@[e as int].deps.len() && name_in(
                            spre,
                            #[trigger] reg@[e as int].deps[k],
                        );
                    let d = reg@[e as int].deps[k];
                    assert(reg_at(reg@, x) == reg@[e as int]) by {
                        let w = crate::types::reg_idx(reg@, x);
                        assert(0 <= w < reg@.len() && reg@[w].name == x);
                        assert(crate::registry::reg_names(reg@)[w] == reg@[w].name);
                        assert(crate::registry::reg_names(reg@)[e as int] == reg@[e as int].name);
                        lemma_distinct_name_index(crate::registry::reg_names(reg@), w, e as int);
                    }
                    if name_in(reqv, d) {
                        let p = seq![x, d];
                        assert(p[0] == x && p[1] == d && p.last() == d && p.len() == 2);
                        assert(reg_has(reg@, d));
                        assert(name_in(reg_at(reg@, p[0]).deps, p[1]));
                        assert(crate::types::is_reg_path(reg@, p));
                        assert(crate::types::reg_depends_on(reg@, x, d));
                        let rr = choose|rr: int| 0 <= rr < reqv.len() && reqv[rr] == d;
                        assert(depends_on_requested(reg@, reqv, x)) by {
                            assert(crate::types::reg_depends_on(reg@, x, reqv[rr]));
                        }
                    } else {
                        assert(depends_on_requested(reg@, reqv, d));
                        let rr = choose|rr: int|
                            0 <= rr < reqv.len() && crate::types::reg_depends_on(
                                reg@,
                                d,
                                #[trigger] reqv[rr],
                            );
                        let p0 = choose|p0: Seq<Seq<char>>|
                            crate::types::is_reg_path(reg@, p0) && p0.len() >= 2 && p0[0] == d
                                && p0.last() == reqv[rr];
                        let p = seq![x] + p0;
                        assert(p[0] == x && p.last() == reqv[rr] && p.len() == p0.len() + 1);
                        assert forall|t: int| 0 <= t < p.len() implies reg_has(
                            reg@,
                            #[trigger] p[t],
                        ) by {
                            if t > 0 {
                                assert(p[t] == p0[t - 1]);
                            }
                        }
                        assert forall|t: int| 0 <= t < p.len() - 1 implies name_in(
                            reg_at(reg@, #[trigger] p[t]).deps,
                            p[t + 1],
                        ) by {
                            if t == 0 {
                                assert(p[1] == p0[0]);
                                assert(p0[0] == d);
                                assert(name_in(reg_at(reg@, x).deps, d));
                            } else {
                                assert(p[t] == p0[t - 1]);
                                assert(p[t + 1] == p0[t]);
                                assert(name_in(reg_at(reg@, p0[t - 1]).deps, p0[t]));
                            }
                        }
                        assert(crate::types::is_reg_path(reg@, p));
                        assert(crate::types::reg_depends_on(reg@, x, reqv[rr]));
                        assert(depends_on_requested(reg@, reqv, x));
                    }
                    // distinctness and the size bound
                    assert(!name_in(spre, x));
                    assert forall|a: int, b: int|
                        0 <= a < b < set.deep_view().len() implies set.deep_view()[a]
                        != set.deep_view()[b] by {
                        if b < spre.len() {
                        } else {
                            assert(set.deep_view()[b] == x);
                            assert(name_in(spre, set.deep_view()[a])) by {
                                assert(set.deep_view()[a] == spre[a]);
                            }
                        }
                    }
                    assert forall|i: int|
                        0 <= i < set.deep_view().len() implies name_in(
                        crate::registry::reg_names(reg@),
                        #[trigger] set.deep_view()[i],
                    ) by {
                        assert(reg_has(reg@, set.deep_view()[i]));
                        let w = choose|w: int|
                            0 <= w < reg@.len() && reg@[w].name == set.deep_view()[i];
                        assert(crate::registry::reg_names(reg@)[w] == set.deep_view()[i]);
                    }
                    lemma_distinct_names_len(
                        set.deep_view(),
                        crate::registry::reg_names(reg@),
                    );
                    assert(crate::registry::reg_names(reg@).len() == reg@.len());
                }
            }
            e = e + 1;
        }
        if !changed {
            proof {
                assert(set.deep_view() == s0);
            }
            return set;
        }
        proof {
            assert(set.deep_view().len() > s0.len());
        }
    }
}


/// Whether nothing unremoved in the set still depends on member `c`.
pub open spec fn unblocked(
    reg: Seq<EntryV>,
    sv: Seq<Seq<char>>,
    plan: Seq<PlanStepV>,
    i: int,
    c: int,
) -> bool {
    forall|cc: int|
        0 <= cc < sv.len() && !planned_before(plan, i, #[trigger] sv[cc]) ==> !name_in(
            reg_at(reg, sv[cc]).deps,
            sv[c],
        )
}

/// The running state of removal emission: removals of installed set members,
/// none repeated, every recorded dependent removed before its dependency, and
/// each step name-least among those that could have run.
pub open spec fn remove_emit_inv(
    reg: Seq<EntryV>,
    sv: Seq<Seq<char>>,
    plan: Seq<PlanStepV>,
) -> bool {
    &&& plan.len() <= sv.len()
    &&& names_distinct(sv)
    &&& forall|i: int| 0 <= i < sv.len() ==> reg_has(reg, #[trigger] sv[i])
    &&& forall|i: int|
        0 <= i < plan.len() ==> ((#[trigger] plan[i]) matches PlanStepV::Remove { .. })
    &&& names_distinct(plan_names(plan))
    &&& forall|i: int| 0 <= i < plan.len() ==> name_in(sv, step_name(#[trigger] plan[i]))
    &&& forall|j: int, c: int|
        #![trigger plan[j], sv[c]]
        0 <= j < plan.len() && 0 <= c < sv.len() && name_in(
            reg_at(reg, sv[c]).deps,
            step_name(plan[j]),
        ) ==> planned_before(plan, j, sv[c])
    &&& forall|i: int, c: int|
        #![trigger plan[i], sv[c]]
        0 <= i < plan.len() && 0 <= c < sv.len() && !planned_before(plan, i, sv[c]) && unblocked(
            reg,
            sv,
            plan,
            i,
            c,
        ) ==> crate::strutil::lex_le(step_name(plan[i]), sv[c])
}

/// Emitting the name-least unblocked set member preserves the emission state.
#[verifier::rlimit(100)]
proof fn lemma_remove_emit_step(
    reg: Seq<EntryV>,
    sv: Seq<Seq<char>>,
    plan0: Seq<PlanStepV>,
    stepv: PlanStepV,
    b: int,
)
    requires
        remove_emit_inv(reg, sv, plan0),
        0 <= b < sv.len(),
        stepv matches PlanStepV::Remove { .. },
        step_name(stepv) == sv[b],
        !planned_before(plan0, plan0.len() as int, sv[b]),
        unblocked(reg, sv, plan0, plan0.len() as int, b),
        forall|c: int|
            0 <= c < sv.len() && !planned_before(plan0, plan0.len() as int, #[trigger] sv[c])
                && unblocked(reg, sv, plan0, plan0.len() as int, c) ==> crate::strutil::lex_le(
                sv[b],
                sv[c],
            ),
    ensures
        remove_emit_inv(reg, sv, plan0.push(stepv)),
{
    let plan1 = plan0.push(stepv);
    let lnum = plan0.len() as int;
    assert(step_name(plan1[lnum]) == sv[b]);
    assert forall|i: int, d: Seq<char>|
        0 <= i <= lnum implies (planned_before(plan0, i, d) == planned_before(plan1, i, d)) by {
        if planned_before(plan0, i, d) {
            let j = choose|j: int| 0 <= j < i && step_name(plan0[j]) == d;
            assert(step_name(plan1[j]) == d);
        }
        if planned_before(plan1, i, d) {
            let j = choose|j: int| 0 <= j < i && step_name(plan1[j]) == d;
            assert(step_name(plan0[j]) == d);
        }
    }
    assert forall|a: int, e: int|
        0 <= a < e < plan_names(plan1).len() implies plan_names(plan1)[a] != plan_names(
        plan1,
    )[e] by {
        assert(plan_names(plan1)[a] == step_name(plan1[a]));
        assert(plan_names(plan1)[e] == step_name(plan1[e]));
        if e < lnum {
            assert(plan_names(plan0)[a] == step_name(plan0[a]));
            assert(plan_names(plan0)[e] == step_name(plan0[e]));
        } else {
            assert(step_name(plan1[e]) == sv[b]);
            assert(plan_names(plan0)[a] == step_name(plan0[a]));
            if step_name(plan0[a]) == sv[b] {
                assert(planned_before(plan0, lnum, sv[b]));
            }
        }
    }
    assert(name_in(sv, sv[b]));
    assert forall|j: int, c: int|
        #![trigger plan1[j], sv[c]]
        0 <= j < plan1.len() && 0 <= c < sv.len() && name_in(
            reg_at(reg, sv[c]).deps,
            step_name(plan1[j]),
        ) implies planned_before(plan1, j, sv[c]) by {
        if j < lnum {
            assert(plan1[j] == plan0[j]);
            assert(planned_before(plan0, j, sv[c]));
        } else {
            assert(step_name(plan1[j]) == sv[b]);
            if !planned_before(plan0, lnum, sv[c]) {
                assert(!name_in(reg_at(reg, sv[c]).deps, sv[b]));
            }
            assert(planned_before(plan0, lnum, sv[c]));
        }
    }
    assert forall|i: int, c: int|
        #![trigger plan1[i], sv[c]]
        0 <= i < plan1.len() && 0 <= c < sv.len() && !planned_before(plan1, i, sv[c]) && unblocked(
            reg,
            sv,
            plan1,
            i,
            c,
        ) implies crate::strutil::lex_le(step_name(plan1[i]), sv[c]) by {
        assert forall|cc: int|
            0 <= cc < sv.len() && !planned_before(plan0, i, #[trigger] sv[cc]) implies !name_in(
            reg_at(reg, sv[cc]).deps,
            sv[c],
        ) by {
            assert(!planned_before(plan1, i, sv[cc]));
        }
        assert(unblocked(reg, sv, plan0, i, c));
        assert(!planned_before(plan0, i, sv[c]));
        if i < lnum {
            assert(plan1[i] == plan0[i]);
        } else {
            assert(step_name(plan1[i]) == sv[b]);
        }
    }
    assert(plan1.len() <= sv.len()) by {
        assert forall|i: int| 0 <= i < plan_names(plan1).len() implies name_in(
            sv,
            #[trigger] plan_names(plan1)[i],
        ) by {
            assert(plan_names(plan1)[i] == step_name(plan1[i]));
            if i < lnum {
                assert(plan1[i] == plan0[i]);
            }
        }
        lemma_distinct_names_len(plan_names(plan1), sv);
    }
}

/// A finished removal emission is a full removal plan.
#[verifier::rlimit(100)]
proof fn lemma_remove_emit_finish(
    reg: Seq<EntryV>,
    req: Seq<Seq<char>>,
    force: bool,
    sv: Seq<Seq<char>>,
    plan: Seq<PlanStepV>,
)
    requires
        cascade_ok(reg, req, sv),
        remove_emit_inv(reg, sv, plan),
        plan.len() == sv.len(),
        !force ==> forall|i: int| 0 <= i < sv.len() ==> name_in(req, #[trigger] sv[i]),
    ensures
        remove_plan_ok(reg, req, force, plan),
{
    assert forall|i: int| 0 <= i < plan.len() implies name_in(
        sv,
        #[trigger] plan_names(plan)[i],
    ) by {
        assert(plan_names(plan)[i] == step_name(plan[i]));
    }
    crate::strutil::lemma_distinct_names_cover(plan_names(plan), sv);
    assert forall|c: int| 0 <= c < sv.len() implies planned_before(
        plan,
        plan.len() as int,
        #[trigger] sv[c],
    ) by {
        assert(name_in(plan_names(plan), sv[c]));
        let w = choose|w: int| 0 <= w < plan_names(plan).len() && plan_names(plan)[w] == sv[c];
        assert(plan_names(plan)[w] == step_name(plan[w]));
    }
    assert forall|r: int| 0 <= r < req.len() implies planned_before(
        plan,
        plan.len() as int,
        #[trigger] req[r],
    ) by {
        assert(name_in(sv, req[r]));
        let c = choose|c: int| 0 <= c < sv.len() && sv[c] == req[r];
        assert(planned_before(plan, plan.len() as int, sv[c]));
    }
    assert forall|i: int|
        0 <= i < plan.len() implies ((#[trigger] plan[i]) matches PlanStepV::Remove { name }
        && reg_has(reg, name)) by {
        assert(name_in(sv, step_name(plan[i])));
        let c = choose|c: int| 0 <= c < sv.len() && sv[c] == step_name(plan[i]);
        assert(reg_has(reg, sv[c]));
    }
    assert forall|i: int|
        0 <= i < plan.len() implies name_in(req, step_name(#[trigger] plan[i])) || (force
        && !name_in(req, step_name(plan[i])) && depends_on_requested(
        reg,
        req,
        step_name(plan[i]),
    )) by {
        assert(name_in(sv, step_name(plan[i])));
        let c = choose|c: int| 0 <= c < sv.len() && sv[c] == step_name(plan[i]);
        if !force {
            assert(name_in(req, sv[c]));
        }
    }
    assert forall|e: int, k: int|
        0 <= e < reg.len() && !planned_before(plan, plan.len() as int, (#[trigger] reg[e]).name)
            && 0 <= k < reg[e].deps.len() implies !planned_before(
        plan,
        plan.len() as int,
        #[trigger] reg[e].deps[k],
    ) by {
        if name_in(sv, reg[e].name) {
            let c = choose|c: int| 0 <= c < sv.len() && sv[c] == reg[e].name;
            assert(planned_before(plan, plan.len() as int, sv[c]));
            assert(false);
        }
        if planned_before(plan, plan.len() as int, reg[e].deps[k]) {
            let j = choose|j: int|
                0 <= j < plan.len() && step_name(plan[j]) == reg[e].deps[k];
            assert(name_in(sv, step_name(plan[j])));
            let c = choose|c: int| 0 <= c < sv.len() && sv[c] == step_name(plan[j]);
            assert(!name_in(sv, reg[e].deps[k]));
            assert(false);
        }
    }
    assert forall|i: int, j: int|
        #![trigger plan[i], plan[j]]
        0 <= i < plan.len() && 0 <= j < plan.len() && i != j && name_in(
            reg_at(reg, step_name(plan[i])).deps,
            step_name(plan[j]),
        ) implies i < j by {
        let c = choose|c: int| 0 <= c < sv.len() && sv[c] == step_name(plan[i]);
        assert(name_in(reg_at(reg, sv[c]).deps, step_name(plan[j])));
        assert(planned_before(plan, j, sv[c]));
        let t = choose|t: int| 0 <= t < j && step_name(plan[t]) == sv[c];
        assert(plan_names(plan)[t] == sv[c]);
        assert(plan_names(plan)[i] == sv[c]);
        lemma_distinct_name_index(plan_names(plan), t, i);
    }
    assert forall|i: int, j: int|
        0 <= i < j < plan.len() && #[trigger] remove_runnable(reg, plan, i, j)
        implies crate::strutil::lex_le(step_name(plan[i]), step_name(plan[j])) by {
        let c = choose|c: int| 0 <= c < sv.len() && sv[c] == step_name(plan[j]);
        if planned_before(plan, i, sv[c]) {
            let w = choose|w: int| 0 <= w < i && step_name(plan[w]) == sv[c];
            assert(plan_names(plan)[w] == sv[c]);
            assert(plan_names(plan)[j] == sv[c]);
            lemma_distinct_name_index(plan_names(plan), w, j);
            assert(false);
        }
        assert forall|cc: int|
            0 <= cc < sv.len() && !planned_before(plan, i, #[trigger] sv[cc]) implies !name_in(
            reg_at(reg, sv[cc]).deps,
            sv[c],
        ) by {
            assert(planned_before(plan, plan.len() as int, sv[cc]));
            let t = choose|t: int| 0 <= t < plan.len() && step_name(plan[t]) == sv[cc];
            if name_in(reg_at(reg, sv[cc]).deps, sv[c]) {
                assert(name_in(reg_at(reg, step_name(plan[t])).deps, step_name(plan[j])));
                assert(t < i);
                assert(planned_before(plan, i, sv[cc]));
            }
        }
        assert(unblocked(reg, sv, plan, i, c));
        assert(crate::strutil::lex_le(step_name(plan[i]), sv[c]));
    }
}


/// Whether no unremoved member of the set still depends on member `c`.
fn is_unblocked(reg: &Registry, set: &Vec<String>, emitted: &Vec<PlanStep>, c: usize) -> (r: bool)
    requires
        reg.wf(),
        c < set.deep_view().len(),
        forall|i: int|
            0 <= i < set.deep_view().len() ==> reg_has(reg@, #[trigger] set.deep_view()[i]),
    ensures
        r == unblocked(
            reg@,
            set.deep_view(),
            emitted.deep_view(),
            emitted.deep_view().len() as int,
            c as int,
        ),
{
    let ghost sv = set.deep_view();
    let ghost planv = emitted.deep_view();
    let mut cc: usize = 0;
    while cc < set.len()
        invariant
            reg.wf(),
            sv == set.deep_view(),
            planv == emitted.deep_view(),
            c < sv.len(),
            forall|i: int| 0 <= i < sv.len() ==> reg_has(reg@, #[trigger] sv[i]),
            0 <= cc <= set.len(),
            forall|j: int|
                0 <= j < cc && !planned_before(planv, planv.len() as int, #[trigger] sv[j])
                    ==> !name_in(reg_at(reg@, sv[j]).deps, sv[c as int]),
        decreases set.len() - cc,
    {
        proof {
            assert(set[cc as int]@ == sv[cc as int]);
        }
        if !plan_contains_name(emitted, &set[cc]) {
            let entry = match reg.get(&set[cc]) {
                Some(e) => e,
                None => {
                    proof {
                        assert(false);
                    }
                    return false;
                },
            };
            proof {
                assert(entry@ == reg_at(reg@, sv[cc as int]));
            }
            if contains_name(&entry.deps, &set[c]) {
                proof {
                    assert(set[c as int]@ == sv[c as int]);
                    assert(name_in(reg_at(reg@, sv[cc as int]).deps, sv[c as int]));
                }
                return false;
            }
        }
        cc = cc + 1;
    }
    proof {
        assert(set[c as int]@ == sv[c as int]);
    }
    true
}

/// Turns a removal request into an ordered plan of removals, or reports
/// exactly why none exists.
#[verifier::rlimit(100)]
pub fn resolve_remove(reg: &Registry, names: &Vec<String>, force: bool) -> (r: Result<
    Vec<PlanStep>,
    ResolutionError,
>)
    requires
        reg.wf(),
        names_distinct(names.deep_view()),
    ensures
        remove_result_ok(reg@, names.deep_view(), force, r),
{
    let ghost reqv = names.deep_view();
    let mut i: usize = 0;
    while i < names.len()
        invariant
            reg.wf(),
            reqv == names.deep_view(),
            0 <= i <= names.len(),
            forall|j: int| 0 <= j < i ==> reg_has(reg@, #[trigger] reqv[j]),
        decreases names.len() - i,
    {
        proof {
            assert(names[i as int]@ == reqv[i as int]);
        }
        if reg.get(&names[i]).is_none() {
            proof {
                assert(name_in(reqv, reqv[i as int]));
            }
            return Err(ResolutionError::NotInstalled { name: names[i].clone() });
        }
        i = i + 1;
    }
    let set = collect_cascade(reg, names);
    let ghost sv = set.deep_view();
    if !force {
        let mut ds: Vec<String> = Vec::new();
        let mut c: usize = 0;
        while c < set.len()
            invariant
                reg.wf(),
                reqv == names.deep_view(),
                sv == set.deep_view(),
                cascade_ok(reg@, reqv, sv),
                0 <= c <= set.len(),
                forall|x: int|
                    0 <= x < ds.deep_view().len() ==> name_in(sv, #[trigger] ds.deep_view()[x])
                        && !name_in(reqv, ds.deep_view()[x]),
                names_distinct(ds.deep_view()),
                forall|j: int|
                    0 <= j < c && !name_in(reqv, #[trigger] sv[j]) ==> name_in(
                        ds.deep_view(),
                        sv[j],
                    ),
                forall|x: int|
                    0 <= x < ds.deep_view().len() ==> exists|j: int|
                        0 <= j < c && sv[j] == #[trigger] ds.deep_view()[x],
            decreases set.len() - c,
        {
            proof {
                assert(set[c as int]@ == sv[c as int]);
            }
            if !contains_name(names, &set[c]) {
                let ghost dpre = ds.deep_view();
                ds.push(set[c].clone());
                proof {
                    assert(ds.deep_view() =~= dpre.push(sv[c as int]));
                    assert(ds.deep_view()[dpre.len() as int] == sv[c as int]);
                    assert(name_in(sv, sv[c as int]));
                    assert forall|y: Seq<char>| name_in(dpre, y) implies name_in(
                        ds.deep_view(),
                        y,
                    ) by {
                        let j = choose|j: int| 0 <= j < dpre.len() && dpre[j] == y;
                        assert(ds.deep_view()[j] == y);
                    }
                    assert(!name_in(dpre, sv[c as int])) by {
                        if name_in(dpre, sv[c as int]) {
                            let x = choose|x: int| 0 <= x < dpre.len() && dpre[x] == sv[c as int];
                            assert(dpre[x] == ds.deep_view()[x]);
                            let j = choose|j: int|
                                0 <= j < c && sv[j] == #[trigger] ds.deep_view()[x];
                            lemma_distinct_name_index(sv, j, c as int);
                        }
                    }
                    assert forall|a: int, b: int|
                        0 <= a < b < ds.deep_view().len() implies ds.deep_view()[a]
                        != ds.deep_view()[b] by {
                        if b < dpre.len() {
                        } else {
                            assert(ds.deep_view()[b] == sv[c as int]);
                            assert(ds.deep_view()[a] == dpre[a]);
                        }
                    }
                }
            }
            c = c + 1;
        }
        if ds.len() > 0 {
            proof {
                assert forall|e: int|
                    0 <= e < reg@.len() && !name_in(reqv, (#[trigger] reg@[e]).name)
                        && depends_on_requested(reg@, reqv, reg@[e].name) implies name_in(
                    ds.deep_view(),
                    reg@[e].name,
                ) by {
                    let rr = choose|rr: int|
                        0 <= rr < reqv.len() && crate::types::reg_depends_on(
                            reg@,
                            reg@[e].name,
                            #[trigger] reqv[rr],
                        );
                    let p = choose|p: Seq<Seq<char>>|
                        crate::types::is_reg_path(reg@, p) && p.len() >= 2 && p[0] == reg@[e].name
                            && p.last() == reqv[rr];
                    assert(name_in(sv, reqv[rr]));
                    lemma_reg_path_in_set(reg@, sv, p, 0);
                    assert(name_in(sv, reg@[e].name));
                    let cx = choose|cx: int| 0 <= cx < sv.len() && sv[cx] == reg@[e].name;
                    assert(name_in(ds.deep_view(), sv[cx]));
                }
                assert forall|x: int|
                    0 <= x < ds.deep_view().len() implies reg_has(
                    reg@,
                    #[trigger] ds.deep_view()[x],
                ) && !name_in(reqv, ds.deep_view()[x]) && depends_on_requested(
                    reg@,
                    reqv,
                    ds.deep_view()[x],
                ) by {
                    let j = choose|j: int| 0 <= j < sv.len() && sv[j] == ds.deep_view()[x];
                    assert(name_in(reqv, sv[j]) || (reg_has(reg@, sv[j]) && !name_in(reqv, sv[j])
                        && depends_on_requested(reg@, reqv, sv[j])));
                }
            }
            return Err(ResolutionError::DependentsExist { names: ds });
        }
        proof {
            assert forall|j: int| 0 <= j < sv.len() implies name_in(reqv, #[trigger] sv[j]) by {
                if !name_in(reqv, sv[j]) {
                    assert(name_in(ds.deep_view(), sv[j]));
                }
            }
        }
    }
    let mut emitted: Vec<PlanStep> = Vec::new();
    while emitted.len() < set.len()
        invariant
            reg.wf(),
            reqv == names.deep_view(),
            sv == set.deep_view(),
            cascade_ok(reg@, reqv, sv),
            !force ==> forall|j: int| 0 <= j < sv.len() ==> name_in(reqv, #[trigger] sv[j]),
            remove_emit_inv(reg@, sv, emitted.deep_view()),
        decreases sv.len() - emitted.deep_view().len(),
    {
        let ghost plan0 = emitted.deep_view();
        let ghost lnum = plan0.len() as int;
        let mut best: Option<usize> = None;
        let mut idx: usize = 0;
        while idx < set.len()
            invariant
                reg.wf(),
                sv == set.deep_view(),
                plan0 == emitted.deep_view(),
                lnum == plan0.len() as int,
                forall|i: int| 0 <= i < sv.len() ==> reg_has(reg@, #[trigger] sv[i]),
                0 <= idx <= set.len(),
                match best {
                    Some(b) => b < set.len() && !planned_before(plan0, lnum, sv[b as int])
                        && unblocked(reg@, sv, plan0, lnum, b as int) && (forall|c: int|
                        0 <= c < idx && !planned_before(plan0, lnum, #[trigger] sv[c]) && unblocked(
                            reg@,
                            sv,
                            plan0,
                            lnum,
                            c,
                        ) ==> crate::strutil::lex_le(sv[b as int], sv[c])),
                    None => forall|c: int|
                        0 <= c < idx && !planned_before(plan0, lnum, #[trigger] sv[c])
                            ==> !unblocked(reg@, sv, plan0, lnum, c),
                },
            decreases set.len() - idx,
        {
            proof {
                assert(set[idx as int]@ == sv[idx as int]);
            }
            if !plan_contains_name(&emitted, &set[idx]) && is_unblocked(reg, &set, &emitted, idx) {
                match best {
                    None => {
                        best = Some(idx);
                    },
                    Some(b) => {
                        if crate::strutil::str_lt(set[idx].as_str(), set[b].as_str()) {
                            proof {
                                assert forall|c: int|
                                    0 <= c < idx + 1 && !planned_before(
                                        plan0,
                                        lnum,
                                        #[trigger] sv[c],
                                    ) && unblocked(reg@, sv, plan0, lnum, c)
                                    implies crate::strutil::lex_le(sv[idx as int], sv[c]) by {
                                    if c < idx {
                                        assert(crate::strutil::lex_le(sv[b as int], sv[c]));
                                        if crate::strutil::lex_lt(sv[b as int], sv[c]) {
                                            crate::strutil::lemma_lex_lt_trans(
                                                sv[idx as int],
                                                sv[b as int],
                                                sv[c],
                                            );
                                        }
                                    } else {
                                        crate::strutil::lemma_lex_lt_irrefl(sv[idx as int]);
                                    }
                                }
                            }
                            best = Some(idx);
                        } else {
                            proof {
                                if !crate::strutil::lex_lt(sv[b as int], sv[idx as int]) {
                                    crate::strutil::lemma_lex_connex(sv[b as int], sv[idx as int]);
                                }
                            }
                        }
                    },
                }
            }
            idx = idx + 1;
        }
        match best {
            Some(b) => {
                let step = PlanStep::Remove { name: set[b].clone() };
                proof {
                    assert(step_name(step@) == sv[b as int]);
                }
                emitted.push(step);
                proof {
                    assert(emitted.deep_view() =~= plan0.push(step@));
                    lemma_remove_emit_step(reg@, sv, plan0, step@, b as int);
                }
            },
            None => {
                let ghost plan = emitted.deep_view();
                let mut rem: Vec<String> = Vec::new();
                let mut c: usize = 0;
                while c < set.len()
                    invariant
                        reg.wf(),
                        sv == set.deep_view(),
                        plan == emitted.deep_view(),
                        lnum == plan.len() as int,
                        forall|i: int| 0 <= i < sv.len() ==> reg_has(reg@, #[trigger] sv[i]),
                        0 <= c <= set.len(),
                        forall|x: int|
                            0 <= x < rem.deep_view().len() ==> name_in(
                                sv,
                                #[trigger] rem.deep_view()[x],
                            ) && !planned_before(plan, lnum, rem.deep_view()[x]),
                        forall|j: int|
                            0 <= j < c && !planned_before(plan, lnum, #[trigger] sv[j])
                                ==> name_in(rem.deep_view(), sv[j]),
                    decreases set.len() - c,
                {
                    proof {
                        assert(set[c as int]@ == sv[c as int]);
                    }
                    if !plan_contains_name(&emitted, &set[c]) {
                        let ghost rpre = rem.deep_view();
                        rem.push(set[c].clone());
                        proof {
                            assert(rem.deep_view() =~= rpre.push(sv[c as int]));
                            assert(rem.deep_view()[rpre.len() as int] == sv[c as int]);
                            assert(name_in(sv, sv[c as int]));
                            assert forall|y: Seq<char>| name_in(rpre, y) implies name_in(
                                rem.deep_view(),
                                y,
                            ) by {
                                let j = choose|j: int| 0 <= j < rpre.len() && rpre[j] == y;
                                assert(rem.deep_view()[j] == y);
                            }
                        }
                    }
                    c = c + 1;
                }
                proof {
                    let remv = rem.deep_view();
                    if remv.len() == 0 {
                        assert forall|j: int| 0 <= j < sv.len() implies name_in(
                            plan_names(plan),
                            #[trigger] sv[j],
                        ) by {
                            assert(planned_before(plan, lnum, sv[j]));
                            let w = choose|w: int| 0 <= w < lnum && step_name(plan[w]) == sv[j];
                            assert(plan_names(plan)[w] == sv[j]);
                        }
                        lemma_distinct_names_len(sv, plan_names(plan));
                        assert(false);
                    }
                    assert forall|x: int|
                        0 <= x < remv.len() implies reg_has(reg@, #[trigger] remv[x])
                        && remove_stuck_member(reg@, remv, remv[x]) by {
                        let cx = choose|cx: int| 0 <= cx < sv.len() && sv[cx] == remv[x];
                        assert(name_in(sv, remv[x]));
                        assert(!planned_before(plan, lnum, sv[cx]));
                        assert(!unblocked(reg@, sv, plan, lnum, cx));
                        let cc = choose|cc: int|
                            0 <= cc < sv.len() && !planned_before(plan, lnum, #[trigger] sv[cc])
                                && name_in(reg_at(reg@, sv[cc]).deps, sv[cx]);
                        assert(name_in(remv, sv[cc]));
                        let j = choose|j: int| 0 <= j < remv.len() && remv[j] == sv[cc];
                        assert(name_in(reg_at(reg@, remv[j]).deps, remv[x]));
                        assert(remove_stuck_member(reg@, remv, remv[x]));
                    }
                    assert(remove_cycle_report_ok(reg@, remv));
                }
                return Err(ResolutionError::CyclicDependency { path: rem });
            },
        }
    }
    proof {
        lemma_remove_emit_finish(reg@, reqv, force, sv, emitted.deep_view());
    }
    Ok(emitted)
}

} // verus!
