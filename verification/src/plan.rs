//! The mutation planner. Given the requested identifiers and a snapshot
//! of what a domain currently holds, it computes the minimal set of
//! additions or removals: an Install never lists a package already
//! present, a Remove lists only packages actually present, and neither
//! lists a package twice.

use vstd::prelude::*;

use crate::editor::matches_any;
use crate::editor::vecs_view;

verus! {

/// The three package domains: the imperative per-user profile, the
/// declarative system configuration, and the declarative per-user
/// environment.
#[derive(Clone, Copy, Debug, PartialEq, Eq, Structural)]
pub enum DomainKind {
    Profile,
    System,
    Home,
}

/// The requested operation.
#[derive(Clone, Copy, Debug, PartialEq, Eq, Structural)]
pub enum Operation {
    Install,
    Remove,
    Update,
}

/// The additions of an Install: requested identifiers that no current
/// package matches, each listed once. Planned identifiers join the
/// snapshot, so a request named twice is planned once.
pub open spec fn spec_plan_install(req: Seq<Seq<u8>>, cur: Seq<Seq<u8>>) -> Seq<Seq<u8>>
    decreases req.len(),
{
    if req.len() == 0 {
        Seq::empty()
    } else if matches_any(req[0], cur) {
        spec_plan_install(req.drop_first(), cur)
    } else {
        seq![req[0]] + spec_plan_install(req.drop_first(), cur.push(req[0]))
    }
}

pub open spec fn spec_plan_remove_rec(req: Seq<Seq<u8>>, cur: Seq<Seq<u8>>, chosen: Seq<Seq<u8>>) -> Seq<
    Seq<u8>,
>
    decreases req.len(),
{
    if req.len() == 0 {
        Seq::empty()
    } else if matches_any(req[0], cur) && !matches_any(req[0], chosen) {
        seq![req[0]] + spec_plan_remove_rec(req.drop_first(), cur, chosen.push(req[0]))
    } else {
        spec_plan_remove_rec(req.drop_first(), cur, chosen)
    }
}

/// The removals of a Remove: requested identifiers that some current
/// package matches, each listed once.
pub open spec fn spec_plan_remove(req: Seq<Seq<u8>>, cur: Seq<Seq<u8>>) -> Seq<Seq<u8>> {
    spec_plan_remove_rec(req, cur, Seq::empty())
}

/// What one request changes in one domain. Additions and removals are
/// disjoint by construction: a plan carries only one of them.
pub struct MutationPlan {
    pub domain: DomainKind,
    pub additions: Vec<Vec<u8>>,
    pub removals: Vec<Vec<u8>>,
}

/// Plans one operation against a snapshot of the domain's current
/// packages. Update plans no document change: the builder resolves the
/// target versions itself.
pub fn plan(
    domain: DomainKind,
    op: Operation,
    requested: &Vec<Vec<u8>>,
    current: &Vec<Vec<u8>>,
) -> (p: MutationPlan)
    ensures
        p.domain == domain,
        op == Operation::Install ==> vecs_view(p.additions@) == spec_plan_install(
            vecs_view(requested@),
            vecs_view(current@),
        ) && p.removals@.len() == 0,
        op == Operation::Remove ==> vecs_view(p.removals@) == spec_plan_remove(
            vecs_view(requested@),
            vecs_view(current@),
        ) && p.additions@.len() == 0,
        op == Operation::Update ==> p.additions@.len() == 0 && p.removals@.len() == 0,
{
    match op {
        Operation::Install => {
            let additions = plan_install_exec(requested, current);
            MutationPlan { domain, additions, removals: Vec::new() }
        },
        Operation::Remove => {
            let removals = plan_remove_exec(requested, current);
            MutationPlan { domain, additions: Vec::new(), removals }
        },
        Operation::Update => MutationPlan { domain, additions: Vec::new(), removals: Vec::new() },
    }
}

fn matches_any_vec(e: &Vec<u8>, ids: &Vec<Vec<u8>>) -> (r: bool)
    ensures
        r == matches_any(e@, vecs_view(ids@)),
{
    let mut i: usize = 0;
    while i < ids.len()
        invariant
            i <= ids@.len(),
            forall|k: int| 0 <= k < i ==> !crate::ident::same_pkg(e@, vecs_view(ids@)[k]),
        decreases ids@.len() - i,
    {
        if crate::ident::same_pkg_exec(e, &ids[i]) {
            proof {
                assert(crate::ident::same_pkg(e@, vecs_view(ids@)[i as int]));
            }
            return true;
        }
        i = i + 1;
    }
    proof {
        if matches_any(e@, vecs_view(ids@)) {
            let k = choose|k: int|
                0 <= k < vecs_view(ids@).len() && crate::ident::same_pkg(
                    e@,
                    #[trigger] vecs_view(ids@)[k],
                );
            assert(!crate::ident::same_pkg(e@, vecs_view(ids@)[k]));
        }
    }
    false
}

fn plan_install_exec(requested: &Vec<Vec<u8>>, current: &Vec<Vec<u8>>) -> (r: Vec<Vec<u8>>)
    ensures
        vecs_view(r@) == spec_plan_install(vecs_view(requested@), vecs_view(current@)),
{
    let ghost req = vecs_view(requested@);
    let mut cur: Vec<Vec<u8>> = Vec::new();
    let mut i: usize = 0;
    while i < current.len()
        invariant
            i <= current@.len(),
            vecs_view(cur@) =~= vecs_view(current@).subrange(0, i as int),
        decreases current@.len() - i,
    {
        let c = &current[i];
        let cv = vstd::slice::slice_to_vec(c.as_slice());
        proof {
            assert(cv@ == current@[i as int]@);
            assert(vecs_view(cur@).len() == i as int);
            assert(cur@.len() == i as int);
        }
        cur.push(cv);
        proof {
            assert(cur@[i as int] == cv);
            assert(cur@[i as int]@ == vecs_view(current@)[i as int]);
            assert(vecs_view(cur@) =~= vecs_view(current@).subrange(0, i + 1));
        }
        i = i + 1;
    }
    proof {
        assert(vecs_view(cur@) =~= vecs_view(current@));
    }
    let mut out: Vec<Vec<u8>> = Vec::new();
    let mut j: usize = 0;
    proof {
        assert(req.subrange(0, req.len() as int) =~= req);
        assert(vecs_view(out@) + spec_plan_install(req, vecs_view(cur@)) =~= spec_plan_install(
            req,
            vecs_view(cur@),
        ));
    }
    while j < requested.len()
        invariant
            j <= requested@.len(),
            req == vecs_view(requested@),
            spec_plan_install(req, vecs_view(current@)) == vecs_view(out@) + spec_plan_install(
                req.subrange(j as int, req.len() as int),
                vecs_view(cur@),
            ),
        decreases requested@.len() - j,
    {
        let ghost suffix = req.subrange(j as int, req.len() as int);
        let ghost curv = vecs_view(cur@);
        proof {
            assert(suffix[0] == req[j as int]);
            assert(suffix.drop_first() =~= req.subrange(j + 1, req.len() as int));
        }
        let id = &requested[j];
        proof {
            assert(req[j as int] == id@);
        }
        if !matches_any_vec(id, &cur) {
            let ghost outv = vecs_view(out@);
            out.push(vstd::slice::slice_to_vec(id.as_slice()));
            cur.push(vstd::slice::slice_to_vec(id.as_slice()));
            proof {
                assert(vecs_view(out@) =~= outv + seq![id@]);
                assert(vecs_view(cur@) =~= curv.push(id@));
                assert(spec_plan_install(suffix, curv) == seq![id@] + spec_plan_install(
                    suffix.drop_first(),
                    curv.push(id@),
                ));
                assert(vecs_view(out@) + spec_plan_install(suffix.drop_first(), vecs_view(cur@))
                    =~= outv + (seq![id@] + spec_plan_install(
                    suffix.drop_first(),
                    curv.push(id@),
                )));
            }
        } else {
            proof {
                assert(spec_plan_install(suffix, curv) == spec_plan_install(
                    suffix.drop_first(),
                    curv,
                ));
            }
        }
        j = j + 1;
    }
    proof {
        assert(req.subrange(req.len() as int, req.len() as int) =~= Seq::<Seq<u8>>::empty());
        assert(spec_plan_install(Seq::<Seq<u8>>::empty(), vecs_view(cur@)) =~= Seq::<
            Seq<u8>,
        >::empty());
        assert(vecs_view(out@) + Seq::<Seq<u8>>::empty() =~= vecs_view(out@));
    }
    out
}

fn plan_remove_exec(requested: &Vec<Vec<u8>>, current: &Vec<Vec<u8>>) -> (r: Vec<Vec<u8>>)
    ensures
        vecs_view(r@) == spec_plan_remove(vecs_view(requested@), vecs_view(current@)),
{
    let ghost req = vecs_view(requested@);
    let ghost curv = vecs_view(current@);
    let mut out: Vec<Vec<u8>> = Vec::new();
    let mut j: usize = 0;
    proof {
        assert(req.subrange(0, req.len() as int) =~= req);
        assert(vecs_view(out@) =~= Seq::<Seq<u8>>::empty());
        assert(vecs_view(out@) + spec_plan_remove_rec(req, curv, vecs_view(out@))
            =~= spec_plan_remove_rec(req, curv, Seq::empty()));
    }
    while j < requested.len()
        invariant
            j <= requested@.len(),
            req == vecs_view(requested@),
            curv == vecs_view(current@),
            spec_plan_remove(req, curv) == vecs_view(out@) + spec_plan_remove_rec(
                req.subrange(j as int, req.len() as int),
                curv,
                vecs_view(out@),
            ),
        decreases requested@.len() - j,
    {
        let ghost suffix = req.subrange(j as int, req.len() as int);
        let ghost outv = vecs_view(out@);
        proof {
            assert(suffix[0] == req[j as int]);
            assert(suffix.drop_first() =~= req.subrange(j + 1, req.len() as int));
        }
        let id = &requested[j];
        proof {
            assert(req[j as int] == id@);
        }
        if matches_any_vec(id, current) && !matches_any_vec(id, &out) {
            out.push(vstd::slice::slice_to_vec(id.as_slice()));
            proof {
                assert(vecs_view(out@) =~= outv.push(id@));
                assert(spec_plan_remove_rec(suffix, curv, outv) == seq![id@]
                    + spec_plan_remove_rec(suffix.drop_first(), curv, outv.push(id@)));
                assert(outv.push(id@) =~= outv + seq![id@]);
                assert(vecs_view(out@) + spec_plan_remove_rec(
                    suffix.drop_first(),
                    curv,
                    vecs_view(out@),
                ) =~= outv + (seq![id@] + spec_plan_remove_rec(
                    suffix.drop_first(),
                    curv,
                    outv.push(id@),
                )));
            }
        } else {
            proof {
                assert(spec_plan_remove_rec(suffix, curv, outv) == spec_plan_remove_rec(
                    suffix.drop_first(),
                    curv,
                    outv,
                ));
            }
        }
        j = j + 1;
    }
    proof {
        assert(req.subrange(req.len() as int, req.len() as int) =~= Seq::<Seq<u8>>::empty());
        assert(spec_plan_remove_rec(Seq::<Seq<u8>>::empty(), curv, vecs_view(out@)) =~= Seq::<
            Seq<u8>,
        >::empty());
        assert(vecs_view(out@) + Seq::<Seq<u8>>::empty() =~= vecs_view(out@));
    }
    out
}

/// Idempotence: when every requested identifier is already present,
/// an Install plans nothing.
pub proof fn lemma_install_idempotent(req: Seq<Seq<u8>>, cur: Seq<Seq<u8>>)
    requires
        forall|k: int| 0 <= k < req.len() ==> matches_any(#[trigger] req[k], cur),
    ensures
        spec_plan_install(req, cur) == Seq::<Seq<u8>>::empty(),
    decreases req.len(),
{
    if req.len() > 0 {
        assert(matches_any(req[0], cur));
        assert(forall|k: int|
            0 <= k < req.drop_first().len() ==> #[trigger] req.drop_first()[k] == req[k + 1]);
        lemma_install_idempotent(req.drop_first(), cur);
    }
}

/// Soundness of planned additions: each one was requested and none of
/// the current packages matches it.
pub proof fn lemma_plan_install_sound(req: Seq<Seq<u8>>, cur: Seq<Seq<u8>>)
    ensures
        forall|k: int| 0 <= k < spec_plan_install(req, cur).len() ==> req.contains(
            #[trigger] spec_plan_install(req, cur)[k],
        ) && !matches_any(spec_plan_install(req, cur)[k], cur),
    decreases req.len(),
{
    if req.len() > 0 {
        let rest = req.drop_first();
        assert(forall|k: int| 0 <= k < rest.len() ==> #[trigger] rest[k] == req[k + 1]);
        if matches_any(req[0], cur) {
            lemma_plan_install_sound(rest, cur);
            assert forall|k: int| 0 <= k < spec_plan_install(req, cur).len() implies req.contains(
                #[trigger] spec_plan_install(req, cur)[k],
            ) && !matches_any(spec_plan_install(req, cur)[k], cur) by {
                assert(rest.contains(spec_plan_install(rest, cur)[k]));
                let j = choose|j: int| 0 <= j < rest.len() && rest[j] == spec_plan_install(rest, cur)[k];
                assert(req[j + 1] == spec_plan_install(req, cur)[k]);
            }
        } else {
            lemma_plan_install_sound(rest, cur.push(req[0]));
            assert forall|k: int| 0 <= k < spec_plan_install(req, cur).len() implies req.contains(
                #[trigger] spec_plan_install(req, cur)[k],
            ) && !matches_any(spec_plan_install(req, cur)[k], cur) by {
                if k == 0 {
                    assert(req[0] == spec_plan_install(req, cur)[0]);
                } else {
                    let x = spec_plan_install(req, cur)[k];
                    assert(x == spec_plan_install(rest, cur.push(req[0]))[k - 1]);
                    assert(rest.contains(x));
                    let j = choose|j: int| 0 <= j < rest.len() && rest[j] == x;
                    assert(req[j + 1] == x);
                    assert(!matches_any(x, cur.push(req[0])));
                    if matches_any(x, cur) {
                        let j2 = choose|j2: int|
                            0 <= j2 < cur.len() && crate::ident::same_pkg(x, #[trigger] cur[j2]);
                        assert(cur.push(req[0])[j2] == cur[j2]);
                        assert(matches_any(x, cur.push(req[0])));
                    }
                }
            }
        }
    }
}

} // verus!
