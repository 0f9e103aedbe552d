use vstd::prelude::*;
use crate::def_library::same_id;

verus! {

/// An (owner entity, ability id) pair, as plain values.
pub open spec fn grant_view(g: (u64, String)) -> (u64, Seq<char>) {
    (g.0, g.1@)
}

/// The grants to spawn for a frame's unlock requests, in request order: a request is spawned
/// unless its owner already holds that ability or an earlier request this frame already
/// granted it.
pub open spec fn planned_grants(owned: Seq<(u64, Seq<char>)>, requests: Seq<(u64, Seq<char>)>) -> Seq<(u64, Seq<char>)>
    decreases requests.len(),
{
    if requests.len() == 0 {
        Seq::empty()
    } else {
        let earlier = planned_grants(owned, requests.drop_last());
        if (owned + earlier).contains(requests.last()) {
            earlier
        } else {
            earlier.push(requests.last())
        }
    }
}

fn holds_grant(owned: &Vec<(u64, String)>, owner: u64, id: &String) -> (b: bool)
    ensures
        b == owned@.map_values(|g: (u64, String)| grant_view(g)).contains((owner, id@)),
{
    let ghost view = owned@.map_values(|g: (u64, String)| grant_view(g));
    let mut i: usize = 0;
    while i < owned.len()
        invariant
            view == owned@.map_values(|g: (u64, String)| grant_view(g)),
            i <= owned@.len(),
            forall|j: int| 0 <= j < i ==> #[trigger] view[j] != (owner, id@),
        decreases owned.len() - i,
    {
        if owned[i].0 == owner && same_id(&owned[i].1, id) {
            assert(view[i as int] == (owner, id@));
            return true;
        }
        i = i + 1;
    }
    false
}

/// Decides which ability unlock requests spawn a new ability instance. Idempotent: a request
/// for an ability its owner already holds (`existing`), or one already granted earlier in the
/// same batch, spawns nothing, so a duplicate unlock never stacks a second instance.
pub fn plan_unlock_spawns(existing: &Vec<(u64, String)>, requests: &Vec<(u64, String)>) -> (spawns: Vec<(u64, String)>)
    ensures
        spawns@.map_values(|g: (u64, String)| grant_view(g)) == planned_grants(
            existing@.map_values(|g: (u64, String)| grant_view(g)),
            requests@.map_values(|g: (u64, String)| grant_view(g)),
        ),
{
    let ghost ev = existing@.map_values(|g: (u64, String)| grant_view(g));
    let ghost rv = requests@.map_values(|g: (u64, String)| grant_view(g));
    let mut owned: Vec<(u64, String)> = Vec::new();
    let mut k: usize = 0;
    while k < existing.len()
        invariant
            k <= existing@.len(),
            owned@.map_values(|g: (u64, String)| grant_view(g)) =~= existing@.take(k as int).map_values(
                |g: (u64, String)| grant_view(g),
            ),
        decreases existing.len() - k,
    {
        let ghost before = owned@;
        let id = existing[k].1.clone();
        owned.push((existing[k].0, id));
        assert(owned@ == before.push((existing@[k as int].0, id)));
        assert(existing@.take(k as int + 1) =~= existing@.take(k as int).push(existing@[k as int]));
        assert(owned@.map_values(|g: (u64, String)| grant_view(g)) =~= before.map_values(
            |g: (u64, String)| grant_view(g),
        ).push(grant_view(existing@[k as int])));
        k = k + 1;
    }
    assert(existing@.take(existing@.len() as int) =~= existing@);
    let mut spawns: Vec<(u64, String)> = Vec::new();
    let mut i: usize = 0;
    while i < requests.len()
        invariant
            ev == existing@.map_values(|g: (u64, String)| grant_view(g)),
            rv == requests@.map_values(|g: (u64, String)| grant_view(g)),
            i <= requests@.len(),
            spawns@.map_values(|g: (u64, String)| grant_view(g)) == planned_grants(ev, rv.take(i as int)),
            owned@.map_values(|g: (u64, String)| grant_view(g)) =~= ev + spawns@.map_values(
                |g: (u64, String)| grant_view(g),
            ),
        decreases requests.len() - i,
    {
        assert(rv.take(i as int + 1).drop_last() =~= rv.take(i as int));
        assert(rv.take(i as int + 1).last() == grant_view(requests@[i as int]));
        let owner = requests[i].0;
        if !holds_grant(&owned, owner, &requests[i].1) {
            let ghost before = spawns@;
            let ghost owned_before = owned@;
            let id1 = requests[i].1.clone();
            let id2 = requests[i].1.clone();
            spawns.push((owner, id1));
            owned.push((owner, id2));
            assert(spawns@ == before.push((owner, id1)));
            assert(owned@ == owned_before.push((owner, id2)));
            assert(spawns@.map_values(|g: (u64, String)| grant_view(g)) =~= before.map_values(
                |g: (u64, String)| grant_view(g),
            ).push(grant_view(requests@[i as int])));
            assert(owned@.map_values(|g: (u64, String)| grant_view(g)) =~= owned_before.map_values(
                |g: (u64, String)| grant_view(g),
            ).push(grant_view(requests@[i as int])));
        }
        i = i + 1;
    }
    assert(rv.take(requests@.len() as int) =~= rv);
    spawns
}

/// A batch of grants never duplicates what is owned, nor itself: every planned grant is new to
/// its owner and appears once.
pub proof fn lemma_planned_grants_fresh(owned: Seq<(u64, Seq<char>)>, requests: Seq<(u64, Seq<char>)>)
    ensures
        forall|i: int|
            0 <= i < planned_grants(owned, requests).len() ==> !owned.contains(
                #[trigger] planned_grants(owned, requests)[i],
            ),
        forall|i: int, j: int|
            0 <= i < j < planned_grants(owned, requests).len() ==> #[trigger] planned_grants(
                owned,
                requests,
            )[i] != #[trigger] planned_grants(owned, requests)[j],
    decreases requests.len(),
{
    if requests.len() > 0 {
        let earlier = planned_grants(owned, requests.drop_last());
        lemma_planned_grants_fresh(owned, requests.drop_last());
        let x = requests.last();
        if !(owned + earlier).contains(x) {
            let p = earlier.push(x);
            assert(planned_grants(owned, requests) == p);
            assert forall|i: int| 0 <= i < p.len() implies !owned.contains(#[trigger] p[i]) by {
                if i == earlier.len() {
                    if owned.contains(x) {
                        let k = choose|k: int| 0 <= k < owned.len() && owned[k] == x;
                        assert((owned + earlier)[k] == x);
                    }
                }
            }
            assert forall|i: int, j: int| 0 <= i < j < p.len() implies #[trigger] p[i] != #[trigger] p[j] by {
                if j == earlier.len() {
                    if p[i] == x {
                        assert((owned + earlier)[owned.len() + i] == x);
                    }
                }
            }
        }
    }
}

/// Every request ends up held: after spawning the plan, each requested (owner, ability) pair is
/// owned or planned.
pub proof fn lemma_planned_grants_cover(owned: Seq<(u64, Seq<char>)>, requests: Seq<(u64, Seq<char>)>)
    ensures
        forall|i: int|
            0 <= i < requests.len() ==> (owned + planned_grants(owned, requests)).contains(
                #[trigger] requests[i],
            ),
    decreases requests.len(),
{
    if requests.len() > 0 {
        let earlier = planned_grants(owned, requests.drop_last());
        lemma_planned_grants_cover(owned, requests.drop_last());
        let all = owned + planned_grants(owned, requests);
        assert forall|i: int| 0 <= i < requests.len() implies all.contains(#[trigger] requests[i]) by {
            if i < requests.len() - 1 {
                assert(requests.drop_last()[i] == requests[i]);
                assert((owned + earlier).contains(requests[i]));
                let k = choose|k: int| 0 <= k < (owned + earlier).len() && (owned + earlier)[k] == requests[i];
                assert(all[k] == (owned + earlier)[k]);
            } else {
                let x = requests.last();
                if (owned + earlier).contains(x) {
                    let k = choose|k: int| 0 <= k < (owned + earlier).len() && (owned + earlier)[k] == x;
                    assert(all[k] == (owned + earlier)[k]);
                } else {
                    assert(all[all.len() - 1] == x);
                }
            }
        }
    }
}

/// Requests that are all already held plan nothing.
proof fn lemma_planned_grants_held(owned: Seq<(u64, Seq<char>)>, requests: Seq<(u64, Seq<char>)>)
    requires
        forall|i: int| 0 <= i < requests.len() ==> owned.contains(#[trigger] requests[i]),
    ensures
        planned_grants(owned, requests) == Seq::<(u64, Seq<char>)>::empty(),
    decreases requests.len(),
{
    if requests.len() > 0 {
        assert forall|i: int| 0 <= i < requests.drop_last().len() implies owned.contains(
            #[trigger] requests.drop_last()[i],
        ) by {
            assert(requests.drop_last()[i] == requests[i]);
        }
        lemma_planned_grants_held(owned, requests.drop_last());
        assert(owned + Seq::<(u64, Seq<char>)>::empty() =~= owned);
        assert(owned.contains(requests[requests.len() - 1]));
    }
}

/// Unlocking is idempotent: once a batch of requests is planned and spawned, replaying the same
/// requests plans nothing.
pub proof fn lemma_unlock_replay_plans_nothing(owned: Seq<(u64, Seq<char>)>, requests: Seq<(u64, Seq<char>)>)
    ensures
        planned_grants(owned + planned_grants(owned, requests), requests) == Seq::<
            (u64, Seq<char>),
        >::empty(),
{
    lemma_planned_grants_cover(owned, requests);
    lemma_planned_grants_held(owned + planned_grants(owned, requests), requests);
}

} // verus!
