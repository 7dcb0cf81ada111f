//! What comes into being where people gather.
use crate::fixed::{decimal, push_decimal};
use crate::graph::{
    copy_vector, labelled, newcomer, Entity, EntityKind, EntityView, SpaceGraph,
};
use crate::ids::{fresh_id, is_random};
use crate::order::{kept, kept_grows};
use crate::presence::{Presence, UserView};
use crate::stamp::{now, Timestamp};
use crate::text::{
    contains_text, ends_with, first_chars, has_suffix, joined, optional_text, take_chars, texts,
};
use crate::wander::{event_views, EventView, SpaceEvent};
use vstd::prelude::*;
use vstd::string::*;

verus! {

/// Someone whose interests are at least this similar to what everyone starts with has not yet
/// explored.
pub const UNEXPLORED: i64 = 980_000_000_000;

/// People whose interests are more similar than this gather.
pub const GATHERING: i64 = 750_000_000_000;

/// Nothing comes into being closer than this to what is already there.
pub const CROWDED: i64 = 250_000_000_000;

/// No more than this many beings that came from a gathering exist at once.
pub const EMERGENCE_LIMIT: usize = 5;

/// How much of a neighbour's label a being takes over.
pub const INHERITED: usize = 40;

/// People closer than this to an entity are with it.
pub const TOGETHER: i64 = 300_000_000_000;

/// Farther away than anything.
pub const FARTHEST: i64 = i64::MAX;

/// The indices of those who have explored, by how similar their interests are to what everyone
/// starts with.
pub open spec fn explored(similarities: Seq<i64>) -> Seq<usize>
    decreases similarities.len(),
{
    if similarities.len() == 0 {
        Seq::empty()
    } else if similarities.last() < UNEXPLORED {
        explored(similarities.drop_last()).push((similarities.len() - 1) as usize)
    } else {
        explored(similarities.drop_last())
    }
}

/// The indices of those who have explored.
pub fn explorers(similarities: &Vec<i64>) -> (r: Vec<usize>)
    ensures
        r@ == explored(similarities@),
        forall|k: int| 0 <= k < r@.len() ==> (#[trigger] r@[k]) < similarities@.len(),
{
    let mut r: Vec<usize> = Vec::new();
    let mut i: usize = 0;
    while i < similarities.len()
        invariant
            i <= similarities@.len(),
            r@ == explored(similarities@.take(i as int)),
            forall|k: int| 0 <= k < r@.len() ==> (#[trigger] r@[k]) < similarities@.len(),
        decreases similarities@.len() - i,
    {
        proof {
            assert(similarities@.take(i + 1).drop_last() =~= similarities@.take(i as int));
        }
        if similarities[i] < UNEXPLORED {
            r.push(i);
        }
        i = i + 1;
    }
    proof {
        assert(similarities@.take(i as int) =~= similarities@);
    }
    r
}

/// One similarity for each pair of people.
pub open spec fn square(sim: Seq<Seq<i64>>) -> bool {
    forall|i: int| 0 <= i < sim.len() ==> (#[trigger] sim[i]).len() == sim.len()
}

/// The rows of a table.
pub open spec fn table(v: Seq<Vec<i64>>) -> Seq<Seq<i64>> {
    v.map_values(|row: Vec<i64>| row@)
}

/// Person `i`, and of those from `i + 1` up to `n` everyone who gathers with `i` and is not
/// taken.
pub open spec fn gathered(sim: Seq<Seq<i64>>, taken: Seq<bool>, i: int, n: nat) -> Seq<usize>
    decreases n,
{
    if n == 0 || n <= i + 1 {
        seq![i as usize]
    } else {
        let front = gathered(sim, taken, i, (n - 1) as nat);
        if !taken[n - 1] && sim[i][n - 1] > GATHERING {
            front.push((n - 1) as usize)
        } else {
            front
        }
    }
}

/// Who is taken once `members` are.
pub open spec fn taken_with(taken: Seq<bool>, members: Seq<usize>) -> Seq<bool> {
    Seq::new(taken.len(), |k: int| taken[k] || members.contains(k as usize))
}

/// Who is taken once each of the first `n` people has gathered those around them.
pub open spec fn taken_by(sim: Seq<Seq<i64>>, n: nat) -> Seq<bool>
    decreases n,
{
    if n == 0 {
        Seq::new(sim.len(), |k: int| false)
    } else {
        let taken = taken_by(sim, (n - 1) as nat);
        if taken[n - 1] {
            taken
        } else {
            taken_with(taken, gathered(sim, taken, n - 1, sim.len()))
        }
    }
}

/// The gatherings of two or more that the first `n` people start, each in turn among those who
/// are not yet taken.
pub open spec fn gatherings(sim: Seq<Seq<i64>>, n: nat) -> Seq<Seq<usize>>
    decreases n,
{
    if n == 0 {
        Seq::empty()
    } else {
        let front = gatherings(sim, (n - 1) as nat);
        let taken = taken_by(sim, (n - 1) as nat);
        let members = gathered(sim, taken, n - 1, sim.len());
        if !taken[n - 1] && members.len() >= 2 {
            front.push(members)
        } else {
            front
        }
    }
}

/// The members of each gathering.
pub open spec fn groups(v: Seq<Vec<usize>>) -> Seq<Seq<usize>> {
    v.map_values(|g: Vec<usize>| g@)
}

/// Finds out who gathers with whom.
pub fn find_gatherings(sim: &Vec<Vec<i64>>) -> (r: Vec<Vec<usize>>)
    requires
        square(table(sim@)),
    ensures
        groups(r@) == gatherings(table(sim@), sim@.len()),
{
    let n: usize = sim.len();
    let ghost all = table(sim@);
    let mut taken: Vec<bool> = Vec::new();
    let mut k: usize = 0;
    while k < n
        invariant
            k <= n,
            taken@.len() == k,
            forall|j: int| 0 <= j < k ==> !(#[trigger] taken@[j]),
        decreases n - k,
    {
        taken.push(false);
        k = k + 1;
    }
    let mut r: Vec<Vec<usize>> = Vec::new();
    let mut i: usize = 0;
    proof {
        assert(taken@ =~= taken_by(all, 0));
        assert(groups(r@) =~= gatherings(all, 0));
    }
    while i < n
        invariant
            i <= n,
            n == sim@.len(),
            all == table(sim@),
            square(all),
            taken@.len() == n,
            taken@ == taken_by(all, i as nat),
            groups(r@) == gatherings(all, i as nat),
        decreases n - i,
    {
        if !taken[i] {
            let ghost start = taken@;
            let mut members: Vec<usize> = Vec::new();
            members.push(i);
            taken.set(i, true);
            let mut j: usize = i + 1;
            proof {
                assert(members@ =~= gathered(all, start, i as int, j as nat));
                assert(taken@ =~= taken_with(start, members@)) by {
                    assert(members@[0] == i);
                }
            }
            while j < n
                invariant
                    i < j <= n,
                    n == sim@.len(),
                    all == table(sim@),
                    square(all),
                    start.len() == n,
                    members@ == gathered(all, start, i as int, j as nat),
                    taken@ == taken_with(start, members@),
                    forall|m: int| 0 <= m < members@.len() ==> (#[trigger] members@[m]) < j,
                decreases n - j,
            {
                proof {
                    assert(all[i as int] == sim@[i as int]@);
                    assert(!members@.contains(j));
                }
                if !taken[j] && sim[i][j] > GATHERING {
                    let ghost before = members@;
                    members.push(j);
                    taken.set(j, true);
                    proof {
                        assert forall|m: int| 0 <= m < n implies #[trigger] taken@[m]
                            == taken_with(start, members@)[m] by {
                            if before.contains(m as usize) {
                                let p = choose|p: int| 0 <= p < before.len() && before[p] == m;
                                assert(members@[p] == m);
                            }
                            assert(members@[before.len() as int] == j);
                        }
                        assert(taken@ =~= taken_with(start, members@));
                    }
                }
                j = j + 1;
            }
            if members.len() >= 2 {
                let ghost was = r@;
                let ghost found = members@;
                r.push(members);
                proof {
                    assert(groups(r@) =~= groups(was).push(found));
                }
            }
        }
        i = i + 1;
    }
    r
}

proof fn gathered_members(sim: Seq<Seq<i64>>, taken: Seq<bool>, i: int, n: nat)
    requires
        0 <= i < sim.len() == taken.len(),
        i < n <= sim.len() <= usize::MAX,
        !taken[i],
    ensures
        gathered(sim, taken, i, n).len() > 0,
        gathered(sim, taken, i, n)[0] == i,
        forall|k: int|
            0 <= k < gathered(sim, taken, i, n).len() ==> i <= (#[trigger] gathered(
                sim,
                taken,
                i,
                n,
            )[k]) < n && !taken[gathered(sim, taken, i, n)[k] as int],
        forall|k: int|
            0 < k < gathered(sim, taken, i, n).len() ==> sim[i][(#[trigger] gathered(
                sim,
                taken,
                i,
                n,
            )[k]) as int] > GATHERING,
        gathered(sim, taken, i, n).no_duplicates(),
        forall|j: int|
            i < j < n && !#[trigger] taken[j] && sim[i][j] > GATHERING ==> gathered(
                sim,
                taken,
                i,
                n,
            ).contains(j as usize),
    decreases n,
{
    if n > i + 1 {
        gathered_members(sim, taken, i, (n - 1) as nat);
        let front = gathered(sim, taken, i, (n - 1) as nat);
        let all = gathered(sim, taken, i, n);
        assert forall|j: int|
            i < j < n && !#[trigger] taken[j] && sim[i][j] > GATHERING implies all.contains(
            j as usize,
        ) by {
            if j < n - 1 {
                let p = choose|p: int| 0 <= p < front.len() && front[p] == j as usize;
                assert(all[p] == j as usize);
            } else {
                assert(all[front.len() as int] == j as usize);
            }
        }
    }
}

proof fn gatherings_taken(sim: Seq<Seq<i64>>, n: nat)
    requires
        n <= sim.len() <= usize::MAX,
    ensures
        taken_by(sim, n).len() == sim.len(),
        forall|g: int, k: int|
            0 <= g < gatherings(sim, n).len() && 0 <= k < gatherings(sim, n)[g].len() ==> (
            #[trigger] gatherings(sim, n)[g][k]) < sim.len() && taken_by(
                sim,
                n,
            )[gatherings(sim, n)[g][k] as int],
    decreases n,
{
    if n > 0 {
        let m = (n - 1) as nat;
        gatherings_taken(sim, m);
        let taken = taken_by(sim, m);
        if !taken[n - 1] {
            gathered_members(sim, taken, n - 1, sim.len());
        }
        let front = gatherings(sim, m);
        let all = gatherings(sim, n);
        assert forall|g: int, k: int| 0 <= g < all.len() && 0 <= k < all[g].len() implies (
        #[trigger] all[g][k]) < sim.len() && taken_by(sim, n)[all[g][k] as int] by {
            if g < front.len() {
                assert(all[g][k] == front[g][k]);
            } else {
                let members = gathered(sim, taken, n - 1, sim.len());
                assert(members[k] == all[g][k]);
                assert(members.contains(members[k]));
            }
        }
    }
}

/// A gathering has two members or more, none of them twice, and all of them gather with the
/// first.
pub proof fn gatherings_are_close(sim: Seq<Seq<i64>>, n: nat, g: int)
    requires
        n <= sim.len() <= usize::MAX,
        0 <= g < gatherings(sim, n).len(),
    ensures
        gatherings(sim, n)[g].len() >= 2,
        gatherings(sim, n)[g].no_duplicates(),
        forall|k: int|
            0 <= k < gatherings(sim, n)[g].len() ==> (#[trigger] gatherings(sim, n)[g][k])
                < sim.len(),
        forall|k: int|
            0 < k < gatherings(sim, n)[g].len() ==> sim[gatherings(
                sim,
                n,
            )[g][0] as int][(#[trigger] gatherings(sim, n)[g][k]) as int] > GATHERING,
    decreases n,
{
    if n > 0 {
        let m = (n - 1) as nat;
        gatherings_taken(sim, m);
        if g < gatherings(sim, m).len() {
            gatherings_are_close(sim, m, g);
        } else {
            gathered_members(sim, taken_by(sim, m), n - 1, sim.len());
        }
    }
}

/// Nobody is in two gatherings.
pub proof fn gatherings_are_apart(sim: Seq<Seq<i64>>, n: nat, g: int, h: int, k: int, l: int)
    requires
        n <= sim.len() <= usize::MAX,
        0 <= g < h < gatherings(sim, n).len(),
        0 <= k < gatherings(sim, n)[g].len(),
        0 <= l < gatherings(sim, n)[h].len(),
    ensures
        gatherings(sim, n)[g][k] != gatherings(sim, n)[h][l],
    decreases n,
{
    if n > 0 {
        let m = (n - 1) as nat;
        gatherings_taken(sim, m);
        let front = gatherings(sim, m);
        if h < front.len() {
            gatherings_are_apart(sim, m, g, h, k, l);
        } else {
            let taken = taken_by(sim, m);
            gathered_members(sim, taken, n - 1, sim.len());
            let members = gathered(sim, taken, n - 1, sim.len());
            assert(gatherings(sim, n)[g][k] == front[g][k]);
            assert(gatherings(sim, n)[h][l] == members[l]);
        }
    }
}

/// Someone is in a gathering.
pub open spec fn gathers(all: Seq<Seq<usize>>, i: usize) -> bool {
    exists|g: int, k: int| 0 <= g < all.len() && 0 <= k < all[g].len() && #[trigger] all[g][k] == i
}

proof fn taken_gather(sim: Seq<Seq<i64>>, n: nat, j: int)
    requires
        n <= j < sim.len() <= usize::MAX,
        taken_by(sim, n)[j],
    ensures
        gathers(gatherings(sim, n), j as usize),
    decreases n,
{
    if n > 0 {
        let m = (n - 1) as nat;
        gatherings_taken(sim, m);
        let taken = taken_by(sim, m);
        let front = gatherings(sim, m);
        let all = gatherings(sim, n);
        if taken[j] {
            taken_gather(sim, m, j);
            let (g, k) = choose|g: int, k: int|
                0 <= g < front.len() && 0 <= k < front[g].len() && #[trigger] front[g][k]
                    == j as usize;
            assert(all[g][k] == j as usize);
        } else {
            gathered_members(sim, taken, n - 1, sim.len());
            let members = gathered(sim, taken, n - 1, sim.len());
            let k = choose|k: int| 0 <= k < members.len() && members[k] == j as usize;
            assert(members[0] != members[k]);
            assert(all[front.len() as int][k] == j as usize);
        }
    }
}

proof fn gathers_on(sim: Seq<Seq<i64>>, n: nat, i: usize)
    requires
        0 < n,
        gathers(gatherings(sim, (n - 1) as nat), i),
    ensures
        gathers(gatherings(sim, n), i),
{
    let front = gatherings(sim, (n - 1) as nat);
    let all = gatherings(sim, n);
    let (g, k) = choose|g: int, k: int|
        0 <= g < front.len() && 0 <= k < front[g].len() && #[trigger] front[g][k] == i;
    assert(all[g][k] == i);
}

/// Of two people whose interests are close, at least one is in a gathering.
pub proof fn close_people_gather(sim: Seq<Seq<i64>>, n: nat, i: int, j: int)
    requires
        0 <= i < n <= sim.len() <= usize::MAX,
        i < j < sim.len(),
        sim[i][j] > GATHERING,
    ensures
        gathers(gatherings(sim, n), i as usize) || gathers(gatherings(sim, n), j as usize),
    decreases n,
{
    let m = (n - 1) as nat;
    gatherings_taken(sim, m);
    let taken = taken_by(sim, m);
    if i < m {
        close_people_gather(sim, m, i, j);
        if gathers(gatherings(sim, m), i as usize) {
            gathers_on(sim, n, i as usize);
        } else {
            gathers_on(sim, n, j as usize);
        }
    } else if taken[i] {
        taken_gather(sim, m, i);
        gathers_on(sim, n, i as usize);
    } else if taken[j] {
        taken_gather(sim, m, j);
        gathers_on(sim, n, j as usize);
    } else {
        gathered_members(sim, taken, i, sim.len());
        let members = gathered(sim, taken, i, sim.len());
        let k = choose|k: int| 0 <= k < members.len() && members[k] == j as usize;
        assert(members[0] != members[k]);
        assert(gatherings(sim, n)[gatherings(sim, m).len() as int][0] == i as usize);
    }
}

/// A label of a being that came from a gathering.
pub open spec fn is_convergence(label: Seq<char>) -> bool {
    has_suffix(label, "·convergence"@)
}

/// How many beings came from a gathering.
pub open spec fn convergences(nodes: Seq<EntityView>) -> nat
    decreases nodes.len(),
{
    if nodes.len() == 0 {
        0
    } else {
        convergences(nodes.drop_last()) + if is_convergence(nodes.last().label) {
            1nat
        } else {
            0nat
        }
    }
}

/// How far the nearest entity with a meaning is, and its label: the first where several are as
/// near, and a field far away where there is none.
pub open spec fn nearest(nodes: Seq<EntityView>, distances: Seq<i64>) -> (i64, Seq<char>)
    decreases nodes.len(),
{
    if nodes.len() == 0 {
        (FARTHEST, "field"@)
    } else {
        let front = nearest(nodes.drop_last(), distances);
        let d = distances[nodes.len() - 1];
        if nodes.last().embedding is Some && d < front.0 {
            (d, nodes.last().label)
        } else {
            front
        }
    }
}

/// The label of a being that comes into being by an entity.
pub open spec fn convergence_label(neighbour: Seq<char>) -> Seq<char> {
    first_chars(neighbour, INHERITED as nat) + "·convergence"@
}

/// The label of what comes into being where a gathering is at the given distances from the
/// entities. Nothing does where another entity is too near, where too much has already, or where
/// the label is already borne.
pub open spec fn emerging(nodes: Seq<EntityView>, distances: Seq<i64>) -> Option<Seq<char>> {
    let (d, neighbour) = nearest(nodes, distances);
    let label = convergence_label(neighbour);
    if d < CROWDED || convergences(nodes) >= EMERGENCE_LIMIT || labelled(nodes, label) is Some {
        None
    } else {
        Some(label)
    }
}

/// The label of what comes into being where a gathering is.
pub fn emerging_label(graph: &SpaceGraph, distances: &Vec<i64>) -> (r: Option<String>)
    requires
        graph.wf(),
        distances@.len() == graph.nodes().len(),
    ensures
        optional_text(r) == emerging(graph.nodes(), distances@),
{
    let ghost nodes = graph.nodes();
    let n: usize = graph.entity_count();
    let mut least: i64 = FARTHEST;
    let mut label: String = "field".to_owned();
    let mut count: usize = 0;
    let mut i: usize = 0;
    while i < n
        invariant
            i <= n,
            n == nodes.len(),
            graph.wf(),
            nodes == graph.nodes(),
            distances@.len() == n,
            (least, label@) == nearest(nodes.take(i as int), distances@),
            count == convergences(nodes.take(i as int)),
            count <= i,
        decreases n - i,
    {
        proof {
            assert(nodes.take(i + 1).drop_last() =~= nodes.take(i as int));
            assert(nodes.take(i + 1).last() == nodes[i as int]);
        }
        let e = graph.entity_at(i);
        if ends_with(e.label.as_str(), "·convergence") {
            count = count + 1;
        }
        if e.embedding.is_some() && distances[i] < least {
            least = distances[i];
            label = e.label.clone();
        }
        i = i + 1;
    }
    proof {
        assert(nodes.take(i as int) =~= nodes);
    }
    if least < CROWDED || count >= EMERGENCE_LIMIT {
        return None;
    }
    let start: String = take_chars(label.as_str(), INHERITED);
    let name: String = joined(start.as_str(), "·convergence");
    if graph.find_label(name.as_str()).is_some() {
        return None;
    }
    Some(name)
}

/// A being that came from a gathering: its meaning is what is in the middle of the gathering.
pub open spec fn emerged(
    label: Seq<char>,
    centroid: Seq<u32>,
    id: u128,
    at: Timestamp,
) -> EntityView {
    EntityView {
        embedding: Some(centroid),
        activity_vec: Some(centroid),
        ..newcomer(EntityKind::Event, label, id, at)
    }
}

/// What is announced when a being comes from a gathering of `size`.
pub open spec fn emergence_event(label: Seq<char>, size: nat) -> EventView {
    EventView {
        kind: "emergence"@,
        label,
        detail: Some(decimal(size) + " converging"@),
    }
}

/// A being that came from a gathering, and its announcement.
pub struct Emergence {
    pub entity: Entity,
    pub event: SpaceEvent,
}

/// Lets a being come into the space, where one does: it is added, and handed back with its
/// announcement.
pub fn emerge_at(
    graph: &mut SpaceGraph,
    distances: &Vec<i64>,
    size: usize,
    centroid: Vec<u32>,
    id: u128,
    at: Timestamp,
) -> (r: Option<Emergence>)
    requires
        old(graph).wf(),
        old(graph).nodes().len() < u32::MAX,
        distances@.len() == old(graph).nodes().len(),
    ensures
        final(graph).wf(),
        final(graph).edges() == old(graph).edges(),
        match emerging(old(graph).nodes(), distances@) {
            None => {
                &&& r is None
                &&& final(graph).nodes() == old(graph).nodes()
                &&& final(graph).index() == old(graph).index()
            },
            Some(label) => {
                let e = emerged(label, centroid@, id, at);
                &&& r matches Some(x) && x.entity@ == e && x.event@ == emergence_event(
                    label,
                    size as nat,
                )
                &&& final(graph).nodes() == old(graph).nodes().push(e)
                &&& final(graph).index() == old(graph).index().insert(
                    id,
                    old(graph).nodes().len() as usize,
                )
            },
        },
{
    let label: String = match emerging_label(graph, distances) {
        Some(label) => label,
        None => {
            return None;
        },
    };
    let mut entity = Entity::new_at(EntityKind::Event, label.as_str(), id, at);
    entity.activity_vec = Some(copy_vector(&centroid));
    entity.embedding = Some(centroid);
    graph.add_entity(entity.clone());
    let mut detail: String = String::new();
    push_decimal(&mut detail, size as u128);
    detail.append(" converging");
    proof {
        assert(detail@ =~= decimal(size as nat) + " converging"@);
    }
    let event = SpaceEvent { kind: "emergence".to_owned(), label, detail: Some(detail) };
    Some(Emergence { entity, event })
}

/// Lets a being come into the space now, with a random identifier, where one does.
pub fn emerge(graph: &mut SpaceGraph, distances: &Vec<i64>, size: usize, centroid: Vec<u32>) -> (r:
    Option<Emergence>)
    requires
        old(graph).wf(),
        old(graph).nodes().len() < u32::MAX,
        distances@.len() == old(graph).nodes().len(),
    ensures
        final(graph).wf(),
        final(graph).edges() == old(graph).edges(),
        match emerging(old(graph).nodes(), distances@) {
            None => {
                &&& r is None
                &&& final(graph).nodes() == old(graph).nodes()
                &&& final(graph).index() == old(graph).index()
            },
            Some(label) => {
                &&& r matches Some(x) && is_random(x.entity.id) && x.entity.last_active.plain()
                    && x.entity@ == emerged(
                    label,
                    centroid@,
                    x.entity.id,
                    x.entity.last_active,
                ) && x.event@ == emergence_event(label, size as nat)
                &&& final(graph).nodes() == old(graph).nodes().push(r->0.entity@)
                &&& final(graph).index() == old(graph).index().insert(
                    r->0.entity.id,
                    old(graph).nodes().len() as usize,
                )
            },
        },
{
    let id: u128 = fresh_id();
    let at = now();
    emerge_at(graph, distances, size, centroid, id, at)
}

/// However often beings emerge, there are never more of them than the limit.
pub proof fn emergence_is_limited(nodes: Seq<EntityView>, distances: Seq<i64>, e: EntityView)
    requires
        convergences(nodes) <= EMERGENCE_LIMIT,
        emerging(nodes, distances) == Some(e.label),
    ensures
        convergences(nodes.push(e)) <= EMERGENCE_LIMIT,
        is_convergence(e.label),
{
    let label = e.label;
    assert(nodes.push(e).drop_last() =~= nodes);
    let start = first_chars(nearest(nodes, distances).1, INHERITED as nat);
    assert(label.skip(label.len() - "·convergence"@.len()) =~= "·convergence"@);
}

/// What emerges bears a label that nothing in the space bore before.
pub proof fn emergence_is_new(nodes: Seq<EntityView>, distances: Seq<i64>, label: Seq<char>)
    requires
        emerging(nodes, distances) == Some(label),
    ensures
        forall|i: int| 0 <= i < nodes.len() ==> (#[trigger] nodes[i]).label != label,
{
    crate::graph::label_found(nodes, label, 0);
}

/// How many of the first `n` users are with an entity that has a meaning: as many coordinates
/// long as where they are, and close.
pub open spec fn present(meaning: Seq<u32>, users: Seq<UserView>, row: Seq<i64>, n: nat) -> nat
    decreases n,
{
    if n == 0 {
        0
    } else {
        present(meaning, users, row, (n - 1) as nat) + if users[n - 1].spatial_vec.len()
            == meaning.len() && row[n - 1] < TOGETHER {
            1nat
        } else {
            0nat
        }
    }
}

/// How many users are with an entity.
pub open spec fn company(e: EntityView, users: Seq<UserView>, row: Seq<i64>) -> nat {
    match e.embedding {
        Some(m) => present(m, users, row, users.len()),
        None => 0,
    }
}

/// The entities, out of the first `n`, with which two or more users are: their labels, and how
/// many are there.
pub open spec fn meeting_places(
    nodes: Seq<EntityView>,
    users: Seq<UserView>,
    distances: Seq<Seq<i64>>,
    n: nat,
) -> Seq<(Seq<char>, nat)>
    decreases n,
{
    if n == 0 {
        Seq::empty()
    } else {
        let front = meeting_places(nodes, users, distances, (n - 1) as nat);
        let count = company(nodes[n - 1], users, distances[n - 1]);
        if count >= 2 {
            front.push((nodes[n - 1].label, count))
        } else {
            front
        }
    }
}

/// The labels of meeting places, each once, in their order.
pub open spec fn place_labels(places: Seq<(Seq<char>, nat)>) -> Seq<Seq<char>>
    decreases places.len(),
{
    if places.len() == 0 {
        Seq::empty()
    } else {
        let front = place_labels(places.drop_last());
        if front.contains(places.last().0) {
            front
        } else {
            front.push(places.last().0)
        }
    }
}

/// What is announced when several people are with an entity.
pub open spec fn convergence_event(place: (Seq<char>, nat)) -> EventView {
    EventView {
        kind: "convergence"@,
        label: place.0,
        detail: Some(decimal(place.1) + " present"@),
    }
}

/// What is announced of meeting places: those that were none before.
pub open spec fn convergence_events(
    places: Seq<(Seq<char>, nat)>,
    before: Seq<Seq<char>>,
) -> Seq<EventView>
    decreases places.len(),
{
    if places.len() == 0 {
        Seq::empty()
    } else {
        let front = convergence_events(places.drop_last(), before);
        if before.contains(places.last().0) {
            front
        } else {
            front.push(convergence_event(places.last()))
        }
    }
}

/// Where people meet, and what is announced of it.
pub struct Convergences {
    pub events: Vec<SpaceEvent>,
    pub labels: Vec<String>,
}

/// The meeting places of a space. There are none where fewer than two people are.
pub open spec fn places_of(
    nodes: Seq<EntityView>,
    users: Seq<UserView>,
    distances: Seq<Seq<i64>>,
) -> Seq<(Seq<char>, nat)> {
    if users.len() < 2 {
        Seq::empty()
    } else {
        meeting_places(nodes, users, distances, nodes.len())
    }
}

fn count_present(meaning: &Vec<u32>, presence: &Presence, row: &Vec<i64>) -> (r: usize)
    requires
        row@.len() == presence@.len(),
    ensures
        r == present(meaning@, presence@, row@, presence@.len()),
{
    let n: usize = presence.users.len();
    let mut r: usize = 0;
    let mut i: usize = 0;
    while i < n
        invariant
            i <= n,
            n == presence@.len(),
            row@.len() == n,
            r == present(meaning@, presence@, row@, i as nat),
            r <= i,
        decreases n - i,
    {
        assert(presence@[i as int] == presence.users@[i as int]@);
        if presence.users[i].spatial_vec.len() == meaning.len() && row[i] < TOGETHER {
            r = r + 1;
        }
        i = i + 1;
    }
    r
}

/// Finds out where people meet, given how far each of them is from each entity, and announces
/// the places in which they did not meet before.
pub fn detect_convergences(
    graph: &SpaceGraph,
    presence: &Presence,
    distances: &Vec<Vec<i64>>,
    before: &Vec<String>,
) -> (r: Convergences)
    requires
        graph.wf(),
        distances@.len() == graph.nodes().len(),
        forall|i: int| 0 <= i < distances@.len() ==> (#[trigger] distances@[i])@.len()
            == presence@.len(),
    ensures
        event_views(r.events@) == convergence_events(
            places_of(graph.nodes(), presence@, table(distances@)),
            texts(before@),
        ),
        texts(r.labels@) == place_labels(places_of(graph.nodes(), presence@, table(distances@))),
{
    let ghost nodes = graph.nodes();
    let ghost users = presence@;
    let ghost rows = table(distances@);
    let mut events: Vec<SpaceEvent> = Vec::new();
    let mut labels: Vec<String> = Vec::new();
    proof {
        assert(event_views(events@) =~= Seq::<EventView>::empty());
        assert(texts(labels@) =~= Seq::<Seq<char>>::empty());
    }
    if presence.users.len() < 2 {
        return Convergences { events, labels };
    }
    let n: usize = graph.entity_count();
    let mut i: usize = 0;
    while i < n
        invariant
            i <= n,
            n == nodes.len(),
            graph.wf(),
            nodes == graph.nodes(),
            users == presence@,
            rows == table(distances@),
            distances@.len() == n,
            forall|k: int| 0 <= k < distances@.len() ==> (#[trigger] distances@[k])@.len()
                == users.len(),
            event_views(events@) == convergence_events(
                meeting_places(nodes, users, rows, i as nat),
                texts(before@),
            ),
            texts(labels@) == place_labels(meeting_places(nodes, users, rows, i as nat)),
        decreases n - i,
    {
        let e = graph.entity_at(i);
        let count: usize = match &e.embedding {
            Some(m) => count_present(m, presence, &distances[i]),
            None => 0,
        };
        let ghost front = meeting_places(nodes, users, rows, i as nat);
        let ghost place = (e@.label, count as nat);
        assert(rows[i as int] == distances@[i as int]@);
        if count >= 2 {
            proof {
                assert(front.push(place).drop_last() =~= front);
                assert(meeting_places(nodes, users, rows, (i + 1) as nat) == front.push(place));
            }
            if !contains_text(&labels, e.label.as_str()) {
                let ghost was = labels@;
                labels.push(e.label.clone());
                proof {
                    assert(texts(labels@) =~= texts(was).push(e@.label));
                }
            }
            if !contains_text(before, e.label.as_str()) {
                let mut detail: String = String::new();
                push_decimal(&mut detail, count as u128);
                detail.append(" present");
                proof {
                    assert(detail@ =~= decimal(count as nat) + " present"@);
                }
                let event = SpaceEvent {
                    kind: "convergence".to_owned(),
                    label: e.label.clone(),
                    detail: Some(detail),
                };
                let ghost seen = event@;
                let ghost was = events@;
                events.push(event);
                proof {
                    assert(event_views(events@) =~= event_views(was).push(seen));
                }
            }
        }
        i = i + 1;
    }
    Convergences { events, labels }
}

/// Where people go on meeting, nothing is announced again.
pub proof fn convergences_are_announced_once(
    places: Seq<(Seq<char>, nat)>,
    before: Seq<Seq<char>>,
)
    requires
        forall|i: int| 0 <= i < places.len() ==> before.contains((#[trigger] places[i]).0),
    ensures
        convergence_events(places, before).len() == 0,
    decreases places.len(),
{
    if places.len() > 0 {
        let front = places.drop_last();
        assert forall|i: int| 0 <= i < front.len() implies before.contains(
            (#[trigger] front[i]).0,
        ) by {
            assert(front[i] == places[i]);
        }
        convergences_are_announced_once(front, before);
        assert(before.contains(places[places.len() - 1].0));
    }
}

/// Every meeting place is remembered under its label, so that it is not announced again as long
/// as people go on meeting there.
pub proof fn meeting_places_are_remembered(places: Seq<(Seq<char>, nat)>)
    ensures
        forall|i: int|
            0 <= i < places.len() ==> place_labels(places).contains((#[trigger] places[i]).0),
    decreases places.len(),
{
    if places.len() > 0 {
        let front = places.drop_last();
        meeting_places_are_remembered(front);
        let short = place_labels(front);
        let all = place_labels(places);
        assert forall|i: int| 0 <= i < places.len() implies all.contains(
            (#[trigger] places[i]).0,
        ) by {
            if i < front.len() {
                assert(front[i] == places[i]);
                let k = choose|k: int| 0 <= k < short.len() && short[k] == front[i].0;
                assert(all[k] == places[i].0);
            } else if !short.contains(places[i].0) {
                assert(all[short.len() as int] == places[i].0);
            }
        }
    }
}

proof fn explored_up_to(all: Seq<i64>, n: nat)
    requires
        n <= all.len() <= usize::MAX,
    ensures
        ({
            let r = explored(all.take(n as int));
            &&& forall|k: int| 0 <= k < r.len() ==> (#[trigger] r[k]) < n
            &&& forall|k: int, l: int| 0 <= k < l < r.len() ==> #[trigger] r[k] < #[trigger] r[l]
            &&& forall|i: int|
                0 <= i < n ==> (r.contains(i as usize) <==> #[trigger] all[i] < 980_000_000_000)
        }),
    decreases n,
{
    if n > 0 {
        explored_up_to(all, (n - 1) as nat);
        assert(all.take(n as int).drop_last() =~= all.take(n - 1));
        let short = explored(all.take(n - 1));
        let r = explored(all.take(n as int));
        assert forall|i: int| 0 <= i < n implies (r.contains(i as usize) <==> #[trigger] all[i]
            < 980_000_000_000) by {
            if i == n - 1 {
                if all[i] < 980_000_000_000 {
                    assert(r[short.len() as int] == i as usize);
                }
            } else {
                if short.contains(i as usize) {
                    let k = choose|k: int| 0 <= k < short.len() && short[k] == i as usize;
                    assert(r[k] == i as usize);
                }
                if r.contains(i as usize) {
                    let k = choose|k: int| 0 <= k < r.len() && r[k] == i as usize;
                    assert(short[k] == i as usize);
                }
            }
        }
    }
}

/// Those who have explored are exactly those whose interests are less similar to what everyone
/// starts with than ninety-eight hundredths, each listed once and in order.
pub proof fn explorers_have_moved_on(similarities: Seq<i64>)
    requires
        similarities.len() <= usize::MAX,
    ensures
        ({
            let r = explored(similarities);
            &&& forall|k: int| 0 <= k < r.len() ==> (#[trigger] r[k]) < similarities.len()
            &&& forall|k: int, l: int| 0 <= k < l < r.len() ==> #[trigger] r[k] < #[trigger] r[l]
            &&& forall|i: int|
                0 <= i < similarities.len() ==> (r.contains(i as usize)
                    <==> #[trigger] similarities[i] < 980_000_000_000)
        }),
{
    assert(similarities.take(similarities.len() as int) =~= similarities);
    explored_up_to(similarities, similarities.len());
}

/// Someone is in one of the first `g` gatherings.
pub open spec fn gathers_before(all: Seq<Seq<usize>>, g: int, i: usize) -> bool {
    exists|h: int, k: int|
        0 <= h < g && 0 <= k < all[h].len() && #[trigger] all[h][k] == i
}

proof fn gathered_ascends(sim: Seq<Seq<i64>>, taken: Seq<bool>, i: int, n: nat)
    requires
        0 <= i < n <= usize::MAX,
    ensures
        forall|k: int|
            0 <= k < gathered(sim, taken, i, n).len() ==> (#[trigger] gathered(
                sim,
                taken,
                i,
                n,
            )[k]) < n,
        forall|k: int, l: int|
            0 <= k < l < gathered(sim, taken, i, n).len() ==> #[trigger] gathered(
                sim,
                taken,
                i,
                n,
            )[k] < #[trigger] gathered(sim, taken, i, n)[l],
    decreases n,
{
    if n > i + 1 {
        gathered_ascends(sim, taken, i, (n - 1) as nat);
        let front = gathered(sim, taken, i, (n - 1) as nat);
        let all = gathered(sim, taken, i, n);
        assert forall|k: int| 0 <= k < all.len() implies (#[trigger] all[k]) < n by {
            if k < front.len() {
                assert(all[k] == front[k]);
            }
        }
        assert forall|k: int, l: int| 0 <= k < l < all.len() implies #[trigger] all[k]
            < #[trigger] all[l] by {
            assert(all[k] == front[k]);
            if l < front.len() {
                assert(all[l] == front[l]);
            }
        }
    }
}

proof fn gatherings_in_order(sim: Seq<Seq<i64>>, n: nat)
    requires
        n <= sim.len() <= usize::MAX,
    ensures
        ({
            let all = gatherings(sim, n);
            &&& forall|g: int|
                0 <= g < all.len() ==> (#[trigger] all[g]).len() >= 2 && all[g][0] < n
            &&& forall|g: int, h: int|
                0 <= g < h < all.len() ==> (#[trigger] all[g])[0] < (#[trigger] all[h])[0]
            &&& forall|g: int, k: int, l: int|
                0 <= g < all.len() && 0 <= k < l < all[g].len() ==> #[trigger] all[g][k]
                    < #[trigger] all[g][l]
        }),
    decreases n,
{
    if n > 0 {
        let m = (n - 1) as nat;
        gatherings_in_order(sim, m);
        gatherings_taken(sim, m);
        let taken = taken_by(sim, m);
        let front = gatherings(sim, m);
        let all = gatherings(sim, n);
        gathered_ascends(sim, taken, n - 1, sim.len());
        if !taken[n - 1] {
            gathered_members(sim, taken, n - 1, sim.len());
        }
        assert forall|g: int| 0 <= g < all.len() implies (#[trigger] all[g]).len() >= 2
            && all[g][0] < n by {
            if g < front.len() {
                assert(all[g] == front[g]);
            }
        }
        assert forall|g: int, h: int| 0 <= g < h < all.len() implies (#[trigger] all[g])[0] < (
        #[trigger] all[h])[0] by {
            assert(all[g] == front[g]);
            if h < front.len() {
                assert(all[h] == front[h]);
            }
        }
        assert forall|g: int, k: int, l: int|
            0 <= g < all.len() && 0 <= k < l < all[g].len() implies #[trigger] all[g][k]
            < #[trigger] all[g][l] by {
            if g < front.len() {
                assert(all[g] == front[g]);
                assert(front[g][k] < front[g][l]);
            } else {
                let members = gathered(sim, taken, n - 1, sim.len());
                assert(all[g] == members);
                assert(members[k] < members[l]);
            }
        }
    }
}

/// Gatherings are listed by who starts them, and the members of each in order: whoever starts one
/// comes before all who join.
pub proof fn gatherings_are_ordered(sim: Seq<Seq<i64>>)
    requires
        sim.len() <= usize::MAX,
    ensures
        ({
            let all = gatherings(sim, sim.len());
            &&& forall|g: int, h: int|
                0 <= g < h < all.len() ==> (#[trigger] all[g])[0] < (#[trigger] all[h])[0]
            &&& forall|g: int, k: int, l: int|
                0 <= g < all.len() && 0 <= k < l < all[g].len() ==> #[trigger] all[g][k]
                    < #[trigger] all[g][l]
        }),
{
    gatherings_in_order(sim, sim.len());
}

proof fn gathering_takes_all(sim: Seq<Seq<i64>>, n: nat, g: int, j: int)
    requires
        n <= sim.len() <= usize::MAX,
        0 <= g < gatherings(sim, n).len(),
        gatherings(sim, n)[g][0] < j < sim.len(),
        sim[gatherings(sim, n)[g][0] as int][j] > GATHERING,
    ensures
        gathers_before(gatherings(sim, n), g + 1, j as usize),
    decreases n,
{
    let m = (n - 1) as nat;
    let front = gatherings(sim, m);
    let all = gatherings(sim, n);
    gatherings_taken(sim, m);
    if g < front.len() {
        gathering_takes_all(sim, m, g, j);
        let (h, k) = choose|h: int, k: int|
            0 <= h < g + 1 && 0 <= k < front[h].len() && #[trigger] front[h][k] == j as usize;
        assert(all[h][k] == j as usize);
    } else {
        let taken = taken_by(sim, m);
        gathered_members(sim, taken, n - 1, sim.len());
        let members = gathered(sim, taken, n - 1, sim.len());
        if taken[j] {
            taken_gather(sim, m, j);
            let (h, k) = choose|h: int, k: int|
                0 <= h < front.len() && 0 <= k < front[h].len() && #[trigger] front[h][k]
                    == j as usize;
            assert(all[h][k] == j as usize);
        } else {
            let k = choose|k: int| 0 <= k < members.len() && members[k] == j as usize;
            assert(all[g][k] == j as usize);
        }
    }
}

/// Whoever starts a gathering takes in everyone behind them whose interests are more similar to
/// theirs than three quarters: each such person is in that gathering, or in one before it.
pub proof fn gatherings_take_everyone_close(sim: Seq<Seq<i64>>, g: int, j: int)
    requires
        sim.len() <= usize::MAX,
        0 <= g < gatherings(sim, sim.len()).len(),
        gatherings(sim, sim.len())[g][0] < j < sim.len(),
        sim[gatherings(sim, sim.len())[g][0] as int][j] > 750_000_000_000,
    ensures
        gathers_before(gatherings(sim, sim.len()), g + 1, j as usize),
{
    gathering_takes_all(sim, sim.len(), g, j);
}

/// Those who are in no gathering had nobody left to gather with: everyone behind them whose
/// interests are more similar to theirs than three quarters had joined someone before them.
pub proof fn loners_find_nobody(sim: Seq<Seq<i64>>, n: nat, i: int, j: int)
    requires
        0 <= i < n <= sim.len() <= usize::MAX,
        i < j < sim.len(),
        sim[i][j] > 750_000_000_000,
        !gathers(gatherings(sim, n), i as usize),
    ensures
        exists|g: int, k: int|
            0 <= g < gatherings(sim, n).len() && gatherings(sim, n)[g][0] < i && 0 <= k
                < gatherings(sim, n)[g].len() && #[trigger] gatherings(sim, n)[g][k] == j as usize,
    decreases n,
{
    let m = (n - 1) as nat;
    let front = gatherings(sim, m);
    let all = gatherings(sim, n);
    gatherings_taken(sim, m);
    gatherings_in_order(sim, m);
    let taken = taken_by(sim, m);
    if i < m {
        if gathers(front, i as usize) {
            gathers_on(sim, n, i as usize);
        }
        loners_find_nobody(sim, m, i, j);
        let (g, k) = choose|g: int, k: int|
            0 <= g < front.len() && front[g][0] < i && 0 <= k < front[g].len()
                && #[trigger] front[g][k] == j as usize;
        assert(all[g][k] == j as usize);
    } else if taken[i] {
        taken_gather(sim, m, i);
        gathers_on(sim, n, i as usize);
    } else if taken[j] {
        taken_gather(sim, m, j);
        let (g, k) = choose|g: int, k: int|
            0 <= g < front.len() && 0 <= k < front[g].len() && #[trigger] front[g][k]
                == j as usize;
        assert(front[g].len() >= 2);
        assert(all[g][k] == j as usize);
    } else {
        gathered_members(sim, taken, i, sim.len());
        let members = gathered(sim, taken, i, sim.len());
        let k = choose|k: int| 0 <= k < members.len() && members[k] == j as usize;
        assert(members[0] != members[k]);
        assert(all[front.len() as int][0] == i as usize);
    }
}

/// An entity with a meaning, at an index.
pub open spec fn has_meaning(nodes: Seq<EntityView>, i: int) -> bool {
    0 <= i < nodes.len() && nodes[i].embedding is Some
}

proof fn nearest_up_to(nodes: Seq<EntityView>, distances: Seq<i64>, n: nat)
    requires
        n <= nodes.len() == distances.len(),
    ensures
        ({
            let (d, label) = nearest(nodes.take(n as int), distances);
            &&& forall|i: int| i < n && #[trigger] has_meaning(nodes, i) ==> d <= distances[i]
            &&& (d == FARTHEST && label == "field"@) || exists|i: int|
                i < n && #[trigger] has_meaning(nodes, i) && distances[i] == d && d < FARTHEST
                    && nodes[i].label == label && forall|j: int|
                    j < i && #[trigger] has_meaning(nodes, j) ==> d < distances[j]
        }),
    decreases n,
{
    if n > 0 {
        nearest_up_to(nodes, distances, (n - 1) as nat);
        assert(nodes.take(n as int).drop_last() =~= nodes.take(n - 1));
        assert(nodes.take(n as int).last() == nodes[n - 1]);
        let front = nearest(nodes.take(n - 1), distances);
        let d = distances[n - 1];
        if nodes[n - 1].embedding is Some && d < front.0 {
            assert(has_meaning(nodes, n - 1));
            assert forall|j: int| j < n - 1 && #[trigger] has_meaning(nodes, j) implies d
                < distances[j] by {}
        }
    }
}

/// The distance that decides is that of the nearest entity with a meaning, and its label is that
/// entity's: no entity with a meaning is closer, and of several as close it is the first. Where
/// no entity with a meaning is anywhere, a field far away decides.
pub proof fn nearest_is_closest(nodes: Seq<EntityView>, distances: Seq<i64>)
    requires
        nodes.len() == distances.len(),
    ensures
        ({
            let (d, label) = nearest(nodes, distances);
            &&& forall|i: int| #[trigger] has_meaning(nodes, i) ==> d <= distances[i]
            &&& (d == FARTHEST && label == "field"@) || exists|i: int| #[trigger]
                has_meaning(nodes, i) && distances[i] == d && d < FARTHEST && nodes[i].label
                    == label && forall|j: int|
                    j < i && #[trigger] has_meaning(nodes, j) ==> d < distances[j]
        }),
{
    assert(nodes.take(nodes.len() as int) =~= nodes);
    nearest_up_to(nodes, distances, nodes.len());
}

/// Nothing emerges where any entity with a meaning is closer than a quarter.
pub proof fn nothing_emerges_in_a_crowd(nodes: Seq<EntityView>, distances: Seq<i64>, i: int)
    requires
        nodes.len() == distances.len(),
        has_meaning(nodes, i),
        distances[i] < 250_000_000_000,
    ensures
        emerging(nodes, distances) is None,
{
    nearest_is_closest(nodes, distances);
}

/// A label that ends in `·convergence`.
pub open spec fn ends_in_convergence(label: Seq<char>) -> bool {
    exists|start: Seq<char>| #[trigger] (start + "·convergence"@) == label
}

/// A label is that of a being that came from a gathering just when it ends so.
pub proof fn convergence_is_told_by_its_label(label: Seq<char>)
    ensures
        is_convergence(label) <==> ends_in_convergence(label),
{
    let end = "·convergence"@;
    if is_convergence(label) {
        let start = label.take(label.len() - end.len());
        assert(start + end =~= label);
    }
    if ends_in_convergence(label) {
        let start = choose|start: Seq<char>| #[trigger] (start + end) == label;
        assert(label.skip(label.len() - end.len()) =~= end);
    }
}

/// All beings that came from a gathering are counted, whatever else is there.
pub proof fn convergences_are_all_counted(nodes: Seq<EntityView>)
    ensures
        convergences(nodes) == nodes.filter(|e: EntityView| ends_in_convergence(e.label)).len(),
    decreases nodes.len(),
{
    reveal(Seq::filter);
    if nodes.len() > 0 {
        convergences_are_all_counted(nodes.drop_last());
        convergence_is_told_by_its_label(nodes.last().label);
    }
}

/// By the nearest entity with a meaning something emerges, under the first forty characters of
/// its label: unless that entity is closer than a quarter, five such beings are there already, or
/// the label is borne.
pub proof fn emergence_is_by_the_nearest(nodes: Seq<EntityView>, distances: Seq<i64>, i: int)
    requires
        nodes.len() == distances.len(),
        has_meaning(nodes, i),
        distances[i] < FARTHEST,
        forall|j: int| #[trigger] has_meaning(nodes, j) ==> distances[i] <= distances[j],
        forall|j: int| j < i && #[trigger] has_meaning(nodes, j) ==> distances[i] < distances[j],
    ensures
        ({
            let start = nodes[i].label;
            let label = (if start.len() > 40 {
                start.take(40)
            } else {
                start
            }) + "·convergence"@;
            emerging(nodes, distances) == if distances[i] >= 250_000_000_000 && nodes.filter(
                |e: EntityView| ends_in_convergence(e.label),
            ).len() < 5 && forall|k: int| 0 <= k < nodes.len() ==> (#[trigger] nodes[k]).label
                != label {
                Some(label)
            } else {
                None
            }
        }),
{
    nearest_is_closest(nodes, distances);
    convergences_are_all_counted(nodes);
    let (d, label) = nearest(nodes, distances);
    assert(d <= distances[i]);
    let k = choose|k: int| #[trigger]
        has_meaning(nodes, k) && distances[k] == d && d < FARTHEST && nodes[k].label == label
            && forall|j: int| j < k && #[trigger] has_meaning(nodes, j) ==> d < distances[j];
    assert(k == i);
    crate::graph::label_found(nodes, convergence_label(label), 0);
}

/// Where no entity has a meaning, what emerges is named after the field.
pub proof fn emergence_in_the_open(nodes: Seq<EntityView>, distances: Seq<i64>)
    requires
        nodes.len() == distances.len(),
        forall|i: int| !#[trigger] has_meaning(nodes, i),
    ensures
        ({
            let label = "field"@ + "·convergence"@;
            emerging(nodes, distances) == if nodes.filter(
                |e: EntityView| ends_in_convergence(e.label),
            ).len() < 5 && forall|k: int| 0 <= k < nodes.len() ==> (#[trigger] nodes[k]).label
                != label {
                Some(label)
            } else {
                None
            }
        }),
{
    reveal_strlit("field");
    nearest_is_closest(nodes, distances);
    convergences_are_all_counted(nodes);
    crate::graph::label_found(nodes, convergence_label("field"@), 0);
}

/// A user is with an entity of the given meaning: closer than three tenths, and in a place of as
/// many coordinates.
pub open spec fn is_with(meaning: Seq<u32>, users: Seq<UserView>, row: Seq<i64>, i: int) -> bool {
    users[i].spatial_vec.len() == meaning.len() && row[i] < 300_000_000_000
}

proof fn present_is_a_set(meaning: Seq<u32>, users: Seq<UserView>, row: Seq<i64>, n: nat)
    ensures
        ({
            let s = Set::new(|i: int| 0 <= i < n && is_with(meaning, users, row, i));
            s.finite() && present(meaning, users, row, n) == s.len()
        }),
    decreases n,
{
    let s = Set::new(|i: int| 0 <= i < n && is_with(meaning, users, row, i));
    if n == 0 {
        assert(s =~= Set::<int>::empty());
    } else {
        present_is_a_set(meaning, users, row, (n - 1) as nat);
        let t = Set::new(|i: int| 0 <= i < n - 1 && is_with(meaning, users, row, i));
        if is_with(meaning, users, row, n - 1) {
            assert(s =~= t.insert(n - 1));
        } else {
            assert(s =~= t);
        }
    }
}

/// The company of an entity is everyone who is with it, whatever the order in which they came:
/// nobody is with an entity without a meaning.
pub proof fn company_is_everyone_close(e: EntityView, users: Seq<UserView>, row: Seq<i64>)
    ensures
        e.embedding is None ==> company(e, users, row) == 0,
        e.embedding matches Some(m) ==> company(e, users, row) == Set::new(
            |i: int| 0 <= i < users.len() && is_with(m, users, row, i),
        ).len(),
{
    if let Some(m) = e.embedding {
        present_is_a_set(m, users, row, users.len());
    }
}

/// Any two people who are with an entity make it a place where people meet.
pub proof fn two_make_company(e: EntityView, users: Seq<UserView>, row: Seq<i64>, i: int, j: int)
    requires
        0 <= i < users.len(),
        0 <= j < users.len(),
        i != j,
        e.embedding matches Some(m) && is_with(m, users, row, i) && is_with(m, users, row, j),
    ensures
        company(e, users, row) >= 2,
{
    let m = e.embedding->0;
    present_is_a_set(m, users, row, users.len());
    let s = Set::new(|i: int| 0 <= i < users.len() && is_with(m, users, row, i));
    assert(s.contains(i) && s.remove(i).contains(j));
    assert(s.remove(i).remove(j).len() + 2 == s.len());
}

proof fn meeting_places_up_to(
    nodes: Seq<EntityView>,
    users: Seq<UserView>,
    distances: Seq<Seq<i64>>,
    n: nat,
)
    ensures
        meeting_places(nodes, users, distances, n) == kept(
            n,
            |i: int| company(nodes[i], users, distances[i]) >= 2,
            |i: int| (nodes[i].label, company(nodes[i], users, distances[i])),
        ),
    decreases n,
{
    let keep = |i: int| company(nodes[i], users, distances[i]) >= 2;
    let f = |i: int| (nodes[i].label, company(nodes[i], users, distances[i]));
    kept_grows(n, keep, f);
    if n > 0 {
        meeting_places_up_to(nodes, users, distances, (n - 1) as nat);
    }
}

/// The places where people meet are the entities with a company of two or more, all of them and
/// in their order, each with its label and the size of its company.
pub proof fn people_meet_where_two_are(
    nodes: Seq<EntityView>,
    users: Seq<UserView>,
    distances: Seq<Seq<i64>>,
)
    ensures
        users.len() >= 2 ==> places_of(nodes, users, distances) == kept(
            nodes.len(),
            |i: int| company(nodes[i], users, distances[i]) >= 2,
            |i: int| (nodes[i].label, company(nodes[i], users, distances[i])),
        ),
        users.len() < 2 ==> places_of(nodes, users, distances).len() == 0,
{
    meeting_places_up_to(nodes, users, distances, nodes.len());
}

proof fn place_labels_exactly(places: Seq<(Seq<char>, nat)>, label: Seq<char>)
    ensures
        place_labels(places).contains(label) <==> exists|i: int|
            0 <= i < places.len() && (#[trigger] places[i]).0 == label,
        place_labels(places).no_duplicates(),
    decreases places.len(),
{
    meeting_places_are_remembered(places);
    if places.len() > 0 {
        let front = places.drop_last();
        place_labels_exactly(front, label);
        let short = place_labels(front);
        let all = place_labels(places);
        if all.contains(label) {
            let k = choose|k: int| 0 <= k < all.len() && all[k] == label;
            if k < short.len() {
                assert(short[k] == label);
                let i = choose|i: int|
                    0 <= i < front.len() && (#[trigger] front[i]).0 == label;
                assert(places[i].0 == label);
            } else {
                assert(places[places.len() - 1].0 == label);
            }
        }
    }
}

/// What is remembered is exactly where people meet, each label once.
pub proof fn only_meeting_places_are_remembered(places: Seq<(Seq<char>, nat)>, label: Seq<char>)
    ensures
        place_labels(places).contains(label) <==> exists|i: int|
            0 <= i < places.len() && (#[trigger] places[i]).0 == label,
        place_labels(places).no_duplicates(),
{
    place_labels_exactly(places, label);
}

proof fn announced_up_to(places: Seq<(Seq<char>, nat)>, before: Seq<Seq<char>>, n: nat)
    requires
        n <= places.len(),
    ensures
        convergence_events(places.take(n as int), before) == kept(
            n,
            |i: int| !before.contains(places[i].0),
            |i: int|
                EventView {
                    kind: "convergence"@,
                    label: places[i].0,
                    detail: Some(decimal(places[i].1) + " present"@),
                },
        ),
    decreases n,
{
    let keep = |i: int| !before.contains(places[i].0);
    let f = |i: int|
        EventView {
            kind: "convergence"@,
            label: places[i].0,
            detail: Some(decimal(places[i].1) + " present"@),
        };
    kept_grows(n, keep, f);
    if n > 0 {
        announced_up_to(places, before, (n - 1) as nat);
        assert(places.take(n as int).drop_last() =~= places.take(n - 1));
    }
}

/// Every place where people meet and did not meet before is announced, with how many are there,
/// and nothing else is.
pub proof fn new_meeting_places_are_announced(
    places: Seq<(Seq<char>, nat)>,
    before: Seq<Seq<char>>,
)
    ensures
        convergence_events(places, before) == kept(
            places.len(),
            |i: int| !before.contains(places[i].0),
            |i: int|
                EventView {
                    kind: "convergence"@,
                    label: places[i].0,
                    detail: Some(decimal(places[i].1) + " present"@),
                },
        ),
{
    assert(places.take(places.len() as int) =~= places);
    announced_up_to(places, before, places.len());
}

/// What emerges is an event without an end that means, and has gathered, what is in the middle of
/// the gathering; it is announced under its label with how many gathered.
pub proof fn what_emerges_means_its_middle(
    label: Seq<char>,
    centroid: Seq<u32>,
    id: u128,
    at: Timestamp,
    size: nat,
)
    ensures
        ({
            let e = emerged(label, centroid, id, at);
            &&& e.id == id && e.label == label && e.kind == EntityKind::Event
            &&& e.embedding == Some(centroid) && e.activity_vec == Some(centroid)
            &&& e.last_active == at && e.expires_at is None
        }),
        ({
            let v = emergence_event(label, size);
            &&& v.kind == "emergence"@ && v.label == label
            &&& v.detail == Some(decimal(size) + " converging"@)
        }),
{
}

/// Nobody joins a gathering whose interests are not more similar than three quarters to those of
/// whoever starts it.
pub proof fn only_the_close_gather(sim: Seq<Seq<i64>>, g: int, k: int)
    requires
        sim.len() <= usize::MAX,
        0 <= g < gatherings(sim, sim.len()).len(),
        0 < k < gatherings(sim, sim.len())[g].len(),
    ensures
        ({
            let members = gatherings(sim, sim.len())[g];
            sim[members[0] as int][members[k] as int] > 750_000_000_000
        }),
{
    gatherings_are_close(sim, sim.len(), g);
    let members = gatherings(sim, sim.len())[g];
    assert(members[k] == gatherings(sim, sim.len())[g][k]);
}

} // verus!
