//! Wandering: what pulls someone through the space, and whom they come across.
use crate::field::{
    drift_views, observed_views, user_seen, DriftSignal, DriftView, FieldState, FieldView,
    ObservedEntity, ObservedView, Scene,
};
use crate::graph::{copy_vector, labelled, EntityView, SpaceGraph};
use crate::identity::vectors;
use crate::ids::{hyphenated, identifiers_have_one_length};
use crate::order::{kept, kept_grows};
use crate::presence::{user_at, Presence, UserView};
use crate::text::{copy_optional_text, has_prefix, optional_text, prefixes_begin, starts_with};
use vstd::prelude::*;

verus! {

/// The number of coordinates of a meaning.
pub const DIMENSION: usize = 384;

/// Something that happened in the space.
#[derive(Debug)]
pub struct SpaceEvent {
    /// `emergence`, `convergence` or `encounter`.
    pub kind: String,
    pub label: String,
    pub detail: Option<String>,
}

/// Something that happened in the space, as a mathematical value.
#[verifier::ext_equal]
pub struct EventView {
    pub kind: Seq<char>,
    pub label: Seq<char>,
    pub detail: Option<Seq<char>>,
}

impl View for SpaceEvent {
    type V = EventView;

    open spec fn view(&self) -> EventView {
        EventView { kind: self.kind@, label: self.label@, detail: optional_text(self.detail) }
    }
}

impl Clone for SpaceEvent {
    fn clone(&self) -> (r: Self)
        ensures
            r@ == self@,
    {
        SpaceEvent {
            kind: self.kind.clone(),
            label: self.label.clone(),
            detail: copy_optional_text(&self.detail),
        }
    }
}

/// The events of a list, as mathematical values.
pub open spec fn event_views(v: Seq<SpaceEvent>) -> Seq<EventView> {
    v.map_values(|e: SpaceEvent| e@)
}

/// Something that is seen and is a wanderer: nameless, or on the way somewhere.
pub open spec fn wandering(o: ObservedView) -> bool {
    has_prefix(o.label, "wanderer_"@) || o.moving_toward is Some
}

/// Something that is seen is a wanderer.
pub fn is_wandering(o: &ObservedEntity) -> (r: bool)
    ensures
        r == wandering(o@),
{
    o.moving_toward.is_some() || starts_with(o.label.as_str(), "wanderer_")
}

/// The meaning of the first entity that bears a label.
pub open spec fn meaning_of(nodes: Seq<EntityView>, label: Seq<char>) -> Option<Seq<u32>> {
    match labelled(nodes, label) {
        Some(i) => nodes[i].embedding,
        None => None,
    }
}

/// The meanings of what is near, but for wanderers.
pub open spec fn near_pull(nodes: Seq<EntityView>, near: Seq<ObservedView>) -> Seq<Seq<u32>>
    decreases near.len(),
{
    if near.len() == 0 {
        Seq::empty()
    } else {
        let front = near_pull(nodes, near.drop_last());
        match meaning_of(nodes, near.last().label) {
            Some(v) if !wandering(near.last()) => front.push(v),
            _ => front,
        }
    }
}

/// The meanings of what the currents lead to.
pub open spec fn drift_pull(nodes: Seq<EntityView>, drift: Seq<DriftView>) -> Seq<Seq<u32>>
    decreases drift.len(),
{
    if drift.len() == 0 {
        Seq::empty()
    } else {
        let front = drift_pull(nodes, drift.drop_last());
        match meaning_of(nodes, drift.last().toward) {
            Some(v) => front.push(v),
            None => front,
        }
    }
}

fn find_meaning<'a>(graph: &'a SpaceGraph, label: &str) -> (r: Option<&'a Vec<u32>>)
    requires
        graph.wf(),
    ensures
        match r {
            Some(v) => meaning_of(graph.nodes(), label@) == Some(v@),
            None => meaning_of(graph.nodes(), label@) is None,
        },
{
    match graph.find_label(label) {
        Some(i) => {
            proof {
                crate::graph::label_found(graph.nodes(), label@, 0);
            }
            graph.entity_at(i).embedding.as_ref()
        },
        None => None,
    }
}

/// The meanings of what is near, but for wanderers.
pub fn near_meanings(graph: &SpaceGraph, near: &Vec<ObservedEntity>) -> (r: Vec<Vec<u32>>)
    requires
        graph.wf(),
    ensures
        vectors(r@) == near_pull(graph.nodes(), observed_views(near@)),
{
    let ghost views = observed_views(near@);
    let ghost nodes = graph.nodes();
    let mut r: Vec<Vec<u32>> = Vec::new();
    let mut i: usize = 0;
    proof {
        assert(vectors(r@) =~= near_pull(nodes, views.take(0)));
    }
    while i < near.len()
        invariant
            i <= near@.len(),
            graph.wf(),
            nodes == graph.nodes(),
            views == observed_views(near@),
            vectors(r@) == near_pull(nodes, views.take(i as int)),
        decreases near@.len() - i,
    {
        proof {
            assert(views.take(i + 1).drop_last() =~= views.take(i as int));
            assert(views.take(i + 1).last() == near@[i as int]@);
        }
        if !is_wandering(&near[i]) {
            if let Some(v) = find_meaning(graph, near[i].label.as_str()) {
                let ghost before = r@;
                r.push(copy_vector(v));
                proof {
                    assert(vectors(r@) =~= vectors(before).push(v@));
                }
            }
        }
        i = i + 1;
    }
    proof {
        assert(views.take(i as int) =~= views);
    }
    r
}

/// The meanings of what the currents lead to.
pub fn drift_meanings(graph: &SpaceGraph, drift: &Vec<DriftSignal>) -> (r: Vec<Vec<u32>>)
    requires
        graph.wf(),
    ensures
        vectors(r@) == drift_pull(graph.nodes(), drift_views(drift@)),
{
    let ghost views = drift_views(drift@);
    let ghost nodes = graph.nodes();
    let mut r: Vec<Vec<u32>> = Vec::new();
    let mut i: usize = 0;
    proof {
        assert(vectors(r@) =~= drift_pull(nodes, views.take(0)));
    }
    while i < drift.len()
        invariant
            i <= drift@.len(),
            graph.wf(),
            nodes == graph.nodes(),
            views == drift_views(drift@),
            vectors(r@) == drift_pull(nodes, views.take(i as int)),
        decreases drift@.len() - i,
    {
        proof {
            assert(views.take(i + 1).drop_last() =~= views.take(i as int));
            assert(views.take(i + 1).last() == drift@[i as int]@);
        }
        if let Some(v) = find_meaning(graph, drift[i].toward.as_str()) {
            let ghost before = r@;
            r.push(copy_vector(v));
            proof {
                assert(vectors(r@) =~= vectors(before).push(v@));
            }
        }
        i = i + 1;
    }
    proof {
        assert(views.take(i as int) =~= views);
    }
    r
}

/// Where someone in a field is heading: to where the strongest current leads.
pub open spec fn heading_of(drift: Seq<DriftView>) -> Option<Seq<char>> {
    if drift.len() > 0 {
        Some(drift[0].toward)
    } else {
        None
    }
}

/// Someone after one step through a field: pulled to `spatial_vec`, heading where the strongest
/// current leads, and where the field says.
pub open spec fn after_step(u: UserView, f: FieldView, spatial_vec: Seq<u32>) -> UserView {
    UserView { spatial_vec, moving_toward: heading_of(f.drift), position: f.position, ..u }
}

/// Lets someone take one step through a field.
pub fn step(presence: &mut Presence, id: u128, field: &FieldState, spatial_vec: Vec<u32>)
    requires
        old(presence).wf(),
    ensures
        final(presence).wf(),
        final(presence)@ == match user_at(old(presence)@, id) {
            Some(i) => old(presence)@.update(
                i,
                after_step(old(presence)@[i], field@, spatial_vec@),
            ),
            None => old(presence)@,
        },
{
    let heading: Option<String> = if field.drift.len() > 0 {
        Some(field.drift[0].toward.clone())
    } else {
        None
    };
    presence.follow(id, spatial_vec, heading, field.position.clone());
}

/// The identifiers of the wanderers in a list, each once, in the order of the list.
pub open spec fn wanderers(near: Seq<ObservedView>) -> Seq<u128>
    decreases near.len(),
{
    if near.len() == 0 {
        Seq::empty()
    } else {
        let front = wanderers(near.drop_last());
        if wandering(near.last()) && !front.contains(near.last().id) {
            front.push(near.last().id)
        } else {
            front
        }
    }
}

/// The first of those seen that has an identifier, from `i` on.
pub open spec fn seen_from(near: Seq<ObservedView>, id: u128, i: int) -> Option<ObservedView>
    decreases near.len() - i,
{
    if i < 0 || i >= near.len() {
        None
    } else if near[i].id == id {
        Some(near[i])
    } else {
        seen_from(near, id, i + 1)
    }
}

/// What is announced when someone comes near.
pub open spec fn encounter_event(o: ObservedView) -> EventView {
    EventView { kind: "encounter"@, label: o.label, detail: o.moving_toward }
}

/// What is announced of the wanderers `ids` in a field, where `before` were near already: every
/// one who has come near since.
pub open spec fn encounter_events(
    near: Seq<ObservedView>,
    ids: Seq<u128>,
    before: Seq<u128>,
) -> Seq<EventView>
    decreases ids.len(),
{
    if ids.len() == 0 {
        Seq::empty()
    } else {
        let front = encounter_events(near, ids.drop_last(), before);
        match seen_from(near, ids.last(), 0) {
            Some(o) if !before.contains(ids.last()) => front.push(encounter_event(o)),
            _ => front,
        }
    }
}

fn contains_id(ids: &Vec<u128>, id: u128) -> (r: bool)
    ensures
        r == ids@.contains(id),
{
    let mut i: usize = 0;
    while i < ids.len()
        invariant
            i <= ids@.len(),
            forall|j: int| 0 <= j < i ==> (#[trigger] ids@[j]) != id,
        decreases ids@.len() - i,
    {
        if ids[i] == id {
            return true;
        }
        i = i + 1;
    }
    false
}

/// The identifiers of the wanderers who are near.
pub fn near_wanderers(near: &Vec<ObservedEntity>) -> (r: Vec<u128>)
    ensures
        r@ == wanderers(observed_views(near@)),
{
    let ghost views = observed_views(near@);
    let mut r: Vec<u128> = Vec::new();
    let mut i: usize = 0;
    while i < near.len()
        invariant
            i <= near@.len(),
            views == observed_views(near@),
            r@ == wanderers(views.take(i as int)),
        decreases near@.len() - i,
    {
        proof {
            assert(views.take(i + 1).drop_last() =~= views.take(i as int));
            assert(views.take(i + 1).last() == near@[i as int]@);
        }
        if is_wandering(&near[i]) && !contains_id(&r, near[i].id) {
            r.push(near[i].id);
        }
        i = i + 1;
    }
    proof {
        assert(views.take(i as int) =~= views);
    }
    r
}

fn find_seen<'a>(near: &'a Vec<ObservedEntity>, id: u128) -> (r: Option<&'a ObservedEntity>)
    ensures
        match r {
            Some(o) => seen_from(observed_views(near@), id, 0) == Some(o@),
            None => seen_from(observed_views(near@), id, 0) is None,
        },
{
    let ghost views = observed_views(near@);
    let mut i: usize = 0;
    while i < near.len()
        invariant
            i <= near@.len(),
            views == observed_views(near@),
            seen_from(views, id, 0) == seen_from(views, id, i as int),
        decreases near@.len() - i,
    {
        assert(views[i as int] == near@[i as int]@);
        if near[i].id == id {
            return Some(&near[i]);
        }
        i = i + 1;
    }
    None
}

/// Announces every wanderer of `ids` who has come near, where `before` were near already.
pub fn detect_encounters(near: &Vec<ObservedEntity>, ids: &Vec<u128>, before: &Vec<u128>) -> (r:
    Vec<SpaceEvent>)
    ensures
        event_views(r@) == encounter_events(observed_views(near@), ids@, before@),
{
    let ghost views = observed_views(near@);
    let mut r: Vec<SpaceEvent> = Vec::new();
    let mut i: usize = 0;
    proof {
        assert(event_views(r@) =~= encounter_events(views, ids@.take(0), before@));
    }
    while i < ids.len()
        invariant
            i <= ids@.len(),
            views == observed_views(near@),
            event_views(r@) == encounter_events(views, ids@.take(i as int), before@),
        decreases ids@.len() - i,
    {
        proof {
            assert(ids@.take(i + 1).drop_last() =~= ids@.take(i as int));
        }
        if !contains_id(before, ids[i]) {
            if let Some(o) = find_seen(near, ids[i]) {
                let ghost was = r@;
                let e = SpaceEvent {
                    kind: "encounter".to_owned(),
                    label: o.label.clone(),
                    detail: copy_optional_text(&o.moving_toward),
                };
                let ghost seen = e@;
                r.push(e);
                proof {
                    assert(event_views(r@) =~= event_views(was).push(seen));
                }
            }
        }
        i = i + 1;
    }
    proof {
        assert(ids@.take(i as int) =~= ids@);
    }
    r
}

/// Nobody is announced who was near already: where all of `ids` were, nothing is announced.
pub proof fn encounters_are_announced_once(
    near: Seq<ObservedView>,
    ids: Seq<u128>,
    before: Seq<u128>,
)
    requires
        forall|i: int| 0 <= i < ids.len() ==> before.contains(#[trigger] ids[i]),
    ensures
        encounter_events(near, ids, before).len() == 0,
    decreases ids.len(),
{
    if ids.len() > 0 {
        assert forall|i: int| 0 <= i < ids.drop_last().len() implies before.contains(
            #[trigger] ids.drop_last()[i],
        ) by {
            assert(ids.drop_last()[i] == ids[i]);
        }
        encounters_are_announced_once(near, ids.drop_last(), before);
        assert(before.contains(ids[ids.len() - 1]));
    }
}

/// Every wanderer who is near is counted, and counted once.
pub proof fn wanderers_are_counted_once(near: Seq<ObservedView>)
    ensures
        wanderers(near).no_duplicates(),
        forall|i: int|
            0 <= i < near.len() && wandering(#[trigger] near[i]) ==> wanderers(near).contains(
                near[i].id,
            ),
        forall|id: u128| #[trigger]
            wanderers(near).contains(id) ==> exists|i: int|
                0 <= i < near.len() && wandering(#[trigger] near[i]) && near[i].id == id,
    decreases near.len(),
{
    if near.len() > 0 {
        let short = near.drop_last();
        wanderers_are_counted_once(short);
        let front = wanderers(short);
        let all = wanderers(near);
        assert forall|i: int| 0 <= i < near.len() && wandering(#[trigger] near[i]) implies
            all.contains(near[i].id) by {
            if i < short.len() {
                assert(near[i] == short[i]);
                let k = choose|k: int| 0 <= k < front.len() && front[k] == near[i].id;
                assert(all[k] == near[i].id);
            } else if !front.contains(near[i].id) {
                assert(all[front.len() as int] == near[i].id);
            }
        }
        assert forall|id: u128| #[trigger] all.contains(id) implies exists|i: int|
            0 <= i < near.len() && wandering(#[trigger] near[i]) && near[i].id == id by {
            let k = choose|k: int| 0 <= k < all.len() && all[k] == id;
            if k < front.len() {
                assert(front.contains(front[k]));
                let i = choose|i: int|
                    0 <= i < short.len() && wandering(#[trigger] short[i]) && short[i].id == id;
                assert(near[i] == short[i]);
            } else {
                assert(wandering(near[near.len() - 1]));
            }
        }
    }
}

/// Everyone who comes near is announced: a wanderer who is near and was not near before, with
/// the label and the heading under which they are first seen.
pub proof fn newcomers_are_announced(near: Seq<ObservedView>, before: Seq<u128>, i: int)
    requires
        0 <= i < near.len(),
        wandering(near[i]),
        !before.contains(near[i].id),
    ensures
        seen_from(near, near[i].id, 0) matches Some(o) && o.id == near[i].id && encounter_events(
            near,
            wanderers(near),
            before,
        ).contains(encounter_event(o)),
{
    let id = near[i].id;
    wanderers_are_counted_once(near);
    seen_from_finds(near, id, 0, i);
    let o = seen_from(near, id, 0)->0;
    let ids = wanderers(near);
    let k = choose|k: int| 0 <= k < ids.len() && ids[k] == id;
    announced_at(near, ids, before, k, o);
}

proof fn seen_from_finds(near: Seq<ObservedView>, id: u128, from: int, i: int)
    requires
        0 <= from <= i < near.len(),
        near[i].id == id,
    ensures
        seen_from(near, id, from) matches Some(o) && o.id == id,
    decreases i - from,
{
    if near[from].id != id {
        seen_from_finds(near, id, from + 1, i);
    }
}

proof fn announced_at(
    near: Seq<ObservedView>,
    ids: Seq<u128>,
    before: Seq<u128>,
    k: int,
    o: ObservedView,
)
    requires
        0 <= k < ids.len(),
        !before.contains(ids[k]),
        seen_from(near, ids[k], 0) == Some(o),
    ensures
        encounter_events(near, ids, before).contains(encounter_event(o)),
    decreases ids.len(),
{
    let front = encounter_events(near, ids.drop_last(), before);
    let all = encounter_events(near, ids, before);
    if k == ids.len() - 1 {
        assert(all[front.len() as int] == encounter_event(o));
    } else {
        announced_at(near, ids.drop_last(), before, k, o);
        let j = choose|j: int| 0 <= j < front.len() && front[j] == encounter_event(o);
        assert(all[j] == encounter_event(o));
    }
}

/// What goes out on a stream: something that happened, or the state of the field.
pub enum StreamItem {
    Space(SpaceEvent),
    Field(FieldState),
}

/// What goes out on a stream, as a mathematical value.
#[verifier::ext_equal]
pub enum StreamView {
    Space(EventView),
    Field(FieldView),
}

impl View for StreamItem {
    type V = StreamView;

    open spec fn view(&self) -> StreamView {
        match self {
            StreamItem::Space(e) => StreamView::Space(e@),
            StreamItem::Field(f) => StreamView::Field(f@),
        }
    }
}

/// What goes out on a stream, as mathematical values.
pub open spec fn item_views(v: Seq<StreamItem>) -> Seq<StreamView> {
    v.map_values(|x: StreamItem| x@)
}

/// Events as they go out on a stream.
pub open spec fn sent(events: Seq<EventView>) -> Seq<StreamView> {
    events.map_values(|e: EventView| StreamView::Space(e))
}

/// What goes out at one tick: the events that are pending, in their order; then an encounter for
/// everyone who has come near since `before` were; and last of all the field.
pub open spec fn tick_items(pending: Seq<EventView>, f: FieldView, before: Seq<u128>) -> Seq<
    StreamView,
> {
    sent(pending) + sent(encounter_events(f.near, wanderers(f.near), before)) + seq![
        StreamView::Field(f),
    ]
}

/// One tick of a stream: what goes out, and which wanderers are near now.
pub struct Tick {
    pub items: Vec<StreamItem>,
    pub near: Vec<u128>,
}

/// Puts one tick of a stream together, where `before` were near at the last one.
pub fn tick(pending: &Vec<SpaceEvent>, field: FieldState, before: &Vec<u128>) -> (r: Tick)
    ensures
        item_views(r.items@) == tick_items(event_views(pending@), field@, before@),
        r.near@ == wanderers(field@.near),
{
    let near: Vec<u128> = near_wanderers(&field.near);
    let met: Vec<SpaceEvent> = detect_encounters(&field.near, &near, before);
    let ghost f = field@;
    let mut items: Vec<StreamItem> = Vec::new();
    send_all(&mut items, pending);
    send_all(&mut items, &met);
    let ghost start = items@;
    items.push(StreamItem::Field(field));
    proof {
        assert(item_views(items@) =~= item_views(start).push(StreamView::Field(f)));
        assert(item_views(items@) =~= tick_items(event_views(pending@), f, before@));
    }
    Tick { items, near }
}

fn send_all(items: &mut Vec<StreamItem>, events: &Vec<SpaceEvent>)
    ensures
        item_views(final(items)@) == item_views(old(items)@) + sent(event_views(events@)),
{
    let ghost all = event_views(events@);
    let ghost start = item_views(items@);
    let mut i: usize = 0;
    proof {
        assert(start =~= start + sent(all.take(0)));
    }
    while i < events.len()
        invariant
            i <= events@.len(),
            all == event_views(events@),
            item_views(items@) == start + sent(all.take(i as int)),
        decreases events@.len() - i,
    {
        let ghost was = items@;
        items.push(StreamItem::Space(events[i].clone()));
        proof {
            let one = StreamView::Space(all[i as int]);
            assert(item_views(items@) =~= item_views(was).push(one));
            assert(sent(all.take(i + 1)) =~= sent(all.take(i as int)).push(one));
            assert(item_views(items@) =~= start + sent(all.take(i + 1)));
        }
        i = i + 1;
    }
    proof {
        assert(all.take(i as int) =~= all);
    }
}

/// Those of the wanderers `ids` who were not near before.
pub open spec fn newcomers(ids: Seq<u128>, before: Seq<u128>) -> Seq<u128>
    decreases ids.len(),
{
    if ids.len() == 0 {
        Seq::empty()
    } else if before.contains(ids.last()) {
        newcomers(ids.drop_last(), before)
    } else {
        newcomers(ids.drop_last(), before).push(ids.last())
    }
}

/// What is announced of someone who is near.
pub open spec fn announcement(near: Seq<ObservedView>, id: u128) -> EventView {
    encounter_event(seen_from(near, id, 0)->0)
}

proof fn newcomers_exactly(ids: Seq<u128>, before: Seq<u128>, id: u128)
    ensures
        newcomers(ids, before).contains(id) <==> ids.contains(id) && !before.contains(id),
    decreases ids.len(),
{
    if ids.len() > 0 {
        let front = ids.drop_last();
        newcomers_exactly(front, before, id);
        let short = newcomers(front, before);
        let all = newcomers(ids, before);
        if all.contains(id) {
            let k = choose|k: int| 0 <= k < all.len() && all[k] == id;
            if k < short.len() {
                assert(short[k] == id);
                let j = choose|j: int| 0 <= j < front.len() && front[j] == id;
                assert(ids[j] == id);
            } else {
                assert(ids[ids.len() - 1] == id);
            }
        }
        if ids.contains(id) && !before.contains(id) {
            let j = choose|j: int| 0 <= j < ids.len() && ids[j] == id;
            if j < front.len() {
                assert(front[j] == id);
                let k = choose|k: int| 0 <= k < short.len() && short[k] == id;
                assert(all[k] == id);
            } else {
                assert(all[short.len() as int] == id);
            }
        }
    }
}

proof fn newcomers_once(ids: Seq<u128>, before: Seq<u128>)
    requires
        ids.no_duplicates(),
    ensures
        newcomers(ids, before).no_duplicates(),
    decreases ids.len(),
{
    if ids.len() > 0 {
        let front = ids.drop_last();
        newcomers_once(front, before);
        newcomers_exactly(front, before, ids.last());
        assert(!front.contains(ids.last()));
    }
}

proof fn announced_in_order(near: Seq<ObservedView>, ids: Seq<u128>, before: Seq<u128>)
    requires
        forall|k: int| 0 <= k < ids.len() ==> seen_from(near, #[trigger] ids[k], 0) is Some,
    ensures
        encounter_events(near, ids, before) == newcomers(ids, before).map_values(
            |id: u128| announcement(near, id),
        ),
    decreases ids.len(),
{
    let f = |id: u128| announcement(near, id);
    if ids.len() > 0 {
        let front = ids.drop_last();
        assert forall|k: int| 0 <= k < front.len() implies seen_from(
            near,
            #[trigger] front[k],
            0,
        ) is Some by {
            assert(front[k] == ids[k]);
        }
        announced_in_order(near, front, before);
        assert(seen_from(near, ids[ids.len() - 1], 0) is Some);
        let short = newcomers(front, before);
        assert(short.push(ids.last()).map_values(f) =~= short.map_values(f).push(f(ids.last())));
    } else {
        assert(newcomers(ids, before).map_values(f) =~= Seq::<EventView>::empty());
    }
}

/// The wanderers who were near before the tick `k` of a stream whose fields are `fields`: nobody,
/// before the first.
pub open spec fn near_before(fields: Seq<FieldView>, k: int) -> Seq<u128> {
    if k <= 0 {
        Seq::empty()
    } else {
        wanderers(fields[k - 1].near)
    }
}

/// Every tick of a stream sends all events that are pending, in their order; then one encounter
/// for each wanderer who is near and was not near at the tick before, under the label and with
/// the heading of that wanderer, and none for anyone else; and last of all the field, once.
pub proof fn every_tick_tells_all(
    pending: Seq<Seq<EventView>>,
    fields: Seq<FieldView>,
    k: int,
    id: u128,
)
    requires
        0 <= k < fields.len(),
        pending.len() == fields.len(),
    ensures
        ({
            let near = fields[k].near;
            let before = near_before(fields, k);
            let items = tick_items(pending[k], fields[k], before);
            let new = newcomers(wanderers(near), before);
            let n = pending[k].len() as int;
            &&& items.len() == n + new.len() + 1
            &&& forall|i: int|
                0 <= i < n ==> #[trigger] items[i] == StreamView::Space(pending[k][i])
            &&& forall|i: int|
                n <= i < n + new.len() ==> #[trigger] items[i] == StreamView::Space(
                    announcement(near, new[i - n]),
                )
            &&& items[n + new.len()] == StreamView::Field(fields[k])
            &&& new.no_duplicates()
            &&& new.contains(id) <==> !before.contains(id) && exists|i: int|
                0 <= i < near.len() && wandering(#[trigger] near[i]) && near[i].id == id
            &&& new.contains(id) ==> (seen_from(near, id, 0) matches Some(o) && o.id == id)
        }),
{
    let near = fields[k].near;
    let before = near_before(fields, k);
    let ids = wanderers(near);
    wanderers_are_counted_once(near);
    assert forall|j: int| 0 <= j < ids.len() implies seen_from(near, #[trigger] ids[j], 0) is Some by {
        assert(ids.contains(ids[j]));
        let i = choose|i: int|
            0 <= i < near.len() && wandering(#[trigger] near[i]) && near[i].id == ids[j];
        seen_from_finds(near, ids[j], 0, i);
    }
    announced_in_order(near, ids, before);
    newcomers_once(ids, before);
    newcomers_exactly(ids, before, id);
    if ids.contains(id) {
        let i = choose|i: int|
            0 <= i < near.len() && wandering(#[trigger] near[i]) && near[i].id == id;
        seen_from_finds(near, id, 0, i);
    }
}

/// The vector at the origin: where someone starts who starts nowhere.
pub fn origin() -> (r: Vec<u32>)
    ensures
        r@ == Seq::new(DIMENSION as nat, |i: int| 0u32),
        r@.len() == 384,
{
    let mut r: Vec<u32> = Vec::new();
    while r.len() < DIMENSION
        invariant
            r@.len() <= DIMENSION,
            forall|i: int| 0 <= i < r@.len() ==> (#[trigger] r@[i]) == 0,
        decreases DIMENSION - r@.len(),
    {
        r.push(0);
    }
    proof {
        assert(r@ =~= Seq::new(DIMENSION as nat, |i: int| 0u32));
    }
    r
}

/// The meanings of all entities that have one.
pub open spec fn meanings(nodes: Seq<EntityView>) -> Seq<Seq<u32>>
    decreases nodes.len(),
{
    if nodes.len() == 0 {
        Seq::empty()
    } else {
        match nodes.last().embedding {
            Some(v) => meanings(nodes.drop_last()).push(v),
            None => meanings(nodes.drop_last()),
        }
    }
}

/// The meanings of all entities that have one: what the middle of the space is worked out from.
pub fn all_meanings(graph: &SpaceGraph) -> (r: Vec<Vec<u32>>)
    requires
        graph.wf(),
    ensures
        vectors(r@) == meanings(graph.nodes()),
{
    let ghost nodes = graph.nodes();
    let n: usize = graph.entity_count();
    let mut r: Vec<Vec<u32>> = Vec::new();
    let mut i: usize = 0;
    proof {
        assert(vectors(r@) =~= meanings(nodes.take(0)));
    }
    while i < n
        invariant
            i <= n,
            n == nodes.len(),
            graph.wf(),
            nodes == graph.nodes(),
            vectors(r@) == meanings(nodes.take(i as int)),
        decreases n - i,
    {
        proof {
            assert(nodes.take(i + 1).drop_last() =~= nodes.take(i as int));
            assert(nodes.take(i + 1).last() == nodes[i as int]);
        }
        if let Some(v) = &graph.entity_at(i).embedding {
            let ghost before = r@;
            r.push(copy_vector(v));
            proof {
                assert(vectors(r@) =~= vectors(before).push(v@));
            }
        }
        i = i + 1;
    }
    proof {
        assert(nodes.take(i as int) =~= nodes);
    }
    r
}

/// What has gathered at an entity fades back to what it means, where both are of one size.
pub open spec fn fades(e: EntityView) -> bool {
    match (e.activity_vec, e.embedding) {
        (Some(a), Some(m)) => a.len() == m.len(),
        _ => false,
    }
}

/// The indices of the entities whose gathered interests fade.
pub open spec fn fading(nodes: Seq<EntityView>) -> Seq<usize>
    decreases nodes.len(),
{
    if nodes.len() == 0 {
        Seq::empty()
    } else if fades(nodes.last()) {
        fading(nodes.drop_last()).push((nodes.len() - 1) as usize)
    } else {
        fading(nodes.drop_last())
    }
}

/// The indices of the entities whose gathered interests fade.
pub fn fading_entities(graph: &SpaceGraph) -> (r: Vec<usize>)
    requires
        graph.wf(),
    ensures
        r@ == fading(graph.nodes()),
        forall|k: int|
            0 <= k < r@.len() ==> (#[trigger] r@[k]) < graph.nodes().len() && fades(
                graph.nodes()[r@[k] as int],
            ),
{
    let ghost nodes = graph.nodes();
    let n: usize = graph.entity_count();
    let mut r: Vec<usize> = Vec::new();
    let mut i: usize = 0;
    while i < n
        invariant
            i <= n,
            n == nodes.len(),
            graph.wf(),
            nodes == graph.nodes(),
            r@ == fading(nodes.take(i as int)),
            forall|k: int|
                0 <= k < r@.len() ==> (#[trigger] r@[k]) < nodes.len() && fades(
                    nodes[r@[k] as int],
                ),
        decreases n - i,
    {
        proof {
            assert(nodes.take(i + 1).drop_last() =~= nodes.take(i as int));
            assert(nodes.take(i + 1).last() == nodes[i as int]);
        }
        let e = graph.entity_at(i);
        let same: bool = match (&e.activity_vec, &e.embedding) {
            (Some(a), Some(m)) => a.len() == m.len(),
            _ => false,
        };
        if same {
            r.push(i);
        }
        i = i + 1;
    }
    proof {
        assert(nodes.take(i as int) =~= nodes);
    }
    r
}

/// A label that begins with `wanderer_`.
pub open spec fn begins_as_wanderer(label: Seq<char>) -> bool {
    exists|rest: Seq<char>| #[trigger] ("wanderer_"@ + rest) == label
}

/// Whatever is seen under a label that begins with `wanderer_` is a wanderer, wherever it heads;
/// whatever heads somewhere is a wanderer, whatever its label; and nothing else is.
pub proof fn wanderers_are_nameless_or_heading(o: ObservedView)
    ensures
        begins_as_wanderer(o.label) ==> wandering(o),
        o.moving_toward is Some ==> wandering(o),
        !begins_as_wanderer(o.label) && o.moving_toward is None ==> !wandering(o),
{
    prefixes_begin(o.label, "wanderer_"@);
}

/// Someone without a name is seen as a wanderer by everyone, heading somewhere or not, under a
/// label that is told by the first eight characters of the identifier.
pub proof fn the_nameless_are_seen_to_wander(s: Scene, i: int)
    requires
        s.users[i].name.len() == 0,
    ensures
        wandering(user_seen(s, i).seen),
        user_seen(s, i).seen.label == "wanderer_"@ + hyphenated(s.users[i].id).take(8),
{
    let u = s.users[i];
    identifiers_have_one_length(u.id);
    let o = user_seen(s, i).seen;
    assert("wanderer_"@ + hyphenated(u.id).take(8) == o.label);
    wanderers_are_nameless_or_heading(o);
}

/// Whoever has a name is seen under that name.
pub proof fn the_named_are_seen_by_name(s: Scene, i: int)
    requires
        s.users[i].name.len() > 0,
    ensures
        user_seen(s, i).seen.label == s.users[i].name,
        user_seen(s, i).seen.moving_toward == s.users[i].moving_toward,
{
}

/// A meaning is that of the first entity that bears the label: there is none where that entity
/// has none, nor where no entity bears it.
pub proof fn meaning_is_of_the_first(nodes: Seq<EntityView>, label: Seq<char>)
    ensures
        (forall|j: int| 0 <= j < nodes.len() ==> (#[trigger] nodes[j]).label != label)
            ==> meaning_of(nodes, label) is None,
        forall|i: int|
            0 <= i < nodes.len() && (#[trigger] nodes[i]).label == label && (forall|j: int|
                0 <= j < i ==> (#[trigger] nodes[j]).label != label) ==> meaning_of(nodes, label)
                == nodes[i].embedding,
{
    crate::graph::label_found(nodes, label, 0);
}

proof fn near_pull_up_to(nodes: Seq<EntityView>, near: Seq<ObservedView>, n: nat)
    requires
        n <= near.len(),
    ensures
        near_pull(nodes, near.take(n as int)) == kept(
            n,
            |i: int|
                !begins_as_wanderer(near[i].label) && near[i].moving_toward is None && meaning_of(
                    nodes,
                    near[i].label,
                ) is Some,
            |i: int| meaning_of(nodes, near[i].label)->0,
        ),
    decreases n,
{
    let keep = |i: int|
        !begins_as_wanderer(near[i].label) && near[i].moving_toward is None && meaning_of(
            nodes,
            near[i].label,
        ) is Some;
    let f = |i: int| meaning_of(nodes, near[i].label)->0;
    kept_grows(n, keep, f);
    if n > 0 {
        near_pull_up_to(nodes, near, (n - 1) as nat);
        assert(near.take(n as int).drop_last() =~= near.take(n - 1));
        wanderers_are_nameless_or_heading(near[n - 1]);
    }
}

/// What is near pulls by its meaning, all of it that has one and in its order; only wanderers do
/// not pull.
pub proof fn all_but_wanderers_pull(nodes: Seq<EntityView>, near: Seq<ObservedView>)
    ensures
        near_pull(nodes, near) == kept(
            near.len(),
            |i: int|
                !begins_as_wanderer(near[i].label) && near[i].moving_toward is None && meaning_of(
                    nodes,
                    near[i].label,
                ) is Some,
            |i: int| meaning_of(nodes, near[i].label)->0,
        ),
{
    assert(near.take(near.len() as int) =~= near);
    near_pull_up_to(nodes, near, near.len());
}

proof fn drift_pull_up_to(nodes: Seq<EntityView>, drift: Seq<DriftView>, n: nat)
    requires
        n <= drift.len(),
    ensures
        drift_pull(nodes, drift.take(n as int)) == kept(
            n,
            |i: int| meaning_of(nodes, drift[i].toward) is Some,
            |i: int| meaning_of(nodes, drift[i].toward)->0,
        ),
    decreases n,
{
    let keep = |i: int| meaning_of(nodes, drift[i].toward) is Some;
    let f = |i: int| meaning_of(nodes, drift[i].toward)->0;
    kept_grows(n, keep, f);
    if n > 0 {
        drift_pull_up_to(nodes, drift, (n - 1) as nat);
        assert(drift.take(n as int).drop_last() =~= drift.take(n - 1));
    }
}

/// Every current pulls by the meaning of what it leads to, where that has one.
pub proof fn all_currents_pull(nodes: Seq<EntityView>, drift: Seq<DriftView>)
    ensures
        drift_pull(nodes, drift) == kept(
            drift.len(),
            |i: int| meaning_of(nodes, drift[i].toward) is Some,
            |i: int| meaning_of(nodes, drift[i].toward)->0,
        ),
{
    assert(drift.take(drift.len() as int) =~= drift);
    drift_pull_up_to(nodes, drift, drift.len());
}

/// A step takes someone to the place that pulls, heads where the first current leads or nowhere
/// where there is none, and changes nothing of who that is.
pub proof fn a_step_only_moves(u: UserView, f: FieldView, spatial_vec: Seq<u32>)
    ensures
        ({
            let v = after_step(u, f, spatial_vec);
            &&& v.spatial_vec == spatial_vec
            &&& v.position == f.position
            &&& f.drift.len() == 0 ==> v.moving_toward is None
            &&& f.drift.len() > 0 ==> v.moving_toward == Some(f.drift[0].toward)
            &&& v.id == u.id && v.name == u.name && v.interest_vec == u.interest_vec && v.last_seen
                == u.last_seen
        }),
{
}

/// Someone is announced as they are first seen: under that label and with that heading.
pub proof fn announced_as_first_seen(near: Seq<ObservedView>, id: u128, i: int)
    requires
        0 <= i < near.len(),
        near[i].id == id,
        forall|j: int| 0 <= j < i ==> (#[trigger] near[j]).id != id,
    ensures
        announcement(near, id) == (EventView {
            kind: "encounter"@,
            label: near[i].label,
            detail: near[i].moving_toward,
        }),
{
    first_seen(near, id, 0, i);
}

proof fn first_seen(near: Seq<ObservedView>, id: u128, from: int, i: int)
    requires
        0 <= from <= i < near.len(),
        near[i].id == id,
        forall|j: int| 0 <= j < i ==> (#[trigger] near[j]).id != id,
    ensures
        seen_from(near, id, from) == Some(near[i]),
    decreases i - from,
{
    if from < i {
        assert(near[from].id != id);
        first_seen(near, id, from + 1, i);
    }
}

/// Whoever is near under a label that begins with `wanderer_`, or heads somewhere, and was not
/// near before, is met at this tick: exactly one encounter goes out for them.
pub proof fn whoever_comes_near_is_met(
    pending: Seq<EventView>,
    f: FieldView,
    before: Seq<u128>,
    i: int,
)
    requires
        0 <= i < f.near.len(),
        begins_as_wanderer(f.near[i].label) || f.near[i].moving_toward is Some,
        !before.contains(f.near[i].id),
        forall|j: int| 0 <= j < i ==> (#[trigger] f.near[j]).id != f.near[i].id,
    ensures
        wanderers(f.near).contains(f.near[i].id),
        tick_items(pending, f, before).contains(
            StreamView::Space(
                EventView {
                    kind: "encounter"@,
                    label: f.near[i].label,
                    detail: f.near[i].moving_toward,
                },
            ),
        ),
{
    let near = f.near;
    wanderers_are_nameless_or_heading(near[i]);
    wanderers_are_counted_once(near);
    newcomers_are_announced(near, before, i);
    first_seen(near, near[i].id, 0, i);
    let events = encounter_events(near, wanderers(near), before);
    let e = encounter_event(near[i]);
    let k = choose|k: int| 0 <= k < events.len() && events[k] == e;
    let items = tick_items(pending, f, before);
    assert(items[pending.len() + k] == StreamView::Space(e));
}

proof fn meanings_up_to(nodes: Seq<EntityView>, n: nat)
    requires
        n <= nodes.len(),
    ensures
        meanings(nodes.take(n as int)) == kept(
            n,
            |i: int| nodes[i].embedding is Some,
            |i: int| nodes[i].embedding->0,
        ),
    decreases n,
{
    let keep = |i: int| nodes[i].embedding is Some;
    let f = |i: int| nodes[i].embedding->0;
    kept_grows(n, keep, f);
    if n > 0 {
        meanings_up_to(nodes, (n - 1) as nat);
        assert(nodes.take(n as int).drop_last() =~= nodes.take(n - 1));
    }
}

/// The middle of the space is worked out from every meaning that there is.
pub proof fn every_meaning_counts(nodes: Seq<EntityView>)
    ensures
        meanings(nodes) == kept(
            nodes.len(),
            |i: int| nodes[i].embedding is Some,
            |i: int| nodes[i].embedding->0,
        ),
{
    assert(nodes.take(nodes.len() as int) =~= nodes);
    meanings_up_to(nodes, nodes.len());
}

/// What has gathered at an entity can fade to what it means.
pub open spec fn can_fade(e: EntityView) -> bool {
    e.activity_vec is Some && e.embedding is Some && e.activity_vec->0.len() == e.embedding->0.len()
}

proof fn fading_up_to(nodes: Seq<EntityView>, n: nat)
    requires
        n <= nodes.len(),
    ensures
        fading(nodes.take(n as int)) == kept(
            n,
            |i: int| can_fade(nodes[i]),
            |i: int| i as usize,
        ),
    decreases n,
{
    let keep = |i: int| can_fade(nodes[i]);
    let f = |i: int| i as usize;
    kept_grows(n, keep, f);
    if n > 0 {
        fading_up_to(nodes, (n - 1) as nat);
        assert(nodes.take(n as int).drop_last() =~= nodes.take(n - 1));
    }
}

/// Wherever something has gathered that can fade, it fades: at every such entity, once.
pub proof fn all_that_can_fade_does(nodes: Seq<EntityView>)
    ensures
        fading(nodes) == kept(nodes.len(), |i: int| can_fade(nodes[i]), |i: int| i as usize),
{
    assert(nodes.take(nodes.len() as int) =~= nodes);
    fading_up_to(nodes, nodes.len());
}

} // verus!
