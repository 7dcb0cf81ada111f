//! The state of the field: what someone in the space can see, sense and feel.
use crate::activity::{count_of, largest, Activity};
use crate::distance::{
    compute_distance, degree_component, degree_dist, distance_of, rank_in_range, rank_of,
    sorted_distances, thresholds_of, visibility_at, visits_component, visits_dist,
    DistanceWeights, DynamicThresholds, Visibility, EMPTY_HORIZON, EMPTY_NEAR,
};
use crate::fixed::{clamp, clamped, NEUTRAL, UNIT};
use crate::graph::{
    copy_optional_vector, copy_vector, degree, vector_view, EntityView, Relation, SpaceGraph,
};
use crate::identity::{
    all_meetings_are_counted, meetings, vectors, EncounterView, Identity, IdentityView,
};
use crate::ids::{fresh_id, hyphenated, id_text, is_random};
use crate::order::{
    ascending, kept, kept_grows, picked, picked_is_sorted, stable_order, stable_sort,
    stable_sort_ascending, stable_sort_from, stable_sort_keeps_ties, stable_sort_permutes,
};
use crate::presence::{
    user_at, user_found, with_user, Presence, UserPresence, UserView,
};
use crate::stamp::{now, Timestamp};
use crate::store::{copy_messages, message_views, MessageRecord, MessageView};
use crate::text::{
    copy_optional_text, first_chars, has_prefix, joined, optional_text, prefixes_begin,
    starts_with, take_chars, texts,
};
use crate::wander::begins_as_wanderer;
use vstd::multiset::Multiset;
use vstd::prelude::*;

verus! {

/// The share of entities that are near, where nothing else is asked for.
pub const DEFAULT_NEAR: i64 = 300_000_000_000;

/// The share of entities that are in sight, where nothing else is asked for.
pub const DEFAULT_HORIZON: i64 = 700_000_000_000;

/// The number of currents that are felt at once.
pub const DRIFT_LIMIT: usize = 3;

/// How many messages are heard at each entity that is near.
pub const VOICES_PER_LABEL: usize = 3;

/// A current: where the space flows to, and how strongly.
#[derive(Debug)]
pub struct DriftSignal {
    pub toward: String,
    pub strength: i64,
}

/// A current, as a mathematical value.
#[verifier::ext_equal]
pub struct DriftView {
    pub toward: Seq<char>,
    pub strength: i64,
}

impl View for DriftSignal {
    type V = DriftView;

    open spec fn view(&self) -> DriftView {
        DriftView { toward: self.toward@, strength: self.strength }
    }
}

impl Clone for DriftSignal {
    fn clone(&self) -> (r: Self)
        ensures
            r@ == self@,
    {
        DriftSignal { toward: self.toward.clone(), strength: self.strength }
    }
}

/// The currents of a list, as mathematical values.
pub open spec fn drift_views(v: Seq<DriftSignal>) -> Seq<DriftView> {
    v.map_values(|d: DriftSignal| d@)
}

/// An entity or a wanderer, as it is seen from one place.
#[derive(Debug)]
pub struct ObservedEntity {
    pub id: u128,
    pub label: String,
    pub distance: i64,
    pub visibility: Visibility,
    /// What the distance is made of: semantic, relational, activity, temporal, attention.
    pub components: Option<[i64; 5]>,
    /// Where a wanderer is drifting to.
    pub moving_toward: Option<String>,
}

/// What is seen, as a mathematical value.
#[verifier::ext_equal]
pub struct ObservedView {
    pub id: u128,
    pub label: Seq<char>,
    pub distance: i64,
    pub visibility: Visibility,
    pub components: Option<Seq<i64>>,
    pub moving_toward: Option<Seq<char>>,
}

/// Components that may be missing.
pub open spec fn components_view(c: Option<[i64; 5]>) -> Option<Seq<i64>> {
    match c {
        Some(a) => Some(a@),
        None => None,
    }
}

impl View for ObservedEntity {
    type V = ObservedView;

    open spec fn view(&self) -> ObservedView {
        ObservedView {
            id: self.id,
            label: self.label@,
            distance: self.distance,
            visibility: self.visibility,
            components: components_view(self.components),
            moving_toward: optional_text(self.moving_toward),
        }
    }
}

impl Clone for ObservedEntity {
    fn clone(&self) -> (r: Self)
        ensures
            r@ == self@,
    {
        ObservedEntity {
            id: self.id,
            label: self.label.clone(),
            distance: self.distance,
            visibility: self.visibility,
            components: self.components,
            moving_toward: copy_optional_text(&self.moving_toward),
        }
    }
}

impl Default for ObservedEntity {
    fn default() -> (r: Self)
        ensures
            r@ == (ObservedView {
                id: r.id,
                label: Seq::empty(),
                distance: UNIT,
                visibility: Visibility::Beyond,
                components: None,
                moving_toward: None,
            }),
            is_random(r.id),
    {
        ObservedEntity {
            id: fresh_id(),
            label: String::new(),
            distance: UNIT,
            visibility: Visibility::Beyond,
            components: None,
            moving_toward: None,
        }
    }
}

/// What is seen, as mathematical values.
pub open spec fn observed_views(v: Seq<ObservedEntity>) -> Seq<ObservedView> {
    v.map_values(|o: ObservedEntity| o@)
}

/// The state of the field around someone.
#[derive(Debug)]
pub struct FieldState {
    /// Where one is: not coordinates, but a context.
    pub position: String,
    pub density: i64,
    /// How many presences there are in sight.
    pub presence: usize,
    pub near: Vec<ObservedEntity>,
    pub horizon: Vec<ObservedEntity>,
    pub drift: Vec<DriftSignal>,
    pub timestamp: Timestamp,
    /// Where near ends, and where the horizon ends.
    pub thresholds: [i64; 2],
    /// What was last said to those who are near.
    pub messages: Vec<MessageRecord>,
}

/// The state of the field, as a mathematical value.
#[verifier::ext_equal]
pub struct FieldView {
    pub position: Seq<char>,
    pub density: i64,
    pub presence: usize,
    pub near: Seq<ObservedView>,
    pub horizon: Seq<ObservedView>,
    pub drift: Seq<DriftView>,
    pub timestamp: Timestamp,
    pub thresholds: Seq<i64>,
    pub messages: Seq<MessageView>,
}

impl View for FieldState {
    type V = FieldView;

    open spec fn view(&self) -> FieldView {
        FieldView {
            position: self.position@,
            density: self.density,
            presence: self.presence,
            near: observed_views(self.near@),
            horizon: observed_views(self.horizon@),
            drift: drift_views(self.drift@),
            timestamp: self.timestamp,
            thresholds: self.thresholds@,
            messages: message_views(self.messages@),
        }
    }
}

/// A copy of what is seen.
fn copy_observed(v: &Vec<ObservedEntity>) -> (r: Vec<ObservedEntity>)
    ensures
        observed_views(r@) == observed_views(v@),
{
    let mut r: Vec<ObservedEntity> = Vec::new();
    let mut i: usize = 0;
    while i < v.len()
        invariant
            i <= v@.len(),
            r@.len() == i,
            forall|j: int| 0 <= j < i ==> (#[trigger] r@[j])@ == v@[j]@,
        decreases v@.len() - i,
    {
        r.push(v[i].clone());
        i = i + 1;
    }
    proof {
        assert(observed_views(r@) =~= observed_views(v@));
    }
    r
}

/// A copy of a list of currents.
fn copy_drift(v: &Vec<DriftSignal>) -> (r: Vec<DriftSignal>)
    ensures
        drift_views(r@) == drift_views(v@),
{
    let mut r: Vec<DriftSignal> = Vec::new();
    let mut i: usize = 0;
    while i < v.len()
        invariant
            i <= v@.len(),
            r@.len() == i,
            forall|j: int| 0 <= j < i ==> (#[trigger] r@[j])@ == v@[j]@,
        decreases v@.len() - i,
    {
        r.push(v[i].clone());
        i = i + 1;
    }
    proof {
        assert(drift_views(r@) =~= drift_views(v@));
    }
    r
}

impl Clone for FieldState {
    fn clone(&self) -> (r: Self)
        ensures
            r@ == self@,
    {
        FieldState {
            position: self.position.clone(),
            density: self.density,
            presence: self.presence,
            near: copy_observed(&self.near),
            horizon: copy_observed(&self.horizon),
            drift: copy_drift(&self.drift),
            timestamp: self.timestamp,
            thresholds: self.thresholds,
            messages: copy_messages(&self.messages),
        }
    }
}

/// A field with nothing in it.
pub open spec fn empty_field(position: Seq<char>, at: Timestamp) -> FieldView {
    FieldView {
        position,
        density: 0,
        presence: 0,
        near: Seq::empty(),
        horizon: Seq::empty(),
        drift: Seq::empty(),
        timestamp: at,
        thresholds: seq![EMPTY_NEAR, EMPTY_HORIZON],
        messages: Seq::empty(),
    }
}

/// How dense a field is: what is near counts in full and what is on the horizon to four tenths,
/// against all of it and ten more.
pub open spec fn density_of(near: nat, horizon: nat) -> int {
    clamped((10 * near + 4 * horizon) * UNIT as int / (10 * (near + horizon + 10) as int))
}

impl FieldState {
    /// A field with nothing in it, now.
    pub fn new(position: &str) -> (r: FieldState)
        ensures
            r@ == empty_field(position@, r.timestamp),
            r.timestamp.plain(),
    {
        FieldState::new_at(position, now())
    }

    /// A field with nothing in it, at the given time.
    pub fn new_at(position: &str, at: Timestamp) -> (r: FieldState)
        ensures
            r@ == empty_field(position@, at),
    {
        let r = FieldState {
            position: position.to_owned(),
            density: 0,
            presence: 0,
            near: Vec::new(),
            horizon: Vec::new(),
            drift: Vec::new(),
            timestamp: at,
            thresholds: [EMPTY_NEAR, EMPTY_HORIZON],
            messages: Vec::new(),
        };
        proof {
            assert(r@ =~= empty_field(position@, at));
        }
        r
    }

    /// Works out how dense the field is.
    pub fn compute_density(&mut self)
        ensures
            final(self)@ == (FieldView {
                density: density_of(old(self)@.near.len(), old(self)@.horizon.len()) as i64,
                ..old(self)@
            }),
            0 <= final(self).density <= UNIT,
    {
        self.density = density(self.near.len(), self.horizon.len());
    }
}

fn density(near: usize, horizon: usize) -> (r: i64)
    ensures
        r == density_of(near as nat, horizon as nat),
        0 <= r <= UNIT,
{
    let n: i128 = near as i128;
    let h: i128 = horizon as i128;
    let weight: i128 = 10 * n + 4 * h;
    proof {
        assert(0 <= weight * UNIT <= 14 * 0xffff_ffff_ffff_ffff * 1_000_000_000_000)
            by (nonlinear_arith)
            requires
                0 <= weight <= 14 * 0xffff_ffff_ffff_ffff,
                UNIT == 1_000_000_000_000,
        ;
    }
    clamp(weight * UNIT as i128 / (10 * (n + h + 10)))
}

/// The denser of two fields of the same size is the one with more near: moving something from
/// the horizon to near never makes a field less dense.
pub proof fn coming_near_adds_density(near: nat, horizon: nat)
    requires
        horizon > 0,
    ensures
        density_of(near, horizon) <= density_of(near + 1, (horizon - 1) as nat),
{
    let d = 10 * (near + horizon + 10);
    let a = (10 * near + 4 * horizon) * UNIT as int;
    let b = (10 * (near + 1) + 4 * (horizon - 1)) * UNIT as int;
    assert(a <= b) by (nonlinear_arith)
        requires
            a == (10 * near + 4 * horizon) * UNIT as int,
            b == (10 * (near + 1) + 4 * (horizon - 1)) * UNIT as int,
            UNIT == 1_000_000_000_000,
    ;
    vstd::arithmetic::div_mod::lemma_div_is_ordered(a, b, d as int);
}

/// What was measured between the viewer and an entity. What lies outside zero and one counts as
/// the nearer of the two.
#[derive(Clone, Copy, Debug, PartialEq, Eq, Structural)]
pub struct Reading {
    /// How far the entity's meaning is. It counts only where the entity has a meaning.
    pub semantic: i64,
    /// How long ago the entity was active.
    pub temporal: i64,
}

/// What was measured between the viewer and another wanderer. What lies outside zero and one
/// counts as the nearer of the two.
#[derive(Clone, Copy, Debug, PartialEq, Eq, Structural)]
pub struct UserReading {
    pub semantic: i64,
    pub attention: i64,
}

/// All that a field is worked out from.
pub struct Surroundings<'a> {
    pub graph: &'a SpaceGraph,
    /// One reading for each entity.
    pub readings: &'a Vec<Reading>,
    pub presence: &'a Presence,
    /// One reading for each user.
    pub user_readings: &'a Vec<UserReading>,
    pub activity: &'a Activity,
    /// Who looks, where that is known.
    pub viewer: Option<u128>,
    pub identity: Option<&'a Identity>,
    pub weights: DistanceWeights,
    pub at: Timestamp,
}

/// All that a field is worked out from, as a mathematical value.
#[verifier::ext_equal]
pub struct Scene {
    pub nodes: Seq<EntityView>,
    pub edges: Multiset<(usize, usize, Relation)>,
    pub readings: Seq<Reading>,
    pub users: Seq<UserView>,
    pub user_readings: Seq<UserReading>,
    pub activity: Map<Seq<char>, u32>,
    pub viewer: Option<u128>,
    pub identity: Option<IdentityView>,
    pub weights: DistanceWeights,
    pub at: Timestamp,
}

impl<'a> View for Surroundings<'a> {
    type V = Scene;

    open spec fn view(&self) -> Scene {
        Scene {
            nodes: self.graph.nodes(),
            edges: self.graph.edges(),
            readings: self.readings@,
            users: self.presence@,
            user_readings: self.user_readings@,
            activity: self.activity@,
            viewer: self.viewer,
            identity: match self.identity {
                Some(i) => Some(i@),
                None => None,
            },
            weights: self.weights,
            at: self.at,
        }
    }
}

impl<'a> Surroundings<'a> {
    /// Everything was measured.
    pub open spec fn wf(self) -> bool {
        &&& self.graph.wf()
        &&& self.activity.wf()
        &&& self.readings@.len() == self.graph.nodes().len()
        &&& self.user_readings@.len() == self.presence@.len()
    }
}

/// Something that was seen, with its vector.
struct Scored {
    seen: ObservedEntity,
    embedding: Option<Vec<u32>>,
}

/// Something that was seen, with its vector, as a mathematical value.
#[verifier::ext_equal]
pub struct ScoredView {
    pub seen: ObservedView,
    pub embedding: Option<Seq<u32>>,
}

impl View for Scored {
    type V = ScoredView;

    closed spec fn view(&self) -> ScoredView {
        ScoredView { seen: self.seen@, embedding: vector_view(self.embedding) }
    }
}

spec fn scored_views(v: Seq<Scored>) -> Seq<ScoredView> {
    v.map_values(|s: Scored| s@)
}

/// An entity that has no end, or whose end is still to come.
pub open spec fn alive(e: EntityView, at: Timestamp) -> bool {
    match e.expires_at {
        Some(t) => at.precedes(t),
        None => true,
    }
}

/// The component that `n` encounters make: nothing is known of an entity without any, and the
/// more of them, the nearer it is.
pub open spec fn encounters_component(n: nat) -> int {
    if n == 0 {
        NEUTRAL as int
    } else {
        UNIT as int / (1 + n as int)
    }
}

/// The component that the viewer's own encounters make.
pub open spec fn attention_component(identity: Option<IdentityView>, label: Seq<char>) -> int {
    match identity {
        Some(i) => encounters_component(meetings(i.history, label)),
        None => NEUTRAL as int,
    }
}

/// More encounters never drive an entity away, and none is as far as nothing known.
pub proof fn encounters_bring_closer(n: nat, m: nat)
    requires
        n <= m,
    ensures
        0 <= encounters_component(m) <= encounters_component(n) <= NEUTRAL,
{
    if m > 0 {
        vstd::arithmetic::div_mod::lemma_div_is_ordered_by_denominator(
            UNIT as int,
            2,
            1 + m as int,
        );
        vstd::arithmetic::div_mod::lemma_div_pos_is_pos(UNIT as int, 1 + m as int);
    }
    if n > 0 {
        vstd::arithmetic::div_mod::lemma_div_is_ordered_by_denominator(
            UNIT as int,
            2,
            1 + n as int,
        );
        vstd::arithmetic::div_mod::lemma_div_is_ordered_by_denominator(
            UNIT as int,
            1 + n as int,
            1 + m as int,
        );
    }
}

/// Something seen at the distance that its components make.
pub open spec fn seen_at(
    id: u128,
    label: Seq<char>,
    c: Seq<int>,
    moving_toward: Option<Seq<char>>,
    w: DistanceWeights,
) -> ObservedView {
    ObservedView {
        id,
        label,
        distance: distance_of(c[0], c[1], c[2], c[3], c[4], w) as i64,
        visibility: Visibility::Beyond,
        components: Some(c.map_values(|x: int| x as i64)),
        moving_toward,
    }
}

/// The entity at an index, as it is seen.
pub open spec fn entity_seen(s: Scene, i: int) -> ScoredView {
    let e = s.nodes[i];
    ScoredView {
        seen: seen_at(
            e.id,
            e.label,
            seq![
                if e.embedding is Some {
                    clamped(s.readings[i].semantic as int)
                } else {
                    NEUTRAL as int
                },
                degree_component(degree(s.edges, i as usize)),
                visits_component(count_of(s.activity, e.label), largest(s.activity)),
                clamped(s.readings[i].temporal as int),
                attention_component(s.identity, e.label),
            ],
            None,
            s.weights,
        ),
        embedding: e.embedding,
    }
}

/// What a wanderer is called: by name, or by the beginning of the identifier.
pub open spec fn user_label(u: UserView) -> Seq<char> {
    if u.name.len() > 0 {
        u.name
    } else {
        "wanderer_"@ + first_chars(hyphenated(u.id), 8)
    }
}

/// The user at an index, as that user is seen: right here, and otherwise unknown.
pub open spec fn user_seen(s: Scene, i: int) -> ScoredView {
    let u = s.users[i];
    ScoredView {
        seen: seen_at(
            u.id,
            user_label(u),
            seq![
                clamped(s.user_readings[i].semantic as int),
                NEUTRAL as int,
                NEUTRAL as int,
                0int,
                clamped(s.user_readings[i].attention as int),
            ],
            u.moving_toward,
            s.weights,
        ),
        embedding: Some(u.interest_vec),
    }
}

/// What is seen is made of five parts, each between zero and one.
pub open spec fn normalised(o: ObservedView) -> bool {
    o.components matches Some(c) && c.len() == 5 && forall|k: int|
        0 <= k < 5 ==> 0 <= #[trigger] c[k] <= UNIT
}

/// Whatever was measured, all that an entity's distance is made of lies between zero and one.
pub proof fn entity_parts_are_normalised(s: Scene, i: int)
    ensures
        normalised(entity_seen(s, i).seen),
{
    let e = s.nodes[i];
    let n = match s.identity {
        Some(who) => meetings(who.history, e.label),
        None => 0,
    };
    encounters_bring_closer(n, n);
    let count = count_of(s.activity, e.label);
    let most = largest(s.activity);
    assert(0 <= count * UNIT as int / (most as int + 1)) by (nonlinear_arith)
        requires
            0 <= count,
            0 <= most,
            UNIT == 1_000_000_000_000,
    ;
}

/// Whatever was measured, all that a wanderer's distance is made of lies between zero and one.
pub proof fn user_parts_are_normalised(s: Scene, i: int)
    ensures
        normalised(user_seen(s, i).seen),
{
}

/// The first `n` entities that are still there, as they are seen.
pub open spec fn entities_seen(s: Scene, n: nat) -> Seq<ScoredView>
    decreases n,
{
    if n == 0 {
        Seq::empty()
    } else if alive(s.nodes[n - 1], s.at) {
        entities_seen(s, (n - 1) as nat).push(entity_seen(s, n - 1))
    } else {
        entities_seen(s, (n - 1) as nat)
    }
}

/// The first `n` users other than the viewer, as they are seen.
pub open spec fn users_seen(s: Scene, n: nat) -> Seq<ScoredView>
    decreases n,
{
    if n == 0 {
        Seq::empty()
    } else if s.viewer != Some(s.users[n - 1].id) {
        users_seen(s, (n - 1) as nat).push(user_seen(s, n - 1))
    } else {
        users_seen(s, (n - 1) as nat)
    }
}

/// All that is there, as it is seen: entities first, then wanderers.
pub open spec fn all_seen(s: Scene) -> Seq<ScoredView> {
    entities_seen(s, s.nodes.len()) + users_seen(s, s.users.len())
}

/// The distances of what is seen.
pub open spec fn distances_of(seen: Seq<ScoredView>) -> Seq<i64> {
    seen.map_values(|x: ScoredView| x.seen.distance)
}

/// Those of what is seen that are in sight in the given way.
pub open spec fn sighted(
    seen: Seq<ScoredView>,
    t: DynamicThresholds,
    v: Visibility,
) -> Seq<ObservedView>
    decreases seen.len(),
{
    if seen.len() == 0 {
        Seq::empty()
    } else if visibility_at(t, seen.last().seen.distance as int) == v {
        sighted(seen.drop_last(), t, v).push(ObservedView { visibility: v, ..seen.last().seen })
    } else {
        sighted(seen.drop_last(), t, v)
    }
}

/// The vectors of what is near.
pub open spec fn near_vectors(seen: Seq<ScoredView>, t: DynamicThresholds) -> Seq<Seq<u32>>
    decreases seen.len(),
{
    if seen.len() == 0 {
        Seq::empty()
    } else {
        let front = near_vectors(seen.drop_last(), t);
        match seen.last().embedding {
            Some(v) if visibility_at(t, seen.last().seen.distance as int) == Visibility::Near =>
                front.push(v),
            _ => front,
        }
    }
}

/// What is seen, from the nearest to the farthest.
pub open spec fn nearest_first(seen: Seq<ObservedView>) -> Seq<ObservedView> {
    stable_sort(seen, |o: ObservedView| o.distance as int)
}

/// Where one is, by what is near: the plaza, where nothing is.
pub open spec fn place_of(near: Seq<ObservedView>) -> Seq<char> {
    if near.len() == 0 {
        "plaza"@
    } else if near.len() == 1 {
        near[0].label
    } else {
        near[0].label + ", "@ + near[1].label
    }
}

/// What on the horizon has been met at all, and how often.
pub open spec fn attractors(
    horizon: Seq<ObservedView>,
    activity: Map<Seq<char>, u32>,
) -> Seq<(Seq<char>, nat)>
    decreases horizon.len(),
{
    if horizon.len() == 0 {
        Seq::empty()
    } else {
        let front = attractors(horizon.drop_last(), activity);
        let label = horizon.last().label;
        if count_of(activity, label) > 0 {
            front.push((label, count_of(activity, label)))
        } else {
            front
        }
    }
}

/// The attractors, the most met ones first.
pub open spec fn strongest_first(all: Seq<(Seq<char>, nat)>) -> Seq<(Seq<char>, nat)> {
    stable_sort(all, |x: (Seq<char>, nat)| -(x.1 as int))
}

/// The currents that the horizon makes: towards what has been met most, and as strong as it has
/// been met against the most met one.
pub open spec fn drift_of(
    horizon: Seq<ObservedView>,
    activity: Map<Seq<char>, u32>,
) -> Seq<DriftView> {
    let all = strongest_first(attractors(horizon, activity));
    let n = if all.len() > DRIFT_LIMIT {
        DRIFT_LIMIT as nat
    } else {
        all.len()
    };
    Seq::new(
        n,
        |i: int|
            DriftView {
                toward: all[i].0,
                strength: clamped(all[i].1 * UNIT as int / all[0].1 as int) as i64,
            },
    )
}

/// The state of the field, but for what is said in it.
pub open spec fn field_of(s: Scene, near_pct: int, horizon_pct: int) -> FieldView {
    let seen = all_seen(s);
    let t = thresholds_of(distances_of(seen), near_pct, horizon_pct);
    let near = nearest_first(sighted(seen, t, Visibility::Near));
    let horizon = nearest_first(sighted(seen, t, Visibility::Horizon));
    FieldView {
        position: place_of(near),
        density: density_of(near.len(), horizon.len()) as i64,
        presence: (near.len() + horizon.len()) as usize,
        near,
        horizon,
        drift: drift_of(horizon, s.activity),
        timestamp: s.at,
        thresholds: seq![t.near, t.horizon],
        messages: Seq::empty(),
    }
}

/// The vectors of what is near in a field.
pub open spec fn field_vectors(s: Scene, near_pct: int, horizon_pct: int) -> Seq<Seq<u32>> {
    let seen = all_seen(s);
    near_vectors(seen, thresholds_of(distances_of(seen), near_pct, horizon_pct))
}

/// Nobody is among the wanderers that they see.
pub proof fn viewer_is_not_seen(s: Scene, n: nat, i: int)
    requires
        n <= s.users.len(),
        0 <= i < users_seen(s, n).len(),
    ensures
        s.viewer != Some(users_seen(s, n)[i].seen.id),
    decreases n,
{
    let front = users_seen(s, (n - 1) as nat);
    if i < front.len() {
        viewer_is_not_seen(s, (n - 1) as nat, i);
    }
}

/// Whatever entity is seen is there and still alive.
pub proof fn only_the_living_are_seen(s: Scene, n: nat, i: int)
    requires
        n <= s.nodes.len(),
        0 <= i < entities_seen(s, n).len(),
    ensures
        exists|j: int|
            0 <= j < n && alive(s.nodes[j], s.at) && entities_seen(s, n)[i]
                == #[trigger] entity_seen(s, j),
    decreases n,
{
    let front = entities_seen(s, (n - 1) as nat);
    if i < front.len() {
        only_the_living_are_seen(s, (n - 1) as nat, i);
        let j = choose|j: int|
            0 <= j < n - 1 && alive(s.nodes[j], s.at) && front[i] == #[trigger] entity_seen(s, j);
        assert(entities_seen(s, n)[i] == entity_seen(s, j));
    } else {
        assert(entities_seen(s, n)[i] == entity_seen(s, n - 1));
    }
}

/// Every entity that is there and still alive is seen.
pub proof fn all_the_living_are_seen(s: Scene, n: nat, j: int)
    requires
        0 <= j < n <= s.nodes.len(),
        alive(s.nodes[j], s.at),
    ensures
        entities_seen(s, n).contains(entity_seen(s, j)),
    decreases n,
{
    let front = entities_seen(s, (n - 1) as nat);
    let all = entities_seen(s, n);
    if j == n - 1 {
        assert(all[front.len() as int] == entity_seen(s, j));
    } else {
        all_the_living_are_seen(s, (n - 1) as nat, j);
        let i = choose|i: int| 0 <= i < front.len() && front[i] == entity_seen(s, j);
        assert(all[i] == entity_seen(s, j));
    }
}

/// Everyone else in the space is seen.
pub proof fn all_others_are_seen(s: Scene, n: nat, j: int)
    requires
        0 <= j < n <= s.users.len(),
        s.viewer != Some(s.users[j].id),
    ensures
        users_seen(s, n).contains(user_seen(s, j)),
    decreases n,
{
    let front = users_seen(s, (n - 1) as nat);
    let all = users_seen(s, n);
    if j == n - 1 {
        assert(all[front.len() as int] == user_seen(s, j));
    } else {
        all_others_are_seen(s, (n - 1) as nat, j);
        let i = choose|i: int| 0 <= i < front.len() && front[i] == user_seen(s, j);
        assert(all[i] == user_seen(s, j));
    }
}

/// Whoever is connected shows up in the fields of others, and in the own field never.
pub proof fn the_connected_show_to_others(s: Scene, users: Seq<UserView>, u: UserView)
    requires
        s.users == with_user(users, u),
    ensures
        s.viewer == Some(u.id) ==> forall|i: int|
            0 <= i < users_seen(s, s.users.len()).len() ==> (#[trigger] users_seen(
                s,
                s.users.len(),
            )[i]).seen.id != u.id,
        s.viewer != Some(u.id) ==> exists|j: int|
            0 <= j < s.users.len() && s.users[j] == u && all_seen(s).contains(
                #[trigger] user_seen(s, j),
            ),
{
    let n = s.users.len();
    user_found(users, u.id, 0);
    let j = match user_at(users, u.id) {
        Some(i) => i,
        None => users.len() as int,
    };
    assert(s.users[j] == u);
    if s.viewer == Some(u.id) {
        assert forall|i: int| 0 <= i < users_seen(s, n).len() implies (#[trigger] users_seen(
            s,
            n,
        )[i]).seen.id != u.id by {
            viewer_is_not_seen(s, n, i);
        }
    } else {
        all_others_are_seen(s, n, j);
        let seen = users_seen(s, n);
        let k = choose|k: int| 0 <= k < seen.len() && seen[k] == user_seen(s, j);
        let front = entities_seen(s, s.nodes.len());
        assert(all_seen(s)[front.len() + k] == user_seen(s, j));
    }
}

/// What is seen at some distance is sighted in the way that goes with it.
proof fn seen_is_sighted(seen: Seq<ScoredView>, t: DynamicThresholds, v: Visibility, k: int)
    requires
        0 <= k < seen.len(),
        visibility_at(t, seen[k].seen.distance as int) == v,
    ensures
        sighted(seen, t, v).len() > 0,
        sighted(seen, t, v).contains(ObservedView { visibility: v, ..seen[k].seen }),
    decreases seen.len(),
{
    let o = ObservedView { visibility: v, ..seen[k].seen };
    let front = sighted(seen.drop_last(), t, v);
    let all = sighted(seen, t, v);
    if k == seen.len() - 1 {
        assert(all[front.len() as int] == o);
    } else {
        assert(seen.drop_last()[k] == seen[k]);
        seen_is_sighted(seen.drop_last(), t, v, k);
        let i = choose|i: int| 0 <= i < front.len() && front[i] == o;
        assert(all[i] == o);
    }
}

/// Whatever is seen and not beyond is in the field: near, or on the horizon.
pub proof fn nothing_in_sight_is_lost(s: Scene, near_pct: int, horizon_pct: int, k: int)
    requires
        0 <= k < all_seen(s).len(),
    ensures
        ({
            let f = field_of(s, near_pct, horizon_pct);
            let t = DynamicThresholds { near: f.thresholds[0], horizon: f.thresholds[1] };
            let o = all_seen(s)[k].seen;
            match visibility_at(t, o.distance as int) {
                Visibility::Near => f.near.contains(
                    ObservedView { visibility: Visibility::Near, ..o },
                ),
                Visibility::Horizon => f.horizon.contains(
                    ObservedView { visibility: Visibility::Horizon, ..o },
                ),
                Visibility::Beyond => true,
            }
        }),
{
    let seen = all_seen(s);
    let t = thresholds_of(distances_of(seen), near_pct, horizon_pct);
    let v = visibility_at(t, seen[k].seen.distance as int);
    seen_is_sighted(seen, t, v, k);
    let part = sighted(seen, t, v);
    let key = |o: ObservedView| o.distance as int;
    stable_sort_permutes(part, key);
    let o = ObservedView { visibility: v, ..seen[k].seen };
    vstd::seq_lib::to_multiset_contains(part, o);
    vstd::seq_lib::to_multiset_contains(stable_sort(part, key), o);
}

/// The space always answers: where anything at all is seen, something is near.
pub proof fn something_is_near(s: Scene, near_pct: int, horizon_pct: int)
    requires
        all_seen(s).len() > 0,
    ensures
        field_of(s, near_pct, horizon_pct).near.len() > 0,
{
    let seen = all_seen(s);
    let d = distances_of(seen);
    let t = thresholds_of(d, near_pct, horizon_pct);
    let key = |x: i64| x as int;
    rank_in_range(d.len(), near_pct);
    stable_sort_ascending(d, key);
    assert forall|i: int| 0 <= i < d.len() implies d.contains(#[trigger] d[i]) by {}
    stable_sort_from(d, key, |x: i64| d.contains(x));
    let at = sorted_distances(d)[rank_of(d.len(), near_pct)];
    assert(d.contains(at));
    let k = choose|k: int| 0 <= k < d.len() && d[k] == at;
    assert(seen[k].seen.distance == t.near);
    seen_is_sighted(seen, t, Visibility::Near, k);
    stable_sort_ascending(
        sighted(seen, t, Visibility::Near),
        |o: ObservedView| o.distance as int,
    );
}

/// Whatever is sighted in some way is marked so, and is as far as that way asks.
proof fn sighted_by_distance(seen: Seq<ScoredView>, t: DynamicThresholds, v: Visibility)
    ensures
        forall|i: int|
            0 <= i < sighted(seen, t, v).len() ==> visibility_at(
                t,
                (#[trigger] sighted(seen, t, v)[i]).distance as int,
            ) == v && sighted(seen, t, v)[i].visibility == v,
    decreases seen.len(),
{
    if seen.len() > 0 {
        sighted_by_distance(seen.drop_last(), t, v);
        let front = sighted(seen.drop_last(), t, v);
        assert forall|i: int| 0 <= i < sighted(seen, t, v).len() implies visibility_at(
            t,
            (#[trigger] sighted(seen, t, v)[i]).distance as int,
        ) == v && sighted(seen, t, v)[i].visibility == v by {
            if i < front.len() {
                assert(sighted(seen, t, v)[i] == front[i]);
            }
        }
    }
}

/// A field has depth: what is near lies within the first threshold, and what is on the horizon
/// beyond the first and within the second; each part runs from its nearest to its farthest.
pub proof fn field_has_depth(s: Scene, near_pct: int, horizon_pct: int)
    ensures
        ({
            let f = field_of(s, near_pct, horizon_pct);
            &&& ascending(f.near, |o: ObservedView| o.distance as int)
            &&& ascending(f.horizon, |o: ObservedView| o.distance as int)
            &&& forall|i: int|
                0 <= i < f.near.len() ==> (#[trigger] f.near[i]).visibility == Visibility::Near
                    && f.near[i].distance <= f.thresholds[0]
            &&& forall|i: int|
                0 <= i < f.horizon.len() ==> (#[trigger] f.horizon[i]).visibility
                    == Visibility::Horizon && f.thresholds[0] < f.horizon[i].distance
                    <= f.thresholds[1]
        }),
{
    let seen = all_seen(s);
    let t = thresholds_of(distances_of(seen), near_pct, horizon_pct);
    let key = |o: ObservedView| o.distance as int;
    let near = sighted(seen, t, Visibility::Near);
    let horizon = sighted(seen, t, Visibility::Horizon);
    sighted_by_distance(seen, t, Visibility::Near);
    sighted_by_distance(seen, t, Visibility::Horizon);
    stable_sort_ascending(near, key);
    stable_sort_ascending(horizon, key);
    let is_near = |o: ObservedView|
        visibility_at(t, o.distance as int) == Visibility::Near && o.visibility == Visibility::Near;
    let is_far = |o: ObservedView|
        visibility_at(t, o.distance as int) == Visibility::Horizon && o.visibility
            == Visibility::Horizon;
    stable_sort_from(near, key, is_near);
    stable_sort_from(horizon, key, is_far);
    let f = field_of(s, near_pct, horizon_pct);
    assert forall|i: int| 0 <= i < f.near.len() implies (#[trigger] f.near[i]).visibility
        == Visibility::Near && f.near[i].distance <= f.thresholds[0] by {
        assert(is_near(stable_sort(near, key)[i]));
    }
    assert forall|i: int| 0 <= i < f.horizon.len() implies (#[trigger] f.horizon[i]).visibility
        == Visibility::Horizon && f.thresholds[0] < f.horizon[i].distance <= f.thresholds[1] by {
        assert(is_far(stable_sort(horizon, key)[i]));
    }
}

/// Something on the horizon that has been met that often.
pub open spec fn attracts(
    horizon: Seq<ObservedView>,
    activity: Map<Seq<char>, u32>,
    x: (Seq<char>, nat),
) -> bool {
    &&& x.1 == count_of(activity, x.0)
    &&& x.1 > 0
    &&& exists|j: int| 0 <= j < horizon.len() && (#[trigger] horizon[j]).label == x.0
}

proof fn attractors_attract(horizon: Seq<ObservedView>, activity: Map<Seq<char>, u32>)
    ensures
        forall|i: int|
            0 <= i < attractors(horizon, activity).len() ==> attracts(
                horizon,
                activity,
                #[trigger] attractors(horizon, activity)[i],
            ),
    decreases horizon.len(),
{
    if horizon.len() > 0 {
        let short = horizon.drop_last();
        attractors_attract(short, activity);
        let front = attractors(short, activity);
        let all = attractors(horizon, activity);
        assert forall|i: int| 0 <= i < all.len() implies attracts(
            horizon,
            activity,
            #[trigger] all[i],
        ) by {
            if i < front.len() {
                assert(all[i] == front[i]);
                let j = choose|j: int|
                    0 <= j < short.len() && (#[trigger] short[j]).label == front[i].0;
                assert(horizon[j].label == all[i].0);
            } else {
                assert(horizon[horizon.len() - 1].label == all[i].0);
            }
        }
    }
}

/// The space flows to where it is alive: every current leads to something on the horizon that
/// has been met, no current is stronger than the one before it, and the first has full strength.
pub proof fn drift_flows_to_the_horizon(horizon: Seq<ObservedView>, activity: Map<Seq<char>, u32>)
    ensures
        ({
            let d = drift_of(horizon, activity);
            &&& d.len() <= DRIFT_LIMIT
            &&& d.len() > 0 ==> d[0].strength == UNIT
            &&& forall|i: int|
                0 <= i < d.len() ==> attracts(
                    horizon,
                    activity,
                    ((#[trigger] d[i]).toward, count_of(activity, d[i].toward)),
                )
            &&& forall|i: int, j: int|
                0 <= i <= j < d.len() ==> (#[trigger] d[j]).strength <= (
                #[trigger] d[i]).strength
        }),
{
    let found = attractors(horizon, activity);
    let key = |x: (Seq<char>, nat)| -(x.1 as int);
    let all = strongest_first(found);
    attractors_attract(horizon, activity);
    stable_sort_ascending(found, key);
    let ok = |x: (Seq<char>, nat)| attracts(horizon, activity, x);
    stable_sort_from(found, key, ok);
    let d = drift_of(horizon, activity);
    if d.len() > 0 {
        let most = all[0].1 as int;
        assert(ok(all[0]));
        assert forall|i: int| 0 <= i < d.len() implies attracts(
            horizon,
            activity,
            ((#[trigger] d[i]).toward, count_of(activity, d[i].toward)),
        ) by {
            assert(ok(all[i]));
        }
        vstd::arithmetic::div_mod::lemma_div_multiples_vanish(UNIT as int, most);
        assert(most * UNIT == UNIT * most) by (nonlinear_arith);
        assert forall|i: int, j: int| 0 <= i <= j < d.len() implies (#[trigger] d[j]).strength <= (
        #[trigger] d[i]).strength by {
            assert(key(all[i]) <= key(all[j]));
            let a = all[j].1 as int;
            let b = all[i].1 as int;
            assert(a * UNIT <= b * UNIT) by (nonlinear_arith)
                requires
                    a <= b,
                    UNIT == 1_000_000_000_000,
            ;
            vstd::arithmetic::div_mod::lemma_div_is_ordered(a * UNIT, b * UNIT, most);
        }
    }
}

fn wanderer_label(u: &UserPresence) -> (r: String)
    ensures
        r@ == user_label(u@),
{
    if u.name.as_str().is_empty() {
        let id: String = id_text(u.id);
        let short: String = take_chars(id.as_str(), 8);
        joined("wanderer_", short.as_str())
    } else {
        u.name.clone()
    }
}

fn observe(
    id: u128,
    label: String,
    components: [i64; 5],
    moving_toward: Option<String>,
    weights: &DistanceWeights,
) -> (r: ObservedEntity)
    ensures
        r@ == seen_at(
            id,
            label@,
            components@.map_values(|x: i64| x as int),
            optional_text(moving_toward),
            *weights,
        ),
        0 <= r.distance <= UNIT,
{
    let distance: i64 = compute_distance(
        components[0],
        components[1],
        components[2],
        components[3],
        components[4],
        weights,
    );
    proof {
        let c = components@.map_values(|x: i64| x as int);
        assert(c.map_values(|x: int| x as i64) =~= components@);
    }
    ObservedEntity {
        id,
        label,
        distance,
        visibility: Visibility::Beyond,
        components: Some(components),
        moving_toward,
    }
}

fn score_entity(s: &Surroundings, i: usize, most: u32) -> (r: Scored)
    requires
        s.wf(),
        i < s@.nodes.len(),
        most == largest(s@.activity),
    ensures
        r@ == entity_seen(s@, i as int),
        0 <= r.seen.distance <= UNIT,
{
    let e = s.graph.entity_at(i);
    let semantic: i64 = if e.embedding.is_some() {
        clamp(s.readings[i].semantic as i128)
    } else {
        NEUTRAL
    };
    let relational: i64 = degree_dist(s.graph.degree_at(i));
    let activity: i64 = visits_dist(s.activity.count(e.label.as_str()), most);
    let temporal: i64 = clamp(s.readings[i].temporal as i128);
    let attention: i64 = match s.identity {
        Some(who) if who.meeting_count(e.label.as_str()) > 0 => who.relational_dist(
            e.label.as_str(),
        ),
        _ => NEUTRAL,
    };
    let components: [i64; 5] = [semantic, relational, activity, temporal, attention];
    proof {
        assert(components@.map_values(|x: i64| x as int) =~= seq![
            if e@.embedding is Some {
                clamped(s@.readings[i as int].semantic as int)
            } else {
                NEUTRAL as int
            },
            degree_component(degree(s@.edges, i)),
            visits_component(count_of(s@.activity, e@.label), largest(s@.activity)),
            clamped(s@.readings[i as int].temporal as int),
            attention_component(s@.identity, e@.label),
        ]);
    }
    Scored {
        seen: observe(e.id, e.label.clone(), components, None, &s.weights),
        embedding: copy_optional_vector(&e.embedding),
    }
}

fn score_user(s: &Surroundings, i: usize) -> (r: Scored)
    requires
        s.wf(),
        i < s@.users.len(),
    ensures
        r@ == user_seen(s@, i as int),
        0 <= r.seen.distance <= UNIT,
{
    let u = &s.presence.users[i];
    let components: [i64; 5] = [
        clamp(s.user_readings[i].semantic as i128),
        NEUTRAL,
        NEUTRAL,
        0,
        clamp(s.user_readings[i].attention as i128),
    ];
    proof {
        assert(u@ == s@.users[i as int]);
        assert(components@.map_values(|x: i64| x as int) =~= seq![
            clamped(s@.user_readings[i as int].semantic as int),
            NEUTRAL as int,
            NEUTRAL as int,
            0int,
            clamped(s@.user_readings[i as int].attention as int),
        ]);
    }
    Scored {
        seen: observe(
            u.id,
            wanderer_label(u),
            components,
            copy_optional_text(&u.moving_toward),
            &s.weights,
        ),
        embedding: Some(copy_vector(&u.interest_vec)),
    }
}

fn score_all(s: &Surroundings) -> (r: Vec<Scored>)
    requires
        s.wf(),
    ensures
        scored_views(r@) == all_seen(s@),
        forall|i: int| 0 <= i < r@.len() ==> 0 <= (#[trigger] r@[i]).seen.distance <= UNIT,
{
    let most: u32 = s.activity.largest_count();
    let n: usize = s.graph.entity_count();
    let mut r: Vec<Scored> = Vec::new();
    let mut i: usize = 0;
    proof {
        assert(scored_views(r@) =~= entities_seen(s@, 0));
    }
    while i < n
        invariant
            i <= n,
            n == s@.nodes.len(),
            s.wf(),
            most == largest(s@.activity),
            scored_views(r@) == entities_seen(s@, i as nat),
            forall|k: int| 0 <= k < r@.len() ==> 0 <= (#[trigger] r@[k]).seen.distance <= UNIT,
        decreases n - i,
    {
        let there: bool = match s.graph.entity_at(i).expires_at {
            Some(t) => s.at.is_before(&t),
            None => true,
        };
        if there {
            let ghost before = r@;
            let one = score_entity(s, i, most);
            r.push(one);
            proof {
                assert(scored_views(r@) =~= scored_views(before).push(one@));
            }
        }
        i = i + 1;
    }
    let m: usize = s.presence.users.len();
    let mut j: usize = 0;
    proof {
        assert(scored_views(r@) =~= entities_seen(s@, n as nat) + users_seen(s@, 0));
    }
    while j < m
        invariant
            j <= m,
            m == s@.users.len(),
            n == s@.nodes.len(),
            s.wf(),
            scored_views(r@) == entities_seen(s@, n as nat) + users_seen(s@, j as nat),
            forall|k: int| 0 <= k < r@.len() ==> 0 <= (#[trigger] r@[k]).seen.distance <= UNIT,
        decreases m - j,
    {
        assert(s.presence.users@[j as int]@ == s@.users[j as int]);
        let other: bool = match s.viewer {
            Some(id) => s.presence.users[j].id != id,
            None => true,
        };
        if other {
            let ghost before = r@;
            let one = score_user(s, j);
            r.push(one);
            proof {
                assert(scored_views(r@) =~= scored_views(before).push(one@));
                assert(entities_seen(s@, n as nat) + users_seen(s@, (j + 1) as nat) =~= (
                entities_seen(s@, n as nat) + users_seen(s@, j as nat)).push(one@));
            }
        }
        j = j + 1;
    }
    r
}

/// Puts what is seen in the order from the nearest to the farthest.
pub fn sort_observed(all: &Vec<ObservedEntity>) -> (r: Vec<ObservedEntity>)
    ensures
        observed_views(r@) == nearest_first(observed_views(all@)),
        r@.len() == all@.len(),
{
    let n: usize = all.len();
    let ghost views = observed_views(all@);
    let mut keys: Vec<i128> = Vec::new();
    let mut i: usize = 0;
    while i < n
        invariant
            i <= n,
            n == all@.len(),
            keys@.len() == i,
            forall|j: int| 0 <= j < i ==> (#[trigger] keys@[j]) == all@[j].distance,
        decreases n - i,
    {
        keys.push(all[i].distance as i128);
        i = i + 1;
    }
    let order = stable_order(&keys);
    let mut r: Vec<ObservedEntity> = Vec::new();
    let mut k: usize = 0;
    while k < n
        invariant
            k <= n,
            n == all@.len(),
            order@.len() == n,
            views == observed_views(all@),
            forall|j: int| 0 <= j < order@.len() ==> (#[trigger] order@[j]) < n,
            r@.len() == k,
            forall|j: int| 0 <= j < k ==> (#[trigger] r@[j])@ == views[order@[j] as int],
        decreases n - k,
    {
        r.push(all[order[k]].clone());
        k = k + 1;
    }
    proof {
        let key = |o: ObservedView| o.distance as int;
        let own = |i: usize| keys@[i as int] as int;
        picked_is_sorted(views, key, own);
        assert(observed_views(r@) =~= picked(views, order@));
    }
    r
}

fn place(near: &Vec<ObservedEntity>) -> (r: String)
    ensures
        r@ == place_of(observed_views(near@)),
{
    let n: usize = near.len();
    if n == 0 {
        "plaza".to_owned()
    } else if n == 1 {
        near[0].label.clone()
    } else {
        let first: String = joined(near[0].label.as_str(), ", ");
        joined(first.as_str(), near[1].label.as_str())
    }
}

/// The currents that the horizon makes.
pub fn drift(horizon: &Vec<ObservedEntity>, activity: &Activity) -> (r: Vec<DriftSignal>)
    ensures
        drift_views(r@) == drift_of(observed_views(horizon@), activity@),
{
    let ghost views = observed_views(horizon@);
    let mut labels: Vec<String> = Vec::new();
    let mut counts: Vec<u32> = Vec::new();
    let mut keys: Vec<i128> = Vec::new();
    let ghost mut found: Seq<(Seq<char>, nat)> = Seq::empty();
    let mut i: usize = 0;
    while i < horizon.len()
        invariant
            i <= horizon@.len(),
            views == observed_views(horizon@),
            found == attractors(views.take(i as int), activity@),
            labels@.len() == found.len(),
            counts@.len() == found.len(),
            keys@.len() == found.len(),
            forall|j: int|
                0 <= j < found.len() ==> (#[trigger] found[j]).0 == labels@[j]@ && found[j].1
                    == counts@[j] && keys@[j] == -(found[j].1 as int) && found[j].1 > 0,
        decreases horizon@.len() - i,
    {
        let label = horizon[i].label.as_str();
        let count: u32 = activity.count(label);
        proof {
            assert(views.take(i + 1).drop_last() =~= views.take(i as int));
            assert(views.take(i + 1).last().label == label@);
        }
        if count > 0 {
            labels.push(label.to_owned());
            counts.push(count);
            keys.push(0 - count as i128);
            proof {
                found = found.push((label@, count as nat));
            }
        }
        i = i + 1;
    }
    let order = stable_order(&keys);
    let ghost all = strongest_first(found);
    proof {
        assert(views.take(i as int) =~= views);
        let key = |x: (Seq<char>, nat)| -(x.1 as int);
        let own = |i: usize| keys@[i as int] as int;
        assert(found.len() == keys.len());
        picked_is_sorted(found, key, own);
        stable_sort_ascending(found, key);
        assert(all == picked(found, order@));
    }
    let n: usize = if order.len() > DRIFT_LIMIT {
        DRIFT_LIMIT
    } else {
        order.len()
    };
    let mut r: Vec<DriftSignal> = Vec::new();
    let mut k: usize = 0;
    while k < n
        invariant
            k <= n <= order@.len(),
            order@.len() == found.len(),
            all == picked(found, order@),
            labels@.len() == found.len(),
            counts@.len() == found.len(),
            forall|j: int| 0 <= j < order@.len() ==> (#[trigger] order@[j]) < found.len(),
            forall|j: int|
                0 <= j < found.len() ==> (#[trigger] found[j]).0 == labels@[j]@ && found[j].1
                    == counts@[j] && found[j].1 > 0,
            r@.len() == k,
            forall|j: int|
                0 <= j < k ==> (#[trigger] r@[j])@ == (DriftView {
                    toward: all[j].0,
                    strength: clamped(all[j].1 * UNIT as int / all[0].1 as int) as i64,
                }),
        decreases n - k,
    {
        let first: usize = order[0];
        let this: usize = order[k];
        assert(found[first as int].1 == counts@[first as int]);
        assert(found[this as int].1 == counts@[this as int]);
        assert(all[0] == found[first as int]);
        assert(all[k as int] == found[this as int]);
        proof {
            let c = counts@[this as int];
            assert(0 <= c * UNIT <= 0xffff_ffff * 1_000_000_000_000) by (nonlinear_arith)
                requires
                    0 <= c <= 0xffff_ffff,
                    UNIT == 1_000_000_000_000,
            ;
        }
        let part: i128 = counts[this] as i128 * UNIT as i128 / counts[first] as i128;
        let strength: i64 = clamp(part);
        r.push(DriftSignal { toward: labels[this].clone(), strength });
        k = k + 1;
    }
    proof {
        assert(drift_views(r@) =~= drift_of(views, activity@));
    }
    r
}

/// The state of a field, and the vectors of what is near in it.
pub struct Sight {
    pub field: FieldState,
    pub near_embeddings: Vec<Vec<u32>>,
}

/// Works out the state of the field, but for what is said in it.
pub fn compute_field_state(s: &Surroundings, near_pct: Option<i64>, horizon_pct: Option<i64>) -> (r:
    Sight)
    requires
        s.wf(),
    ensures
        r.field@ == field_of(
            s@,
            pct_or(near_pct, DEFAULT_NEAR),
            pct_or(horizon_pct, DEFAULT_HORIZON),
        ),
        vectors(r.near_embeddings@) == field_vectors(
            s@,
            pct_or(near_pct, DEFAULT_NEAR),
            pct_or(horizon_pct, DEFAULT_HORIZON),
        ),
{
    let near_pct: i64 = match near_pct {
        Some(p) => p,
        None => DEFAULT_NEAR,
    };
    let horizon_pct: i64 = match horizon_pct {
        Some(p) => p,
        None => DEFAULT_HORIZON,
    };
    let scored = score_all(s);
    let ghost seen = all_seen(s@);
    let n: usize = scored.len();
    let mut distances: Vec<i64> = Vec::new();
    let mut i: usize = 0;
    while i < n
        invariant
            i <= n,
            n == scored@.len(),
            seen == scored_views(scored@),
            distances@.len() == i,
            forall|k: int| 0 <= k < scored@.len() ==> 0 <= (#[trigger] scored@[k]).seen.distance
                <= UNIT,
            forall|k: int| 0 <= k < i ==> (#[trigger] distances@[k]) == scored@[k].seen.distance,
        decreases n - i,
    {
        distances.push(scored[i].seen.distance);
        i = i + 1;
    }
    proof {
        assert forall|k: int| 0 <= k < distances@.len() implies (#[trigger] distances@[k])
            <= i64::MAX - crate::distance::MARGIN by {
            assert(scored@[k].seen.distance <= UNIT);
        }
        assert(distances@ =~= distances_of(seen));
    }
    let t = DynamicThresholds::from_distances(&distances, near_pct, horizon_pct);
    let mut near: Vec<ObservedEntity> = Vec::new();
    let mut horizon: Vec<ObservedEntity> = Vec::new();
    let mut near_embeddings: Vec<Vec<u32>> = Vec::new();
    let mut k: usize = 0;
    proof {
        assert(observed_views(near@) =~= sighted(seen.take(0), t, Visibility::Near));
        assert(observed_views(horizon@) =~= sighted(seen.take(0), t, Visibility::Horizon));
        assert(vectors(near_embeddings@) =~= near_vectors(seen.take(0), t));
    }
    while k < n
        invariant
            k <= n,
            n == scored@.len(),
            seen == scored_views(scored@),
            observed_views(near@) == sighted(seen.take(k as int), t, Visibility::Near),
            observed_views(horizon@) == sighted(seen.take(k as int), t, Visibility::Horizon),
            vectors(near_embeddings@) == near_vectors(seen.take(k as int), t),
            near@.len() + horizon@.len() <= k,
        decreases n - k,
    {
        proof {
            assert(seen.take(k + 1).drop_last() =~= seen.take(k as int));
            assert(seen.take(k + 1).last() == scored@[k as int]@);
        }
        let visibility = t.classify(scored[k].seen.distance);
        let mut seen_now: ObservedEntity = scored[k].seen.clone();
        seen_now.visibility = visibility;
        let ghost shown = seen_now@;
        let ghost near_before = near@;
        let ghost horizon_before = horizon@;
        let ghost vectors_before = near_embeddings@;
        match visibility {
            Visibility::Near => {
                if let Some(v) = &scored[k].embedding {
                    near_embeddings.push(copy_vector(v));
                    proof {
                        assert(vectors(near_embeddings@) =~= vectors(vectors_before).push(v@));
                    }
                }
                near.push(seen_now);
                proof {
                    assert(observed_views(near@) =~= observed_views(near_before).push(shown));
                }
            },
            Visibility::Horizon => {
                horizon.push(seen_now);
                proof {
                    assert(observed_views(horizon@) =~= observed_views(horizon_before).push(
                        shown,
                    ));
                }
            },
            Visibility::Beyond => {},
        }
        k = k + 1;
    }
    proof {
        assert(seen.take(k as int) =~= seen);
    }
    let near = sort_observed(&near);
    let horizon = sort_observed(&horizon);
    let presence: usize = near.len() + horizon.len();
    let mut field = FieldState {
        position: place(&near),
        density: 0,
        presence,
        drift: drift(&horizon, s.activity),
        near,
        horizon,
        timestamp: s.at,
        thresholds: [t.near, t.horizon],
        messages: Vec::new(),
    };
    field.compute_density();
    proof {
        assert(field@ =~= field_of(s@, near_pct as int, horizon_pct as int));
    }
    Sight { field, near_embeddings }
}

/// A share, or the usual one where none is asked for.
pub open spec fn pct_or(p: Option<i64>, usual: i64) -> int {
    match p {
        Some(x) => x as int,
        None => usual as int,
    }
}

/// The labels of those near to whom something can have been said: not of nameless wanderers.
pub open spec fn addressed(near: Seq<ObservedView>) -> Seq<Seq<char>>
    decreases near.len(),
{
    if near.len() == 0 {
        Seq::empty()
    } else if has_prefix(near.last().label, "wanderer_"@) {
        addressed(near.drop_last())
    } else {
        addressed(near.drop_last()).push(near.last().label)
    }
}

/// The labels of those near to whom something can have been said.
pub fn message_labels(near: &Vec<ObservedEntity>) -> (r: Vec<String>)
    ensures
        texts(r@) == addressed(observed_views(near@)),
{
    let ghost views = observed_views(near@);
    let mut r: Vec<String> = Vec::new();
    let mut i: usize = 0;
    proof {
        assert(texts(r@) =~= addressed(views.take(0)));
    }
    while i < near.len()
        invariant
            i <= near@.len(),
            views == observed_views(near@),
            texts(r@) == addressed(views.take(i as int)),
        decreases near@.len() - i,
    {
        proof {
            assert(views.take(i + 1).drop_last() =~= views.take(i as int));
            assert(views.take(i + 1).last() == near@[i as int]@);
        }
        if !starts_with(near[i].label.as_str(), "wanderer_") {
            let ghost before = r@;
            r.push(near[i].label.clone());
            proof {
                assert(texts(r@) =~= texts(before).push(near@[i as int]@.label));
            }
        }
        i = i + 1;
    }
    proof {
        assert(views.take(i as int) =~= views);
    }
    r
}

/// A field is as dense as what is near, in full, and what is on the horizon, to four tenths, are
/// against all of it and ten more, to within one unit of the last place.
pub proof fn density_is_a_share(near: nat, horizon: nat)
    ensures
        ({
            let d = density_of(near, horizon);
            let whole = 10 * (near + horizon + 10);
            &&& 0 <= d < UNIT
            &&& d * whole <= (10 * near + 4 * horizon) * UNIT < (d + 1) * whole
        }),
{
    let whole = 10 * (near + horizon + 10) as int;
    let part = 10 * near as int + 4 * horizon as int;
    let x = part * UNIT as int;
    let q = x / whole;
    assert(q * whole <= x < (q + 1) * whole) by (nonlinear_arith)
        requires
            q == x / whole,
            whole >= 100,
    ;
    assert(0 <= q < UNIT) by (nonlinear_arith)
        requires
            q * whole <= x,
            x < (q + 1) * whole,
            x == part * UNIT as int,
            0 <= part < whole,
            UNIT == 1_000_000_000_000,
    ;
}

/// An entity without an end is always alive, and one with an end until that comes.
pub proof fn the_living_have_their_end_before_them(e: EntityView, at: Timestamp)
    ensures
        e.expires_at is None ==> alive(e, at),
        e.expires_at matches Some(t) ==> (alive(e, at) <==> at.secs < t.secs || (at.secs == t.secs
            && at.nanos < t.nanos)),
{
}

/// Of an entity that was never met nothing is known; one that was met `n` times is as far as one
/// of `n + 1` parts, to within one unit of the last place. Nothing is known to whoever is unknown.
pub proof fn encounters_are_parts(identity: Option<IdentityView>, label: Seq<char>)
    ensures
        ({
            let c = attention_component(identity, label);
            &&& identity is None ==> 2 * c == UNIT
            &&& identity matches Some(i) ==> {
                let n = i.history.filter(
                    |e: EncounterView| exists|k: int|
                        0 <= k < e.near_labels.len() && #[trigger] e.near_labels[k] == label,
                ).len();
                &&& n == 0 ==> 2 * c == UNIT
                &&& n > 0 ==> c * (n + 1) <= UNIT < (c + 1) * (n + 1)
            }
        }),
{
    if let Some(i) = identity {
        all_meetings_are_counted(i.history, label);
        let n = meetings(i.history, label) as int;
        if n > 0 {
            let q = UNIT as int / (1 + n);
            assert(q * (n + 1) <= UNIT < (q + 1) * (n + 1)) by (nonlinear_arith)
                requires
                    q == UNIT as int / (1 + n),
                    n > 0,
            ;
        }
    }
}

/// Each part of an entity's distance has its own source: how far its meaning is, its relations,
/// how often everyone met it, how long ago it was active, and how often the viewer met it.
pub proof fn each_part_has_its_source(s: Scene, i: int)
    ensures
        ({
            let e = s.nodes[i];
            let o = entity_seen(s, i).seen;
            let c = o.components->0;
            &&& o.components is Some && c.len() == 5
            &&& o.id == e.id && o.label == e.label && o.moving_toward is None
            &&& e.embedding is None ==> 2 * c[0] == UNIT
            &&& e.embedding is Some ==> c[0] == clamped(s.readings[i].semantic as int)
            &&& c[1] == degree_component(degree(s.edges, i as usize))
            &&& c[2] == visits_component(count_of(s.activity, e.label), largest(s.activity))
            &&& c[3] == clamped(s.readings[i].temporal as int)
            &&& c[4] == attention_component(s.identity, e.label)
            &&& o.distance == distance_of(
                c[0] as int,
                c[1] as int,
                c[2] as int,
                c[3] as int,
                c[4] as int,
                s.weights,
            )
            &&& entity_seen(s, i).embedding == e.embedding
        }),
{
    entity_parts_are_normalised(s, i);
    let e = s.nodes[i];
    let n = match s.identity {
        Some(who) => meetings(who.history, e.label),
        None => 0,
    };
    encounters_bring_closer(n, n);
    let count = count_of(s.activity, e.label);
    let most = largest(s.activity);
    assert(0 <= count * UNIT as int / (most as int + 1)) by (nonlinear_arith)
        requires
            0 <= count,
            0 <= most,
            UNIT == 1_000_000_000_000,
    ;
}

/// A wanderer is as far as their interests are, and is right here in time; of the rest nothing is
/// known.
pub proof fn each_part_of_a_wanderer(s: Scene, i: int)
    ensures
        ({
            let u = s.users[i];
            let o = user_seen(s, i).seen;
            let c = o.components->0;
            &&& o.components is Some && c.len() == 5
            &&& o.id == u.id && o.moving_toward == u.moving_toward
            &&& c[0] == clamped(s.user_readings[i].semantic as int)
            &&& 2 * c[1] == UNIT
            &&& 2 * c[2] == UNIT
            &&& c[3] == 0
            &&& c[4] == clamped(s.user_readings[i].attention as int)
            &&& o.distance == distance_of(
                c[0] as int,
                c[1] as int,
                c[2] as int,
                c[3] as int,
                c[4] as int,
                s.weights,
            )
            &&& user_seen(s, i).embedding == Some(u.interest_vec)
        }),
{
}

proof fn entities_seen_up_to(s: Scene, n: nat)
    ensures
        entities_seen(s, n) == kept(
            n,
            |i: int|
                s.nodes[i].expires_at is None || s.at.precedes(s.nodes[i].expires_at->0),
            |i: int| entity_seen(s, i),
        ),
    decreases n,
{
    let keep = |i: int|
        s.nodes[i].expires_at is None || s.at.precedes(s.nodes[i].expires_at->0);
    let f = |i: int| entity_seen(s, i);
    kept_grows(n, keep, f);
    if n > 0 {
        entities_seen_up_to(s, (n - 1) as nat);
    }
}

proof fn users_seen_up_to(s: Scene, n: nat)
    ensures
        users_seen(s, n) == kept(
            n,
            |i: int| s.viewer is None || s.viewer->0 != s.users[i].id,
            |i: int| user_seen(s, i),
        ),
    decreases n,
{
    let keep = |i: int| s.viewer is None || s.viewer->0 != s.users[i].id;
    let f = |i: int| user_seen(s, i);
    kept_grows(n, keep, f);
    if n > 0 {
        users_seen_up_to(s, (n - 1) as nat);
    }
}

/// All entities are seen whose end has not come, each once and in their order; then all users but
/// the viewer.
pub proof fn everything_there_is_seen(s: Scene)
    ensures
        all_seen(s) == kept(
            s.nodes.len(),
            |i: int|
                s.nodes[i].expires_at is None || s.at.precedes(s.nodes[i].expires_at->0),
            |i: int| entity_seen(s, i),
        ) + kept(
            s.users.len(),
            |i: int| s.viewer is None || s.viewer->0 != s.users[i].id,
            |i: int| user_seen(s, i),
        ),
{
    entities_seen_up_to(s, s.nodes.len());
    users_seen_up_to(s, s.users.len());
}

proof fn sighted_up_to(seen: Seq<ScoredView>, t: DynamicThresholds, v: Visibility, n: nat)
    requires
        n <= seen.len(),
    ensures
        sighted(seen.take(n as int), t, v) == kept(
            n,
            |i: int| visibility_at(t, seen[i].seen.distance as int) == v,
            |i: int| ObservedView { visibility: v, ..seen[i].seen },
        ),
    decreases n,
{
    let keep = |i: int| visibility_at(t, seen[i].seen.distance as int) == v;
    let f = |i: int| ObservedView { visibility: v, ..seen[i].seen };
    kept_grows(n, keep, f);
    if n > 0 {
        sighted_up_to(seen, t, v, (n - 1) as nat);
        assert(seen.take(n as int).drop_last() =~= seen.take(n - 1));
    }
}

/// What is in sight in some way is all that lies at such a distance, in its order, and is marked
/// so.
pub proof fn sight_goes_by_distance(seen: Seq<ScoredView>, t: DynamicThresholds, v: Visibility)
    ensures
        sighted(seen, t, v) == kept(
            seen.len(),
            |i: int| visibility_at(t, seen[i].seen.distance as int) == v,
            |i: int| ObservedView { visibility: v, ..seen[i].seen },
        ),
{
    assert(seen.take(seen.len() as int) =~= seen);
    sighted_up_to(seen, t, v, seen.len());
}

proof fn near_vectors_up_to(seen: Seq<ScoredView>, t: DynamicThresholds, n: nat)
    requires
        n <= seen.len(),
    ensures
        near_vectors(seen.take(n as int), t) == kept(
            n,
            |i: int| seen[i].seen.distance <= t.near && seen[i].embedding is Some,
            |i: int| seen[i].embedding->0,
        ),
    decreases n,
{
    let keep = |i: int| seen[i].seen.distance <= t.near && seen[i].embedding is Some;
    let f = |i: int| seen[i].embedding->0;
    kept_grows(n, keep, f);
    if n > 0 {
        near_vectors_up_to(seen, t, (n - 1) as nat);
        assert(seen.take(n as int).drop_last() =~= seen.take(n - 1));
    }
}

/// What is taken in is the vectors of all that is near and has one.
pub proof fn all_that_is_near_is_taken_in(s: Scene, near_pct: int, horizon_pct: int)
    ensures
        ({
            let seen = all_seen(s);
            let near = field_of(s, near_pct, horizon_pct).thresholds[0];
            field_vectors(s, near_pct, horizon_pct) == kept(
                seen.len(),
                |i: int| seen[i].seen.distance <= near && seen[i].embedding is Some,
                |i: int| seen[i].embedding->0,
            )
        }),
{
    let seen = all_seen(s);
    let t = thresholds_of(distances_of(seen), near_pct, horizon_pct);
    assert(seen.take(seen.len() as int) =~= seen);
    near_vectors_up_to(seen, t, seen.len());
    let near = t.near;
    assert(field_of(s, near_pct, horizon_pct).thresholds[0] == near);
}

/// What is seen from the nearest to the farthest is all of it, never farther before nearer, and
/// what is as far keeps its order.
pub proof fn the_nearest_come_first(seen: Seq<ObservedView>, d: i64)
    ensures
        nearest_first(seen).to_multiset() == seen.to_multiset(),
        forall|i: int, j: int|
            0 <= i <= j < seen.len() ==> (#[trigger] nearest_first(seen)[i]).distance <= (
            #[trigger] nearest_first(seen)[j]).distance,
        nearest_first(seen).len() == seen.len(),
        nearest_first(seen).filter(|o: ObservedView| o.distance as int == d as int) == seen.filter(
            |o: ObservedView| o.distance as int == d as int,
        ),
{
    let key = |o: ObservedView| o.distance as int;
    stable_sort_permutes(seen, key);
    stable_sort_ascending(seen, key);
    stable_sort_keeps_ties(seen, key, d as int);
    let r = nearest_first(seen);
    assert forall|i: int, j: int| 0 <= i <= j < seen.len() implies (#[trigger] r[i]).distance <= (
    #[trigger] r[j]).distance by {
        assert(key(r[i]) <= key(r[j]));
    }
    let same = |o: ObservedView| key(o) == d as int;
    let plain = |o: ObservedView| o.distance as int == d as int;
    assert(same =~= plain);
}

/// A field holds all that is within its thresholds and nothing else; it is drawn from all
/// distances, counts what it holds, and tells when it was.
pub proof fn a_field_holds_what_is_in_sight(s: Scene, near_pct: int, horizon_pct: int)
    ensures
        ({
            let seen = all_seen(s);
            let f = field_of(s, near_pct, horizon_pct);
            let t = thresholds_of(
                Seq::new(seen.len(), |i: int| seen[i].seen.distance),
                near_pct,
                horizon_pct,
            );
            &&& f.thresholds == seq![t.near, t.horizon]
            &&& f.near.to_multiset() == kept(
                seen.len(),
                |i: int| visibility_at(t, seen[i].seen.distance as int) == Visibility::Near,
                |i: int| ObservedView { visibility: Visibility::Near, ..seen[i].seen },
            ).to_multiset()
            &&& f.horizon.to_multiset() == kept(
                seen.len(),
                |i: int| visibility_at(t, seen[i].seen.distance as int) == Visibility::Horizon,
                |i: int| ObservedView { visibility: Visibility::Horizon, ..seen[i].seen },
            ).to_multiset()
            &&& f.near.len() + f.horizon.len() <= usize::MAX ==> f.presence == f.near.len()
                + f.horizon.len()
            &&& f.position == place_of(f.near)
            &&& f.density == density_of(f.near.len(), f.horizon.len())
            &&& f.drift == drift_of(f.horizon, s.activity)
            &&& f.timestamp == s.at
            &&& f.messages.len() == 0
        }),
{
    let seen = all_seen(s);
    let d = distances_of(seen);
    assert(d =~= Seq::new(seen.len(), |i: int| seen[i].seen.distance));
    let t = thresholds_of(d, near_pct, horizon_pct);
    sight_goes_by_distance(seen, t, Visibility::Near);
    sight_goes_by_distance(seen, t, Visibility::Horizon);
    let key = |o: ObservedView| o.distance as int;
    stable_sort_permutes(sighted(seen, t, Visibility::Near), key);
    stable_sort_permutes(sighted(seen, t, Visibility::Horizon), key);
    let f = field_of(s, near_pct, horizon_pct);
    density_is_a_share(f.near.len(), f.horizon.len());
}

/// One is where the two nearest are, or the one that is near, or on the plaza.
pub proof fn one_is_by_the_nearest(near: Seq<ObservedView>)
    ensures
        near.len() == 0 ==> place_of(near) == "plaza"@,
        near.len() == 1 ==> place_of(near) == near[0].label,
        near.len() >= 2 ==> place_of(near) == near[0].label + ", "@ + near[1].label,
{
}

proof fn attractors_up_to(horizon: Seq<ObservedView>, activity: Map<Seq<char>, u32>, n: nat)
    requires
        n <= horizon.len(),
    ensures
        attractors(horizon.take(n as int), activity) == kept(
            n,
            |i: int| count_of(activity, horizon[i].label) > 0,
            |i: int| (horizon[i].label, count_of(activity, horizon[i].label)),
        ),
    decreases n,
{
    let keep = |i: int| count_of(activity, horizon[i].label) > 0;
    let f = |i: int| (horizon[i].label, count_of(activity, horizon[i].label));
    kept_grows(n, keep, f);
    if n > 0 {
        attractors_up_to(horizon, activity, (n - 1) as nat);
        assert(horizon.take(n as int).drop_last() =~= horizon.take(n - 1));
    }
}

/// All that is on the horizon and has been met attracts, by how often it was met.
pub proof fn all_that_was_met_attracts(horizon: Seq<ObservedView>, activity: Map<Seq<char>, u32>)
    ensures
        attractors(horizon, activity) == kept(
            horizon.len(),
            |i: int| count_of(activity, horizon[i].label) > 0,
            |i: int| (horizon[i].label, count_of(activity, horizon[i].label)),
        ),
{
    assert(horizon.take(horizon.len() as int) =~= horizon);
    attractors_up_to(horizon, activity, horizon.len());
}

/// The currents lead to what was met most: there are three, or as many as there is anything that
/// attracts; what they lead to are the first of all that attracts, the most met first and of
/// those met as often in the order of the horizon; and each is as strong as what it leads to was
/// met against what was met most, to within one unit of the last place.
pub proof fn currents_lead_to_the_most_met(
    horizon: Seq<ObservedView>,
    activity: Map<Seq<char>, u32>,
    k: nat,
)
    ensures
        ({
            let found = attractors(horizon, activity);
            let all = strongest_first(found);
            let d = drift_of(horizon, activity);
            &&& all.to_multiset() == found.to_multiset()
            &&& all.len() == found.len()
            &&& forall|i: int, j: int|
                0 <= i <= j < all.len() ==> (#[trigger] all[i]).1 >= (#[trigger] all[j]).1
            &&& all.filter(|x: (Seq<char>, nat)| x.1 == k) == found.filter(
                |x: (Seq<char>, nat)| x.1 == k,
            )
            &&& d.len() == if found.len() < 3 {
                found.len()
            } else {
                3
            }
            &&& forall|i: int| 0 <= i < d.len() ==> (#[trigger] d[i]).toward == all[i].0
            &&& forall|i: int|
                0 <= i < d.len() ==> (#[trigger] d[i]).strength * all[0].1 <= all[i].1 * UNIT < (
                d[i].strength + 1) * all[0].1
        }),
{
    let found = attractors(horizon, activity);
    let key = |x: (Seq<char>, nat)| -(x.1 as int);
    let all = strongest_first(found);
    let d = drift_of(horizon, activity);
    attractors_attract(horizon, activity);
    stable_sort_ascending(found, key);
    stable_sort_permutes(found, key);
    stable_sort_keeps_ties(found, key, -(k as int));
    let ok = |x: (Seq<char>, nat)| attracts(horizon, activity, x);
    stable_sort_from(found, key, ok);
    let same = |x: (Seq<char>, nat)| key(x) == -(k as int);
    let plain = |x: (Seq<char>, nat)| x.1 == k;
    assert(same =~= plain);
    assert forall|i: int, j: int| 0 <= i <= j < all.len() implies (#[trigger] all[i]).1 >= (
    #[trigger] all[j]).1 by {
        assert(key(all[i]) <= key(all[j]));
    }
    assert forall|i: int| 0 <= i < d.len() implies (#[trigger] d[i]).strength * all[0].1
        <= all[i].1 * UNIT < (d[i].strength + 1) * all[0].1 by {
        assert(ok(all[0]));
        let m = all[0].1 as int;
        let c = all[i].1 as int;
        assert(c <= m);
        let x = c * UNIT as int;
        let q = x / m;
        assert(q * m <= x < (q + 1) * m) by (nonlinear_arith)
            requires
                q == x / m,
                m >= 1,
        ;
        assert(0 <= q <= UNIT) by (nonlinear_arith)
            requires
                q * m <= x,
                x < (q + 1) * m,
                x == c * UNIT as int,
                0 <= c <= m,
                m >= 1,
                UNIT == 1_000_000_000_000,
        ;
    }
}

/// Where nothing else is asked for, three tenths of all are near and seven tenths in sight.
pub proof fn the_usual_shares(p: i64, usual: i64)
    ensures
        pct_or(None, DEFAULT_NEAR) == 300_000_000_000,
        pct_or(None, DEFAULT_HORIZON) == 700_000_000_000,
        pct_or(Some(p), usual) == p,
{
}

proof fn addressed_up_to(near: Seq<ObservedView>, n: nat)
    requires
        n <= near.len(),
    ensures
        addressed(near.take(n as int)) == kept(
            n,
            |i: int| !begins_as_wanderer(near[i].label),
            |i: int| near[i].label,
        ),
    decreases n,
{
    let keep = |i: int| !begins_as_wanderer(near[i].label);
    let f = |i: int| near[i].label;
    kept_grows(n, keep, f);
    if n > 0 {
        addressed_up_to(near, (n - 1) as nat);
        assert(near.take(n as int).drop_last() =~= near.take(n - 1));
        prefixes_begin(near[n - 1].label, "wanderer_"@);
    }
}

/// What was said is heard from all that is near, but for nameless wanderers.
pub proof fn all_but_the_nameless_are_heard(near: Seq<ObservedView>)
    ensures
        addressed(near) == kept(
            near.len(),
            |i: int| !begins_as_wanderer(near[i].label),
            |i: int| near[i].label,
        ),
{
    assert(near.take(near.len() as int) =~= near);
    addressed_up_to(near, near.len());
}

/// A field with nothing in it is still somewhere and at some time, and has thresholds.
pub proof fn an_empty_field_has_thresholds(position: Seq<char>, at: Timestamp)
    ensures
        ({
            let f = empty_field(position, at);
            &&& f.position == position && f.timestamp == at
            &&& f.density == 0 && f.presence == 0
            &&& f.near.len() == 0 && f.horizon.len() == 0 && f.drift.len() == 0 && f.messages.len()
                == 0
            &&& f.thresholds == seq![350_000_000_000i64, 650_000_000_000i64]
        }),
{
}

} // verus!
