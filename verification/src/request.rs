//! What people ask of the space, and how they are answered.
use crate::activity::{count_of, Activity};
use crate::graph::{
    copy_vector, distinct_labels, newcomer, placed, placed_index, placing_keeps_labels_unique,
    Entity, EntityKind, EntityView, SpaceGraph,
};
use crate::host::{dotted, dotted_is_unique, read_host, HostAddress};
use crate::identity::{
    after_encounter, an_encounter_is_remembered, vectors, EncounterView, Identity,
};
use crate::ids::{fresh_id, hyphenated, id_text, is_random};
use crate::order::{kept, kept_grows};
use crate::stamp::{
    now, rfc3339_text, shifted, to_rfc3339, Timestamp, FIRST_SECOND, LAST_SECOND,
};
use crate::store::{kind_name, kind_text, optional_time_text};
use crate::text::{
    before_first, byte_len, contains_text, count_bytes, first_chars, joined, occurrences,
    occurrences_are_all_counted, optional_text, is_white, take_before, take_chars, texts, trim, trimmed, without_leading_white,
    without_trailing_white,
};
use vstd::prelude::*;
use vstd::string::*;

verus! {

/// A label may have this many characters.
pub const LABEL_LIMIT: usize = 120;

/// The text that an entity's meaning is taken from may have this many bytes.
pub const TEXT_LIMIT: usize = 4000;

/// An encounter may be with this many entities.
pub const ENCOUNTER_LIMIT: usize = 50;

/// The text on what someone has in mind may have this many bytes.
pub const INTEREST_LIMIT: usize = 1000;

/// A message may have this many bytes.
pub const MESSAGE_LIMIT: usize = 280;

/// An author's name is cut to this many characters.
pub const AUTHOR_LIMIT: usize = 24;

/// Why a request is refused.
#[derive(Clone, Copy, Debug, PartialEq, Eq, Structural)]
pub enum RequestError {
    LabelTooLong,
    TextTooLong,
    TooManyLabels,
    InterestTooLong,
}

/// What is said of a refused request.
pub open spec fn refusal(e: RequestError) -> Seq<char> {
    match e {
        RequestError::LabelTooLong => "label too long (max 120 chars)"@,
        RequestError::TextTooLong => "text too long (max 4000 bytes)"@,
        RequestError::TooManyLabels => "too many near_labels (max 50)"@,
        RequestError::InterestTooLong => "interest_text too long (max 1000 bytes)"@,
    }
}

impl RequestError {
    /// What is said of a refused request.
    pub fn message(&self) -> (r: String)
        ensures
            r@ == refusal(*self),
    {
        match self {
            RequestError::LabelTooLong => "label too long (max 120 chars)".to_owned(),
            RequestError::TextTooLong => "text too long (max 4000 bytes)".to_owned(),
            RequestError::TooManyLabels => "too many near_labels (max 50)".to_owned(),
            RequestError::InterestTooLong => "interest_text too long (max 1000 bytes)".to_owned(),
        }
    }
}

/// Someone asks for a new entity.
#[derive(Debug)]
pub struct EntityRequest {
    pub label: String,
    pub kind: Option<EntityKind>,
    /// What the entity's meaning is taken from. Without it, the label serves.
    pub text: Option<String>,
    /// How many seconds the entity lasts. Without them, it has no end.
    pub duration: Option<i64>,
}

/// Why a request for an entity is refused, if it is.
pub open spec fn entity_fault(label: Seq<char>, text: Option<Seq<char>>) -> Option<RequestError> {
    if label.len() > LABEL_LIMIT {
        Some(RequestError::LabelTooLong)
    } else if text matches Some(t) && byte_len(t) > TEXT_LIMIT {
        Some(RequestError::TextTooLong)
    } else {
        None
    }
}

/// The text that an entity's meaning is taken from.
pub open spec fn seed_of(label: Seq<char>, text: Option<Seq<char>>) -> Seq<char> {
    match text {
        Some(t) => t,
        None => label,
    }
}

/// The kind of a new entity: a service, where nothing else is asked for.
pub open spec fn kind_of(kind: Option<EntityKind>) -> EntityKind {
    match kind {
        Some(k) => k,
        None => EntityKind::Service,
    }
}

/// When an entity that lasts so long ends.
pub open spec fn end_of(at: Timestamp, duration: Option<i64>) -> Option<Timestamp> {
    match duration {
        Some(d) => Some(Timestamp { secs: (at.secs + d) as i64, nanos: at.nanos }),
        None => None,
    }
}

/// A calendar date can be given for the end of an entity that lasts so long.
pub open spec fn lasts(at: Timestamp, duration: Option<i64>) -> bool {
    duration matches Some(d) ==> FIRST_SECOND <= at.secs + d <= LAST_SECOND
}

/// A new entity whose meaning is `meaning`, which is also what has gathered at it so far.
pub open spec fn founded(
    kind: EntityKind,
    label: Seq<char>,
    meaning: Seq<u32>,
    expires_at: Option<Timestamp>,
    id: u128,
    at: Timestamp,
) -> EntityView {
    EntityView {
        embedding: Some(meaning),
        activity_vec: Some(meaning),
        expires_at,
        ..newcomer(kind, label, id, at)
    }
}

impl EntityRequest {
    /// The entity that is asked for, with the given meaning and identifier and at the given time.
    pub open spec fn asked_for(self, meaning: Seq<u32>, id: u128, at: Timestamp) -> EntityView {
        founded(
            kind_of(self.kind),
            self.label@,
            meaning,
            end_of(at, self.duration),
            id,
            at,
        )
    }

    /// Says whether the request is granted, and why not.
    pub fn check(&self) -> (r: Result<(), RequestError>)
        ensures
            match r {
                Ok(_) => entity_fault(self.label@, optional_text(self.text)) is None,
                Err(e) => entity_fault(self.label@, optional_text(self.text)) == Some(e),
            },
    {
        if self.label.as_str().unicode_len() > LABEL_LIMIT {
            return Err(RequestError::LabelTooLong);
        }
        if let Some(t) = &self.text {
            if count_bytes(t.as_str()) > TEXT_LIMIT {
                return Err(RequestError::TextTooLong);
            }
        }
        Ok(())
    }

    /// The text that the entity's meaning is taken from.
    pub fn seed(&self) -> (r: &str)
        ensures
            r@ == seed_of(self.label@, optional_text(self.text)),
    {
        match &self.text {
            Some(t) => t.as_str(),
            None => self.label.as_str(),
        }
    }

    /// The entity that is asked for, with the given identifier and at the given time.
    pub fn found_at(&self, meaning: Vec<u32>, id: u128, at: Timestamp) -> (r: Entity)
        requires
            at.plain(),
            lasts(at, self.duration),
        ensures
            r@ == self.asked_for(meaning@, id, at),
    {
        let kind = match self.kind {
            Some(k) => k,
            None => EntityKind::Service,
        };
        let mut e = found_entity_at(kind, self.label.as_str(), meaning, id, at);
        if let Some(d) = self.duration {
            e.expires_at = shifted(at, d);
        }
        e
    }

    /// The entity that is asked for, with the given identifier and at the given time. There is
    /// none where no calendar date can be given for its end.
    pub fn found_on(&self, meaning: Vec<u32>, id: u128, at: Timestamp) -> (r: Option<Entity>)
        requires
            at.plain(),
        ensures
            r is Some <==> lasts(at, self.duration),
            r matches Some(e) ==> e@ == self.asked_for(meaning@, id, at),
    {
        if let Some(d) = self.duration {
            if shifted(at, d).is_none() {
                return None;
            }
        }
        Some(self.found_at(meaning, id, at))
    }

    /// The entity that is asked for, with a random identifier and as of now. There is none where
    /// no calendar date can be given for its end.
    pub fn found(&self, meaning: Vec<u32>) -> (r: Option<Entity>)
        ensures
            self.duration is None ==> r is Some,
            self.duration matches Some(d) && FIRST_SECOND <= d <= 0 ==> r is Some,
            exists|id: u128, at: Timestamp|
                #![trigger self.asked_for(meaning@, id, at)]
                is_random(id) && at.plain() && at.secs >= 0 && (r is Some <==> lasts(
                    at,
                    self.duration,
                )) && (r matches Some(e) ==> e@ == self.asked_for(meaning@, id, at)),
    {
        let id: u128 = fresh_id();
        let at = now();
        self.found_on(meaning, id, at)
    }
}

/// A new entity with a meaning, with the given identifier and at the given time.
pub fn found_entity_at(kind: EntityKind, label: &str, meaning: Vec<u32>, id: u128, at: Timestamp)
    -> (r: Entity)
    ensures
        r@ == founded(kind, label@, meaning@, None, id, at),
{
    let mut e = Entity::new_at(kind, label, id, at);
    e.activity_vec = Some(copy_vector(&meaning));
    e.embedding = Some(meaning);
    e
}

/// A new entity with a meaning, with a random identifier and as of now.
pub fn found_entity(kind: EntityKind, label: &str, meaning: Vec<u32>) -> (r: Entity)
    ensures
        r@ == founded(kind, label@, meaning@, None, r.id, r.last_active),
        is_random(r.id),
        r.last_active.plain(),
{
    found_entity_at(kind, label, meaning, fresh_id(), now())
}

/// What an empty space begins with.
pub open spec fn first_entities() -> Seq<(Seq<char>, EntityKind)> {
    seq![
        ("wandering_ai"@, EntityKind::AI),
        ("gathering"@, EntityKind::Event),
        ("philosophy_debate"@, EntityKind::Event),
        ("live_coding_session"@, EntityKind::Event),
        ("open_research"@, EntityKind::Service),
        ("ambient_signal"@, EntityKind::Service),
    ]
}

/// What an empty space begins with: labels and kinds.
pub fn default_entities() -> (r: Vec<(String, EntityKind)>)
    ensures
        r@.map_values(|x: (String, EntityKind)| (x.0@, x.1)) == first_entities(),
{
    let mut r: Vec<(String, EntityKind)> = Vec::new();
    r.push(("wandering_ai".to_owned(), EntityKind::AI));
    r.push(("gathering".to_owned(), EntityKind::Event));
    r.push(("philosophy_debate".to_owned(), EntityKind::Event));
    r.push(("live_coding_session".to_owned(), EntityKind::Event));
    r.push(("open_research".to_owned(), EntityKind::Service));
    r.push(("ambient_signal".to_owned(), EntityKind::Service));
    proof {
        assert(r@.map_values(|x: (String, EntityKind)| (x.0@, x.1)) =~= first_entities());
    }
    r
}

/// What is told of an entity.
#[derive(Debug)]
pub struct EntitySummary {
    pub id: u128,
    pub label: String,
    pub kind: String,
    pub last_active: String,
    pub expires_at: Option<String>,
}

/// What is told of an entity, as a mathematical value.
#[verifier::ext_equal]
pub struct EntitySummaryView {
    pub id: u128,
    pub label: Seq<char>,
    pub kind: Seq<char>,
    pub last_active: Seq<char>,
    pub expires_at: Option<Seq<char>>,
}

impl View for EntitySummary {
    type V = EntitySummaryView;

    open spec fn view(&self) -> EntitySummaryView {
        EntitySummaryView {
            id: self.id,
            label: self.label@,
            kind: self.kind@,
            last_active: self.last_active@,
            expires_at: optional_text(self.expires_at),
        }
    }
}

/// Calendar dates can be given for an entity's times.
pub open spec fn dated(e: EntityView) -> bool {
    e.last_active.valid() && (e.expires_at matches Some(t) ==> t.valid())
}

/// What is told of an entity.
pub open spec fn entity_summary_of(e: EntityView) -> EntitySummaryView {
    EntitySummaryView {
        id: e.id,
        label: e.label,
        kind: kind_text(e.kind),
        last_active: rfc3339_text(e.last_active.secs, e.last_active.nanos),
        expires_at: optional_time_text(e.expires_at),
    }
}

/// What is told of an entity.
pub fn summarize_entity(e: &Entity) -> (r: EntitySummary)
    requires
        dated(e@),
    ensures
        r@ == entity_summary_of(e@),
{
    let expires_at: Option<String> = match e.expires_at {
        Some(t) => Some(to_rfc3339(t)),
        None => None,
    };
    EntitySummary {
        id: e.id,
        label: e.label.clone(),
        kind: kind_name(e.kind),
        last_active: to_rfc3339(e.last_active),
        expires_at,
    }
}

/// What is told of the entities of a space, in their order.
pub fn summarize_entities(graph: &SpaceGraph) -> (r: Vec<EntitySummary>)
    requires
        graph.wf(),
        forall|i: int| 0 <= i < graph.nodes().len() ==> dated(#[trigger] graph.nodes()[i]),
    ensures
        r@.map_values(|s: EntitySummary| s@) == graph.nodes().map_values(
            |e: EntityView| entity_summary_of(e),
        ),
{
    let n: usize = graph.entity_count();
    let mut r: Vec<EntitySummary> = Vec::new();
    let mut i: usize = 0;
    while i < n
        invariant
            i <= n,
            n == graph.nodes().len(),
            graph.wf(),
            forall|k: int| 0 <= k < n ==> dated(#[trigger] graph.nodes()[k]),
            r@.len() == i,
            forall|k: int| 0 <= k < i ==> (#[trigger] r@[k])@ == entity_summary_of(graph.nodes()[k]),
        decreases n - i,
    {
        r.push(summarize_entity(graph.entity_at(i)));
        i = i + 1;
    }
    proof {
        assert(r@.map_values(|s: EntitySummary| s@) =~= graph.nodes().map_values(
            |e: EntityView| entity_summary_of(e),
        ));
    }
    r
}

/// An entity that was added on request, and what is told of it.
pub struct Posted {
    pub entity: Entity,
    pub summary: EntitySummary,
}

/// Why no entity is added on request.
#[derive(Clone, Copy, Debug, PartialEq, Eq, Structural)]
pub enum PostError {
    /// The request is refused.
    Refused(RequestError),
    /// No calendar date can be given for the entity's end.
    NoEnd,
}

/// Why the entity that is asked for is not added at the time `at`, if it is not.
pub open spec fn post_fault(
    label: Seq<char>,
    text: Option<Seq<char>>,
    duration: Option<i64>,
    at: Timestamp,
) -> Option<PostError> {
    match entity_fault(label, text) {
        Some(e) => Some(PostError::Refused(e)),
        None => if lasts(at, duration) {
            None
        } else {
            Some(PostError::NoEnd)
        },
    }
}

/// Adds the entity that is asked for, in the place of any that bears its label, with the given
/// identifier and at the given time. Nothing happens where the request is refused, nor where no
/// calendar date can be given for the entity's end.
pub fn post_entity_on(
    graph: &mut SpaceGraph,
    req: &EntityRequest,
    meaning: Vec<u32>,
    id: u128,
    at: Timestamp,
) -> (r: Result<Posted, PostError>)
    requires
        old(graph).wf(),
        old(graph).nodes().len() < u32::MAX,
        at.plain(),
    ensures
        final(graph).wf(),
        final(graph).edges() == old(graph).edges(),
        distinct_labels(old(graph).nodes()) ==> distinct_labels(final(graph).nodes()),
        match r {
            Ok(p) => {
                &&& post_fault(req.label@, optional_text(req.text), req.duration, at) is None
                &&& p.entity@ == req.asked_for(meaning@, id, at)
                &&& p.summary@ == entity_summary_of(p.entity@)
                &&& final(graph).nodes() == placed(old(graph).nodes(), p.entity@)
                &&& final(graph).index() == placed_index(
                    old(graph).index(),
                    old(graph).nodes(),
                    p.entity@,
                )
            },
            Err(e) => {
                &&& post_fault(req.label@, optional_text(req.text), req.duration, at) == Some(e)
                &&& final(graph).nodes() == old(graph).nodes()
                &&& final(graph).index() == old(graph).index()
            },
        },
{
    if let Err(e) = req.check() {
        return Err(PostError::Refused(e));
    }
    let entity = match req.found_on(meaning, id, at) {
        Some(e) => e,
        None => {
            return Err(PostError::NoEnd);
        },
    };
    let summary = summarize_entity(&entity);
    proof {
        if distinct_labels(graph.nodes()) {
            placing_keeps_labels_unique(graph.nodes(), entity@);
        }
    }
    graph.place_entity(entity.clone());
    Ok(Posted { entity, summary })
}

/// Adds the entity that is asked for, with a random identifier and as of now.
pub fn post_entity(graph: &mut SpaceGraph, req: &EntityRequest, meaning: Vec<u32>) -> (r: Result<
    Posted,
    PostError,
>)
    requires
        old(graph).wf(),
        old(graph).nodes().len() < u32::MAX,
    ensures
        final(graph).wf(),
        final(graph).edges() == old(graph).edges(),
        distinct_labels(old(graph).nodes()) ==> distinct_labels(final(graph).nodes()),
        entity_fault(req.label@, optional_text(req.text)) matches Some(e) ==> r matches Err(f) && f
            == PostError::Refused(e),
        entity_fault(req.label@, optional_text(req.text)) is None && req.duration is None
            ==> r is Ok,
        entity_fault(req.label@, optional_text(req.text)) is None && (req.duration matches Some(d)
            && FIRST_SECOND <= d <= 0) ==> r is Ok,
        exists|at: Timestamp|
            at.plain() && at.secs >= 0 && match r {
                Ok(p) => p.entity.last_active == at && #[trigger] post_fault(
                    req.label@,
                    optional_text(req.text),
                    req.duration,
                    at,
                ) is None,
                Err(e) => post_fault(req.label@, optional_text(req.text), req.duration, at) == Some(
                    e,
                ),
            },
        match r {
            Ok(p) => {
                &&& is_random(p.entity.id)
                &&& p.entity@ == req.asked_for(meaning@, p.entity.id, p.entity.last_active)
                &&& p.summary@ == entity_summary_of(p.entity@)
                &&& final(graph).nodes() == placed(old(graph).nodes(), p.entity@)
                &&& final(graph).index() == placed_index(
                    old(graph).index(),
                    old(graph).nodes(),
                    p.entity@,
                )
            },
            Err(_) => {
                &&& final(graph).nodes() == old(graph).nodes()
                &&& final(graph).index() == old(graph).index()
            },
        },
{
    let id: u128 = fresh_id();
    let at = now();
    post_entity_on(graph, req, meaning, id, at)
}

/// Someone reports an encounter.
#[derive(Debug)]
pub struct EncounterRequest {
    pub user_id: u128,
    pub position: String,
    pub near_labels: Vec<String>,
    pub interest_text: String,
}

/// Why the report of an encounter is refused, if it is.
pub open spec fn encounter_fault(labels: nat, interest_text: Seq<char>) -> Option<RequestError> {
    if labels > ENCOUNTER_LIMIT {
        Some(RequestError::TooManyLabels)
    } else if byte_len(interest_text) > INTEREST_LIMIT {
        Some(RequestError::InterestTooLong)
    } else {
        None
    }
}

impl EncounterRequest {
    /// Says whether the report is accepted, and why not.
    pub fn check(&self) -> (r: Result<(), RequestError>)
        ensures
            match r {
                Ok(_) => encounter_fault(self.near_labels@.len(), self.interest_text@) is None,
                Err(e) => encounter_fault(self.near_labels@.len(), self.interest_text@) == Some(e),
            },
    {
        if self.near_labels.len() > ENCOUNTER_LIMIT {
            return Err(RequestError::TooManyLabels);
        }
        if count_bytes(self.interest_text.as_str()) > INTEREST_LIMIT {
            return Err(RequestError::InterestTooLong);
        }
        Ok(())
    }
}

/// The entities that were met, out of `nodes`: those that have a meaning and bear one of the
/// labels.
pub open spec fn met(nodes: Seq<EntityView>, labels: Seq<Seq<char>>) -> Seq<(u128, Seq<u32>)>
    decreases nodes.len(),
{
    if nodes.len() == 0 {
        Seq::empty()
    } else {
        let front = met(nodes.drop_last(), labels);
        match nodes.last().embedding {
            Some(m) if labels.contains(nodes.last().label) => front.push((nodes.last().id, m)),
            _ => front,
        }
    }
}

/// Whom someone met: identifiers and meanings, in the same order.
pub struct Met {
    pub ids: Vec<u128>,
    pub meanings: Vec<Vec<u32>>,
}

/// Whom someone met, out of the entities of a space.
pub fn met_entities(graph: &SpaceGraph, labels: &Vec<String>) -> (r: Met)
    requires
        graph.wf(),
    ensures
        r.ids@ == met(graph.nodes(), texts(labels@)).map_values(|x: (u128, Seq<u32>)| x.0),
        vectors(r.meanings@) == met(graph.nodes(), texts(labels@)).map_values(
            |x: (u128, Seq<u32>)| x.1,
        ),
{
    let ghost nodes = graph.nodes();
    let ghost all = texts(labels@);
    let n: usize = graph.entity_count();
    let mut ids: Vec<u128> = Vec::new();
    let mut meanings: Vec<Vec<u32>> = Vec::new();
    let ghost first = |x: (u128, Seq<u32>)| x.0;
    let ghost second = |x: (u128, Seq<u32>)| x.1;
    let mut i: usize = 0;
    proof {
        assert(ids@ =~= met(nodes.take(0), all).map_values(first));
        assert(vectors(meanings@) =~= met(nodes.take(0), all).map_values(second));
    }
    while i < n
        invariant
            i <= n,
            n == nodes.len(),
            graph.wf(),
            nodes == graph.nodes(),
            all == texts(labels@),
            first == (|x: (u128, Seq<u32>)| x.0),
            second == (|x: (u128, Seq<u32>)| x.1),
            ids@ == met(nodes.take(i as int), all).map_values(first),
            vectors(meanings@) == met(nodes.take(i as int), all).map_values(second),
        decreases n - i,
    {
        let ghost front = met(nodes.take(i as int), all);
        proof {
            assert(nodes.take(i + 1).drop_last() =~= nodes.take(i as int));
            assert(nodes.take(i + 1).last() == nodes[i as int]);
        }
        let e = graph.entity_at(i);
        if let Some(m) = &e.embedding {
            if contains_text(labels, e.label.as_str()) {
                let ghost before = meanings@;
                ids.push(e.id);
                meanings.push(copy_vector(m));
                proof {
                    let one = (e@.id, m@);
                    assert(front.push(one).map_values(first) =~= front.map_values(first).push(
                        one.0,
                    ));
                    assert(front.push(one).map_values(second) =~= front.map_values(second).push(
                        one.1,
                    ));
                    assert(vectors(meanings@) =~= vectors(before).push(m@));
                }
            }
        }
        i = i + 1;
    }
    proof {
        assert(nodes.take(i as int) =~= nodes);
    }
    Met { ids, meanings }
}

/// The entities of a space once `gathered` has gathered at those that `ids` names, in turn, at
/// the time `at`.
pub open spec fn visited(
    nodes: Seq<EntityView>,
    index: Map<u128, usize>,
    ids: Seq<u128>,
    gathered: Seq<Seq<u32>>,
    at: Timestamp,
) -> Seq<EntityView>
    decreases ids.len(),
{
    if ids.len() == 0 {
        nodes
    } else {
        let front = visited(nodes, index, ids.drop_last(), gathered, at);
        if index.contains_key(ids.last()) {
            let i = index[ids.last()] as int;
            front.update(
                i,
                EntityView {
                    activity_vec: Some(gathered[ids.len() - 1]),
                    last_active: at,
                    ..front[i]
                },
            )
        } else {
            front
        }
    }
}

/// What gathers at entities changes nothing else of them but when they were last active: they
/// stay in their places.
pub proof fn visiting_keeps_entities(
    nodes: Seq<EntityView>,
    index: Map<u128, usize>,
    ids: Seq<u128>,
    gathered: Seq<Seq<u32>>,
    at: Timestamp,
)
    requires
        forall|k: u128| #[trigger] index.contains_key(k) ==> index[k] < nodes.len(),
    ensures
        visited(nodes, index, ids, gathered, at).len() == nodes.len(),
        forall|i: int|
            0 <= i < nodes.len() ==> (#[trigger] visited(nodes, index, ids, gathered, at)[i])
                == (EntityView {
                activity_vec: visited(nodes, index, ids, gathered, at)[i].activity_vec,
                last_active: visited(nodes, index, ids, gathered, at)[i].last_active,
                ..nodes[i]
            }),
    decreases ids.len(),
{
    if ids.len() > 0 {
        visiting_keeps_entities(nodes, index, ids.drop_last(), gathered, at);
    }
}

/// Lets interests gather at the entities that `ids` names, at the given time.
fn visit(graph: &mut SpaceGraph, ids: &Vec<u128>, gathered: &Vec<Vec<u32>>, at: Timestamp)
    requires
        old(graph).wf(),
        ids@.len() == gathered@.len(),
    ensures
        final(graph).wf(),
        final(graph).edges() == old(graph).edges(),
        final(graph).index() == old(graph).index(),
        final(graph).nodes() == visited(
            old(graph).nodes(),
            old(graph).index(),
            ids@,
            vectors(gathered@),
            at,
        ),
{
    let mut i: usize = 0;
    while i < ids.len()
        invariant
            i <= ids@.len(),
            ids@.len() == gathered@.len(),
            graph.wf(),
            graph.edges() == old(graph).edges(),
            graph.index() == old(graph).index(),
            graph.nodes() == visited(
                old(graph).nodes(),
                old(graph).index(),
                ids@.take(i as int),
                vectors(gathered@),
                at,
            ),
        decreases ids@.len() - i,
    {
        proof {
            assert(ids@.take(i + 1).drop_last() =~= ids@.take(i as int));
            assert(vectors(gathered@)[i as int] == gathered@[i as int]@);
        }
        graph.update_entity_activity(&ids[i], copy_vector(&gathered[i]), at);
        i = i + 1;
    }
    proof {
        assert(ids@.take(i as int) =~= ids@);
    }
}

/// Why an encounter is not recorded.
#[derive(Clone, Copy, Debug, PartialEq, Eq, Structural)]
pub enum EncounterError {
    /// The report is refused.
    Refused(RequestError),
    /// There is no identity with this identifier.
    Unknown(u128),
}

impl EncounterError {
    /// What is said of an encounter that is not recorded.
    pub fn message(&self) -> (r: String)
        ensures
            r@ == match *self {
                EncounterError::Refused(e) => refusal(e),
                EncounterError::Unknown(id) => "identity "@ + hyphenated(id) + " not found"@,
            },
    {
        match self {
            EncounterError::Refused(e) => e.message(),
            EncounterError::Unknown(id) => missing_identity(*id),
        }
    }
}

impl EncounterRequest {
    /// Why the encounter is not recorded, if it is not, for whoever is `known` under the
    /// identifier.
    pub open spec fn fault(self, known: Option<Identity>) -> Option<EncounterError> {
        match encounter_fault(self.near_labels@.len(), self.interest_text@) {
            Some(e) => Some(EncounterError::Refused(e)),
            None => if known is Some {
                None
            } else {
                Some(EncounterError::Unknown(self.user_id))
            },
        }
    }

    /// The identifiers of the entities of a space that were met.
    pub open spec fn met_ids(self, nodes: Seq<EntityView>) -> Seq<u128> {
        met(nodes, texts(self.near_labels@)).map_values(|x: (u128, Seq<u32>)| x.0)
    }

    /// The meanings of the entities of a space that were met.
    pub open spec fn met_meanings(self, nodes: Seq<EntityView>) -> Seq<Seq<u32>> {
        met(nodes, texts(self.near_labels@)).map_values(|x: (u128, Seq<u32>)| x.1)
    }
}

/// The encounter that `req` reports was recorded at the time `at`: interests have gathered at
/// those that were met, every meeting has been counted, and the identity has taken it in.
pub open spec fn recorded(
    req: EncounterRequest,
    gathered: Seq<Seq<u32>>,
    blended: Seq<u32>,
    at: Timestamp,
    before: (SpaceGraph, Activity, Identity),
    after: (SpaceGraph, Activity, Identity),
) -> bool {
    let nodes = before.0.nodes();
    let labels = texts(req.near_labels@);
    &&& after.0.index() == before.0.index()
    &&& after.0.nodes() == visited(nodes, before.0.index(), req.met_ids(nodes), gathered, at)
    &&& forall|l: Seq<char>|
        count_of(after.1@, l) == count_of(before.1@, l) + #[trigger] occurrences(labels, l)
    &&& forall|l: Seq<char>| #[trigger]
        after.1@.contains_key(l) <==> before.1@.contains_key(l) || labels.contains(l)
    &&& after.2@ == after_encounter(
        before.2@,
        req.position@,
        labels,
        req.met_meanings(nodes),
        req.interest_text@,
        blended,
        at,
    )
}

/// Records the encounter that is reported, at the given time, and returns who reported it as that
/// identity is afterwards. `gathered` is what has then gathered at each entity that was met, and
/// `blended` what the interests become. Nothing happens where the report is refused, nor where
/// nobody is known under the identifier.
pub fn post_encounter_at(
    graph: &mut SpaceGraph,
    activity: &mut Activity,
    known: Option<Identity>,
    req: EncounterRequest,
    gathered: &Vec<Vec<u32>>,
    blended: Vec<u32>,
    at: Timestamp,
) -> (r: Result<Identity, EncounterError>)
    requires
        old(graph).wf(),
        old(activity).wf(),
        req.fault(known) is None ==> {
            &&& gathered@.len() == req.met_ids(old(graph).nodes()).len()
            &&& forall|l: Seq<char>|
                count_of(old(activity)@, l) + #[trigger] occurrences(texts(req.near_labels@), l)
                    <= u32::MAX
        },
    ensures
        final(graph).wf(),
        final(activity).wf(),
        final(graph).edges() == old(graph).edges(),
        match r {
            Ok(i) => {
                &&& req.fault(known) is None
                &&& known->0.wf() ==> i.wf()
                &&& recorded(
                    req,
                    vectors(gathered@),
                    blended@,
                    at,
                    (*old(graph), *old(activity), known->0),
                    (*final(graph), *final(activity), i),
                )
            },
            Err(e) => {
                &&& req.fault(known) == Some(e)
                &&& final(graph).nodes() == old(graph).nodes()
                &&& final(graph).index() == old(graph).index()
                &&& final(activity)@ == old(activity)@
            },
        },
{
    if let Err(e) = req.check() {
        return Err(EncounterError::Refused(e));
    }
    let mut identity: Identity = match known {
        Some(i) => i,
        None => {
            return Err(EncounterError::Unknown(req.user_id));
        },
    };
    let met = met_entities(graph, &req.near_labels);
    visit(graph, &met.ids, gathered, at);
    activity.record_all(&req.near_labels);
    identity.encounter_at(
        req.position.as_str(),
        req.near_labels,
        &met.meanings,
        req.interest_text,
        blended,
        at,
    );
    Ok(identity)
}

/// Records the encounter that is reported, now.
pub fn post_encounter(
    graph: &mut SpaceGraph,
    activity: &mut Activity,
    known: Option<Identity>,
    req: EncounterRequest,
    gathered: &Vec<Vec<u32>>,
    blended: Vec<u32>,
) -> (r: Result<Identity, EncounterError>)
    requires
        old(graph).wf(),
        old(activity).wf(),
        req.fault(known) is None ==> {
            &&& gathered@.len() == req.met_ids(old(graph).nodes()).len()
            &&& forall|l: Seq<char>|
                count_of(old(activity)@, l) + #[trigger] occurrences(texts(req.near_labels@), l)
                    <= u32::MAX
        },
    ensures
        final(graph).wf(),
        final(activity).wf(),
        final(graph).edges() == old(graph).edges(),
        match r {
            Ok(i) => {
                &&& req.fault(known) is None
                &&& known->0.wf() ==> i.wf()
                &&& i.last_seen.plain()
                &&& recorded(
                    req,
                    vectors(gathered@),
                    blended@,
                    i.last_seen,
                    (*old(graph), *old(activity), known->0),
                    (*final(graph), *final(activity), i),
                )
            },
            Err(e) => {
                &&& req.fault(known) == Some(e)
                &&& final(graph).nodes() == old(graph).nodes()
                &&& final(graph).index() == old(graph).index()
                &&& final(activity)@ == old(activity)@
            },
        },
{
    let at = now();
    post_encounter_at(graph, activity, known, req, gathered, blended, at)
}

/// What someone said, and under which name.
#[derive(Debug)]
pub struct Utterance {
    pub text: String,
    pub author: String,
}

/// The name under which something is said: without white space around it, and cut where it is
/// long; a wanderer's, where there is none.
pub open spec fn author_of(author: Option<Seq<char>>) -> Seq<char> {
    let name = first_chars(
        trimmed(
            match author {
                Some(a) => a,
                None => "wanderer"@,
            },
        ),
        AUTHOR_LIMIT as nat,
    );
    if name.len() == 0 {
        "wanderer"@
    } else {
        name
    }
}

/// What can be said: something, and not too much.
pub open spec fn sayable(text: Seq<char>) -> bool {
    trimmed(text).len() > 0 && byte_len(trimmed(text)) <= MESSAGE_LIMIT
}

/// Prepares something to be said. There is nothing where it cannot be said.
pub fn prepare_message(text: &str, author: Option<&str>) -> (r: Option<Utterance>)
    ensures
        match r {
            Some(u) => sayable(text@) && u.text@ == trimmed(text@) && u.author@ == author_of(
                match author {
                    Some(a) => Some(a@),
                    None => None,
                },
            ),
            None => !sayable(text@),
        },
{
    let text: String = trim(text);
    if text.as_str().is_empty() || count_bytes(text.as_str()) > MESSAGE_LIMIT {
        return None;
    }
    let name: String = match author {
        Some(a) => trim(a),
        None => trim("wanderer"),
    };
    let name: String = take_chars(name.as_str(), AUTHOR_LIMIT);
    let author: String = if name.as_str().is_empty() {
        "wanderer".to_owned()
    } else {
        name
    };
    Some(Utterance { text, author })
}

/// Whoever says something has a name, and not too long a one.
pub proof fn authors_are_named(author: Option<Seq<char>>)
    ensures
        1 <= author_of(author).len() <= AUTHOR_LIMIT,
{
    reveal_strlit("wanderer");
}

proof fn trailing_settles(s: Seq<char>)
    ensures
        without_trailing_white(s).len() > 0 ==> !is_white(without_trailing_white(s).last()),
        without_trailing_white(s).len() <= s.len(),
        without_trailing_white(s).len() > 0 ==> without_trailing_white(s)[0] == s[0],
        without_trailing_white(s).len() == 0 || s.len() > 0,
    decreases s.len(),
{
    if s.len() > 0 && is_white(s.last()) {
        trailing_settles(s.drop_last());
    }
}

proof fn leading_settles(s: Seq<char>)
    ensures
        without_leading_white(s).len() > 0 ==> !is_white(without_leading_white(s)[0]),
    decreases s.len(),
{
    if s.len() > 0 && is_white(s[0]) {
        leading_settles(s.skip(1));
    }
}

/// What has been prepared can be said as it is: preparing it again changes nothing.
pub proof fn prepared_messages_stay(text: Seq<char>)
    requires
        sayable(text),
    ensures
        trimmed(trimmed(text)) == trimmed(text),
        sayable(trimmed(text)),
{
    leading_settles(text);
    trailing_settles(without_leading_white(text));
}

/// A header of a request.
#[derive(Debug)]
pub enum Header {
    Absent,
    /// It is there, but not as visible ASCII text.
    Unreadable,
    Text(String),
}

/// What a header says.
pub open spec fn header_text(h: Header) -> Option<Seq<char>> {
    match h {
        Header::Text(s) => Some(s@),
        _ => None,
    }
}

/// The text that should be the address of whoever asks: the first part of what the outermost
/// relay says, or else of what others say.
pub open spec fn client_part(connecting: Header, forwarded: Header) -> Option<Seq<char>> {
    let chosen = if connecting is Absent {
        forwarded
    } else {
        connecting
    };
    match header_text(chosen) {
        Some(s) => Some(trimmed(before_first(s, ','))),
        None => None,
    }
}

/// The text that should be the address of whoever asks.
pub fn client_text(connecting: &Header, forwarded: &Header) -> (r: Option<String>)
    ensures
        optional_text(r) == client_part(*connecting, *forwarded),
{
    let chosen = match connecting {
        Header::Absent => forwarded,
        _ => connecting,
    };
    match chosen {
        Header::Text(s) => {
            let part: String = take_before(s.as_str(), ',');
            Some(trim(part.as_str()))
        },
        _ => None,
    }
}

/// A text of four octets, as they are written.
pub open spec fn is_dotted(t: Seq<char>) -> bool {
    exists|o: Seq<u8>| o.len() == 4 && t == #[trigger] dotted(o)
}

/// Whoever asks has this address, where `part` is the text that should be the address and `newer`
/// what it reads as, as an address of the newer kind. Whoever has none is at this machine.
pub open spec fn is_client(
    part: Option<Seq<char>>,
    newer: Option<Seq<u16>>,
    a: HostAddress,
) -> bool {
    match part {
        Some(t) if is_dotted(t) => a matches HostAddress::V4(o) && t == dotted(o@),
        Some(_) if newer is Some => a matches HostAddress::V6(s) && s@ == newer->0,
        _ => a matches HostAddress::V4(o) && o@ == seq![127u8, 0u8, 0u8, 1u8],
    }
}

/// The address of whoever asks, given what the text that should be the address reads as, as an
/// address of the newer kind. Where no address can be read, it is that of this machine.
pub fn client_address(connecting: &Header, forwarded: &Header, newer: Option<[u16; 8]>) -> (r:
    HostAddress)
    ensures
        is_client(
            client_part(*connecting, *forwarded),
            match newer {
                Some(s) => Some(s@),
                None => None,
            },
            r,
        ),
{
    let local: [u8; 4] = [127, 0, 0, 1];
    proof {
        assert(local@ =~= seq![127u8, 0u8, 0u8, 1u8]);
    }
    let text: String = match client_text(connecting, forwarded) {
        Some(t) => t,
        None => {
            return HostAddress::V4(local);
        },
    };
    match read_host(text.as_str()) {
        Some(a) => {
            proof {
                let o = a->V4_0;
                assert(o@.len() == 4);
                assert(is_dotted(text@));
            }
            a
        },
        None => match newer {
            Some(s) => HostAddress::V6(s),
            None => HostAddress::V4(local),
        },
    }
}

/// What is said of an entity that is not there.
pub fn missing_entity(id: u128) -> (r: String)
    ensures
        r@ == "entity "@ + hyphenated(id) + " not found"@,
{
    let start: String = joined("entity ", id_text(id).as_str());
    joined(start.as_str(), " not found")
}

/// What is said of an identity that is not there.
pub fn missing_identity(id: u128) -> (r: String)
    ensures
        r@ == "identity "@ + hyphenated(id) + " not found"@,
{
    let start: String = joined("identity ", id_text(id).as_str());
    joined(start.as_str(), " not found")
}

/// A new entity is refused just when its label has more than 120 characters or its text more than
/// 4000 bytes; a label that is too long is named first.
pub proof fn only_the_long_are_refused(label: Seq<char>, text: Option<Seq<char>>)
    ensures
        ({
            let long = text is Some && byte_len(text->0) > 4000;
            &&& entity_fault(label, text) is None <==> label.len() <= 120 && !long
            &&& entity_fault(label, text) == Some(RequestError::LabelTooLong) <==> label.len() > 120
            &&& entity_fault(label, text) == Some(RequestError::TextTooLong) <==> label.len() <= 120
                && long
        }),
{
}

/// The report of an encounter is refused just when it names more than 50 labels or its text has
/// more than 1000 bytes; too many labels are named first.
pub proof fn only_long_reports_are_refused(labels: nat, interest_text: Seq<char>)
    ensures
        ({
            let long = byte_len(interest_text) > 1000;
            let fault = encounter_fault(labels, interest_text);
            &&& fault is None <==> labels <= 50 && !long
            &&& fault == Some(RequestError::TooManyLabels) <==> labels > 50
            &&& fault == Some(RequestError::InterestTooLong) <==> labels <= 50 && long
        }),
{
}

/// An entity's meaning is taken from its text, and from its label where there is none; it is a
/// service where no kind is asked for, and has no end where no duration is.
pub proof fn what_is_not_asked_for_is_usual(
    req: EntityRequest,
    text: Seq<char>,
    meaning: Seq<u32>,
    id: u128,
    at: Timestamp,
)
    ensures
        ({
            let e = req.asked_for(meaning, id, at);
            &&& e.id == id && e.label == req.label@ && e.last_active == at
            &&& e.embedding == Some(meaning) && e.activity_vec == Some(meaning)
            &&& req.kind is None ==> e.kind == EntityKind::Service
            &&& req.kind matches Some(k) ==> e.kind == k
            &&& req.duration is None ==> e.expires_at is None
            &&& req.duration is Some && i64::MIN <= at.secs + req.duration->0 <= i64::MAX
                ==> e.expires_at is Some && (e.expires_at->0).secs == at.secs + req.duration->0
                && (e.expires_at->0).nanos == at.nanos
        }),
        seed_of(req.label@, None) == req.label@,
        seed_of(req.label@, Some(text)) == text,
{
}

/// A request that is refused is refused whatever its duration; one that is not fails just where
/// no calendar date can be given for the end.
pub proof fn refusal_comes_before_the_end(
    label: Seq<char>,
    text: Option<Seq<char>>,
    duration: Option<i64>,
    at: Timestamp,
)
    ensures
        ({
            let fault = post_fault(label, text, duration, at);
            let ends = duration is Some && !(-8_334_601_228_800 <= at.secs + duration->0
                <= 8_210_266_876_799);
            &&& entity_fault(label, text) matches Some(e) ==> fault == Some(PostError::Refused(e))
            &&& entity_fault(label, text) is None && ends ==> fault == Some(PostError::NoEnd)
            &&& entity_fault(label, text) is None && !ends ==> fault is None
        }),
{
}

proof fn met_up_to(nodes: Seq<EntityView>, labels: Seq<Seq<char>>, n: nat)
    requires
        n <= nodes.len(),
    ensures
        met(nodes.take(n as int), labels) == kept(
            n,
            |i: int| nodes[i].embedding is Some && labels.contains(nodes[i].label),
            |i: int| (nodes[i].id, nodes[i].embedding->0),
        ),
    decreases n,
{
    let keep = |i: int| nodes[i].embedding is Some && labels.contains(nodes[i].label);
    let f = |i: int| (nodes[i].id, nodes[i].embedding->0);
    kept_grows(n, keep, f);
    if n > 0 {
        met_up_to(nodes, labels, (n - 1) as nat);
        assert(nodes.take(n as int).drop_last() =~= nodes.take(n - 1));
    }
}

/// Whoever has a meaning and bears one of the labels was met: all of them, in their order.
pub proof fn all_who_bear_a_label_are_met(nodes: Seq<EntityView>, labels: Seq<Seq<char>>)
    ensures
        met(nodes, labels) == kept(
            nodes.len(),
            |i: int| nodes[i].embedding is Some && labels.contains(nodes[i].label),
            |i: int| (nodes[i].id, nodes[i].embedding->0),
        ),
{
    assert(nodes.take(nodes.len() as int) =~= nodes);
    met_up_to(nodes, labels, nodes.len());
}

/// The identifier at `k` leads to the entity at `p`.
pub open spec fn leads_to(index: Map<u128, usize>, ids: Seq<u128>, k: int, p: int) -> bool {
    0 <= k < ids.len() && index.contains_key(ids[k]) && index[ids[k]] == p
}

/// What gathers at an entity is what was last given for an identifier that leads to it; where
/// none of the identifiers does, it stays as it was.
pub proof fn visits_reach_those_who_were_met(
    nodes: Seq<EntityView>,
    index: Map<u128, usize>,
    ids: Seq<u128>,
    gathered: Seq<Seq<u32>>,
    at: Timestamp,
    p: int,
)
    requires
        forall|k: u128| #[trigger] index.contains_key(k) ==> index[k] < nodes.len(),
        0 <= p < nodes.len(),
    ensures
        (forall|k: int| !#[trigger] leads_to(index, ids, k, p)) ==> visited(
            nodes,
            index,
            ids,
            gathered,
            at,
        )[p] == nodes[p],
        forall|k: int|
            #[trigger] leads_to(index, ids, k, p) && (forall|l: int|
                l > k ==> !#[trigger] leads_to(index, ids, l, p)) ==> visited(
                nodes,
                index,
                ids,
                gathered,
                at,
            )[p] == (EntityView { activity_vec: Some(gathered[k]), last_active: at, ..nodes[p] }),
    decreases ids.len(),
{
    visiting_keeps_entities(nodes, index, ids, gathered, at);
    if ids.len() > 0 {
        let front = ids.drop_last();
        visits_reach_those_who_were_met(nodes, index, front, gathered, at, p);
        visiting_keeps_entities(nodes, index, front, gathered, at);
        let last = ids.len() - 1;
        let all = visited(nodes, index, ids, gathered, at);
        let short = visited(nodes, index, front, gathered, at);
        assert forall|k: int| k < last implies #[trigger] leads_to(index, front, k, p) == leads_to(
            index,
            ids,
            k,
            p,
        ) by {
            if 0 <= k {
                assert(front[k] == ids[k]);
            }
        }
        if forall|k: int| !#[trigger] leads_to(index, ids, k, p) {
            assert(!leads_to(index, ids, last, p));
            assert forall|k: int| !#[trigger] leads_to(index, front, k, p) by {
                if k < last {
                    assert(!leads_to(index, ids, k, p));
                }
            }
        }
        assert forall|k: int|
            #[trigger] leads_to(index, ids, k, p) && (forall|l: int|
                l > k ==> !#[trigger] leads_to(index, ids, l, p)) implies all[p] == (EntityView {
            activity_vec: Some(gathered[k]),
            last_active: at,
            ..nodes[p]
        }) by {
            if k < last {
                assert(!leads_to(index, ids, last, p));
                assert(leads_to(index, front, k, p));
                assert forall|l: int| l > k implies !#[trigger] leads_to(index, front, l, p) by {
                    if l < last {
                        assert(!leads_to(index, ids, l, p));
                    }
                }
                assert(all[p] == short[p]);
            }
        }
    }
}

/// A recorded encounter is counted for every label as often as it was named, is the last that the
/// identity remembers, and leaves every entity in its place.
pub proof fn a_recorded_encounter_shows(
    req: EncounterRequest,
    gathered: Seq<Seq<u32>>,
    blended: Seq<u32>,
    at: Timestamp,
    before: (SpaceGraph, Activity, Identity),
    after: (SpaceGraph, Activity, Identity),
    label: Seq<char>,
)
    requires
        before.0.wf(),
        recorded(req, gathered, blended, at, before, after),
    ensures
        count_of(after.1@, label) == count_of(before.1@, label) + texts(req.near_labels@).filter(
            |x: Seq<char>| x == label,
        ).len(),
        after.2@.history.len() > 0,
        after.2@.history.last() == (EncounterView {
            timestamp: at,
            position: req.position@,
            near_labels: texts(req.near_labels@),
            interest_text: req.interest_text@,
        }),
        after.2@.id == before.2@.id,
        after.2@.last_seen == at,
        after.0.nodes().len() == before.0.nodes().len(),
        after.0.index() == before.0.index(),
        after.0.nodes() == visited(
            before.0.nodes(),
            before.0.index(),
            met(before.0.nodes(), texts(req.near_labels@)).map_values(
                |x: (u128, Seq<u32>)| x.0,
            ),
            gathered,
            at,
        ),
{
    let nodes = before.0.nodes();
    let labels = texts(req.near_labels@);
    occurrences_are_all_counted(labels, label);
    assert(occurrences(labels, label) == labels.filter(|x: Seq<char>| x == label).len());
    an_encounter_is_remembered(
        before.2@,
        req.position@,
        labels,
        req.met_meanings(nodes),
        req.interest_text@,
        blended,
        at,
    );
    visiting_keeps_entities(nodes, before.0.index(), req.met_ids(nodes), gathered, at);
}

/// An encounter is recorded just when the report is not refused and someone is known under the
/// identifier; a refusal comes first.
pub proof fn only_the_known_meet(req: EncounterRequest, known: Option<Identity>)
    ensures
        ({
            let refused = encounter_fault(req.near_labels@.len(), req.interest_text@);
            &&& refused matches Some(e) ==> req.fault(known) == Some(EncounterError::Refused(e))
            &&& refused is None && known is None ==> req.fault(known) == Some(
                EncounterError::Unknown(req.user_id),
            )
            &&& refused is None && known is Some ==> req.fault(known) is None
        }),
{
}

/// Something is said under the first 24 characters of the name that is given, without white space
/// around it; where nothing is left of it or none is given, under the name of a wanderer.
pub proof fn names_are_cut_and_never_empty(name: Seq<char>)
    ensures
        author_of(None) == "wanderer"@,
        trimmed(name).len() == 0 ==> author_of(Some(name)) == "wanderer"@,
        0 < trimmed(name).len() <= 24 ==> author_of(Some(name)) == trimmed(name),
        trimmed(name).len() > 24 ==> author_of(Some(name)) == trimmed(name).take(24),
{
    reveal_strlit("wanderer");
    let w = "wanderer"@;
    assert(!is_white(w[0]) && !is_white(w[7]));
    assert(without_leading_white(w) == w);
    assert(without_trailing_white(w) == w);
}

/// Anything can be said that is more than white space and, without the white space around it,
/// takes no more than 280 bytes.
pub proof fn anything_short_can_be_said(text: Seq<char>)
    ensures
        sayable(text) <==> trimmed(text).len() > 0 && byte_len(trimmed(text)) <= 280,
{
}

/// The outermost relay is believed wherever it says anything, readable or not; others only where
/// it says nothing. Of what is said, the part before the first comma counts.
pub proof fn the_outermost_relay_counts(connecting: Header, forwarded: Header, other: Header)
    ensures
        !(connecting is Absent) ==> client_part(connecting, forwarded) == client_part(
            connecting,
            other,
        ),
        connecting is Absent ==> client_part(connecting, forwarded) == client_part(
            forwarded,
            Header::Absent,
        ),
        connecting is Unreadable ==> client_part(connecting, forwarded) is None,
        client_part(Header::Absent, Header::Absent) is None,
        connecting matches Header::Text(s) ==> client_part(connecting, forwarded) == Some(
            trimmed(before_first(s@, ',')),
        ),
{
}

/// Whoever asks has the address that is said, in whichever form it can be read, the older form
/// first; where nothing is said or nothing can be read of it, the address of this machine.
pub proof fn everyone_has_an_address(
    part: Option<Seq<char>>,
    newer: Option<Seq<u16>>,
    o: [u8; 4],
    a: HostAddress,
)
    requires
        is_client(part, newer, a),
    ensures
        part == Some(dotted(o@)) ==> (a matches HostAddress::V4(p) && p@ == o@),
        part is None ==> (a matches HostAddress::V4(p) && p@ == seq![127u8, 0u8, 0u8, 1u8]),
        part is Some && !is_dotted(part->0) && newer is None ==> (a matches HostAddress::V4(p) && p@
            == seq![127u8, 0u8, 0u8, 1u8]),
        part is Some && !is_dotted(part->0) && newer is Some ==> (a matches HostAddress::V6(s) && s@
            == newer->0),
{
    if part == Some(dotted(o@)) {
        assert(o@.len() == 4);
        assert(is_dotted(dotted(o@)));
        let p = a->V4_0;
        assert(p@.len() == 4);
        dotted_is_unique(p@, o@);
    }
}

/// What is told of an entity is who it is, what it is called, of what kind it is, and the texts of
/// its times.
pub proof fn a_summary_tells_of_its_entity(e: EntityView)
    ensures
        ({
            let s = entity_summary_of(e);
            &&& s.id == e.id && s.label == e.label && s.kind == kind_text(e.kind)
            &&& s.last_active == rfc3339_text(e.last_active.secs, e.last_active.nanos)
            &&& e.expires_at is None ==> s.expires_at is None
            &&& e.expires_at matches Some(t) ==> s.expires_at == Some(
                rfc3339_text(t.secs, t.nanos),
            )
        }),
{
}

} // verus!
