//! What is kept between runs: rows of text, and the values that they stand for.
use crate::graph::{copy_optional_vector, vector_view, Entity, EntityKind, EntityView};
use crate::ids::{fresh_id, hyphenated, id_text, is_random, parse_id, parsed_id};
use crate::order::{
    kept, kept_grows, picked, picked_is_sorted, stable_order, stable_sort, stable_sort_ascending,
    stable_sort_keeps_ties, stable_sort_permutes,
};
use crate::stamp::{
    now, parse_time, parsed_time, rank_orders, rfc3339_text, shifted, to_rfc3339, Timestamp, FIRST_SECOND,
    LAST_SECOND,
};
use crate::text::{optional_text, same_text};
use vstd::prelude::*;

verus! {

/// Messages are kept for this many hours.
pub const MESSAGE_HOURS: i64 = 2;

/// A peer that has not been heard of for this many hours is given up.
pub const PEER_HOURS: i64 = 24;

/// The name of a kind of entity.
pub open spec fn kind_text(k: EntityKind) -> Seq<char> {
    match k {
        EntityKind::Human => "Human"@,
        EntityKind::AI => "AI"@,
        EntityKind::Service => "Service"@,
        EntityKind::Stream => "Stream"@,
        EntityKind::Event => "Event"@,
        EntityKind::Data => "Data"@,
    }
}

/// The kind of entity that a stored name stands for. Streams, data and names that are not
/// known are services.
pub open spec fn stored_kind(name: Seq<char>) -> EntityKind {
    if name == "Human"@ {
        EntityKind::Human
    } else if name == "AI"@ {
        EntityKind::AI
    } else if name == "Event"@ {
        EntityKind::Event
    } else {
        EntityKind::Service
    }
}

/// The kind of entity that comes back after a kind has been stored.
pub open spec fn settled_kind(k: EntityKind) -> EntityKind {
    match k {
        EntityKind::Stream => EntityKind::Service,
        EntityKind::Data => EntityKind::Service,
        _ => k,
    }
}

/// The name of a kind of entity.
pub fn kind_name(k: EntityKind) -> (r: String)
    ensures
        r@ == kind_text(k),
{
    match k {
        EntityKind::Human => "Human".to_owned(),
        EntityKind::AI => "AI".to_owned(),
        EntityKind::Service => "Service".to_owned(),
        EntityKind::Stream => "Stream".to_owned(),
        EntityKind::Event => "Event".to_owned(),
        EntityKind::Data => "Data".to_owned(),
    }
}

/// The kind of entity that a stored name stands for.
pub fn kind_from_name(name: &str) -> (r: EntityKind)
    ensures
        r == stored_kind(name@),
{
    if same_text(name, "Human") {
        EntityKind::Human
    } else if same_text(name, "AI") {
        EntityKind::AI
    } else if same_text(name, "Event") {
        EntityKind::Event
    } else {
        EntityKind::Service
    }
}

/// A kind that is stored and read back is the same, save that streams and data become services.
pub proof fn stored_kind_settles(k: EntityKind)
    ensures
        stored_kind(kind_text(k)) == settled_kind(k),
        settled_kind(settled_kind(k)) == settled_kind(k),
{
    reveal_strlit("Human");
    reveal_strlit("AI");
    reveal_strlit("Service");
    reveal_strlit("Stream");
    reveal_strlit("Event");
    reveal_strlit("Data");
    assert("AI"@[0] == 'A');
    assert("Human"@[0] == 'H');
    assert("Service"@[0] == 'S');
    assert("Stream"@[0] == 'S');
    assert("Event"@[0] == 'E');
    assert("Data"@[0] == 'D');
}

/// A stored entity. The vectors are texts whose form is not of interest here.
#[derive(Debug)]
pub struct EntityRow {
    pub id: String,
    pub label: String,
    pub kind: String,
    pub embedding: String,
    pub activity_vec: Option<String>,
    pub last_active: String,
    pub expires_at: Option<String>,
}

/// A stored entity, as a mathematical value.
#[verifier::ext_equal]
pub struct EntityRowView {
    pub id: Seq<char>,
    pub label: Seq<char>,
    pub kind: Seq<char>,
    pub embedding: Seq<char>,
    pub activity_vec: Option<Seq<char>>,
    pub last_active: Seq<char>,
    pub expires_at: Option<Seq<char>>,
}

impl View for EntityRow {
    type V = EntityRowView;

    open spec fn view(&self) -> EntityRowView {
        EntityRowView {
            id: self.id@,
            label: self.label@,
            kind: self.kind@,
            embedding: self.embedding@,
            activity_vec: optional_text(self.activity_vec),
            last_active: self.last_active@,
            expires_at: optional_text(self.expires_at),
        }
    }
}

/// The text of a point in time that may be missing.
pub open spec fn optional_time_text(t: Option<Timestamp>) -> Option<Seq<char>> {
    match t {
        Some(x) => Some(rfc3339_text(x.secs, x.nanos)),
        None => None,
    }
}

/// What a text reads as, as a point in time.
pub open spec fn read_time(s: Seq<char>) -> Option<Timestamp> {
    match parsed_time(s) {
        Some(t) => Some(Timestamp { secs: t.0, nanos: t.1 }),
        None => None,
    }
}

/// The row that an entity is stored as, given the texts of its vectors.
pub open spec fn row_of(
    e: EntityView,
    embedding: Seq<char>,
    activity_vec: Option<Seq<char>>,
) -> EntityRowView {
    EntityRowView {
        id: hyphenated(e.id),
        label: e.label,
        kind: kind_text(e.kind),
        embedding,
        activity_vec,
        last_active: rfc3339_text(e.last_active.secs, e.last_active.nanos),
        expires_at: optional_time_text(e.expires_at),
    }
}

/// The entity that a row stands for, given what its vectors read as. There is none where the
/// identifier cannot be read. An activity that cannot be read counts as `at`, and an end that
/// cannot be read as none.
pub open spec fn entity_of(
    row: EntityRowView,
    embedding: Option<Seq<u32>>,
    activity_vec: Option<Seq<u32>>,
    at: Timestamp,
) -> Option<EntityView> {
    match parsed_id(row.id) {
        None => None,
        Some(id) => Some(
            EntityView {
                id,
                kind: stored_kind(row.kind),
                label: row.label,
                embedding,
                activity_vec,
                last_active: match read_time(row.last_active) {
                    Some(t) => t,
                    None => at,
                },
                expires_at: match row.expires_at {
                    Some(s) => read_time(s),
                    None => None,
                },
            },
        ),
    }
}

/// The row that an entity is stored as, given the texts of its vectors. What is stored comes
/// back: reading the row gives the entity again, with its kind settled.
pub fn entity_row(e: &Entity, embedding: String, activity_vec: Option<String>) -> (r: EntityRow)
    requires
        e.last_active.valid(),
        e.expires_at matches Some(t) ==> t.valid(),
    ensures
        r@ == row_of(e@, embedding@, optional_text(activity_vec)),
        forall|at: Timestamp| #[trigger]
            entity_of(r@, e@.embedding, e@.activity_vec, at) == Some(settled(e@)),
{
    proof {
        stored_kind_settles(e.kind);
    }
    let expires_at: Option<String> = match e.expires_at {
        Some(t) => Some(to_rfc3339(t)),
        None => None,
    };
    EntityRow {
        id: id_text(e.id),
        label: e.label.clone(),
        kind: kind_name(e.kind),
        embedding,
        activity_vec,
        last_active: to_rfc3339(e.last_active),
        expires_at,
    }
}

/// The entity that a row stands for, given what its vectors read as.
pub fn entity_from_row(
    row: &EntityRow,
    embedding: Option<Vec<u32>>,
    activity_vec: Option<Vec<u32>>,
    at: Timestamp,
) -> (r: Option<Entity>)
    ensures
        match r {
            Some(e) => entity_of(row@, vector_view(embedding), vector_view(activity_vec), at)
                == Some(e@),
            None => entity_of(row@, vector_view(embedding), vector_view(activity_vec), at) is None,
        },
{
    let id: u128 = match parse_id(row.id.as_str()) {
        Some(id) => id,
        None => {
            return None;
        },
    };
    let last_active = match parse_time(row.last_active.as_str()) {
        Some(t) => t,
        None => at,
    };
    let expires_at: Option<Timestamp> = match &row.expires_at {
        Some(s) => parse_time(s.as_str()),
        None => None,
    };
    Some(
        Entity {
            id,
            kind: kind_from_name(row.kind.as_str()),
            label: row.label.clone(),
            embedding,
            activity_vec,
            last_active,
            expires_at,
        },
    )
}

/// A row together with what its vectors read as.
#[derive(Debug)]
pub struct StoredEntity {
    pub row: EntityRow,
    pub embedding: Option<Vec<u32>>,
    pub activity_vec: Option<Vec<u32>>,
}

/// The entities that rows stand for, in the order of the rows. Rows that stand for none are
/// left out.
pub open spec fn entities_of(rows: Seq<StoredEntity>, at: Timestamp) -> Seq<EntityView>
    decreases rows.len(),
{
    if rows.len() == 0 {
        Seq::empty()
    } else {
        let front = entities_of(rows.drop_last(), at);
        let s = rows.last();
        match entity_of(s.row@, vector_view(s.embedding), vector_view(s.activity_vec), at) {
            Some(e) => front.push(e),
            None => front,
        }
    }
}

/// The entities of a list, as mathematical values.
pub open spec fn entity_views(v: Seq<Entity>) -> Seq<EntityView> {
    v.map_values(|e: Entity| e@)
}

/// The entities that rows stand for. An activity that cannot be read counts as now.
pub fn load_all_entities(rows: &Vec<StoredEntity>) -> (r: Vec<Entity>)
    ensures
        exists|at: Timestamp| at.plain() && entity_views(r@) == #[trigger] entities_of(rows@, at),
{
    let at = now();
    entities_from_rows(rows, at)
}

/// The entities that rows stand for. An activity that cannot be read counts as `at`.
pub fn entities_from_rows(rows: &Vec<StoredEntity>, at: Timestamp) -> (r: Vec<Entity>)
    ensures
        entity_views(r@) == entities_of(rows@, at),
{
    let mut r: Vec<Entity> = Vec::new();
    let mut i: usize = 0;
    proof {
        assert(entity_views(r@) =~= entities_of(rows@.take(0), at));
    }
    while i < rows.len()
        invariant
            i <= rows@.len(),
            entity_views(r@) == entities_of(rows@.take(i as int), at),
        decreases rows@.len() - i,
    {
        let s = &rows[i];
        proof {
            assert(rows@.take(i + 1).drop_last() =~= rows@.take(i as int));
            assert(rows@.take(i + 1).last() == *s);
        }
        let read = entity_from_row(
            &s.row,
            copy_optional_vector(&s.embedding),
            copy_optional_vector(&s.activity_vec),
            at,
        );
        if let Some(e) = read {
            let ghost before = r@;
            r.push(e);
            proof {
                assert(entity_views(r@) =~= entity_views(before).push(e@));
            }
        }
        i = i + 1;
    }
    proof {
        assert(rows@.take(i as int) =~= rows@);
    }
    r
}

/// The entity that comes back after an entity has been stored.
pub open spec fn settled(e: EntityView) -> EntityView {
    EntityView { kind: settled_kind(e.kind), ..e }
}

/// A row, with what its vectors read as, was written for an entity.
pub open spec fn keeps(s: StoredEntity, e: EntityView) -> bool {
    &&& s.row@.id == hyphenated(e.id)
    &&& s.row@.label == e.label
    &&& forall|at: Timestamp| #[trigger]
        entity_of(s.row@, vector_view(s.embedding), vector_view(s.activity_vec), at) == Some(
            settled(e),
        )
}

/// A row was written for some entity.
pub open spec fn is_kept(s: StoredEntity) -> bool {
    exists|e: EntityView| keeps(s, e)
}

/// Two rows clash: they bear the same identifier or the same label.
pub open spec fn clash(s: StoredEntity, t: StoredEntity) -> bool {
    s.row@.id == t.row@.id || s.row@.label == t.row@.label
}

/// A table of entities: every row was written for one, and no two rows clash.
pub open spec fn is_table(rows: Seq<StoredEntity>) -> bool {
    &&& forall|i: int| 0 <= i < rows.len() ==> is_kept(#[trigger] rows[i])
    &&& forall|i: int, j: int|
        0 <= i < j < rows.len() ==> !clash(#[trigger] rows[i], #[trigger] rows[j])
}

/// The rows that do not clash with `s`.
pub open spec fn apart_from(rows: Seq<StoredEntity>, s: StoredEntity) -> Seq<StoredEntity>
    decreases rows.len(),
{
    if rows.len() == 0 {
        Seq::empty()
    } else if clash(rows.last(), s) {
        apart_from(rows.drop_last(), s)
    } else {
        apart_from(rows.drop_last(), s).push(rows.last())
    }
}

/// A table after a row was saved: it takes the place of those with which it clashes.
pub open spec fn after_save(rows: Seq<StoredEntity>, s: StoredEntity) -> Seq<StoredEntity> {
    apart_from(rows, s).push(s)
}

/// A table after the row with an identifier was deleted.
pub open spec fn after_delete(rows: Seq<StoredEntity>, id: Seq<char>) -> Seq<StoredEntity>
    decreases rows.len(),
{
    if rows.len() == 0 {
        Seq::empty()
    } else if rows.last().row@.id == id {
        after_delete(rows.drop_last(), id)
    } else {
        after_delete(rows.drop_last(), id).push(rows.last())
    }
}

proof fn apart_from_exactly(rows: Seq<StoredEntity>, s: StoredEntity, t: StoredEntity)
    ensures
        apart_from(rows, s).contains(t) <==> rows.contains(t) && !clash(t, s),
    decreases rows.len(),
{
    if rows.len() > 0 {
        let front = rows.drop_last();
        apart_from_exactly(front, s, t);
        let short = apart_from(front, s);
        let all = apart_from(rows, s);
        if all.contains(t) {
            let k = choose|k: int| 0 <= k < all.len() && all[k] == t;
            if k < short.len() {
                assert(short[k] == t);
                let j = choose|j: int| 0 <= j < front.len() && front[j] == t;
                assert(rows[j] == t);
            } else {
                assert(rows[rows.len() - 1] == t);
            }
        }
        if rows.contains(t) && !clash(t, s) {
            let j = choose|j: int| 0 <= j < rows.len() && rows[j] == t;
            if j < front.len() {
                assert(front[j] == t);
                let k = choose|k: int| 0 <= k < short.len() && short[k] == t;
                assert(all[k] == t);
            } else {
                assert(all[short.len() as int] == t);
            }
        }
    }
}

proof fn after_delete_exactly(rows: Seq<StoredEntity>, id: Seq<char>, t: StoredEntity)
    ensures
        after_delete(rows, id).contains(t) <==> rows.contains(t) && t.row@.id != id,
    decreases rows.len(),
{
    if rows.len() > 0 {
        let front = rows.drop_last();
        after_delete_exactly(front, id, t);
        let short = after_delete(front, id);
        let all = after_delete(rows, id);
        if all.contains(t) {
            let k = choose|k: int| 0 <= k < all.len() && all[k] == t;
            if k < short.len() {
                assert(short[k] == t);
                let j = choose|j: int| 0 <= j < front.len() && front[j] == t;
                assert(rows[j] == t);
            } else {
                assert(rows[rows.len() - 1] == t);
            }
        }
        if rows.contains(t) && t.row@.id != id {
            let j = choose|j: int| 0 <= j < rows.len() && rows[j] == t;
            if j < front.len() {
                assert(front[j] == t);
                let k = choose|k: int| 0 <= k < short.len() && short[k] == t;
                assert(all[k] == t);
            } else {
                assert(all[short.len() as int] == t);
            }
        }
    }
}

proof fn shorter_table(rows: Seq<StoredEntity>)
    requires
        rows.len() > 0,
        is_table(rows),
    ensures
        is_table(rows.drop_last()),
        is_kept(rows.last()),
        forall|t: StoredEntity| #[trigger]
            rows.drop_last().contains(t) ==> !clash(t, rows.last()),
{
    let front = rows.drop_last();
    assert forall|i: int| 0 <= i < front.len() implies is_kept(#[trigger] front[i]) by {
        assert(front[i] == rows[i]);
    }
    assert forall|i: int, j: int| 0 <= i < j < front.len() implies !clash(
        #[trigger] front[i],
        #[trigger] front[j],
    ) by {
        assert(front[i] == rows[i] && front[j] == rows[j]);
    }
    assert(rows[rows.len() - 1] == rows.last());
    assert forall|t: StoredEntity| #[trigger] front.contains(t) implies !clash(t, rows.last()) by {
        let i = choose|i: int| 0 <= i < front.len() && front[i] == t;
        assert(rows[i] == t);
    }
}

proof fn longer_table(rows: Seq<StoredEntity>, s: StoredEntity)
    requires
        is_table(rows),
        is_kept(s),
        forall|t: StoredEntity| #[trigger] rows.contains(t) ==> !clash(t, s),
    ensures
        is_table(rows.push(s)),
{
    let all = rows.push(s);
    assert forall|i: int| 0 <= i < all.len() implies is_kept(#[trigger] all[i]) by {
        if i < rows.len() {
            assert(all[i] == rows[i]);
        }
    }
    assert forall|i: int, j: int| 0 <= i < j < all.len() implies !clash(
        #[trigger] all[i],
        #[trigger] all[j],
    ) by {
        assert(all[i] == rows[i]);
        assert(rows.contains(rows[i]));
        if j < rows.len() {
            assert(all[j] == rows[j]);
        }
    }
}

proof fn apart_from_is_table(rows: Seq<StoredEntity>, s: StoredEntity)
    requires
        is_table(rows),
    ensures
        is_table(apart_from(rows, s)),
    decreases rows.len(),
{
    if rows.len() > 0 {
        let front = rows.drop_last();
        shorter_table(rows);
        apart_from_is_table(front, s);
        if !clash(rows.last(), s) {
            let short = apart_from(front, s);
            assert forall|t: StoredEntity| #[trigger] short.contains(t) implies !clash(
                t,
                rows.last(),
            ) by {
                apart_from_exactly(front, s, t);
            }
            longer_table(short, rows.last());
        }
    }
}

/// Saving an entity leaves a table in which its row stands.
pub proof fn saved_row_stands(rows: Seq<StoredEntity>, s: StoredEntity, e: EntityView)
    requires
        is_table(rows),
        keeps(s, e),
    ensures
        is_table(after_save(rows, s)),
        after_save(rows, s).contains(s),
{
    let short = apart_from(rows, s);
    apart_from_is_table(rows, s);
    assert forall|t: StoredEntity| #[trigger] short.contains(t) implies !clash(t, s) by {
        apart_from_exactly(rows, s, t);
    }
    longer_table(short, s);
    assert(after_save(rows, s)[short.len() as int] == s);
}

/// Saving an entity under another identifier and another label leaves a row where it is.
pub proof fn other_saves_leave_a_row(rows: Seq<StoredEntity>, s: StoredEntity, t: StoredEntity)
    requires
        rows.contains(s),
        !clash(s, t),
    ensures
        after_save(rows, t).contains(s),
{
    apart_from_exactly(rows, t, s);
    let short = apart_from(rows, t);
    let k = choose|k: int| 0 <= k < short.len() && short[k] == s;
    assert(after_save(rows, t)[k] == s);
}

/// Deleting an entity leaves a table, from which only the row with that identifier is gone.
pub proof fn deletion_takes_one_row(rows: Seq<StoredEntity>, id: Seq<char>, s: StoredEntity)
    requires
        is_table(rows),
    ensures
        is_table(after_delete(rows, id)),
        after_delete(rows, id).contains(s) <==> rows.contains(s) && s.row@.id != id,
    decreases rows.len(),
{
    after_delete_exactly(rows, id, s);
    if rows.len() > 0 {
        let front = rows.drop_last();
        shorter_table(rows);
        deletion_takes_one_row(front, id, s);
        if rows.last().row@.id != id {
            let short = after_delete(front, id);
            assert forall|t: StoredEntity| #[trigger] short.contains(t) implies !clash(
                t,
                rows.last(),
            ) by {
                after_delete_exactly(front, id, t);
            }
            longer_table(short, rows.last());
        }
    }
}

proof fn table_is_read_row_by_row(rows: Seq<StoredEntity>, at: Timestamp)
    requires
        is_table(rows),
    ensures
        entities_of(rows, at).len() == rows.len(),
        forall|i: int|
            0 <= i < rows.len() ==> entity_of(
                (#[trigger] rows[i]).row@,
                vector_view(rows[i].embedding),
                vector_view(rows[i].activity_vec),
                at,
            ) == Some(entities_of(rows, at)[i]),
    decreases rows.len(),
{
    if rows.len() > 0 {
        let front = rows.drop_last();
        shorter_table(rows);
        table_is_read_row_by_row(front, at);
        let e = choose|e: EntityView| keeps(rows.last(), e);
        assert(keeps(rows.last(), e));
        let s = rows.last();
        assert(entity_of(s.row@, vector_view(s.embedding), vector_view(s.activity_vec), at) == Some(
            settled(e),
        ));
        assert forall|i: int| 0 <= i < rows.len() implies entity_of(
            (#[trigger] rows[i]).row@,
            vector_view(rows[i].embedding),
            vector_view(rows[i].activity_vec),
            at,
        ) == Some(entities_of(rows, at)[i]) by {
            if i < front.len() {
                assert(front[i] == rows[i]);
            }
        }
    }
}

/// An entity whose row stands in a table is loaded once, as it was saved, with its kind settled:
/// nothing else that is loaded bears its identifier or its label.
pub proof fn saved_entity_is_loaded(
    rows: Seq<StoredEntity>,
    s: StoredEntity,
    e: EntityView,
    at: Timestamp,
)
    requires
        is_table(rows),
        rows.contains(s),
        keeps(s, e),
    ensures
        exists|i: int|
            #![trigger entities_of(rows, at)[i]]
            0 <= i < entities_of(rows, at).len() && entities_of(rows, at)[i] == settled(e)
                && forall|j: int|
                0 <= j < entities_of(rows, at).len() && ((#[trigger] entities_of(rows, at)[j]).id
                    == e.id || entities_of(rows, at)[j].label == e.label) ==> j == i,
{
    let all = entities_of(rows, at);
    table_is_read_row_by_row(rows, at);
    let i = choose|i: int| 0 <= i < rows.len() && rows[i] == s;
    assert(entity_of(s.row@, vector_view(s.embedding), vector_view(s.activity_vec), at) == Some(
        settled(e),
    ));
    assert(all[i] == settled(e));
    assert forall|j: int|
        0 <= j < all.len() && ((#[trigger] all[j]).id == e.id || all[j].label == e.label) implies j
        == i by {
        let t = rows[j];
        assert(is_kept(t));
        let f = choose|f: EntityView| keeps(t, f);
        assert(entity_of(t.row@, vector_view(t.embedding), vector_view(t.activity_vec), at) == Some(
            settled(f),
        ));
        assert(all[j] == settled(f));
        assert(clash(t, s));
        assert(clash(s, t));
        if j < i {
            assert(!clash(rows[j], rows[i]));
        } else if i < j {
            assert(!clash(rows[i], rows[j]));
        }
    }
}

/// The peers that rows stand for: addresses and node identifiers. Rows whose identifier cannot
/// be read are left out.
pub open spec fn peers_of(rows: Seq<(String, String)>) -> Seq<(Seq<char>, u128)>
    decreases rows.len(),
{
    if rows.len() == 0 {
        Seq::empty()
    } else {
        let front = peers_of(rows.drop_last());
        match parsed_id(rows.last().1@) {
            Some(id) => front.push((rows.last().0@, id)),
            None => front,
        }
    }
}

/// Addresses and node identifiers, as mathematical values.
pub open spec fn peer_views(v: Seq<(String, u128)>) -> Seq<(Seq<char>, u128)> {
    v.map_values(|p: (String, u128)| (p.0@, p.1))
}

/// The peers that rows stand for.
pub fn peers_from_rows(rows: &Vec<(String, String)>) -> (r: Vec<(String, u128)>)
    ensures
        peer_views(r@) == peers_of(rows@),
{
    let mut r: Vec<(String, u128)> = Vec::new();
    let mut i: usize = 0;
    proof {
        assert(peer_views(r@) =~= peers_of(rows@.take(0)));
    }
    while i < rows.len()
        invariant
            i <= rows@.len(),
            peer_views(r@) == peers_of(rows@.take(i as int)),
        decreases rows@.len() - i,
    {
        proof {
            assert(rows@.take(i + 1).drop_last() =~= rows@.take(i as int));
            assert(rows@.take(i + 1).last() == rows@[i as int]);
        }
        if let Some(id) = parse_id(rows[i].1.as_str()) {
            let ghost before = r@;
            r.push((rows[i].0.clone(), id));
            proof {
                assert(peer_views(r@) =~= peer_views(before).push((rows@[i as int].0@, id)));
            }
        }
        i = i + 1;
    }
    proof {
        assert(rows@.take(i as int) =~= rows@);
    }
    r
}

/// The row that a peer is stored as. Its identifier comes back.
pub fn peer_row(url: &str, node_id: u128) -> (r: (String, String))
    ensures
        r.0@ == url@,
        r.1@ == hyphenated(node_id),
        parsed_id(r.1@) == Some(node_id),
{
    (url.to_owned(), id_text(node_id))
}

/// The identifier of this node, and whether it has yet to be stored: what is stored, where it
/// can be read, and `spare` otherwise.
pub fn settle_node_id(stored: Option<&str>, spare: u128) -> (r: (u128, bool))
    ensures
        r.0 == match stored {
            Some(s) => match parsed_id(s@) {
                Some(id) => id,
                None => spare,
            },
            None => spare,
        },
        r.1 == stored.is_none(),
{
    match stored {
        Some(s) => match parse_id(s) {
            Some(id) => (id, false),
            None => (spare, false),
        },
        None => (spare, true),
    }
}

/// The identifier of this node, and whether it has yet to be stored. Where none can be read, it
/// is a random one.
pub fn node_id(stored: Option<&str>) -> (r: (u128, bool))
    ensures
        match stored {
            Some(s) => match parsed_id(s@) {
                Some(id) => r.0 == id,
                None => is_random(r.0),
            },
            None => is_random(r.0),
        },
        r.1 == stored.is_none(),
{
    settle_node_id(stored, fresh_id())
}

/// A stored message.
#[derive(Debug)]
pub struct MessageRow {
    pub id: String,
    pub entity_label: String,
    pub text: String,
    pub author: String,
    pub created_at: String,
}

/// A message left at an entity.
#[derive(Debug)]
pub struct MessageRecord {
    pub id: u128,
    pub entity_label: String,
    pub text: String,
    pub author: String,
    pub created_at: Timestamp,
}

/// A message, as a mathematical value.
#[verifier::ext_equal]
pub struct MessageView {
    pub id: u128,
    pub entity_label: Seq<char>,
    pub text: Seq<char>,
    pub author: Seq<char>,
    pub created_at: Timestamp,
}

impl View for MessageRecord {
    type V = MessageView;

    open spec fn view(&self) -> MessageView {
        MessageView {
            id: self.id,
            entity_label: self.entity_label@,
            text: self.text@,
            author: self.author@,
            created_at: self.created_at,
        }
    }
}

impl Clone for MessageRecord {
    fn clone(&self) -> (r: Self)
        ensures
            r@ == self@,
    {
        MessageRecord {
            id: self.id,
            entity_label: self.entity_label.clone(),
            text: self.text.clone(),
            author: self.author.clone(),
            created_at: self.created_at,
        }
    }
}

/// The messages of a list, as mathematical values.
pub open spec fn message_views(v: Seq<MessageRecord>) -> Seq<MessageView> {
    v.map_values(|m: MessageRecord| m@)
}

/// A copy of a list of messages.
pub(crate) fn copy_messages(v: &Vec<MessageRecord>) -> (r: Vec<MessageRecord>)
    ensures
        message_views(r@) == message_views(v@),
{
    let mut r: Vec<MessageRecord> = Vec::new();
    let mut i: usize = 0;
    while i < v.len()
        invariant
            i <= v@.len(),
            r@.len() == i,
            forall|j: int| 0 <= j < i ==> (#[trigger] r@[j])@ == v@[j]@,
        decreases v@.len() - i,
    {
        r.push(v[i].clone());
        i = i + 1;
    }
    proof {
        assert(message_views(r@) =~= message_views(v@));
    }
    r
}

/// The message that a row stands for. An identifier that cannot be read counts as `spare`, and
/// a time that cannot be read as `at`.
pub open spec fn message_of(row: MessageRow, spare: u128, at: Timestamp) -> MessageView {
    MessageView {
        id: match parsed_id(row.id@) {
            Some(id) => id,
            None => spare,
        },
        entity_label: row.entity_label@,
        text: row.text@,
        author: row.author@,
        created_at: match read_time(row.created_at@) {
            Some(t) => t,
            None => at,
        },
    }
}

/// The messages that rows stand for, in the order of the rows.
pub open spec fn messages_of(
    rows: Seq<MessageRow>,
    spares: Seq<u128>,
    times: Seq<Timestamp>,
) -> Seq<MessageView> {
    Seq::new(rows.len(), |i: int| message_of(rows[i], spares[i], times[i]))
}

/// The messages from the oldest to the newest.
pub open spec fn oldest_first(messages: Seq<MessageView>) -> Seq<MessageView> {
    stable_sort(messages, |m: MessageView| m.created_at.rank())
}

/// The message that a row stands for.
pub fn message_from_row(row: &MessageRow, spare: u128, at: Timestamp) -> (r: MessageRecord)
    ensures
        r@ == message_of(*row, spare, at),
{
    let id: u128 = match parse_id(row.id.as_str()) {
        Some(id) => id,
        None => spare,
    };
    let created_at = match parse_time(row.created_at.as_str()) {
        Some(t) => t,
        None => at,
    };
    MessageRecord {
        id,
        entity_label: row.entity_label.clone(),
        text: row.text.clone(),
        author: row.author.clone(),
        created_at,
    }
}

/// Puts messages in the order from the oldest to the newest.
pub fn sort_messages(messages: &Vec<MessageRecord>) -> (r: Vec<MessageRecord>)
    ensures
        message_views(r@) == oldest_first(message_views(messages@)),
{
    let n: usize = messages.len();
    let ghost all = message_views(messages@);
    let mut keys: Vec<i128> = Vec::new();
    let mut i: usize = 0;
    while i < n
        invariant
            i <= n,
            n == messages@.len(),
            keys@.len() == i,
            forall|j: int| 0 <= j < i ==> (#[trigger] keys@[j]) == messages@[j].created_at.rank(),
        decreases n - i,
    {
        keys.push(messages[i].created_at.sort_key());
        i = i + 1;
    }
    let order = stable_order(&keys);
    let mut r: Vec<MessageRecord> = Vec::new();
    let mut k: usize = 0;
    while k < n
        invariant
            k <= n,
            n == messages@.len(),
            order@.len() == n,
            all == message_views(messages@),
            forall|j: int| 0 <= j < order@.len() ==> (#[trigger] order@[j]) < n,
            r@.len() == k,
            forall|j: int| 0 <= j < k ==> (#[trigger] r@[j])@ == all[order@[j] as int],
        decreases n - k,
    {
        r.push(messages[order[k]].clone());
        k = k + 1;
    }
    proof {
        let key = |m: MessageView| m.created_at.rank();
        let own = |i: usize| keys@[i as int] as int;
        picked_is_sorted(all, key, own);
        assert(message_views(r@) =~= picked(all, order@));
    }
    r
}

/// The messages that rows stand for, from the oldest to the newest. Identifiers that cannot be
/// read are replaced by random ones, and times by the current one.
pub fn load_messages(rows: &Vec<MessageRow>) -> (r: Vec<MessageRecord>)
    ensures
        exists|spares: Seq<u128>, times: Seq<Timestamp>|
            spares.len() == rows@.len() && times.len() == rows@.len() && (forall|i: int|
                0 <= i < spares.len() ==> is_random(#[trigger] spares[i])) && (forall|i: int|
                0 <= i < times.len() ==> (#[trigger] times[i]).plain()) && message_views(r@)
                == oldest_first(#[trigger] messages_of(rows@, spares, times)),
{
    let ghost mut spares: Seq<u128> = Seq::empty();
    let ghost mut times: Seq<Timestamp> = Seq::empty();
    let mut all: Vec<MessageRecord> = Vec::new();
    let mut i: usize = 0;
    while i < rows.len()
        invariant
            i <= rows@.len(),
            spares.len() == i,
            times.len() == i,
            forall|j: int| 0 <= j < i ==> is_random(#[trigger] spares[j]),
            forall|j: int| 0 <= j < i ==> (#[trigger] times[j]).plain(),
            all@.len() == i,
            forall|j: int|
                0 <= j < i ==> (#[trigger] all@[j])@ == message_of(rows@[j], spares[j], times[j]),
        decreases rows@.len() - i,
    {
        let spare: u128 = fresh_id();
        let at = now();
        all.push(message_from_row(&rows[i], spare, at));
        proof {
            spares = spares.push(spare);
            times = times.push(at);
        }
        i = i + 1;
    }
    proof {
        assert(message_views(all@) =~= messages_of(rows@, spares, times));
    }
    sort_messages(&all)
}

/// The row that a new message is stored as.
pub fn message_row(
    entity_label: &str,
    text: &str,
    author: &str,
    id: u128,
    at: Timestamp,
) -> (r: MessageRow)
    requires
        at.valid(),
    ensures
        r.id@ == hyphenated(id),
        parsed_id(r.id@) == Some(id),
        r.entity_label@ == entity_label@,
        r.text@ == text@,
        r.author@ == author@,
        r.created_at@ == rfc3339_text(at.secs, at.nanos),
        read_time(r.created_at@) == Some(at),
        forall|spare: u128, other: Timestamp| #[trigger]
            message_of(r, spare, other) == (MessageView {
                id,
                entity_label: entity_label@,
                text: text@,
                author: author@,
                created_at: at,
            }),
{
    MessageRow {
        id: id_text(id),
        entity_label: entity_label.to_owned(),
        text: text.to_owned(),
        author: author.to_owned(),
        created_at: to_rfc3339(at),
    }
}

/// The row that a message is stored as that is left now.
pub fn new_message_row(entity_label: &str, text: &str, author: &str) -> (r: MessageRow)
    ensures
        r.entity_label@ == entity_label@,
        r.text@ == text@,
        r.author@ == author@,
        exists|id: u128|
            is_random(id) && r.id@ == #[trigger] hyphenated(id) && parsed_id(r.id@) == Some(id),
        exists|at: Timestamp|
            at.plain() && r.created_at@ == #[trigger] rfc3339_text(at.secs, at.nanos) && read_time(
                r.created_at@,
            ) == Some(at),
{
    let id: u128 = fresh_id();
    let at = now();
    message_row(entity_label, text, author, id, at)
}

/// A calendar date can be given for the time `hours` before `at`.
pub open spec fn reaches_back(at: Timestamp, hours: i64) -> bool {
    FIRST_SECOND <= at.secs - 3600 * hours <= LAST_SECOND
}

/// The text of the time `hours` before `at`. Whatever is older is dropped.
pub fn cutoff_at(at: Timestamp, hours: i64) -> (r: String)
    requires
        at.plain(),
        reaches_back(at, hours),
    ensures
        r@ == rfc3339_text((at.secs - 3600 * hours) as i64, at.nanos),
{
    let seconds: i64 = 0 - 3600 * hours;
    match shifted(at, seconds) {
        Some(t) => to_rfc3339(t),
        None => String::new(),
    }
}

/// The text of the time `hours` before `at`, or `None` where there is no such time.
pub fn cutoff_on(at: Timestamp, hours: i64) -> (r: Option<String>)
    requires
        at.plain(),
    ensures
        r is Some <==> reaches_back(at, hours),
        r matches Some(s) ==> s@ == rfc3339_text((at.secs - 3600 * hours) as i64, at.nanos),
{
    let then: i128 = at.secs as i128 - 3600 * hours as i128;
    if (FIRST_SECOND as i128) <= then && then <= LAST_SECOND as i128 {
        Some(cutoff_at(at, hours))
    } else {
        None
    }
}

/// The text of the time `hours` ago, or `None` where there is no such time.
pub fn cutoff(hours: i64) -> (r: Option<String>)
    ensures
        0 <= hours <= 2_000_000_000 ==> r is Some,
        exists|at: Timestamp|
            #![trigger reaches_back(at, hours)]
            at.plain() && at.secs >= 0 && (r is Some <==> reaches_back(at, hours)) && (r matches Some(
                s,
            ) ==> s@ == rfc3339_text((at.secs - 3600 * hours) as i64, at.nanos)),
{
    let at = now();
    let r = cutoff_on(at, hours);
    assert(r is Some <==> reaches_back(at, hours));
    r
}

/// Only what is stored as a human, an AI or an event comes back as such: every other name comes
/// back as a service. Nothing but streams and data is changed by being stored.
pub proof fn four_kinds_come_back(name: Seq<char>, k: EntityKind)
    ensures
        stored_kind(name) == EntityKind::Human <==> name == "Human"@,
        stored_kind(name) == EntityKind::AI <==> name == "AI"@,
        stored_kind(name) == EntityKind::Event <==> name == "Event"@,
        stored_kind(name) == EntityKind::Service <==> name != "Human"@ && name != "AI"@ && name
            != "Event"@,
        k != EntityKind::Stream && k != EntityKind::Data ==> stored_kind(kind_text(k)) == k,
{
    stored_kind_settles(k);
    reveal_strlit("Human");
    reveal_strlit("AI");
    reveal_strlit("Event");
    assert("AI"@[0] == 'A');
    assert("Human"@[0] == 'H');
    assert("Event"@[0] == 'E');
}

/// A row stands for an entity just when its identifier can be read. What cannot be read of its
/// times is taken as now, for when it was active, and as never, for when it ends.
pub proof fn a_row_is_read_as_far_as_it_can_be(
    row: EntityRowView,
    embedding: Option<Seq<u32>>,
    activity_vec: Option<Seq<u32>>,
    at: Timestamp,
)
    ensures
        ({
            let r = entity_of(row, embedding, activity_vec, at);
            let e = r->0;
            &&& r is Some <==> parsed_id(row.id) is Some
            &&& r is Some ==> Some(e.id) == parsed_id(row.id) && e.label == row.label && e.kind
                == stored_kind(row.kind) && e.embedding == embedding && e.activity_vec
                == activity_vec
            &&& r is Some && parsed_time(row.last_active) is None ==> e.last_active == at
            &&& r is Some && parsed_time(row.last_active) is Some ==> Some(
                (e.last_active.secs, e.last_active.nanos),
            ) == parsed_time(row.last_active)
            &&& r is Some && (row.expires_at is None || parsed_time(row.expires_at->0) is None)
                ==> e.expires_at is None
            &&& r is Some && row.expires_at is Some && parsed_time(row.expires_at->0) is Some
                ==> e.expires_at is Some && Some(
                ((e.expires_at->0).secs, (e.expires_at->0).nanos),
            ) == parsed_time(row.expires_at->0)
        }),
{
}

/// The entity that a stored one reads as.
pub open spec fn reads_as(s: StoredEntity, at: Timestamp) -> Option<EntityView> {
    entity_of(s.row@, vector_view(s.embedding), vector_view(s.activity_vec), at)
}

proof fn entities_up_to(rows: Seq<StoredEntity>, at: Timestamp, n: nat)
    requires
        n <= rows.len(),
    ensures
        entities_of(rows.take(n as int), at) == kept(
            n,
            |i: int| parsed_id(rows[i].row@.id) is Some,
            |i: int| reads_as(rows[i], at)->0,
        ),
    decreases n,
{
    let keep = |i: int| parsed_id(rows[i].row@.id) is Some;
    let f = |i: int| reads_as(rows[i], at)->0;
    kept_grows(n, keep, f);
    if n > 0 {
        entities_up_to(rows, at, (n - 1) as nat);
        assert(rows.take(n as int).drop_last() =~= rows.take(n - 1));
    }
}

/// Every row whose identifier can be read is loaded, in the order of the rows.
pub proof fn all_readable_rows_are_loaded(rows: Seq<StoredEntity>, at: Timestamp)
    ensures
        entities_of(rows, at) == kept(
            rows.len(),
            |i: int| parsed_id(rows[i].row@.id) is Some,
            |i: int| reads_as(rows[i], at)->0,
        ),
{
    assert(rows.take(rows.len() as int) =~= rows);
    entities_up_to(rows, at, rows.len());
}

proof fn peers_up_to(rows: Seq<(String, String)>, n: nat)
    requires
        n <= rows.len(),
    ensures
        peers_of(rows.take(n as int)) == kept(
            n,
            |i: int| parsed_id(rows[i].1@) is Some,
            |i: int| (rows[i].0@, parsed_id(rows[i].1@)->0),
        ),
    decreases n,
{
    let keep = |i: int| parsed_id(rows[i].1@) is Some;
    let f = |i: int| (rows[i].0@, parsed_id(rows[i].1@)->0);
    kept_grows(n, keep, f);
    if n > 0 {
        peers_up_to(rows, (n - 1) as nat);
        assert(rows.take(n as int).drop_last() =~= rows.take(n - 1));
    }
}

/// Every peer whose identifier can be read is known again, in the order of the rows.
pub proof fn all_readable_peers_are_known(rows: Seq<(String, String)>)
    ensures
        peers_of(rows) == kept(
            rows.len(),
            |i: int| parsed_id(rows[i].1@) is Some,
            |i: int| (rows[i].0@, parsed_id(rows[i].1@)->0),
        ),
{
    assert(rows.take(rows.len() as int) =~= rows);
    peers_up_to(rows, rows.len());
}

/// A message comes back as it was said. What cannot be read of its identifier or its time is
/// taken from `spare` and `at`.
pub proof fn a_message_is_read_as_far_as_it_can_be(row: MessageRow, spare: u128, at: Timestamp)
    ensures
        ({
            let m = message_of(row, spare, at);
            &&& m.entity_label == row.entity_label@ && m.text == row.text@ && m.author
                == row.author@
            &&& parsed_id(row.id@) is None ==> m.id == spare
            &&& parsed_id(row.id@) is Some ==> Some(m.id) == parsed_id(row.id@)
            &&& parsed_time(row.created_at@) is None ==> m.created_at == at
            &&& parsed_time(row.created_at@) is Some ==> Some(
                (m.created_at.secs, m.created_at.nanos),
            ) == parsed_time(row.created_at@)
        }),
{
}

/// Messages from the oldest to the newest are all of them, never a newer before an older, and
/// those of one time keep their order.
pub proof fn the_oldest_come_first(messages: Seq<MessageView>, t: Timestamp)
    ensures
        oldest_first(messages).to_multiset() == messages.to_multiset(),
        oldest_first(messages).len() == messages.len(),
        forall|i: int, j: int|
            0 <= i < j < messages.len() ==> !(#[trigger] oldest_first(
                messages,
            )[j]).created_at.precedes((#[trigger] oldest_first(messages)[i]).created_at),
        oldest_first(messages).filter(|m: MessageView| m.created_at == t) == messages.filter(
            |m: MessageView| m.created_at == t,
        ),
{
    let key = |m: MessageView| m.created_at.rank();
    stable_sort_permutes(messages, key);
    stable_sort_ascending(messages, key);
    stable_sort_keeps_ties(messages, key, t.rank());
    let r = oldest_first(messages);
    assert forall|i: int, j: int| 0 <= i < j < messages.len() implies !(
    #[trigger] r[j]).created_at.precedes((#[trigger] r[i]).created_at) by {
        assert(key(r[i]) <= key(r[j]));
        rank_orders(r[j].created_at, r[i].created_at);
    }
    let same = |m: MessageView| key(m) == t.rank();
    let plain = |m: MessageView| m.created_at == t;
    assert forall|m: MessageView| #[trigger] same(m) == plain(m) by {
        rank_orders(m.created_at, t);
    }
    assert(same =~= plain);
}

/// A row holds an entity's label and the texts of its identifier, its kind and its times, beside
/// the vectors as they were given.
pub proof fn a_row_holds_an_entity(
    e: EntityView,
    embedding: Seq<char>,
    activity_vec: Option<Seq<char>>,
)
    ensures
        ({
            let r = row_of(e, embedding, activity_vec);
            &&& r.id == hyphenated(e.id) && r.label == e.label && r.kind == kind_text(e.kind)
            &&& r.embedding == embedding && r.activity_vec == activity_vec
            &&& r.last_active == rfc3339_text(e.last_active.secs, e.last_active.nanos)
            &&& e.expires_at is None ==> r.expires_at is None
            &&& e.expires_at matches Some(t) ==> r.expires_at == Some(
                rfc3339_text(t.secs, t.nanos),
            )
        }),
{
}

} // verus!
