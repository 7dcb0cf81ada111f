//! Who wanders: an identity, its interests, and what it has met.
use crate::fixed::UNIT;
use crate::graph::copy_vector;
use crate::ids::{fresh_id, is_random};
use crate::order::{kept, kept_grows};
use crate::stamp::{now, rfc3339_text, to_rfc3339, Timestamp};
use crate::text::{contains_text, copy_texts, texts};
use vstd::prelude::*;

verus! {

/// The number of encounters that an identity remembers.
pub const HISTORY_LIMIT: usize = 200;

/// The number of coordinates that a summary shows.
pub const PREVIEW_LENGTH: usize = 8;

/// An identity that has not been seen for this many seconds is forgotten: thirty days.
pub const FORGET_SECONDS: i64 = 2_592_000;

/// One encounter: when, where, with whom, and in what mind.
#[derive(Debug)]
pub struct EncounterRecord {
    pub timestamp: Timestamp,
    pub position: String,
    pub near_labels: Vec<String>,
    pub interest_text: String,
}

/// An encounter, as a mathematical value.
#[verifier::ext_equal]
pub struct EncounterView {
    pub timestamp: Timestamp,
    pub position: Seq<char>,
    pub near_labels: Seq<Seq<char>>,
    pub interest_text: Seq<char>,
}

impl View for EncounterRecord {
    type V = EncounterView;

    open spec fn view(&self) -> EncounterView {
        EncounterView {
            timestamp: self.timestamp,
            position: self.position@,
            near_labels: texts(self.near_labels@),
            interest_text: self.interest_text@,
        }
    }
}

impl Clone for EncounterRecord {
    fn clone(&self) -> (r: Self)
        ensures
            r@ == self@,
    {
        EncounterRecord {
            timestamp: self.timestamp,
            position: self.position.clone(),
            near_labels: copy_texts(&self.near_labels),
            interest_text: self.interest_text.clone(),
        }
    }
}

/// A wanderer. The interests are held as the bit patterns of the coordinates.
#[derive(Debug)]
pub struct Identity {
    pub id: u128,
    pub created_at: Timestamp,
    pub last_seen: Timestamp,
    pub interest_vec: Vec<u32>,
    pub history: Vec<EncounterRecord>,
    pub position: String,
}

/// A wanderer, as a mathematical value.
#[verifier::ext_equal]
pub struct IdentityView {
    pub id: u128,
    pub created_at: Timestamp,
    pub last_seen: Timestamp,
    pub interest_vec: Seq<u32>,
    pub history: Seq<EncounterView>,
    pub position: Seq<char>,
}

impl View for Identity {
    type V = IdentityView;

    open spec fn view(&self) -> IdentityView {
        IdentityView {
            id: self.id,
            created_at: self.created_at,
            last_seen: self.last_seen,
            interest_vec: self.interest_vec@,
            history: encounters(self.history@),
            position: self.position@,
        }
    }
}

/// The encounters of a list, as mathematical values.
pub open spec fn encounters(v: Seq<EncounterRecord>) -> Seq<EncounterView> {
    v.map_values(|r: EncounterRecord| r@)
}

/// A copy of a list of encounters.
fn copy_encounters(v: &Vec<EncounterRecord>) -> (r: Vec<EncounterRecord>)
    ensures
        encounters(r@) == encounters(v@),
{
    let mut r: Vec<EncounterRecord> = Vec::new();
    let mut i: usize = 0;
    while i < v.len()
        invariant
            i <= v@.len(),
            r@.len() == i,
            forall|j: int| 0 <= j < i ==> (#[trigger] r@[j])@ == v@[j]@,
        decreases v@.len() - i,
    {
        r.push(v[i].clone());
        i = i + 1;
    }
    proof {
        assert(encounters(r@) =~= encounters(v@));
    }
    r
}

impl Clone for Identity {
    fn clone(&self) -> (r: Self)
        ensures
            r@ == self@,
    {
        Identity {
            id: self.id,
            created_at: self.created_at,
            last_seen: self.last_seen,
            interest_vec: copy_vector(&self.interest_vec),
            history: copy_encounters(&self.history),
            position: self.position.clone(),
        }
    }
}

/// The coordinates of each vector.
pub open spec fn vectors(v: Seq<Vec<u32>>) -> Seq<Seq<u32>> {
    v.map_values(|x: Vec<u32>| x@)
}

/// The indices of the vectors that have `dim` coordinates.
pub open spec fn fitting(all: Seq<Seq<u32>>, dim: nat) -> Seq<usize>
    decreases all.len(),
{
    if all.len() == 0 {
        Seq::empty()
    } else if all.last().len() == dim {
        fitting(all.drop_last(), dim).push((all.len() - 1) as usize)
    } else {
        fitting(all.drop_last(), dim)
    }
}

/// The most recent encounters of `all`, as many as an identity remembers.
pub open spec fn remembered(all: Seq<EncounterView>) -> Seq<EncounterView> {
    if all.len() > HISTORY_LIMIT {
        all.skip(all.len() - HISTORY_LIMIT)
    } else {
        all
    }
}

/// `h` without its oldest encounter, where it is longer than an identity remembers.
pub open spec fn capped(h: Seq<EncounterView>) -> Seq<EncounterView> {
    if h.len() > HISTORY_LIMIT {
        h.skip(1)
    } else {
        h
    }
}

/// The number of encounters of `h` at which an entity with the given label was near.
pub open spec fn meetings(h: Seq<EncounterView>, label: Seq<char>) -> nat
    decreases h.len(),
{
    if h.len() == 0 {
        0
    } else {
        meetings(h.drop_last(), label) + if h.last().near_labels.contains(label) {
            1nat
        } else {
            0nat
        }
    }
}

/// An identity after an encounter at the time `at`. Where a vector of the right size was near,
/// the interests become `blended`.
pub open spec fn after_encounter(
    i: IdentityView,
    position: Seq<char>,
    near_labels: Seq<Seq<char>>,
    near_embeddings: Seq<Seq<u32>>,
    interest_text: Seq<char>,
    blended: Seq<u32>,
    at: Timestamp,
) -> IdentityView {
    IdentityView {
        last_seen: at,
        interest_vec: if fitting(near_embeddings, i.interest_vec.len()).len() > 0 {
            blended
        } else {
            i.interest_vec
        },
        history: capped(
            i.history.push(EncounterView { timestamp: at, position, near_labels, interest_text }),
        ),
        position,
        ..i
    }
}

/// An identity after it has taken in what is near, at the time `at`. Nothing changes where no
/// vector of the right size is near.
pub open spec fn after_absorption(
    i: IdentityView,
    near_embeddings: Seq<Seq<u32>>,
    position: Seq<char>,
    blended: Seq<u32>,
    at: Timestamp,
) -> IdentityView {
    if fitting(near_embeddings, i.interest_vec.len()).len() > 0 {
        IdentityView { last_seen: at, interest_vec: blended, position, ..i }
    } else {
        i
    }
}

/// The indices of the vectors that have `dim` coordinates: those that interests are blended
/// with.
pub fn blend_members(near_embeddings: &Vec<Vec<u32>>, dim: usize) -> (r: Vec<usize>)
    ensures
        r@ == fitting(vectors(near_embeddings@), dim as nat),
        forall|k: int|
            0 <= k < r@.len() ==> (#[trigger] r@[k]) < near_embeddings@.len()
                && near_embeddings@[r@[k] as int]@.len() == dim,
{
    let ghost all = vectors(near_embeddings@);
    let mut r: Vec<usize> = Vec::new();
    let mut i: usize = 0;
    while i < near_embeddings.len()
        invariant
            i <= near_embeddings@.len(),
            all == vectors(near_embeddings@),
            r@ == fitting(all.take(i as int), dim as nat),
            forall|k: int|
                0 <= k < r@.len() ==> (#[trigger] r@[k]) < near_embeddings@.len()
                    && near_embeddings@[r@[k] as int]@.len() == dim,
        decreases near_embeddings@.len() - i,
    {
        proof {
            assert(all.take(i + 1).drop_last() =~= all.take(i as int));
            assert(all.take(i + 1).last() == near_embeddings@[i as int]@);
        }
        if near_embeddings[i].len() == dim {
            r.push(i);
        }
        i = i + 1;
    }
    proof {
        assert(all.take(i as int) =~= all);
    }
    r
}

/// At the time `at`, an identity that was last seen at `last_seen` is forgotten.
pub open spec fn forgotten(last_seen: Timestamp, at: Timestamp) -> bool {
    let idle = at.secs - last_seen.secs;
    idle > FORGET_SECONDS || (idle == FORGET_SECONDS && last_seen.nanos <= at.nanos)
}

/// The identifiers of the identities that are forgotten at the time `at`, in their order.
pub open spec fn forgotten_among(all: Seq<Identity>, at: Timestamp) -> Seq<u128>
    decreases all.len(),
{
    if all.len() == 0 {
        Seq::empty()
    } else {
        let front = forgotten_among(all.drop_last(), at);
        if forgotten(all.last().last_seen, at) {
            front.push(all.last().id)
        } else {
            front
        }
    }
}

/// The identifiers of the identities that are forgotten at the given time, in their order.
pub fn forgotten_identities(all: &Vec<Identity>, at: Timestamp) -> (r: Vec<u128>)
    ensures
        r@ == forgotten_among(all@, at),
{
    let mut r: Vec<u128> = Vec::new();
    let mut i: usize = 0;
    while i < all.len()
        invariant
            i <= all@.len(),
            r@ == forgotten_among(all@.take(i as int), at),
        decreases all@.len() - i,
    {
        proof {
            assert(all@.take(i + 1).drop_last() =~= all@.take(i as int));
        }
        if all[i].is_forgotten(at) {
            r.push(all[i].id);
        }
        i = i + 1;
    }
    proof {
        assert(all@.take(i as int) =~= all@);
    }
    r
}

/// Who is forgotten stays forgotten, and nobody is forgotten who was seen at that very time.
pub proof fn forgetting_lasts(last_seen: Timestamp, at: Timestamp, later: Timestamp)
    requires
        !later.precedes(at),
    ensures
        forgotten(last_seen, at) ==> forgotten(last_seen, later),
        !forgotten(at, at),
{
}

impl Identity {
    /// The identity is forgotten at the given time.
    pub fn is_forgotten(&self, at: Timestamp) -> (r: bool)
        ensures
            r == forgotten(self.last_seen, at),
    {
        let idle: i128 = at.secs as i128 - self.last_seen.secs as i128;
        let limit: i128 = FORGET_SECONDS as i128;
        idle > limit || (idle == limit && self.last_seen.nanos <= at.nanos)
    }

    /// An identity remembers no more than the limit allows.
    pub open spec fn wf(self) -> bool {
        self.history@.len() <= HISTORY_LIMIT
    }

    /// A new identity with a random identifier, created now.
    pub fn new(seed_vec: Vec<u32>) -> (r: Identity)
        ensures
            r.wf(),
            r@ == arrival(seed_vec@, r.id, r.created_at),
            is_random(r.id),
            r.created_at.plain(),
    {
        Identity::new_at(seed_vec, fresh_id(), now())
    }

    /// A new identity with the given identifier, created at the given time.
    pub fn new_at(seed_vec: Vec<u32>, id: u128, at: Timestamp) -> (r: Identity)
        ensures
            r.wf(),
            r@ == arrival(seed_vec@, id, at),
    {
        let r = Identity {
            id,
            created_at: at,
            last_seen: at,
            interest_vec: seed_vec,
            history: Vec::new(),
            position: "plaza".to_owned(),
        };
        proof {
            assert(encounters(r.history@) =~= Seq::<EncounterView>::empty());
        }
        r
    }

    /// Records an encounter, now.
    pub fn encounter(
        &mut self,
        position: &str,
        near_labels: Vec<String>,
        near_embeddings: &Vec<Vec<u32>>,
        interest_text: String,
        blended: Vec<u32>,
    )
        ensures
            old(self).wf() ==> final(self).wf(),
            final(self).last_seen.plain(),
            final(self)@ == after_encounter(
                old(self)@,
                position@,
                texts(near_labels@),
                vectors(near_embeddings@),
                interest_text@,
                blended@,
                final(self).last_seen,
            ),
    {
        self.encounter_at(position, near_labels, near_embeddings, interest_text, blended, now());
    }

    /// Records an encounter at the given time.
    pub fn encounter_at(
        &mut self,
        position: &str,
        near_labels: Vec<String>,
        near_embeddings: &Vec<Vec<u32>>,
        interest_text: String,
        blended: Vec<u32>,
        at: Timestamp,
    )
        ensures
            old(self).wf() ==> final(self).wf(),
            final(self)@ == after_encounter(
                old(self)@,
                position@,
                texts(near_labels@),
                vectors(near_embeddings@),
                interest_text@,
                blended@,
                at,
            ),
    {
        let record = EncounterRecord {
            timestamp: at,
            position: position.to_owned(),
            near_labels,
            interest_text,
        };
        let ghost seen = record@;
        self.history.push(record);
        let ghost longer = encounters(self.history@);
        proof {
            assert(longer =~= encounters(old(self).history@).push(seen));
        }
        if self.history.len() > HISTORY_LIMIT {
            self.history.remove(0);
            proof {
                assert(encounters(self.history@) =~= longer.skip(1));
            }
        }
        if blend_members(near_embeddings, self.interest_vec.len()).len() > 0 {
            self.interest_vec = blended;
        }
        self.position = position.to_owned();
        self.last_seen = at;
    }

    /// The number of encounters that are remembered.
    pub fn encounter_count(&self) -> (r: usize)
        ensures
            r == self@.history.len(),
    {
        self.history.len()
    }

    /// How often an entity was met, as far as it is remembered.
    pub fn meeting_count(&self, label: &str) -> (n: usize)
        ensures
            n == meetings(self@.history, label@),
    {
        let ghost h = self@.history;
        let mut n: usize = 0;
        let mut i: usize = 0;
        while i < self.history.len()
            invariant
                i <= self.history@.len(),
                h == encounters(self.history@),
                n <= i,
                n == meetings(h.take(i as int), label@),
            decreases self.history@.len() - i,
        {
            proof {
                assert(h.take(i + 1).drop_last() =~= h.take(i as int));
                assert(h.take(i + 1).last() == self.history@[i as int]@);
            }
            if contains_text(&self.history[i].near_labels, label) {
                n = n + 1;
            }
            i = i + 1;
        }
        proof {
            assert(h.take(i as int) =~= h);
        }
        n
    }

    /// How far an entity is, by how often it was met: `1 / (1 + n)` after `n` encounters.
    pub fn relational_dist(&self, label: &str) -> (r: i64)
        ensures
            r == UNIT as int / (1 + meetings(self@.history, label@) as int),
            0 <= r <= UNIT,
    {
        let n: usize = self.meeting_count(label);
        proof {
            assert(0 <= UNIT as int / (1 + n as int) <= UNIT) by (nonlinear_arith)
                requires
                    n >= 0,
                    UNIT == 1_000_000_000_000,
            ;
        }
        (UNIT as i128 / (1 + n as i128)) as i64
    }

    /// Takes in what is near, now.
    pub fn passive_absorb(
        &mut self,
        near_embeddings: &Vec<Vec<u32>>,
        position: &str,
        blended: Vec<u32>,
    )
        ensures
            final(self).history@ == old(self).history@,
            exists|at: Timestamp|
                at.plain() && final(self)@ == #[trigger] after_absorption(
                    old(self)@,
                    vectors(near_embeddings@),
                    position@,
                    blended@,
                    at,
                ),
    {
        let at = now();
        self.passive_absorb_at(near_embeddings, position, blended, at);
    }

    /// Lets a look at the field, at the given time, have its effect, and says whether the identity
    /// is to be stored again.
    pub fn look_at(
        &mut self,
        passive: Option<bool>,
        near_embeddings: &Vec<Vec<u32>>,
        position: &str,
        blended: Vec<u32>,
        at: Timestamp,
    ) -> (r: bool)
        ensures
            r == (passive == Some(true)),
            final(self).history@ == old(self).history@,
            final(self)@ == after_look(
                old(self)@,
                passive,
                vectors(near_embeddings@),
                position@,
                blended@,
                at,
            ),
    {
        let asked: bool = match passive {
            Some(p) => p,
            None => false,
        };
        if asked {
            self.passive_absorb_at(near_embeddings, position, blended, at);
        }
        asked
    }

    /// Takes in what is near, at the given time.
    pub fn passive_absorb_at(
        &mut self,
        near_embeddings: &Vec<Vec<u32>>,
        position: &str,
        blended: Vec<u32>,
        at: Timestamp,
    )
        ensures
            final(self).history@ == old(self).history@,
            final(self)@ == after_absorption(
                old(self)@,
                vectors(near_embeddings@),
                position@,
                blended@,
                at,
            ),
    {
        if blend_members(near_embeddings, self.interest_vec.len()).len() > 0 {
            self.interest_vec = blended;
            self.position = position.to_owned();
            self.last_seen = at;
        }
    }
}

/// An identity after a look at the field, at the time `at`: it takes in what is near just where
/// it was asked to.
pub open spec fn after_look(
    i: IdentityView,
    passive: Option<bool>,
    near_embeddings: Seq<Seq<u32>>,
    position: Seq<char>,
    blended: Seq<u32>,
    at: Timestamp,
) -> IdentityView {
    if passive == Some(true) {
        after_absorption(i, near_embeddings, position, blended, at)
    } else {
        i
    }
}

/// An identity that has just arrived.
pub open spec fn arrival(seed_vec: Seq<u32>, id: u128, at: Timestamp) -> IdentityView {
    IdentityView {
        id,
        created_at: at,
        last_seen: at,
        interest_vec: seed_vec,
        history: Seq::empty(),
        position: "plaza"@,
    }
}

/// What is shown of an identity.
#[derive(Debug)]
pub struct IdentitySummary {
    pub id: u128,
    pub created_at: String,
    pub last_seen: String,
    pub position: String,
    pub encounter_count: usize,
    pub interest_preview: Vec<u32>,
}

/// The first coordinates of a vector, as many as a summary shows.
pub open spec fn preview(v: Seq<u32>) -> Seq<u32> {
    if v.len() > PREVIEW_LENGTH {
        v.take(PREVIEW_LENGTH as int)
    } else {
        v
    }
}

/// What is shown of an identity.
pub fn to_summary(i: &Identity) -> (r: IdentitySummary)
    requires
        i.created_at.valid(),
        i.last_seen.valid(),
    ensures
        r.id == i.id,
        r.created_at@ == rfc3339_text(i.created_at.secs, i.created_at.nanos),
        r.last_seen@ == rfc3339_text(i.last_seen.secs, i.last_seen.nanos),
        r.position@ == i.position@,
        r.encounter_count == i.history@.len(),
        r.interest_preview@ == preview(i.interest_vec@),
{
    let mut interest_preview: Vec<u32> = copy_vector(&i.interest_vec);
    interest_preview.truncate(PREVIEW_LENGTH);
    IdentitySummary {
        id: i.id,
        created_at: to_rfc3339(i.created_at),
        last_seen: to_rfc3339(i.last_seen),
        position: i.position.clone(),
        encounter_count: i.encounter_count(),
        interest_preview,
    }
}

/// However many encounters there are, an identity remembers the most recent ones: recording
/// one more, after those of `all`, leaves it with the most recent of them together.
pub proof fn most_recent_are_remembered(all: Seq<EncounterView>, e: EncounterView)
    ensures
        capped(remembered(all).push(e)) == remembered(all.push(e)),
        remembered(all.push(e)).len() <= HISTORY_LIMIT,
        remembered(all.push(e)).last() == e,
{
    assert(capped(remembered(all).push(e)) =~= remembered(all.push(e)));
}

/// An encounter never changes who an identity is or when it came, and keeps the size of its
/// interests where the blend has that size.
pub proof fn encounter_keeps_identity(
    i: IdentityView,
    position: Seq<char>,
    near_labels: Seq<Seq<char>>,
    near_embeddings: Seq<Seq<u32>>,
    interest_text: Seq<char>,
    blended: Seq<u32>,
    at: Timestamp,
)
    requires
        blended.len() == i.interest_vec.len(),
    ensures
        ({
            let f = after_encounter(
                i,
                position,
                near_labels,
                near_embeddings,
                interest_text,
                blended,
                at,
            );
            &&& f.id == i.id
            &&& f.created_at == i.created_at
            &&& f.interest_vec.len() == i.interest_vec.len()
            &&& f.position == position
        }),
{
}

/// Where the history has room, meeting an entity once more brings it no further away.
pub proof fn meeting_brings_closer(h: Seq<EncounterView>, e: EncounterView, label: Seq<char>)
    requires
        h.len() < HISTORY_LIMIT,
    ensures
        meetings(capped(h.push(e)), label) == meetings(h, label) + if e.near_labels.contains(
            label,
        ) {
            1nat
        } else {
            0nat
        },
        UNIT as int / (1 + meetings(capped(h.push(e)), label) as int) <= UNIT as int / (1
            + meetings(h, label) as int),
{
    assert(h.push(e).drop_last() =~= h);
    vstd::arithmetic::div_mod::lemma_div_is_ordered_by_denominator(
        UNIT as int,
        1 + meetings(h, label) as int,
        1 + meetings(capped(h.push(e)), label) as int,
    );
}

proof fn fitting_up_to(all: Seq<Seq<u32>>, dim: nat, n: nat)
    requires
        n <= all.len(),
    ensures
        fitting(all.take(n as int), dim) == kept(
            n,
            |i: int| all[i].len() == dim,
            |i: int| i as usize,
        ),
    decreases n,
{
    let keep = |i: int| all[i].len() == dim;
    let f = |i: int| i as usize;
    kept_grows(n, keep, f);
    if n > 0 {
        fitting_up_to(all, dim, (n - 1) as nat);
        assert(all.take(n as int).drop_last() =~= all.take(n - 1));
    }
}

/// Interests are blended with every vector that has as many coordinates, and with no other.
pub proof fn all_of_one_size_are_blended(all: Seq<Seq<u32>>, dim: nat)
    ensures
        fitting(all, dim) == kept(
            all.len(),
            |i: int| all[i].len() == dim,
            |i: int| i as usize,
        ),
{
    assert(all.take(all.len() as int) =~= all);
    fitting_up_to(all, dim, all.len());
}

/// Some vector has as many coordinates.
pub open spec fn any_fits(all: Seq<Seq<u32>>, dim: nat) -> bool {
    exists|i: int| 0 <= i < all.len() && (#[trigger] all[i]).len() == dim
}

proof fn fits_where_any_fits(all: Seq<Seq<u32>>, dim: nat)
    ensures
        fitting(all, dim).len() > 0 <==> any_fits(all, dim),
    decreases all.len(),
{
    if all.len() > 0 {
        let front = all.drop_last();
        fits_where_any_fits(front, dim);
        if any_fits(front, dim) {
            let i = choose|i: int| 0 <= i < front.len() && (#[trigger] front[i]).len() == dim;
            assert(all[i].len() == dim);
        }
        if all.last().len() == dim {
            assert(all[all.len() - 1].len() == dim);
        }
        if any_fits(all, dim) && all.last().len() != dim {
            let i = choose|i: int| 0 <= i < all.len() && (#[trigger] all[i]).len() == dim;
            assert(front[i].len() == dim);
        }
    }
}

/// An encounter adds one record behind those that are remembered, of which the oldest is given up
/// where there were two hundred; it moves the identity to where and when it was, and blends the
/// interests just where a vector of their size was near. Who it is stays.
pub proof fn an_encounter_is_remembered(
    i: IdentityView,
    position: Seq<char>,
    near_labels: Seq<Seq<char>>,
    near_embeddings: Seq<Seq<u32>>,
    interest_text: Seq<char>,
    blended: Seq<u32>,
    at: Timestamp,
)
    ensures
        ({
            let f = after_encounter(
                i,
                position,
                near_labels,
                near_embeddings,
                interest_text,
                blended,
                at,
            );
            let full = i.history.len() >= 200;
            let dropped: int = if full {
                1
            } else {
                0
            };
            &&& f.history.len() == i.history.len() + 1 - dropped
            &&& f.history.last() == (EncounterView {
                timestamp: at,
                position,
                near_labels,
                interest_text,
            })
            &&& forall|k: int|
                0 <= k < f.history.len() - 1 ==> #[trigger] f.history[k] == i.history[k + dropped]
            &&& f.interest_vec == if any_fits(near_embeddings, i.interest_vec.len()) {
                blended
            } else {
                i.interest_vec
            }
            &&& f.position == position && f.last_seen == at
            &&& f.id == i.id && f.created_at == i.created_at
        }),
{
    fits_where_any_fits(near_embeddings, i.interest_vec.len());
}

/// Taking in what is near never changes who an identity is, when it came or whom it has met; and
/// it changes nothing at all where no vector of the size of its interests is near.
pub proof fn absorbing_keeps_the_past(
    i: IdentityView,
    near_embeddings: Seq<Seq<u32>>,
    position: Seq<char>,
    blended: Seq<u32>,
    at: Timestamp,
)
    ensures
        ({
            let f = after_absorption(i, near_embeddings, position, blended, at);
            &&& f.id == i.id && f.created_at == i.created_at && f.history == i.history
            &&& !any_fits(near_embeddings, i.interest_vec.len()) ==> f == i
            &&& any_fits(near_embeddings, i.interest_vec.len()) ==> f.interest_vec == blended
                && f.position == position && f.last_seen == at
        }),
{
    fits_where_any_fits(near_embeddings, i.interest_vec.len());
}

/// A look at the field leaves an identity as it is, unless it was asked to take in what is near.
pub proof fn looking_leaves_no_trace(
    i: IdentityView,
    passive: Option<bool>,
    near_embeddings: Seq<Seq<u32>>,
    position: Seq<char>,
    blended: Seq<u32>,
    at: Timestamp,
)
    ensures
        passive != Some(true) ==> after_look(i, passive, near_embeddings, position, blended, at)
            == i,
        passive == Some(true) ==> after_look(i, passive, near_embeddings, position, blended, at)
            == after_absorption(i, near_embeddings, position, blended, at),
{
}

/// The encounters at which an entity was near are all counted.
pub proof fn all_meetings_are_counted(h: Seq<EncounterView>, label: Seq<char>)
    ensures
        meetings(h, label) == h.filter(
            |e: EncounterView| exists|k: int|
                0 <= k < e.near_labels.len() && #[trigger] e.near_labels[k] == label,
        ).len(),
    decreases h.len(),
{
    reveal(Seq::filter);
    if h.len() > 0 {
        all_meetings_are_counted(h.drop_last(), label);
    }
}

/// An identity remembers its last two hundred encounters, in their order.
pub proof fn the_last_two_hundred_are_remembered(all: Seq<EncounterView>)
    ensures
        remembered(all).len() == if all.len() < 200 {
            all.len()
        } else {
            200
        },
        forall|k: int|
            0 <= k < remembered(all).len() ==> #[trigger] remembered(all)[k] == all[all.len()
                - remembered(all).len() + k],
{
}

/// An identity is forgotten just when it has not been seen for thirty days, to the nanosecond.
pub proof fn thirty_days_are_remembered(last_seen: Timestamp, at: Timestamp)
    requires
        last_seen.nanos < 1_000_000_000,
        at.nanos < 1_000_000_000,
    ensures
        forgotten(last_seen, at) <==> (at.secs * 1_000_000_000 + at.nanos) - (last_seen.secs
            * 1_000_000_000 + last_seen.nanos) >= 30 * 24 * 60 * 60 * 1_000_000_000,
{
}

proof fn forgotten_up_to(all: Seq<Identity>, at: Timestamp, n: nat)
    requires
        n <= all.len(),
    ensures
        forgotten_among(all.take(n as int), at) == kept(
            n,
            |i: int| forgotten(all[i].last_seen, at),
            |i: int| all[i].id,
        ),
    decreases n,
{
    let keep = |i: int| forgotten(all[i].last_seen, at);
    let f = |i: int| all[i].id;
    kept_grows(n, keep, f);
    if n > 0 {
        forgotten_up_to(all, at, (n - 1) as nat);
        assert(all.take(n as int).drop_last() =~= all.take(n - 1));
    }
}

/// All who have not been seen for so long are forgotten, and nobody else.
pub proof fn all_the_unseen_are_forgotten(all: Seq<Identity>, at: Timestamp)
    ensures
        forgotten_among(all, at) == kept(
            all.len(),
            |i: int| forgotten(all[i].last_seen, at),
            |i: int| all[i].id,
        ),
{
    assert(all.take(all.len() as int) =~= all);
    forgotten_up_to(all, at, all.len());
}

/// A preview shows the first eight coordinates, or all where there are fewer.
pub proof fn a_preview_shows_eight(v: Seq<u32>)
    ensures
        preview(v).len() == if v.len() < 8 {
            v.len()
        } else {
            8
        },
        forall|i: int| 0 <= i < preview(v).len() ==> #[trigger] preview(v)[i] == v[i],
{
}

/// Whoever arrives starts on the plaza with the interests they are given, has met nobody, and was
/// last seen when they came.
pub proof fn whoever_arrives_is_new(seed_vec: Seq<u32>, id: u128, at: Timestamp)
    ensures
        ({
            let i = arrival(seed_vec, id, at);
            &&& i.id == id && i.interest_vec == seed_vec && i.position == "plaza"@
            &&& i.created_at == at && i.last_seen == at && i.history.len() == 0
        }),
{
}

} // verus!
