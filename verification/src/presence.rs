//! Who is in the space right now.
use crate::graph::copy_vector;
use crate::identity::{arrival, Identity, IdentityView};
use crate::ids::{fresh_id, is_random};
use crate::stamp::{now, shifted, Timestamp, FIRST_SECOND};
use crate::text::{copy_optional_text, optional_text};
use vstd::prelude::*;

verus! {

/// Whoever has not been seen for this many seconds has left.
pub const STALE_SECONDS: i64 = 15;

/// Someone who is in the space. This is not kept between runs.
#[derive(Debug)]
pub struct UserPresence {
    pub id: u128,
    pub name: String,
    pub interest_vec: Vec<u32>,
    /// Where the wanderer is: it starts at the interests, and drifts on its own.
    pub spatial_vec: Vec<u32>,
    /// The label of the entity that the wanderer drifts towards.
    pub moving_toward: Option<String>,
    pub position: String,
    pub last_seen: Timestamp,
}

/// Someone in the space, as a mathematical value.
#[verifier::ext_equal]
pub struct UserView {
    pub id: u128,
    pub name: Seq<char>,
    pub interest_vec: Seq<u32>,
    pub spatial_vec: Seq<u32>,
    pub moving_toward: Option<Seq<char>>,
    pub position: Seq<char>,
    pub last_seen: Timestamp,
}

impl View for UserPresence {
    type V = UserView;

    open spec fn view(&self) -> UserView {
        UserView {
            id: self.id,
            name: self.name@,
            interest_vec: self.interest_vec@,
            spatial_vec: self.spatial_vec@,
            moving_toward: optional_text(self.moving_toward),
            position: self.position@,
            last_seen: self.last_seen,
        }
    }
}

impl Clone for UserPresence {
    fn clone(&self) -> (r: Self)
        ensures
            r@ == self@,
    {
        UserPresence {
            id: self.id,
            name: self.name.clone(),
            interest_vec: copy_vector(&self.interest_vec),
            spatial_vec: copy_vector(&self.spatial_vec),
            moving_toward: copy_optional_text(&self.moving_toward),
            position: self.position.clone(),
            last_seen: self.last_seen,
        }
    }
}

/// The users of a list, as mathematical values.
pub open spec fn user_views(v: Seq<UserPresence>) -> Seq<UserView> {
    v.map_values(|u: UserPresence| u@)
}

/// A name that may be missing: then it is empty.
pub open spec fn name_or_empty(name: Option<String>) -> Seq<char> {
    match name {
        Some(s) => s@,
        None => Seq::empty(),
    }
}

/// Someone who has just come into the space: on the plaza, where the interests are.
pub open spec fn visitor(
    id: u128,
    name: Seq<char>,
    interest_vec: Seq<u32>,
    at: Timestamp,
) -> UserView {
    UserView {
        id,
        name,
        interest_vec,
        spatial_vec: interest_vec,
        moving_toward: None,
        position: "plaza"@,
        last_seen: at,
    }
}

/// Where the user with an identifier stands in the list, from `i` on.
pub open spec fn user_from(users: Seq<UserView>, id: u128, i: int) -> Option<int>
    decreases users.len() - i,
{
    if i < 0 || i >= users.len() {
        None
    } else if users[i].id == id {
        Some(i)
    } else {
        user_from(users, id, i + 1)
    }
}

/// Where the user with an identifier stands in the list.
pub open spec fn user_at(users: Seq<UserView>, id: u128) -> Option<int> {
    user_from(users, id, 0)
}

/// No two users have the same identifier.
pub open spec fn distinct_users(users: Seq<UserView>) -> bool {
    forall|i: int, j: int|
        0 <= i < j < users.len() ==> (#[trigger] users[i]).id != (#[trigger] users[j]).id
}

/// The users with `u` among them, in the place of anyone with the same identifier.
pub open spec fn with_user(users: Seq<UserView>, u: UserView) -> Seq<UserView> {
    match user_at(users, u.id) {
        Some(i) => users.update(i, u),
        None => users.push(u),
    }
}

/// The users who were last seen after `cutoff`.
pub open spec fn seen_after(users: Seq<UserView>, cutoff: Timestamp) -> Seq<UserView> {
    users.filter(|u: UserView| cutoff.precedes(u.last_seen))
}

/// The users who were seen in the last few seconds before `at`.
pub open spec fn still_here(users: Seq<UserView>, at: Timestamp) -> Seq<UserView> {
    seen_after(users, Timestamp { secs: (at.secs - STALE_SECONDS) as i64, nanos: at.nanos })
}

/// A vector that does not lie at the origin: some coordinate is neither of the two zeros.
pub open spec fn off_origin(v: Seq<u32>) -> bool {
    exists|i: int| 0 <= i < v.len() && #[trigger] v[i] != 0 && v[i] != 0x8000_0000
}

/// A search finds the first user with an identifier, and finds one where there is any.
pub proof fn user_found(users: Seq<UserView>, id: u128, from: int)
    requires
        0 <= from <= users.len(),
    ensures
        match user_from(users, id, from) {
            Some(i) => from <= i < users.len() && users[i].id == id,
            None => forall|i: int| from <= i < users.len() ==> (#[trigger] users[i]).id != id,
        },
    decreases users.len() - from,
{
    if from < users.len() && users[from].id != id {
        user_found(users, id, from + 1);
    }
}

/// The people in the space, in the order in which they came.
pub struct Presence {
    pub users: Vec<UserPresence>,
}

impl View for Presence {
    type V = Seq<UserView>;

    open spec fn view(&self) -> Seq<UserView> {
        user_views(self.users@)
    }
}

impl Clone for Presence {
    fn clone(&self) -> (r: Self)
        ensures
            r@ == self@,
    {
        let mut users: Vec<UserPresence> = Vec::new();
        let mut i: usize = 0;
        while i < self.users.len()
            invariant
                i <= self.users@.len(),
                users@.len() == i,
                forall|j: int| 0 <= j < i ==> (#[trigger] users@[j])@ == self.users@[j]@,
            decreases self.users@.len() - i,
        {
            users.push(self.users[i].clone());
            i = i + 1;
        }
        let r = Presence { users };
        proof {
            assert(r@ =~= self@);
        }
        r
    }
}

impl Presence {
    /// Nobody is in the space twice.
    pub open spec fn wf(self) -> bool {
        distinct_users(self@)
    }

    /// Nobody is in the space.
    pub fn new() -> (r: Presence)
        ensures
            r.wf(),
            r@ == Seq::<UserView>::empty(),
    {
        let r = Presence { users: Vec::new() };
        proof {
            assert(r@ =~= Seq::<UserView>::empty());
        }
        r
    }

    /// Where the user with an identifier stands in the list.
    pub fn find(&self, id: u128) -> (r: Option<usize>)
        ensures
            match r {
                Some(i) => {
                    &&& user_at(self@, id) == Some(i as int)
                    &&& i < self@.len()
                    &&& self@[i as int].id == id
                },
                None => {
                    &&& user_at(self@, id) is None
                    &&& forall|i: int| 0 <= i < self@.len() ==> (#[trigger] self@[i]).id != id
                },
            },
    {
        let mut i: usize = 0;
        while i < self.users.len()
            invariant
                i <= self.users@.len(),
                user_at(self@, id) == user_from(self@, id, i as int),
                forall|j: int| 0 <= j < i ==> (#[trigger] self@[j]).id != id,
            decreases self.users@.len() - i,
        {
            assert(self@[i as int] == self.users@[i as int]@);
            if self.users[i].id == id {
                return Some(i);
            }
            i = i + 1;
        }
        None
    }

    /// Puts a user into the space, in the place of anyone with the same identifier.
    pub fn insert(&mut self, u: UserPresence)
        requires
            old(self).wf(),
        ensures
            final(self).wf(),
            final(self)@ == with_user(old(self)@, u@),
    {
        let ghost seen = u@;
        match self.find(u.id) {
            Some(i) => {
                self.users.set(i, u);
                proof {
                    assert(self@ =~= old(self)@.update(i as int, seen));
                }
            },
            None => {
                self.users.push(u);
                proof {
                    assert(self@ =~= old(self)@.push(seen));
                }
            },
        }
    }

    /// Connects a user at the given time, who starts on the plaza, whether or not the user was
    /// there before.
    pub fn connect_at(
        &mut self,
        id: u128,
        name: Option<String>,
        interest_vec: Vec<u32>,
        at: Timestamp,
    )
        requires
            old(self).wf(),
        ensures
            final(self).wf(),
            final(self)@ == with_user(
                old(self)@,
                visitor(id, name_or_empty(name), interest_vec@, at),
            ),
    {
        self.insert(new_visitor(id, name, interest_vec, at));
    }

    /// Connects whoever opens a stream at the given time, and returns who that is: someone
    /// without an identity is known as `spare` while connected.
    pub fn join_at(
        &mut self,
        user_id: Option<u128>,
        name: Option<String>,
        interest_vec: Vec<u32>,
        spare: u128,
        at: Timestamp,
    ) -> (id: u128)
        requires
            old(self).wf(),
        ensures
            final(self).wf(),
            id == match user_id {
                Some(u) => u,
                None => spare,
            },
            final(self)@ == with_user(
                old(self)@,
                visitor(id, name_or_empty(name), interest_vec@, at),
            ),
    {
        let id: u128 = match user_id {
            Some(u) => u,
            None => spare,
        };
        self.connect_at(id, name, interest_vec, at);
        id
    }

    /// Connects whoever opens a stream, now, and returns who that is: someone without an identity
    /// gets a random identifier.
    pub fn join(&mut self, user_id: Option<u128>, name: Option<String>, interest_vec: Vec<u32>) -> (id:
        u128)
        requires
            old(self).wf(),
        ensures
            final(self).wf(),
            match user_id {
                Some(u) => id == u,
                None => is_random(id),
            },
            exists|at: Timestamp|
                at.plain() && final(self)@ == with_user(
                    old(self)@,
                    #[trigger] visitor(id, name_or_empty(name), interest_vec@, at),
                ),
    {
        let spare: u128 = fresh_id();
        let at = now();
        self.join_at(user_id, name, interest_vec, spare, at)
    }

    /// Lets a user in at the given time, unless the user is already there.
    pub fn enter_at(
        &mut self,
        id: u128,
        name: Option<String>,
        interest_vec: Vec<u32>,
        at: Timestamp,
    )
        requires
            old(self).wf(),
        ensures
            final(self).wf(),
            final(self)@ == match user_at(old(self)@, id) {
                Some(_) => old(self)@,
                None => old(self)@.push(visitor(id, name_or_empty(name), interest_vec@, at)),
            },
    {
        if self.find(id).is_none() {
            self.insert(new_visitor(id, name, interest_vec, at));
        }
    }

    /// Notes that a user is still there.
    pub fn touch(&mut self, id: u128, at: Timestamp)
        requires
            old(self).wf(),
        ensures
            final(self).wf(),
            final(self)@ == match user_at(old(self)@, id) {
                Some(i) => old(self)@.update(i, UserView { last_seen: at, ..old(self)@[i] }),
                None => old(self)@,
            },
    {
        if let Some(i) = self.find(id) {
            let mut u: UserPresence = self.users[i].clone();
            u.last_seen = at;
            self.insert(u);
        }
    }

    /// Moves a user: to another place among meanings, another direction and another position.
    pub fn follow(
        &mut self,
        id: u128,
        spatial_vec: Vec<u32>,
        moving_toward: Option<String>,
        position: String,
    )
        requires
            old(self).wf(),
        ensures
            final(self).wf(),
            final(self)@ == match user_at(old(self)@, id) {
                Some(i) => old(self)@.update(
                    i,
                    UserView {
                        spatial_vec: spatial_vec@,
                        moving_toward: optional_text(moving_toward),
                        position: position@,
                        ..old(self)@[i]
                    },
                ),
                None => old(self)@,
            },
    {
        if let Some(i) = self.find(id) {
            let mut u: UserPresence = self.users[i].clone();
            u.spatial_vec = spatial_vec;
            u.moving_toward = moving_toward;
            u.position = position;
            self.insert(u);
        }
    }

    /// Lets go of everyone who has not been seen lately, as of the given time, and says how many
    /// left.
    pub fn drop_stale_at(&mut self, at: Timestamp) -> (removed: usize)
        requires
            old(self).wf(),
            at.plain(),
            at.secs >= FIRST_SECOND + STALE_SECONDS,
        ensures
            final(self).wf(),
            final(self)@ == still_here(old(self)@, at),
            removed == old(self)@.len() - final(self)@.len(),
    {
        match shifted(at, -STALE_SECONDS) {
            Some(cutoff) => self.retain_seen_after(cutoff),
            None => 0,
        }
    }

    /// Lets go of everyone who has not been seen lately, as of now, and says how many left.
    pub fn drop_stale(&mut self) -> (removed: usize)
        requires
            old(self).wf(),
        ensures
            final(self).wf(),
            exists|at: Timestamp|
                at.plain() && final(self)@ == #[trigger] still_here(old(self)@, at),
            removed == old(self)@.len() - final(self)@.len(),
    {
        let at = now();
        self.drop_stale_at(at)
    }

    /// Lets go of everyone who was not seen after `cutoff`, and says how many left.
    pub fn retain_seen_after(&mut self, cutoff: Timestamp) -> (removed: usize)
        requires
            old(self).wf(),
        ensures
            final(self).wf(),
            final(self)@ == seen_after(old(self)@, cutoff),
            removed == old(self)@.len() - final(self)@.len(),
    {
        let before: usize = self.users.len();
        let mut kept: Vec<UserPresence> = Vec::new();
        let mut i: usize = 0;
        let ghost all = self@;
        let ghost recent = |u: UserView| cutoff.precedes(u.last_seen);
        proof {
            reveal(Seq::filter);
            assert(user_views(kept@) =~= all.take(0).filter(recent));
        }
        while i < self.users.len()
            invariant
                i <= self.users@.len(),
                all == self@,
                recent == (|u: UserView| cutoff.precedes(u.last_seen)),
                user_views(kept@) == all.take(i as int).filter(recent),
                kept@.len() <= i,
            decreases self.users@.len() - i,
        {
            let ghost was = kept@;
            proof {
                reveal(Seq::filter);
                assert(all.take(i + 1).drop_last() =~= all.take(i as int));
                assert(all.take(i + 1).last() == self.users@[i as int]@);
            }
            if cutoff.is_before(&self.users[i].last_seen) {
                kept.push(self.users[i].clone());
                proof {
                    assert(user_views(kept@) =~= user_views(was).push(self.users@[i as int]@));
                }
            }
            i = i + 1;
        }
        let removed: usize = before - kept.len();
        self.users = kept;
        proof {
            assert(all.take(i as int) =~= all);
            filter_keeps_distinct(all, recent);
        }
        removed
    }
}

proof fn filter_keeps_distinct(users: Seq<UserView>, keep: spec_fn(UserView) -> bool)
    requires
        distinct_users(users),
    ensures
        distinct_users(users.filter(keep)),
        forall|j: int|
            0 <= j < users.filter(keep).len() ==> exists|i: int|
                0 <= i < users.len() && #[trigger] users[i] == #[trigger] users.filter(keep)[j],
    decreases users.len(),
{
    reveal(Seq::filter);
    if users.len() > 0 {
        let front = users.drop_last();
        filter_keeps_distinct(front, keep);
        let rest = front.filter(keep);
        let all = users.filter(keep);
        assert forall|j: int| 0 <= j < all.len() implies exists|i: int|
            0 <= i < users.len() && #[trigger] users[i] == #[trigger] all[j] by {
            if j < rest.len() {
                assert(all[j] == rest[j]);
                let i = choose|i: int|
                    0 <= i < front.len() && #[trigger] front[i] == #[trigger] rest[j];
                assert(users[i] == all[j]);
            } else {
                assert(users[users.len() - 1] == all[j]);
            }
        }
        assert forall|i: int, j: int| 0 <= i < j < all.len() implies (#[trigger] all[i]).id != (
        #[trigger] all[j]).id by {
            assert(all[i] == rest[i]);
            if j < rest.len() {
                assert(all[j] == rest[j]);
            } else {
                let k = choose|k: int|
                    0 <= k < front.len() && #[trigger] front[k] == #[trigger] rest[i];
                assert(users[k] == front[k]);
                assert(all[j] == users[users.len() - 1]);
            }
        }
    }
}

fn new_visitor(id: u128, name: Option<String>, interest_vec: Vec<u32>, at: Timestamp) -> (r:
    UserPresence)
    ensures
        r@ == visitor(id, name_or_empty(name), interest_vec@, at),
{
    let name: String = match name {
        Some(s) => s,
        None => String::new(),
    };
    UserPresence {
        id,
        name,
        spatial_vec: copy_vector(&interest_vec),
        interest_vec,
        moving_toward: None,
        position: "plaza".to_owned(),
        last_seen: at,
    }
}

/// A vector does not lie at the origin.
pub fn is_off_origin(v: &Vec<u32>) -> (r: bool)
    ensures
        r == off_origin(v@),
{
    let mut i: usize = 0;
    while i < v.len()
        invariant
            i <= v@.len(),
            forall|j: int| 0 <= j < i ==> #[trigger] v@[j] == 0 || v@[j] == 0x8000_0000,
        decreases v@.len() - i,
    {
        if v[i] != 0 && v[i] != 0x8000_0000 {
            return true;
        }
        i = i + 1;
    }
    false
}

/// The vector from which someone sees the space: where the person has drifted to, else what the
/// person is interested in, else the middle of the space.
pub open spec fn viewpoint_of(
    spatial: Option<Seq<u32>>,
    interest: Option<Seq<u32>>,
    centroid: Seq<u32>,
) -> Seq<u32> {
    match spatial {
        Some(v) if off_origin(v) => v,
        _ => match interest {
            Some(v) => v,
            None => centroid,
        },
    }
}

/// The vector from which someone sees the space.
pub fn viewpoint(
    presence: &Presence,
    user_id: Option<u128>,
    identity: Option<&Identity>,
    centroid: Vec<u32>,
) -> (r: Vec<u32>)
    ensures
        r@ == viewpoint_of(
            match user_id {
                Some(id) => match user_at(presence@, id) {
                    Some(i) => Some(presence@[i].spatial_vec),
                    None => None,
                },
                None => None,
            },
            match identity {
                Some(i) => Some(i@.interest_vec),
                None => None,
            },
            centroid@,
        ),
{
    if let Some(id) = user_id {
        if let Some(i) = presence.find(id) {
            assert(presence@[i as int] == presence.users@[i as int]@);
            if is_off_origin(&presence.users[i].spatial_vec) {
                return copy_vector(&presence.users[i].spatial_vec);
            }
        }
    }
    match identity {
        Some(i) => copy_vector(&i.interest_vec),
        None => centroid,
    }
}

/// An identity that may be missing, as a mathematical value.
pub open spec fn identity_view(i: Option<Identity>) -> Option<IdentityView> {
    match i {
        Some(x) => Some(x@),
        None => None,
    }
}

/// The identity of someone who arrives: the one that is known, or a new one that starts in the
/// middle of the space.
pub open spec fn arriving(
    known: Option<IdentityView>,
    centroid: Seq<u32>,
    spare: u128,
    at: Timestamp,
) -> IdentityView {
    match known {
        Some(i) => i,
        None => arrival(centroid, spare, at),
    }
}

/// Who arrived, and whether the identity is new and has yet to be stored.
pub struct Arrival {
    pub identity: Identity,
    pub created: bool,
}

/// Lets someone arrive: a known identity goes on, and anyone else gets a new one. Either way
/// the space takes note of the presence, unless it already has.
pub fn arrive(
    presence: &mut Presence,
    known: Option<Identity>,
    centroid: Vec<u32>,
    name: Option<String>,
) -> (r: Arrival)
    requires
        old(presence).wf(),
    ensures
        final(presence).wf(),
        r.created == known.is_none(),
        r.created ==> is_random(r.identity.id),
        exists|spare: u128, at: Timestamp|
            at.plain() && r.identity@ == #[trigger] arriving(
                identity_view(known),
                centroid@,
                spare,
                at,
            ) && final(presence)@ == match user_at(old(presence)@, r.identity.id) {
                Some(_) => old(presence)@,
                None => old(presence)@.push(
                    visitor(r.identity.id, name_or_empty(name), r.identity@.interest_vec, at),
                ),
            },
{
    let spare: u128 = fresh_id();
    let at = now();
    arrive_at(presence, known, centroid, name, spare, at)
}

/// Lets someone arrive at the given time, with `spare` as the identifier of a new identity.
pub fn arrive_at(
    presence: &mut Presence,
    known: Option<Identity>,
    centroid: Vec<u32>,
    name: Option<String>,
    spare: u128,
    at: Timestamp,
) -> (r: Arrival)
    requires
        old(presence).wf(),
    ensures
        final(presence).wf(),
        r.created == known.is_none(),
        r.identity@ == arriving(
            identity_view(known),
            centroid@,
            spare,
            at,
        ),
        final(presence)@ == match user_at(old(presence)@, r.identity.id) {
            Some(_) => old(presence)@,
            None => old(presence)@.push(
                visitor(r.identity.id, name_or_empty(name), r.identity@.interest_vec, at),
            ),
        },
{
    let created: bool = known.is_none();
    let identity = match known {
        Some(i) => i,
        None => Identity::new_at(centroid, spare, at),
    };
    presence.enter_at(identity.id, name, copy_vector(&identity.interest_vec), at);
    Arrival { identity, created }
}

/// Once a user was put into the space, the users are that one and all others as before, in their
/// places; a user who was there already keeps the place.
pub proof fn entering_changes_one_user(users: Seq<UserView>, u: UserView)
    requires
        distinct_users(users),
    ensures
        ({
            let all = with_user(users, u);
            let known = exists|i: int| 0 <= i < users.len() && (#[trigger] users[i]).id == u.id;
            &&& distinct_users(all)
            &&& all.len() == if known {
                users.len()
            } else {
                users.len() + 1
            }
            &&& !known ==> all.last() == u
            &&& forall|i: int|
                0 <= i < users.len() ==> #[trigger] all[i] == if users[i].id == u.id {
                    u
                } else {
                    users[i]
                }
        }),
{
    user_found(users, u.id, 0);
}

/// Whoever was seen less than fifteen seconds ago is still here, to the nanosecond, and nobody
/// else is; those who are keep their order.
pub proof fn fifteen_seconds_are_waited(users: Seq<UserView>, at: Timestamp)
    requires
        at.secs >= i64::MIN + 15,
    ensures
        still_here(users, at) == users.filter(
            |u: UserView|
                u.last_seen.secs + 15 > at.secs || (u.last_seen.secs + 15 == at.secs
                    && u.last_seen.nanos > at.nanos),
        ),
    decreases users.len(),
{
    reveal(Seq::filter);
    if users.len() > 0 {
        fifteen_seconds_are_waited(users.drop_last(), at);
    }
}

/// Whoever was seen after the cutoff stays, in order, and whoever was not leaves.
pub proof fn the_recent_stay(users: Seq<UserView>, cutoff: Timestamp, u: UserView)
    ensures
        seen_after(users, cutoff).contains(u) <==> users.contains(u) && cutoff.precedes(
            u.last_seen,
        ),
        seen_after(users, cutoff).len() <= users.len(),
    decreases users.len(),
{
    reveal(Seq::filter);
    if users.len() > 0 {
        let front = users.drop_last();
        the_recent_stay(front, cutoff, u);
        let short = seen_after(front, cutoff);
        let all = seen_after(users, cutoff);
        if short.contains(u) {
            let k = choose|k: int| 0 <= k < short.len() && short[k] == u;
            assert(all[k] == u);
        }
        if front.contains(u) {
            let k = choose|k: int| 0 <= k < front.len() && front[k] == u;
            assert(users[k] == u);
        }
        if users.contains(u) && users.last() != u {
            let k = choose|k: int| 0 <= k < users.len() && users[k] == u;
            assert(front[k] == u);
        }
        if users.last() == u && cutoff.precedes(u.last_seen) {
            assert(all[short.len() as int] == u);
            assert(users[users.len() - 1] == u);
        }
        if all.contains(u) {
            let k = choose|k: int| 0 <= k < all.len() && all[k] == u;
            if k < short.len() {
                assert(short[k] == u);
            } else {
                assert(users[users.len() - 1] == u);
            }
        }
    }
}

/// A vector lies off the origin just when some coordinate has anything but its sign set.
pub proof fn off_origin_is_somewhere(v: Seq<u32>)
    ensures
        off_origin(v) <==> exists|i: int|
            0 <= i < v.len() && (#[trigger] v[i]) & 0x7fff_ffffu32 != 0,
{
    assert forall|i: int| 0 <= i < v.len() implies ((#[trigger] v[i]) & 0x7fff_ffffu32 != 0 <==> v[i]
        != 0 && v[i] != 0x8000_0000) by {
        let x = v[i];
        assert(x & 0x7fff_ffffu32 != 0 <==> x != 0 && x != 0x8000_0000u32) by (bit_vector);
    }
    if off_origin(v) {
        let i = choose|i: int| 0 <= i < v.len() && #[trigger] v[i] != 0 && v[i] != 0x8000_0000;
        assert(v[i] & 0x7fff_ffffu32 != 0);
    }
}

/// Someone sees the space from where they have drifted to, as soon as that is anywhere; else from
/// what they are interested in, where that is known; else from the middle.
pub proof fn one_sees_from_where_one_is(
    spatial: Option<Seq<u32>>,
    interest: Option<Seq<u32>>,
    centroid: Seq<u32>,
)
    ensures
        ({
            let v = viewpoint_of(spatial, interest, centroid);
            let drifted = spatial is Some && off_origin(spatial->0);
            &&& drifted ==> v == spatial->0
            &&& !drifted && interest is Some ==> v == interest->0
            &&& !drifted && interest is None ==> v == centroid
        }),
{
}

/// A known identity arrives as it is, whoever else might have been made; anyone else starts anew
/// in the middle of the space.
pub proof fn the_known_arrive_as_they_are(
    known: Option<IdentityView>,
    centroid: Seq<u32>,
    spare: u128,
    at: Timestamp,
)
    ensures
        ({
            let i = arriving(known, centroid, spare, at);
            &&& known is Some ==> i == known->0
            &&& known is None ==> i.id == spare && i.interest_vec == centroid && i.created_at == at
                && i.history.len() == 0
        }),
{
}

/// Whoever comes into the space starts on the plaza, where their interests are, and heads nowhere.
pub proof fn visitors_start_on_the_plaza(
    id: u128,
    name: Seq<char>,
    interest_vec: Seq<u32>,
    at: Timestamp,
)
    ensures
        ({
            let u = visitor(id, name, interest_vec, at);
            &&& u.id == id && u.name == name && u.last_seen == at
            &&& u.interest_vec == interest_vec && u.spatial_vec == interest_vec
            &&& u.moving_toward is None && u.position == "plaza"@
        }),
{
}

} // verus!
