//! How far an entity is from a wanderer, and what of the space is in sight.
use crate::fixed::{clamp, clamped, NEUTRAL, UNIT};
use crate::order::{
    first_count, last_count, picked, picked_is_sorted, stable_order, stable_sort,
    stable_sort_ascending, stable_sort_counts, stable_sort_from,
};
use vstd::prelude::*;

verus! {

/// A whole, of which shares are counted in millionths.
pub const WHOLE: i64 = 1_000_000;

/// The share of each component in a distance, in millionths.
#[derive(Clone, Copy, Debug, PartialEq, Eq, Structural)]
pub struct DistanceWeights {
    pub semantic: i32,
    pub relational: i32,
    pub activity: i32,
    pub temporal: i32,
    pub attention: i32,
}

impl DistanceWeights {
    /// The shares together, in millionths.
    pub open spec fn total(self) -> int {
        self.semantic + self.relational + self.activity + self.temporal + self.attention
    }
}

impl Default for DistanceWeights {
    fn default() -> (r: Self)
        ensures
            r == (DistanceWeights {
                semantic: 250_000,
                relational: 200_000,
                activity: 200_000,
                temporal: 150_000,
                attention: 200_000,
            }),
            r.total() == WHOLE,
    {
        DistanceWeights {
            semantic: 250_000,
            relational: 200_000,
            activity: 200_000,
            temporal: 150_000,
            attention: 200_000,
        }
    }
}

/// The components weighed and added up, in millionths of a unit.
pub open spec fn weighed(
    semantic: int,
    relational: int,
    activity: int,
    temporal: int,
    attention: int,
    w: DistanceWeights,
) -> int {
    w.semantic * semantic + w.relational * relational + w.activity * activity + w.temporal
        * temporal + w.attention * attention
}

/// The distance that five components make, between zero and one.
pub open spec fn distance_of(
    semantic: int,
    relational: int,
    activity: int,
    temporal: int,
    attention: int,
    w: DistanceWeights,
) -> int {
    clamped(weighed(semantic, relational, activity, temporal, attention, w) / WHOLE as int)
}

/// The distance that five components make, between zero and one.
pub fn compute_distance(
    semantic: i64,
    relational: i64,
    activity: i64,
    temporal: i64,
    attention: i64,
    weights: &DistanceWeights,
) -> (r: i64)
    ensures
        r == distance_of(
            semantic as int,
            relational as int,
            activity as int,
            temporal as int,
            attention as int,
            *weights,
        ),
        0 <= r <= UNIT,
{
    let a: i128 = scaled(weights.semantic, semantic);
    let b: i128 = scaled(weights.relational, relational);
    let c: i128 = scaled(weights.activity, activity);
    let d: i128 = scaled(weights.temporal, temporal);
    let e: i128 = scaled(weights.attention, attention);
    let sum: i128 = a + b + c + d + e;
    if sum < 0 {
        0
    } else {
        clamp(sum / WHOLE as i128)
    }
}

fn scaled(w: i32, v: i64) -> (r: i128)
    ensures
        r == w * v,
        -0x8000_0000_0000_0000_0000_0000 <= r <= 0x8000_0000_0000_0000_0000_0000,
{
    proof {
        assert(-0x8000_0000_0000_0000_0000_0000 <= w * v <= 0x8000_0000_0000_0000_0000_0000)
            by (nonlinear_arith)
            requires
                -0x8000_0000 <= w <= 0x7fff_ffff,
                -0x8000_0000_0000_0000 <= v <= 0x7fff_ffff_ffff_ffff,
        ;
    }
    w as i128 * v as i128
}

/// The default shares make up a whole, so that components that all agree on a value between
/// zero and one make that very distance.
pub proof fn agreeing_components(c: int, w: DistanceWeights)
    requires
        w.total() == WHOLE,
        0 <= c <= UNIT,
    ensures
        distance_of(c, c, c, c, c, w) == c,
{
    assert(weighed(c, c, c, c, c, w) == WHOLE * c) by (nonlinear_arith)
        requires
            w.semantic + w.relational + w.activity + w.temporal + w.attention == WHOLE,
            weighed(c, c, c, c, c, w) == w.semantic * c + w.relational * c + w.activity * c
                + w.temporal * c + w.attention * c,
    ;
}

/// A distance never shrinks when a component grows, as long as no share is negative.
pub proof fn distance_monotone(a: Seq<int>, b: Seq<int>, w: DistanceWeights)
    requires
        a.len() == 5,
        b.len() == 5,
        w.semantic >= 0 && w.relational >= 0 && w.activity >= 0,
        w.temporal >= 0 && w.attention >= 0,
        forall|i: int| 0 <= i < 5 ==> #[trigger] a[i] <= #[trigger] b[i],
    ensures
        distance_of(a[0], a[1], a[2], a[3], a[4], w) <= distance_of(
            b[0],
            b[1],
            b[2],
            b[3],
            b[4],
            w,
        ),
{
    share_monotone(w.semantic, a[0], b[0]);
    share_monotone(w.relational, a[1], b[1]);
    share_monotone(w.activity, a[2], b[2]);
    share_monotone(w.temporal, a[3], b[3]);
    share_monotone(w.attention, a[4], b[4]);
}

proof fn share_monotone(w: i32, a: int, b: int)
    requires
        w >= 0,
        a <= b,
    ensures
        w * a <= w * b,
{
    assert(w * a <= w * b) by (nonlinear_arith)
        requires
            a <= b,
            0 <= w,
    ;
}

/// The distance that a number of steps makes: none at zero steps, one where there is no way,
/// and `1 - 1 / (1 + n)` otherwise.
pub open spec fn steps_distance(steps: Option<usize>) -> int {
    match steps {
        None => UNIT as int,
        Some(n) => UNIT - UNIT as int / (1 + n as int),
    }
}

/// The distance that a shortest way through the space makes.
pub fn relational_dist(shortest_path: Option<usize>) -> (r: i64)
    ensures
        r == steps_distance(shortest_path),
        shortest_path is None ==> r == UNIT,
        shortest_path == Some(0usize) ==> r == 0,
        0 <= r <= UNIT,
{
    match shortest_path {
        None => UNIT,
        Some(n) => {
            let part: i128 = UNIT as i128 / (1 + n as i128);
            proof {
                assert(0 <= UNIT as int / (1 + n as int) <= UNIT) by (nonlinear_arith)
                    requires
                        n >= 0,
                        UNIT == 1_000_000_000_000,
                ;
                assert(UNIT as int / 1int == UNIT);
            }
            UNIT - part as i64
        },
    }
}

/// More steps never make a smaller distance, and no way at all makes the largest.
pub proof fn steps_distance_monotone(m: usize, n: usize)
    requires
        m <= n,
    ensures
        steps_distance(Some(m)) <= steps_distance(Some(n)) <= steps_distance(None),
{
    vstd::arithmetic::div_mod::lemma_div_is_ordered_by_denominator(
        UNIT as int,
        1 + m as int,
        1 + n as int,
    );
    assert(UNIT as int / (1 + n as int) >= 0) by (nonlinear_arith)
        requires
            n >= 0,
            UNIT == 1_000_000_000_000,
    ;
}

/// The component that relations make: nothing is known of an entity without any, and each of
/// the first four brings it a quarter closer.
pub open spec fn degree_component(degree: nat) -> int {
    if degree == 0 {
        NEUTRAL as int
    } else if degree >= 4 {
        0
    } else {
        UNIT - degree * (UNIT / 4)
    }
}

/// The component that relations make.
pub fn degree_dist(degree: usize) -> (r: i64)
    ensures
        r == degree_component(degree as nat),
        0 <= r <= UNIT,
{
    if degree == 0 {
        NEUTRAL
    } else if degree >= 4 {
        0
    } else {
        UNIT - degree as i64 * (UNIT / 4)
    }
}

/// The component that visits make: nothing is known of an entity without any, and the more of
/// them, against one more than the most visited has, the closer it is.
pub open spec fn visits_component(count: nat, most: nat) -> int {
    if count == 0 {
        NEUTRAL as int
    } else {
        let part = count * UNIT as int / (most as int + 1);
        UNIT - if part > UNIT {
            UNIT as int
        } else {
            part
        }
    }
}

/// The component that visits make.
pub fn visits_dist(count: u32, most: u32) -> (r: i64)
    ensures
        r == visits_component(count as nat, most as nat),
        0 <= r <= UNIT,
{
    if count == 0 {
        NEUTRAL
    } else {
        proof {
            assert(0 <= count * UNIT as int <= 0xffff_ffff * 1_000_000_000_000) by (nonlinear_arith)
                requires
                    0 <= count <= 0xffff_ffff,
                    UNIT == 1_000_000_000_000,
            ;
            assert(0 <= count * UNIT as int / (most as int + 1)) by (nonlinear_arith)
                requires
                    0 <= count * UNIT as int,
                    most >= 0,
            ;
        }
        let part: i128 = count as i128 * UNIT as i128 / (most as i128 + 1);
        if part > UNIT as i128 {
            0
        } else {
            UNIT - part as i64
        }
    }
}

/// What of an entity is in sight.
#[derive(Clone, Copy, Debug, PartialEq, Eq, Structural)]
pub enum Visibility {
    /// Visible, within reach.
    Near,
    /// Sensed, not yet in focus.
    Horizon,
    /// Not in this field.
    Beyond,
}

impl Default for Visibility {
    fn default() -> (r: Self)
        ensures
            r == Visibility::Beyond,
    {
        Visibility::Beyond
    }
}

/// The least width of the horizon.
pub const MARGIN: i64 = 50_000_000_000;

/// The threshold of near where there is nothing to measure.
pub const EMPTY_NEAR: i64 = 350_000_000_000;

/// The threshold of the horizon where there is nothing to measure.
pub const EMPTY_HORIZON: i64 = 650_000_000_000;

/// Where near ends and where the horizon ends, drawn from the distances in the field.
#[derive(Clone, Copy, Debug, PartialEq, Eq, Structural)]
pub struct DynamicThresholds {
    pub near: i64,
    pub horizon: i64,
}

/// The index among `n` sorted values that stands at the share `p` of the way, rounded to the
/// nearest one.
pub open spec fn rank_of(n: nat, p: int) -> int {
    let nearest = (2 * p * (n - 1) + UNIT) / (2 * UNIT as int);
    if p <= 0 {
        0
    } else if nearest > n - 1 {
        n - 1
    } else {
        nearest
    }
}

/// The distances in ascending order.
pub open spec fn sorted_distances(distances: Seq<i64>) -> Seq<i64> {
    stable_sort(distances, |d: i64| d as int)
}

/// The distance that stands at the share `p` of the way through all of them.
pub open spec fn percentile_of(distances: Seq<i64>, p: int) -> int {
    sorted_distances(distances)[rank_of(distances.len(), p)] as int
}

/// The thresholds that the distances in a field make.
pub open spec fn thresholds_of(
    distances: Seq<i64>,
    near_pct: int,
    horizon_pct: int,
) -> DynamicThresholds {
    if distances.len() == 0 {
        DynamicThresholds { near: EMPTY_NEAR, horizon: EMPTY_HORIZON }
    } else {
        let near = percentile_of(distances, near_pct);
        let horizon = percentile_of(distances, horizon_pct);
        DynamicThresholds {
            near: near as i64,
            horizon: (if horizon < near + MARGIN {
                near + MARGIN
            } else {
                horizon
            }) as i64,
        }
    }
}

/// What is in sight at the distance `d`.
pub open spec fn visibility_at(t: DynamicThresholds, d: int) -> Visibility {
    if d <= t.near {
        Visibility::Near
    } else if d <= t.horizon {
        Visibility::Horizon
    } else {
        Visibility::Beyond
    }
}

fn percentile(sorted: &Vec<i64>, p: i64) -> (r: i64)
    requires
        sorted@.len() > 0,
    ensures
        0 <= rank_of(sorted@.len(), p as int) < sorted@.len(),
        r == sorted@[rank_of(sorted@.len(), p as int)],
{
    let last: usize = sorted.len() - 1;
    let ghost n = sorted@.len();
    if p <= 0 {
        return sorted[0];
    }
    proof {
        assert(0 <= 2 * p * (n - 1) <= 2 * 0x7fff_ffff_ffff_ffff * 0xffff_ffff_ffff_ffff)
            by (nonlinear_arith)
            requires
                0 < p <= 0x7fff_ffff_ffff_ffff,
                0 <= n - 1 <= 0xffff_ffff_ffff_ffff,
        ;
        assert(p * (n - 1) * 2 == 2 * p * (n - 1)) by (nonlinear_arith);
        assert(0 <= p * (n - 1)) by (nonlinear_arith)
            requires
                p > 0,
                n - 1 >= 0,
        ;
    }
    let product: u128 = p as u128 * last as u128;
    let nearest: u128 = (product * 2 + UNIT as u128) / (2 * UNIT as u128);
    if nearest > last as u128 {
        sorted[last]
    } else {
        sorted[nearest as usize]
    }
}

impl DynamicThresholds {
    /// The thresholds that let about the share `near_pct` of the entities be near, and about
    /// the share `horizon_pct` be near or on the horizon. The horizon has a least width.
    pub fn from_distances(distances: &Vec<i64>, near_pct: i64, horizon_pct: i64) -> (r:
        DynamicThresholds)
        requires
            forall|i: int|
                0 <= i < distances@.len() ==> (#[trigger] distances@[i]) <= i64::MAX - MARGIN,
        ensures
            r == thresholds_of(distances@, near_pct as int, horizon_pct as int),
            r.near + MARGIN <= r.horizon,
    {
        let n: usize = distances.len();
        if n == 0 {
            return DynamicThresholds { near: EMPTY_NEAR, horizon: EMPTY_HORIZON };
        }
        let mut keys: Vec<i128> = Vec::new();
        let mut i: usize = 0;
        while i < n
            invariant
                i <= n,
                n == distances@.len(),
                keys@.len() == i,
                forall|j: int| 0 <= j < i ==> (#[trigger] keys@[j]) == distances@[j],
            decreases n - i,
        {
            keys.push(distances[i] as i128);
            i = i + 1;
        }
        let order = stable_order(&keys);
        let ghost key = |d: i64| d as int;
        let ghost own = |i: usize| keys@[i as int] as int;
        let mut sorted: Vec<i64> = Vec::new();
        let mut k: usize = 0;
        while k < n
            invariant
                k <= n,
                n == distances@.len(),
                order@.len() == n,
                forall|j: int| 0 <= j < order@.len() ==> (#[trigger] order@[j]) < n,
                sorted@.len() == k,
                forall|j: int|
                    0 <= j < k ==> (#[trigger] sorted@[j]) == distances@[order@[j] as int],
            decreases n - k,
        {
            sorted.push(distances[order[k]]);
            k = k + 1;
        }
        proof {
            picked_is_sorted(distances@, key, own);
            assert(sorted@ =~= picked(distances@, order@));
            stable_sort_from(distances@, key, |d: i64| d <= i64::MAX - MARGIN);
            assert(sorted@ == sorted_distances(distances@));
        }
        let near: i64 = percentile(&sorted, near_pct);
        let horizon: i64 = percentile(&sorted, horizon_pct);
        if horizon < near + MARGIN {
            DynamicThresholds { near, horizon: near + MARGIN }
        } else {
            DynamicThresholds { near, horizon }
        }
    }

    /// What is in sight at the distance `d`.
    pub fn classify(&self, d: i64) -> (r: Visibility)
        ensures
            r == visibility_at(*self, d as int),
    {
        if d <= self.near {
            Visibility::Near
        } else if d <= self.horizon {
            Visibility::Horizon
        } else {
            Visibility::Beyond
        }
    }
}

/// Of the entities in a field, at least those up to the rank that the share `near_pct` gives
/// are near. So as long as there is any entity, one of them is near.
pub proof fn share_is_near(distances: Seq<i64>, near_pct: int, horizon_pct: int, i: int)
    requires
        distances.len() > 0,
        0 <= i <= rank_of(distances.len(), near_pct),
        forall|j: int| 0 <= j < distances.len() ==> (#[trigger] distances[j]) <= i64::MAX - MARGIN,
    ensures
        visibility_at(
            thresholds_of(distances, near_pct, horizon_pct),
            sorted_distances(distances)[i] as int,
        ) == Visibility::Near,
        0 <= rank_of(distances.len(), near_pct) < distances.len(),
{
    let key = |d: i64| d as int;
    stable_sort_ascending(distances, key);
    rank_in_range(distances.len(), near_pct);
    let s = sorted_distances(distances);
    assert(key(s[i]) <= key(s[rank_of(distances.len(), near_pct)]));
}

/// Of the entities in a field, those up to the rank that the share `horizon_pct` gives are
/// near or on the horizon.
pub proof fn share_is_in_sight(distances: Seq<i64>, near_pct: int, horizon_pct: int, i: int)
    requires
        distances.len() > 0,
        0 <= i <= rank_of(distances.len(), horizon_pct),
        forall|j: int| 0 <= j < distances.len() ==> (#[trigger] distances[j]) <= i64::MAX - MARGIN,
    ensures
        visibility_at(
            thresholds_of(distances, near_pct, horizon_pct),
            sorted_distances(distances)[i] as int,
        ) != Visibility::Beyond,
{
    let key = |d: i64| d as int;
    stable_sort_ascending(distances, key);
    rank_in_range(distances.len(), near_pct);
    rank_in_range(distances.len(), horizon_pct);
    stable_sort_from(distances, key, |d: i64| d <= i64::MAX - MARGIN);
    let s = sorted_distances(distances);
    assert(key(s[i]) <= key(s[rank_of(distances.len(), horizon_pct)]));
    assert(s[rank_of(distances.len(), near_pct)] <= i64::MAX - MARGIN);
}

/// A share always leads to a rank that there is.
pub proof fn rank_in_range(n: nat, p: int)
    requires
        n > 0,
    ensures
        0 <= rank_of(n, p) < n,
{
    if p > 0 {
        assert(0 <= 2 * p * (n - 1)) by (nonlinear_arith)
            requires
                p > 0,
                n - 1 >= 0,
        ;
        assert((2 * p * (n - 1) + UNIT) / (2 * UNIT as int) >= 0) by (nonlinear_arith)
            requires
                2 * p * (n - 1) >= 0,
                UNIT == 1_000_000_000_000,
        ;
    }
}

/// An entity that comes closer is never less in sight.
pub proof fn closer_is_no_less_visible(t: DynamicThresholds, d: int, e: int)
    requires
        d <= e,
        t.near <= t.horizon,
    ensures
        visibility_at(t, e) == Visibility::Near ==> visibility_at(t, d) == Visibility::Near,
        visibility_at(t, e) == Visibility::Horizon ==> visibility_at(t, d) != Visibility::Beyond,
{
}

/// A share leads to the rank nearest to it, and a tie to the farther one: `rank / (n - 1)` lies
/// within half a rank of the share, however many values there are. No share at all leads to the
/// first value, and a whole or more to the last.
pub proof fn rank_is_nearest(n: nat, p: int)
    requires
        n > 0,
    ensures
        p <= 0 ==> rank_of(n, p) == 0,
        p >= UNIT ==> rank_of(n, p) == n - 1,
        0 <= p <= UNIT ==> -UNIT < 2 * (UNIT * rank_of(n, p) - p * (n - 1)) <= UNIT,
{
    let u = UNIT as int;
    let m = n - 1;
    let x = 2 * p * m + u;
    let q = x / (2 * u);
    assert(2 * u * q <= x < 2 * u * q + 2 * u) by (nonlinear_arith)
        requires
            q == x / (2 * u),
            u == 1_000_000_000_000,
    ;
    assert(2 * p * m == 2 * (p * m)) by (nonlinear_arith);
    assert(2 * u * q == 2 * (u * q)) by (nonlinear_arith);
    assert(2 * u * m == 2 * (u * m)) by (nonlinear_arith);
    if p >= u {
        assert(p * m >= u * m) by (nonlinear_arith)
            requires
                p >= u,
                m >= 0,
        ;
        assert(q >= m) by (nonlinear_arith)
            requires
                2 * u * m + u <= x,
                x < 2 * u * q + 2 * u,
                u == 1_000_000_000_000,
        ;
    }
    if 0 <= p <= u {
        assert(0 <= p * m <= u * m) by (nonlinear_arith)
            requires
                0 <= p <= u,
                m >= 0,
        ;
        assert(q <= m) by (nonlinear_arith)
            requires
                2 * u * q <= x,
                x <= 2 * u * m + u,
                u == 1_000_000_000_000,
        ;
    }
}

/// How many of the distances are no larger than `d`.
pub open spec fn within(distances: Seq<i64>, d: int) -> nat {
    distances.filter(|x: i64| x <= d).len()
}

/// How many of the distances are smaller than `d`.
pub open spec fn short_of(distances: Seq<i64>, d: int) -> nat {
    distances.filter(|x: i64| x < d).len()
}

proof fn percentile_splits(distances: Seq<i64>, p: int)
    requires
        distances.len() > 0,
        0 <= p <= UNIT,
    ensures
        ({
            let v = percentile_of(distances, p);
            &&& distances.contains(v as i64)
            &&& v == v as i64
            &&& 2 * (p * (distances.len() - 1)) + UNIT < 2 * (UNIT * within(distances, v))
            &&& 2 * (UNIT * short_of(distances, v)) <= 2 * (p * (distances.len() - 1)) + UNIT
        }),
{
    let n = distances.len();
    let key = |d: i64| d as int;
    let s = sorted_distances(distances);
    let k = rank_of(n, p);
    let v = percentile_of(distances, p);
    rank_in_range(n, p);
    rank_is_nearest(n, p);
    stable_sort_ascending(distances, key);
    assert forall|i: int| 0 <= i < n implies distances.contains(#[trigger] distances[i]) by {}
    stable_sort_from(distances, key, |x: i64| distances.contains(x));
    assert(distances.contains(s[k]));
    let up_to = |x: i64| x <= v;
    let below = |x: i64| x < v;
    assert forall|i: int| 0 <= i < k + 1 implies up_to(#[trigger] s[i]) by {
        assert(key(s[i]) <= key(s[k]));
    }
    assert forall|i: int| k <= i < n implies !below(#[trigger] s[i]) by {
        assert(key(s[k]) <= key(s[i]));
    }
    first_count(s, up_to, k + 1);
    last_count(s, below, k);
    stable_sort_counts(distances, key, up_to);
    stable_sort_counts(distances, key, below);
    let a = within(distances, v) as int;
    let b = short_of(distances, v) as int;
    assert(UNIT * a >= UNIT * k + UNIT) by (nonlinear_arith)
        requires
            a >= k + 1,
            UNIT == 1_000_000_000_000,
    ;
    assert(UNIT * b <= UNIT * k) by (nonlinear_arith)
        requires
            b <= k,
            UNIT == 1_000_000_000_000,
    ;
}

/// Near ends at the one distance, of all that there are, that parts them at the share `near_pct`:
/// to within half an entity, no fewer than that share lie within it, and no more lie short of it.
pub proof fn near_takes_its_share(distances: Seq<i64>, near_pct: int, horizon_pct: int)
    requires
        distances.len() > 0,
        0 <= near_pct <= UNIT,
    ensures
        ({
            let near = thresholds_of(distances, near_pct, horizon_pct).near;
            let share = 2 * (near_pct * (distances.len() - 1)) + UNIT;
            &&& distances.contains(near)
            &&& share < 2 * (UNIT * within(distances, near as int))
            &&& 2 * (UNIT * short_of(distances, near as int)) <= share
        }),
{
    percentile_splits(distances, near_pct);
}

/// The horizon ends at the one distance that parts all of them at the share `horizon_pct`, or one
/// twentieth behind near, whichever is farther. So to within half an entity, no less than that
/// share is in sight.
pub proof fn horizon_takes_its_share(distances: Seq<i64>, near_pct: int, horizon_pct: int)
    requires
        distances.len() > 0,
        0 <= near_pct <= UNIT,
        0 <= horizon_pct <= UNIT,
        forall|j: int| 0 <= j < distances.len() ==> (#[trigger] distances[j]) <= i64::MAX - MARGIN,
    ensures
        ({
            let t = thresholds_of(distances, near_pct, horizon_pct);
            let share = 2 * (horizon_pct * (distances.len() - 1)) + UNIT;
            &&& t.near + 50_000_000_000 <= t.horizon
            &&& share < 2 * (UNIT * within(distances, t.horizon as int))
            &&& t.near + 50_000_000_000 < t.horizon ==> distances.contains(t.horizon) && 2 * (UNIT
                * short_of(distances, t.horizon as int)) <= share
        }),
{
    percentile_splits(distances, near_pct);
    percentile_splits(distances, horizon_pct);
    let t = thresholds_of(distances, near_pct, horizon_pct);
    let near = percentile_of(distances, near_pct);
    let v = percentile_of(distances, horizon_pct);
    let j = choose|j: int| 0 <= j < distances.len() && distances[j] == near as i64;
    assert(distances[j] <= i64::MAX - MARGIN);
    if v < near + MARGIN {
        within_grows(distances, v, t.horizon as int);
        let (a, b) = (within(distances, v) as int, within(distances, t.horizon as int) as int);
        assert(UNIT * a <= UNIT * b) by (nonlinear_arith)
            requires
                a <= b,
                UNIT == 1_000_000_000_000,
        ;
    }
}

proof fn within_grows(distances: Seq<i64>, d: int, e: int)
    requires
        d <= e,
    ensures
        within(distances, d) <= within(distances, e),
    decreases distances.len(),
{
    reveal(Seq::filter);
    if distances.len() > 0 {
        within_grows(distances.drop_last(), d, e);
    }
}

/// Where there is nothing to measure, near ends at thirty-five hundredths and the horizon at
/// sixty-five, whatever the shares.
pub proof fn empty_space_has_thresholds(near_pct: int, horizon_pct: int)
    ensures
        thresholds_of(Seq::empty(), near_pct, horizon_pct) == (DynamicThresholds {
            near: 350_000_000_000,
            horizon: 650_000_000_000,
        }),
{
}

/// What is in sight at a distance is a matter of the two thresholds alone, each of which still
/// belongs to what it ends.
pub proof fn thresholds_part_the_distances(t: DynamicThresholds, d: int)
    requires
        t.near <= t.horizon,
    ensures
        visibility_at(t, d) == Visibility::Near <==> d <= t.near,
        visibility_at(t, d) == Visibility::Horizon <==> t.near < d <= t.horizon,
        visibility_at(t, d) == Visibility::Beyond <==> t.horizon < d,
{
}

/// Each component counts by its own share: as long as a distance lies between zero and one, a
/// component that moves by a million steps moves the distance by as many steps as its share has
/// millionths.
pub proof fn components_count_by_their_shares(c: Seq<int>, k: int, w: DistanceWeights)
    requires
        c.len() == 5,
        0 < distance_of(c[0], c[1], c[2], c[3], c[4], w) < UNIT,
    ensures
        ({
            let d = distance_of(c[0], c[1], c[2], c[3], c[4], w);
            let m = 1_000_000 * k;
            &&& ({
                let e = distance_of(c[0] + m, c[1], c[2], c[3], c[4], w);
                0 < e < UNIT ==> e - d == w.semantic * k
            })
            &&& ({
                let e = distance_of(c[0], c[1] + m, c[2], c[3], c[4], w);
                0 < e < UNIT ==> e - d == w.relational * k
            })
            &&& ({
                let e = distance_of(c[0], c[1], c[2] + m, c[3], c[4], w);
                0 < e < UNIT ==> e - d == w.activity * k
            })
            &&& ({
                let e = distance_of(c[0], c[1], c[2], c[3] + m, c[4], w);
                0 < e < UNIT ==> e - d == w.temporal * k
            })
            &&& ({
                let e = distance_of(c[0], c[1], c[2], c[3], c[4] + m, w);
                0 < e < UNIT ==> e - d == w.attention * k
            })
        }),
{
    let x = weighed(c[0], c[1], c[2], c[3], c[4], w);
    moved_by(w.semantic, c[0], k, x);
    moved_by(w.relational, c[1], k, x);
    moved_by(w.activity, c[2], k, x);
    moved_by(w.temporal, c[3], k, x);
    moved_by(w.attention, c[4], k, x);
}

proof fn moved_by(share: i32, c: int, k: int, x: int)
    ensures
        share * (c + 1_000_000 * k) == share * c + 1_000_000 * (share * k),
        (x + 1_000_000 * (share * k)) / 1_000_000 == x / 1_000_000 + share * k,
{
    assert(share * (c + 1_000_000 * k) == share * c + 1_000_000 * (share * k))
        by (nonlinear_arith);
}

/// The distance that `n` steps make falls short of one by the `n + 1`st part of it, to within one
/// unit of the last place.
pub proof fn steps_leave_a_part(n: usize)
    ensures
        (UNIT - steps_distance(Some(n))) * (1 + n) <= UNIT < (UNIT - steps_distance(Some(n)) + 1)
            * (1 + n),
{
    let q = UNIT as int / (1 + n as int);
    let m = 1 + n as int;
    assert(q * m <= UNIT < (q + 1) * m) by (nonlinear_arith)
        requires
            q == UNIT as int / m,
            m >= 1,
    ;
}

/// Of an entity without relations nothing is known. Each relation up to the fourth brings it a
/// quarter closer, and with four or more it is right here.
pub proof fn relations_bring_closer(degree: nat)
    ensures
        degree == 0 ==> 2 * degree_component(degree) == UNIT,
        1 <= degree <= 4 ==> 4 * degree_component(degree) == UNIT * (4 - degree),
        degree >= 4 ==> degree_component(degree) == 0,
{
    if 1 <= degree < 4 {
        assert(degree == 1 || degree == 2 || degree == 3);
        assert(degree * (UNIT / 4) * 4 == degree * UNIT) by (nonlinear_arith)
            requires
                UNIT == 1_000_000_000_000,
        ;
    }
}

/// Of an entity without visits nothing is known. Otherwise its visits, against one more than
/// `most`, are what it falls short of one by, to within one unit of the last place.
pub proof fn visits_bring_closer(count: nat, most: nat)
    requires
        count <= most,
    ensures
        count == 0 ==> 2 * visits_component(count, most) == UNIT,
        count > 0 ==> (UNIT - visits_component(count, most)) * (most + 1) <= count * UNIT < (UNIT
            - visits_component(count, most) + 1) * (most + 1),
{
    if count > 0 {
        let x = count * UNIT as int;
        let m = most as int + 1;
        let q = x / m;
        assert(q * m <= x < (q + 1) * m) by (nonlinear_arith)
            requires
                q == x / m,
                m >= 1,
        ;
        assert(q <= UNIT) by (nonlinear_arith)
            requires
                q * m <= x,
                x == count * UNIT as int,
                count <= m,
                m >= 1,
                UNIT == 1_000_000_000_000,
        ;
    }
}

} // verus!
