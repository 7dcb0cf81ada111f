//! How often entities have been met, by everyone together.
use crate::text::{occurrences, occurrences_grow, occurs_iff_contained, texts};
use vstd::hash_map::StringHashMap;
use vstd::prelude::*;

verus! {

/// How often the entity with each label has been met.
pub struct Activity {
    counts: StringHashMap<u32>,
    most: u32,
}

impl View for Activity {
    type V = Map<Seq<char>, u32>;

    closed spec fn view(&self) -> Map<Seq<char>, u32> {
        self.counts@
    }
}

/// How often the entity with the given label has been met.
pub open spec fn count_of(m: Map<Seq<char>, u32>, label: Seq<char>) -> nat {
    if m.contains_key(label) {
        m[label] as nat
    } else {
        0
    }
}

/// `k` is the largest count, or one where nothing has been met.
pub open spec fn is_largest(m: Map<Seq<char>, u32>, k: nat) -> bool {
    if m == Map::<Seq<char>, u32>::empty() {
        k == 1
    } else {
        &&& exists|l: Seq<char>| #[trigger] m.contains_key(l) && m[l] == k
        &&& forall|l: Seq<char>| #[trigger] m.contains_key(l) ==> m[l] <= k
    }
}

/// The largest count, or one where nothing has been met.
pub open spec fn largest(m: Map<Seq<char>, u32>) -> nat {
    choose|k: nat| is_largest(m, k)
}

proof fn largest_is_unique(m: Map<Seq<char>, u32>, k: nat)
    requires
        is_largest(m, k),
    ensures
        largest(m) == k,
{
    let j = largest(m);
    assert(is_largest(m, j));
    if m != Map::<Seq<char>, u32>::empty() {
        let a = choose|l: Seq<char>| #[trigger] m.contains_key(l) && m[l] == k;
        let b = choose|l: Seq<char>| #[trigger] m.contains_key(l) && m[l] == j;
        assert(m.contains_key(a) && m.contains_key(b));
    }
}

impl Activity {
    /// The counts are not zero, and the largest of them is known.
    pub closed spec fn wf(self) -> bool {
        &&& forall|l: Seq<char>| #[trigger] self@.contains_key(l) ==> 1 <= self@[l] <= self.most
        &&& self@ != Map::<Seq<char>, u32>::empty() ==> exists|l: Seq<char>| #[trigger]
            self@.contains_key(l) && self@[l] == self.most
        &&& self@ == Map::<Seq<char>, u32>::empty() ==> self.most == 0
    }

    /// Nothing has been met yet.
    pub fn new() -> (r: Activity)
        ensures
            r.wf(),
            r@ == Map::<Seq<char>, u32>::empty(),
    {
        Activity { counts: StringHashMap::new(), most: 0 }
    }

    /// How often the entity with the given label has been met.
    pub fn count(&self, label: &str) -> (r: u32)
        ensures
            r == count_of(self@, label@),
    {
        match self.counts.get(label) {
            Some(c) => *c,
            None => 0,
        }
    }

    /// The largest count, or one where nothing has been met.
    pub fn largest_count(&self) -> (r: u32)
        requires
            self.wf(),
        ensures
            r == largest(self@),
            r >= 1,
    {
        let r: u32 = if self.most == 0 {
            1
        } else {
            self.most
        };
        proof {
            assert(self@ == Map::<Seq<char>, u32>::empty() <==> self.most == 0);
            assert(is_largest(self@, r as nat));
            largest_is_unique(self@, r as nat);
        }
        r
    }

    /// Counts one more meeting.
    pub fn record(&mut self, label: &str)
        requires
            old(self).wf(),
            count_of(old(self)@, label@) < u32::MAX,
        ensures
            final(self).wf(),
            final(self)@ == old(self)@.insert(label@, (count_of(old(self)@, label@) + 1) as u32),
    {
        let c: u32 = self.count(label) + 1;
        self.counts.insert(label.to_owned(), c);
        if c > self.most {
            self.most = c;
        }
        proof {
            assert(self@.contains_key(label@) && self@[label@] == c);
            if self.most != c {
                let l = choose|l: Seq<char>| #[trigger]
                    old(self)@.contains_key(l) && old(self)@[l] == old(self).most;
                assert(self@.contains_key(l) && self@[l] == self.most);
            }
            assert forall|l: Seq<char>| #[trigger] self@.contains_key(l) implies 1 <= self@[l]
                <= self.most by {
                if l != label@ {
                    assert(old(self)@.contains_key(l));
                }
            }
        }
    }

    /// Counts one more meeting for every label of the list, as often as it stands there.
    pub fn record_all(&mut self, labels: &Vec<String>)
        requires
            old(self).wf(),
            forall|l: Seq<char>|
                count_of(old(self)@, l) + #[trigger] occurrences(texts(labels@), l) <= u32::MAX,
        ensures
            final(self).wf(),
            forall|l: Seq<char>|
                count_of(final(self)@, l) == count_of(old(self)@, l) + #[trigger] occurrences(
                    texts(labels@),
                    l,
                ),
            forall|l: Seq<char>| #[trigger]
                final(self)@.contains_key(l) <==> old(self)@.contains_key(l) || texts(
                    labels@,
                ).contains(l),
    {
        let ghost all = texts(labels@);
        let mut i: usize = 0;
        while i < labels.len()
            invariant
                i <= labels@.len(),
                all == texts(labels@),
                self.wf(),
                forall|l: Seq<char>|
                    count_of(old(self)@, l) + #[trigger] occurrences(all, l) <= u32::MAX,
                forall|l: Seq<char>|
                    count_of(self@, l) == count_of(old(self)@, l) + #[trigger] occurrences(
                        all.take(i as int),
                        l,
                    ),
                forall|l: Seq<char>| #[trigger]
                    self@.contains_key(l) <==> old(self)@.contains_key(l) || occurrences(
                        all.take(i as int),
                        l,
                    ) > 0,
            decreases labels@.len() - i,
        {
            let ghost before = self@;
            let label = labels[i].as_str();
            proof {
                assert(all.take(i + 1).drop_last() =~= all.take(i as int));
                assert(all.take(i + 1).last() == label@);
                occurrences_grow(all, label@, i + 1);
                assert(occurrences(all.take(i + 1), label@) == occurrences(
                    all.take(i as int),
                    label@,
                ) + 1);
                assert(count_of(self@, label@) == count_of(old(self)@, label@) + occurrences(
                    all.take(i as int),
                    label@,
                ));
                assert(count_of(old(self)@, label@) + occurrences(all, label@) <= u32::MAX);
            }
            self.record(label);
            proof {
                assert forall|l: Seq<char>|
                    count_of(self@, l) == count_of(old(self)@, l) + #[trigger] occurrences(
                        all.take(i + 1),
                        l,
                    ) by {
                    assert(count_of(before, l) == count_of(old(self)@, l) + occurrences(
                        all.take(i as int),
                        l,
                    ));
                }
            }
            i = i + 1;
        }
        proof {
            assert(all.take(i as int) =~= all);
            assert forall|l: Seq<char>| #[trigger]
                self@.contains_key(l) <==> old(self)@.contains_key(l) || all.contains(l) by {
                occurs_iff_contained(all, l);
            }
        }
    }
}

/// The largest count is that of any label that no other outdoes, and one where nothing has been
/// met.
pub proof fn largest_is_outdone_by_none(m: Map<Seq<char>, u32>, label: Seq<char>)
    ensures
        m.contains_key(label) && (forall|l: Seq<char>| #[trigger]
            m.contains_key(l) ==> m[l] <= m[label]) ==> largest(m) == m[label],
        m == Map::<Seq<char>, u32>::empty() ==> largest(m) == 1,
{
    if m == Map::<Seq<char>, u32>::empty() {
        largest_is_unique(m, 1);
    } else if m.contains_key(label) && (forall|l: Seq<char>| #[trigger]
        m.contains_key(l) ==> m[l] <= m[label]) {
        assert(is_largest(m, m[label] as nat));
        largest_is_unique(m, m[label] as nat);
    }
}

/// What has never been met counts as met no times, and what has as often as is noted.
pub proof fn counts_are_as_noted(m: Map<Seq<char>, u32>, label: Seq<char>, c: u32)
    ensures
        count_of(m.insert(label, c), label) == c,
        count_of(m.remove(label), label) == 0,
        forall|l: Seq<char>|
            l != label ==> #[trigger] count_of(m.insert(label, c), l) == count_of(m, l),
{
}

} // verus!
