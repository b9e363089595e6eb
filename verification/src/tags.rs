//! Hit counts per tag.
use alloy_primitives::map::B256HashMap;
use alloy_primitives::map::FbBuildHasher;
use alloy_primitives::FixedBytes;
use vstd::prelude::*;

verus! {

/// `alloy_primitives::FixedBytes`, a byte array of fixed length.
#[verifier::external_type_specification]
#[verifier::external_body]
pub struct ExFixedBytes<const N: usize>(FixedBytes<N>);

/// `alloy_primitives::map::FbBuildHasher`, the hasher of the tag maps.
#[verifier::external_type_specification]
#[verifier::external_body]
pub struct ExFbBuildHasher<const N: usize>(FbBuildHasher<N>);

/// What a map of tags holds: the count of every tag in it.
pub uninterp spec fn tag_counts(map: B256HashMap<u64>) -> Map<Seq<u8>, u64>;

/// `B256HashMap::default`: a map without tags.
#[verifier::external_body]
pub(crate) fn empty_map() -> (fresh: B256HashMap<u64>)
    ensures
        forall|tag: Seq<u8>| !(#[trigger] tag_counts(fresh).contains_key(tag)),
{
    B256HashMap::default()
}

/// `HashMap::get`: the count of a tag, if the map holds the tag.
#[verifier::external_body]
pub(crate) fn get_count(map: &B256HashMap<u64>, tag: &[u8; 32]) -> (count: Option<u64>)
    ensures
        count == (if tag_counts(*map).contains_key(tag@) { Some(tag_counts(*map)[tag@]) } else { None }),
{
    map.get(&FixedBytes::from(*tag)).copied()
}

/// `HashMap::insert`: the tag gets the count, whether or not the map held the tag; every other tag
/// stays as it was.
#[verifier::external_body]
pub(crate) fn set_count(map: &mut B256HashMap<u64>, tag: &[u8; 32], count: u64)
    ensures
        tag_counts(*final(map)) == tag_counts(*old(map)).insert(tag@, count),
{
    map.insert(FixedBytes::from(*tag), count);
}

/// `HashMap::keys`: every tag of the map once, in no particular order.
#[verifier::external_body]
pub(crate) fn tags_of(map: &B256HashMap<u64>) -> (tags: Vec<[u8; 32]>)
    ensures
        forall|i: int| 0 <= i < tags@.len() ==> tag_counts(*map).contains_key((#[trigger] tags@[i])@),
        forall|tag: Seq<u8>| #[trigger] tag_counts(*map).contains_key(tag) ==> exists|i: int|
            0 <= i < tags@.len() && (#[trigger] tags@[i])@ == tag,
        forall|i: int, j: int| 0 <= i < j < tags@.len() ==> (#[trigger] tags@[i])@ != (#[trigger] tags@[j])@,
{
    map.keys().map(|tag| tag.0).collect()
}

/// `HashMap::clone`: a map with the same tags and counts.
#[verifier::external_body]
pub(crate) fn copy_map(map: &B256HashMap<u64>) -> (copy: B256HashMap<u64>)
    ensures
        tag_counts(copy) == tag_counts(*map),
{
    map.clone()
}

/// How often each probe was passed: a hit count per tag.
#[derive(Debug)]
pub struct InstrumentedHitMaps(pub B256HashMap<u64>);

impl View for InstrumentedHitMaps {
    type V = Map<Seq<u8>, u64>;

    open spec fn view(&self) -> Map<Seq<u8>, u64> {
        tag_counts(self.0)
    }
}

/// The count of a tag; a tag that is not there has been hit zero times.
pub open spec fn count_of(hits: Map<Seq<u8>, u64>, tag: Seq<u8>) -> nat {
    if hits.contains_key(tag) { hits[tag] as nat } else { 0 }
}

/// The sum of two maps can be held: no count of it is out of range.
pub open spec fn can_add(a: Map<Seq<u8>, u64>, b: Map<Seq<u8>, u64>) -> bool {
    forall|tag: Seq<u8>| count_of(a, tag) + #[trigger] count_of(b, tag) <= u64::MAX
}

/// The tags of both maps, each with the sum of its two counts.
pub open spec fn added(a: Map<Seq<u8>, u64>, b: Map<Seq<u8>, u64>) -> Map<Seq<u8>, u64> {
    Map::new(
        |tag: Seq<u8>| a.contains_key(tag) || b.contains_key(tag),
        |tag: Seq<u8>| (count_of(a, tag) + count_of(b, tag)) as u64,
    )
}

/// One of the first `n` tags is `tag`.
pub open spec fn among(tags: Seq<[u8; 32]>, n: int, tag: Seq<u8>) -> bool {
    exists|i: int| 0 <= i < n && (#[trigger] tags[i])@ == tag
}

impl InstrumentedHitMaps {
    /// No tag was hit.
    pub fn new() -> (hits: Self)
        ensures
            hits@ == Map::<Seq<u8>, u64>::empty(),
    {
        let hits = InstrumentedHitMaps(empty_map());
        assert(hits@ =~= Map::empty());
        hits
    }

    /// The hit count of a tag, if it was hit.
    pub fn get(&self, tag: &[u8; 32]) -> (count: Option<u64>)
        ensures
            count == (if self@.contains_key(tag@) { Some(self@[tag@]) } else { None }),
    {
        get_count(&self.0, tag)
    }

    /// Records one more hit of a tag.
    pub fn hit(&mut self, tag: [u8; 32])
        requires
            count_of(old(self)@, tag@) < u64::MAX,
        ensures
            final(self)@ == old(self)@.insert(tag@, (count_of(old(self)@, tag@) + 1) as u64),
    {
        let count: u64 = match get_count(&self.0, &tag) {
            Some(count) => count,
            None => 0,
        };
        set_count(&mut self.0, &tag, count + 1);
    }

    /// Adds the counts of `other`.
    pub fn merge_ref(&mut self, other: &Self)
        requires
            can_add(old(self)@, other@),
        ensures
            final(self)@ == added(old(self)@, other@),
    {
        let tags = tags_of(&other.0);
        let ghost start = self@;
        let mut n: usize = 0;
        while n < tags.len()
            invariant
                n <= tags@.len(),
                start == old(self)@,
                can_add(start, other@),
                forall|i: int| 0 <= i < tags@.len() ==> other@.contains_key((#[trigger] tags@[i])@),
                forall|i: int, j: int|
                    0 <= i < j < tags@.len() ==> (#[trigger] tags@[i])@ != (#[trigger] tags@[j])@,
                forall|tag: Seq<u8>| #[trigger] self@.contains_key(tag) <==> start.contains_key(tag) || among(tags@, n as int, tag),
                forall|tag: Seq<u8>|
                    count_of(self@, tag) == #[trigger] count_of(start, tag) + (if among(tags@, n as int, tag) {
                        count_of(other@, tag)
                    } else {
                        0
                    }),
            decreases tags@.len() - n,
        {
            let tag = tags[n];
            let ghost before = self@;
            let more: u64 = match get_count(&other.0, &tag) {
                Some(count) => count,
                None => 0,
            };
            let count: u64 = match get_count(&self.0, &tag) {
                Some(count) => count,
                None => 0,
            };
            assert(!among(tags@, n as int, tag@));
            assert(count == count_of(start, tag@) && more == count_of(other@, tag@));
            set_count(&mut self.0, &tag, count + more);
            proof {
                assert forall|t: Seq<u8>| #[trigger] among(tags@, n + 1, t) == (among(tags@, n as int, t) || t == tag@) by {
                    if t == tag@ {
                        assert(tags@[n as int]@ == t);
                    }
                    if among(tags@, n as int, t) {
                        let i = choose|i: int| 0 <= i < n && (#[trigger] tags@[i])@ == t;
                        assert(0 <= i < n + 1 && tags@[i]@ == t);
                    }
                }
                assert forall|t: Seq<u8>| #[trigger] self@.contains_key(t) <==> start.contains_key(t) || among(tags@, n + 1, t) by {
                    assert(before.contains_key(t) <==> start.contains_key(t) || among(tags@, n as int, t));
                }
            }
            n += 1;
        }
        proof {
            assert forall|t: Seq<u8>| #[trigger] among(tags@, n as int, t) == other@.contains_key(t) by {
                if other@.contains_key(t) {
                    let i = choose|i: int| 0 <= i < tags@.len() && (#[trigger] tags@[i])@ == t;
                    assert(0 <= i < n && tags@[i]@ == t);
                }
            }
            assert forall|t: Seq<u8>| self@.contains_key(t) implies #[trigger] self@[t] == added(start, other@)[t] by {
                assert(count_of(self@, t) == count_of(start, t) + count_of(other@, t));
            }
            assert(self@ =~= added(start, other@));
        }
    }

    /// Adds the counts of `other`.
    pub fn merge(&mut self, other: Self)
        requires
            can_add(old(self)@, other@),
        ensures
            final(self)@ == added(old(self)@, other@),
    {
        self.merge_ref(&other);
    }

    /// Adds `other` to the hits, if both are there; with only one of them, that one is kept as it is.
    pub fn merge_opt(a: &mut Option<Self>, b: Option<Self>)
        requires
            (*old(a) is Some && b is Some) ==> can_add(old(a)->0@, b->0@),
        ensures
            *old(a) is None ==> *final(a) == b,
            b is None ==> *final(a) == *old(a),
            (*old(a) is Some && b is Some) ==> *final(a) is Some && final(a)->0@ == added(old(a)->0@, b->0@),
    {
        match b {
            None => {},
            Some(other) => {
                match a {
                    Some(hits) => hits.merge_ref(&other),
                    None => {
                        *a = Some(other);
                    },
                }
            },
        }
    }
}

impl Clone for InstrumentedHitMaps {
    fn clone(&self) -> (copy: Self)
        ensures
            copy@ == self@,
    {
        InstrumentedHitMaps(copy_map(&self.0))
    }
}

/// A tag of either map is in the sum, with the hits that it has in both.
pub proof fn added_hits_add_up(a: Map<Seq<u8>, u64>, b: Map<Seq<u8>, u64>, tag: Seq<u8>)
    requires
        can_add(a, b),
    ensures
        added(a, b).contains_key(tag) <==> a.contains_key(tag) || b.contains_key(tag),
        a.contains_key(tag) && b.contains_key(tag) ==> added(a, b)[tag] == a[tag] + b[tag],
        a.contains_key(tag) && !b.contains_key(tag) ==> added(a, b)[tag] == a[tag],
        !a.contains_key(tag) && b.contains_key(tag) ==> added(a, b)[tag] == b[tag],
{
    assert(count_of(a, tag) + count_of(b, tag) <= u64::MAX);
}

/// Adding hits works in either order.
pub proof fn added_commutes(a: Map<Seq<u8>, u64>, b: Map<Seq<u8>, u64>)
    ensures
        added(a, b) == added(b, a),
{
    assert(added(a, b) =~= added(b, a));
}

/// Hits can be added in any grouping.
pub proof fn added_associates(a: Map<Seq<u8>, u64>, b: Map<Seq<u8>, u64>, c: Map<Seq<u8>, u64>)
    requires
        can_add(a, b),
        can_add(b, c),
        can_add(added(a, b), c),
    ensures
        added(added(a, b), c) == added(a, added(b, c)),
{
    assert forall|tag: Seq<u8>| added(added(a, b), c).contains_key(tag) implies #[trigger] added(added(a, b), c)[tag]
        == added(a, added(b, c))[tag] by {
        assert(count_of(a, tag) + count_of(b, tag) <= u64::MAX);
        assert(count_of(b, tag) + count_of(c, tag) <= u64::MAX);
    }
    assert(added(added(a, b), c) =~= added(a, added(b, c)));
}

/// Adding no hits changes nothing.
pub proof fn added_nothing(a: Map<Seq<u8>, u64>)
    ensures
        added(a, Map::empty()) == a,
{
    assert(added(a, Map::empty()) =~= a);
}

}
