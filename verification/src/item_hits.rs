//! Resolves hit counts of tags to hits of items.
use crate::instrumented::{
    adds_to, compatible, consistent, decides, raises, same_pair, InstrumentedCoverageItemIds,
    InstrumentedCoverageTagIndex, InstrumentedRequireBranchIds, InstrumentedRequireProbeRole,
};
use crate::order::Keyed;
use crate::items::CoverageItem;
use crate::report::{make_numbered_key, make_text_key, numbered_key, numbered_key_injective, with_hits, CoverageReport};
use crate::table::{ascending, by_key, by_key_of_entry, has_key, Table};
use crate::tags::{
    added, among, can_add, count_of, empty_map, get_count, set_count, tag_counts, tags_of, InstrumentedHitMaps,
};
use crate::tally::{max_over, max_over_insert, max_over_same, sum_over, sum_over_insert, sum_over_same};
use crate::text::{text_key, text_key_injective};
use vstd::prelude::*;

verus! {

/// The hits of an item of a build.
#[derive(Debug)]
pub struct ItemHit {
    pub build_id: String,
    pub item_id: usize,
    pub hits: u32,
}

impl Keyed for ItemHit {
    open spec fn sort_key(&self) -> Seq<u64> {
        numbered_key(self.build_id@, self.item_id)
    }

    fn make_key(&self) -> (key: Vec<u64>) {
        make_numbered_key(self.build_id.as_str(), self.item_id)
    }
}

/// The hits of an item; an item that is not there has none.
pub open spec fn hits_at(hits: Map<Seq<u64>, ItemHit>, build: Seq<char>, item: usize) -> nat {
    if hits.contains_key(numbered_key(build, item)) {
        hits[numbered_key(build, item)].hits as nat
    } else {
        0
    }
}

/// What the maps hold, map by map.
pub open spec fn map_views(maps: Seq<&InstrumentedHitMaps>) -> Seq<Map<Seq<u8>, u64>> {
    Seq::new(maps.len(), |i: int| maps[i]@)
}

/// The hits of a tag in all maps together.
pub open spec fn total_hits(maps: Seq<Map<Seq<u8>, u64>>, tag: Seq<u8>) -> nat
    decreases maps.len(),
{
    if maps.len() == 0 {
        0
    } else {
        total_hits(maps.drop_last(), tag) + count_of(maps.last(), tag)
    }
}

/// A count as far as an item can hold it.
pub open spec fn capped(n: nat) -> nat {
    if n > u32::MAX { u32::MAX as nat } else { n }
}

/// One of the maps holds the tag.
pub open spec fn was_hit(maps: Seq<Map<Seq<u8>, u64>>, tag: Seq<u8>) -> bool {
    exists|m: int| 0 <= m < maps.len() && (#[trigger] maps[m]).contains_key(tag)
}

/// The tags of the maps that the index knows.
pub open spec fn known_tags(
    index: Map<Seq<u8>, InstrumentedCoverageItemIds>,
    maps: Seq<Map<Seq<u8>, u64>>,
) -> Set<Seq<u8>> {
    Set::new(|tag: Seq<u8>| index.contains_key(tag) && was_hit(maps, tag))
}

/// What a tag adds to an item: its hits, for the statement and for the branch path it counts for.
pub open spec fn adding(
    index: Map<Seq<u8>, InstrumentedCoverageItemIds>,
    maps: Seq<Map<Seq<u8>, u64>>,
    build: Seq<char>,
    item: usize,
) -> spec_fn(Seq<u8>) -> nat {
    |tag: Seq<u8>|
        {
            let hits = capped(total_hits(maps, tag));
            let ids = index[tag];
            if ids.build_id@ == build {
                (if ids.statement_item_id == Some(item) { hits } else { 0 }) + (if ids.branch_item_id == Some(item) {
                    hits
                } else {
                    0
                })
            } else {
                0
            }
        }
}

/// What an item is raised to by a tag: its hits, for the line and for the function it counts for.
pub open spec fn raising(
    index: Map<Seq<u8>, InstrumentedCoverageItemIds>,
    maps: Seq<Map<Seq<u8>, u64>>,
    build: Seq<char>,
    item: usize,
) -> spec_fn(Seq<u8>) -> nat {
    |tag: Seq<u8>| if raises(index[tag], build, item) { capped(total_hits(maps, tag)) } else { 0 }
}

/// What a tag adds to one side of a requirement.
pub open spec fn deciding(
    index: Map<Seq<u8>, InstrumentedCoverageItemIds>,
    maps: Seq<Map<Seq<u8>, u64>>,
    build: Seq<char>,
    ids: InstrumentedRequireBranchIds,
) -> spec_fn(Seq<u8>) -> nat {
    |tag: Seq<u8>|
        if index[tag].build_id@ == build && index[tag].require_branch == Some(ids) {
            capped(total_hits(maps, tag))
        } else {
            0
        }
}

/// The item is one whose hits add up.
pub open spec fn is_sum(index: Map<Seq<u8>, InstrumentedCoverageItemIds>, build: Seq<char>, item: usize) -> bool {
    exists|tag: Seq<u8>| #[trigger] index.contains_key(tag) && adds_to(index[tag], build, item)
}

/// The hits of an item from the tags in `tags`, requirements left aside: statements and branch paths
/// add up the hits of their tags, lines and functions take the largest.
pub open spec fn plain_hits(
    index: Map<Seq<u8>, InstrumentedCoverageItemIds>,
    tags: Set<Seq<u8>>,
    maps: Seq<Map<Seq<u8>, u64>>,
    build: Seq<char>,
    item: usize,
) -> nat {
    if is_sum(index, build, item) {
        capped(sum_over(tags, adding(index, maps, build, item)))
    } else {
        max_over(tags, raising(index, maps, build, item))
    }
}

/// How often one side of a requirement was passed.
pub open spec fn side_hits(
    index: Map<Seq<u8>, InstrumentedCoverageItemIds>,
    tags: Set<Seq<u8>>,
    maps: Seq<Map<Seq<u8>, u64>>,
    build: Seq<char>,
    pair: InstrumentedRequireBranchIds,
    role: InstrumentedRequireProbeRole,
) -> nat {
    let ids = InstrumentedRequireBranchIds {
        role,
        false_item_id: pair.false_item_id,
        true_item_id: pair.true_item_id,
    };
    capped(sum_over(tags, deciding(index, maps, build, ids)))
}

/// One number less another, or nothing where that is not smaller.
pub open spec fn excess(a: nat, b: nat) -> nat {
    if a > b { (a - b) as nat } else { 0 }
}

/// The hits of a path of a requirement: it was met as often as the probe behind it was passed, and
/// failed as often as the probe before it was passed beyond that.
pub open spec fn outcome_hits(
    index: Map<Seq<u8>, InstrumentedCoverageItemIds>,
    tags: Set<Seq<u8>>,
    maps: Seq<Map<Seq<u8>, u64>>,
    build: Seq<char>,
    pair: InstrumentedRequireBranchIds,
    item: usize,
) -> nat {
    let pre = side_hits(index, tags, maps, build, pair, InstrumentedRequireProbeRole::Pre);
    let post = side_hits(index, tags, maps, build, pair, InstrumentedRequireProbeRole::Post);
    if item == pair.true_item_id { post } else { excess(pre, post) }
}

/// A tag of `tags` stands on a side of the requirement that the item is a path of.
pub open spec fn is_decided(
    index: Map<Seq<u8>, InstrumentedCoverageItemIds>,
    tags: Set<Seq<u8>>,
    build: Seq<char>,
    item: usize,
) -> bool {
    exists|tag: Seq<u8>| #[trigger] tags.contains(tag) && decides(index[tag], build, item)
}

/// The requirement that the item is a path of.
pub open spec fn deciding_pair(
    index: Map<Seq<u8>, InstrumentedCoverageItemIds>,
    tags: Set<Seq<u8>>,
    build: Seq<char>,
    item: usize,
) -> InstrumentedRequireBranchIds {
    index[choose|tag: Seq<u8>| #[trigger] tags.contains(tag) && decides(index[tag], build, item)].require_branch->0
}

/// The hits of an item from the tags in `tags`.
pub open spec fn resolved_hits(
    index: Map<Seq<u8>, InstrumentedCoverageItemIds>,
    tags: Set<Seq<u8>>,
    maps: Seq<Map<Seq<u8>, u64>>,
    build: Seq<char>,
    item: usize,
) -> nat {
    if is_decided(index, tags, build, item) {
        outcome_hits(index, tags, maps, build, deciding_pair(index, tags, build, item), item)
    } else {
        plain_hits(index, tags, maps, build, item)
    }
}

/// The total of every tag can be held.
pub open spec fn totals_fit(maps: Seq<Map<Seq<u8>, u64>>) -> bool {
    forall|tag: Seq<u8>| #[trigger] total_hits(maps, tag) <= u64::MAX
}

proof fn total_hits_grows(maps: Seq<Map<Seq<u8>, u64>>, n: int, tag: Seq<u8>)
    requires
        0 <= n <= maps.len(),
    ensures
        total_hits(maps.take(n), tag) <= total_hits(maps, tag),
    decreases maps.len(),
{
    if n == maps.len() {
        assert(maps.take(n) =~= maps);
    } else {
        total_hits_grows(maps.drop_last(), n, tag);
        assert(maps.drop_last().take(n) =~= maps.take(n));
    }
}

/// Adds up the hits of a tag in all maps, as far as an item can hold them.
fn tag_total(maps: &[&InstrumentedHitMaps], tag: &[u8; 32]) -> (hits: u32)
    requires
        totals_fit(map_views(maps@)),
    ensures
        hits == capped(total_hits(map_views(maps@), tag@)),
{
    let ghost views = map_views(maps@);
    let mut total: u64 = 0;
    let mut m: usize = 0;
    while m < maps.len()
        invariant
            views == map_views(maps@),
            totals_fit(views),
            m <= maps@.len(),
            total == total_hits(views.take(m as int), tag@),
        decreases maps@.len() - m,
    {
        let count: u64 = match get_count(&maps[m].0, tag) {
            Some(count) => count,
            None => 0,
        };
        proof {
            assert(views.take(m + 1).drop_last() =~= views.take(m as int));
            assert(views.take(m + 1).last() == maps@[m as int]@);
            total_hits_grows(views, m + 1, tag@);
        }
        total = total + count;
        m += 1;
    }
    assert(views.take(m as int) =~= views);
    if total > u32::MAX as u64 { u32::MAX } else { total as u32 }
}

/// The tags of all maps, each once.
fn distinct_tags(maps: &[&InstrumentedHitMaps]) -> (tags: Vec<[u8; 32]>)
    ensures
        forall|tag: Seq<u8>| #[trigger]
            was_hit(map_views(maps@), tag) <==> among(tags@, tags@.len() as int, tag),
        forall|i: int, j: int| 0 <= i < j < tags@.len() ==> (#[trigger] tags@[i])@ != (#[trigger] tags@[j])@,
{
    let ghost views = map_views(maps@);
    let mut seen = empty_map();
    let mut tags: Vec<[u8; 32]> = Vec::new();
    let mut m: usize = 0;
    while m < maps.len()
        invariant
            views == map_views(maps@),
            m <= maps@.len(),
            forall|tag: Seq<u8>| #[trigger]
                tag_counts(seen).contains_key(tag) <==> among(tags@, tags@.len() as int, tag),
            forall|tag: Seq<u8>| #[trigger]
                was_hit(views.take(m as int), tag) <==> among(tags@, tags@.len() as int, tag),
            forall|i: int, j: int| 0 <= i < j < tags@.len() ==> (#[trigger] tags@[i])@ != (#[trigger] tags@[j])@,
        decreases maps@.len() - m,
    {
        let own = tags_of(&maps[m].0);
        let ghost start = tags@;
        let mut n: usize = 0;
        while n < own.len()
            invariant
                n <= own@.len(),
                forall|tag: Seq<u8>| #[trigger]
                    tag_counts(seen).contains_key(tag) <==> among(tags@, tags@.len() as int, tag),
                forall|tag: Seq<u8>| #[trigger]
                    among(tags@, tags@.len() as int, tag) <==> among(start, start.len() as int, tag) || among(
                        own@,
                        n as int,
                        tag,
                    ),
                forall|i: int, j: int|
                    0 <= i < j < tags@.len() ==> (#[trigger] tags@[i])@ != (#[trigger] tags@[j])@,
            decreases own@.len() - n,
        {
            let tag = own[n];
            let ghost before = tags@;
            proof {
                assert forall|t: Seq<u8>| #[trigger] among(own@, n + 1, t) <==> among(own@, n as int, t) || t
                    == tag@ by {
                    among_grows(own@, n as int, t);
                }
            }
            if get_count(&seen, &tag).is_none() {
                set_count(&mut seen, &tag, 1);
                assert(!among(before, before.len() as int, tag@));
                tags.push(tag);
                proof {
                    assert forall|t: Seq<u8>| #[trigger] among(tags@, tags@.len() as int, t) <==> among(
                        before,
                        before.len() as int,
                        t,
                    ) || t == tag@ by {
                        among_grows(tags@, before.len() as int, t);
                        among_prefix(before, tag, t);
                    }
                    assert forall|i: int, j: int| 0 <= i < j < tags@.len() implies (#[trigger] tags@[i])@
                        != (#[trigger] tags@[j])@ by {
                        if j == before.len() {
                            assert(before[i]@ == tags@[i]@);
                        }
                    }
                }
            }
            n += 1;
        }
        proof {
            assert forall|tag: Seq<u8>| #[trigger] was_hit(views.take(m + 1), tag) <==> among(
                tags@,
                tags@.len() as int,
                tag,
            ) by {
                let now = views.take(m + 1);
                let before = views.take(m as int);
                assert(now[m as int] == maps@[m as int]@);
                if was_hit(now, tag) {
                    let k = choose|k: int| 0 <= k < now.len() && (#[trigger] now[k]).contains_key(tag);
                    if k < m {
                        assert(before[k] == now[k]);
                        assert(was_hit(before, tag));
                    } else {
                        let i = choose|i: int| 0 <= i < own@.len() && (#[trigger] own@[i])@ == tag;
                        assert(among(own@, own@.len() as int, tag));
                    }
                }
                if among(own@, own@.len() as int, tag) {
                    let i = choose|i: int| 0 <= i < own@.len() && (#[trigger] own@[i])@ == tag;
                    assert(now[m as int].contains_key(own@[i]@));
                }
                if was_hit(before, tag) {
                    let k = choose|k: int| 0 <= k < before.len() && (#[trigger] before[k]).contains_key(tag);
                    assert(now[k] == before[k]);
                }
            }
        }
        m += 1;
    }
    assert(views.take(m as int) =~= views);
    tags
}

proof fn among_grows(tags: Seq<[u8; 32]>, n: int, tag: Seq<u8>)
    requires
        0 <= n < tags.len(),
    ensures
        among(tags, n + 1, tag) <==> among(tags, n, tag) || tag == tags[n]@,
{
    if among(tags, n, tag) {
        let i = choose|i: int| 0 <= i < n && (#[trigger] tags[i])@ == tag;
        assert(0 <= i < n + 1 && tags[i]@ == tag);
    }
    if tag == tags[n]@ {
        assert(0 <= n < n + 1 && tags[n]@ == tag);
    }
}

proof fn among_prefix(tags: Seq<[u8; 32]>, last: [u8; 32], tag: Seq<u8>)
    ensures
        among(tags.push(last), tags.len() as int, tag) <==> among(tags, tags.len() as int, tag),
{
    if among(tags, tags.len() as int, tag) {
        let i = choose|i: int| 0 <= i < tags.len() && (#[trigger] tags[i])@ == tag;
        assert(tags.push(last)[i]@ == tag);
    }
    if among(tags.push(last), tags.len() as int, tag) {
        let i = choose|i: int| 0 <= i < tags.len() && (#[trigger] tags.push(last)[i])@ == tag;
        assert(tags[i]@ == tag);
    }
}

/// How often the two sides of a requirement were passed.
struct InstrumentedRequireBranchHits {
    build_id: String,
    false_item_id: usize,
    true_item_id: usize,
    pre: u32,
    post: u32,
}

spec fn pair_key(build: Seq<char>, fails: usize, holds: usize) -> Seq<u64> {
    text_key(build) + seq![fails as u64, holds as u64]
}

proof fn pair_key_injective(a: Seq<char>, f: usize, h: usize, b: Seq<char>, g: usize, i: usize)
    requires
        pair_key(a, f, h) == pair_key(b, g, i),
    ensures
        a == b,
        f == g,
        h == i,
{
    let x = seq![f as u64, h as u64];
    let y = seq![g as u64, i as u64];
    text_key_injective(a, x, b, y);
    assert(x[0] == y[0] && x[1] == y[1]);
}

impl Keyed for InstrumentedRequireBranchHits {
    closed spec fn sort_key(&self) -> Seq<u64> {
        pair_key(self.build_id@, self.false_item_id, self.true_item_id)
    }

    fn make_key(&self) -> (key: Vec<u64>) {
        let mut key = make_text_key(self.build_id.as_str());
        key.push(self.false_item_id as u64);
        key.push(self.true_item_id as u64);
        assert(key@ =~= self.sort_key());
        key
    }
}

/// How often a side was passed according to the table.
spec fn side_at(
    table: Map<Seq<u64>, InstrumentedRequireBranchHits>,
    build: Seq<char>,
    pair: InstrumentedRequireBranchIds,
    role: InstrumentedRequireProbeRole,
) -> nat {
    let key = pair_key(build, pair.false_item_id, pair.true_item_id);
    if table.contains_key(key) {
        match role {
            InstrumentedRequireProbeRole::Pre => table[key].pre as nat,
            InstrumentedRequireProbeRole::Post => table[key].post as nat,
        }
    } else {
        0
    }
}

/// A tag of `tags` stands on a side of the requirement.
spec fn is_pair(
    index: Map<Seq<u8>, InstrumentedCoverageItemIds>,
    tags: Set<Seq<u8>>,
    build: Seq<char>,
    fails: usize,
    holds: usize,
) -> bool {
    exists|tag: Seq<u8>| #[trigger] tags.contains(tag) && is_side(index[tag], build, fails, holds)
}

spec fn is_side(ids: InstrumentedCoverageItemIds, build: Seq<char>, fails: usize, holds: usize) -> bool {
    &&& ids.build_id@ == build
    &&& ids.require_branch is Some
    &&& ids.require_branch->0.false_item_id == fails
    &&& ids.require_branch->0.true_item_id == holds
}

/// Adds hits to those of an item.
fn add_to(items: &mut Table<ItemHit>, build_id: &String, item_id: usize, hits: u32)
    requires
        old(items).wf(),
    ensures
        final(items).wf(),
        forall|b: Seq<char>, i: usize| #[trigger]
            hits_at(final(items)@, b, i) == (if b == build_id@ && i == item_id {
                capped(hits_at(old(items)@, b, i) + hits as nat)
            } else {
                hits_at(old(items)@, b, i)
            }),
{
    let key = make_numbered_key(build_id.as_str(), item_id);
    let before: u32 = match items.find(&key) {
        Some(at) => items.entries[at].hits,
        None => 0,
    };
    set_hits(items, build_id, item_id, before.saturating_add(hits));
}

/// Raises the hits of an item to `hits`, unless it has more.
fn raise_to(items: &mut Table<ItemHit>, build_id: &String, item_id: usize, hits: u32)
    requires
        old(items).wf(),
    ensures
        final(items).wf(),
        forall|b: Seq<char>, i: usize| #[trigger]
            hits_at(final(items)@, b, i) == (if b == build_id@ && i == item_id && hits > hits_at(
                old(items)@,
                b,
                i,
            ) {
                hits as nat
            } else {
                hits_at(old(items)@, b, i)
            }),
{
    let key = make_numbered_key(build_id.as_str(), item_id);
    let before: u32 = match items.find(&key) {
        Some(at) => items.entries[at].hits,
        None => 0,
    };
    if hits > before {
        set_hits(items, build_id, item_id, hits);
    }
}

/// Sets the hits of an item.
fn set_hits(items: &mut Table<ItemHit>, build_id: &String, item_id: usize, hits: u32)
    requires
        old(items).wf(),
    ensures
        final(items).wf(),
        forall|b: Seq<char>, i: usize| #[trigger]
            hits_at(final(items)@, b, i) == (if b == build_id@ && i == item_id {
                hits as nat
            } else {
                hits_at(old(items)@, b, i)
            }),
{
    items.put(ItemHit { build_id: build_id.clone(), item_id, hits });
    proof {
        assert forall|b: Seq<char>, i: usize| #[trigger] numbered_key(b, i) == numbered_key(build_id@, item_id) implies b
            == build_id@ && i == item_id by {
            numbered_key_injective(b, i, build_id@, item_id);
        }
    }
}

/// Adds hits to one side of a requirement.
fn add_to_side(
    table: &mut Table<InstrumentedRequireBranchHits>,
    build_id: &String,
    ids: &InstrumentedRequireBranchIds,
    hits: u32,
)
    requires
        old(table).wf(),
    ensures
        final(table).wf(),
        forall|key: Seq<u64>| #[trigger]
            final(table)@.contains_key(key) <==> old(table)@.contains_key(key) || key == pair_key(
                build_id@,
                ids.false_item_id,
                ids.true_item_id,
            ),
        forall|b: Seq<char>, pair: InstrumentedRequireBranchIds, role: InstrumentedRequireProbeRole| #[trigger]
            side_at(final(table)@, b, pair, role) == (if b == build_id@ && same_pair(pair, *ids) && role == ids.role {
                capped(side_at(old(table)@, b, pair, role) + hits as nat)
            } else {
                side_at(old(table)@, b, pair, role)
            }),
{
    let mut entry = InstrumentedRequireBranchHits {
        build_id: build_id.clone(),
        false_item_id: ids.false_item_id,
        true_item_id: ids.true_item_id,
        pre: 0,
        post: 0,
    };
    let key = entry.make_key();
    if let Some(at) = table.find(&key) {
        entry.pre = table.entries[at].pre;
        entry.post = table.entries[at].post;
    }
    match ids.role {
        InstrumentedRequireProbeRole::Pre => {
            entry.pre = entry.pre.saturating_add(hits);
        },
        InstrumentedRequireProbeRole::Post => {
            entry.post = entry.post.saturating_add(hits);
        },
    }
    table.put(entry);
    proof {
        assert forall|b: Seq<char>, pair: InstrumentedRequireBranchIds, role: InstrumentedRequireProbeRole| #[trigger]
            side_at(table@, b, pair, role) == (if b == build_id@ && same_pair(pair, *ids) && role == ids.role {
                capped(side_at(old(table)@, b, pair, role) + hits as nat)
            } else {
                side_at(old(table)@, b, pair, role)
            }) by {
            if pair_key(b, pair.false_item_id, pair.true_item_id) == key@ {
                pair_key_injective(
                    b,
                    pair.false_item_id,
                    pair.true_item_id,
                    build_id@,
                    ids.false_item_id,
                    ids.true_item_id,
                );
            }
        }
    }
}

/// The known tags among the first `n`.
spec fn known_among(
    index: Map<Seq<u8>, InstrumentedCoverageItemIds>,
    tags: Seq<[u8; 32]>,
    n: int,
) -> Set<Seq<u8>>
    decreases n,
{
    if n <= 0 {
        Set::empty()
    } else if index.contains_key(tags[n - 1]@) {
        known_among(index, tags, n - 1).insert(tags[n - 1]@)
    } else {
        known_among(index, tags, n - 1)
    }
}

proof fn known_among_holds(index: Map<Seq<u8>, InstrumentedCoverageItemIds>, tags: Seq<[u8; 32]>, n: int)
    requires
        0 <= n <= tags.len(),
    ensures
        known_among(index, tags, n).finite(),
        forall|tag: Seq<u8>| #[trigger]
            known_among(index, tags, n).contains(tag) <==> index.contains_key(tag) && among(tags, n, tag),
    decreases n,
{
    if n > 0 {
        known_among_holds(index, tags, n - 1);
        assert forall|tag: Seq<u8>| #[trigger]
            known_among(index, tags, n).contains(tag) <==> index.contains_key(tag) && among(tags, n, tag) by {
            among_grows(tags, n - 1, tag);
        }
    }
}

/// One more tag: what the item has from it.
proof fn plain_hits_insert(
    index: Map<Seq<u8>, InstrumentedCoverageItemIds>,
    tags: Set<Seq<u8>>,
    maps: Seq<Map<Seq<u8>, u64>>,
    tag: Seq<u8>,
    build: Seq<char>,
    item: usize,
)
    requires
        tags.finite(),
        !tags.contains(tag),
        index.contains_key(tag),
        consistent(index),
    ensures
        ({
            let ids = index[tag];
            let hits = capped(total_hits(maps, tag));
            let start = plain_hits(index, tags, maps, build, item);
            let own = ids.build_id@ == build;
            let first = if own && ids.statement_item_id == Some(item) { capped(start + hits) } else { start };
            let second = if own && ids.branch_item_id == Some(item) { capped(first + hits) } else { first };
            let third = if own && ids.function_item_id == Some(item) && hits > second { hits } else { second };
            let fourth = if own && ids.line_item_id == item && hits > third { hits } else { third };
            plain_hits(index, tags.insert(tag), maps, build, item) == fourth
        }),
{
    let ids = index[tag];
    sum_over_insert(tags, adding(index, maps, build, item), tag);
    max_over_insert(tags, raising(index, maps, build, item), tag);
    if is_sum(index, build, item) {
        let other = choose|t: Seq<u8>| #[trigger] index.contains_key(t) && adds_to(index[t], build, item);
        if ids.build_id@ == build {
            assert(compatible(index[other], index[tag]));
            assert(!raises(index[tag], build, item));
        }
    } else {
        assert(!adds_to(index[tag], build, item));
    }
}

proof fn side_hits_insert(
    index: Map<Seq<u8>, InstrumentedCoverageItemIds>,
    tags: Set<Seq<u8>>,
    maps: Seq<Map<Seq<u8>, u64>>,
    tag: Seq<u8>,
    build: Seq<char>,
    pair: InstrumentedRequireBranchIds,
    role: InstrumentedRequireProbeRole,
)
    requires
        tags.finite(),
        !tags.contains(tag),
    ensures
        ({
            let ids = index[tag];
            let hits = capped(total_hits(maps, tag));
            let start = side_hits(index, tags, maps, build, pair, role);
            side_hits(index, tags.insert(tag), maps, build, pair, role) == (if ids.build_id@ == build
                && ids.require_branch is Some && same_pair(pair, ids.require_branch->0)
                && ids.require_branch->0.role == role {
                capped(start + hits)
            } else {
                start
            })
        }),
{
    let ids = InstrumentedRequireBranchIds {
        role,
        false_item_id: pair.false_item_id,
        true_item_id: pair.true_item_id,
    };
    sum_over_insert(tags, deciding(index, maps, build, ids), tag);
}

/// The hits of all tags, requirements kept apart.
fn tally_tags(
    index: &InstrumentedCoverageTagIndex,
    maps: &[&InstrumentedHitMaps],
    tags: &Vec<[u8; 32]>,
) -> (tally: (Table<ItemHit>, Table<InstrumentedRequireBranchHits>))
    requires
        index.wf(),
        consistent(index@),
        totals_fit(map_views(maps@)),
        forall|i: int, j: int| 0 <= i < j < tags@.len() ==> (#[trigger] tags@[i])@ != (#[trigger] tags@[j])@,
    ensures
        tally.0.wf(),
        tally.1.wf(),
        ({
            let known = known_among(index@, tags@, tags@.len() as int);
            let views = map_views(maps@);
            &&& forall|b: Seq<char>, i: usize| #[trigger]
                hits_at(tally.0@, b, i) == plain_hits(index@, known, views, b, i)
            &&& forall|b: Seq<char>, f: usize, h: usize|
                tally.1@.contains_key(#[trigger] pair_key(b, f, h)) <==> is_pair(index@, known, b, f, h)
            &&& forall|b: Seq<char>, pair: InstrumentedRequireBranchIds, role: InstrumentedRequireProbeRole| #[trigger]
                side_at(tally.1@, b, pair, role) == side_hits(index@, known, views, b, pair, role)
        }),
{
    let ghost views = map_views(maps@);
    let mut items: Table<ItemHit> = Table::new();
    let mut sides: Table<InstrumentedRequireBranchHits> = Table::new();
    let mut n: usize = 0;
    while n < tags.len()
        invariant
            n <= tags@.len(),
            index.wf(),
            consistent(index@),
            views == map_views(maps@),
            totals_fit(views),
            forall|i: int, j: int|
                0 <= i < j < tags@.len() ==> (#[trigger] tags@[i])@ != (#[trigger] tags@[j])@,
            items.wf(),
            sides.wf(),
            forall|b: Seq<char>, i: usize| #[trigger]
                hits_at(items@, b, i) == plain_hits(index@, known_among(index@, tags@, n as int), views, b, i),
            forall|b: Seq<char>, f: usize, h: usize|
                sides@.contains_key(#[trigger] pair_key(b, f, h)) <==> is_pair(
                    index@,
                    known_among(index@, tags@, n as int),
                    b,
                    f,
                    h,
                ),
            forall|b: Seq<char>, pair: InstrumentedRequireBranchIds, role: InstrumentedRequireProbeRole| #[trigger]
                side_at(sides@, b, pair, role) == side_hits(
                    index@,
                    known_among(index@, tags@, n as int),
                    views,
                    b,
                    pair,
                    role,
                ),
        decreases tags@.len() - n,
    {
        let tag = &tags[n];
        let ghost known = known_among(index@, tags@, n as int);
        let ghost items0 = items@;
        let ghost sides0 = sides@;
        proof {
            known_among_holds(index@, tags@, n as int);
        }
        if let Some(ids) = index.get(tag) {
            let hits: u32 = tag_total(maps, tag);
            assert(!known.contains(tag@));
            if let Some(item_id) = ids.statement_item_id {
                add_to(&mut items, &ids.build_id, item_id, hits);
            }
            let ghost items1 = items@;
            if let Some(item_id) = ids.branch_item_id {
                add_to(&mut items, &ids.build_id, item_id, hits);
            }
            let ghost items2 = items@;
            if let Some(pair) = &ids.require_branch {
                add_to_side(&mut sides, &ids.build_id, pair, hits);
            }
            if let Some(item_id) = ids.function_item_id {
                raise_to(&mut items, &ids.build_id, item_id, hits);
            }
            let ghost items3 = items@;
            raise_to(&mut items, &ids.build_id, ids.line_item_id, hits);
            proof {
                let next = known_among(index@, tags@, n + 1);
                assert(next == known.insert(tag@));
                assert forall|b: Seq<char>, i: usize| #[trigger]
                    hits_at(items@, b, i) == plain_hits(index@, next, views, b, i) by {
                    plain_hits_insert(index@, known, views, tag@, b, i);
                    let v0 = hits_at(items0, b, i);
                    let v1 = hits_at(items1, b, i);
                    let v2 = hits_at(items2, b, i);
                    let v3 = hits_at(items3, b, i);
                }
                assert forall|b: Seq<char>, f: usize, h: usize|
                    sides@.contains_key(#[trigger] pair_key(b, f, h)) <==> is_pair(index@, next, b, f, h) by {
                    assert(sides0.contains_key(pair_key(b, f, h)) <==> is_pair(index@, known, b, f, h));
                    if is_pair(index@, known, b, f, h) {
                        let t = choose|t: Seq<u8>| #[trigger] known.contains(t) && is_side(index@[t], b, f, h);
                        assert(next.contains(t));
                    }
                    if is_pair(index@, next, b, f, h) && !is_pair(index@, known, b, f, h) {
                        let t = choose|t: Seq<u8>| #[trigger] next.contains(t) && is_side(index@[t], b, f, h);
                        assert(t == tag@);
                    }
                    if ids.require_branch is Some {
                        let p = ids.require_branch->0;
                        if pair_key(b, f, h) == pair_key(ids.build_id@, p.false_item_id, p.true_item_id) {
                            pair_key_injective(b, f, h, ids.build_id@, p.false_item_id, p.true_item_id);
                            assert(next.contains(tag@) && is_side(index@[tag@], b, f, h));
                        }
                    }
                }
                assert forall|b: Seq<char>, pair: InstrumentedRequireBranchIds, role: InstrumentedRequireProbeRole| #[trigger]
                    side_at(sides@, b, pair, role) == side_hits(index@, next, views, b, pair, role) by {
                    side_hits_insert(index@, known, views, tag@, b, pair, role);
                    let s0 = side_at(sides0, b, pair, role);
                }
            }
        }
        n += 1;
    }
    (items, sides)
}

/// The entry holds the requirement that the item is a path of.
spec fn entry_names(entry: InstrumentedRequireBranchHits, build: Seq<char>, item: usize) -> bool {
    entry.build_id@ == build && (entry.false_item_id == item || entry.true_item_id == item)
}

/// The hits of a path of a requirement according to its entry.
spec fn entry_hits(entry: InstrumentedRequireBranchHits, item: usize) -> nat {
    if item == entry.true_item_id { entry.post as nat } else { excess(entry.pre as nat, entry.post as nat) }
}

/// Requirements of a consistent index do not share items.
proof fn entries_apart(
    index: Map<Seq<u8>, InstrumentedCoverageItemIds>,
    tags: Set<Seq<u8>>,
    sides: Seq<InstrumentedRequireBranchHits>,
    j: int,
    k: int,
    build: Seq<char>,
    item: usize,
)
    requires
        consistent(index),
        forall|t: Seq<u8>| #[trigger] tags.contains(t) ==> index.contains_key(t),
        ascending(sides),
        forall|b: Seq<char>, f: usize, h: usize|
            by_key(sides).contains_key(#[trigger] pair_key(b, f, h)) <==> is_pair(index, tags, b, f, h),
        0 <= j < sides.len(),
        0 <= k < sides.len(),
        entry_names(sides[j], build, item),
        entry_names(sides[k], build, item),
    ensures
        j == k,
        sides[j].false_item_id != sides[j].true_item_id,
{
    let a = sides[j];
    let b = sides[k];
    by_key_of_entry(sides, j);
    by_key_of_entry(sides, k);
    assert(a.sort_key() == pair_key(build, a.false_item_id, a.true_item_id));
    assert(b.sort_key() == pair_key(build, b.false_item_id, b.true_item_id));
    assert(is_pair(index, tags, build, a.false_item_id, a.true_item_id));
    assert(is_pair(index, tags, build, b.false_item_id, b.true_item_id));
    let s = choose|t: Seq<u8>| #[trigger] tags.contains(t) && is_side(index[t], build, a.false_item_id, a.true_item_id);
    let t = choose|t: Seq<u8>| #[trigger] tags.contains(t) && is_side(index[t], build, b.false_item_id, b.true_item_id);
    assert(index.contains_key(s) && index.contains_key(t));
    assert(compatible(index[s], index[t]));
    assert(compatible(index[t], index[s]));
    assert(compatible(index[s], index[s]));
    assert(a.sort_key() == b.sort_key());
    crate::order::precedes_irreflexive(a.sort_key());
    if j < k {
        assert(crate::order::precedes(sides[j].sort_key(), sides[k].sort_key()));
    } else if k < j {
        assert(crate::order::precedes(sides[k].sort_key(), sides[j].sort_key()));
    }
}

/// Resolves the hit counts of tags, taken over all maps together, to the hits of the items they
/// count for. Items without hits are left out.
pub fn item_hits(index: &InstrumentedCoverageTagIndex, maps: &[&InstrumentedHitMaps]) -> (items: Table<ItemHit>)
    requires
        index.wf(),
        consistent(index@),
        totals_fit(map_views(maps@)),
    ensures
        items.wf(),
        forall|k: int| 0 <= k < items.entries@.len() ==> (#[trigger] items.entries@[k]).hits != 0,
        forall|build: Seq<char>, item: usize| #[trigger]
            hits_at(items@, build, item) == resolved_hits(
                index@,
                known_tags(index@, map_views(maps@)),
                map_views(maps@),
                build,
                item,
            ),
{
    let ghost views = map_views(maps@);
    let tags = distinct_tags(maps);
    let ghost known = known_tags(index@, views);
    proof {
        known_among_holds(index@, tags@, tags@.len() as int);
        assert(known_among(index@, tags@, tags@.len() as int) =~= known);
    }
    let tally = tally_tags(index, maps, &tags);
    let mut items = tally.0;
    let sides = tally.1.entries;
    let mut k: usize = 0;
    while k < sides.len()
        invariant
            k <= sides@.len(),
            items.wf(),
            consistent(index@),
            forall|t: Seq<u8>| #[trigger] known.contains(t) ==> index@.contains_key(t),
            ascending(sides@),
            forall|b: Seq<char>, f: usize, h: usize|
                by_key(sides@).contains_key(#[trigger] pair_key(b, f, h)) <==> is_pair(index@, known, b, f, h),
            forall|b: Seq<char>, i: usize|
                (forall|j: int| 0 <= j < k ==> !entry_names(#[trigger] sides@[j], b, i)) ==> #[trigger] hits_at(
                    items@,
                    b,
                    i,
                ) == plain_hits(index@, known, views, b, i),
            forall|b: Seq<char>, i: usize, j: int|
                0 <= j < k && entry_names(#[trigger] sides@[j], b, i) ==> #[trigger] hits_at(items@, b, i)
                    == entry_hits(sides@[j], i),
        decreases sides@.len() - k,
    {
        let side = &sides[k];
        let ghost items0 = items@;
        set_hits(&mut items, &side.build_id, side.false_item_id, side.pre.saturating_sub(side.post));
        set_hits(&mut items, &side.build_id, side.true_item_id, side.post);
        proof {
            entries_apart(index@, known, sides@, k as int, k as int, side.build_id@, side.true_item_id);
            assert forall|b: Seq<char>, i: usize, j: int|
                0 <= j < k + 1 && entry_names(#[trigger] sides@[j], b, i) implies #[trigger] hits_at(items@, b, i)
                == entry_hits(sides@[j], i) by {
                if j < k {
                    let before = hits_at(items0, b, i);
                    if entry_names(sides@[k as int], b, i) {
                        entries_apart(index@, known, sides@, j, k as int, b, i);
                    }
                }
            }
            assert forall|b: Seq<char>, i: usize|
                (forall|j: int| 0 <= j < k + 1 ==> !entry_names(#[trigger] sides@[j], b, i)) implies #[trigger] hits_at(
                items@,
                b,
                i,
            ) == plain_hits(index@, known, views, b, i) by {
                let before = hits_at(items0, b, i);
                assert(!entry_names(sides@[k as int], b, i));
            }
        }
        k += 1;
    }
    proof {
        assert forall|b: Seq<char>, i: usize| #[trigger]
            hits_at(items@, b, i) == resolved_hits(index@, known, views, b, i) by {
            if is_decided(index@, known, b, i) {
                let pair = deciding_pair(index@, known, b, i);
                let t = choose|t: Seq<u8>| #[trigger] known.contains(t) && decides(index@[t], b, i);
                assert(known.contains(t) && is_side(index@[t], b, pair.false_item_id, pair.true_item_id));
                assert(is_pair(index@, known, b, pair.false_item_id, pair.true_item_id));
                let key = pair_key(b, pair.false_item_id, pair.true_item_id);
                assert(by_key(sides@).contains_key(key));
                let j = choose|j: int| 0 <= j < sides@.len() && (#[trigger] sides@[j]).sort_key() == key;
                by_key_of_entry(sides@, j);
                pair_key_injective(
                    b,
                    pair.false_item_id,
                    pair.true_item_id,
                    sides@[j].build_id@,
                    sides@[j].false_item_id,
                    sides@[j].true_item_id,
                );
                assert(entry_names(sides@[j], b, i));
                assert(side_at(by_key(sides@), b, pair, InstrumentedRequireProbeRole::Pre) == sides@[j].pre);
                assert(side_at(by_key(sides@), b, pair, InstrumentedRequireProbeRole::Post) == sides@[j].post);
            } else {
                assert forall|j: int| 0 <= j < sides@.len() implies !entry_names(#[trigger] sides@[j], b, i) by {
                    if entry_names(sides@[j], b, i) {
                        let e = sides@[j];
                        by_key_of_entry(sides@, j);
                        assert(e.sort_key() == pair_key(b, e.false_item_id, e.true_item_id));
                        assert(is_pair(index@, known, b, e.false_item_id, e.true_item_id));
                        let t = choose|t: Seq<u8>| #[trigger]
                            known.contains(t) && is_side(index@[t], b, e.false_item_id, e.true_item_id);
                        assert(known.contains(t) && decides(index@[t], b, i));
                    }
                }
            }
        }
    }
    keep_hit(items)
}

/// Leaves out the items without hits.
fn keep_hit(items: Table<ItemHit>) -> (hit: Table<ItemHit>)
    requires
        items.wf(),
    ensures
        hit.wf(),
        forall|k: int| 0 <= k < hit.entries@.len() ==> (#[trigger] hit.entries@[k]).hits != 0,
        forall|b: Seq<char>, i: usize| #[trigger] hits_at(hit@, b, i) == hits_at(items@, b, i),
{
    let mut hit: Table<ItemHit> = Table::new();
    let mut k: usize = 0;
    while k < items.entries.len()
        invariant
            k <= items.entries@.len(),
            items.wf(),
            hit.wf(),
            forall|key: Seq<u64>| #[trigger] hit@.contains_key(key) ==> hit@[key].hits != 0,
            forall|key: Seq<u64>| #[trigger]
                hit@.contains_key(key) ==> has_key(items.entries@.take(k as int), key),
            forall|j: int| #![trigger items.entries@[j]]
                0 <= j < k ==> hits_at(hit@, items.entries@[j].build_id@, items.entries@[j].item_id)
                    == items.entries@[j].hits,
        decreases items.entries@.len() - k,
    {
        let item = &items.entries[k];
        proof {
            by_key_of_entry(items.entries@, k as int);
        }
        let ghost before = hit@;
        if item.hits != 0 {
            hit.put(ItemHit { build_id: item.build_id.clone(), item_id: item.item_id, hits: item.hits });
        }
        proof {
            let now = items.entries@.take(k + 1);
            let earlier = items.entries@.take(k as int);
            assert(now[k as int] == *item);
            assert forall|key: Seq<u64>| #[trigger] hit@.contains_key(key) implies has_key(now, key) by {
                if has_key(earlier, key) {
                    let j = choose|j: int| 0 <= j < earlier.len() && (#[trigger] earlier[j]).sort_key() == key;
                    assert(now[j].sort_key() == key);
                } else {
                    assert(now[k as int].sort_key() == key);
                }
            }
            if before.contains_key(item.sort_key()) {
                let j = choose|j: int| 0 <= j < earlier.len() && (#[trigger] earlier[j]).sort_key() == item.sort_key();
                crate::order::precedes_irreflexive(item.sort_key());
                assert(crate::order::precedes(
                    items.entries@[j].sort_key(),
                    items.entries@[k as int].sort_key(),
                ));
            }
            assert forall|j: int| #![trigger items.entries@[j]] 0 <= j < k + 1 implies hits_at(
                hit@,
                items.entries@[j].build_id@,
                items.entries@[j].item_id,
            ) == items.entries@[j].hits by {
                if j < k {
                    crate::order::precedes_irreflexive(items.entries@[j].sort_key());
                    assert(crate::order::precedes(
                        items.entries@[j].sort_key(),
                        items.entries@[k as int].sort_key(),
                    ));
                }
            }
        }
        k += 1;
    }
    proof {
        assert forall|b: Seq<char>, i: usize| #[trigger] hits_at(hit@, b, i) == hits_at(items@, b, i) by {
            let key = numbered_key(b, i);
            assert(items.entries@.take(k as int) =~= items.entries@);
            if items@.contains_key(key) {
                let j = choose|j: int| 0 <= j < items.entries@.len() && (#[trigger] items.entries@[j]).sort_key() == key;
                by_key_of_entry(items.entries@, j);
                numbered_key_injective(b, i, items.entries@[j].build_id@, items.entries@[j].item_id);
            }
        }
        assert forall|k: int| 0 <= k < hit.entries@.len() implies (#[trigger] hit.entries@[k]).hits != 0 by {
            by_key_of_entry(hit.entries@, k);
            assert(hit@.contains_key(hit.entries@[k].sort_key()));
        }
    }
    hit
}

/// The items with the hits that each of them has from `hits` added.
pub open spec fn with_all_hits(
    items: Seq<CoverageItem>,
    build: Seq<char>,
    hits: spec_fn(Seq<char>, usize) -> nat,
) -> Seq<CoverageItem> {
    Seq::new(items.len(), |i: int| with_hits(items[i], hits(build, i as usize)))
}

/// The hits of the item from the first `k` entries.
spec fn hits_so_far(entries: Seq<ItemHit>, k: int) -> spec_fn(Seq<char>, usize) -> nat {
    |build: Seq<char>, item: usize|
        if has_key(entries.take(k), numbered_key(build, item)) {
            hits_at(by_key(entries), build, item)
        } else {
            0
        }
}

proof fn hits_so_far_next(entries: Seq<ItemHit>, k: int, build: Seq<char>, item: usize)
    requires
        ascending(entries),
        0 <= k < entries.len(),
    ensures
        ({
            let own = entries[k].build_id@ == build && entries[k].item_id == item;
            &&& own ==> hits_so_far(entries, k)(build, item) == 0
            &&& hits_so_far(entries, k + 1)(build, item) == (if own {
                entries[k].hits as nat
            } else {
                hits_so_far(entries, k)(build, item)
            })
        }),
{
    let key = numbered_key(build, item);
    let now = entries.take(k + 1);
    let before = entries.take(k);
    assert(now[k] == entries[k]);
    by_key_of_entry(entries, k);
    if has_key(before, key) {
        let j = choose|j: int| 0 <= j < before.len() && (#[trigger] before[j]).sort_key() == key;
        assert(now[j].sort_key() == key);
        if entries[k].sort_key() == key {
            crate::order::precedes_irreflexive(key);
            assert(crate::order::precedes(entries[j].sort_key(), entries[k].sort_key()));
        }
    }
    if has_key(now, key) && !has_key(before, key) {
        let j = choose|j: int| 0 <= j < now.len() && (#[trigger] now[j]).sort_key() == key;
        if j < k {
            assert(before[j].sort_key() == key);
        }
        numbered_key_injective(build, item, entries[k].build_id@, entries[k].item_id);
    }
}

/// The resolved hits of every item from one map.
pub open spec fn hits_of_map(
    index: Map<Seq<u8>, InstrumentedCoverageItemIds>,
    hits: Map<Seq<u8>, u64>,
) -> spec_fn(Seq<char>, usize) -> nat {
    |build: Seq<char>, item: usize|
        resolved_hits(index, known_tags(index, seq![hits]), seq![hits], build, item)
}

/// Adds the hits of a map to the items of a report.
pub fn add_hits(report: &mut CoverageReport, index: &InstrumentedCoverageTagIndex, hits: &InstrumentedHitMaps)
    requires
        old(report).wf(),
        index.wf(),
        consistent(index@),
    ensures
        final(report).wf(),
        final(report).same_sources(old(report)),
        final(report).same_contracts(old(report)),
        forall|build: Seq<char>| #[trigger]
            final(report).items_of(build) == (match old(report).items_of(build) {
                Some(items) => Some(with_all_hits(items, build, hits_of_map(index@, hits@))),
                None => None,
            }),
{
    let maps = vec![hits];
    let ghost views = map_views(maps@);
    proof {
        assert(maps@ =~= seq![hits]);
        assert(views =~= seq![hits@]);
        assert forall|tag: Seq<u8>| #[trigger] total_hits(views, tag) <= u64::MAX by {
            assert(views.drop_last() =~= Seq::empty());
            assert(total_hits(views.drop_last(), tag) == 0);
        }
    }
    let items = item_hits(index, maps.as_slice());
    let ghost resolved = items@;
    let entries = items.entries;
    proof {
        assert(resolved == by_key(entries@));
        assert forall|b: Seq<char>, i: usize| #[trigger] hits_at(by_key(entries@), b, i) == hits_of_map(
            index@,
            hits@,
        )(b, i) by {
            assert(hits_at(resolved, b, i) == resolved_hits(index@, known_tags(index@, views), views, b, i));
        }
        assert forall|b: Seq<char>| #[trigger] report.items_of(b) == (match old(report).items_of(b) {
            Some(items) => Some(with_all_hits(items, b, hits_so_far(entries@, 0))),
            None => None,
        }) by {
            if let Some(items) = old(report).items_of(b) {
                assert forall|i: int| 0 <= i < items.len() implies #[trigger] with_hits(items[i], 0) == items[i] by {}
                assert(with_all_hits(items, b, hits_so_far(entries@, 0)) =~= items);
            }
        }
    }
    let mut k: usize = 0;
    while k < entries.len()
        invariant
            k <= entries@.len(),
            ascending(entries@),
            report.wf(),
            report.same_sources(old(report)),
            report.same_contracts(old(report)),
            forall|b: Seq<char>| #[trigger]
                report.items_of(b) == (match old(report).items_of(b) {
                    Some(items) => Some(with_all_hits(items, b, hits_so_far(entries@, k as int))),
                    None => None,
                }),
        decreases entries@.len() - k,
    {
        let entry = &entries[k];
        let ghost before = *report;
        report.add_item_hits(entry.build_id.as_str(), entry.item_id, entry.hits);
        proof {
            assert forall|b: Seq<char>| #[trigger] report.items_of(b) == (match old(report).items_of(b) {
                Some(items) => Some(with_all_hits(items, b, hits_so_far(entries@, k + 1))),
                None => None,
            }) by {
                let mid = before.items_of(b);
                if let Some(items) = old(report).items_of(b) {
                    assert(old(report).analyses@[text_key(b)].analysis.items.len() <= usize::MAX);
                    assert(items.len() <= usize::MAX);
                    assert forall|i: int| 0 <= i < items.len() implies #[trigger] (report.items_of(b)->0)[i] == with_hits(
                        items[i],
                        hits_so_far(entries@, k + 1)(b, i as usize),
                    ) by {
                        hits_so_far_next(entries@, k as int, b, i as usize);
                        assert((mid->0)[i] == with_hits(items[i], hits_so_far(entries@, k as int)(b, i as usize)));
                    }
                    assert(report.items_of(b)->0 =~= with_all_hits(items, b, hits_so_far(entries@, k + 1)));
                }
            }
        }
        k += 1;
    }
    proof {
        assert(entries@.take(k as int) =~= entries@);
        assert forall|b: Seq<char>| #[trigger] report.items_of(b) == (match old(report).items_of(b) {
            Some(items) => Some(with_all_hits(items, b, hits_of_map(index@, hits@))),
            None => None,
        }) by {
            if let Some(items) = old(report).items_of(b) {
                assert forall|i: int| 0 <= i < items.len() implies #[trigger] hits_so_far(entries@, k as int)(b, i as usize)
                    == hits_of_map(index@, hits@)(b, i as usize) by {
                    assert(hits_at(by_key(entries@), b, i as usize) == hits_of_map(index@, hits@)(b, i as usize));
                }
                assert(with_all_hits(items, b, hits_so_far(entries@, k as int)) =~= with_all_hits(
                    items,
                    b,
                    hits_of_map(index@, hits@),
                ));
            }
        }
    }
}

/// Hits that are spread over two maps resolve as they do after the maps were merged.
pub proof fn merged_maps_resolve_alike(
    index: Map<Seq<u8>, InstrumentedCoverageItemIds>,
    maps: Seq<Map<Seq<u8>, u64>>,
    a: Map<Seq<u8>, u64>,
    b: Map<Seq<u8>, u64>,
    build: Seq<char>,
    item: usize,
)
    requires
        index.dom().finite(),
        can_add(a, b),
    ensures
        ({
            let apart = maps.push(a).push(b);
            let merged = maps.push(added(a, b));
            resolved_hits(index, known_tags(index, apart), apart, build, item) == resolved_hits(
                index,
                known_tags(index, merged),
                merged,
                build,
                item,
            )
        }),
{
    let apart = maps.push(a).push(b);
    let merged = maps.push(added(a, b));
    assert forall|tag: Seq<u8>| #[trigger] was_hit(apart, tag) == was_hit(merged, tag) by {
        let n = maps.len() as int;
        if was_hit(apart, tag) {
            let m = choose|m: int| 0 <= m < apart.len() && (#[trigger] apart[m]).contains_key(tag);
            if m < n {
                assert(merged[m] == apart[m]);
            } else {
                assert(merged[n].contains_key(tag));
            }
        }
        if was_hit(merged, tag) {
            let m = choose|m: int| 0 <= m < merged.len() && (#[trigger] merged[m]).contains_key(tag);
            if m < n {
                assert(apart[m] == merged[m]);
            } else if a.contains_key(tag) {
                assert(apart[n].contains_key(tag));
            } else {
                assert(apart[n + 1].contains_key(tag));
            }
        }
    }
    assert forall|tag: Seq<u8>| #[trigger] total_hits(apart, tag) == total_hits(merged, tag) by {
        assert(apart.drop_last() =~= maps.push(a));
        assert(maps.push(a).drop_last() =~= maps);
        assert(merged.drop_last() =~= maps);
        assert(total_hits(maps.push(a), tag) == total_hits(maps, tag) + count_of(a, tag));
        assert(count_of(a, tag) + count_of(b, tag) <= u64::MAX);
    }
    same_totals_resolve_alike(index, apart, merged, build, item);
}

/// Only the tags that were hit and their totals matter, not how the maps hold them.
pub proof fn same_totals_resolve_alike(
    index: Map<Seq<u8>, InstrumentedCoverageItemIds>,
    left: Seq<Map<Seq<u8>, u64>>,
    right: Seq<Map<Seq<u8>, u64>>,
    build: Seq<char>,
    item: usize,
)
    requires
        index.dom().finite(),
        forall|tag: Seq<u8>| #[trigger] was_hit(left, tag) == was_hit(right, tag),
        forall|tag: Seq<u8>| #[trigger] total_hits(left, tag) == total_hits(right, tag),
    ensures
        resolved_hits(index, known_tags(index, left), left, build, item) == resolved_hits(
            index,
            known_tags(index, right),
            right,
            build,
            item,
        ),
{
    let tags = known_tags(index, left);
    assert(tags =~= known_tags(index, right));
    assert(tags.subset_of(index.dom()));
    vstd::set_lib::lemma_set_subset_finite(index.dom(), tags);
    sum_over_same(tags, adding(index, left, build, item), adding(index, right, build, item));
    max_over_same(tags, raising(index, left, build, item), raising(index, right, build, item));
    let pair = deciding_pair(index, tags, build, item);
    let pre = InstrumentedRequireBranchIds { role: InstrumentedRequireProbeRole::Pre, ..pair };
    let post = InstrumentedRequireBranchIds { role: InstrumentedRequireProbeRole::Post, ..pair };
    sum_over_same(tags, deciding(index, left, build, pre), deciding(index, right, build, pre));
    sum_over_same(tags, deciding(index, left, build, post), deciding(index, right, build, post));
}

}
