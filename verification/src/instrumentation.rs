//! Rewrites sources so that running them reports which probes are passed.
use crate::ast::{items_ok, SourceUnit};
use crate::collector::{
    between_characters, items_add_branches, items_branches, visited_items, Collected, Context, Insertion, ProbeMode,
    SourceUpdate, StatementCollector,
};
use crate::order::{precedes, precedes_at, slot_for, sort_by_key, stable_sorted, stable_sorted_is_sorted, Keyed};
use crate::paths::{
    has_extension, is_same_path, make_path_key, path_has_extension, path_key, relative_path, relative_to, same_path,
};
use crate::probes::{probe_views, InstrumentedCoverageMetadata, InstrumentedCoverageProbe, ProbeView};
use crate::sums::{
    joined_empty, joined_push, picked_adds, picked_nothing, picked_one, picked_push, total, total_adds, total_empty,
    total_push,
};
use crate::table::{ascending, has_key, Table};
use crate::text::{has_bytes, occurs, stands_at};
use crate::version::Version;
use regex::Regex;
use vstd::prelude::*;
use vstd::string::*;
use vstd::utf8::{
    encode_utf8, encode_utf8_valid_utf8, is_char_boundary, is_char_boundary_iff_not_is_continuation_byte,
    is_char_boundary_start_end_of_seq, valid_utf8, valid_utf8_split,
};

verus! {

/// The path of the source that holds the coverage library.
pub const COVERAGE_LIBRARY_PATH: &'static str = "__foundry_coverage/InstrumentedCoverage.sol";

/// The coverage library, which reports a tag by a call to an address that the collector listens to.
pub const COVERAGE_LIBRARY_SOURCE: &'static str = r#"// SPDX-License-Identifier: MIT
pragma solidity >=0.6.0 <0.9.0;

library __FoundryCoverage {
    address constant COVERAGE_ADDRESS = 0xc0bEc0BEc0BeC0bEC0beC0bEC0bEC0beC0beC0BE;

    function _sendHitImplementation(uint256 tag) private view {
        address coverageAddress = COVERAGE_ADDRESS;
        /// @solidity memory-safe-assembly
        assembly {
            let ptr := mload(0x40)
            mstore(ptr, tag)
            pop(staticcall(gas(), coverageAddress, ptr, 0x20, 0, 0))
        }
    }

    function _castToPure(function(uint256) internal view fnIn)
        private
        pure
        returns (function(uint256) internal pure fnOut)
    {
        /// @solidity memory-safe-assembly
        assembly {
            fnOut := fnIn
        }
    }

    function sendHit(uint256 tag) internal pure {
        _castToPure(_sendHitImplementation)(tag);
    }

    function hitTrue(uint256 tag) internal pure returns (bool) {
        sendHit(tag);
        return true;
    }

    function hitFalse(uint256 tag) internal pure returns (bool) {
        sendHit(tag);
        return false;
    }
}
"#;

/// The import of the coverage library.
pub const COVERAGE_IMPORT: &'static str =
    r#"import {__FoundryCoverage} from "__foundry_coverage/InstrumentedCoverage.sol";"#;

/// Where an insertion at `at` goes among insertions in order: behind those at the same offset.
pub open spec fn slot_at(insertions: Seq<Insertion>, at: int) -> int
    decreases insertions.len(),
{
    if insertions.len() == 0 {
        0
    } else if at < insertions.last().at {
        slot_at(insertions.drop_last(), at)
    } else {
        insertions.len() as int
    }
}

/// The insertions by offset; those at the same offset keep their order.
pub open spec fn by_offset(insertions: Seq<Insertion>) -> Seq<Insertion>
    decreases insertions.len(),
{
    if insertions.len() == 0 {
        insertions
    } else {
        let front = by_offset(insertions.drop_last());
        front.insert(slot_at(front, insertions.last().at), insertions.last())
    }
}

/// The source from `cursor` on with the insertions, which come in order.
pub open spec fn spliced(source: Seq<u8>, cursor: int, insertions: Seq<Insertion>) -> Seq<u8>
    decreases insertions.len(),
{
    if insertions.len() == 0 {
        source.skip(cursor)
    } else {
        let first = insertions[0];
        source.subrange(cursor, first.at) + encode_utf8(first.text) + spliced(
            source,
            first.at,
            insertions.drop_first(),
        )
    }
}

/// The text that remains from `cursor` on when the insertions are taken out of it again.
pub open spec fn unspliced(text: Seq<u8>, cursor: int, insertions: Seq<Insertion>) -> Seq<u8>
    decreases insertions.len(),
{
    if insertions.len() == 0 {
        text
    } else {
        let first = insertions[0];
        let kept = first.at - cursor;
        text.take(kept) + unspliced(
            text.skip(kept + encode_utf8(first.text).len()),
            first.at,
            insertions.drop_first(),
        )
    }
}

/// The insertions lie between `cursor` and the end of the source, and come in order.
pub open spec fn fits(source: Seq<u8>, cursor: int, insertions: Seq<Insertion>) -> bool
    decreases insertions.len(),
{
    &&& 0 <= cursor <= source.len()
    &&& insertions.len() > 0 ==> cursor <= insertions[0].at && fits(
        source,
        insertions[0].at,
        insertions.drop_first(),
    )
}

/// Instrumentation only inserts: taking the insertions out again gives back the source.
pub proof fn splicing_keeps_source(source: Seq<u8>, cursor: int, insertions: Seq<Insertion>)
    requires
        fits(source, cursor, insertions),
    ensures
        unspliced(spliced(source, cursor, insertions), cursor, insertions) == source.skip(cursor),
    decreases insertions.len(),
{
    if insertions.len() > 0 {
        let first = insertions[0];
        let all = spliced(source, cursor, insertions);
        let rest = spliced(source, first.at, insertions.drop_first());
        assert(fits(source, first.at, insertions.drop_first()));
        splicing_keeps_source(source, first.at, insertions.drop_first());
        assert(all.take(first.at - cursor) =~= source.subrange(cursor, first.at));
        assert(all.skip(first.at - cursor + encode_utf8(first.text).len()) =~= rest);
        assert(source.subrange(cursor, first.at) + source.skip(first.at) =~= source.skip(cursor));
    }
}

/// Every insertion is made: its text stands behind the source up to its offset and the texts of the insertions before
/// it. Nothing else is added.
pub proof fn every_insertion_is_made(source: Seq<u8>, cursor: int, insertions: Seq<Insertion>, i: int)
    requires
        fits(source, cursor, insertions),
        0 <= i < insertions.len(),
    ensures
        ({
            let all = spliced(source, cursor, insertions);
            let text = encode_utf8(insertions[i].text);
            let at = insertions[i].at - cursor + total(
                insertions.take(i).map_values(|insertion: Insertion| encode_utf8(insertion.text).len()),
            );
            &&& 0 <= at && at + text.len() <= all.len()
            &&& all.subrange(at, at + text.len()) == text
            &&& all.len() == source.len() - cursor + total(
                insertions.map_values(|insertion: Insertion| encode_utf8(insertion.text).len()),
            )
        }),
    decreases insertions.len(),
{
    let first = insertions[0];
    let rest = insertions.drop_first();
    let all = spliced(source, cursor, insertions);
    let tail = spliced(source, first.at, rest);
    let own = encode_utf8(first.text);
    let f = |insertion: Insertion| encode_utf8(insertion.text).len();
    assert(insertions.map_values(f) =~= seq![own.len()] + rest.map_values(f));
    total_adds(seq![own.len()], rest.map_values(f));
    total_of_one(own.len());
    assert(fits(source, first.at, rest));
    spliced_len(source, first.at, rest);
    assert(source.subrange(cursor, first.at).len() == first.at - cursor);
    let text = encode_utf8(insertions[i].text);
    if i == 0 {
        assert(insertions.take(0).map_values(f) =~= Seq::empty());
        total_empty();
        let at = first.at - cursor;
        assert(all.subrange(at, at + text.len()) =~= text);
    } else {
        every_insertion_is_made(source, first.at, rest, i - 1);
        assert(rest[i - 1] == insertions[i]);
        assert(insertions.take(i).map_values(f) =~= seq![own.len()] + rest.take(i - 1).map_values(f));
        total_adds(seq![own.len()], rest.take(i - 1).map_values(f));
        let before = total(rest.take(i - 1).map_values(f));
        let at = insertions[i].at - first.at + before;
        let shift = first.at - cursor + own.len();
        assert(all =~= (source.subrange(cursor, first.at) + own) + tail);
        assert(all.subrange(shift + at, shift + at + text.len()) =~= tail.subrange(at, at + text.len()));
    }
}

proof fn total_of_one(n: nat)
    ensures
        total(seq![n]) == n,
{
    total_empty();
    total_push(Seq::empty(), n);
    assert(Seq::empty().push(n) =~= seq![n]);
}

proof fn spliced_len(source: Seq<u8>, cursor: int, insertions: Seq<Insertion>)
    requires
        fits(source, cursor, insertions),
    ensures
        spliced(source, cursor, insertions).len() == source.len() - cursor + total(
            insertions.map_values(|insertion: Insertion| encode_utf8(insertion.text).len()),
        ),
    decreases insertions.len(),
{
    let f = |insertion: Insertion| encode_utf8(insertion.text).len();
    if insertions.len() == 0 {
        assert(insertions.map_values(f) =~= Seq::empty());
        total_empty();
    } else {
        let first = insertions[0];
        let rest = insertions.drop_first();
        let own = encode_utf8(first.text);
        spliced_len(source, first.at, rest);
        assert(fits(source, first.at, rest));
        let all = spliced(source, cursor, insertions);
        assert(all.len() == first.at - cursor + own.len() + spliced(source, first.at, rest).len());
        assert(insertions.map_values(f) =~= seq![own.len()] + rest.map_values(f));
        total_adds(seq![own.len()], rest.map_values(f));
        total_of_one(own.len());
    }
}

/// Insertions are made by offset: none is lost, no offset comes before an earlier one, and insertions at the same
/// offset keep the order in which they were collected.
pub proof fn insertions_keep_their_order(insertions: Seq<Insertion>, at: int)
    ensures
        by_offset(insertions).len() == insertions.len(),
        by_offset(insertions).to_multiset() == insertions.to_multiset(),
        forall|i: int, j: int|
            0 <= i < j < by_offset(insertions).len() ==> (#[trigger] by_offset(insertions)[i]).at <= (
            #[trigger] by_offset(insertions)[j]).at,
        by_offset(insertions).filter(|insertion: Insertion| insertion.at == at) == insertions.filter(
            |insertion: Insertion| insertion.at == at,
        ),
    decreases insertions.len(),
{
    let p = |insertion: Insertion| insertion.at == at;
    if insertions.len() > 0 {
        let x = insertions.last();
        let front = by_offset(insertions.drop_last());
        insertions_keep_their_order(insertions.drop_last(), at);
        slot_splits(front, x.at);
        let k = slot_at(front, x.at);
        let a = front.take(k);
        let b = front.skip(k);
        let all = by_offset(insertions);
        assert(front =~= a + b);
        assert(all =~= (a + seq![x]) + b);
        assert forall|i: int, j: int| 0 <= i < j < all.len() implies (#[trigger] all[i]).at <= (
        #[trigger] all[j]).at by {
            let m = if i < k { i } else { i - 1 };
            let n = if j < k { j } else { j - 1 };
            if i != k {
                assert(all[i] == front[m]);
            }
            if j != k {
                assert(all[j] == front[n]);
            }
        }
        picked_adds(a, b, p);
        picked_adds(a, seq![x], p);
        picked_adds(a + seq![x], b, p);
        picked_one(x, p);
        picked_push(insertions.drop_last(), x, p);
        assert(insertions =~= insertions.drop_last().push(x));
        if p(x) {
            assert forall|i: int| 0 <= i < b.len() implies !p(#[trigger] b[i]) by {
                assert(b[i] == front[k + i]);
            }
            picked_nothing(b, p);
            assert(a.filter(p) + b.filter(p) =~= a.filter(p));
            assert(all.filter(p) =~= a.filter(p).push(x));
        } else {
            assert(all.filter(p) =~= a.filter(p) + b.filter(p));
        }
        front.to_multiset_ensures();
        insertions.drop_last().to_multiset_ensures();
        vstd::seq_lib::lemma_multiset_commutative(a, b);
        vstd::seq_lib::lemma_multiset_commutative(a + seq![x], b);
        a.to_multiset_ensures();
        assert(a.push(x) =~= a + seq![x]);
        assert(all.to_multiset() =~= insertions.to_multiset());
    }
}

proof fn slot_splits(insertions: Seq<Insertion>, at: int)
    requires
        forall|i: int, j: int|
            0 <= i < j < insertions.len() ==> (#[trigger] insertions[i]).at <= (#[trigger] insertions[j]).at,
    ensures
        0 <= slot_at(insertions, at) <= insertions.len(),
        forall|i: int| 0 <= i < slot_at(insertions, at) ==> (#[trigger] insertions[i]).at <= at,
        forall|i: int| slot_at(insertions, at) <= i < insertions.len() ==> at < (#[trigger] insertions[i]).at,
    decreases insertions.len(),
{
    if insertions.len() > 0 {
        let front = insertions.drop_last();
        if at < insertions.last().at {
            assert forall|i: int, j: int| 0 <= i < j < front.len() implies (#[trigger] front[i]).at <= (
            #[trigger] front[j]).at by {
                assert(insertions[i].at <= insertions[j].at);
            }
            slot_splits(front, at);
            assert forall|i: int| 0 <= i < slot_at(insertions, at) implies (#[trigger] insertions[i]).at <= at by {
                assert(front[i].at <= at);
            }
            assert forall|i: int| slot_at(insertions, at) <= i < insertions.len() implies at < (
            #[trigger] insertions[i]).at by {
                if i < front.len() {
                    assert(at < front[i].at);
                }
            }
        } else {
            assert forall|i: int| 0 <= i < insertions.len() implies (#[trigger] insertions[i]).at <= at by {
                if i < insertions.len() - 1 {
                    assert(insertions[i].at <= insertions[insertions.len() - 1].at);
                }
            }
        }
    }
}

/// The encodings of two texts in turn are the encoding of both.
pub proof fn encode_utf8_adds(a: Seq<char>, b: Seq<char>)
    ensures
        encode_utf8(a + b) == encode_utf8(a) + encode_utf8(b),
    decreases a.len(),
{
    if a.len() == 0 {
        assert(a + b =~= b);
        assert(encode_utf8(a) + encode_utf8(b) =~= encode_utf8(b));
    } else {
        encode_utf8_adds(a.drop_first(), b);
        assert((a + b).drop_first() =~= a.drop_first() + b);
        assert((a + b)[0] == a[0]);
        assert(encode_utf8(a + b) =~= encode_utf8(a) + encode_utf8(b));
    }
}

/// A boundary behind a boundary is one in the text from there on.
proof fn boundary_in_rest(bytes: Seq<u8>, a: int, b: int)
    requires
        valid_utf8(bytes),
        0 <= a <= b <= bytes.len(),
        is_char_boundary(bytes, a),
        is_char_boundary(bytes, b),
    ensures
        valid_utf8(bytes.skip(a)),
        is_char_boundary(bytes.skip(a), b - a),
{
    let rest = bytes.subrange(a, bytes.len() as int);
    assert(bytes.skip(a) =~= rest);
    valid_utf8_split(bytes, a);
    if b < bytes.len() {
        is_char_boundary_iff_not_is_continuation_byte(bytes, b);
        is_char_boundary_iff_not_is_continuation_byte(rest, b - a);
        assert(rest[b - a] == bytes[b]);
    } else {
        is_char_boundary_start_end_of_seq(rest);
    }
}

spec fn views(updates: Seq<SourceUpdate>) -> Seq<Insertion> {
    updates.map_values(|update: SourceUpdate| update@)
}

proof fn slots_agree(updates: Seq<SourceUpdate>, update: SourceUpdate)
    ensures
        slot_for(updates, update.sort_key()) == slot_at(views(updates), update.at as int),
    decreases updates.len(),
{
    if updates.len() > 0 {
        let a = update.sort_key();
        let b = updates.last().sort_key();
        assert(precedes(a, b) == (update.at < updates.last().at)) by {
            if update.at < updates.last().at {
                assert(precedes_at(a, b, 0));
            }
            if precedes(a, b) {
                let k = choose|k: int| precedes_at(a, b, k);
                assert(k == 0);
            }
        }
        slots_agree(updates.drop_last(), update);
        assert(views(updates.drop_last()) =~= views(updates).drop_last());
    }
}

proof fn sorts_agree(updates: Seq<SourceUpdate>)
    ensures
        views(stable_sorted(updates)) == by_offset(views(updates)),
    decreases updates.len(),
{
    if updates.len() > 0 {
        sorts_agree(updates.drop_last());
        assert(views(updates.drop_last()) =~= views(updates).drop_last());
        let front = stable_sorted(updates.drop_last());
        slots_agree(front, updates.last());
        crate::order::slot_for_splits(front, updates.last().sort_key());
        assert(views(stable_sorted(updates)) =~= by_offset(views(updates)));
    } else {
        assert(views(stable_sorted(updates)) =~= by_offset(views(updates)));
    }
}

/// Sorting keeps every insertion between characters, and no offset comes before an earlier one.
proof fn sorted_updates(source: Seq<u8>, updates: Seq<SourceUpdate>)
    requires
        between_characters(source, updates),
    ensures
        between_characters(source, stable_sorted(updates)),
        forall|i: int, j: int|
            0 <= i < j < stable_sorted(updates).len() ==> (#[trigger] stable_sorted(updates)[i]).at <= (
            #[trigger] stable_sorted(updates)[j]).at,
{
    let sorted = stable_sorted(updates);
    stable_sorted_is_sorted(updates);
    assert forall|i: int| 0 <= i < sorted.len() implies (#[trigger] sorted[i]).at <= source.len() && is_char_boundary(
        source,
        sorted[i].at as int,
    ) by {
        updates.to_multiset_ensures();
        sorted.to_multiset_ensures();
        assert(sorted.contains(sorted[i]));
        assert(updates.to_multiset().count(sorted[i]) > 0);
        assert(updates.contains(sorted[i]));
        let k = choose|k: int| 0 <= k < updates.len() && updates[k] == sorted[i];
        assert(updates[k].at <= source.len());
    }
    assert forall|i: int, j: int| 0 <= i < j < sorted.len() implies (#[trigger] sorted[i]).at <= (
    #[trigger] sorted[j]).at by {
        assert(!precedes(sorted[j].sort_key(), sorted[i].sort_key()));
        if sorted[j].at < sorted[i].at {
            assert(precedes_at(sorted[j].sort_key(), sorted[i].sort_key(), 0));
        }
    }
}

proof fn ordered_insertions_fit(source: Seq<u8>, cursor: int, insertions: Seq<Insertion>)
    requires
        0 <= cursor <= source.len(),
        forall|i: int| 0 <= i < insertions.len() ==> cursor <= (#[trigger] insertions[i]).at <= source.len(),
        forall|i: int, j: int|
            0 <= i < j < insertions.len() ==> (#[trigger] insertions[i]).at <= (#[trigger] insertions[j]).at,
    ensures
        fits(source, cursor, insertions),
    decreases insertions.len(),
{
    if insertions.len() > 0 {
        let rest = insertions.drop_first();
        assert forall|i: int| 0 <= i < rest.len() implies insertions[0].at <= (#[trigger] rest[i]).at
            <= source.len() by {
            assert(rest[i] == insertions[i + 1]);
        }
        assert forall|i: int, j: int| 0 <= i < j < rest.len() implies (#[trigger] rest[i]).at <= (
        #[trigger] rest[j]).at by {
            assert(rest[i] == insertions[i + 1] && rest[j] == insertions[j + 1]);
        }
        ordered_insertions_fit(source, insertions[0].at, rest);
    }
}

/// Inserts the texts into the source, in the order of their offsets.
pub fn splice(source: &str, updates: Vec<SourceUpdate>) -> (content: String)
    requires
        between_characters(source.spec_bytes(), updates@),
    ensures
        encode_utf8(content@) == spliced(
            source.spec_bytes(),
            0,
            by_offset(updates@.map_values(|update: SourceUpdate| update@)),
        ),
        fits(source.spec_bytes(), 0, by_offset(updates@.map_values(|update: SourceUpdate| update@))),
{
    let ghost bytes = source.spec_bytes();
    let ghost unsorted = updates@;
    let sorted = sort_by_key(updates);
    let ghost all = views(sorted@);
    proof {
        sorted_updates(bytes, unsorted);
        sorts_agree(unsorted);
        encode_utf8_valid_utf8(source@);
        assert(unsorted.map_values(|update: SourceUpdate| update@) =~= views(unsorted));
        assert forall|i: int| 0 <= i < all.len() implies 0 <= (#[trigger] all[i]).at <= bytes.len() by {
            assert(sorted@[i].at <= bytes.len());
        }
        assert forall|i: int, j: int| 0 <= i < j < all.len() implies (#[trigger] all[i]).at <= (
        #[trigger] all[j]).at by {
            assert(sorted@[i].at <= sorted@[j].at);
        }
        ordered_insertions_fit(bytes, 0, all);
        assert(all.skip(0) =~= all);
        assert(bytes.skip(0) =~= bytes);
        is_char_boundary_start_end_of_seq(bytes);
        assert(encode_utf8(Seq::<char>::empty()) + spliced(bytes, 0, all) =~= spliced(bytes, 0, all));
    }
    let mut content = String::new();
    let mut rest = source;
    let mut cursor: usize = 0;
    let mut k: usize = 0;
    while k < sorted.len()
        invariant
            bytes == source.spec_bytes(),
            valid_utf8(bytes),
            between_characters(bytes, sorted@),
            forall|i: int, j: int|
                0 <= i < j < sorted@.len() ==> (#[trigger] sorted@[i]).at <= (#[trigger] sorted@[j]).at,
            all == views(sorted@),
            k <= sorted@.len(),
            cursor <= bytes.len(),
            is_char_boundary(bytes, cursor as int),
            forall|i: int| k <= i < sorted@.len() ==> cursor <= (#[trigger] sorted@[i]).at,
            rest.spec_bytes() == bytes.skip(cursor as int),
            encode_utf8(content@) + spliced(bytes, cursor as int, all.skip(k as int)) == spliced(bytes, 0, all),
        decreases sorted@.len() - k,
    {
        let at = sorted[k].at;
        proof {
            assert(sorted@[k as int].at <= bytes.len());
            boundary_in_rest(bytes, cursor as int, at as int);
        }
        let (piece, tail) = rest.split_at(at - cursor);
        let ghost before = content@;
        content.append(piece);
        content.append(sorted[k].text.as_str());
        proof {
            let text = sorted@[k as int].text@;
            encode_utf8_adds(before, piece@);
            encode_utf8_adds(before + piece@, text);
            assert(piece.spec_bytes() =~= bytes.subrange(cursor as int, at as int));
            assert(all.skip(k as int)[0] == sorted@[k as int]@);
            assert(all.skip(k as int).drop_first() =~= all.skip(k + 1));
            assert(tail.spec_bytes() =~= bytes.skip(at as int));
            assert(encode_utf8(content@) + spliced(bytes, at as int, all.skip(k + 1)) =~= encode_utf8(before) + (
            bytes.subrange(cursor as int, at as int) + encode_utf8(text) + spliced(
                bytes,
                at as int,
                all.skip(k + 1),
            )));
        }
        rest = tail;
        cursor = at;
        k += 1;
    }
    let ghost before = content@;
    content.append(rest);
    proof {
        encode_utf8_adds(before, rest@);
        assert(all.skip(k as int) =~= Seq::empty());
    }
    content
}

/// Everything that is collected from a source.
pub open spec fn collected_from(path: Seq<char>, source: Seq<u8>, version: Version, unit: SourceUnit) -> Collected {
    let cx = Context { version, path, source, contract: Seq::empty(), mode: ProbeMode::Direct };
    visited_items(
        cx,
        Collected { updates: Seq::empty(), probes: Seq::empty(), branches: 0 },
        unit.items,
        unit.items@.len(),
    )
}

/// What follows an instrumented source: the import of the coverage library on a line of its own.
pub open spec fn import_lines() -> Seq<char> {
    "\n"@ + COVERAGE_IMPORT@ + "\n"@
}

/// The instrumented source.
pub open spec fn instrumented_bytes(path: Seq<char>, source: Seq<u8>, version: Version, unit: SourceUnit) -> Seq<u8> {
    spliced(source, 0, by_offset(collected_from(path, source, version, unit).updates)) + encode_utf8(import_lines())
}

/// The syntax tree belongs to the source, and offsets and branches can be numbered.
pub open spec fn can_instrument(source: Seq<u8>, unit: SourceUnit) -> bool {
    &&& source.len() <= u32::MAX
    &&& items_ok(source, unit.items, unit.items@.len())
    &&& items_branches(source, unit.items, unit.items@.len()) <= u32::MAX
}

/// Instruments a source: gives the rewritten source and its probes, or nothing where the source has
/// no place for a probe.
pub fn instrument_source(path: &str, source: &str, version: &Version, unit: &SourceUnit) -> (instrumented: Option<
    (String, Vec<InstrumentedCoverageProbe>),
>)
    requires
        can_instrument(source.spec_bytes(), *unit),
    ensures
        instrumented is None <==> collected_from(path@, source.spec_bytes(), *version, *unit).probes.len() == 0,
        instrumented is Some ==> {
            &&& encode_utf8((instrumented->0).0@) == instrumented_bytes(path@, source.spec_bytes(), *version, *unit)
            &&& probe_views((instrumented->0).1@) == collected_from(
                path@,
                source.spec_bytes(),
                *version,
                *unit,
            ).probes
            &&& fits(
                source.spec_bytes(),
                0,
                by_offset(collected_from(path@, source.spec_bytes(), *version, *unit).updates),
            )
        },
{
    let mut collector = StatementCollector::new(path, source, version);
    proof {
        items_add_branches(collector.context(), collector.collected(), unit.items, unit.items@.len());
    }
    collector.visit_items(&unit.items);
    let (updates, probes) = collector.finish();
    if probes.len() == 0 {
        return None;
    }
    let mut content = splice(source, updates);
    proof {
        encode_utf8_adds(content@, import_lines());
    }
    let ghost before = content@;
    content.append("\n");
    content.append(COVERAGE_IMPORT);
    content.append("\n");
    assert(content@ =~= before + import_lines());
    Some((content, probes))
}

/// Taking the import and the insertions out of an instrumented source gives back the source.
pub proof fn instrumented_source_keeps_source(path: Seq<char>, source: Seq<u8>, version: Version, unit: SourceUnit)
    requires
        fits(source, 0, by_offset(collected_from(path, source, version, unit).updates)),
    ensures
        ({
            let insertions = by_offset(collected_from(path, source, version, unit).updates);
            let all = instrumented_bytes(path, source, version, unit);
            unspliced(all.take(all.len() - encode_utf8(import_lines()).len()), 0, insertions) == source
        }),
{
    let insertions = by_offset(collected_from(path, source, version, unit).updates);
    let all = instrumented_bytes(path, source, version, unit);
    assert(all.take(all.len() - encode_utf8(import_lines()).len()) =~= spliced(source, 0, insertions));
    splicing_keeps_source(source, 0, insertions);
    assert(source.skip(0) =~= source);
}

/// The code of everything that is collected is in the instrumented source, and the import of the coverage library is
/// its last line.
pub proof fn everything_collected_is_inserted(
    path: Seq<char>,
    source: Seq<u8>,
    version: Version,
    unit: SourceUnit,
    i: int,
)
    requires
        fits(source, 0, by_offset(collected_from(path, source, version, unit).updates)),
        0 <= i < collected_from(path, source, version, unit).updates.len(),
    ensures
        ({
            let all = instrumented_bytes(path, source, version, unit);
            let import = encode_utf8("\n"@ + COVERAGE_IMPORT@ + "\n"@);
            &&& occurs(all, encode_utf8(collected_from(path, source, version, unit).updates[i].text))
            &&& all.len() >= import.len() && all.skip(all.len() - import.len()) == import
        }),
{
    let updates = collected_from(path, source, version, unit).updates;
    let sorted = by_offset(updates);
    let all = instrumented_bytes(path, source, version, unit);
    let import = encode_utf8("\n"@ + COVERAGE_IMPORT@ + "\n"@);
    insertions_keep_their_order(updates, updates[i].at);
    updates.to_multiset_ensures();
    sorted.to_multiset_ensures();
    assert(updates.contains(updates[i]));
    assert(updates.to_multiset().count(updates[i]) > 0);
    assert(sorted.contains(updates[i]));
    let k = choose|k: int| 0 <= k < sorted.len() && sorted[k] == updates[i];
    every_insertion_is_made(source, 0, sorted, k);
    let text = encode_utf8(updates[i].text);
    let at = sorted[k].at - 0 + total(
        sorted.take(k).map_values(|insertion: Insertion| encode_utf8(insertion.text).len()),
    );
    assert(all.subrange(at, at + text.len()) =~= spliced(source, 0, sorted).subrange(at, at + text.len()));
    assert(stands_at(all, at, text));
    assert(all.skip(all.len() - import.len()) =~= import);
}

/// `regex::Regex`, a compiled regular expression.
#[verifier::external_type_specification]
#[verifier::external_body]
pub struct ExRegex(Regex);

/// What an expression was compiled from: its pattern, with the options that it was compiled with.
pub uninterp spec fn regex_pattern(regex: Regex) -> Seq<char>;

/// A pattern matches somewhere in a text.
pub uninterp spec fn pattern_matches(pattern: Seq<char>, text: Seq<char>) -> bool;

/// `regex::Regex::is_match`: whether the expression matches somewhere in the text. That is a function of what
/// the expression was compiled from and the text alone.
#[verifier::external_body]
pub(crate) fn regex_is_match(regex: &Regex, text: &str) -> (matched: bool)
    ensures
        matched == pattern_matches(regex_pattern(*regex), text@),
{
    regex.is_match(text)
}

/// A source of a compiler input.
#[derive(Debug)]
pub struct InputSource {
    pub path: String,
    pub content: String,
    /// The file lies in a library directory.
    pub in_library: bool,
    /// The file holds tests.
    pub is_test: bool,
    /// The syntax tree, where the content was parsed.
    pub unit: Option<SourceUnit>,
}

impl Keyed for InputSource {
    open spec fn sort_key(&self) -> Seq<u64> {
        path_key(self.path@)
    }

    fn make_key(&self) -> (key: Vec<u64>) {
        make_path_key(self.path.as_str())
    }
}

/// A comment in the source leaves out the whole source.
pub open spec fn leaves_itself_out(content: Seq<char>) -> bool {
    occurs(encode_utf8(content), encode_utf8("// forge coverage ignore file"@))
}

/// Whether a comment in the source leaves out the whole source.
pub fn is_left_out(content: &str) -> (left_out: bool)
    ensures
        left_out == leaves_itself_out(content@),
{
    has_bytes(content.as_bytes(), "// forge coverage ignore file".as_bytes())
}

/// Which sources get probes: Solidity files other than the coverage library, library files only if those are asked
/// for, tests unless they are left out, none that is excluded, that leaves itself out or that was not parsed, and none
/// without a place for a probe. All others stay as they are, byte for byte.
pub proof fn sources_that_get_probes(
    preprocessor: CoverageInstrumentationPreprocessor,
    source: InputSource,
    root: Seq<char>,
    version: Version,
)
    ensures
        ({
            let bytes = encode_utf8(source.content@);
            let gets = preprocessor.collected_of(source, root, version) is Some;
            &&& gets ==> has_extension(source.path@, "sol"@) && !same_path(source.path@, COVERAGE_LIBRARY_PATH@)
            &&& gets && source.in_library ==> preprocessor.include_libs
            &&& gets && source.is_test ==> !preprocessor.exclude_tests
            &&& gets ==> !occurs(bytes, encode_utf8("// forge coverage ignore file"@))
            &&& gets && preprocessor.excluded_sources is Some ==> !pattern_matches(
                regex_pattern(preprocessor.excluded_sources->0),
                relative_to(source.path@, root),
            )
            &&& !gets ==> preprocessor.content_of(source, root, version) == bytes
            &&& has_extension(source.path@, "sol"@) && !same_path(source.path@, COVERAGE_LIBRARY_PATH@) && (
            source.in_library ==> preprocessor.include_libs) && (source.is_test ==> !preprocessor.exclude_tests) && (
            preprocessor.excluded_sources is Some ==> !pattern_matches(
                regex_pattern(preprocessor.excluded_sources->0),
                relative_to(source.path@, root),
            )) && !occurs(bytes, encode_utf8("// forge coverage ignore file"@)) && source.unit is Some
                && collected_from(source.path@, bytes, version, source.unit->0).probes.len() > 0 ==> gets
        }),
{
}

/// The probes of the sources are those of each source that gets any, source by source.
pub proof fn probes_of_all_sources(
    preprocessor: CoverageInstrumentationPreprocessor,
    sources: Seq<InputSource>,
    n: int,
    root: Seq<char>,
    version: Version,
)
    requires
        0 <= n <= sources.len(),
    ensures
        preprocessor.probes_of(sources, n, root, version) == Seq::new(
            n as nat,
            |i: int|
                match preprocessor.collected_of(sources[i], root, version) {
                    Some(c) => c.probes,
                    None => Seq::<ProbeView>::empty(),
                },
        ).flatten(),
    decreases n,
{
    let f = |i: int|
        match preprocessor.collected_of(sources[i], root, version) {
            Some(c) => c.probes,
            None => Seq::<ProbeView>::empty(),
        };
    if n == 0 {
        assert(Seq::new(0, f) =~= Seq::empty());
        joined_empty::<ProbeView>();
    } else {
        probes_of_all_sources(preprocessor, sources, n - 1, root, version);
        assert(Seq::new(n as nat, f) =~= Seq::new((n - 1) as nat, f).push(f(n - 1)));
        joined_push(Seq::new((n - 1) as nat, f), f(n - 1));
        assert(preprocessor.probes_of(sources, n, root, version) =~= preprocessor.probes_of(
            sources,
            n - 1,
            root,
            version,
        ) + f(n - 1));
    }
}

/// Puts probes into the sources of a compiler input.
#[derive(Debug)]
pub struct CoverageInstrumentationPreprocessor {
    /// The probes of all sources so far.
    pub metadata: InstrumentedCoverageMetadata,
    pub include_libs: bool,
    pub exclude_tests: bool,
    /// Sources that match this regular expression get no probes.
    pub excluded_sources: Option<Regex>,
}

impl CoverageInstrumentationPreprocessor {
    /// A preprocessor that adds its probes to `metadata`.
    pub fn new(
        metadata: InstrumentedCoverageMetadata,
        include_libs: bool,
        exclude_tests: bool,
        excluded_sources: Option<Regex>,
    ) -> (preprocessor: Self)
        ensures
            preprocessor == (CoverageInstrumentationPreprocessor {
                metadata,
                include_libs,
                exclude_tests,
                excluded_sources,
            }),
    {
        CoverageInstrumentationPreprocessor { metadata, include_libs, exclude_tests, excluded_sources }
    }

    /// The expression of excluded sources, if there is one, matches the path as seen from `root`.
    pub open spec fn excludes(&self, path: Seq<char>, root: Seq<char>) -> bool {
        match self.excluded_sources {
            Some(regex) => pattern_matches(regex_pattern(regex), relative_to(path, root)),
            None => false,
        }
    }

    /// A source gets probes: it is a Solidity file other than the coverage library, neither a library
    /// file nor a test that is left out, and not excluded.
    pub open spec fn admits(&self, path: Seq<char>, in_library: bool, is_test: bool, excluded: bool) -> bool {
        &&& !same_path(path, COVERAGE_LIBRARY_PATH@)
        &&& has_extension(path, "sol"@)
        &&& self.include_libs || !in_library
        &&& !self.exclude_tests || !is_test
        &&& !excluded
    }

    /// Whether a source gets probes, given whether the expression of excluded sources matches it.
    pub fn should_instrument_given(
        &self,
        path: &String,
        in_library: bool,
        is_test: bool,
        excluded: bool,
    ) -> (should: bool)
        ensures
            should == self.admits(path@, in_library, is_test, excluded),
    {
        if is_same_path(path.as_str(), COVERAGE_LIBRARY_PATH) {
            return false;
        }
        if !path_has_extension(path.as_str(), "sol") {
            return false;
        }
        if !self.include_libs && in_library {
            return false;
        }
        if self.exclude_tests && is_test {
            return false;
        }
        !excluded
    }

    /// Whether a source gets probes.
    pub fn should_instrument(&self, path: &String, in_library: bool, is_test: bool, root: &str) -> (should: bool)
        ensures
            should == self.admits(path@, in_library, is_test, self.excludes(path@, root@)),
    {
        let excluded = match &self.excluded_sources {
            Some(regex) => {
                let relative = relative_path(path.as_str(), root);
                regex_is_match(regex, relative.as_str())
            },
            None => false,
        };
        self.should_instrument_given(path, in_library, is_test, excluded)
    }

    /// What is collected from a source, if it gets probes at all.
    pub open spec fn collected_of(&self, source: InputSource, root: Seq<char>, version: Version) -> Option<Collected> {
        if self.admits(source.path@, source.in_library, source.is_test, self.excludes(source.path@, root))
            && !leaves_itself_out(source.content@) && source.unit is Some {
            let c = collected_from(source.path@, encode_utf8(source.content@), version, source.unit->0);
            if c.probes.len() > 0 { Some(c) } else { None }
        } else {
            None
        }
    }

    /// The content of a source after preprocessing, in bytes.
    pub open spec fn content_of(&self, source: InputSource, root: Seq<char>, version: Version) -> Seq<u8> {
        if self.collected_of(source, root, version) is Some {
            instrumented_bytes(source.path@, encode_utf8(source.content@), version, source.unit->0)
        } else {
            encode_utf8(source.content@)
        }
    }

    /// The probes of the first `n` sources.
    pub open spec fn probes_of(&self, sources: Seq<InputSource>, n: int, root: Seq<char>, version: Version) -> Seq<
        ProbeView,
    >
        decreases n,
    {
        if n <= 0 {
            Seq::empty()
        } else {
            let before = self.probes_of(sources, n - 1, root, version);
            match self.collected_of(sources[n - 1], root, version) {
                Some(c) => before + c.probes,
                None => before,
            }
        }
    }

    /// One of the first `n` sources gets probes.
    pub open spec fn changes(&self, sources: Seq<InputSource>, n: int, root: Seq<char>, version: Version) -> bool {
        exists|i: int| 0 <= i < n && self.collected_of(#[trigger] sources[i], root, version) is Some
    }

    /// The sources can be instrumented.
    pub open spec fn ready(sources: Seq<InputSource>) -> bool {
        forall|i: int|
            0 <= i < sources.len() && (#[trigger] sources[i]).unit is Some ==> can_instrument(
                encode_utf8(sources[i].content@),
                sources[i].unit->0,
            )
    }

    /// Puts probes into the sources of a compiler input, and the coverage library beside them if any
    /// source got one. The probes are added to the metadata in the order of the sources' paths. Where
    /// parsing failed nothing is changed.
    pub fn preprocess_solc(&mut self, sources: &mut Table<InputSource>, root: &str, version: &Version, parsed: bool)
        requires
            old(sources).wf(),
            Self::ready(old(sources).entries@),
        ensures
            final(sources).wf(),
            !parsed ==> *final(self) == *old(self) && *final(sources) == *old(sources),
            final(self).include_libs == old(self).include_libs,
            final(self).exclude_tests == old(self).exclude_tests,
            final(self).excluded_sources == old(self).excluded_sources,
            parsed ==> {
                let before = old(sources).entries@;
                let n = before.len() as int;
                let changed = old(self).changes(before, n, root@, *version);
                let library = path_key(COVERAGE_LIBRARY_PATH@);
                &&& probe_views(final(self).metadata.probes@) == probe_views(old(self).metadata.probes@)
                    + old(self).probes_of(before, n, root@, *version)
                &&& forall|key: Seq<u64>| #[trigger]
                    final(sources)@.contains_key(key) <==> old(sources)@.contains_key(key) || (changed && key == library)
                &&& changed ==> final(sources)@[library].content@ == COVERAGE_LIBRARY_SOURCE@
                    && final(sources)@[library].path@ == (if old(sources)@.contains_key(library) {
                    old(sources)@[library].path@
                } else {
                    COVERAGE_LIBRARY_PATH@
                })
                &&& forall|i: int|
                    0 <= i < n && !(changed && (#[trigger] before[i]).sort_key() == library) ==> {
                        let after = final(sources)@[before[i].sort_key()];
                        &&& after.path@ == before[i].path@
                        &&& encode_utf8(after.content@) == old(self).content_of(before[i], root@, *version)
                    }
            },
    {
        if !parsed {
            return ;
        }
        let ghost before = sources.entries@;
        let ghost me = *self;
        let mut changed = false;
        let mut after: Table<InputSource> = Table::new();
        let mut k: usize = 0;
        assert(probe_views(self.metadata.probes@) =~= probe_views(me.metadata.probes@) + me.probes_of(
            before,
            0,
            root@,
            *version,
        ));
        while k < sources.entries.len()
            invariant
                sources.entries@ == before,
                ascending(before),
                k <= before.len(),
                Self::ready(before),
                self.include_libs == me.include_libs,
                self.exclude_tests == me.exclude_tests,
                self.excluded_sources == me.excluded_sources,
                after.wf(),
                changed == me.changes(before, k as int, root@, *version),
                probe_views(self.metadata.probes@) == probe_views(me.metadata.probes@) + me.probes_of(
                    before,
                    k as int,
                    root@,
                    *version,
                ),
                forall|key: Seq<u64>| #[trigger] after@.contains_key(key) <==> has_key(before.take(k as int), key),
                forall|i: int|
                    0 <= i < k ==> {
                        let new = after@[(#[trigger] before[i]).sort_key()];
                        &&& new.path@ == before[i].path@
                        &&& encode_utf8(new.content@) == me.content_of(before[i], root@, *version)
                    },
            decreases before.len() - k,
        {
            let source = &sources.entries[k];
            let ghost earlier = after@;
            assert(Self::ready(before));
            assert(*source == before[k as int]);
            let mut content = source.content.clone();
            if self.should_instrument(&source.path, source.in_library, source.is_test, root) && !is_left_out(
                source.content.as_str(),
            ) {
                if let Some(unit) = &source.unit {
                    if let Some((text, mut probes)) = instrument_source(
                        source.path.as_str(),
                        source.content.as_str(),
                        version,
                        unit,
                    ) {
                        content = text;
                        changed = true;
                        let ghost own = probes@;
                        let ghost old_probes = self.metadata.probes@;
                        self.metadata.probes.append(&mut probes);
                        assert(probe_views(old_probes + own) =~= probe_views(old_probes) + probe_views(own));
                    }
                }
            }
            let entry = InputSource {
                path: source.path.clone(),
                content,
                in_library: source.in_library,
                is_test: source.is_test,
                unit: None,
            };
            after.put(entry);
            proof {
                assert(me.admits(source.path@, source.in_library, source.is_test, me.excludes(source.path@, root@))
                    == self.admits(
                    source.path@,
                    source.in_library,
                    source.is_test,
                    self.excludes(source.path@, root@),
                ));
                let now = before.take(k + 1);
                let then = before.take(k as int);
                assert(now[k as int] == before[k as int]);
                assert forall|key: Seq<u64>| #[trigger] after@.contains_key(key) <==> has_key(now, key) by {
                    if has_key(then, key) {
                        let j = choose|j: int| 0 <= j < then.len() && (#[trigger] then[j]).sort_key() == key;
                        assert(now[j].sort_key() == key);
                    }
                    if has_key(now, key) {
                        let j = choose|j: int| 0 <= j < now.len() && (#[trigger] now[j]).sort_key() == key;
                        if j < k {
                            assert(then[j].sort_key() == key);
                        }
                    }
                }
                assert(me.changes(before, k + 1, root@, *version) == (me.changes(before, k as int, root@, *version)
                    || me.collected_of(before[k as int], root@, *version) is Some)) by {
                    if me.changes(before, k as int, root@, *version) {
                        let i = choose|i: int|
                            0 <= i < k && me.collected_of(#[trigger] before[i], root@, *version) is Some;
                        assert(0 <= i < k + 1 && me.collected_of(before[i], root@, *version) is Some);
                    }
                }
                assert forall|i: int| 0 <= i < k + 1 implies ({
                    let new = after@[(#[trigger] before[i]).sort_key()];
                    &&& new.path@ == before[i].path@
                    &&& encode_utf8(new.content@) == me.content_of(before[i], root@, *version)
                }) by {
                    if i < k {
                        crate::order::precedes_irreflexive(before[i].sort_key());
                        assert(precedes(before[i].sort_key(), before[k as int].sort_key()));
                    }
                }
                assert(probe_views(self.metadata.probes@) =~= probe_views(me.metadata.probes@) + me.probes_of(
                    before,
                    k + 1,
                    root@,
                    *version,
                ));
            }
            k += 1;
        }
        proof {
            assert(before.take(k as int) =~= before);
        }
        if changed {
            let key = make_path_key(COVERAGE_LIBRARY_PATH);
            let path = match sources.find(&key) {
                Some(at) => sources.entries[at].path.clone(),
                None => COVERAGE_LIBRARY_PATH.to_owned(),
            };
            after.put(
                InputSource {
                    path,
                    content: COVERAGE_LIBRARY_SOURCE.to_owned(),
                    in_library: false,
                    is_test: false,
                    unit: None,
                },
            );
        }
        *sources = after;
    }
}

}
