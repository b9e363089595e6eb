//! What a tracefile says, line by line.
use crate::files::FileItems;
use crate::items::{CoverageItem, CoverageItemKind};
use crate::lcov::{
    all_records, file_text, first_of_line, hit_before, index_after, index_after_files, item_records, lcov_text,
    marked_before, marks_line, totals_text,
};
use crate::summary::{summarizes, summary_counts_items, CoverageSummary, kind_count, kind_count_bounded, kind_hits};
use crate::sums::{
    below, below_next, joined_adds, joined_empty, joined_push, picked_adds, picked_empty, picked_members, picked_one,
    picked_push,
};
use crate::text::{decimal, decimal_has_digits};
use crate::version::{not_before, Version};
use vstd::prelude::*;

verus! {

/// The text has no line break in it.
pub open spec fn is_one_line(text: Seq<char>) -> bool {
    forall|i: int| 0 <= i < text.len() ==> #[trigger] text[i] != '\n'
}

/// The text made of lines, each of which ends in a line break.
pub open spec fn text_of(lines: Seq<Seq<char>>) -> Seq<char> {
    lines.map_values(|line: Seq<char>| line.push('\n')).flatten()
}

/// The lines are those of a text.
pub open spec fn are_lines_of(lines: Seq<Seq<char>>, text: Seq<char>) -> bool {
    &&& text_of(lines) == text
    &&& forall|k: int| 0 <= k < lines.len() ==> is_one_line(#[trigger] lines[k])
}

/// The line begins with a tag.
pub open spec fn has_tag(line: Seq<char>, tag: Seq<char>) -> bool {
    tag.len() <= line.len() && line.take(tag.len() as int) == tag
}

/// The lines that begin with a tag.
pub open spec fn tagged(lines: Seq<Seq<char>>, tag: Seq<char>) -> Seq<Seq<char>> {
    lines.filter(|line: Seq<char>| has_tag(line, tag))
}

/// An item begins on a line, as a line or a statement, and none of the items before it does.
pub open spec fn begins_line(items: Seq<CoverageItem>, i: int) -> bool {
    &&& items[i].kind is Line || items[i].kind is Statement
    &&& forall|j: int|
        0 <= j < i && ((#[trigger] items[j]).kind is Line || items[j].kind is Statement) ==> items[j].loc.lines.start
            != items[i].loc.lines.start
}

/// A line or a statement that begins on a line was hit.
pub open spec fn ran(items: Seq<CoverageItem>, line: u32) -> bool {
    exists|j: int|
        0 <= j < items.len() && ((#[trigger] items[j]).kind is Line || items[j].kind is Statement)
            && items[j].loc.lines.start == line && items[j].hits != 0
}

/// What is said of a line.
pub open spec fn line_said(item: CoverageItem) -> Seq<char> {
    "DA:"@ + decimal(item.loc.lines.start as nat) + ","@ + decimal(item.hits as nat)
}

/// What is said of a path of a branch.
pub open spec fn path_said(items: Seq<CoverageItem>, item: CoverageItem) -> Seq<char> {
    let taken = if item.hits != 0 || ran(items, item.loc.lines.start) { decimal(item.hits as nat) } else { "-"@ };
    "BRDA:"@ + decimal(item.loc.lines.start as nat) + ","@ + decimal(item.kind->Branch_branch_id as nat) + ","@ + decimal(
        item.kind->Branch_path_id as nat,
    ) + ","@ + taken
}

/// The name of a function as it is said, behind that of its contract if it has one.
pub open spec fn name_said(item: CoverageItem) -> Seq<char> {
    if item.loc.contract_name@.len() == 0 {
        item.kind->Function_name@
    } else {
        item.loc.contract_name@ + "."@ + item.kind->Function_name@
    }
}

/// The number of the `k`th function from `index` on; numbers start over where they end.
pub open spec fn numbered(index: usize, k: int) -> nat {
    ((index + k) % (usize::MAX + 1)) as nat
}

/// The lines say of every function where it begins, in the later formats also where it ends, and how often it was
/// called.
pub open spec fn functions_said(
    lines: Seq<Seq<char>>,
    functions: Seq<CoverageItem>,
    version: Version,
    index: usize,
) -> bool {
    if not_before(version, 2, 2, 0) {
        let places = tagged(lines, "FNL:"@);
        let calls = tagged(lines, "FNA:"@);
        &&& places.len() == functions.len()
        &&& calls.len() == functions.len()
        &&& tagged(lines, "FN:"@).len() == 0
        &&& tagged(lines, "FNDA:"@).len() == 0
        &&& forall|k: int|
            0 <= k < functions.len() ==> #[trigger] places[k] == "FNL:"@ + decimal(numbered(index, k)) + ","@ + decimal(
                functions[k].loc.lines.start as nat,
            ) + ","@ + decimal((functions[k].loc.lines.end - 1) as nat)
        &&& forall|k: int|
            0 <= k < functions.len() ==> #[trigger] calls[k] == "FNA:"@ + decimal(numbered(index, k)) + ","@ + decimal(
                functions[k].hits as nat,
            ) + ","@ + name_said(functions[k])
    } else {
        let places = tagged(lines, "FN:"@);
        let calls = tagged(lines, "FNDA:"@);
        &&& places.len() == functions.len()
        &&& calls.len() == functions.len()
        &&& tagged(lines, "FNL:"@).len() == 0
        &&& tagged(lines, "FNA:"@).len() == 0
        &&& forall|k: int|
            0 <= k < functions.len() ==> #[trigger] places[k] == "FN:"@ + decimal(functions[k].loc.lines.start as nat)
                + (if not_before(version, 2, 0, 0) {
                ","@ + decimal((functions[k].loc.lines.end - 1) as nat)
            } else {
                Seq::empty()
            }) + ","@ + name_said(functions[k])
        &&& forall|k: int|
            0 <= k < functions.len() ==> #[trigger] calls[k] == "FNDA:"@ + decimal(functions[k].hits as nat) + ","@
                + name_said(functions[k])
    }
}

/// The lines say what there is to say of a file: every line on which a line or statement begins has one record,
/// every path of a branch one, and every function two, whatever their hits.
pub open spec fn file_is_said(
    lines: Seq<Seq<char>>,
    path: Seq<char>,
    items: Seq<CoverageItem>,
    version: Version,
    index: usize,
) -> bool {
    let branches = items.filter(|item: CoverageItem| item.kind is Branch);
    let functions = items.filter(|item: CoverageItem| item.kind is Function);
    let firsts = below(items.len()).filter(|i: int| begins_line(items, i));
    &&& lines.len() == 2 + firsts.len() + branches.len() + 2 * functions.len() + 7
    &&& lines[0] == "TN:"@
    &&& lines[1] == "SF:"@ + path
    &&& tagged(lines, "SF:"@) == seq!["SF:"@ + path]
    &&& tagged(lines, "DA:"@) == firsts.map_values(|i: int| line_said(items[i]))
    &&& tagged(lines, "BRDA:"@) == branches.map_values(|item: CoverageItem| path_said(items, item))
    &&& functions_said(lines, functions, version, index)
    &&& totals_are_said(lines.skip(lines.len() - 7), items)
}

/// The lines say how many functions, lines and paths of branches there are, and how many of them were hit.
pub open spec fn totals_are_said(lines: Seq<Seq<char>>, items: Seq<CoverageItem>) -> bool {
    &&& lines.len() == 7
    &&& lines[0] == "FNF:"@ + decimal(items.filter(|item: CoverageItem| item.kind is Function).len())
    &&& lines[1] == "FNH:"@ + decimal(items.filter(|item: CoverageItem| item.kind is Function && item.hits != 0).len())
    &&& lines[2] == "LF:"@ + decimal(items.filter(|item: CoverageItem| item.kind is Line).len())
    &&& lines[3] == "LH:"@ + decimal(items.filter(|item: CoverageItem| item.kind is Line && item.hits != 0).len())
    &&& lines[4] == "BRF:"@ + decimal(items.filter(|item: CoverageItem| item.kind is Branch).len())
    &&& lines[5] == "BRH:"@ + decimal(items.filter(|item: CoverageItem| item.kind is Branch && item.hits != 0).len())
    &&& lines[6] == "end_of_record"@
}

/// No name in an item has a line break in it.
pub open spec fn names_are_plain(items: Seq<CoverageItem>) -> bool {
    forall|i: int|
        0 <= i < items.len() ==> is_one_line((#[trigger] items[i]).loc.contract_name@) && (items[i].kind is Function
            ==> is_one_line(items[i].kind->Function_name@))
}

/// The text is a tag: a colon ends it, and there is no other in it.
spec fn is_tag(tag: Seq<char>) -> bool {
    &&& tag.len() > 0
    &&& tag.last() == ':'
    &&& forall|i: int| 0 <= i < tag.len() - 1 ==> #[trigger] tag[i] != ':'
}

proof fn tags_tell_lines(tag: Seq<char>, rest: Seq<char>, other: Seq<char>)
    requires
        is_tag(tag),
        is_tag(other),
    ensures
        has_tag(tag + rest, other) <==> tag == other,
{
    let line = tag + rest;
    if has_tag(line, other) {
        assert(line[other.len() - 1] == other[other.len() - 1]) by {
            assert(line.take(other.len() as int)[other.len() - 1] == line[other.len() - 1]);
        }
        assert(line[tag.len() - 1] == ':');
        if other.len() < tag.len() {
            assert(tag[other.len() - 1] == ':');
        } else if tag.len() < other.len() {
            assert(line.take(other.len() as int)[tag.len() - 1] == line[tag.len() - 1]);
            assert(other[tag.len() - 1] == ':');
        }
        assert(line.take(tag.len() as int) =~= tag);
    }
    if tag == other {
        assert(line.take(tag.len() as int) =~= tag);
    }
}

/// A number for each tag, so that tags can be told apart.
spec fn tag_at(n: int) -> Seq<char> {
    if n == 0 { "DA:"@ } else if n == 1 { "BRDA:"@ } else if n == 2 { "FN:"@ } else if n == 3 { "FNDA:"@ }
    else if n == 4 { "FNL:"@ } else if n == 5 { "FNA:"@ } else if n == 6 { "SF:"@ } else if n == 7 { "TN:"@ }
    else if n == 8 { "FNF:"@ } else if n == 9 { "FNH:"@ } else if n == 10 { "LF:"@ } else if n == 11 { "LH:"@ }
    else if n == 12 { "BRF:"@ } else { "BRH:"@ }
}

proof fn tags_differ()
    ensures
        forall|m: int| 0 <= m < 14 ==> is_tag(#[trigger] tag_at(m)) && is_one_line(tag_at(m)),
        forall|m: int, n: int| 0 <= m < n < 14 ==> #[trigger] tag_at(m) != #[trigger] tag_at(n),
{
    reveal_strlit("DA:");
    reveal_strlit("BRDA:");
    reveal_strlit("FN:");
    reveal_strlit("FNDA:");
    reveal_strlit("FNL:");
    reveal_strlit("FNA:");
    reveal_strlit("SF:");
    reveal_strlit("TN:");
    reveal_strlit("FNF:");
    reveal_strlit("FNH:");
    reveal_strlit("LF:");
    reveal_strlit("LH:");
    reveal_strlit("BRF:");
    reveal_strlit("BRH:");
    assert forall|m: int, n: int| 0 <= m < n < 14 implies #[trigger] tag_at(m) != #[trigger] tag_at(n) by {
        let a = tag_at(m);
        let b = tag_at(n);
        if a == b {
            assert(a[0] == b[0] && a[1] == b[1] && a[2] == b[2]);
        }
    }
}

proof fn end_has_no_tag(tag: Seq<char>)
    requires
        is_tag(tag),
    ensures
        !has_tag("end_of_record"@, tag),
        is_one_line("end_of_record"@),
{
    reveal_strlit("end_of_record");
    let line = "end_of_record"@;
    if has_tag(line, tag) {
        assert(line.take(tag.len() as int)[tag.len() - 1] == line[tag.len() - 1]);
    }
}

proof fn text_of_adds(a: Seq<Seq<char>>, b: Seq<Seq<char>>)
    ensures
        text_of(a + b) == text_of(a) + text_of(b),
{
    let f = |line: Seq<char>| line.push('\n');
    assert((a + b).map_values(f) =~= a.map_values(f) + b.map_values(f));
    joined_adds(a.map_values(f), b.map_values(f));
}

proof fn text_of_one(line: Seq<char>)
    ensures
        text_of(seq![line]) == line.push('\n'),
{
    let f = |line: Seq<char>| line.push('\n');
    assert(seq![line].map_values(f) =~= Seq::<Seq<char>>::empty().push(line.push('\n')));
    joined_push(Seq::<Seq<char>>::empty(), line.push('\n'));
    joined_empty::<char>();
    assert(text_of(seq![line]) =~= line.push('\n'));
}

proof fn tagged_adds(a: Seq<Seq<char>>, b: Seq<Seq<char>>, tag: Seq<char>)
    ensures
        tagged(a + b, tag) == tagged(a, tag) + tagged(b, tag),
{
    picked_adds(a, b, |line: Seq<char>| has_tag(line, tag));
}

proof fn tagged_one(line: Seq<char>, tag: Seq<char>)
    ensures
        tagged(seq![line], tag) == (if has_tag(line, tag) { seq![line] } else { Seq::empty() }),
{
    picked_one(line, |line: Seq<char>| has_tag(line, tag));
}

proof fn tagged_two(a: Seq<char>, b: Seq<char>, tag: Seq<char>)
    ensures
        tagged(seq![a, b], tag) == (if has_tag(a, tag) { seq![a] } else { Seq::empty() }) + (if has_tag(b, tag) {
            seq![b]
        } else {
            Seq::empty()
        }),
{
    tagged_one(a, tag);
    tagged_one(b, tag);
    tagged_adds(seq![a], seq![b], tag);
    assert(seq![a, b] =~= seq![a] + seq![b]);
}

proof fn number_is_one_line(n: nat)
    ensures
        is_one_line(decimal(n)),
{
    decimal_has_digits(n);
}

proof fn small_texts()
    ensures
        is_one_line(","@),
        is_one_line("."@),
        is_one_line("-"@),
        "\n"@ == seq!['\n'],
        decimal(0) == "0"@,
        "0"@.len() == 1,
{
    reveal_strlit(",");
    reveal_strlit(".");
    reveal_strlit("-");
    reveal_strlit("\n");
    reveal_strlit("0");
    assert("\n"@ =~= seq!['\n']);
    assert(decimal(0) =~= "0"@);
}

/// The place of a function as it is said.
spec fn place_said(item: CoverageItem, version: Version, number: nat) -> Seq<char> {
    if not_before(version, 2, 2, 0) {
        "FNL:"@ + decimal(number) + ","@ + decimal(item.loc.lines.start as nat) + ","@ + decimal(
            (item.loc.lines.end - 1) as nat,
        )
    } else {
        "FN:"@ + decimal(item.loc.lines.start as nat) + (if not_before(version, 2, 0, 0) {
            ","@ + decimal((item.loc.lines.end - 1) as nat)
        } else {
            Seq::empty()
        }) + ","@ + name_said(item)
    }
}

/// The calls of a function as they are said.
spec fn calls_said(item: CoverageItem, version: Version, number: nat) -> Seq<char> {
    if not_before(version, 2, 2, 0) {
        "FNA:"@ + decimal(number) + ","@ + decimal(item.hits as nat) + ","@ + name_said(item)
    } else {
        "FNDA:"@ + decimal(item.hits as nat) + ","@ + name_said(item)
    }
}

/// The lines for an item.
spec fn item_lines(items: Seq<CoverageItem>, i: int, version: Version, index: usize) -> Seq<Seq<char>> {
    let item = items[i];
    match item.kind {
        CoverageItemKind::Function { .. } => seq![
            place_said(item, version, index as nat),
            calls_said(item, version, index as nat),
        ],
        CoverageItemKind::Branch { .. } => seq![path_said(items, item)],
        _ => if begins_line(items, i) { seq![line_said(item)] } else { Seq::empty() },
    }
}

proof fn marks_agree(items: Seq<CoverageItem>, i: int)
    requires
        0 <= i < items.len(),
    ensures
        first_of_line(items, i) == begins_line(items, i),
        hit_before(items, items.len() as int, items[i].loc.lines.start) == ran(items, items[i].loc.lines.start),
{
    let line = items[i].loc.lines.start;
    if marked_before(items, i, line) {
        let j = choose|j: int| 0 <= j < i && marks_line(#[trigger] items[j]) && items[j].loc.lines.start == line;
        assert(items[j].kind is Line || items[j].kind is Statement);
    }
    if !begins_line(items, i) && (items[i].kind is Line || items[i].kind is Statement) {
        let j = choose|j: int|
            0 <= j < i && ((#[trigger] items[j]).kind is Line || items[j].kind is Statement)
                && items[j].loc.lines.start == line;
        assert(marks_line(items[j]));
    }
    if hit_before(items, items.len() as int, line) {
        let j = choose|j: int|
            0 <= j < items.len() && marks_line(#[trigger] items[j]) && items[j].loc.lines.start == line
                && items[j].hits > 0;
        assert(items[j].kind is Line || items[j].kind is Statement);
    }
    if ran(items, line) {
        let j = choose|j: int|
            0 <= j < items.len() && ((#[trigger] items[j]).kind is Line || items[j].kind is Statement)
                && items[j].loc.lines.start == line && items[j].hits != 0;
        assert(marks_line(items[j]));
    }
}

#[verifier::rlimit(60)]
proof fn function_text(items: Seq<CoverageItem>, i: int, version: Version, index: usize)
    requires
        0 <= i < items.len(),
        items[i].kind is Function,
    ensures
        text_of(item_lines(items, i, version, index)) == item_records(items, i, version, index),
{
    let item = items[i];
    let a = place_said(item, version, index as nat);
    let b = calls_said(item, version, index as nat);
    small_texts();
    text_of_one(a);
    text_of_one(b);
    text_of_adds(seq![a], seq![b]);
    assert(seq![a, b] =~= seq![a] + seq![b]);
    let name = crate::lcov::full_name(item, item.kind->Function_name@);
    assert(name == name_said(item));
    assert(a.push('\n') =~= crate::lcov::place_record(item, name, version, index));
    assert(b.push('\n') =~= crate::lcov::calls_record(item, name, version, index));
}

proof fn item_text(items: Seq<CoverageItem>, i: int, version: Version, index: usize)
    requires
        0 <= i < items.len(),
    ensures
        text_of(item_lines(items, i, version, index)) == item_records(items, i, version, index),
{
    let item = items[i];
    small_texts();
    marks_agree(items, i);
    match item.kind {
        CoverageItemKind::Function { .. } => function_text(items, i, version, index),
        CoverageItemKind::Branch { .. } => {
            text_of_one(path_said(items, item));
            assert(path_said(items, item).push('\n') =~= item_records(items, i, version, index));
        },
        _ => {
            if begins_line(items, i) {
                text_of_one(line_said(item));
                assert(line_said(item).push('\n') =~= item_records(items, i, version, index));
            } else {
                assert(text_of(Seq::empty()) =~= Seq::empty()) by {
                    let f = |line: Seq<char>| line.push('\n');
                    assert(Seq::<Seq<char>>::empty().map_values(f) =~= Seq::empty());
                }
            }
        },
    }
}

proof fn item_lines_are_lines(items: Seq<CoverageItem>, i: int, version: Version, index: usize)
    requires
        0 <= i < items.len(),
        names_are_plain(items),
    ensures
        forall|k: int|
            0 <= k < item_lines(items, i, version, index).len() ==> is_one_line(
                #[trigger] item_lines(items, i, version, index)[k],
            ),
{
    let item = items[i];
    small_texts();
    tags_differ();
    assert(is_one_line(tag_at(0)) && is_one_line(tag_at(1)) && is_one_line(tag_at(2)) && is_one_line(tag_at(3)));
    assert(is_one_line(tag_at(4)) && is_one_line(tag_at(5)));
    number_is_one_line(item.loc.lines.start as nat);
    number_is_one_line((item.loc.lines.end - 1) as nat);
    number_is_one_line(item.hits as nat);
    number_is_one_line(index as nat);
    match item.kind {
        CoverageItemKind::Function { name } => {
            let place = place_said(item, version, index as nat);
            let calls = calls_said(item, version, index as nat);
            assert(is_one_line(name_said(item)));
            assert(is_one_line(place));
            assert(is_one_line(calls));
        },
        CoverageItemKind::Branch { branch_id, path_id, .. } => {
            number_is_one_line(branch_id as nat);
            number_is_one_line(path_id as nat);
            assert(is_one_line(path_said(items, item)));
        },
        _ => {
            assert(is_one_line(line_said(item)));
        },
    }
}

/// The rest of a line behind its tag.
proof fn said_with_tag(items: Seq<CoverageItem>, i: int, version: Version, number: nat, n: int)
    requires
        0 <= i < items.len(),
        0 <= n < 7,
    ensures
        has_tag(line_said(items[i]), tag_at(n)) <==> n == 0,
        has_tag(path_said(items, items[i]), tag_at(n)) <==> n == 1,
        has_tag(place_said(items[i], version, number), tag_at(n)) <==> n == (if not_before(version, 2, 2, 0) {
            4int
        } else {
            2
        }),
        has_tag(calls_said(items[i], version, number), tag_at(n)) <==> n == (if not_before(version, 2, 2, 0) {
            5int
        } else {
            3
        }),
{
    tags_differ();
    assert(is_tag(tag_at(0)) && is_tag(tag_at(1)) && is_tag(tag_at(2)) && is_tag(tag_at(3)) && is_tag(tag_at(4))
        && is_tag(tag_at(5)) && is_tag(tag_at(6)));
    assert(is_tag(tag_at(n)));
    let item = items[i];
    let said = line_said(item);
    tag_is_first(0, said, n);
    let said = path_said(items, item);
    tag_is_first(1, said, n);
    let said = place_said(item, version, number);
    tag_is_first(if not_before(version, 2, 2, 0) { 4 } else { 2 }, said, n);
    let said = calls_said(item, version, number);
    tag_is_first(if not_before(version, 2, 2, 0) { 5 } else { 3 }, said, n);
}

proof fn tag_is_first(m: int, line: Seq<char>, n: int)
    requires
        0 <= m < 14,
        0 <= n < 14,
        tag_at(m).len() <= line.len(),
        forall|k: int| 0 <= k < tag_at(m).len() ==> #[trigger] line[k] == tag_at(m)[k],
    ensures
        has_tag(line, tag_at(n)) <==> m == n,
{
    tags_differ();
    assert(is_tag(tag_at(m)) && is_tag(tag_at(n)));
    let rest = line.skip(tag_at(m).len() as int);
    assert(line =~= tag_at(m) + rest);
    tags_tell_lines(tag_at(m), rest, tag_at(n));
    if m < n {
        assert(tag_at(m) != tag_at(n));
    } else if n < m {
        assert(tag_at(n) != tag_at(m));
    }
}

/// What the lines of the first `n` items are.
spec fn lines_up_to(items: Seq<CoverageItem>, n: int, version: Version, index: usize) -> Seq<Seq<char>>
    decreases n,
{
    if n <= 0 {
        Seq::empty()
    } else {
        lines_up_to(items, n - 1, version, index) + item_lines(
            items,
            n - 1,
            version,
            index_after(items, n - 1, version, index),
        )
    }
}

proof fn records_text(items: Seq<CoverageItem>, n: int, version: Version, index: usize)
    requires
        0 <= n <= items.len(),
        names_are_plain(items),
    ensures
        text_of(lines_up_to(items, n, version, index)) == all_records(items, n, version, index),
        forall|k: int|
            0 <= k < lines_up_to(items, n, version, index).len() ==> is_one_line(
                #[trigger] lines_up_to(items, n, version, index)[k],
            ),
    decreases n,
{
    if n == 0 {
        let f = |line: Seq<char>| line.push('\n');
        assert(Seq::<Seq<char>>::empty().map_values(f) =~= Seq::empty());
        assert(text_of(Seq::empty()) =~= Seq::empty());
    } else {
        let at = index_after(items, n - 1, version, index);
        records_text(items, n - 1, version, index);
        item_text(items, n - 1, version, at);
        item_lines_are_lines(items, n - 1, version, at);
        text_of_adds(lines_up_to(items, n - 1, version, index), item_lines(items, n - 1, version, at));
        let before = lines_up_to(items, n - 1, version, index);
        let all = lines_up_to(items, n, version, index);
        assert forall|k: int| 0 <= k < all.len() implies is_one_line(#[trigger] all[k]) by {
            if k < before.len() {
                assert(all[k] == before[k]);
            } else {
                assert(all[k] == item_lines(items, n - 1, version, at)[k - before.len()]);
            }
        }
    }
}

spec fn functions_in(items: Seq<CoverageItem>, n: int) -> Seq<CoverageItem> {
    items.take(n).filter(|item: CoverageItem| item.kind is Function)
}

spec fn branches_in(items: Seq<CoverageItem>, n: int) -> Seq<CoverageItem> {
    items.take(n).filter(|item: CoverageItem| item.kind is Branch)
}

spec fn firsts_in(items: Seq<CoverageItem>, n: int) -> Seq<int> {
    below(n as nat).filter(|i: int| begins_line(items, i))
}

proof fn numbers_follow(items: Seq<CoverageItem>, n: int, version: Version, index: usize)
    requires
        0 <= n <= items.len(),
        not_before(version, 2, 2, 0),
    ensures
        index_after(items, n, version, index) == numbered(index, functions_in(items, n).len() as int),
    decreases n,
{
    let p = |item: CoverageItem| item.kind is Function;
    if n == 0 {
        assert(items.take(0) =~= Seq::empty());
        picked_empty(p);
        assert((index as int) % (usize::MAX + 1) == index) by (nonlinear_arith)
            requires
                0 <= index <= usize::MAX,
        ;
    } else {
        numbers_follow(items, n - 1, version, index);
        picked_push(items.take(n - 1), items[n - 1], p);
        assert(items.take(n) =~= items.take(n - 1).push(items[n - 1]));
        let k = functions_in(items, n - 1).len() as int;
        next_number(index, k);
    }
}

proof fn next_number(index: usize, k: int)
    requires
        k >= 0,
    ensures
        numbered(index, k) <= usize::MAX,
        numbered(index, k + 1) == (if numbered(index, k) == usize::MAX { 0 } else { numbered(index, k) + 1 }),
{
    let m = usize::MAX + 1;
    let x = index + k;
    vstd::arithmetic::div_mod::lemma_mod_bound(x, m);
    vstd::arithmetic::div_mod::lemma_fundamental_div_mod(x, m);
    let q = x / m;
    let r = x % m;
    if r == usize::MAX {
        assert(x + 1 == (q + 1) * m + 0) by (nonlinear_arith)
            requires
                x == m * q + r,
                r == m - 1,
        ;
        vstd::arithmetic::div_mod::lemma_fundamental_div_mod_converse(x + 1, m, q + 1, 0);
    } else {
        assert(x + 1 == q * m + (r + 1)) by (nonlinear_arith)
            requires
                x == m * q + r,
        ;
        vstd::arithmetic::div_mod::lemma_fundamental_div_mod_converse(x + 1, m, q, r + 1);
    }
}

/// What the lines of the first `n` items say.
spec fn items_are_said(items: Seq<CoverageItem>, n: int, version: Version, index: usize) -> bool {
    let lines = lines_up_to(items, n, version, index);
    let functions = functions_in(items, n);
    let branches = branches_in(items, n);
    let firsts = firsts_in(items, n);
    &&& lines.len() == firsts.len() + branches.len() + 2 * functions.len()
    &&& tagged(lines, tag_at(0)) == firsts.map_values(|i: int| line_said(items[i]))
    &&& tagged(lines, tag_at(1)) == branches.map_values(|item: CoverageItem| path_said(items, item))
    &&& tagged(lines, tag_at(6)).len() == 0
    &&& tagged(lines, tag_at(if not_before(version, 2, 2, 0) { 4 } else { 2 })) == Seq::new(
        functions.len(),
        |k: int| place_said(functions[k], version, numbered(index, k)),
    )
    &&& tagged(lines, tag_at(if not_before(version, 2, 2, 0) { 5 } else { 3 })) == Seq::new(
        functions.len(),
        |k: int| calls_said(functions[k], version, numbered(index, k)),
    )
    &&& tagged(lines, tag_at(if not_before(version, 2, 2, 0) { 2 } else { 4 })).len() == 0
    &&& tagged(lines, tag_at(if not_before(version, 2, 2, 0) { 3 } else { 5 })).len() == 0
}

proof fn records_are_counted(items: Seq<CoverageItem>, n: int, version: Version, index: usize)
    requires
        0 <= n <= items.len(),
    ensures
        lines_up_to(items, n, version, index).len() == firsts_in(items, n).len() + branches_in(items, n).len() + 2
            * functions_in(items, n).len(),
    decreases n,
{
    let new = not_before(version, 2, 2, 0);
    let is_function = |item: CoverageItem| item.kind is Function;
    let is_branch = |item: CoverageItem| item.kind is Branch;
    let begins = |i: int| begins_line(items, i);
    if n == 0 {
        assert(items.take(0) =~= Seq::empty());
        assert(below(0) =~= Seq::empty());
        picked_empty(is_function);
        picked_empty(is_branch);
        picked_empty(begins);
    } else {
        records_are_counted(items, n - 1, version, index);
        let at = index_after(items, n - 1, version, index);
        let before = lines_up_to(items, n - 1, version, index);
        let own = item_lines(items, n - 1, version, at);
        let item = items[n - 1];
        assert(items.take(n) =~= items.take(n - 1).push(item));
        own_lines_say(items, n - 1, version, at);
        picked_push(items.take(n - 1), item, is_function);
        picked_push(items.take(n - 1), item, is_branch);
        below_next(n as nat);
        picked_push(below((n - 1) as nat), n - 1, begins);
    }
}

proof fn lines_are_said(items: Seq<CoverageItem>, n: int, version: Version, index: usize)
    requires
        0 <= n <= items.len(),
    ensures
        tagged(lines_up_to(items, n, version, index), tag_at(0)) == firsts_in(items, n).map_values(
            |i: int| line_said(items[i]),
        ),
    decreases n,
{
    let new = not_before(version, 2, 2, 0);
    let begins = |i: int| begins_line(items, i);
    if n == 0 {
        assert(items.take(0) =~= Seq::empty());
        assert(below(0) =~= Seq::empty());
        picked_empty(begins);
        picked_empty(|line: Seq<char>| has_tag(line, tag_at(0)));
        assert(tagged(lines_up_to(items, n, version, index), tag_at(0)) =~= firsts_in(items, n).map_values(
            |i: int| line_said(items[i]),
        ));
    } else {
        lines_are_said(items, n - 1, version, index);
        let at = index_after(items, n - 1, version, index);
        let before = lines_up_to(items, n - 1, version, index);
        let own = item_lines(items, n - 1, version, at);
        let item = items[n - 1];
        assert(items.take(n) =~= items.take(n - 1).push(item));
        own_lines_say(items, n - 1, version, at);
        below_next(n as nat);
        picked_push(below((n - 1) as nat), n - 1, begins);
        tagged_adds(before, own, tag_at(0));
        assert(tagged(lines_up_to(items, n, version, index), tag_at(0)) =~= firsts_in(items, n).map_values(
            |i: int| line_said(items[i]),
        ));
    }
}

proof fn paths_are_said(items: Seq<CoverageItem>, n: int, version: Version, index: usize)
    requires
        0 <= n <= items.len(),
    ensures
        tagged(lines_up_to(items, n, version, index), tag_at(1)) == branches_in(items, n).map_values(
            |item: CoverageItem| path_said(items, item),
        ),
    decreases n,
{
    let new = not_before(version, 2, 2, 0);
    let is_branch = |item: CoverageItem| item.kind is Branch;
    if n == 0 {
        assert(items.take(0) =~= Seq::empty());
        assert(below(0) =~= Seq::empty());
        picked_empty(is_branch);
        picked_empty(|line: Seq<char>| has_tag(line, tag_at(1)));
        assert(tagged(lines_up_to(items, n, version, index), tag_at(1)) =~= branches_in(items, n).map_values(
            |item: CoverageItem| path_said(items, item),
        ));
    } else {
        paths_are_said(items, n - 1, version, index);
        let at = index_after(items, n - 1, version, index);
        let before = lines_up_to(items, n - 1, version, index);
        let own = item_lines(items, n - 1, version, at);
        let item = items[n - 1];
        assert(items.take(n) =~= items.take(n - 1).push(item));
        own_lines_say(items, n - 1, version, at);
        picked_push(items.take(n - 1), item, is_branch);
        tagged_adds(before, own, tag_at(1));
        assert(tagged(lines_up_to(items, n, version, index), tag_at(1)) =~= branches_in(items, n).map_values(
            |item: CoverageItem| path_said(items, item),
        ));
    }
}

proof fn nothing_else_is_said(items: Seq<CoverageItem>, n: int, version: Version, index: usize)
    requires
        0 <= n <= items.len(),
    ensures
        tagged(lines_up_to(items, n, version, index), tag_at(6)).len() == 0,
        tagged(lines_up_to(items, n, version, index), tag_at(if not_before(version, 2, 2, 0) { 2 } else { 4 })).len() == 0,
        tagged(lines_up_to(items, n, version, index), tag_at(if not_before(version, 2, 2, 0) { 3 } else { 5 })).len() == 0,
    decreases n,
{
    let new = not_before(version, 2, 2, 0);
    if n == 0 {
        assert(items.take(0) =~= Seq::empty());
        assert(below(0) =~= Seq::empty());
        picked_empty(|line: Seq<char>| has_tag(line, tag_at(6)));
        picked_empty(|line: Seq<char>| has_tag(line, tag_at(if new { 2 } else { 4 })));
        picked_empty(|line: Seq<char>| has_tag(line, tag_at(if new { 3 } else { 5 })));
    } else {
        nothing_else_is_said(items, n - 1, version, index);
        let at = index_after(items, n - 1, version, index);
        let before = lines_up_to(items, n - 1, version, index);
        let own = item_lines(items, n - 1, version, at);
        let item = items[n - 1];
        assert(items.take(n) =~= items.take(n - 1).push(item));
        own_lines_say(items, n - 1, version, at);
        tagged_adds(before, own, tag_at(6));
        tagged_adds(before, own, tag_at(if new { 2 } else { 4 }));
        tagged_adds(before, own, tag_at(if new { 3 } else { 5 }));
    }
}

proof fn places_are_said(items: Seq<CoverageItem>, n: int, version: Version, index: usize)
    requires
        0 <= n <= items.len(),
    ensures
        tagged(lines_up_to(items, n, version, index), tag_at(if not_before(version, 2, 2, 0) { 4 } else { 2 })) == Seq::new(
            functions_in(items, n).len(),
            |k: int| place_said(functions_in(items, n)[k], version, numbered(index, k)),
        ),
    decreases n,
{
    let new = not_before(version, 2, 2, 0);
    let is_function = |item: CoverageItem| item.kind is Function;
    if n == 0 {
        assert(items.take(0) =~= Seq::empty());
        assert(below(0) =~= Seq::empty());
        picked_empty(is_function);
        picked_empty(|line: Seq<char>| has_tag(line, tag_at(if new { 4 } else { 2 })));
        assert(tagged(lines_up_to(items, n, version, index), tag_at(if new { 4 } else { 2 })) =~= Seq::new(
            functions_in(items, n).len(),
            |k: int| place_said(functions_in(items, n)[k], version, numbered(index, k)),
        ));
    } else {
        places_are_said(items, n - 1, version, index);
        let at = index_after(items, n - 1, version, index);
        let before = lines_up_to(items, n - 1, version, index);
        let own = item_lines(items, n - 1, version, at);
        let item = items[n - 1];
        assert(items.take(n) =~= items.take(n - 1).push(item));
        own_lines_say(items, n - 1, version, at);
        picked_push(items.take(n - 1), item, is_function);
        tagged_adds(before, own, tag_at(if new { 4 } else { 2 }));
        if new {
            numbers_follow(items, n - 1, version, index);
        }
        let was = functions_in(items, n - 1);
        assert(place_said(item, version, at as nat) == place_said(item, version, numbered(index, was.len() as int)));
        assert(tagged(lines_up_to(items, n, version, index), tag_at(if new { 4 } else { 2 })) =~= Seq::new(
            functions_in(items, n).len(),
            |k: int| place_said(functions_in(items, n)[k], version, numbered(index, k)),
        ));
    }
}

proof fn calls_are_said(items: Seq<CoverageItem>, n: int, version: Version, index: usize)
    requires
        0 <= n <= items.len(),
    ensures
        tagged(lines_up_to(items, n, version, index), tag_at(if not_before(version, 2, 2, 0) { 5 } else { 3 })) == Seq::new(
            functions_in(items, n).len(),
            |k: int| calls_said(functions_in(items, n)[k], version, numbered(index, k)),
        ),
    decreases n,
{
    let new = not_before(version, 2, 2, 0);
    let is_function = |item: CoverageItem| item.kind is Function;
    if n == 0 {
        assert(items.take(0) =~= Seq::empty());
        assert(below(0) =~= Seq::empty());
        picked_empty(is_function);
        picked_empty(|line: Seq<char>| has_tag(line, tag_at(if new { 5 } else { 3 })));
        assert(tagged(lines_up_to(items, n, version, index), tag_at(if new { 5 } else { 3 })) =~= Seq::new(
            functions_in(items, n).len(),
            |k: int| calls_said(functions_in(items, n)[k], version, numbered(index, k)),
        ));
    } else {
        calls_are_said(items, n - 1, version, index);
        let at = index_after(items, n - 1, version, index);
        let before = lines_up_to(items, n - 1, version, index);
        let own = item_lines(items, n - 1, version, at);
        let item = items[n - 1];
        assert(items.take(n) =~= items.take(n - 1).push(item));
        own_lines_say(items, n - 1, version, at);
        picked_push(items.take(n - 1), item, is_function);
        tagged_adds(before, own, tag_at(if new { 5 } else { 3 }));
        if new {
            numbers_follow(items, n - 1, version, index);
        }
        let was = functions_in(items, n - 1);
        assert(calls_said(item, version, at as nat) == calls_said(item, version, numbered(index, was.len() as int)));
        assert(tagged(lines_up_to(items, n, version, index), tag_at(if new { 5 } else { 3 })) =~= Seq::new(
            functions_in(items, n).len(),
            |k: int| calls_said(functions_in(items, n)[k], version, numbered(index, k)),
        ));
    }
}

proof fn records_say(items: Seq<CoverageItem>, n: int, version: Version, index: usize)
    requires
        0 <= n <= items.len(),
    ensures
        items_are_said(items, n, version, index),
{
    records_are_counted(items, n, version, index);
    lines_are_said(items, n, version, index);
    paths_are_said(items, n, version, index);
    nothing_else_is_said(items, n, version, index);
    places_are_said(items, n, version, index);
    calls_are_said(items, n, version, index);
    let functions = functions_in(items, n);
    assert(Seq::new(functions.len(), |k: int| place_said(functions_in(items, n)[k], version, numbered(index, k)))
        =~= Seq::new(functions.len(), |k: int| place_said(functions[k], version, numbered(index, k))));
    assert(Seq::new(functions.len(), |k: int| calls_said(functions_in(items, n)[k], version, numbered(index, k)))
        =~= Seq::new(functions.len(), |k: int| calls_said(functions[k], version, numbered(index, k))));
}

/// What the lines of an item say.
proof fn own_lines_say(items: Seq<CoverageItem>, i: int, version: Version, index: usize)
    requires
        0 <= i < items.len(),
    ensures
        ({
            let lines = item_lines(items, i, version, index);
            let item = items[i];
            let new = not_before(version, 2, 2, 0);
            &&& tagged(lines, tag_at(0)) == (if begins_line(items, i) { seq![line_said(item)] } else { Seq::empty() })
            &&& tagged(lines, tag_at(1)) == (if item.kind is Branch { seq![path_said(items, item)] } else { Seq::empty() })
            &&& tagged(lines, tag_at(6)).len() == 0
            &&& tagged(lines, tag_at(if new { 4 } else { 2 })) == (if item.kind is Function {
                seq![place_said(item, version, index as nat)]
            } else {
                Seq::empty()
            })
            &&& tagged(lines, tag_at(if new { 5 } else { 3 })) == (if item.kind is Function {
                seq![calls_said(item, version, index as nat)]
            } else {
                Seq::empty()
            })
            &&& tagged(lines, tag_at(if new { 2 } else { 4 })).len() == 0
            &&& tagged(lines, tag_at(if new { 3 } else { 5 })).len() == 0
        }),
{
    let lines = item_lines(items, i, version, index);
    let item = items[i];
    let place = place_said(item, version, index as nat);
    let calls = calls_said(item, version, index as nat);
    assert forall|t: int| 0 <= t < 7 implies (match item.kind {
        CoverageItemKind::Function { .. } => tagged(lines, #[trigger] tag_at(t)) == (if has_tag(place, tag_at(t)) {
            seq![place]
        } else {
            Seq::empty()
        }) + (if has_tag(calls, tag_at(t)) { seq![calls] } else { Seq::empty() }),
        CoverageItemKind::Branch { .. } => tagged(lines, tag_at(t)) == (if t == 1 {
            seq![path_said(items, item)]
        } else {
            Seq::empty()
        }),
        _ => tagged(lines, tag_at(t)) == (if t == 0 && begins_line(items, i) {
            seq![line_said(item)]
        } else {
            Seq::empty()
        }),
    }) by {
        said_with_tag(items, i, version, index as nat, t);
        match item.kind {
            CoverageItemKind::Function { .. } => tagged_two(place, calls, tag_at(t)),
            CoverageItemKind::Branch { .. } => tagged_one(path_said(items, item), tag_at(t)),
            _ => {
                if begins_line(items, i) {
                    tagged_one(line_said(item), tag_at(t));
                } else {
                    picked_empty(|line: Seq<char>| has_tag(line, tag_at(t)));
                }
            },
        }
    }
    said_with_tag(items, i, version, index as nat, 0);
    said_with_tag(items, i, version, index as nat, 1);
    said_with_tag(items, i, version, index as nat, 2);
    said_with_tag(items, i, version, index as nat, 3);
    said_with_tag(items, i, version, index as nat, 4);
    said_with_tag(items, i, version, index as nat, 5);
    said_with_tag(items, i, version, index as nat, 6);
    let a = seq![place];
    let b = seq![calls];
    let none = Seq::<Seq<char>>::empty();
    assert(a + none =~= a && none + b =~= b && none + none =~= none);
    assert(tagged(lines, tag_at(0)) == tagged(lines, tag_at(0)));
    assert(tagged(lines, tag_at(1)) == tagged(lines, tag_at(1)));
    assert(tagged(lines, tag_at(2)) == tagged(lines, tag_at(2)));
    assert(tagged(lines, tag_at(3)) == tagged(lines, tag_at(3)));
    assert(tagged(lines, tag_at(4)) == tagged(lines, tag_at(4)));
    assert(tagged(lines, tag_at(5)) == tagged(lines, tag_at(5)));
    assert(tagged(lines, tag_at(6)) == tagged(lines, tag_at(6)));
}

/// The last lines of a file.
spec fn total_lines(items: Seq<CoverageItem>) -> Seq<Seq<char>> {
    seq![
        "FNF:"@ + decimal(kind_count(items, 3)),
        "FNH:"@ + decimal(kind_hits(items, 3)),
        "LF:"@ + decimal(kind_count(items, 0)),
        "LH:"@ + decimal(kind_hits(items, 0)),
        "BRF:"@ + decimal(kind_count(items, 2)),
        "BRH:"@ + decimal(kind_hits(items, 2)),
        "end_of_record"@,
    ]
}

proof fn text_of_push(lines: Seq<Seq<char>>, line: Seq<char>)
    ensures
        text_of(lines.push(line)) == text_of(lines) + line.push('\n'),
{
    text_of_adds(lines, seq![line]);
    text_of_one(line);
    assert(lines.push(line) =~= lines + seq![line]);
}

#[verifier::rlimit(60)]
proof fn totals_text_is(items: Seq<CoverageItem>)
    ensures
        text_of(total_lines(items)) == totals_text(items),
{
    reveal_strlit("\nFNH:");
    reveal_strlit("FNH:");
    reveal_strlit("\nLF:");
    reveal_strlit("LF:");
    reveal_strlit("\nLH:");
    reveal_strlit("LH:");
    reveal_strlit("\nBRF:");
    reveal_strlit("BRF:");
    reveal_strlit("\nBRH:");
    reveal_strlit("BRH:");
    reveal_strlit("\nend_of_record\n");
    reveal_strlit("end_of_record");
    let l = total_lines(items);
    let e = Seq::<Seq<char>>::empty();
    let s1 = e.push(l[0]);
    let s2 = s1.push(l[1]);
    let s3 = s2.push(l[2]);
    let s4 = s3.push(l[3]);
    let s5 = s4.push(l[4]);
    let s6 = s5.push(l[5]);
    let s7 = s6.push(l[6]);
    assert(l =~= s7);
    let f = |line: Seq<char>| line.push('\n');
    assert(e.map_values(f) =~= Seq::empty());
    text_of_push(e, l[0]);
    text_of_push(s1, l[1]);
    text_of_push(s2, l[2]);
    text_of_push(s3, l[3]);
    text_of_push(s4, l[4]);
    text_of_push(s5, l[5]);
    text_of_push(s6, l[6]);
    assert("\nFNH:"@ =~= seq!['\n'] + "FNH:"@);
    assert("\nLF:"@ =~= seq!['\n'] + "LF:"@);
    assert("\nLH:"@ =~= seq!['\n'] + "LH:"@);
    assert("\nBRF:"@ =~= seq!['\n'] + "BRF:"@);
    assert("\nBRH:"@ =~= seq!['\n'] + "BRH:"@);
    assert("\nend_of_record\n"@ =~= seq!['\n'] + "end_of_record"@ + seq!['\n']);
    assert(text_of(l) =~= totals_text(items));
}

proof fn total_lines_have_other_tags(items: Seq<CoverageItem>, n: int)
    requires
        0 <= n < 7,
    ensures
        tagged(total_lines(items), tag_at(n)).len() == 0,
        forall|k: int| 0 <= k < 7 ==> is_one_line(#[trigger] total_lines(items)[k]),
{
    let l = total_lines(items);
    tags_differ();
    assert(is_tag(tag_at(n)));
    end_has_no_tag(tag_at(n));
    tag_is_first(8, l[0], n);
    tag_is_first(9, l[1], n);
    tag_is_first(10, l[2], n);
    tag_is_first(11, l[3], n);
    tag_is_first(12, l[4], n);
    tag_is_first(13, l[5], n);
    let p = |line: Seq<char>| has_tag(line, tag_at(n));
    assert forall|k: int| 0 <= k < l.len() implies !p(#[trigger] l[k]) by {}
    crate::sums::picked_nothing(l, p);
    assert(is_one_line(tag_at(8)) && is_one_line(tag_at(9)) && is_one_line(tag_at(10)) && is_one_line(tag_at(11))
        && is_one_line(tag_at(12)) && is_one_line(tag_at(13)));
    number_is_one_line(kind_count(items, 3));
    number_is_one_line(kind_hits(items, 3));
    number_is_one_line(kind_count(items, 0));
    number_is_one_line(kind_hits(items, 0));
    number_is_one_line(kind_count(items, 2));
    number_is_one_line(kind_hits(items, 2));
}

proof fn totals_are_right(items: Seq<CoverageItem>)
    requires
        items.len() <= usize::MAX,
    ensures
        totals_are_said(total_lines(items), items),
{
    kind_count_bounded(items, 0);
    kind_count_bounded(items, 1);
    kind_count_bounded(items, 2);
    kind_count_bounded(items, 3);
    let summary = CoverageSummary {
        line_count: kind_count(items, 0) as usize,
        line_hits: kind_hits(items, 0) as usize,
        statement_count: kind_count(items, 1) as usize,
        statement_hits: kind_hits(items, 1) as usize,
        branch_count: kind_count(items, 2) as usize,
        branch_hits: kind_hits(items, 2) as usize,
        function_count: kind_count(items, 3) as usize,
        function_hits: kind_hits(items, 3) as usize,
    };
    assert(summarizes(summary, items));
    summary_counts_items(summary, items);
}

/// The part of a tracefile for a file says what there is to say of it, line by line.
#[verifier::rlimit(60)]
pub proof fn file_says_everything(path: Seq<char>, items: Seq<CoverageItem>, version: Version, index: usize) -> (lines: Seq<
    Seq<char>,
>)
    requires
        is_one_line(path),
        names_are_plain(items),
        items.len() <= usize::MAX,
    ensures
        are_lines_of(lines, file_text(path, items, version, index)),
        file_is_said(lines, path, items, version, index),
{
    let n = items.len() as int;
    let head = seq!["TN:"@, "SF:"@ + path];
    let records = lines_up_to(items, n, version, index);
    let tail = total_lines(items);
    let lines = head + records + tail;
    assert(items.take(n) =~= items);
    small_texts();
    records_text(items, n, version, index);
    records_say(items, n, version, index);
    totals_text_is(items);
    totals_are_right(items);
    tags_differ();
    assert(is_one_line(tag_at(6)) && is_one_line(tag_at(7)));
    text_of_one("TN:"@);
    text_of_one("SF:"@ + path);
    text_of_adds(seq!["TN:"@], seq!["SF:"@ + path]);
    assert(head =~= seq!["TN:"@] + seq!["SF:"@ + path]);
    text_of_adds(head, records);
    text_of_adds(head + records, tail);
    assert("TN:\nSF:"@ =~= "TN:"@ + seq!['\n'] + "SF:"@) by {
        reveal_strlit("TN:\nSF:");
        reveal_strlit("TN:");
        reveal_strlit("SF:");
    }
    assert(text_of(lines) =~= file_text(path, items, version, index));
    total_lines_have_other_tags(items, 0);
    assert forall|k: int| 0 <= k < lines.len() implies is_one_line(#[trigger] lines[k]) by {
        if k < 2 {
            assert(lines[k] == head[k]);
        } else if k < 2 + records.len() {
            assert(lines[k] == records[k - 2]);
        } else {
            assert(lines[k] == tail[k - 2 - records.len()]);
        }
    }
    assert forall|t: int| 0 <= t < 7 implies tagged(lines, #[trigger] tag_at(t)) == (if t == 6 {
        seq!["SF:"@ + path]
    } else {
        tagged(records, tag_at(t))
    }) by {
        tagged_adds(head, records, tag_at(t));
        tagged_adds(head + records, tail, tag_at(t));
        tagged_two("TN:"@, "SF:"@ + path, tag_at(t));
        tag_is_first(7, "TN:"@, t);
        tag_is_first(6, "SF:"@ + path, t);
        total_lines_have_other_tags(items, t);
        let rest = tagged(records, tag_at(t));
        if t == 6 {
            assert(rest.len() == 0);
        }
        assert(tagged(lines, tag_at(t)) =~= (if t == 6 { seq!["SF:"@ + path] } else { rest }));
    }
    assert(tagged(lines, tag_at(0)) == tagged(records, tag_at(0)));
    assert(tagged(lines, tag_at(1)) == tagged(records, tag_at(1)));
    assert(tagged(lines, tag_at(2)) == tagged(records, tag_at(2)));
    assert(tagged(lines, tag_at(3)) == tagged(records, tag_at(3)));
    assert(tagged(lines, tag_at(4)) == tagged(records, tag_at(4)));
    assert(tagged(lines, tag_at(5)) == tagged(records, tag_at(5)));
    assert(tagged(lines, tag_at(6)) == seq!["SF:"@ + path]);
    assert(lines.skip(lines.len() - 7) =~= tail);
    lines
}

proof fn picked_numbers_ascend(n: nat, p: spec_fn(int) -> bool)
    ensures
        forall|i: int, j: int|
            0 <= i < j < below(n).filter(p).len() ==> #[trigger] below(n).filter(p)[i] < #[trigger] below(n).filter(
                p,
            )[j],
        forall|i: int| 0 <= i < below(n).filter(p).len() ==> 0 <= #[trigger] below(n).filter(p)[i] < n && p(
            below(n).filter(p)[i],
        ),
    decreases n,
{
    if n == 0 {
        assert(below(0) =~= Seq::empty());
        picked_empty(p);
    } else {
        picked_numbers_ascend((n - 1) as nat, p);
        below_next(n);
        picked_push(below((n - 1) as nat), n - 1, p);
    }
}

/// There are as many records of lines as there are lines on which a line or a statement begins.
pub proof fn as_many_records_as_lines(
    lines: Seq<Seq<char>>,
    path: Seq<char>,
    items: Seq<CoverageItem>,
    version: Version,
    index: usize,
)
    requires
        file_is_said(lines, path, items, version, index),
    ensures
        tagged(lines, "DA:"@).len() == items.filter(
            |item: CoverageItem| item.kind is Line || item.kind is Statement,
        ).map_values(|item: CoverageItem| item.loc.lines.start).to_set().len(),
{
    let p = |i: int| begins_line(items, i);
    let marks = |item: CoverageItem| item.kind is Line || item.kind is Statement;
    let firsts = below(items.len()).filter(p);
    let began = firsts.map_values(|i: int| items[i].loc.lines.start);
    let marked = items.filter(marks).map_values(|item: CoverageItem| item.loc.lines.start);
    picked_numbers_ascend(items.len(), p);
    picked_members(items, marks);
    picked_members(below(items.len()), p);
    assert(began.no_duplicates()) by {
        assert forall|i: int, j: int| 0 <= i < began.len() && 0 <= j < began.len() && i != j implies began[i]
            != began[j] by {
            let a = firsts[i];
            let b = firsts[j];
            if i < j {
                assert(a < b);
                assert(items[a].kind is Line || items[a].kind is Statement);
            } else {
                assert(b < a);
                assert(items[b].kind is Line || items[b].kind is Statement);
            }
        }
    }
    began.unique_seq_to_set();
    assert forall|line: u32| #[trigger] began.to_set().contains(line) <==> marked.to_set().contains(line) by {
        if began.contains(line) {
            let k = choose|k: int| 0 <= k < began.len() && began[k] == line;
            let item = items[firsts[k]];
            assert(items.contains(item));
            assert(items.filter(marks).contains(item));
            let m = choose|m: int| 0 <= m < items.filter(marks).len() && items.filter(marks)[m] == item;
            assert(marked[m] == line);
        }
        if marked.contains(line) {
            let m = choose|m: int| 0 <= m < marked.len() && marked[m] == line;
            let item = items.filter(marks)[m];
            assert(items.filter(marks).contains(item));
            let k = choose|k: int| 0 <= k < items.len() && items[k] == item;
            let i = first_on_line(items, k);
            assert(below(items.len())[i] == i);
            assert(firsts.contains(i));
            let f = choose|f: int| 0 <= f < firsts.len() && firsts[f] == i;
            assert(began[f] == line);
        }
    }
    assert(began.to_set() =~= marked.to_set());
}

proof fn first_on_line(items: Seq<CoverageItem>, k: int) -> (i: int)
    requires
        0 <= k < items.len(),
        items[k].kind is Line || items[k].kind is Statement,
    ensures
        0 <= i <= k,
        begins_line(items, i),
        items[i].loc.lines.start == items[k].loc.lines.start,
    decreases k,
{
    if begins_line(items, k) {
        k
    } else {
        let j = choose|j: int|
            0 <= j < k && ((#[trigger] items[j]).kind is Line || items[j].kind is Statement)
                && items[j].loc.lines.start == items[k].loc.lines.start;
        first_on_line(items, j)
    }
}

/// How many functions the first `n` files have.
pub open spec fn functions_before(files: Seq<FileItems>, n: int) -> nat
    decreases n,
{
    if n <= 0 {
        0
    } else {
        functions_before(files, n - 1) + files[n - 1].items@.filter(
            |item: CoverageItem| item.kind is Function,
        ).len()
    }
}

proof fn file_numbers_follow(files: Seq<FileItems>, n: int, version: Version)
    requires
        0 <= n <= files.len(),
        not_before(version, 2, 2, 0),
    ensures
        index_after_files(files, n, version) == numbered(0, functions_before(files, n) as int),
    decreases n,
{
    if n > 0 {
        file_numbers_follow(files, n - 1, version);
        let items = files[n - 1].items@;
        let index = index_after_files(files, n - 1, version);
        numbers_follow(items, items.len() as int, version, index);
        assert(items.take(items.len() as int) =~= items);
        let k = functions_before(files, n - 1) as int;
        let more = items.filter(|item: CoverageItem| item.kind is Function).len() as int;
        let m = usize::MAX + 1;
        vstd::arithmetic::div_mod::lemma_add_mod_noop_right(more, k, m);
        vstd::arithmetic::div_mod::lemma_mod_bound(k, m);
        assert(index == k % m);
        assert((more + (k % m)) % m == (more + k) % m);
        assert(index + more == more + (k % m));
        assert(functions_before(files, n) == k + more);
        assert(numbered(index, more) == numbered(0, k + more));
    } else {
        vstd::arithmetic::div_mod::lemma_small_mod(0, (usize::MAX + 1) as nat);
    }
}

/// A tracefile says of every file in turn what there is to say of it, and nothing else. In the format that
/// numbers functions, the numbers go on from file to file.
pub proof fn tracefile_says_everything(files: Seq<FileItems>, n: int, version: Version) -> (parts: Seq<Seq<Seq<char>>>)
    requires
        0 <= n <= files.len(),
        forall|k: int|
            0 <= k < files.len() ==> is_one_line((#[trigger] files[k]).path@) && names_are_plain(files[k].items@)
                && files[k].items@.len() <= usize::MAX,
    ensures
        parts.len() == n,
        are_lines_of(parts.flatten(), lcov_text(files, n, version)),
        forall|k: int|
            0 <= k < n ==> file_is_said(
                #[trigger] parts[k],
                files[k].path@,
                files[k].items@,
                version,
                numbered(0, functions_before(files, k) as int) as usize,
            ),
    decreases n,
{
    if n == 0 {
        let f = |line: Seq<char>| line.push('\n');
        assert(Seq::<Seq<char>>::empty().map_values(f) =~= Seq::empty());
        joined_empty::<Seq<char>>();
        Seq::empty()
    } else {
        let before = tracefile_says_everything(files, n - 1, version);
        let index = index_after_files(files, n - 1, version);
        let own = file_says_everything(files[n - 1].path@, files[n - 1].items@, version, index);
        let parts = before.push(own);
        joined_push(before, own);
        text_of_adds(before.flatten(), own);
        let all = parts.flatten();
        assert forall|k: int| 0 <= k < all.len() implies is_one_line(#[trigger] all[k]) by {
            if k < before.flatten().len() {
                assert(all[k] == before.flatten()[k]);
            } else {
                assert(all[k] == own[k - before.flatten().len()]);
            }
        }
        let at = numbered(0, functions_before(files, n - 1) as int) as usize;
        if not_before(version, 2, 2, 0) {
            file_numbers_follow(files, n - 1, version);
        } else {
            assert(file_is_said(own, files[n - 1].path@, files[n - 1].items@, version, at));
        }
        parts
    }
}

}
