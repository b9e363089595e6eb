//! Annotated listings of the code of contracts.
use crate::hit_maps::HitMap;
use crate::positions::{
    count_lines_up_to, last_line_up_to, lines_up_to, lines_up_to_splits, offsets_ascend, SourceLines,
};
use crate::report::{contract_key, BytecodeEntry, CoverageReport, SourceElement};
use crate::paths::{keys_tell_paths, make_path_key, path_key, same_path};
use crate::sums::{joined_empty, joined_push};
use crate::table::Table;
use crate::text::{chars_of, decimal, push_decimal, push_repeated, repeated};
use vstd::prelude::*;
use vstd::string::*;

verus! {

/// An instruction of a listing: its offset in the code and its text.
#[derive(Debug)]
pub struct Instruction {
    pub offset: u32,
    pub text: String,
}

/// The instructions of some code, or none where the code cannot be listed.
pub uninterp spec fn disassembly(code: Seq<u8>) -> Option<Seq<(u32, Seq<char>)>>;

/// The offsets and texts of instructions.
pub open spec fn plain_instructions(ops: Seq<Instruction>) -> Seq<(u32, Seq<char>)> {
    ops.map_values(|op: Instruction| (op.offset, op.text@))
}

/// The offsets and texts of instructions, if there are any.
pub open spec fn opt_instructions(ops: Option<Vec<Instruction>>) -> Option<Seq<(u32, Seq<char>)>> {
    match ops {
        Some(ops) => Some(plain_instructions(ops@)),
        None => None,
    }
}

/// `evm_disassembler::disassemble_bytes`: the instructions of the code, each with its offset and the
/// text of its `Debug` form; a function of the code alone. The code has to be so short that offsets
/// stay in range.
#[verifier::external_body]
fn disassemble(code: Vec<u8>) -> (ops: Option<Vec<Instruction>>)
    requires
        code@.len() <= 0xffff_0000,
    ensures
        opt_instructions(ops) == disassembly(code@),
{
    match evm_disassembler::disassemble_bytes(code) {
        Ok(ops) => Some(
            ops.iter().map(|op| Instruction { offset: op.offset, text: format!("{op:?}") }).collect(),
        ),
        Err(_) => None,
    }
}

/// The offsets below `n` at which lines begin that have something in them, be it only their end.
pub open spec fn full_line_starts(text: Seq<u8>, n: int) -> Seq<usize>
    decreases n,
{
    if n <= 0 {
        Seq::empty()
    } else if n == 1 || text[n - 2] == 10 {
        full_line_starts(text, n - 1).push((n - 1) as usize)
    } else {
        full_line_starts(text, n - 1)
    }
}

/// Lines begin in ascending order.
pub proof fn full_line_starts_ascend(text: Seq<u8>, n: int)
    requires
        0 <= n <= text.len() <= usize::MAX,
    ensures
        offsets_ascend(full_line_starts(text, n)),
        full_line_starts(text, n).len() <= n,
        forall|i: int| 0 <= i < full_line_starts(text, n).len() ==> #[trigger] full_line_starts(text, n)[i] < n,
    decreases n,
{
    if n > 0 {
        full_line_starts_ascend(text, n - 1);
    }
}

/// A line begins at the beginning of a text that is not empty and behind every line break but one at its end, and
/// nowhere else.
pub proof fn full_lines_begin_behind_breaks(text: Seq<u8>, at: usize)
    requires
        text.len() <= usize::MAX,
    ensures
        full_line_starts(text, text.len() as int).contains(at) <==> at < text.len() && (at == 0 || text[at - 1] == 10),
{
    full_lines_begin_up_to(text, text.len() as int, at);
}

proof fn full_lines_begin_up_to(text: Seq<u8>, n: int, at: usize)
    requires
        0 <= n <= text.len() <= usize::MAX,
    ensures
        full_line_starts(text, n).contains(at) <==> at < n && (at == 0 || text[at - 1] == 10),
    decreases n,
{
    if n > 0 {
        let before = full_line_starts(text, n - 1);
        let now = full_line_starts(text, n);
        full_lines_begin_up_to(text, n - 1, at);
        if n == 1 || text[n - 2] == 10 {
            assert(now[before.len() as int] == n - 1);
            if before.contains(at) {
                let i = choose|i: int| 0 <= i < before.len() && before[i] == at;
                assert(now[i] == at);
            }
        }
    }
}

/// The place of an offset in a text that is not empty: its line begins at the offset or before it, no later line does,
/// and places in a line count from one.
pub proof fn place_is_on_its_line(text: Seq<u8>, offset: int)
    requires
        0 < text.len() <= usize::MAX,
        0 <= offset,
    ensures
        ({
            let starts = full_line_starts(text, text.len() as int);
            let place = place_of(starts, offset);
            &&& 1 <= place.0 <= starts.len()
            &&& starts[place.0 - 1] + place.1 == offset + 1
            &&& place.1 >= 1
            &&& place.0 < starts.len() ==> offset < starts[place.0 as int]
        }),
{
    let n = text.len() as int;
    let starts = full_line_starts(text, n);
    full_line_starts_ascend(text, n);
    full_lines_begin_behind_breaks(text, 0);
    let first = choose|i: int| 0 <= i < starts.len() && starts[i] == 0;
    assert(first == 0) by {
        if first > 0 {
            assert(starts[0] < starts[first]);
        }
    }
    let k = last_line_up_to(starts, starts.len() as int, offset);
    lines_up_to_splits(starts, starts.len() as int, k, offset);
}

/// The line of an offset, counted from one, and its place in the line, counted from one. A text without
/// lines has all offsets in line zero.
pub open spec fn place_of(starts: Seq<usize>, offset: int) -> (nat, int) {
    let line = lines_up_to(starts, starts.len() as int, offset);
    (line, if line == 0 { offset + 1 } else { offset - starts[line - 1] + 1 })
}

/// Where the lines of sources begin, for every source whose text was read.
pub struct LineNumberCache {
    pub root: String,
    pub lines: Table<SourceLines>,
}

impl LineNumberCache {
    /// The lines of every source ascend.
    pub open spec fn wf(&self) -> bool {
        &&& self.lines.wf()
        &&& forall|key: Seq<u64>| #[trigger]
            self.lines@.contains_key(key) ==> offsets_ascend(self.lines@[key].offsets@)
    }

    /// Where the lines of a source begin, if its text was read.
    pub open spec fn starts_of(&self, path: Seq<char>) -> Option<Seq<usize>> {
        if self.lines@.contains_key(path_key(path)) { Some(self.lines@[path_key(path)].offsets@) } else { None }
    }

    /// A cache without texts.
    pub fn new(root: String) -> (cache: Self)
        ensures
            cache.wf(),
            cache.root == root,
            forall|path: Seq<char>| (#[trigger] cache.starts_of(path)) is None,
    {
        LineNumberCache { root, lines: Table::new() }
    }

    /// Adds the text of a source.
    pub fn add_text(&mut self, path: String, text: &str)
        requires
            old(self).wf(),
        ensures
            final(self).wf(),
            final(self).root == old(self).root,
            forall|p: Seq<char>| #[trigger]
                final(self).starts_of(p) == (if same_path(path@, p) {
                    Some(full_line_starts(text.spec_bytes(), text.spec_bytes().len() as int))
                } else {
                    old(self).starts_of(p)
                }),
    {
        let bytes = text.as_bytes();
        let mut offsets: Vec<usize> = Vec::new();
        let mut n: usize = 0;
        while n < bytes.len()
            invariant
                n <= bytes@.len(),
                offsets@ == full_line_starts(bytes@, n as int),
            decreases bytes@.len() - n,
        {
            if n == 0 || bytes[n - 1] == 10 {
                offsets.push(n);
            }
            n += 1;
        }
        proof {
            assert(bytes.len() <= usize::MAX);
            full_line_starts_ascend(bytes@, n as int);
        }
        self.lines.put(SourceLines { path, offsets });
        proof {
            assert forall|p: Seq<char>| #[trigger] path_key(p) == path_key(path@) <==> same_path(path@, p) by {
                keys_tell_paths(p, path@);
            }
        }
    }

    /// The line and place of an offset in a source, if its text was read.
    pub fn get_position(&self, path: &str, offset: u32) -> (position: Option<(usize, u64)>)
        requires
            self.wf(),
        ensures
            position is Some <==> self.starts_of(path@) is Some,
            position is Some ==> {
                let place = place_of(self.starts_of(path@)->0, offset as int);
                (position->0).0 == place.0 && (position->0).1 == place.1
            },
    {
        let key = make_path_key(path);
        match self.lines.find(&key) {
            Some(at) => {
                assert(self.lines@.contains_key(key@));
                let starts = &self.lines.entries[at].offsets;
                let line: usize = count_lines_up_to(starts, offset as usize);
                let from: usize = if line == 0 {
                    0
                } else {
                    starts[line - 1]
                };
                Some((line, (offset as usize - from) as u64 + 1))
            },
            None => None,
        }
    }
}

/// A number with zeros before it to make up three digits.
pub open spec fn three_digits(n: nat) -> Seq<char> {
    let digits = decimal(n);
    repeated('0', if digits.len() >= 3 { 0 } else { (3 - digits.len()) as nat }) + digits
}

/// The hits of an instruction in brackets, or blanks of the same width.
pub open spec fn hits_field(hits: u32) -> Seq<char> {
    if hits != 0 { "["@ + three_digits(hits as nat) + "]"@ } else { "     "@ }
}

/// A text with blanks behind it to make up forty characters.
pub open spec fn forty_wide(text: Seq<char>) -> Seq<char> {
    text + repeated(' ', if text.len() >= 40 { 0 } else { (40 - text.len()) as nat })
}

/// The place in the sources that an instruction comes from, as a comment; nothing where it comes from
/// none. It fails where the text of the source was not read.
pub open spec fn source_comment(
    report: CoverageReport,
    cache: LineNumberCache,
    build: Seq<char>,
    element: SourceElement,
) -> Option<Seq<char>> {
    let start = element.offset as int;
    let end = element.offset + element.length;
    match element.index {
        Some(index) => match report.path_of(build, index as usize) {
            Some(path) => match cache.starts_of(path) {
                Some(starts) => Some(place_comment(path, place_of(starts, start), place_of(starts, end), start, end)),
                None => None,
            },
            None => Some(
                " // SRCID"@ + decimal(index as nat) + ": ("@ + decimal(start as nat) + "-"@ + decimal(end as nat)
                    + ")"@,
            ),
        },
        None => Some(Seq::empty()),
    }
}

/// The comment for a place in a source.
pub open spec fn place_comment(path: Seq<char>, from: (nat, int), to: (nat, int), start: int, end: int) -> Seq<char> {
    " // "@ + path + ": "@ + range_text(from, to) + " ("@ + decimal(start as nat) + "-"@ + decimal(end as nat) + ")"@
}

/// From one line and place to another.
pub open spec fn range_text(from: (nat, int), to: (nat, int)) -> Seq<char> {
    decimal(from.0) + ":"@ + decimal(from.1 as nat) + "-"@ + decimal(to.0) + ":"@ + decimal(to.1 as nat)
}

/// The line of an instruction.
pub open spec fn listing_line(hits: u32, text: Seq<char>, comment: Seq<char>) -> Seq<char> {
    hits_field(hits) + " "@ + forty_wide(text) + comment + "\n"@
}

/// The lines of the first `n` instructions that have a place in the source map.
pub open spec fn listing(
    report: CoverageReport,
    cache: LineNumberCache,
    build: Seq<char>,
    hits: HitMap,
    ops: Seq<(u32, Seq<char>)>,
    elements: Seq<SourceElement>,
    n: int,
) -> Option<Seq<char>>
    decreases n,
{
    if n <= 0 {
        Some(Seq::empty())
    } else {
        let before = listing(report, cache, build, hits, ops, elements, n - 1);
        let comment = source_comment(report, cache, build, elements[n - 1]);
        if before is Some && comment is Some {
            Some(before->0 + listing_line(hits.hits_at(ops[n - 1].0), ops[n - 1].1, comment->0))
        } else {
            None
        }
    }
}

/// The comment of an instruction names the path of its source, the lines and places of its beginning and its end, and
/// their offsets; where the source is not registered, its id and the offsets. An instruction that comes from no source
/// has no comment.
pub proof fn comment_names_the_place(
    report: CoverageReport,
    cache: LineNumberCache,
    build: Seq<char>,
    element: SourceElement,
) -> (place: (nat, nat, nat, nat))
    requires
        source_comment(report, cache, build, element) is Some,
        cache.wf(),
    ensures
        ({
            let comment = source_comment(report, cache, build, element)->0;
            let offsets = decimal(element.offset as nat) + "-"@ + decimal((element.offset + element.length) as nat) + ")"@;
            &&& element.index is None ==> comment.len() == 0
            &&& element.index is Some ==> match report.path_of(build, element.index->0 as usize) {
                Some(path) => {
                    let (a, b, c, d) = place;
                    let starts = cache.starts_of(path)->0;
                    &&& cache.starts_of(path) is Some
                    &&& comment == " // "@ + path + ": "@ + (decimal(a) + ":"@ + decimal(b) + "-"@ + decimal(c) + ":"@
                        + decimal(d)) + " ("@ + offsets
                    &&& starts.len() > 0 && starts[0] == 0 ==> is_place(starts, element.offset as int, a, b) && is_place(
                        starts,
                        element.offset + element.length,
                        c,
                        d,
                    )
                },
                None => comment == " // SRCID"@ + decimal(element.index->0 as nat) + ": ("@ + offsets,
            }
        }),
{
    let comment = source_comment(report, cache, build, element)->0;
    let offsets = decimal(element.offset as nat) + "-"@ + decimal((element.offset + element.length) as nat) + ")"@;
    match element.index {
        None => (0, 0, 0, 0),
        Some(index) => match report.path_of(build, index as usize) {
            Some(path) => {
                let starts = cache.starts_of(path)->0;
                let from = place_of(starts, element.offset as int);
                let to = place_of(starts, element.offset + element.length);
                assert(comment =~= " // "@ + path + ": "@ + range_text(from, to) + " ("@ + offsets);
                assert(cache.lines@.contains_key(path_key(path)));
                if starts.len() > 0 && starts[0] == 0 {
                    place_of_offset(starts, element.offset as int);
                    place_of_offset(starts, element.offset + element.length);
                }
                (from.0, from.1 as nat, to.0, to.1 as nat)
            },
            None => {
                assert(comment =~= " // SRCID"@ + decimal(index as nat) + ": ("@ + offsets);
                (0, 0, 0, 0)
            },
        },
    }
}

/// The offset lies in a line, counted from one, at a place in it, counted from one.
pub open spec fn is_place(starts: Seq<usize>, offset: int, line: nat, place: nat) -> bool {
    &&& 1 <= line <= starts.len()
    &&& starts[line - 1] + place == offset + 1
    &&& line < starts.len() ==> offset < starts[line as int]
}

proof fn place_of_offset(starts: Seq<usize>, offset: int)
    requires
        offsets_ascend(starts),
        starts.len() > 0,
        starts[0] == 0,
        0 <= offset,
    ensures
        is_place(starts, offset, place_of(starts, offset).0, place_of(starts, offset).1 as nat),
{
    let k = last_line_up_to(starts, starts.len() as int, offset);
    lines_up_to_splits(starts, starts.len() as int, k, offset);
}

/// The line is one of an instruction: it begins with the hits in brackets, or with blanks if there are none, goes on
/// with the text of the instruction, and ends with a line break.
pub open spec fn is_line_of(line: Seq<char>, hits: u32, text: Seq<char>) -> bool {
    &&& hits != 0 ==> exists|digits: Seq<char>|
        is_prefix(seq!['['] + digits + seq![']', ' '] + text, line) && #[trigger] reads_as(digits, hits as nat)
    &&& hits == 0 ==> is_prefix(seq![' ', ' ', ' ', ' ', ' ', ' '] + text, line)
    &&& line.len() > 0 && line.last() == '\n'
}

/// The text begins with a prefix.
pub open spec fn is_prefix(prefix: Seq<char>, text: Seq<char>) -> bool {
    prefix.len() <= text.len() && text.take(prefix.len() as int) == prefix
}

/// The digits are those of a number, with zeros before it if it has fewer than three.
pub open spec fn reads_as(digits: Seq<char>, n: nat) -> bool {
    &&& digits.len() >= 3
    &&& exists|k: int|
        0 <= k <= digits.len() && #[trigger] digits.skip(k) == decimal(n) && (k > 0 ==> digits.len() == 3) && forall|
            i: int,
        | 0 <= i < k ==> #[trigger] digits[i] == '0'
}

/// A listing has a line for each instruction that has a place in the source map, in their order, with the hits of
/// the instruction at its offset.
pub proof fn listing_has_a_line_per_instruction(
    report: CoverageReport,
    cache: LineNumberCache,
    build: Seq<char>,
    hits: HitMap,
    ops: Seq<(u32, Seq<char>)>,
    elements: Seq<SourceElement>,
    n: int,
) -> (lines: Seq<Seq<char>>)
    requires
        0 <= n <= ops.len(),
        n <= elements.len(),
        listing(report, cache, build, hits, ops, elements, n) is Some,
    ensures
        lines.len() == n,
        lines.flatten() == listing(report, cache, build, hits, ops, elements, n)->0,
        forall|i: int| 0 <= i < n ==> is_line_of(#[trigger] lines[i], hits.hits_at(ops[i].0), ops[i].1),
    decreases n,
{
    if n == 0 {
        joined_empty::<char>();
        Seq::empty()
    } else {
        let before = listing_has_a_line_per_instruction(report, cache, build, hits, ops, elements, n - 1);
        let comment = source_comment(report, cache, build, elements[n - 1])->0;
        let own = listing_line(hits.hits_at(ops[n - 1].0), ops[n - 1].1, comment);
        joined_push(before, own);
        line_is_of(hits.hits_at(ops[n - 1].0), ops[n - 1].1, comment);
        before.push(own)
    }
}

proof fn line_is_of(hits: u32, text: Seq<char>, comment: Seq<char>)
    ensures
        is_line_of(listing_line(hits, text, comment), hits, text),
{
    reveal_strlit("[");
    reveal_strlit("]");
    reveal_strlit(" ");
    reveal_strlit("     ");
    reveal_strlit("\n");
    let line = listing_line(hits, text, comment);
    if hits != 0 {
        let digits = three_digits(hits as nat);
        let prefix = seq!['['] + digits + seq![']', ' '] + text;
        assert(line.take(prefix.len() as int) =~= prefix);
        let plain = decimal(hits as nat);
        let k = digits.len() - plain.len();
        assert(digits.skip(k) =~= plain);
        assert(is_prefix(prefix, line) && reads_as(digits, hits as nat));
    } else {
        let prefix = seq![' ', ' ', ' ', ' ', ' ', ' '] + text;
        assert(line.take(prefix.len() as int) =~= prefix);
    }
}

/// How many instructions have a place in the source map.
pub open spec fn paired(ops: int, elements: int) -> int {
    if ops <= elements { ops } else { elements }
}

/// No place of the source map ends out of range.
pub open spec fn elements_end(elements: Seq<SourceElement>) -> bool {
    forall|i: int|
        0 <= i < elements.len() ==> (#[trigger] elements[i]).offset + elements[i].length <= u32::MAX
}

fn push_hits_field(out: &mut String, hits: Option<u32>)
    requires
        hits is Some ==> hits->0 != 0,
    ensures
        final(out)@ == old(out)@ + hits_field(match hits {
            Some(hits) => hits,
            None => 0,
        }),
{
    match hits {
        Some(hits) => {
            let mut digits = String::new();
            push_decimal(&mut digits, hits as u64);
            assert(digits@ =~= decimal(hits as nat));
            let width: usize = chars_of(digits.as_str()).len();
            out.append("[");
            push_repeated(out, '0', if width >= 3 { 0 } else { 3 - width });
            out.append(digits.as_str());
            out.append("]");
            assert(out@ =~= old(out)@ + hits_field(hits));
        },
        None => {
            out.append("     ");
        },
    }
}

fn push_range(out: &mut String, from: (usize, u64), to: (usize, u64))
    ensures
        final(out)@ == old(out)@ + range_text((from.0 as nat, from.1 as int), (to.0 as nat, to.1 as int)),
{
    push_decimal(out, from.0 as u64);
    out.append(":");
    push_decimal(out, from.1);
    out.append("-");
    push_decimal(out, to.0 as u64);
    out.append(":");
    push_decimal(out, to.1);
    assert(out@ =~= old(out)@ + range_text((from.0 as nat, from.1 as int), (to.0 as nat, to.1 as int)));
}

/// Writes the comment of an instruction. Fails where the text of a source was not read.
fn push_comment(
    out: &mut String,
    report: &CoverageReport,
    cache: &LineNumberCache,
    build_id: &str,
    element: &SourceElement,
) -> (done: bool)
    requires
        report.wf(),
        cache.wf(),
        element.offset + element.length <= u32::MAX,
    ensures
        done == (source_comment(*report, *cache, build_id@, *element) is Some),
        done ==> final(out)@ == old(out)@ + source_comment(*report, *cache, build_id@, *element)->0,
{
    let start: u32 = element.offset;
    let end: u32 = element.offset + element.length;
    let ghost want = source_comment(*report, *cache, build_id@, *element);
    match element.index {
        Some(index) => match report.get_source_path(build_id, index as usize) {
            Some(path) => {
                let from = match cache.get_position(path.as_str(), start) {
                    Some(from) => from,
                    None => {
                        return false;
                    },
                };
                let to = match cache.get_position(path.as_str(), end) {
                    Some(to) => to,
                    None => {
                        return false;
                    },
                };
                out.append(" // ");
                out.append(path.as_str());
                out.append(": ");
                push_range(out, from, to);
                out.append(" (");
                push_decimal(out, start as u64);
                out.append("-");
                push_decimal(out, end as u64);
                out.append(")");
                assert(out@ =~= old(out)@ + want->0);
            },
            None => {
                out.append(" // SRCID");
                push_decimal(out, index as u64);
                out.append(": (");
                push_decimal(out, start as u64);
                out.append("-");
                push_decimal(out, end as u64);
                out.append(")");
                assert(out@ =~= old(out)@ + want->0);
            },
        },
        None => {
            assert(out@ =~= old(out)@ + want->0);
        },
    }
    true
}

/// Writes the listing of a contract's code. It is none where the text of a source was not read.
pub fn list_code(
    report: &CoverageReport,
    cache: &LineNumberCache,
    build_id: &str,
    hits: &HitMap,
    ops: &Vec<Instruction>,
    elements: &Vec<SourceElement>,
) -> (text: Option<String>)
    requires
        report.wf(),
        cache.wf(),
        elements_end(elements@),
    ensures
        ({
            let n = paired(ops@.len() as int, elements@.len() as int);
            let want = listing(*report, *cache, build_id@, *hits, plain_instructions(ops@), elements@, n);
            &&& text is Some <==> want is Some
            &&& text is Some ==> text->0@ == want->0
        }),
{
    let mut out = String::new();
    let ghost plain = plain_instructions(ops@);
    let ghost all = paired(ops@.len() as int, elements@.len() as int);
    let mut n: usize = 0;
    while n < ops.len() && n < elements.len()
        invariant
            report.wf(),
            cache.wf(),
            elements_end(elements@),
            n <= ops@.len(),
            n <= elements@.len(),
            plain == plain_instructions(ops@),
            all == paired(ops@.len() as int, elements@.len() as int),
            listing(*report, *cache, build_id@, *hits, plain, elements@, n as int) == Some(out@),
        decreases ops@.len() - n,
    {
        let op = &ops[n];
        let element = &elements[n];
        let ghost start = out@;
        assert(plain[n as int] == (op.offset, op.text@));
        push_hits_field(&mut out, hits.get(op.offset));
        out.append(" ");
        out.append(op.text.as_str());
        let width: usize = chars_of(op.text.as_str()).len();
        push_repeated(&mut out, ' ', if width >= 40 { 0 } else { 40 - width });
        let done = push_comment(&mut out, report, cache, build_id, element);
        if !done {
            proof {
                missing_text_spreads(*report, *cache, build_id@, *hits, plain, elements@, n + 1, all);
            }
            return None;
        }
        out.append("\n");
        proof {
            let comment = source_comment(*report, *cache, build_id@, *element)->0;
            assert(out@ =~= start + listing_line(hits.hits_at(op.offset), op.text@, comment));
        }
        n += 1;
    }
    Some(out)
}

proof fn missing_text_spreads(
    report: CoverageReport,
    cache: LineNumberCache,
    build: Seq<char>,
    hits: HitMap,
    ops: Seq<(u32, Seq<char>)>,
    elements: Seq<SourceElement>,
    n: int,
    m: int,
)
    requires
        n <= m,
        listing(report, cache, build, hits, ops, elements, n) is None,
    ensures
        listing(report, cache, build, hits, ops, elements, m) is None,
    decreases m - n,
{
    if n < m {
        missing_text_spreads(report, cache, build, hits, ops, elements, n, m - 1);
    }
}

/// Where the instructions of a contract's deployed code come from.
pub open spec fn elements_of(report: CoverageReport, entry: BytecodeEntry) -> Seq<SourceElement> {
    if report.source_maps@.contains_key(contract_key(entry.contract_id)) {
        report.source_maps@[contract_key(entry.contract_id)].runtime@
    } else {
        Seq::empty()
    }
}

/// The listing of a contract's code, where the code can be listed and all texts were read.
pub open spec fn contract_listing(report: CoverageReport, cache: LineNumberCache, entry: BytecodeEntry) -> Option<
    Seq<char>,
> {
    let elements = elements_of(report, entry);
    match disassembly(entry.hits.code()) {
        Some(ops) => listing(
            report,
            cache,
            entry.contract_id.build_id@,
            entry.hits,
            ops,
            elements,
            paired(ops.len() as int, elements.len() as int),
        ),
        None => None,
    }
}

/// The listing of a contract.
#[derive(Debug)]
pub struct ContractListing {
    pub contract_name: String,
    pub text: String,
}

/// Writes an annotated listing for every contract that ran.
#[derive(Debug)]
pub struct BytecodeReporter {
    /// Where the sources lie.
    pub root: String,
    /// Where the listings go.
    pub destdir: String,
}

impl BytecodeReporter {
    /// A reporter for sources under `root` that writes to `destdir`.
    pub fn new(root: String, destdir: String) -> (reporter: Self)
        ensures
            reporter.root == root,
            reporter.destdir == destdir,
    {
        BytecodeReporter { root, destdir }
    }

    /// The name of the reporter.
    pub fn name(&self) -> (name: &'static str)
        ensures
            name@ == "bytecode"@,
    {
        "bytecode"
    }

    /// The reporter needs to know where instructions come from.
    pub fn needs_source_maps(&self) -> (needs: bool)
        ensures
            needs,
    {
        true
    }

    /// Writes the listings of all contracts that ran. Fails with the position of the first contract
    /// whose code cannot be listed, or that comes from a source whose text was not read.
    pub fn report(&self, report: &CoverageReport, cache: &LineNumberCache) -> (listings: Result<
        Vec<ContractListing>,
        usize,
    >)
        requires
            report.wf(),
            cache.wf(),
            forall|k: int|
                0 <= k < report.bytecode_hits.entries@.len() ==> (#[trigger] report.bytecode_hits.entries@[k]).hits.code().len()
                    <= 0xffff_0000 && elements_end(elements_of(*report, report.bytecode_hits.entries@[k])),
        ensures
            ({
                let entries = report.bytecode_hits.entries@;
                match listings {
                    Ok(listings) => listings@.len() == entries.len() && forall|k: int|
                        0 <= k < entries.len() ==> listings@[k].contract_name@ == (
                        #[trigger] entries[k]).contract_id.contract_name@ && Some(listings@[k].text@)
                            == contract_listing(*report, *cache, entries[k]),
                    Err(at) => at < entries.len() && contract_listing(*report, *cache, entries[at as int]) is None
                        && forall|k: int|
                        0 <= k < at ==> contract_listing(*report, *cache, #[trigger] entries[k]) is Some,
                }
            }),
    {
        let entries = &report.bytecode_hits.entries;
        let mut listings: Vec<ContractListing> = Vec::new();
        let none: Vec<SourceElement> = Vec::new();
        assert(none@ =~= Seq::empty());
        let mut k: usize = 0;
        while k < entries.len()
            invariant
                report.wf(),
                cache.wf(),
                *entries == report.bytecode_hits.entries,
                none@ == Seq::<SourceElement>::empty(),
                forall|k: int|
                    0 <= k < entries@.len() ==> (#[trigger] entries@[k]).hits.code().len() <= 0xffff_0000
                        && elements_end(elements_of(*report, entries@[k])),
                k <= entries@.len(),
                listings@.len() == k,
                forall|j: int|
                    0 <= j < k ==> listings@[j].contract_name@ == (#[trigger] entries@[j]).contract_id.contract_name@
                        && Some(listings@[j].text@) == contract_listing(*report, *cache, entries@[j]),
            decreases entries@.len() - k,
        {
            let entry = &entries[k];
            let key = entry.contract_id.make_key();
            let elements = match report.source_maps.find(&key) {
                Some(at) => &report.source_maps.entries[at].runtime,
                None => &none,
            };
            assert(elements@ == elements_of(*report, *entry));
            let code = copy_code(entry.hits.bytecode());
            let ops = match disassemble(code) {
                Some(ops) => ops,
                None => {
                    return Err(k);
                },
            };
            let text = match list_code(
                report,
                cache,
                entry.contract_id.build_id.as_str(),
                &entry.hits,
                &ops,
                elements,
            ) {
                Some(text) => text,
                None => {
                    return Err(k);
                },
            };
            listings.push(ContractListing { contract_name: entry.contract_id.contract_name.clone(), text });
            k += 1;
        }
        Ok(listings)
    }
}

fn copy_code(code: &Vec<u8>) -> (copy: Vec<u8>)
    ensures
        copy@ == code@,
{
    let mut copy: Vec<u8> = Vec::new();
    let mut i: usize = 0;
    while i < code.len()
        invariant
            i <= code@.len(),
            copy@ == code@.take(i as int),
        decreases code@.len() - i,
    {
        copy.push(code[i]);
        assert(copy@ =~= code@.take(i + 1));
        i += 1;
    }
    assert(copy@ =~= code@);
    copy
}

}
