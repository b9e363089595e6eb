//! Lines and columns of byte offsets.
use crate::order::Keyed;
use crate::paths::{keys_tell_paths, make_path_key, path_key, same_path};
use crate::sums::{picked_empty, picked_push};
use crate::table::Table;
use crate::text::chars_of;
use vstd::prelude::*;
use vstd::string::*;

verus! {

/// A line, counted from one, and a column in bytes, counted from zero.
#[derive(Clone, Copy, Debug, PartialEq, Eq, Structural)]
pub struct IstanbulPosition {
    pub line: u32,
    pub column: u32,
}

/// From one position to another.
#[derive(Clone, Copy, Debug, PartialEq, Eq, Structural)]
pub struct IstanbulLocation {
    pub start: IstanbulPosition,
    pub end: IstanbulPosition,
}

/// The offsets at which the lines of the first `n` bytes begin.
pub open spec fn line_starts(text: Seq<u8>, n: int) -> Seq<usize>
    decreases n,
{
    if n <= 0 {
        seq![0]
    } else if text[n - 1] == 10 {
        line_starts(text, n - 1).push(n as usize)
    } else {
        line_starts(text, n - 1)
    }
}

/// Every line begins behind the one before it.
pub open spec fn offsets_ascend(offsets: Seq<usize>) -> bool {
    forall|i: int, j: int| 0 <= i < j < offsets.len() ==> #[trigger] offsets[i] < #[trigger] offsets[j]
}

/// How many of the first `n` lines begin at `offset` or before it.
pub open spec fn lines_up_to(offsets: Seq<usize>, n: int, offset: int) -> nat
    decreases n,
{
    if n <= 0 {
        0
    } else {
        lines_up_to(offsets, n - 1, offset) + (if offsets[n - 1] <= offset { 1nat } else { 0 })
    }
}

/// The position of an offset: its line is the last one that begins at the offset or before it. Where no
/// line does, the position is the beginning of the line `fallback`.
pub open spec fn position_of(offsets: Seq<usize>, offset: int, fallback: u32) -> IstanbulPosition {
    let line = lines_up_to(offsets, offsets.len() as int, offset);
    if line == 0 {
        IstanbulPosition { line: if fallback == 0 { 1 } else { fallback }, column: 0 }
    } else {
        IstanbulPosition { line: line as u32, column: (offset - offsets[line - 1]) as u32 }
    }
}

/// The first lines up to an offset are all lines up to it.
pub proof fn lines_up_to_splits(offsets: Seq<usize>, n: int, k: int, offset: int)
    requires
        offsets_ascend(offsets),
        0 <= k <= n <= offsets.len(),
        k > 0 ==> offsets[k - 1] <= offset,
        k < offsets.len() ==> offset < offsets[k],
    ensures
        lines_up_to(offsets, n, offset) == k,
    decreases n,
{
    if n > k {
        lines_up_to_splits(offsets, n - 1, k, offset);
        if n - 1 > k {
            assert(offsets[k] < offsets[n - 1]);
        }
    } else if k > 0 {
        all_lines_up_to(offsets, k, offset);
    }
}

proof fn all_lines_up_to(offsets: Seq<usize>, n: int, offset: int)
    requires
        offsets_ascend(offsets),
        0 <= n <= offsets.len(),
        n > 0 ==> offsets[n - 1] <= offset,
    ensures
        lines_up_to(offsets, n, offset) == n,
    decreases n,
{
    if n > 0 {
        if n > 1 {
            assert(offsets[n - 2] < offsets[n - 1]);
        }
        all_lines_up_to(offsets, n - 1, offset);
    }
}

/// The lines of a text begin in ascending order, the first at the beginning, none behind the end.
pub proof fn line_starts_ascend(text: Seq<u8>, n: int)
    requires
        0 <= n <= text.len() <= usize::MAX,
    ensures
        offsets_ascend(line_starts(text, n)),
        1 <= line_starts(text, n).len() <= n + 1,
        line_starts(text, n)[0] == 0,
        forall|i: int| 0 <= i < line_starts(text, n).len() ==> #[trigger] line_starts(text, n)[i] <= n,
    decreases n,
{
    if n > 0 {
        line_starts_ascend(text, n - 1);
    }
}

/// A line begins at the beginning of a text and behind every line break, and nowhere else.
pub proof fn lines_begin_behind_breaks(text: Seq<u8>, at: usize)
    requires
        text.len() <= usize::MAX,
    ensures
        line_starts(text, text.len() as int).contains(at) <==> at == 0 || (at <= text.len() && text[at - 1] == 10),
{
    lines_begin_up_to(text, text.len() as int, at);
}

proof fn lines_begin_up_to(text: Seq<u8>, n: int, at: usize)
    requires
        0 <= n <= text.len() <= usize::MAX,
    ensures
        line_starts(text, n).contains(at) <==> at == 0 || (at <= n && text[at - 1] == 10),
    decreases n,
{
    if n <= 0 {
        assert(seq![0usize][0] == 0);
    } else {
        let before = line_starts(text, n - 1);
        lines_begin_up_to(text, n - 1, at);
        if text[n - 1] == 10 {
            let now = before.push(n as usize);
            assert(now[before.len() as int] == n);
            if before.contains(at) {
                let i = choose|i: int| 0 <= i < before.len() && before[i] == at;
                assert(now[i] == at);
            }
        }
    }
}

/// An offset lies on the line of its position: no line break stands between the beginning of the line and the
/// offset, and as many line breaks as there are lines before it stand before it.
pub proof fn position_is_on_its_line(text: Seq<u8>, offset: int, fallback: u32)
    requires
        text.len() < u32::MAX,
        0 <= offset <= text.len(),
    ensures
        ({
            let position = position_of(line_starts(text, text.len() as int), offset, fallback);
            let start = offset - position.column;
            &&& 0 <= start <= offset
            &&& start == 0 || text[start - 1] == 10
            &&& forall|i: int| start <= i < offset ==> #[trigger] text[i] != 10
            &&& position.line == 1 + text.take(offset).filter(|byte: u8| byte == 10).len()
        }),
{
    let n = text.len() as int;
    let starts = line_starts(text, n);
    let position = position_of(starts, offset, fallback);
    position_gives_back_offset(text, offset, fallback);
    line_starts_ascend(text, n);
    let start = offset - position.column;
    assert(starts[position.line - 1] == start);
    lines_begin_behind_breaks(text, start as usize);
    assert(starts.contains(start as usize));
    assert forall|i: int| start <= i < offset implies #[trigger] text[i] != 10 by {
        if text[i] == 10 {
            lines_begin_behind_breaks(text, (i + 1) as usize);
            let k = choose|k: int| 0 <= k < starts.len() && starts[k] == i + 1;
            if k > position.line - 1 {
                if k > position.line {
                    assert(starts[position.line as int] < starts[k]);
                }
            } else if k < position.line - 1 {
                assert(starts[k] < starts[position.line - 1]);
            }
        }
    }
    lines_count_breaks(text, offset, n);
    breaks_before(text, offset);
    last_lines_are_behind(text, offset, n);
}

proof fn breaks_before(text: Seq<u8>, n: int)
    requires
        0 <= n <= text.len(),
    ensures
        line_starts(text, n).len() == 1 + text.take(n).filter(|byte: u8| byte == 10).len(),
    decreases n,
{
    let is_break = |byte: u8| byte == 10;
    if n > 0 {
        breaks_before(text, n - 1);
        assert(text.take(n) =~= text.take(n - 1).push(text[n - 1]));
        picked_push(text.take(n - 1), text[n - 1], is_break);
    } else {
        assert(text.take(0) =~= Seq::empty());
        picked_empty(is_break);
    }
}

proof fn lines_count_breaks(text: Seq<u8>, offset: int, n: int)
    requires
        0 <= offset <= n <= text.len() <= usize::MAX,
    ensures
        line_starts(text, offset).is_prefix_of(line_starts(text, n)),
    decreases n,
{
    if offset < n {
        lines_count_breaks(text, offset, n - 1);
    }
}

proof fn last_lines_are_behind(text: Seq<u8>, offset: int, n: int)
    requires
        0 <= offset <= n <= text.len() <= usize::MAX,
    ensures
        lines_up_to(line_starts(text, n), line_starts(text, n).len() as int, offset) == line_starts(text, offset).len(),
    decreases n,
{
    let starts = line_starts(text, n);
    let k = line_starts(text, offset).len() as int;
    line_starts_ascend(text, n);
    line_starts_ascend(text, offset);
    lines_count_breaks(text, offset, n);
    assert(starts[k - 1] == line_starts(text, offset)[k - 1]);
    if k < starts.len() {
        lines_begin_up_to(text, n, starts[k]);
        lines_begin_up_to(text, offset, starts[k]);
        if starts[k] <= offset {
            assert(starts.contains(starts[k]));
            assert(line_starts(text, offset).contains(starts[k]));
            let j = choose|j: int| 0 <= j < k && line_starts(text, offset)[j] == starts[k];
            assert(starts[j] == line_starts(text, offset)[j]);
            assert(starts[j] < starts[k]);
        }
    }
    lines_up_to_splits(starts, starts.len() as int, k, offset);
}

/// Finds the offsets at which the lines of a text begin.
pub fn line_offsets(text: &str) -> (offsets: Vec<usize>)
    ensures
        offsets@ == line_starts(text.spec_bytes(), text.spec_bytes().len() as int),
        offsets_ascend(offsets@),
{
    let bytes = text.as_bytes();
    let mut offsets: Vec<usize> = vec![0];
    let mut n: usize = 0;
    assert(offsets@ =~= line_starts(bytes@, 0));
    while n < bytes.len()
        invariant
            n <= bytes@.len(),
            offsets@ == line_starts(bytes@, n as int),
        decreases bytes@.len() - n,
    {
        if bytes[n] == 10 {
            offsets.push(n + 1);
        }
        n += 1;
    }
    proof {
        assert(bytes.len() <= usize::MAX);
        line_starts_ascend(bytes@, n as int);
    }
    offsets
}

/// How many lines begin at an offset or before it.
pub fn count_lines_up_to(offsets: &Vec<usize>, offset: usize) -> (count: usize)
    requires
        offsets_ascend(offsets@),
    ensures
        count == lines_up_to(offsets@, offsets@.len() as int, offset as int),
        count <= offsets@.len(),
        count > 0 ==> offsets@[count - 1] <= offset,
{
    let mut lo: usize = 0;
    let mut hi: usize = offsets.len();
    while lo < hi
        invariant
            offsets_ascend(offsets@),
            0 <= lo <= hi <= offsets@.len(),
            lo > 0 ==> offsets@[lo - 1] <= offset,
            hi < offsets@.len() ==> offset < offsets@[hi as int],
        decreases hi - lo,
    {
        let mid: usize = lo + (hi - lo) / 2;
        if offsets[mid] <= offset {
            lo = mid + 1;
        } else {
            hi = mid;
        }
    }
    proof {
        lines_up_to_splits(offsets@, offsets@.len() as int, lo as int, offset as int);
    }
    lo
}

/// The position of an offset.
pub fn position(offsets: &Vec<usize>, offset: u32, fallback_line: u32) -> (position: IstanbulPosition)
    requires
        offsets_ascend(offsets@),
        offsets@.len() <= u32::MAX,
    ensures
        position == position_of(offsets@, offset as int, fallback_line),
{
    let count: usize = count_lines_up_to(offsets, offset as usize);
    if count == 0 {
        return IstanbulPosition { line: if fallback_line == 0 { 1 } else { fallback_line }, column: 0 };
    }
    IstanbulPosition { line: count as u32, column: (offset as usize - offsets[count - 1]) as u32 }
}

/// The position of an offset in a text is on the line that the offset lies in, and line and column give
/// back the offset.
pub proof fn position_gives_back_offset(text: Seq<u8>, offset: int, fallback: u32)
    requires
        text.len() < u32::MAX,
        0 <= offset <= u32::MAX,
    ensures
        ({
            let starts = line_starts(text, text.len() as int);
            let position = position_of(starts, offset, fallback);
            &&& 1 <= position.line <= starts.len()
            &&& starts[position.line - 1] + position.column == offset
            &&& position.line < starts.len() ==> offset < starts[position.line as int]
        }),
{
    let starts = line_starts(text, text.len() as int);
    line_starts_ascend(text, text.len() as int);
    let n = last_line_up_to(starts, starts.len() as int, offset);
    lines_up_to_splits(starts, starts.len() as int, n, offset);
}

pub(crate) proof fn last_line_up_to(offsets: Seq<usize>, n: int, offset: int) -> (k: int)
    requires
        1 <= n <= offsets.len(),
        offsets[0] <= offset,
        n < offsets.len() ==> offset < offsets[n],
    ensures
        1 <= k <= offsets.len(),
        offsets[k - 1] <= offset,
        k < offsets.len() ==> offset < offsets[k],
    decreases n,
{
    if offsets[n - 1] <= offset {
        n
    } else {
        last_line_up_to(offsets, n - 1, offset)
    }
}

/// Where the file of a source lies: relative paths are relative to the root.
pub open spec fn joined(root: Seq<char>, path: Seq<char>) -> Seq<char> {
    if (path.len() > 0 && path[0] == '/') || root.len() == 0 {
        path
    } else if root.last() == '/' {
        root + path
    } else {
        root + "/"@ + path
    }
}

/// A path from the root of the file system stays as it is; any other one is put behind the root, with one separator
/// between.
pub proof fn relative_paths_lie_under_the_root(root: Seq<char>, path: Seq<char>)
    requires
        root.len() > 0,
        path.len() > 0,
    ensures
        path[0] == '/' ==> joined(root, path) == path,
        path[0] != '/' && root.last() != '/' ==> joined(root, path) == root + seq!['/'] + path,
        path[0] != '/' && root.last() == '/' ==> joined(root, path) == root + path,
{
    reveal_strlit("/");
    assert("/"@ =~= seq!['/']);
}

/// Finds where the file of a source lies.
pub fn join_path(root: &str, path: &str) -> (file: String)
    ensures
        file@ == joined(root@, path@),
{
    let r = chars_of(root);
    let p = chars_of(path);
    let mut file = String::new();
    if !((p.len() > 0 && p[0] == '/') || r.len() == 0) {
        file.append(root);
        if r[r.len() - 1] != '/' {
            file.append("/");
        }
    }
    file.append(path);
    assert(file@ =~= joined(root@, path@));
    file
}

/// Where the lines of a source begin.
#[derive(Debug)]
pub struct SourceLines {
    pub path: String,
    pub offsets: Vec<usize>,
}

impl Keyed for SourceLines {
    open spec fn sort_key(&self) -> Seq<u64> {
        path_key(self.path@)
    }

    fn make_key(&self) -> (key: Vec<u64>) {
        make_path_key(self.path.as_str())
    }
}

/// Where the lines of sources begin, for every source whose text was read.
pub struct SourcePositionCache {
    pub root: String,
    pub lines: Table<SourceLines>,
}

impl SourcePositionCache {
    /// The lines of every source ascend and can be counted.
    pub open spec fn wf(&self) -> bool {
        &&& self.lines.wf()
        &&& forall|key: Seq<u64>| #[trigger]
            self.lines@.contains_key(key) ==> offsets_ascend(self.lines@[key].offsets@)
                && self.lines@[key].offsets@.len() <= u32::MAX
    }

    /// Where the lines of a source begin, if its text was read.
    pub open spec fn offsets_of(&self, path: Seq<char>) -> Option<Seq<usize>> {
        if self.lines@.contains_key(path_key(path)) { Some(self.lines@[path_key(path)].offsets@) } else { None }
    }

    /// A cache without texts.
    pub fn new(root: String) -> (cache: Self)
        ensures
            cache.wf(),
            cache.root == root,
            forall|path: Seq<char>| (#[trigger] cache.offsets_of(path)) is None,
    {
        SourcePositionCache { root, lines: Table::new() }
    }

    /// Adds the text of a source.
    pub fn add_text(&mut self, path: String, text: &str)
        requires
            old(self).wf(),
            text.spec_bytes().len() < u32::MAX,
        ensures
            final(self).wf(),
            final(self).root == old(self).root,
            forall|p: Seq<char>| #[trigger]
                final(self).offsets_of(p) == (if same_path(path@, p) {
                    Some(line_starts(text.spec_bytes(), text.spec_bytes().len() as int))
                } else {
                    old(self).offsets_of(p)
                }),
    {
        let offsets = line_offsets(text);
        proof {
            line_starts_ascend(text.spec_bytes(), text.spec_bytes().len() as int);
        }
        let ghost before = self.lines@;
        self.lines.put(SourceLines { path, offsets });
        proof {
            assert forall|p: Seq<char>| #[trigger] path_key(p) == path_key(path@) <==> same_path(path@, p) by {
                keys_tell_paths(p, path@);
            }
        }
    }

    /// The lines of a source, if its text was read.
    pub fn find(&self, path: &str) -> (found: Option<&Vec<usize>>)
        requires
            self.wf(),
        ensures
            found is Some <==> self.offsets_of(path@) is Some,
            found is Some ==> found->0@ == self.offsets_of(path@)->0 && offsets_ascend(found->0@) && found->0@.len()
                <= u32::MAX,
    {
        let key = make_path_key(path);
        match self.lines.find(&key) {
            Some(at) => {
                assert(self.lines@.contains_key(key@));
                Some(&self.lines.entries[at].offsets)
            },
            None => None,
        }
    }
}

}
