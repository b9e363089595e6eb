//! Paths as texts. Doubled separators, separators at the end and components `.` make no difference, but for a `.`
//! at the beginning.
use crate::text::{chars_of, text_key, text_key_injective};
use vstd::prelude::*;
use vstd::string::*;

verus! {

/// The path begins at the root of the file system.
pub open spec fn is_rooted(path: Seq<char>) -> bool {
    path.len() > 0 && path[0] == '/'
}

/// The path begins with the component `.`, which counts there.
pub open spec fn starts_here(path: Seq<char>) -> bool {
    path.len() > 0 && path[0] == '.' && (path.len() == 1 || path[1] == '/')
}

/// Where the components behind the root or a first `.` begin.
pub open spec fn body_start(path: Seq<char>) -> int {
    if is_rooted(path) || starts_here(path) { 1 } else { 0 }
}

/// The component at an offset is `.`.
pub open spec fn is_dot(path: Seq<char>, at: int) -> bool {
    path[at] == '.' && (at + 1 >= path.len() || path[at + 1] == '/')
}

/// Where the next component begins, from the end of a component on.
pub open spec fn next_component(path: Seq<char>, at: int) -> int
    decreases path.len() - at,
{
    if at >= path.len() || !(path[at] == '/' || is_dot(path, at)) {
        at
    } else {
        next_component(path, at + 1)
    }
}

/// Where the component that an offset lies in ends.
pub open spec fn component_end(path: Seq<char>, at: int) -> int
    decreases path.len() - at,
{
    if at >= path.len() || path[at] == '/' { at } else { component_end(path, at + 1) }
}

proof fn next_component_lies_behind(path: Seq<char>, at: int)
    requires
        at <= path.len(),
    ensures
        at <= next_component(path, at) <= path.len(),
        next_component(path, at) < path.len() ==> path[next_component(path, at)] != '/',
    decreases path.len() - at,
{
    if at < path.len() && (path[at] == '/' || is_dot(path, at)) {
        next_component_lies_behind(path, at + 1);
    }
}

proof fn component_end_lies_behind(path: Seq<char>, at: int)
    requires
        at <= path.len(),
    ensures
        at <= component_end(path, at) <= path.len(),
        at < path.len() && path[at] != '/' ==> at < component_end(path, at),
    decreases path.len() - at,
{
    if at < path.len() && path[at] != '/' {
        component_end_lies_behind(path, at + 1);
    }
}

/// Where the first component of `path` begins that is not one of `base`, if `path` from `i` on begins with the
/// components of `base` from `j` on.
pub open spec fn rest_start(path: Seq<char>, i: int, base: Seq<char>, j: int) -> Option<int>
    decreases base.len() - j,
    via rest_start_decreases
{
    let from = next_component(path, i);
    let base_from = next_component(base, j);
    if base_from >= base.len() {
        Some(from)
    } else if from >= path.len() {
        None
    } else {
        let to = component_end(path, from);
        let base_to = component_end(base, base_from);
        if path.subrange(from, to) == base.subrange(base_from, base_to) {
            rest_start(path, to, base, base_to)
        } else {
            None
        }
    }
}

#[via_fn]
proof fn rest_start_decreases(path: Seq<char>, i: int, base: Seq<char>, j: int) {
    if j <= base.len() {
        next_component_lies_behind(base, j);
        component_end_lies_behind(base, next_component(base, j));
    } else {
        assert(next_component(base, j) == j);
    }
}

/// A component of a path.
pub enum PathPart {
    /// The root of the file system.
    Root,
    /// A `.` at the beginning.
    Here,
    /// A `..`.
    Up,
    Name(Seq<char>),
}

/// The component with a text.
pub open spec fn part_of(text: Seq<char>) -> PathPart {
    if text == ".."@ { PathPart::Up } else { PathPart::Name(text) }
}

/// The components of a path from the end of a component on.
pub open spec fn parts_from(path: Seq<char>, at: int) -> Seq<PathPart>
    decreases path.len() - at,
    via parts_from_decreases
{
    let from = next_component(path, at);
    if from >= path.len() {
        Seq::empty()
    } else {
        let to = component_end(path, from);
        seq![part_of(path.subrange(from, to))] + parts_from(path, to)
    }
}

#[via_fn]
proof fn parts_from_decreases(path: Seq<char>, at: int) {
    if at <= path.len() {
        next_component_lies_behind(path, at);
        component_end_lies_behind(path, next_component(path, at));
    } else {
        assert(next_component(path, at) == at);
    }
}

/// The components of a path.
pub open spec fn parts(path: Seq<char>) -> Seq<PathPart> {
    (if is_rooted(path) {
        seq![PathPart::Root]
    } else if starts_here(path) {
        seq![PathPart::Here]
    } else {
        Seq::empty()
    }) + parts_from(path, body_start(path))
}

/// The two paths have the same components.
pub open spec fn same_path(a: Seq<char>, b: Seq<char>) -> bool {
    parts(a) == parts(b)
}

/// The sort key of a component: the root comes first, then `.`, then `..`, then names by their characters.
pub open spec fn part_key(part: PathPart) -> Seq<u64> {
    match part {
        PathPart::Root => seq![1],
        PathPart::Here => seq![2],
        PathPart::Up => seq![3],
        PathPart::Name(name) => seq![4u64] + text_key(name),
    }
}

/// The sort key of components: those of each in turn and an end that comes before every component.
pub open spec fn parts_key(parts: Seq<PathPart>) -> Seq<u64>
    decreases parts.len(),
{
    if parts.len() == 0 {
        seq![0]
    } else {
        part_key(parts[0]) + parts_key(parts.drop_first())
    }
}

/// The sort key of a path. Paths are compared component by component.
pub open spec fn path_key(path: Seq<char>) -> Seq<u64> {
    parts_key(parts(path))
}

proof fn parts_key_injective(a: Seq<PathPart>, b: Seq<PathPart>)
    requires
        parts_key(a) == parts_key(b),
    ensures
        a == b,
    decreases a.len(),
{
    let x = parts_key(a);
    let y = parts_key(b);
    assert(x[0] == y[0]);
    if a.len() == 0 || b.len() == 0 {
        assert(a =~= b);
    } else {
        let rest = parts_key(a.drop_first());
        let other = parts_key(b.drop_first());
        match (a[0], b[0]) {
            (PathPart::Name(m), PathPart::Name(n)) => {
                assert(x.skip(1) =~= text_key(m) + rest);
                assert(y.skip(1) =~= text_key(n) + other);
                text_key_injective(m, rest, n, other);
            },
            _ => {
                assert(x.skip(1) =~= rest);
                assert(y.skip(1) =~= other);
            },
        }
        parts_key_injective(a.drop_first(), b.drop_first());
        assert(a =~= seq![a[0]] + a.drop_first());
        assert(b =~= seq![b[0]] + b.drop_first());
    }
}

/// Two paths have the same key if and only if they have the same components.
pub proof fn keys_tell_paths(a: Seq<char>, b: Seq<char>)
    ensures
        path_key(a) == path_key(b) <==> same_path(a, b),
{
    if path_key(a) == path_key(b) {
        parts_key_injective(parts(a), parts(b));
    }
}

/// Where the last component before `end` ends, from `lo` on.
pub open spec fn last_end(path: Seq<char>, lo: int, end: int) -> int
    decreases end - lo,
{
    if end > lo && (path[end - 1] == '/' || (path[end - 1] == '.' && (end - 1 == lo || path[end - 2] == '/'))) {
        last_end(path, lo, end - 1)
    } else {
        end
    }
}

/// `path` as seen from the directory `root`, or `path` itself where it does not lie there.
pub open spec fn relative_to(path: Seq<char>, root: Seq<char>) -> Seq<char> {
    if root.len() == 0 {
        path.take(last_end(path, body_start(path), path.len() as int))
    } else if is_rooted(path) != is_rooted(root) || starts_here(path) != starts_here(root) {
        path
    } else {
        match rest_start(path, body_start(path), root, body_start(root)) {
            Some(from) => path.subrange(from, last_end(path, from, path.len() as int)),
            None => path,
        }
    }
}

/// The file name has the extension `ext`, behind a name that is not empty.
pub open spec fn has_extension(path: Seq<char>, ext: Seq<char>) -> bool {
    let p = path.take(last_end(path, body_start(path), path.len() as int));
    &&& p.len() >= ext.len() + 2
    &&& p.skip(p.len() - ext.len()) == ext
    &&& p[p.len() - ext.len() - 1] == '.'
    &&& p[p.len() - ext.len() - 2] != '/'
}

/// The text is that of a path with nothing to tidy at its ends: it begins and ends with characters of names.
pub open spec fn has_plain_ends(path: Seq<char>) -> bool {
    &&& path.len() > 0
    &&& path[0] != '/' && path[0] != '.'
    &&& path.last() != '/' && path.last() != '.'
}

/// A path below a directory is seen from there as what follows the directory.
pub proof fn path_below_root_is_relative(root: Seq<char>, below: Seq<char>)
    requires
        root.len() > 0,
        has_plain_ends(below),
    ensures
        relative_to(root + seq!['/'] + below, root) == below,
{
    let path = root + seq!['/'] + below;
    assert(path[0] == root[0]);
    assert(path[root.len() as int] == '/');
    assert(path[root.len() + 1int] == below[0]);
    assert(is_rooted(path) == is_rooted(root));
    assert(starts_here(path) == starts_here(root)) by {
        if root.len() == 1 {
            assert(path[1] == '/');
        } else {
            assert(path[1] == root[1]);
        }
    }
    assert(body_start(path) == body_start(root));
    rest_is_below(root, below, body_start(root));
    assert(path.last() == below.last());
    let from = root.len() + 1int;
    assert(last_end(path, from, path.len() as int) == path.len());
    assert(path.subrange(from, path.len() as int) =~= below);
}

/// A path that does not begin where a directory does lies elsewhere and is seen as it is.
pub proof fn path_elsewhere_stays(path: Seq<char>, root: Seq<char>)
    requires
        root.len() > 0,
        is_rooted(path) != is_rooted(root),
    ensures
        relative_to(path, root) == path,
{
}

proof fn rest_is_below(root: Seq<char>, below: Seq<char>, i: int)
    requires
        0 <= i <= root.len(),
        has_plain_ends(below),
    ensures
        rest_start(root + seq!['/'] + below, i, root, i) == Some(root.len() + 1int),
    decreases root.len() - i,
{
    let path = root + seq!['/'] + below;
    next_components_agree(root, below, i);
    next_component_lies_behind(root, i);
    let base_from = next_component(root, i);
    let from = next_component(path, i);
    if base_from < root.len() {
        component_ends_agree(root, below, base_from);
        component_end_lies_behind(root, base_from);
        let to = component_end(root, base_from);
        assert(path.subrange(from, to) =~= root.subrange(base_from, to));
        rest_is_below(root, below, to);
    }
}

proof fn next_components_agree(root: Seq<char>, below: Seq<char>, i: int)
    requires
        0 <= i <= root.len(),
        has_plain_ends(below),
    ensures
        next_component(root + seq!['/'] + below, i) == (if next_component(root, i) < root.len() {
            next_component(root, i)
        } else {
            root.len() + 1int
        }),
    decreases root.len() - i,
{
    let path = root + seq!['/'] + below;
    let n = root.len() as int;
    assert(path[n] == '/');
    assert(path[n + 1] == below[0]);
    if i < n {
        assert(path[i] == root[i]);
        if i + 1 < n {
            assert(path[i + 1] == root[i + 1]);
        }
        assert(is_dot(path, i) == is_dot(root, i));
        if root[i] == '/' || is_dot(root, i) {
            next_components_agree(root, below, i + 1);
        }
    } else {
        assert(!is_dot(path, n + 1));
        assert(next_component(path, n + 1) == n + 1);
        assert(next_component(path, n) == next_component(path, n + 1));
    }
}

proof fn component_ends_agree(root: Seq<char>, below: Seq<char>, i: int)
    requires
        0 <= i <= root.len(),
    ensures
        component_end(root + seq!['/'] + below, i) == component_end(root, i),
    decreases root.len() - i,
{
    let path = root + seq!['/'] + below;
    let n = root.len() as int;
    assert(path[n] == '/');
    if i < n {
        assert(path[i] == root[i]);
        if root[i] != '/' {
            component_ends_agree(root, below, i + 1);
        }
    }
}

/// A file name has an extension if it ends with a dot and the extension behind a name; it has no other one of that
/// length.
pub proof fn extension_is_behind_the_last_dot(path: Seq<char>, ext: Seq<char>, other: Seq<char>)
    requires
        path.len() > 1,
        path.last() != '/' && path[0] != '/' && path[0] != '.',
        has_plain_ends(ext),
        other.len() == ext.len(),
    ensures
        has_extension(path + seq!['.'] + ext, ext),
        other != ext ==> !has_extension(path + seq!['.'] + ext, other),
{
    let all = path + seq!['.'] + ext;
    assert(all.last() == ext.last());
    assert(all[0] == path[0]);
    assert(last_end(all, body_start(all), all.len() as int) == all.len());
    assert(all.take(all.len() as int) =~= all);
    assert(all.skip(all.len() - ext.len()) =~= ext);
    assert(all[all.len() - ext.len() - 1] == '.');
    assert(all[all.len() - ext.len() - 2] == path.last());
}

fn find_next(path: &Vec<char>, at: usize) -> (next: usize)
    requires
        at <= path@.len(),
    ensures
        next == next_component(path@, at as int),
        at <= next <= path@.len(),
        next < path@.len() ==> path@[next as int] != '/',
{
    let mut next: usize = at;
    while next < path.len()
        invariant
            at <= next <= path@.len(),
            next_component(path@, at as int) == next_component(path@, next as int),
        decreases path@.len() - next,
    {
        let dot = path[next] == '.' && (next == path.len() - 1 || path[next + 1] == '/');
        if path[next] != '/' && !dot {
            return next;
        }
        next += 1;
    }
    next
}

fn find_end(path: &Vec<char>, at: usize) -> (end: usize)
    requires
        at <= path@.len(),
    ensures
        end == component_end(path@, at as int),
        at <= end <= path@.len(),
        at < path@.len() && path@[at as int] != '/' ==> at < end,
{
    proof {
        component_end_lies_behind(path@, at as int);
    }
    let mut end: usize = at;
    while end < path.len()
        invariant
            at <= end <= path@.len(),
            component_end(path@, at as int) == component_end(path@, end as int),
        decreases path@.len() - end,
    {
        if path[end] == '/' {
            return end;
        }
        end += 1;
    }
    end
}

fn find_start(path: &Vec<char>) -> (start: usize)
    ensures
        start == body_start(path@),
        start <= path@.len(),
{
    if rooted(path) || here(path) { 1 } else { 0 }
}

fn rooted(path: &Vec<char>) -> (rooted: bool)
    ensures
        rooted == is_rooted(path@),
{
    path.len() > 0 && path[0] == '/'
}

fn here(path: &Vec<char>) -> (here: bool)
    ensures
        here == starts_here(path@),
{
    path.len() > 0 && path[0] == '.' && (path.len() == 1 || path[1] == '/')
}

/// Whether the characters from `i` to `to` are those from `j` to `base_to`.
fn same_component(path: &Vec<char>, i: usize, to: usize, base: &Vec<char>, j: usize, base_to: usize) -> (same: bool)
    requires
        i <= to <= path@.len(),
        j <= base_to <= base@.len(),
    ensures
        same == (path@.subrange(i as int, to as int) == base@.subrange(j as int, base_to as int)),
{
    let ghost a = path@.subrange(i as int, to as int);
    let ghost b = base@.subrange(j as int, base_to as int);
    if to - i != base_to - j {
        assert(a.len() != b.len());
        return false;
    }
    let mut k: usize = 0;
    while k < to - i
        invariant
            i <= to <= path@.len(),
            j <= base_to <= base@.len(),
            to - i == base_to - j,
            k <= to - i,
            a == path@.subrange(i as int, to as int),
            b == base@.subrange(j as int, base_to as int),
            forall|n: int| 0 <= n < k ==> #[trigger] a[n] == b[n],
        decreases to - i - k,
    {
        if path[i + k] != base[j + k] {
            assert(a[k as int] != b[k as int]);
            return false;
        }
        assert(a[k as int] == b[k as int]);
        k += 1;
    }
    assert(a =~= b);
    true
}

fn find_rest(path: &Vec<char>, i: usize, base: &Vec<char>, j: usize) -> (rest: Option<usize>)
    requires
        i <= path@.len(),
        j <= base@.len(),
    ensures
        rest is Some <==> rest_start(path@, i as int, base@, j as int) is Some,
        rest is Some ==> rest->0 <= path@.len() && rest->0 == rest_start(path@, i as int, base@, j as int)->0,
    decreases base@.len() - j,
{
    let from: usize = find_next(path, i);
    let base_from: usize = find_next(base, j);
    if base_from >= base.len() {
        return Some(from);
    }
    if from >= path.len() {
        return None;
    }
    let to: usize = find_end(path, from);
    let base_to: usize = find_end(base, base_from);
    if same_component(path, from, to, base, base_from, base_to) {
        find_rest(path, to, base, base_to)
    } else {
        None
    }
}

fn find_last_end(path: &Vec<char>, lo: usize) -> (end: usize)
    requires
        lo <= path@.len(),
    ensures
        end == last_end(path@, lo as int, path@.len() as int),
        lo <= end <= path@.len(),
{
    let mut end: usize = path.len();
    while end > lo
        invariant
            lo <= end <= path@.len(),
            last_end(path@, lo as int, path@.len() as int) == last_end(path@, lo as int, end as int),
        decreases end,
    {
        let c = path[end - 1];
        if !(c == '/' || (c == '.' && (end - 1 == lo || path[end - 2] == '/'))) {
            return end;
        }
        end -= 1;
    }
    end
}

/// Whether the characters from `from` to `to` are `..`.
fn is_up(path: &Vec<char>, from: usize, to: usize) -> (up: bool)
    requires
        from < to <= path@.len(),
    ensures
        up == (part_of(path@.subrange(from as int, to as int)) == PathPart::Up),
{
    let ghost text = path@.subrange(from as int, to as int);
    let up = to - from == 2 && path[from] == '.' && path[from + 1] == '.';
    proof {
        reveal_strlit("..");
        assert(text.len() == to - from);
        assert(".."@.len() == 2 && ".."@[0] == '.' && ".."@[1] == '.');
        if up {
            assert(text =~= ".."@);
        } else if text == ".."@ {
            assert(text[0] == path@[from as int] && text[1] == path@[from + 1]);
        }
    }
    up
}

/// Appends the characters from `from` to `to`, as in the sort key of a text.
fn push_name(key: &mut Vec<u64>, path: &Vec<char>, from: usize, to: usize)
    requires
        from <= to <= path@.len(),
    ensures
        final(key)@ == old(key)@ + text_key(path@.subrange(from as int, to as int)),
{
    let ghost name = path@.subrange(from as int, to as int);
    let mut i: usize = from;
    assert(key@ =~= old(key)@ + text_key(name).take(0));
    while i < to
        invariant
            from <= i <= to <= path@.len(),
            name == path@.subrange(from as int, to as int),
            key@ == old(key)@ + text_key(name).take(i - from),
        decreases to - i,
    {
        key.push(path[i] as u32 as u64 + 1);
        assert(key@ =~= old(key)@ + text_key(name).take(i - from + 1));
        i += 1;
    }
    key.push(0);
    assert(key@ =~= old(key)@ + text_key(name));
}

/// Appends the sort key of a path.
pub fn push_path_key(key: &mut Vec<u64>, path: &str)
    ensures
        final(key)@ == old(key)@ + path_key(path@),
{
    let p = chars_of(path);
    let mut at: usize = find_start(&p);
    if rooted(&p) {
        key.push(1);
    } else if here(&p) {
        key.push(2);
    }
    proof {
        let rest = parts_from(path@, at as int);
        if is_rooted(path@) || starts_here(path@) {
            assert(parts(path@).drop_first() =~= rest);
        } else {
            assert(parts(path@) =~= rest);
        }
        assert(key@ + parts_key(rest) =~= old(key)@ + path_key(path@));
    }
    loop
        invariant
            p@ == path@,
            at <= p@.len(),
            key@ + parts_key(parts_from(path@, at as int)) == old(key)@ + path_key(path@),
        decreases p@.len() - at,
    {
        let from: usize = find_next(&p, at);
        if from >= p.len() {
            key.push(0);
            assert(key@ =~= old(key)@ + path_key(path@));
            return ;
        }
        let to: usize = find_end(&p, from);
        let ghost before = key@;
        let ghost name = path@.subrange(from as int, to as int);
        if is_up(&p, from, to) {
            key.push(3);
        } else {
            key.push(4);
            push_name(key, &p, from, to);
        }
        proof {
            let rest = parts_from(path@, to as int);
            let all = parts_from(path@, at as int);
            assert(all.drop_first() =~= rest);
            assert(all[0] == part_of(name));
            assert(key@ =~= before + part_key(part_of(name)));
            assert(key@ + parts_key(rest) =~= before + parts_key(all));
        }
        at = to;
    }
}

/// Computes the sort key of a path.
pub fn make_path_key(path: &str) -> (key: Vec<u64>)
    ensures
        key@ == path_key(path@),
{
    let mut key: Vec<u64> = Vec::new();
    push_path_key(&mut key, path);
    assert(key@ =~= path_key(path@));
    key
}

/// Whether two paths have the same components.
pub fn is_same_path(a: &str, b: &str) -> (same: bool)
    ensures
        same == same_path(a@, b@),
{
    let x = make_path_key(a);
    let y = make_path_key(b);
    proof {
        keys_tell_paths(a@, b@);
    }
    if x.len() != y.len() {
        return false;
    }
    let mut i: usize = 0;
    while i < x.len()
        invariant
            x@.len() == y@.len(),
            i <= x@.len(),
            x@ == y@ <==> same_path(a@, b@),
            forall|j: int| 0 <= j < i ==> #[trigger] x@[j] == y@[j],
        decreases x@.len() - i,
    {
        if x[i] != y[i] {
            assert(x@[i as int] != y@[i as int]);
            return false;
        }
        i += 1;
    }
    assert(x@ =~= y@);
    true
}

/// The path as seen from the directory `root`, or the path itself where it does not lie there.
pub fn relative_path(path: &str, root: &str) -> (relative: String)
    ensures
        relative@ == relative_to(path@, root@),
{
    let p = chars_of(path);
    let r = chars_of(root);
    if r.len() == 0 {
        let end: usize = find_last_end(&p, find_start(&p));
        let relative = path.substring_char(0, end).to_owned();
        assert(relative@ =~= relative_to(path@, root@));
        return relative;
    }
    if rooted(&p) != rooted(&r) || here(&p) != here(&r) {
        return path.to_owned();
    }
    match find_rest(&p, find_start(&p), &r, find_start(&r)) {
        Some(from) => {
            let end: usize = find_last_end(&p, from);
            path.substring_char(from, end).to_owned()
        },
        None => path.to_owned(),
    }
}

/// Whether the file name has the extension `ext`, behind a name that is not empty.
pub fn path_has_extension(path: &str, ext: &str) -> (has: bool)
    ensures
        has == has_extension(path@, ext@),
{
    let p = chars_of(path);
    let e = chars_of(ext);
    let end: usize = find_last_end(&p, find_start(&p));
    let ghost name = path@.take(end as int);
    if end < 2 || end - 2 < e.len() {
        return false;
    }
    let from: usize = end - e.len();
    if p[from - 1] != '.' || p[from - 2] == '/' {
        return false;
    }
    let same = same_component(&p, from, end, &e, 0, e.len());
    assert(name.skip(from as int) =~= p@.subrange(from as int, end as int));
    assert(e@.subrange(0, e@.len() as int) =~= ext@);
    same
}

}
