//! Leaves sources out of a report.
use crate::args::CoverageArgs;
use crate::instrumentation::{pattern_matches, regex_is_match, regex_pattern};
use crate::order::{precedes, precedes_irreflexive, Keyed};
use crate::paths::{relative_path, relative_to};
use crate::report::{numbered_key, CoverageReport, SourceEntry};
use crate::table::{by_key_of_entry, has_key, Table};
use globset::{GlobSet, GlobSetBuilder};
use regex::Regex;
use vstd::prelude::*;
use vstd::string::*;

verus! {

/// `globset::GlobSetBuilder`, a collection of glob patterns.
#[verifier::external_type_specification]
#[verifier::external_body]
pub struct ExGlobSetBuilder(GlobSetBuilder);

/// `globset::GlobSet`, a collection of glob patterns that are matched together.
#[verifier::external_type_specification]
#[verifier::external_body]
pub struct ExGlobSet(GlobSet);

/// The patterns that a builder holds.
pub uninterp spec fn builder_patterns(builder: GlobSetBuilder) -> Seq<Seq<char>>;

/// The patterns that a set holds.
pub uninterp spec fn set_patterns(set: GlobSet) -> Seq<Seq<char>>;

/// A text without backslashes is a glob pattern.
pub uninterp spec fn is_glob(pattern: Seq<char>) -> bool;

/// A glob pattern without backslashes matches a path without backslashes.
pub uninterp spec fn glob_matches(pattern: Seq<char>, path: Seq<char>) -> bool;

/// The text has no backslash. What a backslash means in patterns and paths depends on the platform.
pub open spec fn no_backslash(text: Seq<char>) -> bool {
    forall|i: int| 0 <= i < text.len() ==> #[trigger] text[i] != '\\'
}

/// `globset::GlobSetBuilder::new`: a builder without patterns.
#[verifier::external_body]
fn new_builder() -> (builder: GlobSetBuilder)
    ensures
        builder_patterns(builder).len() == 0,
{
    GlobSetBuilder::new()
}

/// `globset::Glob::new` and `globset::GlobSetBuilder::add`: puts a pattern behind those of the builder, if
/// it is a glob pattern. Whether it is one is a function of the pattern alone; of a pattern with backslashes
/// it is not said.
#[verifier::external_body]
fn add_glob(builder: &mut GlobSetBuilder, pattern: &str) -> (is_pattern: bool)
    ensures
        no_backslash(pattern@) ==> is_pattern == is_glob(pattern@),
        builder_patterns(*final(builder)) == (if is_pattern {
            builder_patterns(*old(builder)).push(pattern@)
        } else {
            builder_patterns(*old(builder))
        }),
{
    match globset::Glob::new(pattern) {
        Ok(glob) => {
            builder.add(glob);
            true
        },
        Err(_) => false,
    }
}

/// `globset::GlobSetBuilder::build`: the set of the builder's patterns. When it fails is not said: that
/// depends on the size of what the patterns compile to.
#[verifier::external_body]
fn build_set(builder: &GlobSetBuilder) -> (set: Option<GlobSet>)
    ensures
        set is Some ==> set_patterns(set->0) == builder_patterns(*builder),
{
    builder.build().ok()
}

/// `globset::GlobSet::is_match`: whether one of the patterns matches the path. Whether a pattern with
/// backslashes does, and what matches a path with backslashes, is not said.
#[verifier::external_body]
fn set_matches(set: &GlobSet, path: &str) -> (matched: bool)
    ensures
        forall|i: int|
            0 <= i < set_patterns(*set).len() && no_backslash(path@) && no_backslash(
                #[trigger] set_patterns(*set)[i],
            ) && glob_matches(set_patterns(*set)[i], path@) ==> matched,
        no_backslash(path@) && matched ==> exists|i: int|
            0 <= i < set_patterns(*set).len() && (no_backslash(#[trigger] set_patterns(*set)[i]) ==> glob_matches(
                set_patterns(*set)[i],
                path@,
            )),
{
    set.is_match(path)
}

/// One of the patterns without backslashes matches the path.
pub open spec fn must_match(patterns: Seq<Seq<char>>, path: Seq<char>) -> bool {
    exists|i: int|
        0 <= i < patterns.len() && no_backslash(#[trigger] patterns[i]) && glob_matches(patterns[i], path)
}

/// One of the patterns without backslashes matches the path, or there is a pattern with one.
pub open spec fn may_match(patterns: Seq<Seq<char>>, path: Seq<char>) -> bool {
    exists|i: int|
        0 <= i < patterns.len() && (no_backslash(#[trigger] patterns[i]) ==> glob_matches(patterns[i], path))
}

/// Whether a source is kept by patterns: it is not if one without backslashes matches its path, and it is if
/// none can.
pub open spec fn is_unskipped(kept: bool, patterns: Seq<Seq<char>>, path: Seq<char>) -> bool {
    no_backslash(path) ==> (must_match(patterns, path) ==> !kept) && (!may_match(patterns, path) ==> kept)
}

/// The patterns as sequences of characters.
pub open spec fn pattern_views(patterns: Seq<String>) -> Seq<Seq<char>> {
    patterns.map_values(|pattern: String| pattern@)
}

/// Why sources cannot be left out by patterns.
#[derive(Clone, Copy, Debug, PartialEq, Eq, Structural)]
pub enum SkipError {
    /// The text at this position is no glob pattern.
    Pattern(usize),
    /// The patterns together are too large.
    TooLarge,
}

/// The sources are those that were there and are kept.
pub open spec fn is_retained(
    new: Map<Seq<u64>, SourceEntry>,
    entries: Seq<SourceEntry>,
    keep: Seq<bool>,
    n: int,
) -> bool {
    &&& forall|key: Seq<u64>| #[trigger]
        new.contains_key(key) <==> exists|k: int|
            0 <= k < n && keep[k] && (#[trigger] entries[k]).sort_key() == key
    &&& forall|k: int| 0 <= k < n && keep[k] ==> new[(#[trigger] entries[k]).sort_key()] == entries[k]
}

impl CoverageReport {
    /// Keeps those registered sources that are marked to be kept. Their items and anchors stay, so that
    /// positions of items stay the same; items of other sources are no longer reported.
    pub fn retain_sources(&mut self, keep: &Vec<bool>)
        requires
            old(self).wf(),
            keep@.len() == old(self).sources.entries@.len(),
        ensures
            final(self).wf(),
            final(self).source_ids == old(self).source_ids,
            final(self).analyses == old(self).analyses,
            final(self).same_contracts(old(self)),
            is_retained(
                final(self).sources@,
                old(self).sources.entries@,
                keep@,
                old(self).sources.entries@.len() as int,
            ),
    {
        let mut kept: Table<SourceEntry> = Table::new();
        let entries = &self.sources.entries;
        let mut n: usize = 0;
        while n < entries.len()
            invariant
                *self == *old(self),
                self.wf(),
                *entries == self.sources.entries,
                keep@.len() == entries@.len(),
                n <= entries@.len(),
                kept.wf(),
                is_retained(kept@, entries@, keep@, n as int),
            decreases entries@.len() - n,
        {
            let entry = &entries[n];
            let ghost before = kept@;
            if keep[n] {
                kept.put(
                    SourceEntry {
                        build_id: entry.build_id.clone(),
                        source_id: entry.source_id,
                        path: entry.path.clone(),
                    },
                );
            }
            proof {
                assert forall|key: Seq<u64>| #[trigger] kept@.contains_key(key) <==> exists|k: int|
                    0 <= k < n + 1 && keep@[k] && (#[trigger] entries@[k]).sort_key() == key by {
                    if before.contains_key(key) {
                        let k = choose|k: int| 0 <= k < n && keep@[k] && (#[trigger] entries@[k]).sort_key() == key;
                        assert(0 <= k < n + 1 && keep@[k] && entries@[k].sort_key() == key);
                    }
                    if keep@[n as int] && entry.sort_key() == key {
                        assert(0 <= n < n + 1 && keep@[n as int] && entries@[n as int].sort_key() == key);
                    }
                }
                assert forall|k: int| 0 <= k < n + 1 && keep@[k] implies kept@[(#[trigger] entries@[k]).sort_key()]
                    == entries@[k] by {
                    if k < n {
                        precedes_irreflexive(entries@[k].sort_key());
                        assert(precedes(entries@[k].sort_key(), entries@[n as int].sort_key()));
                    }
                }
            }
            n += 1;
        }
        self.sources = kept;
    }

    /// Marks the sources that a regular expression does not match.
    fn unmatched(&self, regex: &Regex, root: &str) -> (keep: Vec<bool>)
        ensures
            keep@.len() == self.sources.entries@.len(),
            forall|k: int|
                0 <= k < keep@.len() ==> #[trigger] keep@[k] == !pattern_matches(
                    regex_pattern(*regex),
                    relative_to(self.sources.entries@[k].path@, root@),
                ),
    {
        let mut keep: Vec<bool> = Vec::new();
        let mut n: usize = 0;
        while n < self.sources.entries.len()
            invariant
                n <= self.sources.entries@.len(),
                keep@.len() == n,
                forall|k: int|
                    0 <= k < n ==> #[trigger] keep@[k] == !pattern_matches(
                        regex_pattern(*regex),
                        relative_to(self.sources.entries@[k].path@, root@),
                    ),
            decreases self.sources.entries@.len() - n,
        {
            let relative = relative_path(self.sources.entries[n].path.as_str(), root);
            keep.push(!regex_is_match(regex, relative.as_str()));
            n += 1;
        }
        keep
    }

    /// Marks the sources that no pattern of a set matches.
    fn unskipped(&self, set: &GlobSet, root: &str) -> (keep: Vec<bool>)
        ensures
            keep@.len() == self.sources.entries@.len(),
            keeps_unskipped(keep@, self.sources.entries@, set_patterns(*set), root@),
    {
        let mut keep: Vec<bool> = Vec::new();
        let mut n: usize = 0;
        while n < self.sources.entries.len()
            invariant
                n <= self.sources.entries@.len(),
                keep@.len() == n,
                forall|k: int|
                    0 <= k < n ==> is_unskipped(
                        #[trigger] keep@[k],
                        set_patterns(*set),
                        relative_to(self.sources.entries@[k].path@, root@),
                    ),
            decreases self.sources.entries@.len() - n,
        {
            let relative = relative_path(self.sources.entries[n].path.as_str(), root);
            keep.push(!set_matches(set, relative.as_str()));
            n += 1;
        }
        keep
    }

    /// Leaves out the sources whose paths, as seen from `root`, a regular expression matches.
    pub fn leave_out_matching(&mut self, regex: &Regex, root: &str)
        requires
            old(self).wf(),
        ensures
            final(self).wf(),
            matched_left_out(*final(self), *old(self), regex_pattern(*regex), root@),
    {
        let keep = self.unmatched(regex, root);
        assert(keep@ =~= Seq::new(
            old(self).sources.entries@.len(),
            |k: int|
                !pattern_matches(regex_pattern(*regex), relative_to(old(self).sources.entries@[k].path@, root@)),
        ));
        self.retain_sources(&keep);
    }

    /// Leaves out the sources whose paths, as seen from `root`, one of the patterns of a set matches. Without a
    /// set, which there is none of where the patterns were too large together, it fails and changes nothing.
    pub fn leave_out_of_set(&mut self, set: Option<GlobSet>, root: &str) -> (skipped: Result<(), SkipError>)
        requires
            old(self).wf(),
        ensures
            final(self).wf(),
            only_sources_differ(*final(self), *old(self)),
            set is None ==> skipped == Err::<(), SkipError>(SkipError::TooLarge) && *final(self) == *old(self),
            set is Some ==> skipped is Ok && exists|keep: Seq<bool>| #[trigger]
                is_retained(
                    final(self).sources@,
                    old(self).sources.entries@,
                    keep,
                    old(self).sources.entries@.len() as int,
                ) && keeps_unskipped(keep, old(self).sources.entries@, set_patterns(set->0), root@),
    {
        match set {
            Some(set) => {
                let keep = self.unskipped(&set, root);
                self.retain_sources(&keep);
                Ok(())
            },
            None => Err(SkipError::TooLarge),
        }
    }

    /// Leaves out the sources whose paths, as seen from `root`, one of the glob patterns matches. Fails, and
    /// changes nothing, where one of them is no glob pattern or they are too large together.
    pub fn leave_out_skipped(&mut self, patterns: &Vec<String>, root: &str) -> (skipped: Result<(), SkipError>)
        requires
            old(self).wf(),
        ensures
            final(self).wf(),
            skipped_left_out(*final(self), *old(self), pattern_views(patterns@), root@, skipped),
    {
        let ghost views = pattern_views(patterns@);
        if patterns.len() == 0 {
            return Ok(());
        }
        let mut builder = new_builder();
        let mut n: usize = 0;
        assert(builder_patterns(builder) =~= pattern_views(patterns@).take(0));
        while n < patterns.len()
            invariant
                *self == *old(self),
                self.wf(),
                n <= patterns@.len(),
                builder_patterns(builder) == pattern_views(patterns@).take(n as int),
                views == pattern_views(patterns@),
                forall|i: int| 0 <= i < n && no_backslash(#[trigger] views[i]) ==> is_glob(views[i]),
            decreases patterns@.len() - n,
        {
            assert(views[n as int] == patterns@[n as int]@);
            if !add_glob(&mut builder, patterns[n].as_str()) {
                return Err(SkipError::Pattern(n));
            }
            assert(pattern_views(patterns@).take(n + 1) =~= pattern_views(patterns@).take(n as int).push(
                patterns@[n as int]@,
            ));
            n += 1;
        }
        assert(pattern_views(patterns@).take(n as int) =~= pattern_views(patterns@));
        let set = build_set(&builder);
        self.leave_out_of_set(set, root)
    }
}

/// Sources are kept if no pattern matches their paths as seen from `root`.
pub open spec fn keeps_unskipped(
    keep: Seq<bool>,
    entries: Seq<SourceEntry>,
    patterns: Seq<Seq<char>>,
    root: Seq<char>,
) -> bool {
    forall|k: int|
        0 <= k < entries.len() ==> is_unskipped(
            #[trigger] keep[k],
            patterns,
            relative_to(entries[k].path@, root),
        )
}

/// Nothing but the registered sources differs.
pub open spec fn only_sources_differ(new: CoverageReport, was: CoverageReport) -> bool {
    &&& new.source_ids == was.source_ids
    &&& new.analyses == was.analyses
    &&& new.same_contracts(&was)
}

/// The sources whose paths, as seen from `root`, a regular expression matches are left out.
pub open spec fn matched_left_out(new: CoverageReport, was: CoverageReport, pattern: Seq<char>, root: Seq<char>) -> bool {
    let entries = was.sources.entries@;
    &&& only_sources_differ(new, was)
    &&& is_retained(
        new.sources@,
        entries,
        Seq::new(
            entries.len(),
            |k: int| !pattern_matches(pattern, relative_to(entries[k].path@, root)),
        ),
        entries.len() as int,
    )
}

/// The sources whose paths, as seen from `root`, a glob pattern matches are left out; nothing is changed
/// where there is no pattern, or where the patterns are not in order.
pub open spec fn skipped_left_out(
    new: CoverageReport,
    was: CoverageReport,
    patterns: Seq<Seq<char>>,
    root: Seq<char>,
    skipped: Result<(), SkipError>,
) -> bool {
    &&& only_sources_differ(new, was)
    &&& patterns.len() == 0 ==> skipped is Ok && new == was
    &&& match skipped {
        Ok(_) => {
            &&& forall|i: int| 0 <= i < patterns.len() && no_backslash(#[trigger] patterns[i]) ==> is_glob(patterns[i])
            &&& patterns.len() > 0 ==> exists|keep: Seq<bool>| #[trigger]
                is_retained(new.sources@, was.sources.entries@, keep, was.sources.entries@.len() as int)
                    && keeps_unskipped(keep, was.sources.entries@, patterns, root)
        },
        Err(SkipError::Pattern(at)) => {
            &&& new == was
            &&& at < patterns.len()
            &&& no_backslash(patterns[at as int]) ==> !is_glob(patterns[at as int])
            &&& forall|i: int| 0 <= i < at && no_backslash(#[trigger] patterns[i]) ==> is_glob(patterns[i])
        },
        Err(SkipError::TooLarge) => {
            &&& new == was
            &&& forall|i: int| 0 <= i < patterns.len() && no_backslash(#[trigger] patterns[i]) ==> is_glob(patterns[i])
        },
    }
}

/// A source stays registered if and only if the regular expression does not match its path as seen from `root`; what
/// is left registered has the path that it had, and items and contracts stay as they are.
pub proof fn unmatched_sources_stay(
    new: CoverageReport,
    was: CoverageReport,
    pattern: Seq<char>,
    root: Seq<char>,
    build: Seq<char>,
    id: usize,
)
    requires
        was.wf(),
        matched_left_out(new, was, pattern, root),
    ensures
        was.path_of(build, id) is None ==> new.path_of(build, id) is None,
        was.path_of(build, id) is Some ==> new.path_of(build, id) == (if pattern_matches(
            pattern,
            relative_to(was.path_of(build, id)->0, root),
        ) {
            None
        } else {
            was.path_of(build, id)
        }),
        new.items_of(build) == was.items_of(build),
        new.anchors == was.anchors,
{
    let entries = was.sources.entries@;
    let key = numbered_key(build, id);
    let keep = Seq::new(entries.len(), |k: int| !pattern_matches(pattern, relative_to(entries[k].path@, root)));
    if has_key(entries, key) {
        let k = choose|k: int| 0 <= k < entries.len() && (#[trigger] entries[k]).sort_key() == key;
        by_key_of_entry(entries, k);
        if keep[k] {
            assert(new.sources@[entries[k].sort_key()] == entries[k]);
        } else if new.sources@.contains_key(key) {
            let j = choose|j: int| 0 <= j < entries.len() && keep[j] && (#[trigger] entries[j]).sort_key() == key;
            by_key_of_entry(entries, j);
        }
    }
}

/// A source whose path, as seen from `root`, one of the glob patterns matches does not stay registered, and one that
/// none can match does, with its path; items and contracts stay as they are.
pub proof fn unskipped_sources_stay(
    new: CoverageReport,
    was: CoverageReport,
    patterns: Seq<Seq<char>>,
    root: Seq<char>,
    build: Seq<char>,
    id: usize,
)
    requires
        was.wf(),
        patterns.len() > 0,
        skipped_left_out(new, was, patterns, root, Ok(())),
    ensures
        new.items_of(build) == was.items_of(build),
        was.path_of(build, id) is None ==> new.path_of(build, id) is None,
        was.path_of(build, id) is Some && no_backslash(relative_to(was.path_of(build, id)->0, root)) ==> {
            let path = relative_to(was.path_of(build, id)->0, root);
            &&& (exists|i: int|
                0 <= i < patterns.len() && no_backslash(#[trigger] patterns[i]) && glob_matches(patterns[i], path))
                ==> new.path_of(build, id) is None
            &&& (forall|i: int|
                0 <= i < patterns.len() ==> no_backslash(#[trigger] patterns[i]) && !glob_matches(patterns[i], path))
                ==> new.path_of(build, id) == was.path_of(build, id)
        },
{
    let entries = was.sources.entries@;
    let key = numbered_key(build, id);
    let keep = choose|keep: Seq<bool>| #[trigger]
        is_retained(new.sources@, entries, keep, entries.len() as int) && keeps_unskipped(keep, entries, patterns, root);
    if has_key(entries, key) {
        let k = choose|k: int| 0 <= k < entries.len() && (#[trigger] entries[k]).sort_key() == key;
        by_key_of_entry(entries, k);
        assert(is_unskipped(keep[k], patterns, relative_to(entries[k].path@, root)));
        if keep[k] {
            assert(new.sources@[entries[k].sort_key()] == entries[k]);
        } else if new.sources@.contains_key(key) {
            let j = choose|j: int| 0 <= j < entries.len() && keep[j] && (#[trigger] entries[j]).sort_key() == key;
            by_key_of_entry(entries, j);
            precedes_irreflexive(key);
            if j < k {
                assert(precedes(entries[j].sort_key(), entries[k].sort_key()));
            }
            if k < j {
                assert(precedes(entries[k].sort_key(), entries[j].sort_key()));
            }
        }
    }
}

impl CoverageArgs {
    /// Leaves out the sources that a regular expression matches, if there is one, and those that the skip
    /// patterns match.
    pub fn filter_report(&self, report: &mut CoverageReport, excluded: Option<&Regex>, root: &str) -> (filtered: Result<
        (),
        SkipError,
    >)
        requires
            old(report).wf(),
        ensures
            final(report).wf(),
            exists|mid: CoverageReport|
                (match excluded {
                    Some(regex) => matched_left_out(mid, *old(report), regex_pattern(*regex), root@),
                    None => mid == *old(report),
                }) && #[trigger] skipped_left_out(
                    *final(report),
                    mid,
                    pattern_views(self.skip_files@),
                    root@,
                    filtered,
                ),
    {
        if let Some(regex) = excluded {
            report.leave_out_matching(regex, root);
        }
        let ghost mid = *report;
        let filtered = report.leave_out_skipped(&self.skip_files, root);
        assert(skipped_left_out(*report, mid, pattern_views(self.skip_files@), root@, filtered));
        filtered
    }
}

}
