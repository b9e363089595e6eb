//! The items of a report, file by file.
use crate::items::CoverageItem;
use crate::order::Keyed;
use crate::paths::{keys_tell_paths, make_path_key, path_key, same_path};
use crate::report::CoverageReport;
use crate::sums::{picked_empty, picked_push};
use crate::table::{by_key_of_entry, has_key, place_of, place_of_splits, update_is_with_entry, with_entry_by_key, Table};
use vstd::prelude::*;

verus! {

/// The items of a file.
#[derive(Debug)]
pub struct FileItems {
    pub path: String,
    pub items: Vec<CoverageItem>,
}

impl Keyed for FileItems {
    open spec fn sort_key(&self) -> Seq<u64> {
        path_key(self.path@)
    }

    fn make_key(&self) -> (key: Vec<u64>) {
        make_path_key(self.path.as_str())
    }
}

/// The item belongs to a file: its source is registered under the path.
pub open spec fn is_item_of(report: CoverageReport, build: Seq<char>, item: CoverageItem, path: Seq<char>) -> bool {
    match report.path_of(build, item.loc.source_id) {
        Some(p) => same_path(p, path),
        None => false,
    }
}

/// Those of the first `n` items of a build whose source is registered under the path.
pub open spec fn items_in(
    report: CoverageReport,
    build: Seq<char>,
    items: Seq<CoverageItem>,
    n: int,
    path: Seq<char>,
) -> Seq<CoverageItem>
    decreases n,
{
    if n <= 0 {
        Seq::empty()
    } else {
        let before = items_in(report, build, items, n - 1, path);
        if is_item_of(report, build, items[n - 1], path) {
            before.push(items[n - 1])
        } else {
            before
        }
    }
}

/// The items of a file in the first `n` builds, build by build.
pub open spec fn items_in_builds(report: CoverageReport, n: int, path: Seq<char>) -> Seq<CoverageItem>
    decreases n,
{
    if n <= 0 {
        Seq::empty()
    } else {
        let entry = report.analyses.entries@[n - 1];
        items_in_builds(report, n - 1, path) + items_in(
            report,
            entry.build_id@,
            entry.analysis.items@,
            entry.analysis.items@.len() as int,
            path,
        )
    }
}

/// The items of a file: those of all builds whose source is registered under its path.
pub open spec fn file_items(report: CoverageReport, path: Seq<char>) -> Seq<CoverageItem> {
    items_in_builds(report, report.analyses.entries@.len() as int, path)
}

/// How the path of a file is written: as for the first of the first `n` items of a build that belongs to it.
pub open spec fn spelling_in(
    report: CoverageReport,
    build: Seq<char>,
    items: Seq<CoverageItem>,
    n: int,
    path: Seq<char>,
) -> Option<Seq<char>>
    decreases n,
{
    if n <= 0 {
        None
    } else {
        match spelling_in(report, build, items, n - 1, path) {
            Some(spelling) => Some(spelling),
            None => if is_item_of(report, build, items[n - 1], path) {
                report.path_of(build, items[n - 1].loc.source_id)
            } else {
                None
            },
        }
    }
}

/// How the path of a file is written: as in the first of the first `n` builds that has an item of it.
pub open spec fn spelling_in_builds(report: CoverageReport, n: int, path: Seq<char>) -> Option<Seq<char>>
    decreases n,
{
    if n <= 0 {
        None
    } else {
        let entry = report.analyses.entries@[n - 1];
        either(
            spelling_in_builds(report, n - 1, path),
            spelling_in(report, entry.build_id@, entry.analysis.items@, entry.analysis.items@.len() as int, path),
        )
    }
}

/// The first of two texts that is there.
pub open spec fn either(a: Option<Seq<char>>, b: Option<Seq<char>>) -> Option<Seq<char>> {
    if a is Some { a } else { b }
}

/// A file lists only items whose source is registered under its path: items of sources that are not
/// registered are not reported.
pub proof fn listed_items_are_registered(
    report: CoverageReport,
    build: Seq<char>,
    items: Seq<CoverageItem>,
    n: int,
    path: Seq<char>,
)
    ensures
        forall|i: int|
            0 <= i < items_in(report, build, items, n, path).len() ==> is_item_of(
                report,
                build,
                #[trigger] items_in(report, build, items, n, path)[i],
                path,
            ),
    decreases n,
{
    if n > 0 {
        listed_items_are_registered(report, build, items, n - 1, path);
        let before = items_in(report, build, items, n - 1, path);
        let all = items_in(report, build, items, n, path);
        assert forall|i: int| 0 <= i < all.len() implies is_item_of(report, build, #[trigger] all[i], path) by {
            if i < before.len() {
                assert(all[i] == before[i]);
            }
        }
    }
}

/// A file lists the items of a build whose source is registered under its path, all of them, in the order of the
/// build.
pub proof fn listed_items_are_those_of_the_file(
    report: CoverageReport,
    build: Seq<char>,
    items: Seq<CoverageItem>,
    path: Seq<char>,
)
    ensures
        items_in(report, build, items, items.len() as int, path) == items.filter(
            |item: CoverageItem|
                report.path_of(build, item.loc.source_id) is Some && same_path(
                    report.path_of(build, item.loc.source_id)->0,
                    path,
                ),
        ),
{
    listed_up_to(report, build, items, items.len() as int, path);
    assert(items.take(items.len() as int) =~= items);
}

proof fn listed_up_to(
    report: CoverageReport,
    build: Seq<char>,
    items: Seq<CoverageItem>,
    n: int,
    path: Seq<char>,
)
    requires
        0 <= n <= items.len(),
    ensures
        items_in(report, build, items, n, path) == items.take(n).filter(
            |item: CoverageItem|
                report.path_of(build, item.loc.source_id) is Some && same_path(
                    report.path_of(build, item.loc.source_id)->0,
                    path,
                ),
        ),
    decreases n,
{
    let is_own = |item: CoverageItem|
        report.path_of(build, item.loc.source_id) is Some && same_path(
            report.path_of(build, item.loc.source_id)->0,
            path,
        );
    if n > 0 {
        listed_up_to(report, build, items, n - 1, path);
        assert(items.take(n) =~= items.take(n - 1).push(items[n - 1]));
        picked_push(items.take(n - 1), items[n - 1], is_own);
    } else {
        assert(items.take(0) =~= Seq::empty());
        picked_empty(is_own);
    }
}

/// Every item of the report whose source is registered is listed in a file of its path.
pub proof fn every_registered_item_is_listed(report: CoverageReport, files: Table<FileItems>, k: int, i: int) -> (
    at: int)
    requires
        is_by_file(files, report),
        0 <= k < report.analyses.entries@.len(),
        0 <= i < report.analyses.entries@[k].analysis.items@.len(),
        ({
            let entry = report.analyses.entries@[k];
            report.path_of(entry.build_id@, entry.analysis.items@[i].loc.source_id) is Some
        }),
    ensures
        0 <= at < files.entries@.len(),
        ({
            let entry = report.analyses.entries@[k];
            let item = entry.analysis.items@[i];
            &&& files.entries@[at].items@.contains(item)
            &&& same_path(report.path_of(entry.build_id@, item.loc.source_id)->0, files.entries@[at].path@)
        }),
{
    let entry = report.analyses.entries@[k];
    let items = entry.analysis.items@;
    let item = items[i];
    let path = report.path_of(entry.build_id@, item.loc.source_id)->0;
    keys_tell_paths(path, path);
    listed_in_build(report, entry.build_id@, items, items.len() as int, path, i);
    listed_in_builds(report, report.analyses.entries@.len() as int, path, k, item);
    assert(items_at(files@, path) == file_items(report, path));
    assert(files@.contains_key(path_key(path)));
    assert(has_key(files.entries@, path_key(path)));
    let at = choose|at: int|
        0 <= at < files.entries@.len() && (#[trigger] files.entries@[at]).sort_key() == path_key(path);
    by_key_of_entry(files.entries@, at);
    keys_tell_paths(path, files.entries@[at].path@);
    keys_tell_paths(files.entries@[at].path@, path);
    at
}

/// The path of a file is written as the path of one of its items is registered.
pub proof fn files_are_named_as_registered(report: CoverageReport, files: Table<FileItems>, at: int) -> (place: (int, int))
    requires
        is_by_file(files, report),
        0 <= at < files.entries@.len(),
    ensures
        0 <= place.0 < report.analyses.entries@.len(),
        0 <= place.1 < report.analyses.entries@[place.0].analysis.items@.len(),
        ({
            let entry = report.analyses.entries@[place.0];
            report.path_of(entry.build_id@, entry.analysis.items@[place.1].loc.source_id) == Some(
                files.entries@[at].path@,
            )
        }),
{
    let path = files.entries@[at].path@;
    by_key_of_entry(files.entries@, at);
    assert(files.entries@[at].sort_key() == path_key(path));
    assert(spelling_at(files@, path) == Some(path));
    spelling_comes_from(report, report.analyses.entries@.len() as int, path)
}

proof fn spelling_comes_from(report: CoverageReport, n: int, path: Seq<char>) -> (place: (int, int))
    requires
        0 <= n <= report.analyses.entries@.len(),
        spelling_in_builds(report, n, path) is Some,
    ensures
        0 <= place.0 < n,
        0 <= place.1 < report.analyses.entries@[place.0].analysis.items@.len(),
        ({
            let entry = report.analyses.entries@[place.0];
            report.path_of(entry.build_id@, entry.analysis.items@[place.1].loc.source_id) == spelling_in_builds(
                report,
                n,
                path,
            )
        }),
    decreases n,
{
    if spelling_in_builds(report, n - 1, path) is Some {
        spelling_comes_from(report, n - 1, path)
    } else {
        let entry = report.analyses.entries@[n - 1];
        let items = entry.analysis.items@;
        (n - 1, spelling_comes_from_build(report, entry.build_id@, items, items.len() as int, path))
    }
}

proof fn spelling_comes_from_build(
    report: CoverageReport,
    build: Seq<char>,
    items: Seq<CoverageItem>,
    n: int,
    path: Seq<char>,
) -> (i: int)
    requires
        0 <= n <= items.len(),
        spelling_in(report, build, items, n, path) is Some,
    ensures
        0 <= i < n,
        report.path_of(build, items[i].loc.source_id) == spelling_in(report, build, items, n, path),
    decreases n,
{
    if spelling_in(report, build, items, n - 1, path) is Some {
        spelling_comes_from_build(report, build, items, n - 1, path)
    } else {
        n - 1
    }
}

proof fn listed_in_build(
    report: CoverageReport,
    build: Seq<char>,
    items: Seq<CoverageItem>,
    n: int,
    path: Seq<char>,
    i: int,
)
    requires
        0 <= i < n <= items.len(),
        is_item_of(report, build, items[i], path),
    ensures
        items_in(report, build, items, n, path).contains(items[i]),
    decreases n,
{
    let before = items_in(report, build, items, n - 1, path);
    let all = items_in(report, build, items, n, path);
    if i < n - 1 {
        listed_in_build(report, build, items, n - 1, path, i);
        let j = choose|j: int| 0 <= j < before.len() && before[j] == items[i];
        assert(all[j] == items[i]);
    } else {
        assert(all[before.len() as int] == items[i]);
    }
}

proof fn listed_in_builds(report: CoverageReport, n: int, path: Seq<char>, k: int, item: CoverageItem)
    requires
        0 <= k < n <= report.analyses.entries@.len(),
        ({
            let entry = report.analyses.entries@[k];
            items_in(
                report,
                entry.build_id@,
                entry.analysis.items@,
                entry.analysis.items@.len() as int,
                path,
            ).contains(item)
        }),
    ensures
        items_in_builds(report, n, path).contains(item),
    decreases n,
{
    let entry = report.analyses.entries@[n - 1];
    let before = items_in_builds(report, n - 1, path);
    let own = items_in(report, entry.build_id@, entry.analysis.items@, entry.analysis.items@.len() as int, path);
    let all = items_in_builds(report, n, path);
    if k < n - 1 {
        listed_in_builds(report, n - 1, path, k, item);
        let j = choose|j: int| 0 <= j < before.len() && before[j] == item;
        assert(all[j] == item);
    } else {
        let j = choose|j: int| 0 <= j < own.len() && own[j] == item;
        assert(all[before.len() + j] == item);
    }
}

/// The items of a file according to a table; a file that is not there has none.
pub open spec fn items_at(files: Map<Seq<u64>, FileItems>, path: Seq<char>) -> Seq<CoverageItem> {
    if files.contains_key(path_key(path)) { files[path_key(path)].items@ } else { Seq::empty() }
}

/// How the path of a file is written in a table, if it is there.
pub open spec fn spelling_at(files: Map<Seq<u64>, FileItems>, path: Seq<char>) -> Option<Seq<char>> {
    if files.contains_key(path_key(path)) { Some(files[path_key(path)].path@) } else { None }
}

/// The table holds the files that have items, each under its own path.
pub open spec fn holds_files(files: Map<Seq<u64>, FileItems>) -> bool {
    forall|key: Seq<u64>| #[trigger]
        files.contains_key(key) ==> files[key].items@.len() > 0 && files[key].sort_key() == key
}

/// The table holds the items of the report, file by file, in the order of the paths.
pub open spec fn is_by_file(files: Table<FileItems>, report: CoverageReport) -> bool {
    &&& files.wf()
    &&& holds_files(files@)
    &&& forall|path: Seq<char>| #[trigger] items_at(files@, path) == file_items(report, path)
    &&& forall|path: Seq<char>| #[trigger]
        spelling_at(files@, path) == spelling_in_builds(report, report.analyses.entries@.len() as int, path)
}

/// The number of items of the first `n` files.
pub open spec fn item_total(files: Seq<FileItems>, n: int) -> nat
    decreases n,
{
    if n <= 0 { 0 } else { item_total(files, n - 1) + files[n - 1].items@.len() }
}

/// The number of items of the first `n` builds.
pub open spec fn report_items(report: CoverageReport, n: int) -> nat
    decreases n,
{
    if n <= 0 { 0 } else { report_items(report, n - 1) + report.analyses.entries@[n - 1].analysis.items@.len() }
}

proof fn item_total_same(a: Seq<FileItems>, b: Seq<FileItems>, n: int)
    requires
        n <= a.len(),
        n <= b.len(),
        forall|i: int| 0 <= i < n ==> (#[trigger] a[i]).items@.len() == b[i].items@.len(),
    ensures
        item_total(a, n) == item_total(b, n),
    decreases n,
{
    if n > 0 {
        item_total_same(a, b, n - 1);
    }
}

proof fn item_total_of_update(files: Seq<FileItems>, at: int, file: FileItems, n: int)
    requires
        0 <= at < n <= files.len(),
    ensures
        item_total(files.update(at, file), n) + files[at].items@.len() == item_total(files, n) + file.items@.len(),
    decreases n,
{
    if n - 1 == at {
        item_total_same(files, files.update(at, file), n - 1);
    } else {
        item_total_of_update(files, at, file, n - 1);
    }
}

proof fn item_total_of_insert(files: Seq<FileItems>, at: int, file: FileItems, n: int)
    requires
        0 <= at <= n <= files.len(),
    ensures
        item_total(files.insert(at, file), n + 1) == item_total(files, n) + file.items@.len(),
    decreases n,
{
    if n == at {
        item_total_same(files, files.insert(at, file), n);
    } else {
        item_total_of_insert(files, at, file, n - 1);
        assert(files.insert(at, file)[n] == files[n - 1]);
    }
}

/// Adds an item to those of a file.
fn add_to_file(files: &mut Table<FileItems>, path: &String, item: &CoverageItem)
    requires
        old(files).wf(),
        holds_files(old(files)@),
    ensures
        final(files).wf(),
        holds_files(final(files)@),
        item_total(final(files).entries@, final(files).entries@.len() as int) == item_total(
            old(files).entries@,
            old(files).entries@.len() as int,
        ) + 1,
        forall|p: Seq<char>| #[trigger]
            items_at(final(files)@, p) == (if same_path(path@, p) {
                items_at(old(files)@, p).push(*item)
            } else {
                items_at(old(files)@, p)
            }),
        forall|p: Seq<char>| #[trigger]
            spelling_at(final(files)@, p) == either(
                spelling_at(old(files)@, p),
                if same_path(path@, p) { Some(path@) } else { None },
            ),
{
    let key = make_path_key(path.as_str());
    let ghost before = files.entries@;
    match files.find(&key) {
        Some(at) => {
            files.entries[at].items.push(item.clone());
            proof {
                let entry = files.entries@[at as int];
                assert(files.entries@ =~= before.update(at as int, entry));
                assert(entry.sort_key() == before[at as int].sort_key());
                update_is_with_entry(before, at as int, entry);
                with_entry_by_key(before, entry);
                item_total_of_update(before, at as int, entry, before.len() as int);
                assert forall|p: Seq<char>| #[trigger] path_key(p) == path_key(path@) <==> same_path(path@, p) by {
                    keys_tell_paths(p, path@);
                }
            }
        },
        None => {
            let entry = FileItems { path: path.clone(), items: vec![item.clone()] };
            assert(entry.items@ =~= Seq::<CoverageItem>::empty().push(*item));
            files.put(entry);
            proof {
                place_of_splits(before, key@);
                item_total_of_insert(before, place_of(before, key@), entry, before.len() as int);
                assert forall|p: Seq<char>| #[trigger] path_key(p) == path_key(path@) <==> same_path(path@, p) by {
                    keys_tell_paths(p, path@);
                }
            }
        },
    }
}

impl CoverageReport {
    /// The items of every file that has any, in the order of the paths.
    pub fn items_by_file(&self) -> (files: Table<FileItems>)
        requires
            self.wf(),
        ensures
            is_by_file(files, *self),
            item_total(files.entries@, files.entries@.len() as int) <= report_items(
                *self,
                self.analyses.entries@.len() as int,
            ),
    {
        let mut files: Table<FileItems> = Table::new();
        let mut k: usize = 0;
        while k < self.analyses.entries.len()
            invariant
                self.wf(),
                k <= self.analyses.entries@.len(),
                files.wf(),
                holds_files(files@),
                item_total(files.entries@, files.entries@.len() as int) <= report_items(*self, k as int),
                forall|path: Seq<char>| #[trigger]
                    items_at(files@, path) == items_in_builds(*self, k as int, path),
                forall|path: Seq<char>| #[trigger]
                    spelling_at(files@, path) == spelling_in_builds(*self, k as int, path),
            decreases self.analyses.entries@.len() - k,
        {
            let entry = &self.analyses.entries[k];
            let items = &entry.analysis.items;
            let mut n: usize = 0;
            assert forall|path: Seq<char>| #[trigger] items_at(files@, path) == items_in_builds(*self, k as int, path)
                + items_in(*self, entry.build_id@, items@, 0, path) by {
                assert(items_in_builds(*self, k as int, path) + items_in(*self, entry.build_id@, items@, 0, path)
                    =~= items_in_builds(*self, k as int, path));
            }
            while n < items.len()
                invariant
                    self.wf(),
                    k < self.analyses.entries@.len(),
                    *entry == self.analyses.entries@[k as int],
                    *items == entry.analysis.items,
                    n <= items@.len(),
                    files.wf(),
                    holds_files(files@),
                    item_total(files.entries@, files.entries@.len() as int) <= report_items(*self, k as int) + n,
                    forall|path: Seq<char>| #[trigger]
                        items_at(files@, path) == items_in_builds(*self, k as int, path) + items_in(
                            *self,
                            entry.build_id@,
                            items@,
                            n as int,
                            path,
                        ),
                    forall|path: Seq<char>| #[trigger]
                        spelling_at(files@, path) == either(
                            spelling_in_builds(*self, k as int, path),
                            spelling_in(*self, entry.build_id@, items@, n as int, path),
                        ),
                decreases items@.len() - n,
            {
                let item = &items[n];
                let ghost before = files@;
                match self.get_source_path(entry.build_id.as_str(), item.loc.source_id) {
                    Some(path) => add_to_file(&mut files, path, item),
                    None => {},
                }
                proof {
                    assert forall|path: Seq<char>| #[trigger] items_at(files@, path) == items_in_builds(
                        *self,
                        k as int,
                        path,
                    ) + items_in(*self, entry.build_id@, items@, n + 1, path) by {
                        let was = items_at(before, path);
                        assert(items_at(files@, path) =~= items_in_builds(*self, k as int, path) + items_in(
                            *self,
                            entry.build_id@,
                            items@,
                            n + 1,
                            path,
                        ));
                    }
                    assert forall|path: Seq<char>| #[trigger] spelling_at(files@, path) == either(
                        spelling_in_builds(*self, k as int, path),
                        spelling_in(*self, entry.build_id@, items@, n + 1, path),
                    ) by {
                        let was = spelling_at(before, path);
                    }
                }
                n += 1;
            }
            k += 1;
        }
        files
    }
}

}
