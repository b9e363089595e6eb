//! Everything that is known of items and anchors.
use crate::items::CoverageItem;
use crate::report::{make_text_key, AnchorEntry, CoverageReport, ItemAnchor};
use crate::sums::{picked_empty, picked_push};
use vstd::prelude::*;
use vstd::string::*;

verus! {

/// An anchor whose item is reported, in the creation code or in the deployed code.
#[derive(Debug)]
pub struct DebugAnchor {
    pub is_runtime: bool,
    pub anchor: ItemAnchor,
    pub item: CoverageItem,
}

/// The item of an anchor, where it is there and its source is registered.
pub open spec fn reported_item(report: CoverageReport, build: Seq<char>, anchor: ItemAnchor) -> Option<CoverageItem> {
    match report.items_of(build) {
        Some(items) => if anchor.item_id < items.len() && report.path_of(
            build,
            items[anchor.item_id as int].loc.source_id,
        ) is Some {
            Some(items[anchor.item_id as int])
        } else {
            None
        },
        None => None,
    }
}

/// Those of the first `n` anchors whose items are reported.
pub open spec fn reported_anchors(
    report: CoverageReport,
    build: Seq<char>,
    is_runtime: bool,
    anchors: Seq<ItemAnchor>,
    n: int,
) -> Seq<DebugAnchor>
    decreases n,
{
    if n <= 0 {
        Seq::empty()
    } else {
        let before = reported_anchors(report, build, is_runtime, anchors, n - 1);
        match reported_item(report, build, anchors[n - 1]) {
            Some(item) => before.push(DebugAnchor { is_runtime, anchor: anchors[n - 1], item }),
            None => before,
        }
    }
}

/// The anchors of a contract whose items are reported, those of the creation code first.
pub open spec fn anchors_to_show(report: CoverageReport, entry: AnchorEntry) -> Seq<DebugAnchor> {
    let build = entry.contract_id.build_id@;
    reported_anchors(report, build, false, entry.creation@, entry.creation@.len() as int) + reported_anchors(
        report,
        build,
        true,
        entry.runtime@,
        entry.runtime@.len() as int,
    )
}

/// What is shown of anchors is those whose item is there and has a registered source, all of them and in their order,
/// each with its item.
pub proof fn shown_anchors_are_those_reported(
    report: CoverageReport,
    build: Seq<char>,
    is_runtime: bool,
    anchors: Seq<ItemAnchor>,
)
    ensures
        ({
            let shown = reported_anchors(report, build, is_runtime, anchors, anchors.len() as int);
            let picked = anchors.filter(|anchor: ItemAnchor| has_registered_item(report, build, anchor));
            &&& shown.len() == picked.len()
            &&& forall|i: int|
                0 <= i < picked.len() ==> (#[trigger] shown[i]).is_runtime == is_runtime && shown[i].anchor == picked[i]
                    && shown[i].item == report.items_of(build)->0[picked[i].item_id as int]
        }),
{
    shown_up_to(report, build, is_runtime, anchors, anchors.len() as int);
    assert(anchors.take(anchors.len() as int) =~= anchors);
}

/// Of a contract, the anchors of the creation code are shown first and marked as such, then those of the deployed code.
pub proof fn creation_anchors_come_first(report: CoverageReport, entry: AnchorEntry)
    ensures
        ({
            let build = entry.contract_id.build_id@;
            let creation = entry.creation@.filter(|anchor: ItemAnchor| has_registered_item(report, build, anchor));
            let runtime = entry.runtime@.filter(|anchor: ItemAnchor| has_registered_item(report, build, anchor));
            let shown = anchors_to_show(report, entry);
            &&& shown.len() == creation.len() + runtime.len()
            &&& forall|i: int|
                0 <= i < creation.len() ==> !(#[trigger] shown[i]).is_runtime && shown[i].anchor == creation[i]
            &&& forall|i: int|
                creation.len() <= i < shown.len() ==> (#[trigger] shown[i]).is_runtime && shown[i].anchor == runtime[i
                    - creation.len()]
        }),
{
    let build = entry.contract_id.build_id@;
    shown_anchors_are_those_reported(report, build, false, entry.creation@);
    shown_anchors_are_those_reported(report, build, true, entry.runtime@);
    let creation = entry.creation@.filter(|anchor: ItemAnchor| has_registered_item(report, build, anchor));
    let runtime = entry.runtime@.filter(|anchor: ItemAnchor| has_registered_item(report, build, anchor));
    let first = reported_anchors(report, build, false, entry.creation@, entry.creation@.len() as int);
    let second = reported_anchors(report, build, true, entry.runtime@, entry.runtime@.len() as int);
    let shown = anchors_to_show(report, entry);
    assert forall|i: int| 0 <= i < creation.len() implies !(#[trigger] shown[i]).is_runtime && shown[i].anchor
        == creation[i] by {
        assert(shown[i] == first[i]);
    }
    assert forall|i: int| creation.len() <= i < shown.len() implies (#[trigger] shown[i]).is_runtime && shown[i].anchor
        == runtime[i - creation.len()] by {
        assert(shown[i] == second[i - creation.len()]);
    }
}

/// The item of an anchor is there and its source is registered.
pub open spec fn has_registered_item(report: CoverageReport, build: Seq<char>, anchor: ItemAnchor) -> bool {
    &&& report.items_of(build) is Some
    &&& anchor.item_id < report.items_of(build)->0.len()
    &&& report.path_of(build, report.items_of(build)->0[anchor.item_id as int].loc.source_id) is Some
}

proof fn shown_up_to(
    report: CoverageReport,
    build: Seq<char>,
    is_runtime: bool,
    anchors: Seq<ItemAnchor>,
    n: int,
)
    requires
        0 <= n <= anchors.len(),
    ensures
        ({
            let shown = reported_anchors(report, build, is_runtime, anchors, n);
            let picked = anchors.take(n).filter(|anchor: ItemAnchor| has_registered_item(report, build, anchor));
            &&& shown.len() == picked.len()
            &&& forall|i: int|
                0 <= i < picked.len() ==> (#[trigger] shown[i]).is_runtime == is_runtime && shown[i].anchor == picked[i]
                    && shown[i].item == report.items_of(build)->0[picked[i].item_id as int]
        }),
    decreases n,
{
    let is_shown = |anchor: ItemAnchor| has_registered_item(report, build, anchor);
    if n > 0 {
        shown_up_to(report, build, is_runtime, anchors, n - 1);
        assert(anchors.take(n) =~= anchors.take(n - 1).push(anchors[n - 1]));
        picked_push(anchors.take(n - 1), anchors[n - 1], is_shown);
    } else {
        assert(anchors.take(0) =~= Seq::empty());
        picked_empty(is_shown);
    }
}

/// Shows everything that is known of items and anchors.
#[derive(Debug)]
pub struct DebugReporter;

fn push_anchors(
    shown: &mut Vec<DebugAnchor>,
    report: &CoverageReport,
    build_id: &str,
    is_runtime: bool,
    anchors: &Vec<ItemAnchor>,
)
    requires
        report.wf(),
    ensures
        final(shown)@ == old(shown)@ + reported_anchors(
            *report,
            build_id@,
            is_runtime,
            anchors@,
            anchors@.len() as int,
        ),
{
    let key = make_text_key(build_id);
    let found = report.analyses.find(&key);
    let mut n: usize = 0;
    assert(shown@ =~= old(shown)@ + reported_anchors(*report, build_id@, is_runtime, anchors@, 0));
    while n < anchors.len()
        invariant
            report.wf(),
            n <= anchors@.len(),
            found is Some <==> report.items_of(build_id@) is Some,
            found is Some ==> found->0 < report.analyses.entries@.len()
                && report.analyses.entries@[found->0 as int].analysis.items@ == report.items_of(build_id@)->0,
            shown@ == old(shown)@ + reported_anchors(*report, build_id@, is_runtime, anchors@, n as int),
        decreases anchors@.len() - n,
    {
        let anchor = anchors[n];
        let ghost before = shown@;
        if let Some(at) = found {
            let items = &report.analyses.entries[at].analysis.items;
            if anchor.item_id < items.len() {
                let item = &items[anchor.item_id];
                if report.get_source_path(build_id, item.loc.source_id).is_some() {
                    shown.push(DebugAnchor { is_runtime, anchor, item: item.clone() });
                }
            }
        }
        assert(shown@ =~= old(shown)@ + reported_anchors(*report, build_id@, is_runtime, anchors@, n + 1));
        n += 1;
    }
}

impl DebugReporter {
    /// The name of the reporter.
    pub fn name(&self) -> (name: &'static str)
        ensures
            name@ == "debug"@,
    {
        "debug"
    }

    /// The anchors of a contract whose items are reported.
    pub fn anchors(&self, report: &CoverageReport, entry: &AnchorEntry) -> (shown: Vec<DebugAnchor>)
        requires
            report.wf(),
        ensures
            shown@ == anchors_to_show(*report, *entry),
    {
        let mut shown: Vec<DebugAnchor> = Vec::new();
        push_anchors(&mut shown, report, entry.contract_id.build_id.as_str(), false, &entry.creation);
        push_anchors(&mut shown, report, entry.contract_id.build_id.as_str(), true, &entry.runtime);
        assert(shown@ =~= anchors_to_show(*report, *entry));
        shown
    }

    /// Where an anchor stands, in words of one width.
    pub fn place_name(is_runtime: bool) -> (name: &'static str)
        ensures
            name@ == (if is_runtime { " runtime"@ } else { "creation"@ }),
    {
        if is_runtime {
            " runtime"
        } else {
            "creation"
        }
    }
}

}
