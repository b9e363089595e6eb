//! Probes: the places of a source at which hits are counted.
use crate::version::Version;
use core::ops::Range;
use vstd::prelude::*;

verus! {

/// What a probe stands for.
#[derive(Debug)]
pub enum InstrumentedCoverageProbeKind {
    /// A statement is run.
    Statement,
    /// A path of a branch is taken.
    Branch { branch_id: u32, path_id: u32 },
    /// A requirement is about to be tested.
    RequirePre { branch_id: u32 },
    /// A requirement was met.
    RequirePost { branch_id: u32 },
    /// A function is entered.
    Function { name: String },
}

/// A probe: what it stands for and where it is.
#[derive(Debug)]
pub struct InstrumentedCoverageProbe {
    /// The compiler version of the source.
    pub version: Version,
    /// The path of the source.
    pub path: String,
    /// The contract around the probe.
    pub contract_name: String,
    /// The tag that the probe reports when it is passed.
    pub tag: [u8; 32],
    /// What the probe stands for.
    pub kind: InstrumentedCoverageProbeKind,
    /// The byte range in the source.
    pub bytes: Range<u32>,
    /// The line range in the source.
    pub lines: Range<u32>,
}

/// The probes of a compilation.
#[derive(Debug)]
pub struct InstrumentedCoverageMetadata {
    pub probes: Vec<InstrumentedCoverageProbe>,
}

/// What a probe stands for, with its texts as sequences of characters.
pub enum ProbeKindView {
    Statement,
    Branch { branch_id: u32, path_id: u32 },
    RequirePre { branch_id: u32 },
    RequirePost { branch_id: u32 },
    Function { name: Seq<char> },
}

/// A probe, with its texts as sequences of characters and its tag as a sequence of bytes.
pub struct ProbeView {
    pub version: Version,
    pub path: Seq<char>,
    pub contract_name: Seq<char>,
    pub tag: Seq<u8>,
    pub kind: ProbeKindView,
    pub bytes: (u32, u32),
    pub lines: (u32, u32),
}

impl View for InstrumentedCoverageProbeKind {
    type V = ProbeKindView;

    open spec fn view(&self) -> ProbeKindView {
        match *self {
            InstrumentedCoverageProbeKind::Statement => ProbeKindView::Statement,
            InstrumentedCoverageProbeKind::Branch { branch_id, path_id } => ProbeKindView::Branch {
                branch_id,
                path_id,
            },
            InstrumentedCoverageProbeKind::RequirePre { branch_id } => ProbeKindView::RequirePre { branch_id },
            InstrumentedCoverageProbeKind::RequirePost { branch_id } => ProbeKindView::RequirePost { branch_id },
            InstrumentedCoverageProbeKind::Function { name } => ProbeKindView::Function { name: name@ },
        }
    }
}

impl View for InstrumentedCoverageProbe {
    type V = ProbeView;

    open spec fn view(&self) -> ProbeView {
        ProbeView {
            version: self.version,
            path: self.path@,
            contract_name: self.contract_name@,
            tag: self.tag@,
            kind: self.kind@,
            bytes: (self.bytes.start, self.bytes.end),
            lines: (self.lines.start, self.lines.end),
        }
    }
}

/// The probes, each with its texts as sequences of characters.
pub open spec fn probe_views(probes: Seq<InstrumentedCoverageProbe>) -> Seq<ProbeView> {
    probes.map_values(|probe: InstrumentedCoverageProbe| probe@)
}

impl Clone for InstrumentedCoverageProbeKind {
    fn clone(&self) -> (copy: Self)
        ensures
            copy == *self,
    {
        match self {
            InstrumentedCoverageProbeKind::Statement => InstrumentedCoverageProbeKind::Statement,
            InstrumentedCoverageProbeKind::Branch { branch_id, path_id } => InstrumentedCoverageProbeKind::Branch {
                branch_id: *branch_id,
                path_id: *path_id,
            },
            InstrumentedCoverageProbeKind::RequirePre { branch_id } => InstrumentedCoverageProbeKind::RequirePre {
                branch_id: *branch_id,
            },
            InstrumentedCoverageProbeKind::RequirePost { branch_id } => InstrumentedCoverageProbeKind::RequirePost {
                branch_id: *branch_id,
            },
            InstrumentedCoverageProbeKind::Function { name } => InstrumentedCoverageProbeKind::Function {
                name: name.clone(),
            },
        }
    }
}

impl Clone for InstrumentedCoverageProbe {
    fn clone(&self) -> (copy: Self)
        ensures
            copy == *self,
    {
        InstrumentedCoverageProbe {
            version: self.version.clone(),
            path: self.path.clone(),
            contract_name: self.contract_name.clone(),
            tag: self.tag,
            kind: self.kind.clone(),
            bytes: self.bytes.start..self.bytes.end,
            lines: self.lines.start..self.lines.end,
        }
    }
}

impl InstrumentedCoverageMetadata {
    /// No probes.
    pub fn new() -> (metadata: Self)
        ensures
            metadata.probes@ == Seq::<InstrumentedCoverageProbe>::empty(),
    {
        InstrumentedCoverageMetadata { probes: Vec::new() }
    }
}

/// A copy of the probes.
pub fn read_metadata(metadata: &InstrumentedCoverageMetadata) -> (copy: InstrumentedCoverageMetadata)
    ensures
        copy.probes@ == metadata.probes@,
{
    let mut probes: Vec<InstrumentedCoverageProbe> = Vec::new();
    let mut n: usize = 0;
    while n < metadata.probes.len()
        invariant
            n <= metadata.probes@.len(),
            probes@ == metadata.probes@.take(n as int),
        decreases metadata.probes@.len() - n,
    {
        probes.push(metadata.probes[n].clone());
        assert(probes@ =~= metadata.probes@.take(n + 1));
        n += 1;
    }
    assert(probes@ =~= metadata.probes@);
    InstrumentedCoverageMetadata { probes }
}

}
