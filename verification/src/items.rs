//! Coverage items: the lines, statements, branches and functions whose hits are reported.
use crate::order::Keyed;
use core::ops::Range;
use vstd::prelude::*;

verus! {

/// What a coverage item covers.
#[derive(Debug)]
pub enum CoverageItemKind {
    /// A line.
    Line,
    /// A statement.
    Statement,
    /// One path of a branch.
    Branch { branch_id: u32, path_id: u32, is_first_opcode: bool },
    /// A function.
    Function { name: String },
}

/// A place in a source.
#[derive(Debug)]
pub struct SourceLocation {
    /// The source's id in its build.
    pub source_id: usize,
    /// The contract around the place.
    pub contract_name: String,
    /// The byte range.
    pub bytes: Range<u32>,
    /// The line range, with the first line as line one.
    pub lines: Range<u32>,
}

/// An item of a source, and how often it was hit.
#[derive(Debug)]
pub struct CoverageItem {
    pub kind: CoverageItemKind,
    pub loc: SourceLocation,
    pub hits: u32,
}

impl Clone for CoverageItemKind {
    fn clone(&self) -> (copy: Self)
        ensures
            copy == *self,
    {
        match self {
            CoverageItemKind::Line => CoverageItemKind::Line,
            CoverageItemKind::Statement => CoverageItemKind::Statement,
            CoverageItemKind::Branch { branch_id, path_id, is_first_opcode } => CoverageItemKind::Branch {
                branch_id: *branch_id,
                path_id: *path_id,
                is_first_opcode: *is_first_opcode,
            },
            CoverageItemKind::Function { name } => CoverageItemKind::Function { name: name.clone() },
        }
    }
}

impl Clone for SourceLocation {
    fn clone(&self) -> (copy: Self)
        ensures
            copy == *self,
    {
        SourceLocation {
            source_id: self.source_id,
            contract_name: self.contract_name.clone(),
            bytes: self.bytes.start..self.bytes.end,
            lines: self.lines.start..self.lines.end,
        }
    }
}

impl Clone for CoverageItem {
    fn clone(&self) -> (copy: Self)
        ensures
            copy == *self,
    {
        CoverageItem { kind: self.kind.clone(), loc: self.loc.clone(), hits: self.hits }
    }
}

/// The place of a kind among the items of one line range.
pub open spec fn kind_rank(kind: CoverageItemKind) -> u64 {
    match kind {
        CoverageItemKind::Line => 0,
        CoverageItemKind::Statement => 1,
        CoverageItemKind::Branch { .. } => 2,
        CoverageItemKind::Function { .. } => 3,
    }
}

impl Keyed for CoverageItem {
    /// Items are ordered by source, lines, kind and bytes.
    open spec fn sort_key(&self) -> Seq<u64> {
        seq![
            self.loc.source_id as u64,
            self.loc.lines.start as u64,
            self.loc.lines.end as u64,
            kind_rank(self.kind),
            self.loc.bytes.start as u64,
            self.loc.bytes.end as u64,
        ]
    }

    fn make_key(&self) -> (key: Vec<u64>) {
        let rank: u64 = match &self.kind {
            CoverageItemKind::Line => 0,
            CoverageItemKind::Statement => 1,
            CoverageItemKind::Branch { .. } => 2,
            CoverageItemKind::Function { .. } => 3,
        };
        let key = vec![
            self.loc.source_id as u64,
            self.loc.lines.start as u64,
            self.loc.lines.end as u64,
            rank,
            self.loc.bytes.start as u64,
            self.loc.bytes.end as u64,
        ];
        assert(key@ =~= self.sort_key());
        key
    }
}

/// What tells the items of one source apart.
#[derive(Clone, Copy, Debug, PartialEq, Eq, Structural)]
pub enum ItemSlot {
    /// The line item of a line range.
    Line { start: u32, end: u32 },
    /// The statement item of a byte range.
    Statement { start: u32, end: u32 },
    /// The item of a path of a branch.
    Branch { branch_id: u32, path_id: u32 },
    /// The function item of a byte range.
    Function { start: u32, end: u32 },
}

/// The slot of an item.
pub open spec fn slot_of(item: CoverageItem) -> ItemSlot {
    match item.kind {
        CoverageItemKind::Line => ItemSlot::Line { start: item.loc.lines.start, end: item.loc.lines.end },
        CoverageItemKind::Statement => ItemSlot::Statement { start: item.loc.bytes.start, end: item.loc.bytes.end },
        CoverageItemKind::Branch { branch_id, path_id, .. } => ItemSlot::Branch { branch_id, path_id },
        CoverageItemKind::Function { .. } => ItemSlot::Function {
            start: item.loc.bytes.start,
            end: item.loc.bytes.end,
        },
    }
}

impl CoverageItem {
    /// The slot of the item.
    pub fn slot(&self) -> (slot: ItemSlot)
        ensures
            slot == slot_of(*self),
    {
        match &self.kind {
            CoverageItemKind::Line => ItemSlot::Line { start: self.loc.lines.start, end: self.loc.lines.end },
            CoverageItemKind::Statement => ItemSlot::Statement {
                start: self.loc.bytes.start,
                end: self.loc.bytes.end,
            },
            CoverageItemKind::Branch { branch_id, path_id, .. } => ItemSlot::Branch {
                branch_id: *branch_id,
                path_id: *path_id,
            },
            CoverageItemKind::Function { .. } => ItemSlot::Function {
                start: self.loc.bytes.start,
                end: self.loc.bytes.end,
            },
        }
    }
}

}
