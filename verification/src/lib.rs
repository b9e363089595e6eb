//! Source coverage for Solidity projects: probes, hit maps, items and reports.
pub mod accounts;
pub mod anchors;
pub mod args;
pub mod artifacts;
pub mod ast;
pub mod attribution;
pub mod bytecode;
pub mod collect;
pub mod collector;
pub mod debug;
pub mod files;
pub mod filters;
pub mod hit_maps;
pub mod inspector;
pub mod instrumentation;
pub mod instrumented;
pub mod item_hits;
pub mod inventory;
pub mod items;
pub mod istanbul;
pub mod lcov;
pub mod numbering;
pub mod order;
pub mod paths;
pub mod placed;
pub mod positions;
pub mod probes;
pub mod reached;
pub mod replay;
pub mod report;
pub mod resolution;
pub mod runs;
pub mod summary;
pub mod sums;
pub mod table;
pub mod tag_table;
pub mod tags;
pub mod tally;
pub mod text;
pub mod tracefile;
pub mod version;
