//! DiskLoom: what a disk analyzer computes, apart from reading disks and drawing windows.

pub mod bench;
pub mod candidates;
pub mod command;
pub mod csv_export;
pub mod dashboard;
pub mod dates;
pub mod desktop;
pub mod elevation;
pub mod filter;
pub mod format;
pub mod graph;
pub mod inputs;
pub mod installer;
pub mod intern;
pub mod mft;
pub mod mft_reader;
pub mod mft_table;
pub mod native_app;
pub mod native_view;
pub mod ntfs_graph;
pub mod numbers;
pub mod paint;
pub mod ranking;
pub mod report;
pub mod scan;
pub mod scan_broker;
pub mod scanned;
pub mod scanner;
pub mod session;
pub mod shell;
pub mod size;
pub mod snapshot;
pub mod startup;
pub mod stats;
pub mod targets;
pub mod text;
pub mod totals;
pub mod tree;
pub mod tree_window;
pub mod treemap;
pub mod viewport;
pub mod visibility;
pub mod volume;
pub mod winpath;
mod aggregate;
mod le;
mod order;
mod select;
