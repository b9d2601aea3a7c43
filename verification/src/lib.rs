//! Thread-to-CPU binding for Android apps: the rules that say where each
//! thread runs, the process cache kept from kernel events or `/proc` scans,
//! and the texts the daemon reads and writes, all with verified contracts.
pub mod bind;
pub mod common;
pub mod config;
pub mod cpu;
pub mod cpulist;
pub mod cpuset;
pub mod daemon;
pub mod events;
pub mod fnmatch;
pub mod inotify;
pub mod logline;
pub mod proccache;
pub mod procfs;
pub mod procsync;
pub mod rule_match;
pub mod text;
