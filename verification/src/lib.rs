//! Frame-aware CPU frequency scheduling for Android: the decisions of the scheduler, of
//! its frame sampler and of its critical-path analysis, free of I/O.
pub mod analyzer;
pub mod attach;
pub mod budget;
pub mod chain;
pub mod constraints;
pub mod control;
pub mod controller;
pub mod critical;
pub mod critical_laws;
pub mod dag;
pub mod drain;
pub mod event;
pub mod graph;
pub mod key;
pub mod looper;
pub mod pids;
pub mod policies;
pub mod probe;
pub mod score;
pub mod stats;
pub mod target;
pub mod text;
pub mod thermal;
pub mod usage;
pub mod walk;
pub mod worker;
