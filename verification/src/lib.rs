//! Ockham: pruning creatures without losing score.
//!
//! A creature is a small network of neurons and synapses. A run proposes cuts
//! of its hidden neurons, screens them on samples of a corpus, scores the
//! survivors on the whole of it, alone and in combination, and keeps a cut only
//! if the score improves. What runs a scorer, reads a corpus or rewrites a
//! creature stands outside; what is proposed, in which order, what counts as a
//! win, when a run stops and what it reports is decided here. Numbers measured
//! outside travel through this crate as [`measure::Measure`] values.
#![allow(unused_imports)]

pub mod measure;
pub mod text;
pub mod list;
pub mod sort;

pub mod creature;
pub mod components;
pub mod sensitivity;
pub mod topology;
pub mod neighbourhood;
pub mod ordering;
pub mod model;

pub mod blocked;
pub mod sweep;
pub mod prune;
pub mod scorer;
pub mod screening;
pub mod promote;
pub mod judge;
pub mod cohort;

pub mod cost;
pub mod run_loop;
pub mod run;
pub mod ockham_loop;
pub mod filing;
pub mod verdict;
pub mod reentry;
pub mod report;
pub mod accept;
