//! Duplication detection that tells only of the duplication a change introduced.
//!
//! Two trees are scanned, a branch and its merge-base, and the findings of the first
//! are held against those of the second.
//!
//! # How the pieces fit
//!
//! - What is compared: [`lang`], [`languages`] and [`meanings`] say what syntax means,
//!   [`syntax`] parses, [`normalize`] reduces a tree to tokens, [`token`] gives token streams their
//!   identity, and [`extract`] pulls out the units.
//! - The detectors: [`scan`] compares units by [`similarity`] and groups them with
//!   [`unionfind`]; [`vocab`] compares whole files by the names they use; [`blocks`]
//!   finds repeated runs of tokens.
//! - What comes of it: a [`report`] holds the findings of a tree, [`delta`] says what one
//!   report has that another did not, and [`annotate`] puts that into words.
//! - The program: [`config`], [`walk`] and [`git`] decide what to make of files and of
//!   what `git` says, [`cli`] is the pipeline behind the commands, and [`run`] takes a
//!   command from one question to the next.
//! - Tools: [`ratio`] is exact scores, [`sort`] stable sorting, [`text`] and [`path`]
//!   texts and paths, [`names`] and [`keys`] sets of names and lookup by key.
//!
//! Nothing here reads a file, runs a process or prints: the program around the library
//! does, and hands over what it found.

pub mod annotate;
pub mod blocks;
pub mod cli;
pub mod config;
pub mod delta;
pub mod extract;
pub mod git;
pub mod keys;
pub mod lang;
pub mod languages;
pub mod meanings;
pub mod names;
pub mod normalize;
pub mod path;
pub mod ratio;
pub mod report;
pub mod run;
pub mod scan;
pub mod similarity;
pub mod sort;
pub mod syntax;
pub mod text;
pub mod token;
pub mod unionfind;
pub mod vocab;
pub mod walk;
