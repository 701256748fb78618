//! Links and summaries of Markdown documents.
//!
//! The library finds the link destinations of a Markdown document, byte for
//! byte, and rewrites them by a policy of the caller's choosing while it
//! leaves every other byte of the document alone: [`links`] and
//! [`md_utils`] locate the destinations, [`rewrite`] splices, [`rules`]
//! holds the policy that is a table of regular expressions, and [`mdmove`]
//! the one that keeps links pointing at files that move. [`mdsummary`]
//! turns a directory of Markdown files into a sorted tree of titled nodes
//! and writes it out as a nested list; [`headings`] finds the titles.
//! [`regexreplace`], [`replace`] and [`mathml`] are the cores of three
//! preprocessors for mdbook.
//!
//! Offsets count the bytes of the UTF-8 encoding of a text. Paths are texts
//! in which `/` separates names.

pub mod config;
pub mod headings;
pub mod links;
pub mod mathml;
pub mod md_utils;
pub mod mdmove;
pub mod mdsummary;
pub mod paths;
pub mod regexreplace;
pub mod replace;
pub mod rewrite;
pub mod rules;
pub mod spans;
pub mod text;
