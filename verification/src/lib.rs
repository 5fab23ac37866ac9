//! The decisions of the Lockbook command line: what its commands on files ask and report,
//! and how its semantic search chunks, indexes, batches, ranks and shows documents.
//!
//! A search goes through the modules in this order. [`models`] says which model files are
//! brought in. [`scan`] chooses the documents, and [`index`] tells which of them are new or
//! changed. [`sections`], [`chunks`] and [`records`] cut a document into the records that
//! are embedded, and [`job`] takes it from there into the index: [`encode`] turns texts
//! into token arrays, and [`embed`] runs through them in batches. [`rank`] picks the hits,
//! and [`display`] shows them. [`commands`] holds what the commands on files decide,
//! [`tokenizer`], [`charsmap`] and [`pattern`] whether a tokenizer can be asked, and
//! [`text`] what all of them share.
//!
//! Files, the network, the models and floating-point numbers are the caller's: components
//! of vectors are of a type that nothing here looks into, and scores are passed as bits.
use vstd::prelude::*;

pub mod charsmap;
pub mod chunks;
pub mod commands;
pub mod display;
pub mod embed;
pub mod encode;
pub mod index;
pub mod job;
pub mod models;
pub mod pattern;
pub mod rank;
pub mod records;
pub mod scan;
pub mod sections;
pub mod text;
pub mod tokenizer;

verus! {

} // verus!
