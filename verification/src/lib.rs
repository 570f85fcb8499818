//! A relational kernel over chunked columnar tables.
//!
//! A table is a list of fields over a list of chunks; a chunk is a tuple of
//! typed columns of one length. On these the library builds hash indexes over
//! key columns and, from the indexes, grouping, upsert, delete and join, and it
//! lays a grouped table out as a partitioned dataset. The functions are
//! verified against contracts over the rows of the tables they take and give;
//! the calls into `arrow2` and `rayon` stand behind contracts that are
//! trusted, in [`arrow`] and [`par`].
//!
//! * [`datatypes`], [`column`], [`chunks`], [`table`]: cells, columns, chunks
//!   and tables, with gather by index, slicing, `head` and `append`.
//! * [`hash_index`], [`last_index`], [`workers`]: indexes from keys to
//!   positions, built in one pass or over stretches side by side.
//! * [`groupby`], [`keyed`], [`parts`]: grouping by one or more key columns,
//!   within a chunk and over a table.
//! * [`keys`], [`merge`], [`join`], [`ops`]: key columns of tables, and
//!   upsert, delete and join by key.
//! * [`composite`], [`filter`], [`arrow`]: composite keys and filter
//!   predicates, computed by the numeric kernels of `arrow2`.
//! * [`dataset`], [`labels`], [`paths`]: datasets, partition paths, and
//!   reading partition coordinates back off paths.
//! * [`laws`]: what holds of these operations on every table.
//! * [`par`]: the fan-out on the thread pool of `rayon`.
//! * [`factory`]: made-up tables for trying things out.

pub mod arrow;
pub mod chunks;
pub mod column;
pub mod composite;
pub mod dataset;
pub mod datatypes;
pub mod factory;
pub mod filter;
pub mod groupby;
pub mod hash_index;
pub mod join;
pub mod keyed;
pub mod keys;
pub mod labels;
pub mod last_index;
pub mod laws;
pub mod merge;
pub mod ops;
pub mod par;
pub mod parts;
pub mod paths;
pub mod table;
pub mod workers;
