//! Joins of two delimited-text datasets on chosen key columns: inner, left
//! outer, right outer, full outer and cross.
//!
//! A dataset is a byte buffer. One side of a join is scanned once into a
//! [`index::ValueIndex`], which maps each key to the ordinals of the rows that
//! carry it and each ordinal to the byte offset of its row; the other side is
//! read row by row, and the rows it matches are read again at their offsets.
//!
//! - [`relation`] defines the joins as relations between lists of rows, and
//!   [`laws`] proves what holds of them.
//! - [`join`] holds the engine, [`index`] and [`keys`] the value index.
//! - [`reader`] reads records from bytes, [`columns`] and [`selection`]
//!   resolve and check the key columns, [`row`] holds the rows themselves.

pub mod columns;
pub mod error;
pub mod index;
pub mod join;
pub mod keys;
pub mod laws;
pub mod reader;
pub mod relation;
pub mod row;
pub mod selection;
