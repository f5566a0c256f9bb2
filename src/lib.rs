//! A closed ring of small lookup-table-driven shift-register cells that
//! advances in synchronous ticks.

pub mod cell;
pub mod ring;
pub mod hex;
