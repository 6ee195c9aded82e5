//! Ranked-choice voting over a shared catalog of items.
//!
//! Voters rank the open items of a catalog. The winner is found by
//! instant-runoff counting, and the runner-up by counting again with the
//! winner struck from every ballot.
//!
//! - [`tally`] defines the count, [`engine`] carries it out, and [`laws`] holds
//!   what is true of every count.
//! - [`schema`] has the records, [`rows`] the ballot entries as a sequence, and
//!   [`store`] keeps catalog, users and ballots together; [`layout`] tells
//!   whether tables from outside can be held, and [`replace`] what handing in a
//!   ballot does.
//! - [`chunks`] cuts the entries into ballots, [`election`] runs the two
//!   stages, [`listing`] shows a voter the items, and [`exclusion`] relates the
//!   ballots that are counted to those on file.

pub mod chunks;
pub mod election;
pub mod engine;
pub mod exclusion;
pub mod laws;
pub mod layout;
pub mod listing;
pub mod replace;
pub mod rows;
pub mod schema;
pub mod store;
pub mod tally;
