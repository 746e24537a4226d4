//! A position-dependent substitution cipher over the 62 alphanumeric
//! characters, keyed by printable ASCII.
//!
//! * [`alphabet`] fixes the order of the 62 characters and offers a cursor
//!   that hands them out one by one.
//! * [`strings`] holds the one fact about `String` that is taken on trust.
//! * [`table`] builds the two lookup tables, one per direction, and lays the
//!   forward one out as a grid of text.
//! * [`cipher`] applies the tables to whole strings and states the laws that
//!   tie the two directions together.
pub mod alphabet;
pub mod strings;
pub mod table;
pub mod cipher;
