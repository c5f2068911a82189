//! Natural sort order for the names of enum variants, struct fields and match
//! arms: digit runs compare by value, text compares without regard to case
//! with a fixed tie-break, and names that start with underscores may stand
//! either first or last.
//!
//! [`atom`] splits a name into runs and orders two runs, [`compare`] orders
//! names and paths, and [`check`] decides whether a sequence of paths is in
//! order and, if it is not, which item is out of place and where it belongs.
//! [`pattern`] says by which path a match arm is ordered, [`format`] puts a
//! violation into words, and [`emit`] says where the words go.
//!
//! [`order`] holds the mathematics of three-way orders that the contracts
//! speak of, and [`number`] shows that runs of digits are ordered as the
//! numbers they stand for.

pub mod atom;
pub mod check;
pub mod compare;
pub mod emit;
pub mod format;
pub mod number;
pub mod order;
pub mod pattern;
