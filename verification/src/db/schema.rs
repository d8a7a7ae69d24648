//! The schema of the tables in storage, and how it is brought up to date.

use vstd::prelude::*;
use crate::text::{decimal, lemma_decimal_round_trip, parse_i64, parsed_int};

verus! {

/// The version of the schema that the tables have here.
pub const SCHEMA_VERSION: i64 = 1;

/// What has to be done to the tables in storage.
#[derive(Debug, Clone, Copy, PartialEq, Eq, Structural)]
pub struct Migration {
    /// The version that is there; 0 where there is none.
    pub from: i64,
    /// Whether the tables have to be made.
    pub create: bool,
    /// Whether the version has to be written.
    pub record: bool,
}

/// The version that storage says it has: 0 where it says nothing, or nothing that
/// is a number.
pub open spec fn stored_version(stored: Option<Seq<char>>) -> int {
    match stored {
        None => 0,
        Some(s) => match parsed_int(s, i64::MIN as int, i64::MAX as int) {
            Some(v) => v,
            None => 0,
        },
    }
}

/// What has to be done, by the version that storage says it has.
pub fn migrate(stored: Option<&str>) -> (r: Migration)
    ensures
        r.from == stored_version(
            match stored {
                Some(s) => Some(s@),
                None => None,
            },
        ),
        r.create == (r.from < 1),
        r.record == (r.from != SCHEMA_VERSION),
{
    let from: i64 = match stored {
        None => 0,
        Some(s) => match parse_i64(s) {
            Some(v) => v,
            None => 0,
        },
    };
    Migration { from, create: from < 1, record: from != SCHEMA_VERSION }
}

/// A version that is written is the one that is read, so that storage that was
/// brought up to date is left as it is.
pub proof fn law_written_version_is_read(version: i64)
    ensures
        stored_version(Some(decimal(version as int))) == version,
{
    lemma_decimal_round_trip(version as int, i64::MIN as int, i64::MAX as int);
}

} // verus!
