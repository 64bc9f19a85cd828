//! The states of a scrobble delivery row.
use vstd::prelude::*;

verus! {

pub const PENDING: i64 = 0;
pub const SENT: i64 = 1;
pub const DROPPED: i64 = 2;

} // verus!
