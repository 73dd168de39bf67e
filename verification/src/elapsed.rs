//! Breakdown of an elapsed duration into the units that get printed.
//!
//! Each unit below the largest one that occurred is reduced modulo its
//! range; a unit whose larger neighbours are all zero carries the whole
//! total instead, so the caller can print it alone.

use vstd::prelude::*;

verus! {

/// Hours, minutes, seconds and milliseconds of an elapsed time, as the
/// run summary prints them.
pub fn duration_components(total_millis: u64) -> (r: (u64, u64, u64, u64))
    ensures
        r.0 == total_millis / 3600000,
        r.1 == if r.0 > 0 {
            (total_millis / 60000) % 60
        } else {
            total_millis / 60000
        },
        r.2 == if r.1 > 0 {
            (total_millis / 1000) % 60
        } else {
            total_millis / 1000
        },
        r.3 == if r.2 > 0 {
            total_millis % 1000
        } else {
            total_millis
        },
{
    let hours = total_millis / 3600000;
    let minutes = if hours > 0 {
        (total_millis / 60000) % 60
    } else {
        total_millis / 60000
    };
    let seconds = if minutes > 0 {
        (total_millis / 1000) % 60
    } else {
        total_millis / 1000
    };
    let millis = if seconds > 0 {
        total_millis % 1000
    } else {
        total_millis
    };
    (hours, minutes, seconds, millis)
}

} // verus!
