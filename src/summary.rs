//! The whole computation: from the input bytes to the output line.

use vstd::prelude::*;
use crate::aggregate::aggregate;
use crate::records::{FormatError, range_table};
use crate::report::{render_stats, is_report_of, keys_text};
use crate::stats::MAX_COUNT;

verus! {

/// The output line of `buf`, its records aggregated over `n` ranges: fails with
/// the error of the first malformed record, or else when a key is not UTF-8 text.
pub fn summarize(buf: &[u8], n: usize) -> (r: Result<Vec<u8>, FormatError>)
    requires
        n >= 1,
        buf@.len() <= MAX_COUNT,
    ensures
        range_table(buf@, 0, buf@.len() as int) matches Err(e) ==> r == Err::<Vec<u8>, FormatError>(e),
        range_table(buf@, 0, buf@.len() as int) matches Ok(m) ==> (r is Ok <==> keys_text(m)),
        range_table(buf@, 0, buf@.len() as int) is Ok ==> (r matches Err(e) ==> e
            == FormatError::BadKeyEncoding),
        range_table(buf@, 0, buf@.len() as int) matches Ok(m) ==> (r matches Ok(out) ==> is_report_of(out@, m)),
{
    match aggregate(buf, n) {
        Err(e) => Err(e),
        Ok(table) => {
            render_stats(table)
        },
    }
}

} // verus!
