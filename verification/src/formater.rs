//! The text form of records.

use crate::perf_record::{record_text, PerfRecord};
use vstd::prelude::*;

verus! {

/// Renders a record as text: a header line with thread group id, CPU and
/// command, then each frame on a line of its own, indented by four blanks,
/// with its address in hexadecimal, its symbol, and its file in parentheses.
pub fn format(record: &PerfRecord) -> (res: String)
    ensures
        res@ == record_text(record@),
{
    record.to_string()
}

} // verus!
