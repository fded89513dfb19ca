//! System-wide figures read from command output.

use crate::text::{chars_of, line_ranges, split_lines};
use vstd::prelude::*;

verus! {

/// The number of running services in the output of `systemctl list-units
/// --type=service --state=running --no-pager --no-legend`: one per line,
/// cut to 32 bits as `as u32` cuts.
pub fn get_running_services(output: &str) -> (n: u32)
    ensures
        n == split_lines(output@).len() as u32,
{
    let cs = chars_of(output);
    let lines = line_ranges(&cs);
    lines.len() as u32
}

} // verus!
