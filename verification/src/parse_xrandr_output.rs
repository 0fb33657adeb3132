//! Convenience entry point for parsing the status report.

use vstd::prelude::*;

use crate::xrandr_output::spec_parse_report;
use crate::xrandr_output::MalformedReport;
use crate::xrandr_output::XRandrOutput;

verus! {

/// Parse the whole status report; `MalformedReport` wherever the text
/// leaves the grammar, with no partial result.
pub fn parse(xrandr_output: &[u8]) -> (r: Result<XRandrOutput, MalformedReport>)
    ensures
        match spec_parse_report(xrandr_output@) {
            Some(ds) => r is Ok && r->Ok_0@ == ds,
            None => r is Err,
        },
{
    XRandrOutput::parse(xrandr_output)
}

} // verus!
