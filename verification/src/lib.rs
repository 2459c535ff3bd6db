//! Merging two uploaded line sequences — a command transcript and an output
//! transcript — into one, either by plain concatenation or by positionally
//! pairing each non-`SET` command with the next unconsumed output line.
//!
//! The crate is organised after the two components of the pipeline:
//! [`reader`] splits a raw byte buffer into its text lines, and [`merge`]
//! interleaves two such line sequences. [`interleaved`] chains the two, and
//! [`upload`] carries the per-part decisions the ingestion adapter takes
//! while it collects a request.

pub mod merge;
pub mod reader;
pub mod upload;

use vstd::prelude::*;

verus! {

use crate::merge::interleave;
use crate::merge::merged_lines;
use crate::reader::ReadError;
use crate::reader::decoded_lines;
use crate::reader::lines_decodable;
use crate::reader::read_lines;

/// Splits both buffers into their text lines and merges the two sequences
/// according to `append_mode`; fails exactly when either buffer holds a
/// line that is not valid UTF-8 text.
pub fn interleaved(commands: &Vec<u8>, output: &Vec<u8>, append_mode: bool) -> (r: Result<
    Vec<String>,
    ReadError,
>)
    ensures
        r is Ok <==> lines_decodable(commands@) && lines_decodable(output@),
        r matches Ok(merged) ==> merged.deep_view() == merged_lines(
            decoded_lines(commands@),
            decoded_lines(output@),
            append_mode,
        ),
{
    let command_lines = match read_lines(commands) {
        Ok(lines) => lines,
        Err(e) => {
            return Err(e);
        },
    };
    let output_lines = match read_lines(output) {
        Ok(lines) => lines,
        Err(e) => {
            return Err(e);
        },
    };
    Ok(interleave(&command_lines, &output_lines, append_mode))
}

} // verus!
