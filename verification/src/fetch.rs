//! Interpreting a failed audio download.

use vstd::prelude::*;
use crate::text::{chars_of, find_chars, occurs_at, spec_lines, split_lines, string_of};

verus! {

/// `p` occurs somewhere in `s`.
pub open spec fn contains(s: Seq<char>, p: Seq<char>) -> bool {
    exists|i: int| occurs_at(s, p, i)
}

/// The error reported for a failed download: a missing MP3 when the tool's error
/// output mentions a 404 or a file that does not exist; otherwise `ffmpeg failed: `
/// with the last line of the error output (`unknown error` when there is none).
pub open spec fn ffmpeg_failure_of(stderr: Seq<char>) -> Seq<char> {
    if contains(stderr, "Server returned 404"@) || contains(stderr, "HTTP error 404"@) || contains(
        stderr,
        "does not exist"@,
    ) {
        "MP3 not found (404)"@
    } else {
        let lines = spec_lines(stderr);
        "ffmpeg failed: "@ + if lines.len() > 0 {
            lines.last()
        } else {
            "unknown error"@
        }
    }
}

fn contains_exec(s: &Vec<char>, p: &str) -> (r: bool)
    ensures
        r == contains(s@, p@),
{
    let pv = chars_of(p);
    match find_chars(s, &pv) {
        Some(_) => true,
        None => false,
    }
}

/// The error message for a download whose tool failed with the given error output.
pub fn ffmpeg_failure_message(stderr: &str) -> (r: String)
    ensures
        r@ == ffmpeg_failure_of(stderr@),
{
    let v = chars_of(stderr);
    if contains_exec(&v, "Server returned 404") || contains_exec(&v, "HTTP error 404")
        || contains_exec(&v, "does not exist") {
        return String::from_str("MP3 not found (404)");
    }
    let lines = split_lines(&v);
    let mut msg = String::from_str("ffmpeg failed: ");
    if lines.len() > 0 {
        let last = string_of(&lines[lines.len() - 1]);
        msg.append(last.as_str());
    } else {
        msg.append("unknown error");
    }
    msg
}

} // verus!
