//! The debug log's line format. Writing the file (and reading the clock)
//! is the binary's business.

use vstd::prelude::*;
use crate::text::push_char;

verus! {

/// At most the first three characters of `stamp` (a precision of 3 on a
/// string argument keeps that many).
pub open spec fn stamp_prefix(stamp: Seq<char>) -> Seq<char> {
    if stamp.len() <= 3 {
        stamp
    } else {
        stamp.take(3)
    }
}

/// One log line: `[` the stamp cut to three characters `] msg` and a newline.
/// The cut is deliberate: the line keeps the format the log has always had,
/// a precision of 3 applied to the stamp as text, so a stamp such as
/// `12.345` is written `[12.]`.
pub open spec fn log_line_text(stamp: Seq<char>, msg: Seq<char>) -> Seq<char> {
    seq!['['] + stamp_prefix(stamp) + seq![']', ' '] + msg + seq!['\n']
}

/// The line written to the debug log for `msg` at time `stamp`.
pub fn log_line(stamp: &str, msg: &str) -> (line: String)
    ensures
        line@ == log_line_text(stamp@, msg@),
{
    let mut line = String::new();
    push_char(&mut line, '[');
    let n = stamp.unicode_len();
    let kept = if n <= 3 {
        stamp
    } else {
        stamp.substring_char(0, 3)
    };
    line.append(kept);
    push_char(&mut line, ']');
    push_char(&mut line, ' ');
    line.append(msg);
    push_char(&mut line, '\n');
    assert(line@ =~= log_line_text(stamp@, msg@));
    line
}

} // verus!
