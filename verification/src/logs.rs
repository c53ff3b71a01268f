//! Summaries of newline-delimited JSON logs: which lines are skipped, how
//! entries are counted by level, which entries a level filter shows, and the
//! table and summary that are printed.
use vstd::prelude::*;
use vstd::string::{StringExecFns, StrSliceExecFns};
use crate::text::{pad_right, pad_right_chars, trim, trim_chars, decimal_chars, with_decimal};

verus! {

/// One log line: its timestamp, level and message.
#[derive(Debug, Clone, Copy, PartialEq, Eq)]
pub struct LogEntry<'a> {
    pub timestamp: &'a str,
    pub level: &'a str,
    pub message: &'a str,
}

/// What `str::to_uppercase` gives for a text.
pub uninterp spec fn uppercase(s: Seq<char>) -> Seq<char>;

/// `str::to_uppercase`: the text with every character mapped to its
/// uppercase form under Unicode's case mapping.
#[verifier::external_body]
fn to_uppercase(s: &str) -> (r: String)
    ensures
        r@ == uppercase(s@),
{
    s.to_uppercase()
}

/// An ASCII letter in lowercase; every other character as it is.
pub open spec fn ascii_lower(c: char) -> char {
    if 'A' <= c <= 'Z' { ((c as u32) + 32) as char } else { c }
}

/// Whether two texts are equal when ASCII letters are compared without case.
pub open spec fn eq_ignore_ascii_case_chars(a: Seq<char>, b: Seq<char>) -> bool {
    a.len() == b.len() && forall|i: int| 0 <= i < a.len() ==> ascii_lower(#[trigger] a[i]) == ascii_lower(b[i])
}

fn lower_ascii(c: char) -> (r: char)
    ensures
        r == ascii_lower(c),
{
    if 'A' <= c && c <= 'Z' {
        let u = (c as u32 + 32) as u8;
        u as char
    } else {
        c
    }
}

/// `a` and `b` are equal but for the case of ASCII letters.
pub fn eq_ignore_ascii_case(a: &str, b: &str) -> (r: bool)
    ensures
        r == eq_ignore_ascii_case_chars(a@, b@),
{
    let x = crate::statement::collect_chars(a);
    let y = crate::statement::collect_chars(b);
    if x.len() != y.len() {
        return false;
    }
    let mut i: usize = 0;
    while i < x.len()
        invariant
            i <= x@.len(),
            x@ == a@,
            y@ == b@,
            x@.len() == y@.len(),
            forall|k: int| 0 <= k < i ==> ascii_lower(#[trigger] x@[k]) == ascii_lower(y@[k]),
        decreases x.len() - i,
    {
        if lower_ascii(x[i]) != lower_ascii(y[i]) {
            return false;
        }
        i = i + 1;
    }
    true
}

/// Whether a line is empty or white space only, and so skipped.
pub fn is_blank(line: &str) -> (r: bool)
    ensures
        r == (trim_chars(line@).len() == 0),
{
    let t = trim(line);
    t.as_str().unicode_len() == 0
}

/// 0, 1 and 2 for the uppercase levels INFO, WARN and ERROR; 3 for any other.
pub open spec fn upper_bucket(upper: Seq<char>) -> int {
    if upper == "INFO"@ {
        0
    } else if upper == "WARN"@ {
        1
    } else if upper == "ERROR"@ {
        2
    } else {
        3
    }
}

/// The bucket of a level, compared in uppercase.
pub open spec fn level_bucket(level: Seq<char>) -> int {
    upper_bucket(uppercase(level))
}

/// Whether an entry of the given level is shown under the filter: every entry
/// without one, else the entries whose level equals it but for ASCII case.
pub open spec fn level_selected(level: Seq<char>, filter: Option<Seq<char>>) -> bool {
    match filter {
        Some(f) => eq_ignore_ascii_case_chars(level, f),
        None => true,
    }
}

/// A table row: timestamp padded to 25 characters, level padded to 7, message.
pub open spec fn row_chars(timestamp: Seq<char>, level: Seq<char>, message: Seq<char>) -> Seq<char> {
    pad_right_chars(timestamp, 25) + " | "@ + pad_right_chars(level, 7) + " | "@ + message
}

/// A table row, as the header and every shown entry are printed.
pub fn table_row(timestamp: &str, level: &str, message: &str) -> (r: String)
    ensures
        r@ == row_chars(timestamp@, level@, message@),
{
    let mut r = pad_right(timestamp, 25);
    r.append(" | ");
    let l = pad_right(level, 7);
    r.append(l.as_str());
    r.append(" | ");
    r.append(message);
    r
}

pub open spec fn option_view(filter: Option<&str>) -> Option<Seq<char>> {
    match filter {
        Some(f) => Some(f@),
        None => None,
    }
}

/// How many entries of each level have been seen.
#[derive(Debug, Clone, Copy, PartialEq, Eq)]
pub struct LevelCounts {
    pub info: u64,
    pub warn: u64,
    pub error: u64,
}

/// The summary printed after the table.
pub open spec fn summary_chars(info: u64, warn: u64, error: u64) -> Seq<char> {
    "\nSummary:\nINFO:  "@ + decimal_chars(info as nat) + "\nWARN:  "@ + decimal_chars(warn as nat) + "\nERROR: "@
        + decimal_chars(error as nat)
}

impl LevelCounts {
    pub fn new() -> (c: LevelCounts)
        ensures
            c.info == 0 && c.warn == 0 && c.error == 0,
    {
        LevelCounts { info: 0, warn: 0, error: 0 }
    }

    /// Counts one entry whose level, in uppercase, is `upper`.
    pub fn count_level(&mut self, upper: &str)
        requires
            old(self).info < u64::MAX,
            old(self).warn < u64::MAX,
            old(self).error < u64::MAX,
        ensures
            final(self).info == old(self).info + (if upper_bucket(upper@) == 0 { 1int } else { 0int }),
            final(self).warn == old(self).warn + (if upper_bucket(upper@) == 1 { 1int } else { 0int }),
            final(self).error == old(self).error + (if upper_bucket(upper@) == 2 { 1int } else { 0int }),
    {
        if crate::task_queue::str_eq(upper, "INFO") {
            self.info = self.info + 1;
        } else if crate::task_queue::str_eq(upper, "WARN") {
            self.warn = self.warn + 1;
        } else if crate::task_queue::str_eq(upper, "ERROR") {
            self.error = self.error + 1;
        }
    }

    /// Counts an entry by its level, whatever the filter, and gives the row to
    /// print when the filter shows the entry.
    pub fn record(&mut self, entry: &LogEntry, filter: Option<&str>) -> (row: Option<String>)
        requires
            old(self).info < u64::MAX,
            old(self).warn < u64::MAX,
            old(self).error < u64::MAX,
        ensures
            final(self).info == old(self).info + (if level_bucket(entry.level@) == 0 { 1int } else { 0int }),
            final(self).warn == old(self).warn + (if level_bucket(entry.level@) == 1 { 1int } else { 0int }),
            final(self).error == old(self).error + (if level_bucket(entry.level@) == 2 { 1int } else { 0int }),
            match row {
                Some(r) => level_selected(entry.level@, option_view(filter)) && r@ == row_chars(
                    entry.timestamp@,
                    entry.level@,
                    entry.message@,
                ),
                None => !level_selected(entry.level@, option_view(filter)),
            },
    {
        let upper = to_uppercase(entry.level);
        self.count_level(upper.as_str());
        let shown = match filter {
            Some(f) => eq_ignore_ascii_case(entry.level, f),
            None => true,
        };
        if shown {
            Some(table_row(entry.timestamp, entry.level, entry.message))
        } else {
            None
        }
    }

    /// The summary: a blank line, `Summary:`, then the INFO, WARN and ERROR counts.
    pub fn summary(&self) -> (s: String)
        ensures
            s@ == summary_chars(self.info, self.warn, self.error),
    {
        let mut s = with_decimal("\nSummary:\nINFO:  ", self.info);
        let w = with_decimal("\nWARN:  ", self.warn);
        s.append(w.as_str());
        let e = with_decimal("\nERROR: ", self.error);
        s.append(e.as_str());
        s
    }
}

} // verus!
