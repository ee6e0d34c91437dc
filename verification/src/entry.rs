//! The units of searchable content: the candidate line that the crawler
//! pushes into the matcher, and the result entry handed back to callers.

use vstd::prelude::*;

verus! {

/// How a result entry should be previewed by the caller.
#[derive(Clone, Copy, Debug, PartialEq, Eq, Structural)]
pub enum PreviewType {
    Basic,
    Files,
}

/// One unit of searchable content: a normalized, non-empty line of a file.
#[derive(Debug, Clone)]
pub struct CandidateLine {
    pub path: String,
    pub line: String,
    pub line_number: usize,
}

impl CandidateLine {
    /// A candidate holds a non-empty line and a 1-based line number.
    pub open spec fn wf(&self) -> bool {
        self.line@.len() > 0 && self.line_number >= 1
    }

    pub fn new(path: String, line: String, line_number: usize) -> (r: CandidateLine)
        requires
            line@.len() > 0,
            line_number >= 1,
        ensures
            r.path == path,
            r.line == line,
            r.line_number == line_number,
            r.wf(),
    {
        CandidateLine { path, line, line_number }
    }
}

/// A ranked result produced on demand from a matched candidate; never
/// persisted, always derived fresh from the matcher's current state.
#[derive(Debug, Clone)]
pub struct Entry {
    pub name: String,
    pub display_name: Option<String>,
    pub value: Option<String>,
    pub value_match_ranges: Option<Vec<(u32, u32)>>,
    pub icon: Option<char>,
    pub line_number: Option<usize>,
    pub preview_type: PreviewType,
}

impl Entry {
    pub fn new(name: String, preview_type: PreviewType) -> (r: Entry)
        ensures
            r.name == name,
            r.display_name is None,
            r.value is None,
            r.value_match_ranges is None,
            r.icon is None,
            r.line_number is None,
            r.preview_type == preview_type,
    {
        Entry {
            name,
            display_name: None,
            value: None,
            value_match_ranges: None,
            icon: None,
            line_number: None,
            preview_type,
        }
    }

    pub fn with_display_name(self, display_name: String) -> (r: Entry)
        ensures
            r == (Entry { display_name: Some(display_name), ..self }),
    {
        Entry { display_name: Some(display_name), ..self }
    }

    pub fn with_value(self, value: String) -> (r: Entry)
        ensures
            r == (Entry { value: Some(value), ..self }),
    {
        Entry { value: Some(value), ..self }
    }

    pub fn with_value_match_ranges(self, ranges: Vec<(u32, u32)>) -> (r: Entry)
        ensures
            r == (Entry { value_match_ranges: Some(ranges), ..self }),
    {
        Entry { value_match_ranges: Some(ranges), ..self }
    }

    pub fn with_icon(self, icon: char) -> (r: Entry)
        ensures
            r == (Entry { icon: Some(icon), ..self }),
    {
        Entry { icon: Some(icon), ..self }
    }

    pub fn with_line_number(self, line_number: usize) -> (r: Entry)
        ensures
            r == (Entry { line_number: Some(line_number), ..self }),
    {
        Entry { line_number: Some(line_number), ..self }
    }

    /// The name shown to the user: the display name when one was set, the
    /// raw name otherwise.
    pub open spec fn shown_name(&self) -> Seq<char> {
        match self.display_name {
            Some(d) => d@,
            None => self.name@,
        }
    }

    pub fn display_name(&self) -> (r: &String)
        ensures
            r@ == self.shown_name(),
    {
        match &self.display_name {
            Some(d) => d,
            None => &self.name,
        }
    }
}

/// Relies on `devicons::FileIcon::from` for the icon hint.  Its result is
/// not pinned: for a name its tables do not know, the library asks the file
/// system whether the path is a directory, so the glyph may depend on what
/// is on disk at the time of the call.
#[verifier::external_body]
pub(crate) fn file_icon(path: &str) -> (r: char) {
    devicons::FileIcon::from(path).icon
}

/// The character for one decimal digit.
pub open spec fn digit_char(d: nat) -> char {
    ((48 + d) as u8) as char
}

/// The decimal form of a number, most significant digit first.
pub open spec fn decimal_digits(n: nat) -> Seq<char>
    decreases n,
{
    if n < 10 {
        seq![digit_char(n)]
    } else {
        decimal_digits(n / 10).push(digit_char(n % 10))
    }
}

/// Relies on `usize`'s `Display` implementation: integers format in decimal
/// with no sign and no leading zeros.
#[verifier::external_body]
pub(crate) fn usize_to_string(n: usize) -> (r: String)
    ensures
        r@ == decimal_digits(n as nat),
{
    n.to_string()
}

} // verus!
