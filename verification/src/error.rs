//! The errors this library reports.
use vstd::prelude::*;
use crate::text::{decimal, usize_to_string};

verus! {

/// `n` spaces.
pub open spec fn spaces(n: nat) -> Seq<char> {
    Seq::new(n, |_i: int| ' ')
}

/// The caret line under a source line: the caret right-aligned in a field as
/// wide as the 1-based column.
pub open spec fn caret(column: nat) -> Seq<char> {
    if column >= 1 { spaces((column - 1) as nat).push('^') } else { seq!['^'] }
}

/// `line N, column M: message`, plus the source line and a caret under the
/// column when the source line is known.
pub open spec fn located(line: nat, column: nat, message: Seq<char>, source: Option<Seq<char>>) -> Seq<char> {
    let head = "line "@ + decimal(line) + ", column "@ + decimal(column) + ": "@ + message;
    match source {
        Some(src) => head + "\n  "@ + src + "\n  "@ + caret(column),
        None => head,
    }
}

fn caret_string(column: usize) -> (r: String)
    ensures
        r@ == caret(column as nat),
{
    let mut s = String::new();
    let mut i: usize = 1;
    while i < column
        invariant
            1 <= i <= column || (column == 0 && i == 1),
            s@ == spaces((i - 1) as nat),
        decreases column - i,
    {
        crate::text::push_char(&mut s, ' ');
        i += 1;
        assert(s@ =~= spaces((i - 1) as nat));
    }
    crate::text::push_char(&mut s, '^');
    proof {
        if column == 0 {
            assert(s@ =~= seq!['^']);
        }
    }
    s
}

/// Format a located diagnostic. Parse errors and located deserialize errors
/// render identically, so a reader cannot tell which phase refused the file.
pub fn fmt_located(line: usize, column: usize, message: &str, source_line: Option<&str>) -> (r: String)
    ensures
        r@ == located(line as nat, column as nat, message@, match source_line {
            Some(s) => Some(s@),
            None => None,
        }),
{
    proof { broadcast use vstd::string::group_string_axioms; }
    let mut s = "line ".to_string();
    let l = usize_to_string(line);
    s.append(l.as_str());
    s.append(", column ");
    let c = usize_to_string(column);
    s.append(c.as_str());
    s.append(": ");
    s.append(message);
    match source_line {
        Some(src) => {
            s.append("\n  ");
            s.append(src);
            s.append("\n  ");
            let k = caret_string(column);
            s.append(k.as_str());
        }
        None => {}
    }
    s
}

/// A parse error with source location and, when available, the source line.
#[derive(Clone, Debug, PartialEq, Eq)]
pub struct ParseError {
    line: usize,
    column: usize,
    message: String,
    source_line: Option<String>,
}

impl ParseError {
    pub closed spec fn line_spec(self) -> nat {
        self.line as nat
    }

    pub closed spec fn column_spec(self) -> nat {
        self.column as nat
    }

    pub closed spec fn message_spec(self) -> Seq<char> {
        self.message@
    }

    /// The error names a place in the text: a line and a column, both
    /// counted from 1, never a zero standing for "nowhere".
    pub open spec fn located(self) -> bool {
        self.line_spec() >= 1 && self.column_spec() >= 1
    }

    pub closed spec fn source_spec(self) -> Option<Seq<char>> {
        match self.source_line {
            Some(s) => Some(s@),
            None => None,
        }
    }

    /// A new error at a 1-based line and column.
    pub fn new(line: usize, column: usize, message: String, source_line: Option<String>) -> (r: ParseError)
        ensures
            r.line_spec() == line,
            r.column_spec() == column,
            r.message_spec() == message@,
            r.source_spec() == (match source_line { Some(s) => Some(s@), None => None::<Seq<char>> }),
    {
        ParseError { line, column, message, source_line }
    }

    /// 1-based line number where the error occurred.
    pub fn line(&self) -> (r: usize)
        ensures
            r == self.line_spec(),
    {
        self.line
    }

    /// 1-based column number where the error occurred.
    pub fn column(&self) -> (r: usize)
        ensures
            r == self.column_spec(),
    {
        self.column
    }

    /// Human-readable error message.
    pub fn message(&self) -> (r: &str)
        ensures
            r@ == self.message_spec(),
    {
        self.message.as_str()
    }

    /// The source line text, if available, for display with a caret pointer.
    pub fn source_line(&self) -> (r: Option<&str>)
        ensures
            match r {
                Some(s) => self.source_spec() == Some(s@),
                None => self.source_spec() is None,
            },
    {
        match &self.source_line {
            Some(s) => Some(s.as_str()),
            None => None,
        }
    }

    /// `line N, column M: message`, then the source line and a caret.
    pub fn display(&self) -> (r: String)
        ensures
            r@ == located(self.line_spec(), self.column_spec(), self.message_spec(), self.source_spec()),
    {
        fmt_located(self.line, self.column, self.message.as_str(), self.source_line())
    }
}

/// A source position resolved for a deserialize error.
#[derive(Clone, Debug, PartialEq, Eq)]
pub struct Location {
    pub line: usize,
    pub column: usize,
    pub source_line: Option<String>,
}

/// A typed-deserialization error: the document parsed as valid TJSON but does
/// not match the target type. It has a location only when the data came from
/// source text.
#[derive(Clone, Debug)]
pub struct DeserializeError {
    path: String,
    message: String,
    location: Option<Location>,
}

/// The path after `segment` is put in front of `path`: a dot joins it to a key
/// path, an index path joins bare.
pub open spec fn nested_path(segment: Seq<char>, path: Seq<char>) -> Seq<char> {
    if path.len() == 0 || path[0] == '[' {
        segment + path
    } else {
        segment + "."@ + path
    }
}

impl DeserializeError {
    pub closed spec fn path_spec(self) -> Seq<char> {
        self.path@
    }

    pub closed spec fn message_spec(self) -> Seq<char> {
        self.message@
    }

    pub closed spec fn location_spec(self) -> Option<(nat, nat, Option<Seq<char>>)> {
        match self.location {
            Some(l) => Some((l.line as nat, l.column as nat, match l.source_line {
                Some(s) => Some(s@),
                None => None,
            })),
            None => None,
        }
    }

    /// An error with an empty path and no location.
    pub fn new(message: String) -> (r: DeserializeError)
        ensures
            r.path_spec() == Seq::<char>::empty(),
            r.message_spec() == message@,
            r.location_spec() is None,
    {
        DeserializeError { path: String::new(), message, location: None }
    }

    /// Prepend a path segment while the error bubbles out of a container.
    pub fn nest(self, segment: &str) -> (r: DeserializeError)
        ensures
            r.path_spec() == nested_path(segment@, self.path_spec()),
            r.message_spec() == self.message_spec(),
            r.location_spec() == self.location_spec(),
    {
        proof { broadcast use vstd::string::group_string_axioms; }
        let p = crate::text::to_chars(self.path.as_str());
        let mut path = segment.to_string();
        if !(p.len() == 0 || p[0] == '[') {
            path.append(".");
        }
        path.append(self.path.as_str());
        DeserializeError { path, message: self.message, location: self.location }
    }

    /// Stamp a location if none has been recorded yet: the deepest stamp wins.
    pub fn locate(self, location: Location) -> (r: DeserializeError)
        ensures
            r.path_spec() == self.path_spec(),
            r.message_spec() == self.message_spec(),
            r.location_spec() == (match self.location_spec() {
                Some(l) => Some(l),
                None => Some((location.line as nat, location.column as nat, match location.source_line {
                    Some(s) => Some(s@),
                    None => None::<Seq<char>>,
                })),
            }),
    {
        let location = match self.location {
            Some(l) => Some(l),
            None => Some(location),
        };
        DeserializeError { path: self.path, message: self.message, location }
    }

    pub fn is_located(&self) -> (r: bool)
        ensures
            r == self.location_spec() is Some,
    {
        self.location.is_some()
    }

    /// Append an explanatory note to the message: `message (note)`.
    pub fn with_note(self, note: &str) -> (r: DeserializeError)
        ensures
            r.message_spec() == self.message_spec() + " ("@ + note@ + ")"@,
            r.path_spec() == self.path_spec(),
            r.location_spec() == self.location_spec(),
    {
        proof { broadcast use vstd::string::group_string_axioms; }
        let mut message = self.message;
        message.append(" (");
        message.append(note);
        message.append(")");
        DeserializeError { path: self.path, message, location: self.location }
    }

    /// Human-readable error message, without path or position.
    pub fn message(&self) -> (r: &str)
        ensures
            r@ == self.message_spec(),
    {
        self.message.as_str()
    }

    /// Field path from the root to the failing value, empty at the root.
    pub fn path(&self) -> (r: &str)
        ensures
            r@ == self.path_spec(),
    {
        self.path.as_str()
    }

    /// 1-based line number, when the data came from source text.
    pub fn line(&self) -> (r: Option<usize>)
        ensures
            match r {
                Some(l) => self.location_spec() matches Some(loc) && loc.0 == l,
                None => self.location_spec() is None,
            },
    {
        match &self.location {
            Some(l) => Some(l.line),
            None => None,
        }
    }

    /// 1-based column number, when the data came from source text.
    pub fn column(&self) -> (r: Option<usize>)
        ensures
            match r {
                Some(c) => self.location_spec() matches Some(loc) && loc.1 == c,
                None => self.location_spec() is None,
            },
    {
        match &self.location {
            Some(l) => Some(l.column),
            None => None,
        }
    }

    /// The source line text, if available.
    pub fn source_line(&self) -> (r: Option<&str>)
        ensures
            match r {
                Some(s) => self.location_spec() matches Some(loc) && loc.2 == Some(s@),
                None => match self.location_spec() { Some(loc) => loc.2 is None, None => true },
            },
    {
        match &self.location {
            Some(l) => match &l.source_line {
                Some(s) => Some(s.as_str()),
                None => None,
            },
            None => None,
        }
    }

    /// The message with its path in front: `path: message`, or the message
    /// alone at the root.
    pub fn message_with_path(&self) -> (r: String)
        ensures
            r@ == (if self.path_spec().len() == 0 {
                self.message_spec()
            } else {
                self.path_spec() + ": "@ + self.message_spec()
            }),
    {
        proof { broadcast use vstd::string::group_string_axioms; }
        let p = crate::text::to_chars(self.path.as_str());
        if p.len() == 0 {
            self.message.clone()
        } else {
            let mut s = self.path.clone();
            s.append(": ");
            s.append(self.message.as_str());
            s
        }
    }

    /// The located form when a location is known, the path and message alone
    /// otherwise.
    pub fn display(&self) -> (r: String)
        ensures
            r@ == (match self.location_spec() {
                Some(l) => located(l.0, l.1, if self.path_spec().len() == 0 {
                    self.message_spec()
                } else {
                    self.path_spec() + ": "@ + self.message_spec()
                }, l.2),
                None => if self.path_spec().len() == 0 {
                    self.message_spec()
                } else {
                    self.path_spec() + ": "@ + self.message_spec()
                },
            }),
    {
        let m = self.message_with_path();
        match &self.location {
            Some(l) => {
                let src = match &l.source_line {
                    Some(s) => Some(s.as_str()),
                    None => None,
                };
                fmt_located(l.line, l.column, m.as_str(), src)
            }
            None => m,
        }
    }
}

} // verus!
