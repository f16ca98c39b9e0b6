use vstd::prelude::*;
use crate::text::{chars_of, find_text, occurs_at, owned, push_char};

verus! {

/// serde_json's parse error, carried as an opaque value.
#[verifier::external_type_specification]
#[verifier::external_body]
pub struct ExJsonError(serde_json::Error);

/// What kind of failure a JSON parse error reports.
#[derive(Debug, Clone, Copy, PartialEq, Eq, Structural)]
pub enum ErrorCategory {
    Io,
    Syntax,
    Data,
    Eof,
}

/// Relies on serde_json::Error::line: the line, counted from 1, where the
/// error was found.
#[verifier::external_body]
fn error_line(e: &serde_json::Error) -> usize {
    e.line()
}

/// Relies on serde_json::Error::column: the column where the error was
/// found, counted from 1 (0 where the error came at the start of a line).
#[verifier::external_body]
fn error_column(e: &serde_json::Error) -> usize {
    e.column()
}

/// Relies on serde_json::Error::classify: the kind of the error.
#[verifier::external_body]
fn error_category(e: &serde_json::Error) -> ErrorCategory {
    match e.classify() {
        serde_json::error::Category::Io => ErrorCategory::Io,
        serde_json::error::Category::Syntax => ErrorCategory::Syntax,
        serde_json::error::Category::Data => ErrorCategory::Data,
        serde_json::error::Category::Eof => ErrorCategory::Eof,
    }
}

/// Relies on the Display of serde_json::Error: its description, ending in
/// the position.
#[verifier::external_body]
fn error_text(e: &serde_json::Error) -> String {
    e.to_string()
}

/// A line without the carriage return that ended it.
pub open spec fn strip_cr(l: Seq<char>) -> Seq<char> {
    if l.len() > 0 && l.last() == '\r' { l.drop_last() } else { l }
}

/// The lines of `s`, the current one begun with `cur`, as `str::lines`
/// yields them: a line ends at each `'\n'`, which is dropped with a `'\r'`
/// before it; nothing follows a final `'\n'`.
pub open spec fn lines_from(s: Seq<char>, cur: Seq<char>) -> Seq<Seq<char>>
    decreases s.len(),
{
    if s.len() == 0 {
        if cur.len() == 0 { Seq::empty() } else { seq![cur] }
    } else if s[0] == '\n' {
        seq![strip_cr(cur)] + lines_from(s.drop_first(), Seq::empty())
    } else {
        lines_from(s.drop_first(), cur.push(s[0]))
    }
}

/// Line `n` (counted from 0) of a text, if there is one.
pub open spec fn line_at(s: Seq<char>, n: int) -> Option<Seq<char>> {
    let ls = lines_from(s, Seq::empty());
    if 0 <= n < ls.len() { Some(ls[n]) } else { None }
}

/// Line `n` (counted from 0) of a text.
pub fn nth_line(s: &str, n: usize) -> (r: Option<String>)
    ensures
        match r {
            Some(l) => line_at(s@, n as int) == Some(l@),
            None => line_at(s@, n as int) is None,
        },
{
    let cs = chars_of(s);
    let mut cur = String::new();
    let mut idx: usize = 0;
    let mut k: usize = 0;
    let ghost done: Seq<Seq<char>> = Seq::empty();
    assert(s@.subrange(0, s@.len() as int) =~= s@);
    assert(cur@ =~= Seq::<char>::empty());
    while k < cs.len()
        invariant
            cs@ == s@,
            k <= cs@.len(),
            idx == done.len(),
            idx <= n,
            lines_from(s@, Seq::empty()) == done + lines_from(s@.subrange(k as int, s@.len() as int), cur@),
        decreases cs@.len() - k,
    {
        let ghost rest = s@.subrange(k as int, s@.len() as int);
        assert(rest.drop_first() =~= s@.subrange(k + 1, s@.len() as int));
        let c = cs[k];
        if c == '\n' {
            if idx == n {
                let line = strip_trailing_cr(cur);
                proof {
                    assert(lines_from(s@, Seq::empty())[n as int] == strip_cr(cur@));
                }
                return Some(line);
            }
            proof {
                assert(done + lines_from(rest, cur@) =~= done.push(strip_cr(cur@)) + lines_from(
                    s@.subrange(k + 1, s@.len() as int),
                    Seq::empty(),
                ));
                done = done.push(strip_cr(cur@));
            }
            cur = String::new();
            idx = idx + 1;
        } else {
            push_char(&mut cur, c);
        }
        k = k + 1;
    }
    proof {
        assert(s@.subrange(k as int, s@.len() as int) =~= Seq::<char>::empty());
    }
    if idx == n && cur.unicode_len() > 0 {
        Some(cur)
    } else {
        None
    }
}

fn strip_trailing_cr(l: String) -> (r: String)
    ensures
        r@ == strip_cr(l@),
{
    let cs = chars_of(l.as_str());
    if cs.len() > 0 && cs[cs.len() - 1] == '\r' {
        let t = l.as_str().substring_char(0, cs.len() - 1);
        proof {
            assert(l@.drop_last() =~= l@.subrange(0, cs@.len() - 1));
        }
        owned(t)
    } else {
        l
    }
}

/// A JSON parse error, with its position and the line it points into.
#[derive(Debug, Clone)]
pub struct ParseError {
    pub message: String,
    pub line: Option<usize>,
    pub column: Option<usize>,
    /// The line of the file the error points into.
    pub context_line: Option<String>,
    pub filename: String,
}

/// The message shown for an error: a syntax error keeps the description in
/// front of `" at line "`, the other kinds get a heading.
pub open spec fn error_message(category: ErrorCategory, full: Seq<char>) -> Seq<char> {
    match category {
        ErrorCategory::Io => "I/O error: "@ + full,
        ErrorCategory::Syntax => if exists|i: int| occurs_at(full, " at line "@, i) {
            let i = choose|i: int|
                occurs_at(full, " at line "@, i) && forall|j: int| 0 <= j < i ==> !occurs_at(full, " at line "@, j);
            full.subrange(0, i)
        } else {
            full
        },
        ErrorCategory::Data => "Data error: "@ + full,
        ErrorCategory::Eof => "Unexpected end of file"@,
    }
}

pub open spec fn opt_text(o: Option<String>) -> Option<Seq<char>> {
    match o {
        Some(s) => Some(s@),
        None => None,
    }
}

impl ParseError {
    /// Builds the error from its parts: its kind, its full description, its
    /// position, the parsed text and the file name.
    pub fn from_parts(
        category: ErrorCategory,
        full: &str,
        line: usize,
        column: usize,
        contents: &str,
        filename: &str,
    ) -> (r: Self)
        ensures
            r.message@ == error_message(category, full@),
            r.line == Some(line),
            r.column == Some(column),
            opt_text(r.context_line) == line_at(contents@, if line > 0 { line - 1 } else { 0 }),
            r.filename@ == filename@,
    {
        let message = match category {
            ErrorCategory::Io => {
                let mut m = owned("I/O error: ");
                m.append(full);
                m
            },
            ErrorCategory::Syntax => match find_text(full, " at line ") {
                Some(i) => {
                    let ghost w = i as int;
                    assert(occurs_at(full@, " at line "@, w));
                    let ghost c = choose|i: int|
                        occurs_at(full@, " at line "@, i) && forall|j: int| 0 <= j < i ==> !occurs_at(full@, " at line "@, j);
                    assert(c == w) by {
                        if c < w {
                            assert(!occurs_at(full@, " at line "@, c));
                        }
                        if w < c {
                            assert(!occurs_at(full@, " at line "@, w));
                        }
                    }
                    owned(full.substring_char(0, i))
                },
                None => owned(full),
            },
            ErrorCategory::Data => {
                let mut m = owned("Data error: ");
                m.append(full);
                m
            },
            ErrorCategory::Eof => owned("Unexpected end of file"),
        };
        let index = if line > 0 { line - 1 } else { 0 };
        let context_line = nth_line(contents, index);
        ParseError {
            message,
            line: Some(line),
            column: Some(column),
            context_line,
            filename: owned(filename),
        }
    }

    /// Builds the error that serde_json reported for `contents`.
    pub fn from_serde_error(e: &serde_json::Error, contents: &str, filename: &str) -> (r: Self)
        ensures
            r.line matches Some(l) && opt_text(r.context_line) == line_at(
                contents@,
                if l > 0 { l - 1 } else { 0 },
            ),
            r.column is Some,
            r.filename@ == filename@,
    {
        let line = error_line(e);
        let column = error_column(e);
        let category = error_category(e);
        let full = error_text(e);
        Self::from_parts(category, full.as_str(), line, column, contents, filename)
    }
}

} // verus!
