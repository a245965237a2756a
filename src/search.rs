use vstd::prelude::*;
use vstd::string::StringExecFns;

use crate::line_index::texts;
use crate::text::{chars_of, trim, trim_bounds};

verus! {

/// What to search for and where.
pub struct SearchRequest {
    /// The pattern, handed to the tool as it is.
    pub pattern: String,
    /// The directory to search; the tool runs there.
    pub root: String,
    /// A glob that the searched paths must match, if any.
    pub file_filter: Option<String>,
    /// Match case exactly; otherwise ignore case.
    pub case_sensitive: bool,
    /// Take the pattern as a literal string, not a regular expression.
    pub whole_phrase: bool,
    /// Match whole words only.
    pub whole_word: bool,
}

/// Why a search or a page read failed.
#[derive(PartialEq, Eq, Clone, Debug)]
pub enum SearchError {
    /// A field of the request is empty or blank.
    InvalidInput(String),
    /// A path does not exist.
    NotFound(String),
    /// A file could not be opened or mapped.
    IoError(String),
    /// The search tool could not be started.
    ProcessError(String),
}

/// Whether `s` holds nothing but whitespace.
pub open spec fn is_blank(s: Seq<char>) -> bool {
    trim(s).len() == 0
}

/// Whether `s` holds nothing but whitespace.
pub fn blank(s: &str) -> (r: bool)
    ensures
        r == is_blank(s@),
{
    let cs = chars_of(s);
    let (a, b) = trim_bounds(cs.as_slice());
    a == b
}

/// The arguments the search tool is run with for a request: line numbers,
/// a file name on every line, no ignore files, hidden files included,
/// binary files read as text, statistics at the end; case-sensitive or
/// case-insensitive; literal, whole-word and glob restrictions where asked;
/// then the pattern and the current directory.
pub open spec fn tool_arguments(r: &SearchRequest) -> Seq<Seq<char>> {
    seq![
        "--line-number"@,
        "--with-filename"@,
        "--no-ignore"@,
        "--hidden"@,
        "--text"@,
        "--stats"@,
    ] + (if r.case_sensitive {
        seq!["--case-sensitive"@]
    } else {
        seq!["--ignore-case"@]
    }) + (if r.whole_phrase {
        seq!["--fixed-strings"@]
    } else {
        Seq::empty()
    }) + (if r.whole_word {
        seq!["--word-regexp"@]
    } else {
        Seq::empty()
    }) + (match r.file_filter {
        Some(f) => seq!["--glob"@, f@],
        None => Seq::empty(),
    }) + seq![r.pattern@, "."@]
}

/// The search tool's arguments for a request.
pub fn search_arguments(req: &SearchRequest) -> (r: Vec<String>)
    ensures
        texts(r@) == tool_arguments(req),
{
    let mut args: Vec<String> = Vec::new();
    args.push(String::from_str("--line-number"));
    args.push(String::from_str("--with-filename"));
    args.push(String::from_str("--no-ignore"));
    args.push(String::from_str("--hidden"));
    args.push(String::from_str("--text"));
    args.push(String::from_str("--stats"));
    if req.case_sensitive {
        args.push(String::from_str("--case-sensitive"));
    } else {
        args.push(String::from_str("--ignore-case"));
    }
    if req.whole_phrase {
        args.push(String::from_str("--fixed-strings"));
    }
    if req.whole_word {
        args.push(String::from_str("--word-regexp"));
    }
    match &req.file_filter {
        Some(f) => {
            args.push(String::from_str("--glob"));
            args.push(f.clone());
        },
        None => {},
    }
    args.push(req.pattern.clone());
    args.push(String::from_str("."));
    assert(texts(args@) =~= tool_arguments(req));
    args
}

/// The message for a blank pattern.
pub open spec fn blank_pattern_message() -> Seq<char> {
    "Search query cannot be empty"@
}

/// The message for a blank root.
pub open spec fn blank_root_message() -> Seq<char> {
    "Search path cannot be empty"@
}

/// The outcome of checking a request: its tool arguments, or the field
/// that is blank, the pattern first.
pub open spec fn checked_request(r: &SearchRequest) -> Result<Seq<Seq<char>>, Seq<char>> {
    if is_blank(r.pattern@) {
        Err(blank_pattern_message())
    } else if is_blank(r.root@) {
        Err(blank_root_message())
    } else {
        Ok(tool_arguments(r))
    }
}

/// Whether `r` is the right answer to checking `req`.
pub open spec fn answers_request(req: &SearchRequest, r: Result<Vec<String>, SearchError>) -> bool {
    match checked_request(req) {
        Ok(a) => r matches Ok(v) && texts(v@) == a,
        Err(m) => r matches Err(SearchError::InvalidInput(e)) && e@ == m,
    }
}

/// Check a request and give the search tool's arguments for it; a blank
/// pattern or root is invalid input.
pub fn check_request(req: &SearchRequest) -> (r: Result<Vec<String>, SearchError>)
    ensures
        answers_request(req, r),
{
    if blank(req.pattern.as_str()) {
        return Err(SearchError::InvalidInput(String::from_str("Search query cannot be empty")));
    }
    if blank(req.root.as_str()) {
        return Err(SearchError::InvalidInput(String::from_str("Search path cannot be empty")));
    }
    Ok(search_arguments(req))
}

} // verus!
