//! The regular expressions of the analysis, matched by the `regex` crate.
//!
//! The patterns are constants of this module. Where a pattern matches in a
//! text is named, not restated: the names below stand for what the `regex`
//! crate reports for a pattern on a text. What the contracts add is what
//! `regex` documents for every pattern: matches come in order, do not
//! overlap, and start and end on character boundaries. A pattern that
//! `regex` refuses matches nothing.
use vstd::prelude::*;
use crate::spans;

verus! {

/// Terminal control sequences.
pub const ANSI_ESCAPE: &'static str = r"\x1b\[[0-9;?]*[ -/]*[@-~]";

/// `path:line[:column]` source locations.
pub const SOURCE_LOCATION: &'static str = r"(?P<path>(?:[A-Za-z]:)?[A-Za-z0-9_./\\-]+\.[A-Za-z0-9]+):(?P<line>\d+)(?::(?P<column>\d+))?";

/// Credential assignments; group 1 is the name of the credential.
pub const CREDENTIAL_ASSIGNMENT: &'static str = r"(?i)\b(token|secret|password|passwd|api[_-]?key)\s*[:=]\s*([^\s,;]+)";

/// JSON web tokens.
pub const JSON_WEB_TOKEN: &'static str = r"\beyJ[A-Za-z0-9_-]+\.[A-Za-z0-9_-]+\.[A-Za-z0-9_-]+\b";

/// E-mail addresses.
pub const EMAIL_ADDRESS: &'static str = r"\b[A-Za-z0-9._%+-]+@[A-Za-z0-9.-]+\.[A-Za-z]{2,}\b";

/// Absolute paths, with an optional `:line[:column]`.
pub const ABSOLUTE_PATH: &'static str = r"/[^\x0D\n:()\[\]{}]+(?::\d+(?::\d+)?)?";

/// Relative source paths.
pub const RELATIVE_PATH: &'static str = r"(?:^|[\s(\[])\.?\.?[A-Za-z0-9_.-]*(?:/[A-Za-z0-9_. -]+)+\.[A-Za-z0-9_-]+(?::\d+(?::\d+)?)?";

// ---------------------------------------------------------------------------
// The regex crate
// ---------------------------------------------------------------------------

/// Whether `regex::Regex::new` accepts a pattern.
pub uninterp spec fn regex_compiles(pattern: Seq<char>) -> bool;

/// Byte spans of the matches of a pattern in a text, as `Regex::find_iter`
/// reports them.
pub uninterp spec fn regex_find_spans(pattern: Seq<char>, text: Seq<char>) -> Seq<(usize, usize)>;

/// Byte spans of the matches of a pattern in a text, each with the span of
/// its capture group 1 where that group took part, as `Regex::captures_iter`
/// reports them.
pub uninterp spec fn regex_capture_spans(pattern: Seq<char>, text: Seq<char>) -> Seq<(usize, usize, Option<(usize, usize)>)>;

/// Whether a pattern matches somewhere in a text, as `Regex::is_match` decides.
pub uninterp spec fn regex_is_match(pattern: Seq<char>, text: Seq<char>) -> bool;

/// The whole-match spans of capture matches.
pub open spec fn outer_spans(m: Seq<(usize, usize, Option<(usize, usize)>)>) -> Seq<(usize, usize)> {
    Seq::new(m.len(), |i: int| (m[i].0, m[i].1))
}

/// Group spans that lie on character boundaries of `text`.
pub open spec fn groups_well_formed(text: Seq<char>, m: Seq<(usize, usize, Option<(usize, usize)>)>) -> bool {
    forall|i: int|
        0 <= i < m.len() ==> match (#[trigger] m[i]).2 {
            Some(g) => g.0 <= g.1 && spans::is_boundary(text, g.0 as int) && spans::is_boundary(
                text,
                g.1 as int,
            ),
            None => true,
        }
}

/// Trusted: `Regex::new` and `Regex::find_iter`. Claims a result exactly
/// when the pattern compiles, and that its spans are those named above,
/// ordered, disjoint and on character boundaries, as `regex` documents for
/// `Match::start` and `Match::end`.
#[verifier::external_body]
fn find_spans(pattern: &str, text: &str) -> (r: Option<Vec<(usize, usize)>>)
    ensures
        r is Some <==> regex_compiles(pattern@),
        r matches Some(v) ==> v@ == regex_find_spans(pattern@, text@) && spans::spans_well_formed(text@, v@),
{
    let re = regex::Regex::new(pattern).ok()?;
    Some(re.find_iter(text).map(|m| (m.start(), m.end())).collect())
}

/// Trusted: `Regex::new` and `Regex::captures_iter`, each match taken whole
/// (`Captures::get_match`) with its group 1 (`Captures::get(1)`). Claims a
/// result exactly when the pattern compiles, that its spans are those named
/// above, that the whole matches are ordered, disjoint and on character
/// boundaries, and that a group, where it took part, is on character
/// boundaries.
#[verifier::external_body]
fn capture_spans(pattern: &str, text: &str) -> (r: Option<Vec<(usize, usize, Option<(usize, usize)>)>>)
    ensures
        r is Some <==> regex_compiles(pattern@),
        r matches Some(v) ==> {
            &&& v@ == regex_capture_spans(pattern@, text@)
            &&& spans::spans_well_formed(text@, outer_spans(v@))
            &&& groups_well_formed(text@, v@)
        },
{
    let re = regex::Regex::new(pattern).ok()?;
    Some(re.captures_iter(text).map(|c| {
        let m = c.get_match();
        (m.start(), m.end(), c.get(1).map(|g| (g.start(), g.end())))
    }).collect())
}

/// Trusted: `Regex::new` and `Regex::is_match`. Claims a result exactly when
/// the pattern compiles, and that it is the one named above.
#[verifier::external_body]
fn is_match(pattern: &str, text: &str) -> (r: Option<bool>)
    ensures
        r is Some <==> regex_compiles(pattern@),
        r matches Some(b) ==> b == regex_is_match(pattern@, text@),
{
    let re = regex::Regex::new(pattern).ok()?;
    Some(re.is_match(text))
}

// ---------------------------------------------------------------------------
// The matches the analysis uses
// ---------------------------------------------------------------------------

/// The find spans of a pattern, none where the pattern is refused.
pub open spec fn spans_of(pattern: Seq<char>, text: Seq<char>) -> Seq<(usize, usize)> {
    if regex_compiles(pattern) {
        regex_find_spans(pattern, text)
    } else {
        Seq::empty()
    }
}

fn spans_or_none(pattern: &str, text: &str) -> (r: Vec<(usize, usize)>)
    ensures
        r@ == spans_of(pattern@, text@),
        spans::spans_well_formed(text@, r@),
{
    match find_spans(pattern, text) {
        Some(v) => v,
        None => {
            let v: Vec<(usize, usize)> = Vec::new();
            assert(spans::spans_well_formed(text@, v@));
            v
        },
    }
}

/// Byte spans of the terminal control sequences of a text.
pub open spec fn ansi_escape_matches(text: Seq<char>) -> Seq<(usize, usize)> {
    spans_of(ANSI_ESCAPE@, text)
}

pub fn find_ansi_escapes(text: &str) -> (r: Vec<(usize, usize)>)
    ensures
        r@ == ansi_escape_matches(text@),
        spans::spans_well_formed(text@, r@),
{
    spans_or_none(ANSI_ESCAPE, text)
}

/// The capture spans of a pattern, none where the pattern is refused.
pub open spec fn captures_of(pattern: Seq<char>, text: Seq<char>) -> Seq<(usize, usize, Option<(usize, usize)>)> {
    if regex_compiles(pattern) {
        regex_capture_spans(pattern, text)
    } else {
        Seq::empty()
    }
}

fn captures_or_none(pattern: &str, text: &str) -> (r: Vec<(usize, usize, Option<(usize, usize)>)>)
    ensures
        r@ == captures_of(pattern@, text@),
        spans::spans_well_formed(text@, outer_spans(r@)),
        groups_well_formed(text@, r@),
{
    match capture_spans(pattern, text) {
        Some(v) => v,
        None => {
            let v: Vec<(usize, usize, Option<(usize, usize)>)> = Vec::new();
            assert(outer_spans(v@) =~= Seq::<(usize, usize)>::empty());
            assert(spans::spans_well_formed(text@, outer_spans(v@)));
            v
        },
    }
}

/// Byte spans of the `path:line[:column]` source locations of a text.
pub open spec fn location_matches(text: Seq<char>) -> Seq<(usize, usize)> {
    outer_spans(captures_of(SOURCE_LOCATION@, text))
}

pub fn find_locations(text: &str) -> (r: Vec<(usize, usize)>)
    ensures
        r@ == location_matches(text@),
        spans::spans_well_formed(text@, r@),
{
    let m = captures_or_none(SOURCE_LOCATION, text);
    let mut r: Vec<(usize, usize)> = Vec::new();
    let mut i: usize = 0;
    while i < m.len()
        invariant
            i <= m@.len(),
            r@ == outer_spans(m@).take(i as int),
        decreases m@.len() - i,
    {
        r.push((m[i].0, m[i].1));
        assert(r@ =~= outer_spans(m@).take(i as int + 1));
        i = i + 1;
    }
    assert(outer_spans(m@).take(i as int) =~= outer_spans(m@));
    r
}

/// Byte spans of the credential assignments of a text and of the name part
/// (capture group 1) of each.
pub open spec fn credential_matches(text: Seq<char>) -> Seq<(usize, usize, Option<(usize, usize)>)> {
    captures_of(CREDENTIAL_ASSIGNMENT@, text)
}

pub fn find_credentials(text: &str) -> (r: Vec<(usize, usize, Option<(usize, usize)>)>)
    ensures
        r@ == credential_matches(text@),
        spans::spans_well_formed(text@, outer_spans(r@)),
        groups_well_formed(text@, r@),
{
    captures_or_none(CREDENTIAL_ASSIGNMENT, text)
}

/// Byte spans of the JSON web tokens of a text.
pub open spec fn jwt_matches(text: Seq<char>) -> Seq<(usize, usize)> {
    spans_of(JSON_WEB_TOKEN@, text)
}

pub fn find_jwts(text: &str) -> (r: Vec<(usize, usize)>)
    ensures
        r@ == jwt_matches(text@),
        spans::spans_well_formed(text@, r@),
{
    spans_or_none(JSON_WEB_TOKEN, text)
}

/// Byte spans of the e-mail addresses of a text.
pub open spec fn email_matches(text: Seq<char>) -> Seq<(usize, usize)> {
    spans_of(EMAIL_ADDRESS@, text)
}

pub fn find_emails(text: &str) -> (r: Vec<(usize, usize)>)
    ensures
        r@ == email_matches(text@),
        spans::spans_well_formed(text@, r@),
{
    spans_or_none(EMAIL_ADDRESS, text)
}

/// Byte spans of the absolute paths (with an optional `:line[:column]`) of a
/// text.
pub open spec fn absolute_path_matches(text: Seq<char>) -> Seq<(usize, usize)> {
    spans_of(ABSOLUTE_PATH@, text)
}

pub fn find_absolute_paths(text: &str) -> (r: Vec<(usize, usize)>)
    ensures
        r@ == absolute_path_matches(text@),
        spans::spans_well_formed(text@, r@),
{
    spans_or_none(ABSOLUTE_PATH, text)
}

/// Whether a text holds a relative source path.
pub open spec fn has_relative_path(text: Seq<char>) -> bool {
    regex_compiles(RELATIVE_PATH@) && regex_is_match(RELATIVE_PATH@, text)
}

pub fn contains_relative_path(text: &str) -> (r: bool)
    ensures
        r == has_relative_path(text@),
{
    match is_match(RELATIVE_PATH, text) {
        Some(b) => b,
        None => false,
    }
}

} // verus!
