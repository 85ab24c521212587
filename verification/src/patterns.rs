//! The patterns of the note format and the matches that the `regex` crate
//! finds for them.
use crate::text::{has_prefix, opt_text};
use vstd::prelude::*;

verus! {

broadcast use vstd::string::group_string_axioms;

/// A line of the reference section: `- key:: value` or `- key::`.
pub const REF_LINE: &'static str = r"^- [\w][\w\s-]*:: ?.*$";

/// A field in the body: `key:: value`.
pub const BODY_FIELD: &'static str = r"^([\w][\w\s-]*):: (.+)$";

/// A field in the reference section, key and value as groups.
pub const REF_FIELD: &'static str = r"^- ([\w][\w\s-]*):: ?(.*)$";

/// Code within a line.
pub const INLINE_CODE: &'static str = r"`[^`]+`";

/// The line that opens or closes a block of code.
pub const FENCE: &'static str = r"^(?:`{3,}|~{3,})";

/// A link to another note, target and displayed text as groups.
pub const WIKILINK: &'static str = r"\[\[([^\]|]+)(?:\|([^\]]+))?\]\]";

/// The first line of a log entry: a check box and a date.
pub const LOG_ENTRY: &'static str = r"^- \[[ xi]\] \d{4}-\d{2}-\d{2}";

/// The patterns of this library; each is a valid regular expression.
pub open spec fn is_pattern(p: Seq<char>) -> bool {
    ||| p == REF_LINE@
    ||| p == BODY_FIELD@
    ||| p == REF_FIELD@
    ||| p == INLINE_CODE@
    ||| p == FENCE@
    ||| p == WIKILINK@
    ||| p == LOG_ENTRY@
}

/// Whether `regex::Regex::is_match` finds the pattern in a text.
pub uninterp spec fn matched(pattern: Seq<char>, s: Seq<char>) -> bool;

/// The first and second group of the match that `regex::Regex::captures`
/// finds; empty where a group took no part.
pub uninterp spec fn groups(pattern: Seq<char>, s: Seq<char>) -> Option<(Seq<char>, Seq<char>)>;

/// Whether a line opens or closes a block of code: it begins with three backticks
/// or tildes.
pub open spec fn is_block_mark(line: Seq<char>) -> bool {
    has_prefix(line, "```"@) || has_prefix(line, "~~~"@)
}

/// `regex::Regex::is_match` on each line of a list. The results are named
/// `matched`; with the pattern of a block of code they are what that says, and a
/// line that the pattern of reference lines matches begins as that pattern does.
/// The patterns of this library compile, so `Regex::new` does not fail.
#[verifier::external_body]
pub(crate) fn match_each(pattern: &str, lines: &Vec<String>) -> (r: Vec<bool>)
    requires
        is_pattern(pattern@),
    ensures
        r@.len() == lines@.len(),
        forall|i: int| 0 <= i < r@.len() ==> #[trigger] r@[i] == matched(pattern@, lines@[i]@),
        pattern@ == FENCE@ ==> forall|i: int|
            0 <= i < r@.len() ==> #[trigger] r@[i] == is_block_mark(lines@[i]@),
        pattern@ == REF_LINE@ ==> forall|i: int|
            0 <= i < r@.len() && #[trigger] r@[i] ==> has_prefix(lines@[i]@, "- "@),
{
    let re = regex::Regex::new(pattern).unwrap();
    lines.iter().map(|l| re.is_match(l)).collect()
}

/// The two groups of a match.
pub type Groups = Option<(String, String)>;

pub open spec fn groups_view(g: Groups) -> Option<(Seq<char>, Seq<char>)> {
    match g {
        Some((a, b)) => Some((a@, b@)),
        None => None,
    }
}

/// `regex::Regex::captures` on each line of a list: the texts of the first and
/// the second group. The results are named `groups`.
#[verifier::external_body]
pub(crate) fn groups_each(pattern: &str, lines: &Vec<String>) -> (r: Vec<Groups>)
    requires
        is_pattern(pattern@),
    ensures
        r@.len() == lines@.len(),
        forall|i: int|
            0 <= i < r@.len() ==> groups_view(#[trigger] r@[i]) == groups(pattern@, lines@[i]@),
{
    let re = regex::Regex::new(pattern).unwrap();
    let group = |c: &regex::Captures, i: usize| c.get(i).map_or(String::new(), |m| m.as_str().to_string());
    lines.iter().map(|l| re.captures(l).map(|c| (group(&c, 1), group(&c, 2)))).collect()
}

/// The first backtick of a text from a place on; the text's length where there is
/// none.
pub open spec fn backtick_from(s: Seq<char>, i: int) -> int
    decreases s.len() - i,
{
    if i >= s.len() || s[i] == '`' {
        i
    } else {
        backtick_from(s, i + 1)
    }
}

/// A text without the code in it: without each stretch between two backticks,
/// these too, that is not empty.
pub open spec fn without_code(s: Seq<char>) -> Seq<char>
    decreases s.len(),
{
    let j = backtick_from(s, 1);
    if s.len() == 0 {
        s
    } else if s[0] == '`' && 1 < j < s.len() {
        without_code(s.skip(j + 1))
    } else {
        seq![s[0]] + without_code(s.skip(1))
    }
}

/// `regex::Regex::replace_all` with the pattern of code on each line of a list,
/// nothing in place of a match: the lines without their code.
#[verifier::external_body]
pub(crate) fn strip_code(pattern: &str, lines: &Vec<String>) -> (r: Vec<String>)
    requires
        pattern@ == INLINE_CODE@,
    ensures
        r@.len() == lines@.len(),
        forall|i: int| 0 <= i < r@.len() ==> (#[trigger] r@[i])@ == without_code(lines@[i]@),
{
    let re = regex::Regex::new(pattern).unwrap();
    lines.iter().map(|l| re.replace_all(l, "").into_owned()).collect()
}

/// A match in a text: from where to where, counted in characters, and its two
/// groups.
#[derive(Debug, Clone)]
pub struct Match {
    pub start: usize,
    pub end: usize,
    pub first: String,
    pub second: Option<String>,
}

pub struct MatchView {
    pub start: int,
    pub end: int,
    pub first: Seq<char>,
    pub second: Option<Seq<char>>,
}

impl View for Match {
    type V = MatchView;

    open spec fn view(&self) -> MatchView {
        MatchView {
            start: self.start as int,
            end: self.end as int,
            first: self.first@,
            second: opt_text(self.second),
        }
    }
}

pub open spec fn matches_view(s: Seq<Match>) -> Seq<MatchView> {
    Seq::new(s.len(), |i: int| s[i]@)
}

/// Whether a character ends the part of a link that it stands in: a closing
/// bracket, and a bar after the target.
pub open spec fn is_stop(c: char, bar: bool) -> bool {
    c == ']' || (bar && c == '|')
}

/// The first place from `i` on where a part of a link ends; the text's length
/// where there is none.
pub open spec fn stop_from(u: Seq<char>, i: int, bar: bool) -> int
    decreases u.len() - i,
{
    if i >= u.len() || is_stop(u[i], bar) {
        i
    } else {
        stop_from(u, i + 1, bar)
    }
}

/// The link that a text begins with: two opening brackets, a target without a
/// bar or a closing bracket, a bar and a text without a closing bracket or none,
/// and two closing brackets. Neither part is empty.
#[verifier::opaque]
pub open spec fn link_head(u: Seq<char>) -> Option<MatchView> {
    let a = stop_from(u, 2, true);
    if !(u.len() > 2 && u[0] == '[' && u[1] == '[') || a == 2 || a + 1 >= u.len() {
        None
    } else if u[a] == '|' {
        let b = stop_from(u, a + 1, false);
        if b == a + 1 || b + 1 >= u.len() || u[b + 1] != ']' {
            None
        } else {
            Some(
                MatchView {
                    start: 0,
                    end: b + 2,
                    first: u.subrange(2, a),
                    second: Some(u.subrange(a + 1, b)),
                },
            )
        }
    } else if u[a + 1] == ']' {
        Some(MatchView { start: 0, end: a + 2, first: u.subrange(2, a), second: None })
    } else {
        None
    }
}

/// The links of a text from `pos` on, from left to right; the next one begins
/// after the end of the one before.
pub open spec fn links_from(s: Seq<char>, pos: int) -> Seq<MatchView>
    decreases s.len() - pos,
{
    if pos < 0 || pos >= s.len() {
        Seq::empty()
    } else {
        match link_head(s.skip(pos)) {
            Some(m) => if 0 < m.end <= s.len() - pos {
                seq![MatchView { start: pos, end: pos + m.end, ..m }] + links_from(s, pos + m.end)
            } else {
                Seq::empty()
            },
            None => links_from(s, pos + 1),
        }
    }
}

/// The links of a text.
pub open spec fn links_found(s: Seq<char>) -> Seq<MatchView> {
    links_from(s, 0)
}

/// Whether matches lie within a text of a length, one after the other.
pub open spec fn in_sequence(ms: Seq<MatchView>, len: int) -> bool {
    &&& forall|i: int| 0 <= i < ms.len() ==> 0 <= (#[trigger] ms[i]).start <= ms[i].end <= len
    &&& forall|i: int, j: int|
        0 <= i < j < ms.len() ==> (#[trigger] ms[i]).end <= (#[trigger] ms[j]).start
}

/// A link as it is written.
pub open spec fn link_form(target: Seq<char>, display: Option<Seq<char>>) -> Seq<char> {
    match display {
        Some(d) => "[["@ + target + "|"@ + d + "]]"@,
        None => "[["@ + target + "]]"@,
    }
}

/// Whether each match is a link, its target and displayed text the two groups.
pub open spec fn are_links(ms: Seq<MatchView>, s: Seq<char>) -> bool {
    forall|i: int|
        0 <= i < ms.len() ==> s.subrange((#[trigger] ms[i]).start, ms[i].end) == link_form(
            ms[i].first,
            ms[i].second,
        )
}

/// `regex::Regex::captures_iter` on a text with the pattern of links: all the
/// links of the text, from left to right, none within another. A part of a link
/// takes all characters up to the first one that it cannot hold.
#[verifier::external_body]
pub(crate) fn links_in(pattern: &str, s: &str) -> (r: Vec<Match>)
    requires
        pattern@ == WIKILINK@,
    ensures
        matches_view(r@) == links_found(s@),
{
    let re = regex::Regex::new(pattern).unwrap();
    re.captures_iter(s).map(|c| Match {
        start: s[..c.get(0).map_or(0, |m| m.start())].chars().count(),
        end: s[..c.get(0).map_or(0, |m| m.end())].chars().count(),
        first: c.get(1).map_or(String::new(), |m| m.as_str().to_string()),
        second: c.get(2).map(|m| m.as_str().to_string()),
    }).collect()
}

} // verus!
