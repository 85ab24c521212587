//! Resolving conflicts: each zone of a note is merged in its own way.
use crate::error::{ErrorView, ZettelError};
use crate::merge::{
    is_reference_merge, is_text_merge, law_reference_commutes, merge_body, merge_reference,
};
use crate::merge_fm::{
    apart, field_kept, fm_fields, fm_text, has_plain_fields, is_fm_merge, is_fm_merge_text, law_fm_merge_commutes,
    law_fm_merge_idempotent, law_fm_merge_unique, lists_agree, merge_frontmatter,
    FmEntries,
};
use crate::parser::{self, frontmatter_of, inline_fields_of, is_text, reads_front, serialized, split_view};
use crate::patterns::{match_each, matched, LOG_ENTRY};
use crate::text::{self, join, lines, opt_text, texts, trimmed, trimmed_end};
use crate::text_laws::{are_separate, law_text_merge_commutes};
use crate::textmap::{self, lookup, mapped, TextMap};
use crate::traits::ConflictResolver;
use crate::types::{ConflictFile, ParsedZettel, ResolvedFile, Zettel, ZonesView};
use vstd::prelude::*;

verus! {

broadcast use vstd::string::group_string_axioms;

// ---------------------------------------------------------------------------
// Zones
// ---------------------------------------------------------------------------
/// The zones of one side of a conflict; a file that is not there has empty ones.
pub open spec fn side_zones(content: Seq<char>) -> Result<ZonesView, ErrorView> {
    if content.len() == 0 {
        Ok(ZonesView { frontmatter: Seq::empty(), body: Seq::empty(), reference: Seq::empty() })
    } else {
        split_view(content)
    }
}

pub fn parse_zones(content: &str) -> (r: Result<Zettel, ZettelError>)
    ensures
        match r {
            Ok(z) => side_zones(content@) == Ok::<ZonesView, ErrorView>(z@),
            Err(e) => side_zones(content@) == Err::<ZonesView, ErrorView>(e@),
        },
{
    if content.is_empty() {
        let z = Zettel {
            raw_frontmatter: String::new(),
            body: String::new(),
            reference_section: String::new(),
        };
        proof {
            assert(z.body@ =~= Seq::<char>::empty());
            assert(z.raw_frontmatter@ =~= Seq::<char>::empty());
            assert(z.reference_section@ =~= Seq::<char>::empty());
        }
        return Ok(z);
    }
    parser::split_zones(content)
}

/// The note that merged zones make up.
pub open spec fn assembled(
    path: Seq<char>,
    fm: Seq<char>,
    body: Seq<char>,
    reference: Seq<char>,
) -> Result<Seq<char>, ErrorView> {
    match frontmatter_of(fm, path) {
        Err(e) => Err(e),
        Ok(m) => match inline_fields_of(body, reference) {
            Err(e) => Err(e),
            Ok(_) => Ok(serialized(m, body, reference)),
        },
    }
}

/// Whether a text is that of merged zones. A front matter of plain values is read
/// and written as it is.
pub open spec fn is_assembly(
    path: Seq<char>,
    fm: Seq<char>,
    body: Seq<char>,
    reference: Seq<char>,
    s: Seq<char>,
) -> bool {
    &&& assembled(path, fm, body, reference) == Ok::<Seq<char>, ErrorView>(s)
    &&& is_text(frontmatter_of(fm, path)->Ok_0, body, reference, s)
    &&& reads_front(fm, path)
}

/// Puts merged zones together to a note, unless they do not make one.
pub fn assemble(path: &str, fm: &str, body: String, reference: String) -> (r: Result<
    String,
    ZettelError,
>)
    ensures
        match r {
            Ok(s) => is_assembly(path@, fm@, body@, reference@, s@),
            Err(e) => assembled(path@, fm@, body@, reference@) == Err::<Seq<char>, ErrorView>(e@),
        },
{
    let meta = match parser::parse_frontmatter(fm, path) {
        Ok(m) => m,
        Err(e) => {
            return Err(e);
        },
    };
    let inline_fields = match parser::extract_inline_fields(body.as_str(), reference.as_str()) {
        Ok(f) => f,
        Err(e) => {
            return Err(e);
        },
    };
    let wikilinks = parser::extract_wikilinks(fm, body.as_str(), reference.as_str());
    let z = ParsedZettel {
        meta,
        body,
        reference_section: reference,
        inline_fields,
        wikilinks,
        path: text::copy(path),
    };
    Ok(parser::serialize(&z))
}

// ---------------------------------------------------------------------------
// Last writer wins
// ---------------------------------------------------------------------------
/// The content that wins: that of the later time stamp, ours where they are the
/// same or one is missing.
pub open spec fn lww_winner(c: ConflictFile) -> Seq<char> {
    match (c.ours_hlc, c.theirs_hlc) {
        (Some(o), Some(t)) => if o.before(t) {
            c.theirs@
        } else {
            c.ours@
        },
        _ => c.ours@,
    }
}

pub fn pick_lww_winner(conflict: &ConflictFile) -> (r: String)
    ensures
        r@ == lww_winner(*conflict),
{
    match (&conflict.ours_hlc, &conflict.theirs_hlc) {
        (Some(ours_hlc), Some(theirs_hlc)) => {
            if *ours_hlc < *theirs_hlc {
                text::copy(conflict.theirs.as_str())
            } else {
                text::copy(conflict.ours.as_str())
            }
        },
        _ => text::copy(conflict.ours.as_str()),
    }
}

/// Whether files resolve conflicts one for one, each by a rule.
pub open spec fn resolves(
    conflicts: Seq<ConflictFile>,
    files: Seq<ResolvedFile>,
    rule: spec_fn(ConflictFile, Seq<char>) -> bool,
) -> bool {
    &&& files.len() == conflicts.len()
    &&& forall|i: int|
        0 <= i < files.len() ==> (#[trigger] files[i]).path@ == conflicts[i].path@
            && files[i].fm_crdt_bytes is None && rule(conflicts[i], files[i].content@)
}

proof fn lemma_resolves_push(
    conflicts: Seq<ConflictFile>,
    files: Seq<ResolvedFile>,
    rule: spec_fn(ConflictFile, Seq<char>) -> bool,
    f: ResolvedFile,
)
    requires
        files.len() < conflicts.len(),
        resolves(conflicts.take(files.len() as int), files, rule),
        f.path@ == conflicts[files.len() as int].path@,
        f.fm_crdt_bytes is None,
        rule(conflicts[files.len() as int], f.content@),
    ensures
        resolves(conflicts.take(files.len() as int + 1), files.push(f), rule),
{
    let n = files.len() as int;
    let c = conflicts.take(n + 1);
    let g = files.push(f);
    assert forall|i: int| 0 <= i < g.len() implies (#[trigger] g[i]).path@ == c[i].path@
        && g[i].fm_crdt_bytes is None && rule(c[i], g[i].content@) by {
        if i < n {
            assert(g[i] == files[i]);
            assert(c[i] == conflicts.take(n)[i]);
        }
    }
}

pub open spec fn lww_rule() -> spec_fn(ConflictFile, Seq<char>) -> bool {
    |c: ConflictFile, s: Seq<char>| s == lww_winner(c)
}

/// Resolves each conflict for the side with the later time stamp.
pub fn resolve_lww(conflicts: Vec<ConflictFile>) -> (r: Result<Vec<ResolvedFile>, ZettelError>)
    ensures
        r matches Ok(files) && resolves(conflicts@, files@, lww_rule()),
{
    let mut files: Vec<ResolvedFile> = Vec::new();
    let mut i: usize = 0;
    while i < conflicts.len()
        invariant
            i <= conflicts@.len(),
            files@.len() == i,
            resolves(conflicts@.take(i as int), files@, lww_rule()),
        decreases conflicts@.len() - i,
    {
        let content = pick_lww_winner(&conflicts[i]);
        let path = text::copy(conflicts[i].path.as_str());
        let f = ResolvedFile { path, content, fm_crdt_bytes: None };
        proof {
            lemma_resolves_push(conflicts@, files@, lww_rule(), f);
        }
        files.push(f);
        i = i + 1;
    }
    proof {
        assert(conflicts@.take(i as int) =~= conflicts@);
    }
    Ok(files)
}

// ---------------------------------------------------------------------------
// The default strategy
// ---------------------------------------------------------------------------
pub open spec fn ancestor_text(c: ConflictFile) -> Seq<char> {
    match c.ancestor {
        Some(s) => s@,
        None => Seq::empty(),
    }
}

/// Whether a front matter is a merge of those of three zones.
pub open spec fn front_merged(a: ZonesView, o: ZonesView, t: ZonesView, fm: Seq<char>) -> bool {
    match (fm_fields(a.frontmatter), fm_fields(o.frontmatter), fm_fields(t.frontmatter)) {
        (Ok(x), Ok(y), Ok(z)) => is_fm_merge_text(x, y, z, fm),
        _ => false,
    }
}

/// Whether a text is a merge of three, and the changed one where only one side
/// changed it.
pub open spec fn body_merged(a: Seq<char>, o: Seq<char>, t: Seq<char>, m: Seq<char>) -> bool {
    &&& is_text_merge(a, o, t, m)
    &&& t == a ==> m == o
    &&& o == a ==> m == t
}

/// Whether a note resolves a conflict by the default strategy: all three sides
/// have zones, and the note is made of a merge of each zone.
pub open spec fn default_resolution(c: ConflictFile, content: Seq<char>) -> bool {
    match (side_zones(ancestor_text(c)), side_zones(c.ours@), side_zones(c.theirs@)) {
        (Ok(a), Ok(o), Ok(t)) => exists|fm: Seq<char>, b: Seq<char>, r: Seq<char>|
            #![trigger assembled(c.path@, fm, b, r)]
            {
                &&& front_merged(a, o, t, fm)
                &&& body_merged(a.body, o.body, t.body, b)
                &&& is_reference_merge(a.reference, o.reference, t.reference, r)
                &&& assembled(c.path@, fm, b, r) == Ok::<Seq<char>, ErrorView>(content)
                &&& is_assembly(c.path@, fm, b, r, content)
                &&& has_plain_fields(a.frontmatter) && has_plain_fields(o.frontmatter)
                    && has_plain_fields(t.frontmatter)
            },
        _ => false,
    }
}

/// Why a conflict cannot be merged: the first side without zones, or else the
/// first front matter that cannot be read.
pub open spec fn unreadable(c: ConflictFile) -> Option<ErrorView> {
    match (side_zones(ancestor_text(c)), side_zones(c.ours@), side_zones(c.theirs@)) {
        (Err(e), _, _) => Some(e),
        (Ok(_), Err(e), _) => Some(e),
        (Ok(_), Ok(_), Err(e)) => Some(e),
        (Ok(a), Ok(o), Ok(t)) => match (
            fm_fields(a.frontmatter),
            fm_fields(o.frontmatter),
            fm_fields(t.frontmatter),
        ) {
            (Err(e), _, _) => Some(e),
            (Ok(_), Err(e), _) => Some(e),
            (Ok(_), Ok(_), Err(e)) => Some(e),
            _ => None,
        },
    }
}

/// A relation between three bodies and a merge of them.
pub type BodyRule = spec_fn(Seq<char>, Seq<char>, Seq<char>, Seq<char>) -> bool;

/// Whether an error is one that resolving a conflict may give: that of a side
/// which cannot be read, else that of merged zones which make no note. The merge
/// itself does not fail.
pub open spec fn resolution_error(c: ConflictFile, bodies: BodyRule, e: ErrorView) -> bool {
    match unreadable(c) {
        Some(x) => e == x,
        None => {
            let a = side_zones(ancestor_text(c))->Ok_0;
            let o = side_zones(c.ours@)->Ok_0;
            let t = side_zones(c.theirs@)->Ok_0;
            exists|fm: Seq<char>, b: Seq<char>, r: Seq<char>|
                #![trigger assembled(c.path@, fm, b, r)]
                {
                    &&& front_merged(a, o, t, fm)
                    &&& bodies(a.body, o.body, t.body, b)
                    &&& is_reference_merge(a.reference, o.reference, t.reference, r)
                    &&& assembled(c.path@, fm, b, r) == Err::<Seq<char>, ErrorView>(e)
                }
        },
    }
}

/// Whether an error is that of one of some conflicts, with none before it that
/// cannot be read.
pub open spec fn fails_with(
    conflicts: Seq<ConflictFile>,
    bodies: BodyRule,
    e: ErrorView,
) -> bool {
    exists|i: int|
        0 <= i < conflicts.len() && #[trigger] resolution_error(conflicts[i], bodies, e) && (
        forall|j: int| 0 <= j < i ==> unreadable(#[trigger] conflicts[j]) is None)
}

pub open spec fn default_bodies() -> BodyRule {
    |a: Seq<char>, o: Seq<char>, t: Seq<char>, m: Seq<char>| body_merged(a, o, t, m)
}

pub open spec fn default_rule() -> spec_fn(ConflictFile, Seq<char>) -> bool {
    |c: ConflictFile, s: Seq<char>| default_resolution(c, s)
}

fn three_sides(c: &ConflictFile) -> (r: Result<(Zettel, Zettel, Zettel), ZettelError>)
    ensures
        match r {
            Ok((a, o, t)) => side_zones(ancestor_text(*c)) == Ok::<ZonesView, ErrorView>(a@)
                && side_zones(c.ours@) == Ok::<ZonesView, ErrorView>(o@) && side_zones(c.theirs@)
                == Ok::<ZonesView, ErrorView>(t@),
            Err(e) => unreadable(*c) == Some(e@),
        },
{
    let empty = String::new();
    proof {
        assert(empty@ =~= Seq::<char>::empty());
    }
    let ancestor = match &c.ancestor {
        Some(s) => s.as_str(),
        None => empty.as_str(),
    };
    let a = match parse_zones(ancestor) {
        Ok(z) => z,
        Err(e) => {
            return Err(e);
        },
    };
    let o = match parse_zones(c.ours.as_str()) {
        Ok(z) => z,
        Err(e) => {
            return Err(e);
        },
    };
    let t = match parse_zones(c.theirs.as_str()) {
        Ok(z) => z,
        Err(e) => {
            return Err(e);
        },
    };
    Ok((a, o, t))
}

fn resolve_default_one(c: &ConflictFile) -> (r: Result<String, ZettelError>)
    ensures
        match r {
            Ok(s) => default_rule()(*c, s@) && unreadable(*c) is None,
            Err(e) => resolution_error(*c, default_bodies(), e@),
        },
{
    let (a, o, t) = match three_sides(c) {
        Ok(z) => z,
        Err(e) => {
            return Err(e);
        },
    };
    let fm = match merge_frontmatter(
        a.raw_frontmatter.as_str(),
        o.raw_frontmatter.as_str(),
        t.raw_frontmatter.as_str(),
    ) {
        Ok(s) => s,
        Err(e) => {
            return Err(e);
        },
    };
    let body = match merge_body(a.body.as_str(), o.body.as_str(), t.body.as_str()) {
        Ok(s) => s,
        Err(e) => {
            return Err(e);
        },
    };
    let reference = match merge_reference(
        a.reference_section.as_str(),
        o.reference_section.as_str(),
        t.reference_section.as_str(),
    ) {
        Ok(s) => s,
        Err(e) => {
            return Err(e);
        },
    };
    let ghost bv = body@;
    let ghost rv = reference@;
    proof {
        assert(front_merged(a@, o@, t@, fm@));
        assert(body_merged(a@.body, o@.body, t@.body, bv));
    }
    match assemble(c.path.as_str(), fm.as_str(), body, reference) {
        Ok(s) => {
            proof {
                assert(assembled(c.path@, fm@, bv, rv) == Ok::<Seq<char>, ErrorView>(s@));
            }
            Ok(s)
        },
        Err(e) => {
            proof {
                assert(assembled(c.path@, fm@, bv, rv) == Err::<Seq<char>, ErrorView>(e@));
                assert(default_bodies()(a@.body, o@.body, t@.body, bv));
            }
            Err(e)
        },
    }
}

/// Whether a result is one that a strategy may give for some conflicts.
pub open spec fn is_resolution(
    conflicts: Seq<ConflictFile>,
    strategy: Option<&str>,
    r: Result<Vec<ResolvedFile>, ZettelError>,
) -> bool {
    if strategy matches Some(s) && s@ == "preset:last-writer-wins"@ {
        r matches Ok(files) && resolves(conflicts, files@, lww_rule())
    } else if strategy matches Some(s) && s@ == "preset:append-log"@ {
        match r {
            Ok(files) => resolves(conflicts, files@, append_log_rule()),
            Err(e) => fails_with(conflicts, log_bodies(), e@),
        }
    } else {
        match r {
            Ok(files) => resolves(conflicts, files@, default_rule()),
            Err(e) => fails_with(conflicts, default_bodies(), e@),
        }
    }
}

/// Resolves conflicts zone by zone. The strategies `preset:last-writer-wins` and
/// `preset:append-log` go their own way; any other is the default.
#[verifier::spinoff_prover]
pub fn resolve_conflicts(conflicts: Vec<ConflictFile>, crdt_strategy: Option<&str>) -> (r: Result<
    Vec<ResolvedFile>,
    ZettelError,
>)
    ensures
        is_resolution(conflicts@, crdt_strategy, r),
{
    if let Some(strategy) = crdt_strategy {
        proof {
            reveal_strlit("preset:last-writer-wins");
            reveal_strlit("preset:append-log");
            assert("preset:last-writer-wins"@[7] != "preset:append-log"@[7]);
        }
        if text::same(strategy, "preset:last-writer-wins") {
            return resolve_lww(conflicts);
        }
        if text::same(strategy, "preset:append-log") {
            return resolve_append_log(conflicts);
        }
    }
    let mut files: Vec<ResolvedFile> = Vec::new();
    let mut i: usize = 0;
    while i < conflicts.len()
        invariant
            i <= conflicts@.len(),
            files@.len() == i,
            resolves(conflicts@.take(i as int), files@, default_rule()),
            forall|j: int| 0 <= j < i ==> unreadable(#[trigger] conflicts@[j]) is None,
        decreases conflicts@.len() - i,
    {
        let content = match resolve_default_one(&conflicts[i]) {
            Ok(s) => s,
            Err(e) => {
                return Err(e);
            },
        };
        let path = text::copy(conflicts[i].path.as_str());
        let f = ResolvedFile { path, content, fm_crdt_bytes: None };
        proof {
            lemma_resolves_push(conflicts@, files@, default_rule(), f);
        }
        files.push(f);
        i = i + 1;
    }
    proof {
        assert(conflicts@.take(i as int) =~= conflicts@);
    }
    Ok(files)
}

// ---------------------------------------------------------------------------
// Logs
// ---------------------------------------------------------------------------
/// The entries that are complete after some lines, and the one that is open. An
/// entry begins with `- [`; the lines after it belong to it.
pub open spec fn log_state(ls: Seq<Seq<char>>) -> (Seq<Seq<char>>, Seq<char>)
    decreases ls.len(),
{
    if ls.len() == 0 {
        (Seq::empty(), Seq::empty())
    } else {
        let (es, cur) = log_state(ls.drop_last());
        let l = ls.last();
        if text::has_prefix(l, "- ["@) {
            (closed(es, cur), l)
        } else if cur.len() == 0 {
            (es, cur)
        } else if text::is_blank(l) {
            (es, cur.push('\n'))
        } else {
            (es, cur.push('\n') + l)
        }
    }
}

/// The entries with the open one closed.
pub open spec fn closed(es: Seq<Seq<char>>, cur: Seq<char>) -> Seq<Seq<char>> {
    if cur.len() == 0 {
        es
    } else {
        es.push(trimmed_end(cur))
    }
}

pub open spec fn log_entries(body: Seq<char>) -> Seq<Seq<char>> {
    let (es, cur) = log_state(lines(body));
    closed(es, cur)
}

/// The entries of a log.
pub fn parse_log_entries(body: &str) -> (r: Vec<String>)
    ensures
        texts(r@) == log_entries(body@),
{
    let ls = text::split_lines(body);
    let ghost all = lines(body@);
    let mut entries: Vec<String> = Vec::new();
    let mut current = String::new();
    let mut i: usize = 0;
    proof {
        reveal_strlit("- [");
        assert(all.take(0) =~= Seq::<Seq<char>>::empty());
        assert(texts(entries@) =~= Seq::<Seq<char>>::empty());
        assert(current@ =~= Seq::<char>::empty());
    }
    while i < ls.len()
        invariant
            i <= ls@.len(),
            all == texts(ls@),
            log_state(all.take(i as int)) == (texts(entries@), current@),
        decreases ls@.len() - i,
    {
        let line = ls[i].as_str();
        let ghost before = current@;
        proof {
            let t = all.take(i + 1);
            assert(t.drop_last() =~= all.take(i as int));
            assert(t.last() == line@);
        }
        if text::starts_with(line, "- [") {
            if !current.as_str().is_empty() {
                let e = text::trim_end(current.as_str());
                proof {
                    text::lemma_texts_push(entries@, e);
                }
                entries.push(e);
            }
            current = text::copy(line);
        } else if !current.as_str().is_empty() {
            current.push('\n');
            if !text::blank(line) {
                current.append(line);
            }
        }
        i = i + 1;
    }
    proof {
        assert(all.take(i as int) =~= all);
    }
    if !current.as_str().is_empty() {
        let e = text::trim_end(current.as_str());
        proof {
            text::lemma_texts_push(entries@, e);
        }
        entries.push(e);
    }
    entries
}

/// The first line of an entry.
pub open spec fn first_line(e: Seq<char>) -> Seq<char> {
    let ls = lines(e);
    if ls.len() == 0 {
        Seq::empty()
    } else {
        ls[0]
    }
}

fn head_line(e: &str) -> (r: String)
    ensures
        r@ == first_line(e@),
{
    let ls = text::split_lines(e);
    if ls.len() == 0 {
        let s = String::new();
        proof {
            assert(s@ =~= Seq::<char>::empty());
        }
        s
    } else {
        proof {
            assert(texts(ls@)[0] == ls@[0]@);
        }
        text::copy(ls[0].as_str())
    }
}

/// What two entries share that are the same: the first line after the check box
/// of six bytes. A shorter line, or one in which the sixth byte ends within a
/// character, counts whole.
pub open spec fn dedup_key(e: Seq<char>) -> Seq<char> {
    let l = first_line(e);
    match text::char_at_byte(l, 6) {
        Some(i) => if i < l.len() {
            l.skip(i)
        } else {
            l
        },
        None => l,
    }
}

/// The key by which entries of a log are told apart.
pub fn entry_dedup_key(entry: &str) -> (r: String)
    ensures
        r@ == dedup_key(entry@),
{
    let l = head_line(entry);
    let cs = text::chars(l.as_str());
    let n: usize = cs.len();
    match text::byte_position(&cs, 6) {
        Some(i) => {
            if i < n {
                let t = text::slice(&cs, i, n);
                proof {
                    assert(t@ =~= l@.skip(i as int));
                }
                t
            } else {
                l
            }
        },
        None => l,
    }
}

/// The date of an entry: the ten bytes after the check box, where the first
/// line has as many and they hold whole characters.
pub open spec fn entry_date(e: Seq<char>) -> Option<Seq<char>> {
    let l = first_line(e);
    match (text::char_at_byte(l, 6), text::char_at_byte(l, 16)) {
        (Some(i), Some(j)) => Some(l.subrange(i, j)),
        _ => None,
    }
}

/// The date of a log entry.
pub fn extract_entry_date(entry: &str) -> (r: Option<String>)
    ensures
        opt_text(r) == entry_date(entry@),
{
    let l = head_line(entry);
    let cs = text::chars(l.as_str());
    proof {
        if text::char_at_byte(cs@, 6) is Some && text::char_at_byte(cs@, 16) is Some {
            text::lemma_byte_order(cs@, 6, 16);
        }
    }
    match (text::byte_position(&cs, 6), text::byte_position(&cs, 16)) {
        (Some(i), Some(j)) => Some(text::slice(&cs, i, j)),
        _ => None,
    }
}

/// The date that an entry is sorted by; an entry without one comes first.
pub open spec fn sort_date(e: Seq<char>) -> Seq<char> {
    match entry_date(e) {
        Some(d) => d,
        None => Seq::empty(),
    }
}

fn date_of(e: &str) -> (r: String)
    ensures
        r@ == sort_date(e@),
{
    match extract_entry_date(e) {
        Some(d) => d,
        None => {
            let s = String::new();
            proof {
                assert(s@ =~= Seq::<char>::empty());
            }
            s
        },
    }
}

pub open spec fn has_entry_key(es: Seq<Seq<char>>, key: Seq<char>) -> bool {
    exists|i: int| 0 <= i < es.len() && dedup_key(#[trigger] es[i]) == key
}

/// The entries in order, of those with one key the first.
pub open spec fn unique_entries(es: Seq<Seq<char>>) -> Seq<Seq<char>>
    decreases es.len(),
{
    if es.len() == 0 {
        es
    } else {
        let u = unique_entries(es.drop_last());
        if has_entry_key(u, dedup_key(es.last())) {
            u
        } else {
            u.push(es.last())
        }
    }
}

/// An entry put into sorted entries, behind those of its date.
pub open spec fn inserted_entry(s: Seq<Seq<char>>, e: Seq<char>) -> Seq<Seq<char>>
    decreases s.len(),
{
    if s.len() > 0 && text::lt(sort_date(e), sort_date(s.last())) {
        inserted_entry(s.drop_last(), e).push(s.last())
    } else {
        s.push(e)
    }
}

/// Entries by date; those of one date stay in order.
pub open spec fn by_date(es: Seq<Seq<char>>) -> Seq<Seq<char>>
    decreases es.len(),
{
    if es.len() == 0 {
        es
    } else {
        inserted_entry(by_date(es.drop_last()), es.last())
    }
}

/// The entries of three logs merged: all of them, each once, by date.
pub open spec fn merged_entries(a: Seq<char>, o: Seq<char>, t: Seq<char>) -> Seq<Seq<char>> {
    by_date(unique_entries(log_entries(o) + log_entries(t) + log_entries(a)))
}

pub open spec fn merged_log(a: Seq<char>, o: Seq<char>, t: Seq<char>) -> Seq<char> {
    join(merged_entries(a, o, t), "\n"@)
}

fn key_seen(es: &Vec<String>, key: &str) -> (r: bool)
    ensures
        r == has_entry_key(texts(es@), key@),
{
    let mut i: usize = 0;
    while i < es.len()
        invariant
            i <= es@.len(),
            forall|j: int| 0 <= j < i ==> dedup_key(#[trigger] texts(es@)[j]) != key@,
        decreases es@.len() - i,
    {
        let k = entry_dedup_key(es[i].as_str());
        if text::same(k.as_str(), key) {
            proof {
                assert(dedup_key(texts(es@)[i as int]) == key@);
            }
            return true;
        }
        i = i + 1;
    }
    false
}

fn add_unique(out: &mut Vec<String>, es: &Vec<String>, Ghost(done): Ghost<Seq<Seq<char>>>)
    requires
        texts(old(out)@) == unique_entries(done),
    ensures
        texts(final(out)@) == unique_entries(done + texts(es@)),
{
    let ghost all = texts(es@);
    let mut i: usize = 0;
    proof {
        assert(done + all.take(0) =~= done);
    }
    while i < es.len()
        invariant
            i <= es@.len(),
            all == texts(es@),
            texts(out@) == unique_entries(done + all.take(i as int)),
        decreases es@.len() - i,
    {
        let key = entry_dedup_key(es[i].as_str());
        proof {
            let t = done + all.take(i + 1);
            assert(t.drop_last() =~= done + all.take(i as int));
            assert(t.last() == es@[i as int]@);
        }
        if !key_seen(out, key.as_str()) {
            let s = text::copy(es[i].as_str());
            proof {
                text::lemma_texts_push(out@, s);
            }
            out.push(s);
        }
        i = i + 1;
    }
    proof {
        assert(all.take(i as int) =~= all);
    }
}

proof fn lemma_inserted_at(s: Seq<Seq<char>>, e: Seq<char>, k: int)
    requires
        0 <= k <= s.len(),
        forall|j: int| k <= j < s.len() ==> text::lt(sort_date(e), sort_date(#[trigger] s[j])),
        k > 0 ==> !text::lt(sort_date(e), sort_date(s[k - 1])),
    ensures
        inserted_entry(s, e) == s.insert(k, e),
    decreases s.len(),
{
    if k == s.len() {
        assert(s.insert(k, e) =~= s.push(e));
    } else {
        assert(text::lt(sort_date(e), sort_date(s[s.len() - 1])));
        let d = s.drop_last();
        assert forall|j: int| k <= j < d.len() implies text::lt(
            sort_date(e),
            sort_date(#[trigger] d[j]),
        ) by {
            assert(d[j] == s[j]);
        }
        lemma_inserted_at(d, e, k);
        assert(s.insert(k, e) =~= d.insert(k, e).push(s.last()));
    }
}

/// Merges three versions of a log: all entries, each once, by date.
pub fn merge_log_section(ancestor: &str, ours: &str, theirs: &str) -> (r: String)
    ensures
        r@ == merged_log(ancestor@, ours@, theirs@),
{
    let a = parse_log_entries(ancestor);
    let o = parse_log_entries(ours);
    let t = parse_log_entries(theirs);
    let mut unique: Vec<String> = Vec::new();
    proof {
        assert(texts(unique@) =~= Seq::<Seq<char>>::empty());
        assert(unique_entries(Seq::<Seq<char>>::empty()) =~= Seq::<Seq<char>>::empty());
    }
    add_unique(&mut unique, &o, Ghost(Seq::empty()));
    proof {
        assert(Seq::<Seq<char>>::empty() + texts(o@) =~= texts(o@));
    }
    add_unique(&mut unique, &t, Ghost(texts(o@)));
    add_unique(&mut unique, &a, Ghost(texts(o@) + texts(t@)));
    let ghost all = texts(unique@);
    let mut out: Vec<String> = Vec::new();
    let mut i: usize = 0;
    proof {
        assert(all.take(0) =~= Seq::<Seq<char>>::empty());
        assert(texts(out@) =~= Seq::<Seq<char>>::empty());
    }
    while i < unique.len()
        invariant
            i <= unique@.len(),
            all == texts(unique@),
            texts(out@) == by_date(all.take(i as int)),
        decreases unique@.len() - i,
    {
        let e = text::copy(unique[i].as_str());
        let d = date_of(e.as_str());
        let ghost before = texts(out@);
        let mut k: usize = out.len();
        while k > 0 && text::less(d.as_str(), date_of(out[k - 1].as_str()).as_str())
            invariant
                k <= out@.len(),
                texts(out@) == before,
                d@ == sort_date(e@),
                forall|j: int|
                    k <= j < before.len() ==> text::lt(sort_date(e@), sort_date(#[trigger] before[j])),
            decreases k,
        {
            proof {
                assert(before[k - 1] == out@[k - 1]@);
            }
            k = k - 1;
        }
        proof {
            if k > 0 {
                assert(before[k - 1] == out@[k - 1]@);
            }
            lemma_inserted_at(before, e@, k as int);
            let t = all.take(i + 1);
            assert(t.drop_last() =~= all.take(i as int));
            assert(t.last() == e@);
        }
        let ghost ev = e@;
        out.insert(k, e);
        proof {
            assert(texts(out@) =~= before.insert(k as int, ev));
        }
        i = i + 1;
    }
    proof {
        assert(all.take(i as int) =~= all);
    }
    text::join_all(&out, "\n")
}

// ---------------------------------------------------------------------------
// Sections
// ---------------------------------------------------------------------------
pub struct SectionState {
    pub sections: Seq<(Option<Seq<char>>, Seq<char>)>,
    pub heading: Option<Seq<char>>,
    pub lines: Seq<Seq<char>>,
}

/// The sections that are complete after some lines, and the one that is open.
pub open spec fn section_state(ls: Seq<Seq<char>>) -> SectionState
    decreases ls.len(),
{
    if ls.len() == 0 {
        SectionState { sections: Seq::empty(), heading: None, lines: Seq::empty() }
    } else {
        let s = section_state(ls.drop_last());
        let l = ls.last();
        if text::has_prefix(l, "## "@) {
            SectionState {
                sections: if s.lines.len() > 0 || s.heading is Some {
                    s.sections.push((s.heading, join(s.lines, "\n"@)))
                } else {
                    s.sections
                },
                heading: Some(trimmed(l.skip("## "@.len() as int))),
                lines: Seq::empty(),
            }
        } else {
            SectionState { lines: s.lines.push(l), ..s }
        }
    }
}

/// The sections of a body: the headings of second level and what follows each.
pub open spec fn sections_of(body: Seq<char>) -> Seq<(Option<Seq<char>>, Seq<char>)> {
    let s = section_state(lines(body));
    s.sections.push((s.heading, join(s.lines, "\n"@)))
}

pub open spec fn sections_view(s: Seq<(Option<String>, String)>) -> Seq<
    (Option<Seq<char>>, Seq<char>),
> {
    Seq::new(s.len(), |i: int| (opt_text(s[i].0), s[i].1@))
}

/// Splits a body at its headings of second level.
pub fn split_body_sections(body: &str) -> (r: Vec<(Option<String>, String)>)
    ensures
        sections_view(r@) == sections_of(body@),
{
    let ls = text::split_lines(body);
    let ghost all = lines(body@);
    let mut out: Vec<(Option<String>, String)> = Vec::new();
    let mut heading: Option<String> = None;
    let mut current: Vec<String> = Vec::new();
    let mut i: usize = 0;
    proof {
        assert(all.take(0) =~= Seq::<Seq<char>>::empty());
        assert(sections_view(out@) =~= Seq::<(Option<Seq<char>>, Seq<char>)>::empty());
        assert(texts(current@) =~= Seq::<Seq<char>>::empty());
    }
    while i < ls.len()
        invariant
            i <= ls@.len(),
            all == texts(ls@),
            section_state(all.take(i as int)).sections == sections_view(out@),
            section_state(all.take(i as int)).heading == opt_text(heading),
            section_state(all.take(i as int)).lines == texts(current@),
        decreases ls@.len() - i,
    {
        proof {
            let t = all.take(i + 1);
            assert(t.drop_last() =~= all.take(i as int));
            assert(t.last() == ls@[i as int]@);
        }
        match text::strip_prefix(ls[i].as_str(), "## ") {
            Some(rest) => {
                if current.len() > 0 || heading.is_some() {
                    let body_text = text::join_all(&current, "\n");
                    let ghost before = out@;
                    let h = text::copy_opt(&heading);
                    out.push((h, body_text));
                    proof {
                        assert(sections_view(out@) =~= sections_view(before).push(
                            (opt_text(h), body_text@),
                        ));
                    }
                    current = Vec::new();
                }
                heading = Some(text::trim(rest.as_str()));
                proof {
                    assert(texts(current@) =~= Seq::<Seq<char>>::empty());
                }
            },
            None => {
                let s = text::copy(ls[i].as_str());
                proof {
                    text::lemma_texts_push(current@, s);
                }
                current.push(s);
            },
        }
        i = i + 1;
    }
    proof {
        assert(all.take(i as int) =~= all);
    }
    let body_text = text::join_all(&current, "\n");
    let ghost before = out@;
    out.push((heading, body_text));
    proof {
        assert(sections_view(out@) =~= sections_view(before).push((opt_text(heading), body_text@)));
    }
    out
}

/// Whether a section is a log: some line of it has a check box and a date.
pub open spec fn is_log(body: Seq<char>) -> bool {
    exists|i: int|
        0 <= i < lines(body).len() && !text::is_blank(#[trigger] lines(body)[i]) && matched(
            LOG_ENTRY@,
            lines(body)[i],
        )
}

pub fn is_log_section(body: &str) -> (r: bool)
    ensures
        r == is_log(body@),
{
    let ls = text::split_lines(body);
    let flags = match_each(LOG_ENTRY, &ls);
    let mut i: usize = 0;
    while i < ls.len()
        invariant
            i <= ls@.len() == flags@.len(),
            texts(ls@) == lines(body@),
            forall|j: int|
                0 <= j < flags@.len() ==> #[trigger] flags@[j] == matched(LOG_ENTRY@, ls@[j]@),
            forall|j: int|
                0 <= j < i ==> text::is_blank(#[trigger] lines(body@)[j]) || !matched(
                    LOG_ENTRY@,
                    lines(body@)[j],
                ),
        decreases ls@.len() - i,
    {
        proof {
            assert(texts(ls@)[i as int] == ls@[i as int]@);
            assert(flags@[i as int] == matched(LOG_ENTRY@, ls@[i as int]@));
        }
        if flags[i] && !text::blank(ls[i].as_str()) {
            return true;
        }
        i = i + 1;
    }
    false
}

/// The sections by heading: what stands before the first heading, and what
/// stands under each. Of one heading twice the last counts.
pub struct SectionMap {
    pub lead: Option<Seq<char>>,
    pub titled: Seq<(Seq<char>, Seq<char>)>,
}

pub open spec fn section_map(s: Seq<(Option<Seq<char>>, Seq<char>)>) -> SectionMap
    decreases s.len(),
{
    if s.len() == 0 {
        SectionMap { lead: None, titled: Seq::empty() }
    } else {
        let m = section_map(s.drop_last());
        match s.last().0 {
            None => SectionMap { lead: Some(s.last().1), ..m },
            Some(h) => SectionMap { titled: textmap::put(m.titled, h, s.last().1), ..m },
        }
    }
}

#[derive(Debug)]
struct Sections {
    lead: Option<String>,
    titled: TextMap<String>,
}

impl Sections {
    spec fn shows(self, m: SectionMap) -> bool {
        &&& opt_text(self.lead) == m.lead
        &&& mapped(self.titled@) == m.titled
        &&& self.titled.sorted()
    }

    fn get(&self, heading: &Option<String>) -> (r: Option<String>)
        ensures
            forall|m: SectionMap| #[trigger]
                self.shows(m) ==> opt_text(r) == section_at(m, opt_text(*heading)),
    {
        match heading {
            None => text::copy_opt(&self.lead),
            Some(h) => {
                proof {
                    textmap::lemma_mapped(self.titled@, h@);
                }
                match self.titled.get(h.as_str()) {
                    Some(s) => Some(text::copy(s.as_str())),
                    None => None,
                }
            },
        }
    }
}

pub open spec fn section_at(m: SectionMap, heading: Option<Seq<char>>) -> Option<Seq<char>> {
    match heading {
        None => m.lead,
        Some(h) => lookup(m.titled, h),
    }
}

pub open spec fn or_nothing(o: Option<Seq<char>>) -> Seq<char> {
    match o {
        Some(s) => s,
        None => Seq::empty(),
    }
}

fn collect_sections(body: &str) -> (r: Sections)
    ensures
        r.shows(section_map(sections_of(body@))),
{
    let parts = split_body_sections(body);
    let ghost all = sections_view(parts@);
    let mut lead: Option<String> = None;
    let mut titled: TextMap<String> = TextMap::new();
    let mut i: usize = 0;
    proof {
        assert(all.take(0) =~= Seq::<(Option<Seq<char>>, Seq<char>)>::empty());
        assert(mapped(titled@) =~= Seq::<(Seq<char>, Seq<char>)>::empty());
    }
    while i < parts.len()
        invariant
            i <= parts@.len(),
            all == sections_view(parts@),
            opt_text(lead) == section_map(all.take(i as int)).lead,
            mapped(titled@) == section_map(all.take(i as int)).titled,
            titled.sorted(),
        decreases parts@.len() - i,
    {
        proof {
            let t = all.take(i + 1);
            assert(t.drop_last() =~= all.take(i as int));
            assert(t.last() == (opt_text(parts@[i as int].0), parts@[i as int].1@));
        }
        let s = text::copy(parts[i].1.as_str());
        match &parts[i].0 {
            None => {
                lead = Some(s);
            },
            Some(h) => {
                proof {
                    textmap::lemma_mapped_put(titled@, h@, s);
                }
                titled.insert(text::copy(h.as_str()), s);
            },
        }
        i = i + 1;
    }
    proof {
        assert(all.take(i as int) =~= all);
    }
    Sections { lead, titled }
}

/// The headings of sections in their order; none for what stands before the
/// first heading.
pub open spec fn headings_of(parts: Seq<(Option<Seq<char>>, Seq<char>)>) -> Seq<
    Option<Seq<char>>,
> {
    Seq::new(parts.len(), |i: int| parts[i].0)
}

/// Headings, and behind them those of a second list that are not among them.
pub open spec fn with_new(
    hs: Seq<Option<Seq<char>>>,
    more: Seq<Option<Seq<char>>>,
) -> Seq<Option<Seq<char>>>
    decreases more.len(),
{
    if more.len() == 0 {
        hs
    } else {
        let p = with_new(hs, more.drop_last());
        if p.contains(more.last()) {
            p
        } else {
            p.push(more.last())
        }
    }
}

pub open spec fn opts(v: Seq<Option<String>>) -> Seq<Option<Seq<char>>> {
    Seq::new(v.len(), |i: int| opt_text(v[i]))
}

fn same_heading(a: &Option<String>, b: &Option<String>) -> (r: bool)
    ensures
        r == (opt_text(*a) == opt_text(*b)),
{
    match (a, b) {
        (None, None) => true,
        (Some(x), Some(y)) => text::same(x.as_str(), y.as_str()),
        _ => false,
    }
}

fn has_heading(v: &Vec<Option<String>>, h: &Option<String>) -> (r: bool)
    ensures
        r == opts(v@).contains(opt_text(*h)),
{
    let mut i: usize = 0;
    while i < v.len()
        invariant
            i <= v@.len(),
            forall|j: int| 0 <= j < i ==> #[trigger] opts(v@)[j] != opt_text(*h),
        decreases v@.len() - i,
    {
        if same_heading(&v[i], h) {
            proof {
                assert(opts(v@)[i as int] == opt_text(*h));
            }
            return true;
        }
        i = i + 1;
    }
    false
}

/// Adds the headings of sections that are not there yet, in their order.
fn add_headings(hs: &mut Vec<Option<String>>, parts: &Vec<(Option<String>, String)>)
    ensures
        opts(final(hs)@) == with_new(opts(old(hs)@), headings_of(sections_view(parts@))),
{
    let ghost base = opts(hs@);
    let ghost more = headings_of(sections_view(parts@));
    let mut j: usize = 0;
    proof {
        assert(more.take(0) =~= Seq::<Option<Seq<char>>>::empty());
    }
    while j < parts.len()
        invariant
            j <= parts@.len(),
            more == headings_of(sections_view(parts@)),
            opts(hs@) == with_new(base, more.take(j as int)),
        decreases parts@.len() - j,
    {
        proof {
            let t = more.take(j + 1);
            assert(t.drop_last() =~= more.take(j as int));
            assert(t.last() == opt_text(parts@[j as int].0));
        }
        if !has_heading(hs, &parts[j].0) {
            let h = text::copy_opt(&parts[j].0);
            let ghost before = hs@;
            hs.push(h);
            proof {
                assert(opts(hs@) =~= opts(before).push(opt_text(h)));
            }
        }
        j = j + 1;
    }
    proof {
        assert(more.take(j as int) =~= more);
    }
}

/// Whether a text is what a section of a log-like note merges to: a log as logs
/// do, any other section as texts do.
pub open spec fn section_merged(a: Seq<char>, o: Seq<char>, t: Seq<char>, m: Seq<char>) -> bool {
    if is_log(o) || is_log(t) {
        m == merged_log(a, o, t)
    } else {
        body_merged(a, o, t, m)
    }
}

/// The line of a heading.
pub open spec fn heading_text(out: Seq<char>, h: Option<Seq<char>>) -> Seq<char> {
    match h {
        None => Seq::empty(),
        Some(t) => (if out.len() > 0 {
            "\n"@
        } else {
            Seq::empty()
        }) + "## "@ + t + "\n"@,
    }
}

pub open spec fn ended(s: Seq<char>) -> Seq<char> {
    if text::has_suffix(s, "\n"@) {
        s
    } else {
        s + "\n"@
    }
}

/// Headings and sections written one after the other.
pub open spec fn written_sections(
    hs: Seq<Option<Seq<char>>>,
    ms: Seq<Seq<char>>,
    n: int,
) -> Seq<char>
    decreases n,
{
    if n <= 0 {
        Seq::empty()
    } else {
        let out = written_sections(hs, ms, n - 1);
        out + heading_text(out, hs[n - 1]) + ended(ms[n - 1])
    }
}

/// The headings of a merge: ours in their order, then their new ones.
pub open spec fn merged_headings(o: Seq<char>, t: Seq<char>) -> Seq<Option<Seq<char>>> {
    with_new(with_new(Seq::empty(), headings_of(sections_of(o))), headings_of(sections_of(t)))
}

/// The section of a body under a heading; empty where it has none.
pub open spec fn section_under(body: Seq<char>, heading: Option<Seq<char>>) -> Seq<char> {
    or_nothing(section_at(section_map(sections_of(body)), heading))
}

/// Whether a body is a merge of three, section by section.
pub open spec fn is_log_body(a: Seq<char>, o: Seq<char>, t: Seq<char>, m: Seq<char>) -> bool {
    exists|ms: Seq<Seq<char>>|
        #![trigger log_sections(a, o, t, ms)]
        log_sections(a, o, t, ms) && m == trimmed_end(
            written_sections(merged_headings(o, t), ms, ms.len() as int),
        )
}

pub open spec fn log_sections(
    a: Seq<char>,
    o: Seq<char>,
    t: Seq<char>,
    ms: Seq<Seq<char>>,
) -> bool {
    let hs = merged_headings(o, t);
    &&& ms.len() == hs.len()
    &&& forall|i: int|
        0 <= i < ms.len() ==> section_merged(
            section_under(a, hs[i]),
            section_under(o, hs[i]),
            section_under(t, hs[i]),
            #[trigger] ms[i],
        )
}

fn or_empty(o: Option<String>) -> (r: String)
    ensures
        r@ == or_nothing(opt_text(o)),
{
    match o {
        Some(s) => s,
        None => {
            let s = String::new();
            proof {
                assert(s@ =~= Seq::<char>::empty());
            }
            s
        },
    }
}

/// Merges the bodies of log-like notes: the sections that hold a log keep all
/// entries, the others merge as texts. This succeeds.
pub fn merge_body_append_log(ancestor: &str, ours: &str, theirs: &str) -> (r: Result<
    String,
    ZettelError,
>)
    ensures
        match r {
            Ok(m) => is_log_body(ancestor@, ours@, theirs@, m@),
            Err(_) => false,
        },
{
    let am = collect_sections(ancestor);
    let om = collect_sections(ours);
    let tm = collect_sections(theirs);
    let ghost av = section_map(sections_of(ancestor@));
    let ghost ov = section_map(sections_of(ours@));
    let ghost tv = section_map(sections_of(theirs@));
    let mut hs: Vec<Option<String>> = Vec::new();
    proof {
        assert(opts(hs@) =~= Seq::<Option<Seq<char>>>::empty());
    }
    add_headings(&mut hs, &split_body_sections(ours));
    add_headings(&mut hs, &split_body_sections(theirs));
    let ghost hv = opts(hs@);
    let ghost mut ms: Seq<Seq<char>> = Seq::empty();
    let mut out = String::new();
    let mut i: usize = 0;
    proof {
        assert(out@ =~= Seq::<char>::empty());
    }
    while i < hs.len()
        invariant
            i <= hs@.len(),
            hv == opts(hs@),
            hv == merged_headings(ours@, theirs@),
            av == section_map(sections_of(ancestor@)),
            ov == section_map(sections_of(ours@)),
            tv == section_map(sections_of(theirs@)),
            am.shows(av),
            om.shows(ov),
            tm.shows(tv),
            ms.len() == i,
            forall|x: int|
                0 <= x < ms.len() ==> section_merged(
                    or_nothing(section_at(av, hv[x])),
                    or_nothing(section_at(ov, hv[x])),
                    or_nothing(section_at(tv, hv[x])),
                    #[trigger] ms[x],
                ),
            out@ == written_sections(hv, ms, i as int),
        decreases hs@.len() - i,
    {
        let ghost before = out@;
        proof {
            assert(hv[i as int] == opt_text(hs@[i as int]));
        }
        if let Some(h) = &hs[i] {
            if !out.as_str().is_empty() {
                out.append("\n");
            }
            out.append("## ");
            out.append(h.as_str());
            out.append("\n");
        }
        proof {
            assert(out@ =~= before + heading_text(before, hv[i as int]));
        }
        let a = or_empty(am.get(&hs[i]));
        let o = or_empty(om.get(&hs[i]));
        let t = or_empty(tm.get(&hs[i]));
        let section = if is_log_section(o.as_str()) || is_log_section(t.as_str()) {
            merge_log_section(a.as_str(), o.as_str(), t.as_str())
        } else {
            match merge_body(a.as_str(), o.as_str(), t.as_str()) {
                Ok(s) => s,
                Err(e) => {
                    return Err(e);
                },
            }
        };
        let ghost mid = out@;
        out.append(section.as_str());
        if !text::ends_with(section.as_str(), "\n") {
            out.append("\n");
        }
        proof {
            assert(out@ =~= mid + ended(section@));
            lemma_written_push(hv, ms, section@, i as int);
            ms = ms.push(section@);
        }
        i = i + 1;
    }
    proof {
        assert(log_sections(ancestor@, ours@, theirs@, ms));
    }
    Ok(text::trim_end(out.as_str()))
}

proof fn lemma_written_push(
    hs: Seq<Option<Seq<char>>>,
    ms: Seq<Seq<char>>,
    m: Seq<char>,
    n: int,
)
    requires
        0 <= n <= ms.len(),
    ensures
        written_sections(hs, ms.push(m), n) == written_sections(hs, ms, n),
    decreases n,
{
    if n > 0 {
        lemma_written_push(hs, ms, m, n - 1);
    }
}

/// Whether a note resolves a conflict of log-like notes.
pub open spec fn log_resolution(c: ConflictFile, content: Seq<char>) -> bool {
    match (side_zones(ancestor_text(c)), side_zones(c.ours@), side_zones(c.theirs@)) {
        (Ok(a), Ok(o), Ok(t)) => exists|fm: Seq<char>, b: Seq<char>, r: Seq<char>|
            #![trigger assembled(c.path@, fm, b, r)]
            {
                &&& front_merged(a, o, t, fm)
                &&& is_log_body(a.body, o.body, t.body, b)
                &&& is_reference_merge(a.reference, o.reference, t.reference, r)
                &&& assembled(c.path@, fm, b, r) == Ok::<Seq<char>, ErrorView>(content)
            },
        _ => false,
    }
}

pub open spec fn log_bodies() -> BodyRule {
    |a: Seq<char>, o: Seq<char>, t: Seq<char>, m: Seq<char>| is_log_body(a, o, t, m)
}

pub open spec fn append_log_rule() -> spec_fn(ConflictFile, Seq<char>) -> bool {
    |c: ConflictFile, s: Seq<char>| log_resolution(c, s)
}

fn resolve_log_one(c: &ConflictFile) -> (r: Result<String, ZettelError>)
    ensures
        match r {
            Ok(s) => append_log_rule()(*c, s@) && unreadable(*c) is None,
            Err(e) => resolution_error(*c, log_bodies(), e@),
        },
{
    let (a, o, t) = match three_sides(c) {
        Ok(z) => z,
        Err(e) => {
            return Err(e);
        },
    };
    let fm = match merge_frontmatter(
        a.raw_frontmatter.as_str(),
        o.raw_frontmatter.as_str(),
        t.raw_frontmatter.as_str(),
    ) {
        Ok(s) => s,
        Err(e) => {
            return Err(e);
        },
    };
    let body = match merge_body_append_log(a.body.as_str(), o.body.as_str(), t.body.as_str()) {
        Ok(s) => s,
        Err(e) => {
            return Err(e);
        },
    };
    let reference = match merge_reference(
        a.reference_section.as_str(),
        o.reference_section.as_str(),
        t.reference_section.as_str(),
    ) {
        Ok(s) => s,
        Err(e) => {
            return Err(e);
        },
    };
    let ghost bv = body@;
    let ghost rv = reference@;
    proof {
        assert(front_merged(a@, o@, t@, fm@));
    }
    match assemble(c.path.as_str(), fm.as_str(), body, reference) {
        Ok(s) => {
            proof {
                assert(assembled(c.path@, fm@, bv, rv) == Ok::<Seq<char>, ErrorView>(s@));
            }
            Ok(s)
        },
        Err(e) => {
            proof {
                assert(assembled(c.path@, fm@, bv, rv) == Err::<Seq<char>, ErrorView>(e@));
                assert(log_bodies()(a@.body, o@.body, t@.body, bv));
            }
            Err(e)
        },
    }
}

/// Resolves conflicts of log-like notes.
#[verifier::spinoff_prover]
pub fn resolve_append_log(conflicts: Vec<ConflictFile>) -> (r: Result<
    Vec<ResolvedFile>,
    ZettelError,
>)
    ensures
        match r {
            Ok(files) => resolves(conflicts@, files@, append_log_rule()),
            Err(e) => fails_with(conflicts@, log_bodies(), e@),
        },
{
    let mut files: Vec<ResolvedFile> = Vec::new();
    let mut i: usize = 0;
    while i < conflicts.len()
        invariant
            i <= conflicts@.len(),
            files@.len() == i,
            resolves(conflicts@.take(i as int), files@, append_log_rule()),
            forall|j: int| 0 <= j < i ==> unreadable(#[trigger] conflicts@[j]) is None,
        decreases conflicts@.len() - i,
    {
        let content = match resolve_log_one(&conflicts[i]) {
            Ok(s) => s,
            Err(e) => {
                return Err(e);
            },
        };
        let path = text::copy(conflicts[i].path.as_str());
        let f = ResolvedFile { path, content, fm_crdt_bytes: None };
        proof {
            lemma_resolves_push(conflicts@, files@, append_log_rule(), f);
        }
        files.push(f);
        i = i + 1;
    }
    proof {
        assert(conflicts@.take(i as int) =~= conflicts@);
    }
    Ok(files)
}

/// The resolver that merges by zones.
pub struct DefaultResolver;

impl ConflictResolver for DefaultResolver {
    fn resolve_conflicts(&self, conflicts: Vec<ConflictFile>, strategy: Option<&str>) -> (r: Result<
        Vec<ResolvedFile>,
        ZettelError,
    >)
        ensures
            is_resolution(conflicts@, strategy, r),
    {
        resolve_conflicts(conflicts, strategy)
    }
}

// ---------------------------------------------------------------------------
// Laws
// ---------------------------------------------------------------------------
/// With time stamps that differ, the last writer wins whichever side is ours.
pub proof fn law_lww_commutes(c: ConflictFile, d: ConflictFile)
    requires
        d.ours == c.theirs && d.theirs == c.ours,
        d.ours_hlc == c.theirs_hlc && d.theirs_hlc == c.ours_hlc,
        c.ours_hlc is Some && c.theirs_hlc is Some,
        !c.ours_hlc->0.same_as(c.theirs_hlc->0),
    ensures
        lww_winner(c) == lww_winner(d),
{
    crate::hlc::law_order_total(c.ours_hlc->0, c.theirs_hlc->0, c.ours_hlc->0);
}

/// Where both sides are the same, that content wins.
pub proof fn law_lww_idempotent(c: ConflictFile)
    requires
        c.ours@ == c.theirs@,
    ensures
        lww_winner(c) == c.ours@,
{
}

/// Whether two sides changed different things of a note: other scalars of its
/// front matter, other places of its body. The lines of the reference section
/// never get in each other's way.
pub open spec fn are_apart(a: ZonesView, o: ZonesView, t: ZonesView) -> bool {
    &&& are_separate(a.body, o.body, t.body)
    &&& match (fm_fields(a.frontmatter), fm_fields(o.frontmatter), fm_fields(t.frontmatter)) {
        (Ok(x), Ok(y), Ok(z)) => apart(x, y, z) && lists_agree(x, y, z),
        _ => false,
    }
}

/// Where the two sides changed different things, a conflict is resolved to one
/// note, whichever side is ours.
pub proof fn law_default_resolution_commutes(
    c: ConflictFile,
    d: ConflictFile,
    x: Seq<char>,
    y: Seq<char>,
)
    requires
        d.path@ == c.path@ && ancestor_text(d) == ancestor_text(c),
        (d.ours@ == c.theirs@ && d.theirs@ == c.ours@) || (d.ours@ == c.ours@ && d.theirs@
            == c.theirs@),
        default_resolution(c, x),
        default_resolution(d, y),
        are_apart(
            side_zones(ancestor_text(c))->Ok_0,
            side_zones(c.ours@)->Ok_0,
            side_zones(c.theirs@)->Ok_0,
        ),
    ensures
        x == y,
{
    let a = side_zones(ancestor_text(c))->Ok_0;
    let o = side_zones(c.ours@)->Ok_0;
    let t = side_zones(c.theirs@)->Ok_0;
    let u = side_zones(d.ours@)->Ok_0;
    let w = side_zones(d.theirs@)->Ok_0;
    let (fm, b, r) = choose|fm: Seq<char>, b: Seq<char>, r: Seq<char>|
        #![trigger assembled(c.path@, fm, b, r)]
        {
            &&& front_merged(a, o, t, fm)
            &&& body_merged(a.body, o.body, t.body, b)
            &&& is_reference_merge(a.reference, o.reference, t.reference, r)
            &&& assembled(c.path@, fm, b, r) == Ok::<Seq<char>, ErrorView>(x)
        };
    let (gm, g, q) = choose|fm: Seq<char>, b: Seq<char>, r: Seq<char>|
        #![trigger assembled(d.path@, fm, b, r)]
        {
            &&& front_merged(a, u, w, fm)
            &&& body_merged(a.body, u.body, w.body, b)
            &&& is_reference_merge(a.reference, u.reference, w.reference, r)
            &&& assembled(d.path@, fm, b, r) == Ok::<Seq<char>, ErrorView>(y)
        };
    if u == t && w == o {
        lemma_zones_agree(a, o, t, fm, b, r, gm, g, q);
    } else {
        law_text_merge_commutes(a.body, o.body, t.body, b, g);
        law_reference_commutes(a.reference, o.reference, t.reference, r, q);
        let af = fm_fields(a.frontmatter)->Ok_0;
        let of = fm_fields(o.frontmatter)->Ok_0;
        let tf = fm_fields(t.frontmatter)->Ok_0;
        let m = choose|m: FmEntries| #[trigger] is_fm_merge(af, of, tf, m) && fm == fm_text(m);
        let n = choose|m: FmEntries| #[trigger] is_fm_merge(af, of, tf, m) && gm == fm_text(m);
        law_fm_merge_unique(af, of, tf, m, n);
    }
}

/// The merges of zones in which different things were changed, in either order.
proof fn lemma_zones_agree(
    a: ZonesView,
    o: ZonesView,
    t: ZonesView,
    fm: Seq<char>,
    b: Seq<char>,
    r: Seq<char>,
    gm: Seq<char>,
    g: Seq<char>,
    q: Seq<char>,
)
    requires
        are_apart(a, o, t),
        front_merged(a, o, t, fm),
        body_merged(a.body, o.body, t.body, b),
        is_reference_merge(a.reference, o.reference, t.reference, r),
        front_merged(a, t, o, gm),
        body_merged(a.body, t.body, o.body, g),
        is_reference_merge(a.reference, t.reference, o.reference, q),
    ensures
        fm == gm && b == g && r == q,
{
    law_text_merge_commutes(a.body, o.body, t.body, b, g);
    law_reference_commutes(a.reference, o.reference, t.reference, r, q);
    let af = fm_fields(a.frontmatter)->Ok_0;
    let of = fm_fields(o.frontmatter)->Ok_0;
    let tf = fm_fields(t.frontmatter)->Ok_0;
    let m = choose|m: FmEntries| #[trigger] is_fm_merge(af, of, tf, m) && fm == fm_text(m);
    let n = choose|m: FmEntries| #[trigger] is_fm_merge(af, tf, of, m) && gm == fm_text(m);
    law_fm_merge_commutes(af, of, tf, m, n);
}

/// Where the two sides changed different things and a conflict is resolved, it is
/// resolved with the sides changed about too, to the same note.
pub proof fn law_resolve_conflicts_commutes(
    c: ConflictFile,
    d: ConflictFile,
    r: Result<Vec<ResolvedFile>, ZettelError>,
    q: Result<Vec<ResolvedFile>, ZettelError>,
)
    requires
        d.path@ == c.path@ && ancestor_text(d) == ancestor_text(c),
        d.ours@ == c.theirs@ && d.theirs@ == c.ours@,
        is_resolution(seq![c], None, r),
        is_resolution(seq![d], None, q),
        r is Ok,
        are_apart(
            side_zones(ancestor_text(c))->Ok_0,
            side_zones(c.ours@)->Ok_0,
            side_zones(c.theirs@)->Ok_0,
        ),
    ensures
        q is Ok && r->Ok_0@.len() == 1 && q->Ok_0@.len() == 1,
        q->Ok_0@[0].path@ == c.path@,
        q->Ok_0@[0].content@ == r->Ok_0@[0].content@,
{
    let cs = seq![c];
    let ds = seq![d];
    let f = r->Ok_0@;
    assert(cs[0] == c && ds[0] == d);
    assert(default_rule()(cs[0], f[0].content@));
    let x = f[0].content@;
    assert(default_resolution(c, x));
    match q {
        Ok(files) => {
            assert(default_rule()(ds[0], files@[0].content@));
            law_default_resolution_commutes(c, d, x, files@[0].content@);
        },
        Err(e) => {
            let i = choose|i: int|
                0 <= i < ds.len() && #[trigger] resolution_error(ds[i], default_bodies(), e@) && (
                forall|j: int| 0 <= j < i ==> unreadable(#[trigger] ds[j]) is None);
            assert(ds[i] == d);
            let a = side_zones(ancestor_text(c))->Ok_0;
            let o = side_zones(c.ours@)->Ok_0;
            let t = side_zones(c.theirs@)->Ok_0;
            assert(unreadable(d) is None);
            let (gm, g, p) = choose|fm: Seq<char>, b: Seq<char>, r: Seq<char>|
                #![trigger assembled(d.path@, fm, b, r)]
                {
                    &&& front_merged(a, t, o, fm)
                    &&& default_bodies()(a.body, t.body, o.body, b)
                    &&& is_reference_merge(a.reference, t.reference, o.reference, r)
                    &&& assembled(d.path@, fm, b, r) == Err::<Seq<char>, ErrorView>(e@)
                };
            let (fm, b, h) = choose|fm: Seq<char>, b: Seq<char>, r: Seq<char>|
                #![trigger assembled(c.path@, fm, b, r)]
                {
                    &&& front_merged(a, o, t, fm)
                    &&& body_merged(a.body, o.body, t.body, b)
                    &&& is_reference_merge(a.reference, o.reference, t.reference, r)
                    &&& assembled(c.path@, fm, b, r) == Ok::<Seq<char>, ErrorView>(x)
                };
            lemma_zones_agree(a, o, t, fm, b, h, gm, g, p);
        },
    }
}

/// A note that nobody changed keeps its body, its lists and its scalars, these in
/// quotes, and the lines of its reference section.
pub proof fn law_default_resolution_idempotent(c: ConflictFile, content: Seq<char>)
    requires
        c.ours@ == ancestor_text(c) && c.theirs@ == ancestor_text(c),
        default_resolution(c, content),
    ensures
        ({
            let z = side_zones(c.ours@)->Ok_0;
            let f = fm_fields(z.frontmatter)->Ok_0;
            exists|m: FmEntries, r: Seq<char>|
                #![trigger assembled(c.path@, fm_text(m), z.body, r)]
                {
                    &&& assembled(c.path@, fm_text(m), z.body, r) == Ok::<Seq<char>, ErrorView>(
                        content,
                    )
                    &&& forall|k: Seq<char>| #[trigger] lookup(m, k) == field_kept(f, k)
                    &&& is_reference_merge(z.reference, z.reference, z.reference, r)
                }
        }),
{
    let z = side_zones(c.ours@)->Ok_0;
    let f = fm_fields(z.frontmatter)->Ok_0;
    let (fm, b, r) = choose|fm: Seq<char>, b: Seq<char>, r: Seq<char>|
        #![trigger assembled(c.path@, fm, b, r)]
        {
            &&& front_merged(z, z, z, fm)
            &&& body_merged(z.body, z.body, z.body, b)
            &&& is_reference_merge(z.reference, z.reference, z.reference, r)
            &&& assembled(c.path@, fm, b, r) == Ok::<Seq<char>, ErrorView>(content)
        };
    let m = choose|m: FmEntries| #[trigger] is_fm_merge(f, f, f, m) && fm == fm_text(m);
    assert forall|k: Seq<char>| #[trigger] lookup(m, k) == field_kept(f, k) by {
        law_fm_merge_idempotent(f, m, k);
    }
    assert(assembled(c.path@, fm_text(m), z.body, r) == Ok::<Seq<char>, ErrorView>(content));
}

/// No entry of a log is lost in a merge: one with its key is there. And none is
/// made up, and no key is there twice.
pub proof fn law_log_keeps_entries(a: Seq<char>, o: Seq<char>, t: Seq<char>, e: Seq<char>)
    ensures
        log_entries(a).contains(e) || log_entries(o).contains(e) || log_entries(t).contains(e)
            ==> has_entry_key(merged_entries(a, o, t), dedup_key(e)),
        merged_entries(a, o, t).contains(e) ==> log_entries(a).contains(e) || log_entries(
            o,
        ).contains(e) || log_entries(t).contains(e),
{
    let (x, y, z) = (log_entries(o), log_entries(t), log_entries(a));
    let all = x + y + z;
    let u = unique_entries(all);
    lemma_unique(all, e);
    lemma_by_date_members(u, e);
    if x.contains(e) {
        assert(all[x.index_of(e)] == e);
    }
    if y.contains(e) {
        assert(all[x.len() + y.index_of(e)] == e);
    }
    if z.contains(e) {
        assert(all[x.len() + y.len() + z.index_of(e)] == e);
    }
    if all.contains(e) {
        let i = choose|i: int| 0 <= i < u.len() && dedup_key(#[trigger] u[i]) == dedup_key(e);
        lemma_by_date_members(u, u[i]);
        assert(u.contains(u[i]));
        let m = merged_entries(a, o, t);
        let j = m.index_of(u[i]);
        assert(dedup_key(m[j]) == dedup_key(e));
    }
    if merged_entries(a, o, t).contains(e) {
        assert(all.contains(e));
        let i = all.index_of(e);
        if i < x.len() {
            assert(x[i] == e);
        } else if i < x.len() + y.len() {
            assert(y[i - x.len()] == e);
        } else {
            assert(z[i - x.len() - y.len()] == e);
        }
    }
}

proof fn lemma_unique(es: Seq<Seq<char>>, e: Seq<char>)
    ensures
        es.contains(e) ==> has_entry_key(unique_entries(es), dedup_key(e)),
        unique_entries(es).contains(e) ==> es.contains(e),
    decreases es.len(),
{
    if es.len() > 0 {
        let d = es.drop_last();
        lemma_unique(d, e);
        let u = unique_entries(d);
        let r = unique_entries(es);
        if es.contains(e) {
            if e == es.last() {
                if !has_entry_key(u, dedup_key(e)) {
                    assert(dedup_key(r[r.len() - 1]) == dedup_key(e));
                }
            } else {
                assert(d[es.index_of(e)] == e);
                let i = choose|i: int|
                    0 <= i < u.len() && dedup_key(#[trigger] u[i]) == dedup_key(e);
                assert(dedup_key(r[i]) == dedup_key(e));
            }
        }
        if r.contains(e) {
            let i = r.index_of(e);
            if i < u.len() {
                assert(u[i] == e);
                assert(u.contains(e));
                assert(es[d.index_of(e)] == e);
            } else {
                assert(es[es.len() - 1] == e);
            }
        }
    }
}

pub(crate) proof fn lemma_inserted_members(s: Seq<Seq<char>>, e: Seq<char>, x: Seq<char>)
    ensures
        inserted_entry(s, e).contains(x) == (s.contains(x) || x == e),
    decreases s.len(),
{
    let r = inserted_entry(s, e);
    if s.len() > 0 && text::lt(sort_date(e), sort_date(s.last())) {
        let d = s.drop_last();
        lemma_inserted_members(d, e, x);
        let p = inserted_entry(d, e);
        if s.contains(x) && x != s.last() {
            assert(d[s.index_of(x)] == x);
        }
        if d.contains(x) {
            assert(s[d.index_of(x)] == x);
        }
        assert(s[s.len() - 1] == s.last());
        assert(r[r.len() - 1] == s.last());
        if p.contains(x) {
            assert(r[p.index_of(x)] == x);
        }
        if r.contains(x) && x != s.last() {
            assert(p[r.index_of(x)] == x);
        }
    } else {
        assert(r[r.len() - 1] == e);
        if s.contains(x) {
            assert(r[s.index_of(x)] == x);
        }
        if r.contains(x) && x != e {
            assert(s[r.index_of(x)] == x);
        }
    }
}

pub(crate) proof fn lemma_by_date_members(es: Seq<Seq<char>>, x: Seq<char>)
    ensures
        by_date(es).contains(x) == es.contains(x),
    decreases es.len(),
{
    if es.len() > 0 {
        let d = es.drop_last();
        lemma_by_date_members(d, x);
        lemma_inserted_members(by_date(d), es.last(), x);
        if es.contains(x) && x != es.last() {
            assert(d[es.index_of(x)] == x);
        }
        if d.contains(x) {
            assert(es[d.index_of(x)] == x);
        }
        assert(es[es.len() - 1] == es.last());
    }
}

pub open spec fn dates_ascend(es: Seq<Seq<char>>) -> bool {
    forall|i: int, j: int|
        0 <= i < j < es.len() ==> !text::lt(sort_date(#[trigger] es[j]), sort_date(#[trigger] es[i]))
}

/// A merged log is in the order of its dates.
pub proof fn law_log_sorted(a: Seq<char>, o: Seq<char>, t: Seq<char>)
    ensures
        dates_ascend(merged_entries(a, o, t)),
{
    lemma_by_date_sorted(unique_entries(log_entries(o) + log_entries(t) + log_entries(a)));
}

proof fn lemma_by_date_sorted(es: Seq<Seq<char>>)
    ensures
        dates_ascend(by_date(es)),
    decreases es.len(),
{
    if es.len() > 0 {
        lemma_by_date_sorted(es.drop_last());
        lemma_inserted_sorted(by_date(es.drop_last()), es.last());
    }
}

proof fn lemma_inserted_sorted(s: Seq<Seq<char>>, e: Seq<char>)
    requires
        dates_ascend(s),
    ensures
        dates_ascend(inserted_entry(s, e)),
    decreases s.len(),
{
    let r = inserted_entry(s, e);
    if s.len() > 0 && text::lt(sort_date(e), sort_date(s.last())) {
        let d = s.drop_last();
        assert forall|i: int, j: int| 0 <= i < j < d.len() implies !text::lt(
            sort_date(#[trigger] d[j]),
            sort_date(#[trigger] d[i]),
        ) by {
            assert(d[i] == s[i] && d[j] == s[j]);
        }
        lemma_inserted_sorted(d, e);
        let p = inserted_entry(d, e);
        assert forall|i: int, j: int| 0 <= i < j < r.len() implies !text::lt(
            sort_date(#[trigger] r[j]),
            sort_date(#[trigger] r[i]),
        ) by {
            if j < p.len() {
                assert(r[i] == p[i] && r[j] == p[j]);
            } else {
                assert(r[i] == p[i]);
                lemma_inserted_members(d, e, p[i]);
                assert(p.contains(p[i]));
                if p[i] == e {
                    text::lemma_lt_asymmetric(sort_date(e), sort_date(s.last()));
                } else {
                    let x = d.index_of(p[i]);
                    assert(s[x] == p[i]);
                    assert(!text::lt(sort_date(s[s.len() - 1]), sort_date(s[x])));
                }
            }
        }
    } else {
        assert forall|i: int, j: int| 0 <= i < j < r.len() implies !text::lt(
            sort_date(#[trigger] r[j]),
            sort_date(#[trigger] r[i]),
        ) by {
            assert(r[i] == s[i]);
            if j < s.len() {
                assert(r[j] == s[j]);
            } else {
                let l = s[s.len() - 1];
                if text::lt(sort_date(e), sort_date(s[i])) {
                    text::lemma_lt_total(sort_date(s[i]), sort_date(l));
                    if i < s.len() - 1 {
                        assert(!text::lt(sort_date(l), sort_date(s[i])));
                        if text::lt(sort_date(s[i]), sort_date(l)) {
                            text::lemma_lt_transitive(
                                sort_date(e),
                                sort_date(s[i]),
                                sort_date(l),
                            );
                        }
                    }
                }
            }
        }
    }
}

} // verus!
