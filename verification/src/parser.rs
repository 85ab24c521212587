//! Notes as text: the three zones, the front matter, fields and links.
use crate::attachments::valid_id;
use crate::entry_laws::lemma_plain_read;
use crate::error::{ErrorView, ZettelError};
use crate::front_laws::{
    emits, emits_entry, emits_others, emits_promoted, is_front, is_plain_meta, lemma_meta_text,
    lemma_plain_fronts, meta_from, plain_note, Entry,
};
use crate::link_laws::lemma_links_from;
use crate::patterns::{
    are_links, groups, groups_each, groups_view, in_sequence, is_block_mark, link_form, links_found, links_in,
    match_each, matched, matches_view, strip_code, without_code, Groups, Match, MatchView,
    BODY_FIELD, FENCE, INLINE_CODE, REF_FIELD, REF_LINE, WIKILINK,
};
use crate::text::{self, join, lines, texts, trimmed};
use crate::textmap::{self, TextMap};
use crate::types::{
    empty_meta, fields_view, inline_view, lemma_fields_lookup, lemma_fields_put, lemma_pairs_view,
    links_view, FieldView, InlineField, LinkView, MetaView, ParsedZettel, Value, ValueView,
    WikiLink, Zettel, ZettelId, ZettelMeta, ZettelView, ZonesView, Zone,
};
use crate::written::{
    given_twice, is_given_twice, items_as_written, scalar, scalar_text, value_as_written,
    written_items, written_value,
};
use crate::yaml::{
    emitted_yaml, from_yaml, lemma_mapping_view, mapping_view, parsed_fields, plain_text,
    read_fields, to_yaml, tree_fields, value_of, write_yaml, writes, yaml_of, yaml_view, Yaml,
    YamlView,
};
use vstd::prelude::*;

verus! {

broadcast use vstd::string::group_string_axioms;

// ---------------------------------------------------------------------------
// Zones
// ---------------------------------------------------------------------------
/// Whether a line is a rule: three dashes and white space.
pub open spec fn is_rule(line: Seq<char>) -> bool {
    trimmed(line) == "---"@
}

/// Whether a line opens or closes a fenced block of code.
pub open spec fn is_fence(line: Seq<char>) -> bool {
    text::has_prefix(trimmed(line), "```"@) || text::has_prefix(trimmed(line), "~~~"@)
}

/// The first rule at or after a line; the number of lines where there is none.
pub open spec fn first_rule(ls: Seq<Seq<char>>, from: int) -> int
    decreases ls.len() - from,
{
    if from < 0 || from >= ls.len() {
        ls.len() as int
    } else if is_rule(ls[from]) {
        from
    } else {
        first_rule(ls, from + 1)
    }
}

/// The two rules round the front matter.
pub open spec fn frontmatter_bounds(ls: Seq<Seq<char>>) -> Result<(int, int), ErrorView> {
    let a = first_rule(ls, 0);
    let b = first_rule(ls, a + 1);
    if a >= ls.len() {
        Err(ErrorView::Parse("no frontmatter opening ---"@))
    } else if b >= ls.len() {
        Err(ErrorView::Parse("no frontmatter closing ---"@))
    } else {
        Ok((a, b))
    }
}

/// Whether line `i` stands within a fenced block that opened at or after `from`.
pub open spec fn fenced(ls: Seq<Seq<char>>, from: int, i: int) -> bool
    decreases i - from,
{
    if i <= from {
        false
    } else if is_fence(ls[i - 1]) {
        !fenced(ls, from, i - 1)
    } else {
        fenced(ls, from, i - 1)
    }
}

/// Whether line `i` is a rule outside of fenced blocks.
pub open spec fn is_separator(ls: Seq<Seq<char>>, from: int, i: int) -> bool {
    !is_fence(ls[i]) && !fenced(ls, from, i) && is_rule(ls[i])
}

/// The separators from line `from` up to, not including, line `to`.
pub open spec fn separators(ls: Seq<Seq<char>>, from: int, to: int) -> Seq<int>
    decreases to - from,
{
    if to <= from {
        Seq::empty()
    } else if is_separator(ls, from, to - 1) {
        separators(ls, from, to - 1).push(to - 1)
    } else {
        separators(ls, from, to - 1)
    }
}

pub open spec fn all_blank(ls: Seq<Seq<char>>, a: int, b: int) -> bool {
    forall|i: int| a <= i < b ==> text::is_blank(#[trigger] ls[i])
}

pub open spec fn only_refs(ls: Seq<Seq<char>>, refs: Seq<bool>, a: int, b: int) -> bool {
    forall|i: int| a <= i < b && !text::is_blank(#[trigger] ls[i]) ==> refs[i]
}

/// Where the reference section begins and ends. Separators are tried from the
/// last: with nothing but blanks up to `end` it moves `end` back to itself;
/// with nothing but reference lines it is the boundary; else there is none.
pub open spec fn boundary(
    ls: Seq<Seq<char>>,
    refs: Seq<bool>,
    seps: Seq<int>,
    end: int,
) -> (Option<int>, int)
    decreases seps.len(),
{
    if seps.len() == 0 {
        (None, end)
    } else {
        let p = seps.last();
        if all_blank(ls, p + 1, end) {
            boundary(ls, refs, seps.drop_last(), p)
        } else if only_refs(ls, refs, p + 1, end) {
            (Some(p), end)
        } else {
            (None, end)
        }
    }
}

/// The zones of a note's lines, given which of them are reference lines.
pub open spec fn zones_of(ls: Seq<Seq<char>>, refs: Seq<bool>) -> Result<ZonesView, ErrorView> {
    match frontmatter_bounds(ls) {
        Err(e) => Err(e),
        Ok((a, b)) => {
            let n = ls.len() as int;
            let (start, end) = boundary(ls, refs, separators(ls, b + 1, n), n);
            Ok(
                match start {
                    Some(p) => ZonesView {
                        frontmatter: join(ls.subrange(a + 1, b), "\n"@),
                        body: join(ls.subrange(b + 1, p), "\n"@),
                        reference: join(ls.subrange(p + 1, end), "\n"@),
                    },
                    None => ZonesView {
                        frontmatter: join(ls.subrange(a + 1, b), "\n"@),
                        body: join(ls.subrange(b + 1, n), "\n"@),
                        reference: Seq::empty(),
                    },
                },
            )
        },
    }
}

/// Which lines the pattern of reference lines matches.
pub open spec fn ref_flags(ls: Seq<Seq<char>>) -> Seq<bool> {
    Seq::new(ls.len(), |i: int| matched(REF_LINE@, ls[i]))
}

/// The zones of a note.
pub open spec fn split_view(content: Seq<char>) -> Result<ZonesView, ErrorView> {
    zones_of(lines(content), ref_flags(lines(content)))
}

fn rule(line: &str) -> (r: bool)
    ensures
        r == is_rule(line@),
{
    let t = text::trim(line);
    text::same(t.as_str(), "---")
}

fn fence(line: &str) -> (r: bool)
    ensures
        r == is_fence(line@),
{
    let t = text::trim(line);
    text::starts_with(t.as_str(), "```") || text::starts_with(t.as_str(), "~~~")
}

/// Whether a line has the form `- key:: value` or `- key::`.
pub fn is_reference_line(line: &str) -> (r: bool)
    ensures
        r == matched(REF_LINE@, line@),
{
    let mut one: Vec<String> = Vec::new();
    one.push(text::copy(line));
    let flags = match_each(REF_LINE, &one);
    flags[0]
}

fn seek_rule(ls: &Vec<String>, from: usize) -> (r: usize)
    requires
        from <= ls@.len(),
    ensures
        r == first_rule(texts(ls@), from as int),
        from <= r <= ls@.len(),
{
    let mut i: usize = from;
    while i < ls.len()
        invariant
            from <= i <= ls@.len(),
            first_rule(texts(ls@), i as int) == first_rule(texts(ls@), from as int),
        decreases ls@.len() - i,
    {
        proof {
            assert(texts(ls@)[i as int] == ls@[i as int]@);
        }
        if rule(ls[i].as_str()) {
            return i;
        }
        i = i + 1;
    }
    i
}

/// The lines of the two rules round the front matter.
pub fn find_frontmatter(ls: &Vec<String>) -> (r: Result<(usize, usize), ZettelError>)
    ensures
        match r {
            Ok((a, b)) => a < b < ls@.len() && frontmatter_bounds(texts(ls@)) == Ok::<
                (int, int),
                ErrorView,
            >((a as int, b as int)),
            Err(e) => frontmatter_bounds(texts(ls@)) == Err::<(int, int), ErrorView>(e@),
        },
{
    let n: usize = ls.len();
    let a = seek_rule(ls, 0);
    if a >= n {
        return Err(ZettelError::Parse(text::copy("no frontmatter opening ---")));
    }
    let b = seek_rule(ls, a + 1);
    if b >= n {
        return Err(ZettelError::Parse(text::copy("no frontmatter closing ---")));
    }
    Ok((a, b))
}

/// Positions as mathematical integers.
pub open spec fn positions(v: Seq<usize>) -> Seq<int> {
    Seq::new(v.len(), |i: int| v[i] as int)
}

/// The separators after the front matter, outside of fenced blocks.
pub fn find_separators_after(ls: &Vec<String>, fm_end: usize) -> (r: Vec<usize>)
    requires
        fm_end < ls@.len(),
    ensures
        positions(r@) == separators(texts(ls@), fm_end + 1, ls@.len() as int),
{
    let mut out: Vec<usize> = Vec::new();
    let mut in_fence = false;
    let n: usize = ls.len();
    let mut i: usize = fm_end + 1;
    let ghost all = texts(ls@);
    proof {
        assert(positions(out@) =~= Seq::<int>::empty());
    }
    while i < n
        invariant
            fm_end + 1 <= i <= n == ls@.len(),
            all == texts(ls@),
            in_fence == fenced(all, fm_end + 1, i as int),
            positions(out@) == separators(all, fm_end + 1, i as int),
        decreases n - i,
    {
        proof {
            assert(all[i as int] == ls@[i as int]@);
        }
        if fence(ls[i].as_str()) {
            in_fence = !in_fence;
        } else if !in_fence && rule(ls[i].as_str()) {
            let ghost before = out@;
            out.push(i);
            proof {
                assert(positions(out@) =~= positions(before).push(i as int));
            }
        }
        i = i + 1;
    }
    out
}

/// Separators lie where they were looked for, in ascending order.
proof fn lemma_separators(ls: Seq<Seq<char>>, from: int, to: int)
    ensures
        forall|i: int|
            0 <= i < separators(ls, from, to).len() ==> from <= #[trigger] separators(
                ls,
                from,
                to,
            )[i] < to,
        forall|i: int, j: int|
            0 <= i < j < separators(ls, from, to).len() ==> #[trigger] separators(ls, from, to)[i]
                < #[trigger] separators(ls, from, to)[j],
    decreases to - from,
{
    if to > from {
        lemma_separators(ls, from, to - 1);
        let p = separators(ls, from, to - 1);
        let s = separators(ls, from, to);
        assert forall|i: int| 0 <= i < s.len() implies from <= #[trigger] s[i] < to by {
            if i < p.len() {
                assert(s[i] == p[i]);
            }
        }
        assert forall|i: int, j: int| 0 <= i < j < s.len() implies #[trigger] s[i]
            < #[trigger] s[j] by {
            assert(s[i] == p[i]);
            if j < p.len() {
                assert(s[j] == p[j]);
            }
        }
    }
}

fn blank_range(ls: &Vec<String>, a: usize, b: usize) -> (r: bool)
    requires
        b <= ls@.len(),
    ensures
        r == all_blank(texts(ls@), a as int, b as int),
{
    let mut i: usize = a;
    while i < b
        invariant
            a <= i,
            b <= ls@.len(),
            i <= b || i == a,
            all_blank(texts(ls@), a as int, i as int),
        decreases b - i,
    {
        proof {
            assert(texts(ls@)[i as int] == ls@[i as int]@);
        }
        if !text::blank(ls[i].as_str()) {
            return false;
        }
        i = i + 1;
    }
    true
}

fn refs_range(ls: &Vec<String>, is_ref: &Vec<bool>, a: usize, b: usize) -> (r: bool)
    requires
        b <= ls@.len() == is_ref@.len(),
    ensures
        r == only_refs(texts(ls@), is_ref@, a as int, b as int),
{
    let mut i: usize = a;
    while i < b
        invariant
            a <= i,
            b <= ls@.len() == is_ref@.len(),
            i <= b || i == a,
            only_refs(texts(ls@), is_ref@, a as int, i as int),
        decreases b - i,
    {
        proof {
            assert(texts(ls@)[i as int] == ls@[i as int]@);
        }
        if !text::blank(ls[i].as_str()) && !is_ref[i] {
            return false;
        }
        i = i + 1;
    }
    true
}

/// Cuts the lines of a note into zones, given which of them are reference lines.
pub fn cut_zones(ls: &Vec<String>, is_ref: &Vec<bool>) -> (r: Result<Zettel, ZettelError>)
    requires
        is_ref@.len() == ls@.len(),
    ensures
        match r {
            Ok(z) => zones_of(texts(ls@), is_ref@) == Ok::<ZonesView, ErrorView>(z@),
            Err(e) => zones_of(texts(ls@), is_ref@) == Err::<ZonesView, ErrorView>(e@),
        },
{
    let (a, b) = match find_frontmatter(ls) {
        Ok(p) => p,
        Err(e) => {
            return Err(e);
        },
    };
    let n: usize = ls.len();
    let ghost all = texts(ls@);
    let frontmatter = text::join_range(ls, a + 1, b, "\n");
    let seps = find_separators_after(ls, b);
    let ghost sp = separators(all, b + 1, n as int);
    let mut start: Option<usize> = None;
    let mut end: usize = n;
    let mut k: usize = seps.len();
    let mut done = false;
    proof {
        lemma_separators(all, b + 1, n as int);
        assert(sp.take(k as int) =~= sp);
        assert forall|i: int| 0 <= i < seps@.len() implies #[trigger] seps@[i] == sp[i] by {
            assert(positions(seps@)[i] == seps@[i]);
        }
    }
    while k > 0 && !done
        invariant
            k <= seps@.len() == sp.len(),
            b < end <= n == ls@.len() == is_ref@.len(),
            k > 0 && !done ==> seps@[k - 1] < end,
            all == texts(ls@),
            forall|i: int| 0 <= i < seps@.len() ==> #[trigger] seps@[i] == sp[i],
            forall|i: int| 0 <= i < seps@.len() ==> b < #[trigger] seps@[i] < n,
            forall|i: int, j: int|
                0 <= i < j < seps@.len() ==> #[trigger] seps@[i] < #[trigger] seps@[j],
            !done ==> start is None && boundary(all, is_ref@, sp.take(k as int), end as int)
                == boundary(all, is_ref@, sp, n as int),
            done ==> boundary(all, is_ref@, sp, n as int) == (
                match start {
                    Some(p) => Some(p as int),
                    None => None,
                },
                end as int,
            ),
            start matches Some(p) ==> b < p < end,
        decreases k,
    {
        let p = seps[k - 1];
        proof {
            assert(sp.take(k as int).last() == p);
            assert(sp.take(k as int).drop_last() =~= sp.take(k - 1));
        }
        if blank_range(ls, p + 1, end) {
            end = p;
            k = k - 1;
        } else {
            if refs_range(ls, is_ref, p + 1, end) {
                start = Some(p);
            }
            done = true;
            k = 0;
        }
    }
    match start {
        Some(p) => {
            let body = text::join_range(ls, b + 1, p, "\n");
            let reference_section = text::join_range(ls, p + 1, end, "\n");
            Ok(Zettel { raw_frontmatter: frontmatter, body, reference_section })
        },
        None => {
            let body = text::join_range(ls, b + 1, n, "\n");
            let reference_section = String::new();
            proof {
                assert(reference_section@ =~= Seq::<char>::empty());
            }
            Ok(Zettel { raw_frontmatter: frontmatter, body, reference_section })
        },
    }
}

/// Whether the lines that are reference lines begin with a hyphen and a space.
pub open spec fn refs_are_marked(ls: Seq<Seq<char>>) -> bool {
    forall|i: int|
        0 <= i < ls.len() && matched(REF_LINE@, #[trigger] ls[i]) ==> text::has_prefix(
            ls[i],
            "- "@,
        )
}

/// Cuts a note into front matter, body and reference section.
pub fn split_zones(content: &str) -> (r: Result<Zettel, ZettelError>)
    ensures
        match r {
            Ok(z) => split_view(content@) == Ok::<ZonesView, ErrorView>(z@),
            Err(e) => split_view(content@) == Err::<ZonesView, ErrorView>(e@),
        },
        refs_are_marked(lines(content@)),
{
    let ls = text::split_lines(content);
    let is_ref = match_each(REF_LINE, &ls);
    proof {
        assert(is_ref@ =~= ref_flags(lines(content@))) by {
            assert forall|i: int| 0 <= i < is_ref@.len() implies is_ref@[i] == ref_flags(
                lines(content@),
            )[i] by {
                assert(texts(ls@)[i] == ls@[i]@);
            }
        }
        let all = lines(content@);
        assert forall|i: int| 0 <= i < all.len() && matched(REF_LINE@, #[trigger] all[i]) implies
            text::has_prefix(all[i], "- "@) by {
            assert(texts(ls@)[i] == ls@[i]@);
            assert(is_ref@[i]);
        }
    }
    cut_zones(&ls, &is_ref)
}

// ---------------------------------------------------------------------------
// Paths
// ---------------------------------------------------------------------------
/// The parts of a path that name something: no empty part, no `.`.
pub open spec fn named_parts(parts: Seq<Seq<char>>) -> Seq<Seq<char>>
    decreases parts.len(),
{
    if parts.len() == 0 {
        parts
    } else if parts.last().len() == 0 || parts.last() == "."@ {
        named_parts(parts.drop_last())
    } else {
        named_parts(parts.drop_last()).push(parts.last())
    }
}

/// The position of the last `c`, or -1.
pub open spec fn last_of(s: Seq<char>, c: char) -> int
    decreases s.len(),
{
    if s.len() == 0 {
        -1
    } else if s.last() == c {
        s.len() - 1
    } else {
        last_of(s.drop_last(), c)
    }
}

/// A file name without its extension.
pub open spec fn stem_of(name: Seq<char>) -> Seq<char> {
    let i = last_of(name, '.');
    if i <= 0 {
        name
    } else {
        name.take(i)
    }
}

/// The stem of the file that a path names.
pub open spec fn file_stem(path: Seq<char>) -> Option<Seq<char>> {
    let parts = named_parts(text::split(path, '/'));
    if parts.len() == 0 || parts.last() == ".."@ {
        None
    } else {
        Some(stem_of(parts.last()))
    }
}

fn seek_last(cs: &Vec<char>, c: char) -> (r: Option<usize>)
    ensures
        match r {
            Some(i) => i < cs@.len() && last_of(cs@, c) == i,
            None => last_of(cs@, c) == -1,
        },
{
    let mut i: usize = cs.len();
    proof {
        assert(cs@.take(i as int) =~= cs@);
    }
    while i > 0
        invariant
            i <= cs@.len(),
            last_of(cs@.take(i as int), c) == last_of(cs@, c),
        decreases i,
    {
        proof {
            assert(cs@.take(i as int).last() == cs@[i - 1]);
            assert(cs@.take(i as int).drop_last() =~= cs@.take(i - 1));
        }
        if cs[i - 1] == c {
            return Some(i - 1);
        }
        i = i - 1;
    }
    None
}

/// The identifier in a path such as `zettelkasten/20240101120000.md`: the stem
/// of the file name.
pub fn extract_id_from_path(path: &str) -> (r: Option<String>)
    ensures
        text::opt_text(r) == file_stem(path@),
{
    let parts = text::split_on(path, '/');
    let ghost all = texts(parts@);
    let mut i: usize = parts.len();
    proof {
        assert(all.take(i as int) =~= all);
    }
    while i > 0
        invariant
            i <= parts@.len(),
            all == texts(parts@),
            named_parts(all.take(i as int)) == named_parts(all),
        decreases i,
    {
        let part = parts[i - 1].as_str();
        proof {
            assert(all.take(i as int).last() == part@);
            assert(all.take(i as int).drop_last() =~= all.take(i - 1));
        }
        if !part.is_empty() && !text::same(part, ".") {
            if text::same(part, "..") {
                return None;
            }
            let cs = text::chars(part);
            return match seek_last(&cs, '.') {
                Some(k) => {
                    if k == 0 {
                        Some(text::copy(part))
                    } else {
                        let t = text::slice(&cs, 0, k);
                        proof {
                            assert(t@ =~= part@.take(k as int));
                        }
                        Some(t)
                    }
                },
                None => Some(text::copy(part)),
            };
        }
        i = i - 1;
    }
    None
}

// ---------------------------------------------------------------------------
// Front matter
// ---------------------------------------------------------------------------
/// Whether a number is written as an integer.
pub open spec fn is_integer(s: Seq<char>) -> bool {
    ||| s.len() > 0 && text::all_digits(s)
    ||| s.len() > 1 && s[0] == '-' && text::all_digits(s.drop_first())
}

/// The identifier that a field gives: none for null, else a text or an
/// integer; anything else is refused.
pub open spec fn id_field(y: YamlView) -> Option<Option<Seq<char>>> {
    match y {
        YamlView::Null => Some(None),
        YamlView::Text(s) => Some(Some(s)),
        YamlView::Number { text, value } => if is_integer(text) {
            Some(Some(text))
        } else {
            None
        },
        _ => None,
    }
}

/// The text that a field gives: none for null, else that of a scalar.
pub open spec fn text_field(y: YamlView, written: Option<Seq<char>>) -> Option<Option<Seq<char>>> {
    match y {
        YamlView::Null => Some(None),
        _ => match scalar_text(y, written) {
            Some(s) => Some(Some(s)),
            None => None,
        },
    }
}

pub open spec fn tag_items(l: Seq<YamlView>, written: Seq<Seq<char>>) -> Option<Seq<Seq<char>>>
    decreases l.len(),
{
    if l.len() == 0 {
        Some(Seq::empty())
    } else {
        match (
            tag_items(l.drop_last(), written),
            scalar_text(l.last(), nth_text(written, l.len() - 1)),
        ) {
            (Some(t), Some(s)) => Some(t.push(s)),
            _ => None,
        }
    }
}

pub open spec fn nth_text(l: Seq<Seq<char>>, i: int) -> Option<Seq<char>> {
    if 0 <= i < l.len() {
        Some(l[i])
    } else {
        None
    }
}

/// The tags that a field gives: a list of scalars, or nothing at all for none.
pub open spec fn tags_field(y: YamlView, ls: Seq<Seq<char>>) -> Option<Seq<Seq<char>>> {
    match y {
        YamlView::Null => match written_value(ls, "tags"@) {
            Some(w) => if w.len() == 0 {
                Some(Seq::empty())
            } else {
                None
            },
            None => Some(Seq::empty()),
        },
        YamlView::List(l) => tag_items(l, written_items(ls, "tags"@)),
        _ => None,
    }
}

pub open spec fn bad_field(key: Seq<char>) -> ErrorView {
    ErrorView::Yaml(key + ": invalid type"@)
}

/// The front matter with one more entry read; `ls` are the lines that it is read
/// from.
pub open spec fn with_entry(
    m: MetaView,
    ls: Seq<Seq<char>>,
    k: Seq<char>,
    v: YamlView,
) -> Result<MetaView, ErrorView> {
    if k == "id"@ {
        match id_field(v) {
            Some(id) => Ok(MetaView { id, ..m }),
            None => Err(bad_field(k)),
        }
    } else if k == "title"@ {
        match text_field(v, written_value(ls, k)) {
            Some(title) => Ok(MetaView { title, ..m }),
            None => Err(bad_field(k)),
        }
    } else if k == "date"@ {
        match text_field(v, written_value(ls, k)) {
            Some(date) => Ok(MetaView { date, ..m }),
            None => Err(bad_field(k)),
        }
    } else if k == "type"@ {
        match text_field(v, written_value(ls, k)) {
            Some(zettel_type) => Ok(MetaView { zettel_type, ..m }),
            None => Err(bad_field(k)),
        }
    } else if k == "tags"@ {
        match tags_field(v, ls) {
            Some(tags) => Ok(MetaView { tags, ..m }),
            None => Err(bad_field(k)),
        }
    } else {
        Ok(MetaView { extra: textmap::put(m.extra, k, value_of(v)), ..m })
    }
}

pub open spec fn meta_of_entries(ls: Seq<Seq<char>>, m: Seq<(Seq<char>, YamlView)>) -> Result<
    MetaView,
    ErrorView,
>
    decreases m.len(),
{
    if m.len() == 0 {
        Ok(empty_meta())
    } else {
        match meta_of_entries(ls, m.drop_last()) {
            Err(e) => Err(e),
            Ok(acc) => with_entry(acc, ls, m.last().0, m.last().1),
        }
    }
}

/// Whether a field that every front matter may have is given twice.
pub open spec fn repeats_field(ls: Seq<Seq<char>>) -> bool {
    given_twice(ls, "id"@) || given_twice(ls, "title"@) || given_twice(ls, "date"@) || given_twice(
        ls,
        "type"@,
    ) || given_twice(ls, "tags"@)
}

/// The front matter that the fields of a YAML document hold, read from some lines.
/// Of another field that is given twice the last value counts.
pub open spec fn meta_of_fields(ls: Seq<Seq<char>>, m: Seq<(Seq<char>, YamlView)>) -> Result<
    MetaView,
    ErrorView,
> {
    if repeats_field(ls) {
        Err(ErrorView::Yaml("duplicate field"@))
    } else {
        meta_of_entries(ls, m)
    }
}

/// The front matter with the identifier from the file name, where it has none
/// and the file name's stem is a number.
pub open spec fn with_path_id(m: MetaView, path: Seq<char>) -> MetaView {
    match file_stem(path) {
        Some(s) => if m.id is None && s.len() > 0 && text::all_digits(s) {
            MetaView { id: Some(s), ..m }
        } else {
            m
        },
        None => m,
    }
}

/// The front matter that a text holds.
pub open spec fn frontmatter_of(yaml: Seq<char>, path: Seq<char>) -> Result<MetaView, ErrorView> {
    let raw = if text::is_blank(yaml) {
        Ok(empty_meta())
    } else {
        match parsed_fields(yaml) {
            Ok(m) => meta_of_fields(lines(yaml), m),
            Err(e) => Err(ErrorView::Yaml(e)),
        }
    };
    match raw {
        Ok(m) => Ok(with_path_id(m, path)),
        Err(e) => Err(e),
    }
}

proof fn lemma_entries_error(ls: Seq<Seq<char>>, m: Seq<(Seq<char>, YamlView)>, k: int)
    requires
        0 <= k <= m.len(),
        meta_of_entries(ls, m.take(k)) is Err,
    ensures
        meta_of_entries(ls, m) == meta_of_entries(ls, m.take(k)),
    decreases m.len(),
{
    if k < m.len() {
        assert(m.drop_last().take(k) =~= m.take(k));
        lemma_entries_error(ls, m.drop_last(), k);
    } else {
        assert(m.take(k) =~= m);
    }
}

fn integer(s: &str) -> (r: bool)
    ensures
        r == is_integer(s@),
{
    let cs = text::chars(s);
    let n: usize = cs.len();
    if n > 0 && text::only_digits(s) {
        return true;
    }
    if n > 1 && cs[0] == '-' {
        let t = text::slice(&cs, 1, n);
        proof {
            assert(t@ =~= s@.drop_first());
        }
        return text::only_digits(t.as_str());
    }
    false
}

fn nth(l: &Vec<String>, i: usize) -> (r: Option<String>)
    ensures
        text::opt_text(r) == nth_text(texts(l@), i as int),
{
    if i < l.len() {
        Some(text::copy(l[i].as_str()))
    } else {
        None
    }
}

fn tag_list(l: &Vec<Yaml>, written: &Vec<String>) -> (r: Option<Vec<String>>)
    ensures
        match r {
            Some(t) => tag_items(crate::yaml::list_view(l@), texts(written@)) == Some(texts(t@)),
            None => tag_items(crate::yaml::list_view(l@), texts(written@)) is None,
        },
{
    let ghost wv = texts(written@);
    let mut out: Vec<String> = Vec::new();
    let mut i: usize = 0;
    let ghost all = crate::yaml::list_view(l@);
    proof {
        crate::yaml::lemma_list_view(l@);
        assert(all.take(0) =~= Seq::<YamlView>::empty());
        assert(texts(out@) =~= Seq::<Seq<char>>::empty());
    }
    while i < l.len()
        invariant
            i <= l@.len() == all.len(),
            all == crate::yaml::list_view(l@),
            forall|j: int| 0 <= j < l@.len() ==> #[trigger] all[j] == yaml_view(l@[j]),
            wv == texts(written@),
            tag_items(all.take(i as int), wv) == Some(texts(out@)),
        decreases l@.len() - i,
    {
        proof {
            let t = all.take(i + 1);
            assert(t.drop_last() =~= all.take(i as int));
            assert(t.last() == yaml_view(l@[i as int]));
        }
        match scalar(&l[i], &nth(written, i)) {
            Some(s) => {
                proof {
                    text::lemma_texts_push(out@, s);
                }
                out.push(s);
            },
            None => {
                proof {
                    lemma_tags_none(all, wv, i + 1);
                }
                return None;
            },
        }
        i = i + 1;
    }
    proof {
        assert(all.take(i as int) =~= all);
    }
    Some(out)
}

proof fn lemma_tags_none(l: Seq<YamlView>, written: Seq<Seq<char>>, k: int)
    requires
        0 <= k <= l.len(),
        tag_items(l.take(k), written) is None,
    ensures
        tag_items(l, written) is None,
    decreases l.len(),
{
    if k < l.len() {
        assert(l.drop_last().take(k) =~= l.take(k));
        lemma_tags_none(l.drop_last(), written, k);
    } else {
        assert(l.take(k) =~= l);
    }
}

fn text_of(y: &Yaml, ls: &Vec<String>, key: &str) -> (r: Option<Option<String>>)
    ensures
        match r {
            Some(o) => text_field(y@, written_value(texts(ls@), key@)) == Some(text::opt_text(o)),
            None => text_field(y@, written_value(texts(ls@), key@)) is None,
        },
{
    match y {
        Yaml::Null => Some(None),
        _ => match scalar(y, &value_as_written(ls, key)) {
            Some(s) => Some(Some(s)),
            None => None,
        },
    }
}

fn id_of(y: &Yaml) -> (r: Option<Option<ZettelId>>)
    ensures
        match r {
            Some(o) => id_field(y@) == Some(crate::types::id_text(o)),
            None => id_field(y@) is None,
        },
{
    match y {
        Yaml::Null => Some(None),
        Yaml::Text(s) => Some(Some(ZettelId(text::copy(s.as_str())))),
        Yaml::Number(n) => if integer(n.text.as_str()) {
            Some(Some(ZettelId(text::copy(n.text.as_str()))))
        } else {
            None
        },
        _ => None,
    }
}

fn tags_of(y: &Yaml, ls: &Vec<String>) -> (r: Option<Vec<String>>)
    ensures
        match r {
            Some(t) => tags_field(y@, texts(ls@)) == Some(texts(t@)),
            None => tags_field(y@, texts(ls@)) is None,
        },
{
    match y {
        Yaml::Null => {
            if let Some(w) = value_as_written(ls, "tags") {
                if !w.as_str().is_empty() {
                    return None;
                }
            }
            let t: Vec<String> = Vec::new();
            proof {
                assert(texts(t@) =~= Seq::<Seq<char>>::empty());
            }
            Some(t)
        },
        Yaml::List(l) => tag_list(l, &items_as_written(ls, "tags")),
        _ => None,
    }
}

fn bad(key: &str) -> (e: ZettelError)
    ensures
        e@ == bad_field(key@),
{
    ZettelError::Yaml(text::cat(key, ": invalid type"))
}

fn add_entry(meta: &mut ZettelMeta, ls: &Vec<String>, k: &str, v: &Yaml) -> (r: Result<
    (),
    ZettelError,
>)
    ensures
        match r {
            Ok(_) => with_entry(old(meta)@, texts(ls@), k@, v@) == Ok::<MetaView, ErrorView>(
                final(meta)@,
            ),
            Err(e) => with_entry(old(meta)@, texts(ls@), k@, v@) == Err::<MetaView, ErrorView>(
                e@,
            ),
        },
        old(meta).extra.sorted() ==> final(meta).extra.sorted(),
{
    if text::same(k, "id") {
        match id_of(v) {
            Some(id) => {
                meta.id = id;
            },
            None => {
                return Err(bad(k));
            },
        }
    } else if text::same(k, "title") {
        match text_of(v, ls, k) {
            Some(t) => {
                meta.title = t;
            },
            None => {
                return Err(bad(k));
            },
        }
    } else if text::same(k, "date") {
        match text_of(v, ls, k) {
            Some(t) => {
                meta.date = t;
            },
            None => {
                return Err(bad(k));
            },
        }
    } else if text::same(k, "type") {
        match text_of(v, ls, k) {
            Some(t) => {
                meta.zettel_type = t;
            },
            None => {
                return Err(bad(k));
            },
        }
    } else if text::same(k, "tags") {
        match tags_of(v, ls) {
            Some(t) => {
                meta.tags = t;
            },
            None => {
                return Err(bad(k));
            },
        }
    } else {
        let value = from_yaml(v);
        let ghost before = meta.extra;
        meta.extra.insert(text::copy(k), value);
        proof {
            lemma_fields_put(before, meta.extra, k@, value);
        }
    }
    Ok(())
}

fn repeats(ls: &Vec<String>) -> (r: bool)
    ensures
        r == repeats_field(texts(ls@)),
{
    is_given_twice(ls, "id") || is_given_twice(ls, "title") || is_given_twice(ls, "date")
        || is_given_twice(ls, "type") || is_given_twice(ls, "tags")
}

/// Reads the front matter from the fields of a YAML document; `ls` are its lines.
pub fn meta_from_fields(ls: &Vec<String>, m: &Vec<(String, Yaml)>) -> (r: Result<
    ZettelMeta,
    ZettelError,
>)
    ensures
        match r {
            Ok(x) => meta_of_fields(texts(ls@), tree_fields(m@)) == Ok::<MetaView, ErrorView>(x@)
                && x.extra.sorted(),
            Err(e) => meta_of_fields(texts(ls@), tree_fields(m@)) == Err::<MetaView, ErrorView>(e@),
        },
{
    let ghost lv = texts(ls@);
    if repeats(ls) {
        return Err(ZettelError::Yaml(text::copy("duplicate field")));
    }
    let mut meta = ZettelMeta::default();
    let mut i: usize = 0;
    let ghost all = tree_fields(m@);
    proof {
        assert(all.take(0) =~= Seq::<(Seq<char>, YamlView)>::empty());
    }
    while i < m.len()
        invariant
            i <= m@.len() == all.len(),
            all == tree_fields(m@),
            lv == texts(ls@),
            meta_of_entries(lv, all.take(i as int)) == Ok::<MetaView, ErrorView>(meta@),
            meta.extra.sorted(),
        decreases m@.len() - i,
    {
        proof {
            let t = all.take(i + 1);
            assert(t.drop_last() =~= all.take(i as int));
            assert(t.last() == all[i as int]);
        }
        match add_entry(&mut meta, ls, m[i].0.as_str(), &m[i].1) {
            Ok(_) => {},
            Err(e) => {
                proof {
                    lemma_entries_error(lv, all, i + 1);
                }
                return Err(e);
            },
        }
        i = i + 1;
    }
    proof {
        assert(all.take(i as int) =~= all);
    }
    Ok(meta)
}

/// Whether a front matter of plain entries is read as they are.
pub open spec fn reads_front(yaml: Seq<char>, path: Seq<char>) -> bool {
    forall|d: Seq<Entry>|
        writes(yaml, #[trigger] plain_text(d)) && is_front(d) ==> frontmatter_of(yaml, path)
            == Ok::<MetaView, ErrorView>(with_path_id(meta_from(d), path))
}

/// Reads the YAML of the front matter. Where it gives no identifier, the file
/// name does, if its stem is a number. A front matter of plain values is read as
/// it was written.
pub fn parse_frontmatter(yaml: &str, path: &str) -> (r: Result<ZettelMeta, ZettelError>)
    ensures
        match r {
            Ok(m) => frontmatter_of(yaml@, path@) == Ok::<MetaView, ErrorView>(m@)
                && m.extra.sorted(),
            Err(e) => frontmatter_of(yaml@, path@) == Err::<MetaView, ErrorView>(e@),
        },
        reads_front(yaml@, path@),
{
    proof {
        lemma_plain_fronts(yaml@);
    }
    let mut meta = if text::blank(yaml) {
        ZettelMeta::default()
    } else {
        let fields = read_fields(yaml);
        proof {
            assert forall|d: Seq<Entry>| writes(yaml@, #[trigger] plain_text(d)) && is_front(
                d,
            ) implies frontmatter_of(yaml@, path@) == Ok::<MetaView, ErrorView>(
                with_path_id(meta_from(d), path@),
            ) by {
                lemma_plain_read(d, yaml@, path@);
            }
        }
        match fields {
            Ok(m) => match meta_from_fields(&text::split_lines(yaml), &m) {
                Ok(m) => m,
                Err(e) => {
                    return Err(e);
                },
            },
            Err(e) => {
                return Err(ZettelError::Yaml(e));
            },
        }
    };
    if meta.id.is_none() {
        if let Some(stem) = extract_id_from_path(path) {
            if !stem.as_str().is_empty() && text::only_digits(stem.as_str()) {
                meta.id = Some(ZettelId(stem));
            }
        }
    }
    Ok(meta)
}

// ---------------------------------------------------------------------------
// Inline fields
// ---------------------------------------------------------------------------
/// Whether the line after the first `n` stands within a fenced block.
pub open spec fn in_block(fences: Seq<bool>, n: int) -> bool
    decreases n,
{
    if n <= 0 {
        false
    } else if fences[n - 1] {
        !in_block(fences, n - 1)
    } else {
        in_block(fences, n - 1)
    }
}

/// What a line of the body may give: a field, unless it is a fence or fenced.
pub open spec fn body_item(
    fences: Seq<bool>,
    gs: Seq<Option<(Seq<char>, Seq<char>)>>,
    i: int,
) -> Option<(Seq<char>, Seq<char>)> {
    if fences[i] || in_block(fences, i) {
        None
    } else {
        gs[i]
    }
}

/// What each line of body and reference section may give, and its zone.
pub open spec fn field_items(
    fences: Seq<bool>,
    body: Seq<Option<(Seq<char>, Seq<char>)>>,
    reference: Seq<Option<(Seq<char>, Seq<char>)>>,
) -> Seq<(Option<(Seq<char>, Seq<char>)>, Zone)> {
    Seq::new(body.len(), |i: int| (body_item(fences, body, i), Zone::Body)) + Seq::new(
        reference.len(),
        |i: int| (reference[i], Zone::Reference),
    )
}

/// The zone in which a key was found.
pub open spec fn zone_of(fs: Seq<FieldView>, key: Seq<char>) -> Option<Zone>
    decreases fs.len(),
{
    if fs.len() == 0 {
        None
    } else if fs.last().key == key {
        Some(fs.last().zone)
    } else {
        zone_of(fs.drop_last(), key)
    }
}

pub open spec fn duplicate_field(key: Seq<char>) -> ErrorView {
    ErrorView::Validation(
        "duplicate inline field '"@ + key + "' across body and reference zones"@,
    )
}

/// The fields of the items in order: of one key in one zone the first counts,
/// one key in two zones is an error.
pub open spec fn fields_found(items: Seq<(Option<(Seq<char>, Seq<char>)>, Zone)>) -> Result<
    Seq<FieldView>,
    ErrorView,
>
    decreases items.len(),
{
    if items.len() == 0 {
        Ok(Seq::empty())
    } else {
        match fields_found(items.drop_last()) {
            Err(e) => Err(e),
            Ok(fs) => match items.last().0 {
                None => Ok(fs),
                Some((k, v)) => match zone_of(fs, trimmed(k)) {
                    None => Ok(
                        fs.push(FieldView { key: trimmed(k), value: v, zone: items.last().1 }),
                    ),
                    Some(z) => if z == items.last().1 {
                        Ok(fs)
                    } else {
                        Err(duplicate_field(trimmed(k)))
                    },
                },
            },
        }
    }
}

pub open spec fn all_groups(gs: Seq<Groups>) -> Seq<Option<(Seq<char>, Seq<char>)>> {
    Seq::new(gs.len(), |i: int| groups_view(gs[i]))
}

/// Which lines of a body open or close a block of code.
pub open spec fn fence_flags(ls: Seq<Seq<char>>) -> Seq<bool> {
    Seq::new(ls.len(), |i: int| is_block_mark(ls[i]))
}

/// The groups of the field pattern in each line of a body without inline code.
pub open spec fn body_groups(ls: Seq<Seq<char>>) -> Seq<Option<(Seq<char>, Seq<char>)>> {
    Seq::new(ls.len(), |i: int| groups(BODY_FIELD@, without_code(ls[i])))
}

pub open spec fn ref_groups(ls: Seq<Seq<char>>) -> Seq<Option<(Seq<char>, Seq<char>)>> {
    Seq::new(ls.len(), |i: int| groups(REF_FIELD@, ls[i]))
}

/// The inline fields of a note.
pub open spec fn inline_fields_of(body: Seq<char>, reference: Seq<char>) -> Result<
    Seq<FieldView>,
    ErrorView,
> {
    fields_found(
        field_items(
            fence_flags(lines(body)),
            body_groups(lines(body)),
            ref_groups(lines(reference)),
        ),
    )
}

proof fn lemma_fields_error(items: Seq<(Option<(Seq<char>, Seq<char>)>, Zone)>, k: int)
    requires
        0 <= k <= items.len(),
        fields_found(items.take(k)) is Err,
    ensures
        fields_found(items) == fields_found(items.take(k)),
    decreases items.len(),
{
    if k < items.len() {
        assert(items.drop_last().take(k) =~= items.take(k));
        lemma_fields_error(items.drop_last(), k);
    } else {
        assert(items.take(k) =~= items);
    }
}

fn seek_zone(fs: &Vec<InlineField>, key: &str) -> (r: Option<Zone>)
    ensures
        r == zone_of(inline_view(fs@), key@),
{
    let ghost all = inline_view(fs@);
    let mut i: usize = fs.len();
    proof {
        assert(all.take(i as int) =~= all);
    }
    while i > 0
        invariant
            i <= fs@.len(),
            all == inline_view(fs@),
            zone_of(all.take(i as int), key@) == zone_of(all, key@),
        decreases i,
    {
        proof {
            assert(all.take(i as int).last() == fs@[i - 1]@);
            assert(all.take(i as int).drop_last() =~= all.take(i - 1));
        }
        if text::same(fs[i - 1].key.as_str(), key) {
            return Some(fs[i - 1].zone);
        }
        i = i - 1;
    }
    None
}

/// Adds the field that a line gives, if it is new.
fn add_field(fields: &mut Vec<InlineField>, g: &Groups, zone: Zone, Ghost(items): Ghost<
    Seq<(Option<(Seq<char>, Seq<char>)>, Zone)>,
>) -> (r: Result<(), ZettelError>)
    requires
        items.len() > 0,
        items.last() == (groups_view(*g), zone),
        fields_found(items.drop_last()) == Ok::<Seq<FieldView>, ErrorView>(
            inline_view(old(fields)@),
        ),
    ensures
        match r {
            Ok(_) => fields_found(items) == Ok::<Seq<FieldView>, ErrorView>(
                inline_view(final(fields)@),
            ),
            Err(e) => fields_found(items) == Err::<Seq<FieldView>, ErrorView>(e@),
        },
{
    if let Some((k, v)) = g {
        let key = text::trim(k.as_str());
        match seek_zone(fields, key.as_str()) {
            Some(z) => {
                if z != zone {
                    return Err(
                        ZettelError::Validation(
                            text::cat3(
                                "duplicate inline field '",
                                key.as_str(),
                                "' across body and reference zones",
                            ),
                        ),
                    );
                }
            },
            None => {
                let ghost before = fields@;
                let f = InlineField { key, value: text::copy(v.as_str()), zone };
                fields.push(f);
                proof {
                    assert(inline_view(fields@) =~= inline_view(before).push(f@));
                }
            },
        }
    }
    Ok(())
}

/// Collects the inline fields from what the patterns gave for each line: which
/// lines of the body are fences, and the groups in each line.
pub fn collect_fields(fences: &Vec<bool>, body: &Vec<Groups>, reference: &Vec<Groups>) -> (r:
    Result<Vec<InlineField>, ZettelError>)
    requires
        fences@.len() == body@.len(),
    ensures
        match r {
            Ok(f) => fields_found(
                field_items(fences@, all_groups(body@), all_groups(reference@)),
            ) == Ok::<Seq<FieldView>, ErrorView>(inline_view(f@)),
            Err(e) => fields_found(
                field_items(fences@, all_groups(body@), all_groups(reference@)),
            ) == Err::<Seq<FieldView>, ErrorView>(e@),
        },
{
    let mut fields: Vec<InlineField> = Vec::new();
    let mut in_fence = false;
    let ghost items = field_items(fences@, all_groups(body@), all_groups(reference@));
    let nb: usize = body.len();
    let mut i: usize = 0;
    proof {
        assert(items.take(0) =~= Seq::<(Option<(Seq<char>, Seq<char>)>, Zone)>::empty());
        assert(inline_view(fields@) =~= Seq::<FieldView>::empty());
    }
    let no_field: Groups = None;
    while i < nb
        invariant
            i <= nb == body@.len() == fences@.len(),
            items == field_items(fences@, all_groups(body@), all_groups(reference@)),
            in_fence == in_block(fences@, i as int),
            fields_found(items.take(i as int)) == Ok::<Seq<FieldView>, ErrorView>(
                inline_view(fields@),
            ),
            no_field is None,
        decreases nb - i,
    {
        let skip = fences[i] || in_fence;
        if fences[i] {
            in_fence = !in_fence;
        }
        proof {
            let t = items.take(i + 1);
            assert(t.drop_last() =~= items.take(i as int));
            assert(t.last() == (body_item(fences@, all_groups(body@), i as int), Zone::Body));
        }
        let g: &Groups = if skip {
            &no_field
        } else {
            &body[i]
        };
        match add_field(&mut fields, g, Zone::Body, Ghost(items.take(i + 1))) {
            Ok(_) => {},
            Err(e) => {
                proof {
                    lemma_fields_error(items, i + 1);
                }
                return Err(e);
            },
        }
        i = i + 1;
    }
    let nr: usize = reference.len();
    let mut j: usize = 0;
    while j < nr
        invariant
            j <= nr == reference@.len(),
            nb == body@.len(),
            items == field_items(fences@, all_groups(body@), all_groups(reference@)),
            fields_found(items.take(nb + j)) == Ok::<Seq<FieldView>, ErrorView>(
                inline_view(fields@),
            ),
        decreases nr - j,
    {
        proof {
            let t = items.take(nb + j + 1);
            assert(t.drop_last() =~= items.take(nb + j));
            assert(t.last() == (groups_view(reference@[j as int]), Zone::Reference));
        }
        match add_field(
            &mut fields,
            &reference[j],
            Zone::Reference,
            Ghost(items.take(nb + j + 1)),
        ) {
            Ok(_) => {},
            Err(e) => {
                proof {
                    lemma_fields_error(items, nb + j + 1);
                }
                return Err(e);
            },
        }
        j = j + 1;
    }
    proof {
        assert(items.take(nb + j) =~= items);
    }
    Ok(fields)
}

/// A note without body and reference section has no inline fields.
pub(crate) proof fn lemma_no_inline_fields()
    ensures
        inline_fields_of(Seq::empty(), Seq::empty()) == Ok::<Seq<FieldView>, ErrorView>(Seq::empty()),
{
    let e = Seq::<char>::empty();
    let none = Seq::<Seq<char>>::empty();
    assert(lines(e) =~= none);
    assert(fence_flags(none) =~= Seq::<bool>::empty());
    let f = field_items(fence_flags(none), body_groups(none), ref_groups(none));
    assert(f =~= Seq::empty());
}

/// Finds the fields `key:: value` in the body and `- key:: value` in the
/// reference section. Code, fenced or within a line, holds no fields. A key in
/// both zones is an error; of a key twice in one zone the first counts.
pub fn extract_inline_fields(body: &str, reference: &str) -> (r: Result<
    Vec<InlineField>,
    ZettelError,
>)
    ensures
        match r {
            Ok(f) => inline_fields_of(body@, reference@) == Ok::<Seq<FieldView>, ErrorView>(
                inline_view(f@),
            ),
            Err(e) => inline_fields_of(body@, reference@) == Err::<Seq<FieldView>, ErrorView>(e@),
        },
{
    let bl = text::split_lines(body);
    let rl = text::split_lines(reference);
    let fences = match_each(FENCE, &bl);
    let stripped = strip_code(INLINE_CODE, &bl);
    let bg = groups_each(BODY_FIELD, &stripped);
    let rg = groups_each(REF_FIELD, &rl);
    proof {
        let bt = lines(body@);
        let rt = lines(reference@);
        assert forall|i: int| 0 <= i < bl@.len() implies bt[i] == (#[trigger] bl@[i])@ by {
            assert(texts(bl@)[i] == bl@[i]@);
        }
        assert forall|i: int| 0 <= i < rl@.len() implies rt[i] == (#[trigger] rl@[i])@ by {
            assert(texts(rl@)[i] == rl@[i]@);
        }
        assert(fences@ =~= fence_flags(bt));
        assert(all_groups(bg@) =~= body_groups(bt)) by {
            assert forall|i: int| 0 <= i < bg@.len() implies all_groups(bg@)[i] == body_groups(
                bt,
            )[i] by {
                assert(groups_view(bg@[i]) == groups(BODY_FIELD@, stripped@[i]@));
                assert(stripped@[i]@ == without_code(bl@[i]@));
            }
        }
        assert(all_groups(rg@) =~= ref_groups(rt)) by {
            assert forall|i: int| 0 <= i < rg@.len() implies all_groups(rg@)[i] == ref_groups(
                rt,
            )[i] by {
                assert(groups_view(rg@[i]) == groups(REF_FIELD@, rl@[i]@));
            }
        }
    }
    collect_fields(&fences, &bg, &rg)
}

// ---------------------------------------------------------------------------
// Links
// ---------------------------------------------------------------------------
/// The links that matches stand for.
pub open spec fn links_of_matches(ms: Seq<MatchView>, zone: Zone) -> Seq<LinkView> {
    Seq::new(
        ms.len(),
        |i: int| LinkView { target: ms[i].first, display: ms[i].second, zone },
    )
}

/// The links of a note, zone by zone.
pub open spec fn wikilinks_of(
    frontmatter: Seq<char>,
    body: Seq<char>,
    reference: Seq<char>,
) -> Seq<LinkView> {
    links_of_matches(links_found(frontmatter), Zone::Frontmatter) + links_of_matches(
        links_found(body),
        Zone::Body,
    ) + links_of_matches(links_found(reference), Zone::Reference)
}

/// Adds the links that matches stand for to a list.
pub fn add_links(out: &mut Vec<WikiLink>, ms: &Vec<Match>, zone: Zone)
    ensures
        links_view(final(out)@) == links_view(old(out)@) + links_of_matches(
            matches_view(ms@),
            zone,
        ),
{
    let ghost before = links_view(out@);
    let ghost all = links_of_matches(matches_view(ms@), zone);
    let mut i: usize = 0;
    proof {
        assert(before + all.take(0) =~= before);
    }
    while i < ms.len()
        invariant
            i <= ms@.len(),
            all == links_of_matches(matches_view(ms@), zone),
            links_view(out@) == before + all.take(i as int),
        decreases ms@.len() - i,
    {
        let l = WikiLink {
            target: text::copy(ms[i].first.as_str()),
            display: text::copy_opt(&ms[i].second),
            zone,
        };
        let ghost now = out@;
        out.push(l);
        proof {
            assert(matches_view(ms@)[i as int] == ms@[i as int]@);
            assert(l@ == all[i as int]);
            assert(links_view(out@) =~= links_view(now).push(l@));
            assert(links_view(out@) =~= before + all.take(i + 1));
        }
        i = i + 1;
    }
    proof {
        assert(all.take(i as int) =~= all);
    }
}

/// Finds the links `[[target|display]]` in all three zones.
pub fn extract_wikilinks(frontmatter: &str, body: &str, reference: &str) -> (r: Vec<WikiLink>)
    ensures
        links_view(r@) == wikilinks_of(frontmatter@, body@, reference@),
{
    let mut out: Vec<WikiLink> = Vec::new();
    proof {
        assert(links_view(out@) =~= Seq::<LinkView>::empty());
    }
    let a = links_in(WIKILINK, frontmatter);
    add_links(&mut out, &a, Zone::Frontmatter);
    let b = links_in(WIKILINK, body);
    add_links(&mut out, &b, Zone::Body);
    let c = links_in(WIKILINK, reference);
    add_links(&mut out, &c, Zone::Reference);
    proof {
        assert(links_view(out@) =~= wikilinks_of(frontmatter@, body@, reference@));
    }
    out
}

/// The text that takes the place of a link.
pub open spec fn link_text(
    s: Seq<char>,
    m: MatchView,
    old_target: Seq<char>,
    new_target: Seq<char>,
) -> Seq<char> {
    if m.first == old_target {
        link_form(new_target, m.second)
    } else {
        s.subrange(m.start, m.end)
    }
}

/// The text from `pos` on, with the links to one target pointed at another.
pub open spec fn rewritten(
    s: Seq<char>,
    ms: Seq<MatchView>,
    pos: int,
    old_target: Seq<char>,
    new_target: Seq<char>,
) -> Seq<char>
    decreases ms.len(),
{
    if ms.len() == 0 {
        s.skip(pos)
    } else {
        s.subrange(pos, ms[0].start) + link_text(s, ms[0], old_target, new_target) + rewritten(
            s,
            ms.drop_first(),
            ms[0].end,
            old_target,
            new_target,
        )
    }
}

/// Points the links of a text, as they were found in it, at a new target.
pub fn rewrite_matches(content: &str, ms: &Vec<Match>, old_target: &str, new_target: &str) -> (r:
    String)
    requires
        in_sequence(matches_view(ms@), content@.len() as int),
    ensures
        r@ == rewritten(content@, matches_view(ms@), 0, old_target@, new_target@),
{
    let cs = text::chars(content);
    let ghost all = matches_view(ms@);
    let n: usize = cs.len();
    let mut out = String::new();
    let mut pos: usize = 0;
    let mut i: usize = 0;
    proof {
        assert(all.skip(0) =~= all);
        assert(out@ + rewritten(cs@, all, 0, old_target@, new_target@) =~= rewritten(
            cs@,
            all,
            0,
            old_target@,
            new_target@,
        ));
    }
    while i < ms.len()
        invariant
            i <= ms@.len(),
            n == cs@.len(),
            cs@ == content@,
            pos <= n,
            all == matches_view(ms@),
            in_sequence(all, n as int),
            forall|j: int| i <= j < all.len() ==> pos <= (#[trigger] all[j]).start,
            out@ + rewritten(cs@, all.skip(i as int), pos as int, old_target@, new_target@)
                == rewritten(cs@, all, 0, old_target@, new_target@),
        decreases ms@.len() - i,
    {
        let ghost m = all[i as int];
        let ghost done = out@;
        let ghost rest = all.skip(i as int);
        proof {
            assert(m == ms@[i as int]@);
            assert(rest[0] == m);
            assert(rest.drop_first() =~= all.skip(i + 1));
        }
        let gap = text::slice(&cs, pos, ms[i].start);
        out.append(gap.as_str());
        let ghost lt = link_text(content@, m, old_target@, new_target@);
        if text::same(ms[i].first.as_str(), old_target) {
            out.append("[[");
            out.append(new_target);
            if let Some(d) = &ms[i].second {
                out.append("|");
                out.append(d.as_str());
            }
            out.append("]]");
            proof {
                assert(out@ =~= done + gap@ + lt);
            }
        } else {
            let whole = text::slice(&cs, ms[i].start, ms[i].end);
            out.append(whole.as_str());
        }
        proof {
            let tail = rewritten(cs@, all.skip(i + 1), m.end, old_target@, new_target@);
            assert(out@ == done + gap@ + lt);
            assert(done + (gap@ + lt + tail) =~= out@ + tail);
        }
        pos = ms[i].end;
        i = i + 1;
    }
    let tail = text::slice(&cs, pos, n);
    proof {
        assert(tail@ =~= cs@.skip(pos as int));
        assert(all.skip(i as int) =~= Seq::<MatchView>::empty());
    }
    out.append(tail.as_str());
    out
}

/// Points the links to one target at another, in all zones of a note, and
/// leaves the text they are displayed with.
pub fn rewrite_wikilinks(content: &str, old_target: &str, new_target: &str) -> (r: String)
    ensures
        r@ == rewritten(content@, links_found(content@), 0, old_target@, new_target@),
{
    let ms = links_in(WIKILINK, content);
    proof {
        lemma_links_from(content@, 0);
    }
    rewrite_matches(content, &ms, old_target, new_target)
}

// ---------------------------------------------------------------------------
// Writing
// ---------------------------------------------------------------------------
/// Whether a scalar needs quotes.
pub open spec fn needs_quotes(s: Seq<char>) -> bool {
    s.contains(':') || s.contains('[') || s.contains(']') || s.contains('{') || s.contains('}')
        || s.contains('#')
}

/// A scalar as the front matter writes it: in quotes where it holds a special
/// character, backslashes and quotes then escaped.
pub open spec fn yaml_quoted(s: Seq<char>) -> Seq<char> {
    if needs_quotes(s) {
        "\""@ + text::replaced(text::replaced(s, "\\"@, "\\\\"@), "\""@, "\\\""@) + "\""@
    } else {
        s
    }
}

pub fn yaml_quote(s: &str) -> (r: String)
    ensures
        r@ == yaml_quoted(s@),
{
    if text::contains_char(s, ':') || text::contains_char(s, '[') || text::contains_char(s, ']')
        || text::contains_char(s, '{') || text::contains_char(s, '}') || text::contains_char(
        s,
        '#',
    ) {
        proof {
            reveal_strlit("\\");
            reveal_strlit("\"");
        }
        let a = text::replace(s, "\\", "\\\\");
        let b = text::replace(a.as_str(), "\"", "\\\"");
        text::cat3("\"", b.as_str(), "\"")
    } else {
        text::copy(s)
    }
}

/// `key: value` with the value on the same line.
pub open spec fn scalar_line(key: Seq<char>, v: ValueView) -> Seq<char> {
    key + ": "@ + yaml_quoted(trimmed(emitted_yaml(yaml_of(v)))) + "\n"@
}

/// An entry of the front matter.
pub open spec fn entry_text(key: Seq<char>, v: ValueView) -> Seq<char> {
    if v is List || v is Mapping {
        emitted_yaml(YamlView::Mapping(seq![(YamlView::Text(key), yaml_of(v))]))
    } else {
        scalar_line(key, v)
    }
}

pub open spec fn is_promoted(key: Seq<char>) -> bool {
    key == "publish"@ || key == "processed"@
}

pub open spec fn promoted_text(extra: Seq<(Seq<char>, ValueView)>, key: Seq<char>) -> Seq<char> {
    match textmap::lookup(extra, key) {
        Some(v) => scalar_line(key, v),
        None => Seq::empty(),
    }
}

pub open spec fn extras_text(e: Seq<(Seq<char>, ValueView)>) -> Seq<char>
    decreases e.len(),
{
    if e.len() == 0 {
        Seq::empty()
    } else if is_promoted(e.last().0) {
        extras_text(e.drop_last())
    } else {
        extras_text(e.drop_last()) + entry_text(e.last().0, e.last().1)
    }
}

pub open spec fn tag_lines(tags: Seq<Seq<char>>) -> Seq<char>
    decreases tags.len(),
{
    if tags.len() == 0 {
        Seq::empty()
    } else {
        tag_lines(tags.drop_last()) + "  - "@ + yaml_quoted(tags.last()) + "\n"@
    }
}

pub open spec fn tags_text(tags: Seq<Seq<char>>) -> Seq<char> {
    if tags.len() == 0 {
        Seq::empty()
    } else {
        "tags:\n"@ + tag_lines(tags)
    }
}

pub open spec fn opt_line(key: Seq<char>, o: Option<Seq<char>>) -> Seq<char> {
    match o {
        Some(v) => key + v + "\n"@,
        None => Seq::empty(),
    }
}

pub open spec fn quoted_line(key: Seq<char>, o: Option<Seq<char>>) -> Seq<char> {
    match o {
        Some(v) => key + yaml_quoted(v) + "\n"@,
        None => Seq::empty(),
    }
}

/// The lines of the front matter: identifier, title, date, tags, type, the two
/// promoted fields, then the others in the order of their keys.
pub open spec fn meta_text(m: MetaView) -> Seq<char> {
    opt_line("id: "@, m.id) + quoted_line("title: "@, m.title) + opt_line("date: "@, m.date)
        + tags_text(m.tags) + quoted_line("type: "@, m.zettel_type) + promoted_text(
        m.extra,
        "publish"@,
    ) + promoted_text(m.extra, "processed"@) + extras_text(m.extra)
}

pub open spec fn reference_text(reference: Seq<char>) -> Seq<char> {
    if reference.len() == 0 {
        Seq::empty()
    } else {
        "\n---\n"@ + reference
    }
}

/// A note as text.
pub open spec fn serialized(m: MetaView, body: Seq<char>, reference: Seq<char>) -> Seq<char> {
    "---\n"@ + meta_text(m) + "---\n"@ + body + reference_text(reference)
}

fn write_scalar(out: &mut String, key: &str, v: &Value)
    ensures
        final(out)@ == old(out)@ + scalar_line(key@, v@),
        emits(yaml_of(v@)),
{
    let ghost before = out@;
    let y = to_yaml(v);
    let e = write_yaml(&y);
    let t = text::trim(e.as_str());
    let q = yaml_quote(t.as_str());
    out.append(key);
    out.append(": ");
    out.append(q.as_str());
    out.append("\n");
    proof {
        assert(out@ =~= before + scalar_line(key@, v@));
    }
}

fn write_entry(out: &mut String, key: &str, v: &Value)
    ensures
        final(out)@ == old(out)@ + entry_text(key@, v@),
        emits_entry(key@, v@),
{
    if v.is_sequence() || v.is_mapping() {
        let y = to_yaml(v);
        let mut m: Vec<(Yaml, Yaml)> = Vec::new();
        let k = Yaml::Text(text::copy(key));
        m.push((k, y));
        let doc = Yaml::Mapping(m);
        proof {
            lemma_mapping_view(m@);
            assert(yaml_view(k) == YamlView::Text(key@));
            assert(mapping_view(m@)[0] == (yaml_view(k), yaml_view(y)));
            assert(mapping_view(m@) =~= seq![(YamlView::Text(key@), yaml_of(v@))]);
        }
        let e = write_yaml(&doc);
        out.append(e.as_str());
    } else {
        write_scalar(out, key, v);
    }
}

fn write_promoted(out: &mut String, extra: &TextMap<Value>, key: &str)
    ensures
        final(out)@ == old(out)@ + promoted_text(fields_view(*extra), key@),
        emits_promoted(fields_view(*extra), key@),
{
    let ghost before = out@;
    proof {
        lemma_fields_lookup(*extra, key@);
    }
    match extra.get(key) {
        Some(v) => {
            write_scalar(out, key, v);
        },
        None => {
            proof {
                assert(out@ =~= before + Seq::<char>::empty());
            }
        },
    }
}

fn write_extras(out: &mut String, extra: &TextMap<Value>)
    ensures
        final(out)@ == old(out)@ + extras_text(fields_view(*extra)),
        emits_others(fields_view(*extra)),
{
    let ghost before = out@;
    let ghost all = fields_view(*extra);
    let mut i: usize = 0;
    proof {
        lemma_pairs_view(extra.entries@);
        assert(all.take(0) =~= Seq::<(Seq<char>, ValueView)>::empty());
        assert(out@ =~= before + Seq::<char>::empty());
    }
    while i < extra.entries.len()
        invariant
            i <= extra.entries@.len() == all.len(),
            all == fields_view(*extra),
            forall|j: int|
                0 <= j < all.len() ==> #[trigger] all[j] == (
                    extra.entries@[j].0@,
                    extra.entries@[j].1@,
                ),
            out@ == before + extras_text(all.take(i as int)),
            forall|j: int|
                0 <= j < i ==> is_promoted((#[trigger] all[j]).0) || emits_entry(
                    all[j].0,
                    all[j].1,
                ),
        decreases extra.entries@.len() - i,
    {
        let ghost now = out@;
        proof {
            let t = all.take(i + 1);
            assert(t.drop_last() =~= all.take(i as int));
            assert(t.last() == all[i as int]);
        }
        let key = extra.entries[i].0.as_str();
        if !text::same(key, "publish") && !text::same(key, "processed") {
            write_entry(out, key, &extra.entries[i].1);
            proof {
                assert(out@ =~= before + extras_text(all.take(i + 1)));
            }
        }
        i = i + 1;
    }
    proof {
        assert(all.take(i as int) =~= all);
    }
}

fn write_tags(out: &mut String, tags: &Vec<String>)
    ensures
        final(out)@ == old(out)@ + tags_text(texts(tags@)),
{
    let ghost before = out@;
    let ghost all = texts(tags@);
    if tags.len() == 0 {
        proof {
            assert(out@ =~= before + Seq::<char>::empty());
        }
        return;
    }
    out.append("tags:\n");
    let ghost head = out@;
    let mut i: usize = 0;
    proof {
        assert(all.take(0) =~= Seq::<Seq<char>>::empty());
        assert(out@ =~= head + Seq::<char>::empty());
    }
    while i < tags.len()
        invariant
            i <= tags@.len(),
            all == texts(tags@),
            out@ == head + tag_lines(all.take(i as int)),
        decreases tags@.len() - i,
    {
        let q = yaml_quote(tags[i].as_str());
        out.append("  - ");
        out.append(q.as_str());
        out.append("\n");
        proof {
            let t = all.take(i + 1);
            assert(t.drop_last() =~= all.take(i as int));
            assert(t.last() == tags@[i as int]@);
            assert(out@ =~= head + tag_lines(t));
        }
        i = i + 1;
    }
    proof {
        assert(all.take(i as int) =~= all);
        assert(out@ =~= before + ("tags:\n"@ + tag_lines(all)));
    }
}

fn write_opt(out: &mut String, key: &str, o: &Option<String>, quote: bool)
    ensures
        final(out)@ == old(out)@ + if quote {
            quoted_line(key@, text::opt_text(*o))
        } else {
            opt_line(key@, text::opt_text(*o))
        },
{
    let ghost before = out@;
    match o {
        Some(v) => {
            out.append(key);
            if quote {
                let q = yaml_quote(v.as_str());
                out.append(q.as_str());
            } else {
                out.append(v.as_str());
            }
            out.append("\n");
        },
        None => {},
    }
    proof {
        let line = if quote {
            quoted_line(key@, text::opt_text(*o))
        } else {
            opt_line(key@, text::opt_text(*o))
        };
        assert(out@ =~= before + line);
    }
}

/// Whether a text is zones as they are written. A front matter of plain values is
/// written in its lines.
pub open spec fn is_text(m: MetaView, body: Seq<char>, reference: Seq<char>, s: Seq<char>) -> bool {
    &&& s == serialized(m, body, reference)
    &&& is_plain_meta(m) ==> s == plain_note(m, body, reference)
}

/// Whether a text is a note as `serialize` writes it.
pub open spec fn is_writing(z: ZettelView, s: Seq<char>) -> bool {
    is_text(z.meta, z.body, z.reference, s)
}

/// Writes a note as text.
pub fn serialize(zettel: &ParsedZettel) -> (r: String)
    ensures
        is_writing(zettel@, r@),
{
    let m = &zettel.meta;
    let ghost mv = m@;
    let mut out = text::copy("---\n");
    if let Some(id) = &m.id {
        out.append("id: ");
        out.append(id.0.as_str());
        out.append("\n");
    }
    let ghost a = opt_line("id: "@, mv.id);
    proof {
        assert(out@ =~= "---\n"@ + a);
    }
    let ghost h = "---\n"@;
    write_opt(&mut out, "title: ", &m.title, true);
    let ghost b = quoted_line("title: "@, mv.title);
    proof {
        text::lemma_assoc(h, a, b);
    }
    write_opt(&mut out, "date: ", &m.date, false);
    let ghost c = opt_line("date: "@, mv.date);
    proof {
        text::lemma_assoc(h, a + b, c);
    }
    write_tags(&mut out, &m.tags);
    let ghost d = tags_text(mv.tags);
    proof {
        text::lemma_assoc(h, a + b + c, d);
    }
    write_opt(&mut out, "type: ", &m.zettel_type, true);
    let ghost e = quoted_line("type: "@, mv.zettel_type);
    proof {
        text::lemma_assoc(h, a + b + c + d, e);
    }
    write_promoted(&mut out, &m.extra, "publish");
    let ghost f = promoted_text(mv.extra, "publish"@);
    proof {
        text::lemma_assoc(h, a + b + c + d + e, f);
    }
    write_promoted(&mut out, &m.extra, "processed");
    let ghost g = promoted_text(mv.extra, "processed"@);
    proof {
        text::lemma_assoc(h, a + b + c + d + e + f, g);
    }
    write_extras(&mut out, &m.extra);
    proof {
        text::lemma_assoc(h, a + b + c + d + e + f + g, extras_text(mv.extra));
        assert(out@ == h + meta_text(mv));
        if is_plain_meta(mv) {
            lemma_meta_text(mv);
        }
    }
    out.append("---\n");
    out.append(zettel.body.as_str());
    let ghost k = out@;
    if !zettel.reference_section.as_str().is_empty() {
        out.append("\n---\n");
        out.append(zettel.reference_section.as_str());
        proof {
            text::lemma_assoc(k, "\n---\n"@, zettel@.reference);
        }
    } else {
        proof {
            assert(k + reference_text(zettel@.reference) =~= k);
        }
    }
    out
}

// ---------------------------------------------------------------------------
// Reading
// ---------------------------------------------------------------------------
/// The note that a text holds.
pub open spec fn parsed_zettel(content: Seq<char>, path: Seq<char>) -> Result<
    ZettelView,
    ErrorView,
> {
    match split_view(content) {
        Err(e) => Err(e),
        Ok(z) => match frontmatter_of(z.frontmatter, path) {
            Err(e) => Err(e),
            Ok(meta) => match inline_fields_of(z.body, z.reference) {
                Err(e) => Err(e),
                Ok(fields) => Ok(
                    ZettelView {
                        meta,
                        body: z.body,
                        reference: z.reference,
                        fields,
                        links: wikilinks_of(z.frontmatter, z.body, z.reference),
                        path,
                    },
                ),
            },
        },
    }
}

/// Whether a result of reading a note has the plain front matter that the note
/// writes, where it does; then only the inline fields can keep it from being
/// read.
pub open spec fn reads_plain_note(
    content: Seq<char>,
    path: Seq<char>,
    r: Result<ParsedZettel, ZettelError>,
) -> bool {
    forall|d: Seq<Entry>|
        split_view(content) is Ok && is_front(d) && split_view(content)->Ok_0.frontmatter
            == #[trigger] plain_text(d) ==> match r {
            Ok(x) => x@.meta == with_path_id(meta_from(d), path),
            Err(_) => inline_fields_of(
                split_view(content)->Ok_0.body,
                split_view(content)->Ok_0.reference,
            ) is Err,
        }
}

/// Whether a result is that of `parse` on a text.
pub open spec fn is_reading(
    content: Seq<char>,
    path: Seq<char>,
    r: Result<ParsedZettel, ZettelError>,
) -> bool {
    &&& match r {
        Ok(z) => parsed_zettel(content, path) == Ok::<ZettelView, ErrorView>(z@)
            && z.meta.extra.sorted(),
        Err(e) => parsed_zettel(content, path) == Err::<ZettelView, ErrorView>(e@),
    }
    &&& reads_plain_note(content, path, r)
    &&& refs_are_marked(lines(content))
}

/// Reads a note: zones, front matter, inline fields and links.
pub fn parse(content: &str, path: &str) -> (r: Result<ParsedZettel, ZettelError>)
    ensures
        is_reading(content@, path@, r),
{
    let zettel = match split_zones(content) {
        Ok(z) => z,
        Err(e) => {
            return Err(e);
        },
    };
    let meta = match parse_frontmatter(zettel.raw_frontmatter.as_str(), path) {
        Ok(m) => m,
        Err(e) => {
            return Err(e);
        },
    };
    let inline_fields = match extract_inline_fields(
        zettel.body.as_str(),
        zettel.reference_section.as_str(),
    ) {
        Ok(f) => f,
        Err(e) => {
            return Err(e);
        },
    };
    let wikilinks = extract_wikilinks(
        zettel.raw_frontmatter.as_str(),
        zettel.body.as_str(),
        zettel.reference_section.as_str(),
    );
    Ok(
        ParsedZettel {
            meta,
            body: zettel.body,
            reference_section: zettel.reference_section,
            inline_fields,
            wikilinks,
            path: text::copy(path),
        },
    )
}

// ---------------------------------------------------------------------------
// Identifiers
// ---------------------------------------------------------------------------
/// The source of new identifiers: it remembers the last one that it gave.
#[derive(Debug)]
pub struct IdSource {
    pub last: String,
}

impl IdSource {
    pub fn new() -> (s: IdSource)
        ensures
            s.last@.len() == 0,
    {
        IdSource { last: String::new() }
    }

    /// Takes a candidate, the time of now, as a new identifier. It is refused,
    /// and has to be tried again later, while it is the last one given or is
    /// taken already.
    pub fn offer(&mut self, candidate: &str, taken: bool) -> (r: Option<ZettelId>)
        ensures
            crate::types::id_text(r) == offered(old(self).last@, candidate@, taken),
            final(self).last@ == match r {
                Some(id) => id.0@,
                None => old(self).last@,
            },
    {
        if taken || text::same(candidate, self.last.as_str()) {
            return None;
        }
        self.last = text::copy(candidate);
        Some(ZettelId(text::copy(candidate)))
    }
}

/// The identifier that a candidate gives after a last one.
pub open spec fn offered(last: Seq<char>, candidate: Seq<char>, taken: bool) -> Option<Seq<char>> {
    if taken || candidate == last {
        None
    } else {
        Some(candidate)
    }
}

/// An identifier that is given differs from the last one, also within one second,
/// and is of fourteen digits where the candidate is.
pub proof fn law_ids_differ(last: Seq<char>, candidate: Seq<char>, taken: bool)
    ensures
        offered(last, candidate, taken) matches Some(id) ==> {
            &&& id != last
            &&& valid_id(candidate) ==> valid_id(id)
            &&& forall|next: Seq<char>, t: bool|
                #![trigger offered(id, next, t)]
                offered(id, next, t) matches Some(x) ==> x != id
        },
{
}

// ---------------------------------------------------------------------------
// Laws
// ---------------------------------------------------------------------------
/// Lines, each followed by a line feed.
pub open spec fn unlines(ls: Seq<Seq<char>>) -> Seq<char>
    decreases ls.len(),
{
    if ls.len() == 0 {
        Seq::empty()
    } else {
        unlines(ls.drop_last()) + ls.last() + "\n"@
    }
}

/// Whether a text can stand as a line: no line feed in it, and no carriage
/// return at its end.
pub open spec fn is_line(l: Seq<char>) -> bool {
    !l.contains('\n') && !(l.len() > 0 && l.last() == '\r')
}

pub open spec fn are_lines(ls: Seq<Seq<char>>) -> bool {
    forall|i: int| 0 <= i < ls.len() ==> is_line(#[trigger] ls[i])
}

/// Text that ends with a line feed, and text after it.
pub proof fn lemma_lines_after(a: Seq<char>, b: Seq<char>)
    requires
        a.len() == 0 || a.last() == '\n',
    ensures
        lines(a + b) == lines(a) + lines(b),
{
    if a.len() == 0 {
        assert(a + b =~= b);
        assert(lines(a) + lines(b) =~= lines(b));
    } else {
        let d = a.drop_last();
        assert(a =~= d + seq!['\n']);
        text::lemma_lines_cat(d, b);
    }
}

pub proof fn lemma_one_line(l: Seq<char>)
    requires
        is_line(l),
    ensures
        lines(l + "\n"@) == seq![l],
        l.len() > 0 ==> lines(l) == seq![l],
{
    reveal_strlit("\n");
    let s = l + "\n"@;
    assert forall|i: int| 0 <= i < l.len() implies s[i] != '\n' && l[i] != '\n' by {
        assert(l.contains(l[i]));
    }
    text::lemma_until_is(s, '\n', l.len() as int);
    text::lemma_until_is(l, '\n', l.len() as int);
    assert(s.take(l.len() as int) =~= l);
    assert(s.skip(l.len() as int + 1) =~= Seq::<char>::empty());
    assert(lines(s.skip(l.len() as int + 1)) == Seq::<Seq<char>>::empty());
    assert(lines(s) =~= seq![l]);
}

pub proof fn lemma_lines_unlines(ls: Seq<Seq<char>>)
    requires
        are_lines(ls),
    ensures
        lines(unlines(ls)) == ls,
        unlines(ls).len() == 0 || unlines(ls).last() == '\n',
    decreases ls.len(),
{
    reveal_strlit("\n");
    if ls.len() == 0 {
        assert(lines(unlines(ls)) =~= ls);
    } else {
        let d = ls.drop_last();
        assert forall|i: int| 0 <= i < d.len() implies is_line(#[trigger] d[i]) by {
            assert(d[i] == ls[i]);
        }
        lemma_lines_unlines(d);
        assert(is_line(ls[ls.len() - 1]));
        lemma_one_line(ls.last());
        text::lemma_assoc(unlines(d), ls.last(), "\n"@);
        lemma_lines_after(unlines(d), ls.last() + "\n"@);
        assert(lines(unlines(ls)) =~= ls);
    }
}

/// Lines joined and a line feed are the same as lines each with its line feed.
pub proof fn lemma_join_unlines(ls: Seq<Seq<char>>)
    requires
        ls.len() > 0,
    ensures
        join(ls, "\n"@) + "\n"@ == unlines(ls),
    decreases ls.len(),
{
    if ls.len() == 1 {
        assert(ls.drop_last() =~= Seq::<Seq<char>>::empty());
        assert(unlines(ls.drop_last()) =~= Seq::<char>::empty());
        assert(unlines(ls) =~= ls[0] + "\n"@);
    } else {
        lemma_join_unlines(ls.drop_last());
    }
}

pub proof fn lemma_lines_join(ls: Seq<Seq<char>>)
    requires
        are_lines(ls),
        ls.len() > 0,
        ls.last().len() > 0,
    ensures
        lines(join(ls, "\n"@)) == ls,
{
    assert(is_line(ls[ls.len() - 1]));
    lemma_one_line(ls.last());
    if ls.len() == 1 {
        assert(ls =~= seq![ls[0]]);
    } else {
        let d = ls.drop_last();
        assert forall|i: int| 0 <= i < d.len() implies is_line(#[trigger] d[i]) by {
            assert(d[i] == ls[i]);
        }
        lemma_join_unlines(d);
        lemma_lines_unlines(d);
        lemma_lines_after(unlines(d), ls.last());
        assert(lines(join(ls, "\n"@)) =~= ls);
    }
}

pub proof fn lemma_rule_line()
    ensures
        is_rule("---"@),
        !is_fence("---"@),
        is_line("---"@),
        "---\n"@ == "---"@ + "\n"@,
        "\n---\n"@ == "\n"@ + "---\n"@,
{
    reveal_strlit("---");
    reveal_strlit("```");
    reveal_strlit("~~~");
    reveal_strlit("\n");
    reveal_strlit("---\n");
    reveal_strlit("\n---\n");
    assert(trimmed("---"@) == "---"@);
    assert("---"@.take(3)[0] == '-');
    assert("---\n"@ =~= "---"@ + "\n"@);
    assert("\n---\n"@ =~= "\n"@ + "---\n"@);
}

pub proof fn lemma_first_rule(ls: Seq<Seq<char>>, from: int, k: int)
    requires
        0 <= from <= k < ls.len(),
        forall|i: int| from <= i < k ==> !is_rule(#[trigger] ls[i]),
        is_rule(ls[k]),
    ensures
        first_rule(ls, from) == k,
    decreases k - from,
{
    if from < k {
        assert(!is_rule(ls[from]));
        lemma_first_rule(ls, from + 1, k);
    }
}

/// Fences count from where one starts to look, wherever the lines stand.
pub proof fn lemma_fenced_shift(ls: Seq<Seq<char>>, body: Seq<Seq<char>>, from: int, i: int)
    requires
        0 <= from,
        0 <= i <= body.len(),
        from + body.len() <= ls.len(),
        forall|j: int| 0 <= j < body.len() ==> ls[from + j] == #[trigger] body[j],
    ensures
        fenced(ls, from, from + i) == fenced(body, 0, i),
    decreases i,
{
    if i > 0 {
        lemma_fenced_shift(ls, body, from, i - 1);
        assert(ls[from + (i - 1)] == body[i - 1]);
    }
}

/// Where no fenced block is open, fences can be counted anew.
pub proof fn lemma_fenced_from(ls: Seq<Seq<char>>, from: int, m: int, i: int)
    requires
        from <= m <= i,
        !fenced(ls, from, m),
    ensures
        fenced(ls, from, i) == fenced(ls, m, i),
    decreases i - m,
{
    if m < i {
        lemma_fenced_from(ls, from, m, i - 1);
    }
}

pub proof fn lemma_no_separators(ls: Seq<Seq<char>>, from: int, a: int, b: int)
    requires
        from <= a <= b,
        forall|i: int| a <= i < b ==> !#[trigger] is_separator(ls, from, i),
    ensures
        separators(ls, from, b) == separators(ls, from, a),
    decreases b - a,
{
    if a < b {
        lemma_no_separators(ls, from, a, b - 1);
        assert(!is_separator(ls, from, b - 1));
    }
}

/// What a note is written from is what it is cut into: with front matter,
/// body and reference section, each zone comes back as it was, and none takes
/// anything from another. The front matter holds no rule, the body closes each
/// fenced block that it opens, and the reference section holds reference lines
/// and blanks, no rule outside of fenced blocks, and no empty last line.
#[verifier::spinoff_prover]
#[verifier::rlimit(40)]
pub proof fn law_zones_round_trip(
    front: Seq<Seq<char>>,
    body: Seq<Seq<char>>,
    reference: Seq<Seq<char>>,
)
    requires
        are_lines(front),
        are_lines(body),
        are_lines(reference),
        forall|i: int| 0 <= i < front.len() ==> !is_rule(#[trigger] front[i]),
        body.len() > 0,
        !fenced(body, 0, body.len() as int),
        reference.len() > 0,
        reference.last().len() > 0,
        exists|i: int| 0 <= i < reference.len() && !text::is_blank(#[trigger] reference[i]),
        forall|i: int|
            0 <= i < reference.len() ==> text::is_blank(#[trigger] reference[i]) || matched(
                REF_LINE@,
                reference[i],
            ),
        forall|i: int| 0 <= i < reference.len() ==> !#[trigger] is_separator(reference, 0, i),
    ensures
        split_view(
            "---\n"@ + unlines(front) + "---\n"@ + join(body, "\n"@) + reference_text(
                join(reference, "\n"@),
            ),
        ) == Ok::<ZonesView, ErrorView>(
            ZonesView {
                frontmatter: join(front, "\n"@),
                body: join(body, "\n"@),
                reference: join(reference, "\n"@),
            },
        ),
{
    lemma_rule_line();
    reveal_strlit("\n");
    let r = "---"@;
    let rt = join(reference, "\n"@);
    let bt = join(body, "\n"@);
    lemma_lines_join(reference);
    if rt.len() == 0 {
        assert(lines(rt) =~= Seq::<Seq<char>>::empty());
    }
    // The text as lines.
    let head = "---\n"@ + unlines(front);
    let t0 = "---\n"@;
    lemma_one_line(r);
    lemma_lines_unlines(front);
    lemma_lines_after(t0, unlines(front));
    lemma_lines_after(head, t0);
    let t1 = head + t0;
    lemma_join_unlines(body);
    lemma_lines_unlines(body);
    lemma_lines_after(t1, unlines(body));
    let t2 = t1 + unlines(body);
    lemma_lines_after(t2, t0);
    let t3 = t2 + t0;
    lemma_lines_after(t3, rt);
    let whole = "---\n"@ + unlines(front) + "---\n"@ + bt + reference_text(rt);
    assert(whole =~= t3 + rt);
    let ls = seq![r] + front + seq![r] + body + seq![r] + reference;
    assert(lines(whole) =~= ls);
    // The zones of the lines.
    let b = front.len() as int + 1;
    let f = b + 1;
    let p = b + 1 + body.len();
    let n = ls.len() as int;
    let refs = ref_flags(ls);
    assert(ls[0] == r && ls[b] == r && ls[p] == r);
    lemma_first_rule(ls, 0, 0);
    assert forall|i: int| 1 <= i < b implies !is_rule(#[trigger] ls[i]) by {
        assert(ls[i] == front[i - 1]);
    }
    lemma_first_rule(ls, 1, b);
    assert forall|j: int| 0 <= j < body.len() implies ls[b + 1 + j] == #[trigger] body[j] by {
    }
    lemma_fenced_shift(ls, body, b + 1, body.len() as int);
    assert(is_separator(ls, b + 1, p));
    assert forall|j: int| 0 <= j < reference.len() implies ls[p + 1 + j] == #[trigger] reference[j] by {
    }
    assert forall|i: int| p + 1 <= i < n implies !#[trigger] is_separator(ls, f, i) by {
        assert(ls[i] == reference[i - p - 1]);
        lemma_fenced_from(ls, f, p + 1, i);
        lemma_fenced_shift(ls, reference, p + 1, i - p - 1);
        assert(!is_separator(reference, 0, i - p - 1));
    }
    lemma_no_separators(ls, b + 1, p + 1, n);
    let seps = separators(ls, b + 1, n);
    assert(seps.last() == p);
    let w = choose|i: int| 0 <= i < reference.len() && !text::is_blank(#[trigger] reference[i]);
    assert(ls[p + 1 + w] == reference[w]);
    assert(!all_blank(ls, p + 1, n));
    assert forall|i: int| p + 1 <= i < n && !text::is_blank(#[trigger] ls[i]) implies refs[i] by {
        assert(ls[i] == reference[i - p - 1]);
    }
    assert(only_refs(ls, refs, p + 1, n));
    assert(ls.subrange(1, b) =~= front);
    assert(ls.subrange(b + 1, p) =~= body);
    assert(ls.subrange(p + 1, n) =~= reference);
}

/// A note without reference section: a body that holds no rule outside of
/// fenced blocks comes back as it was, and nothing of it is taken for a
/// reference section.
pub proof fn law_no_false_reference(front: Seq<Seq<char>>, body: Seq<Seq<char>>)
    requires
        are_lines(front),
        are_lines(body),
        forall|i: int| 0 <= i < front.len() ==> !is_rule(#[trigger] front[i]),
        body.len() > 0 ==> body.last().len() > 0,
        forall|i: int| 0 <= i < body.len() ==> !#[trigger] is_separator(body, 0, i),
    ensures
        split_view("---\n"@ + unlines(front) + "---\n"@ + join(body, "\n"@)) == Ok::<
            ZonesView,
            ErrorView,
        >(
            ZonesView {
                frontmatter: join(front, "\n"@),
                body: join(body, "\n"@),
                reference: Seq::empty(),
            },
        ),
{
    lemma_rule_line();
    reveal_strlit("\n");
    let r = "---"@;
    let bt = join(body, "\n"@);
    let head = "---\n"@ + unlines(front);
    let t0 = "---\n"@;
    lemma_one_line(r);
    lemma_lines_unlines(front);
    lemma_lines_after(t0, unlines(front));
    lemma_lines_after(head, t0);
    let t1 = head + t0;
    if body.len() > 0 {
        lemma_lines_join(body);
    } else {
        assert(lines(bt) =~= body);
    }
    lemma_lines_after(t1, bt);
    let whole = "---\n"@ + unlines(front) + "---\n"@ + bt;
    let ls = seq![r] + front + seq![r] + body;
    assert(lines(whole) =~= ls);
    let b = front.len() as int + 1;
    let f = b + 1;
    let n = ls.len() as int;
    assert(ls[0] == r && ls[b] == r);
    lemma_first_rule(ls, 0, 0);
    assert forall|i: int| 1 <= i < b implies !is_rule(#[trigger] ls[i]) by {
        assert(ls[i] == front[i - 1]);
    }
    lemma_first_rule(ls, 1, b);
    assert forall|j: int| 0 <= j < body.len() implies ls[b + 1 + j] == #[trigger] body[j] by {
    }
    assert forall|i: int| b + 1 <= i < n implies !#[trigger] is_separator(ls, f, i) by {
        lemma_fenced_shift(ls, body, b + 1, i - b - 1);
        assert(ls[i] == body[i - b - 1]);
        assert(!is_separator(body, 0, i - b - 1));
    }
    lemma_no_separators(ls, b + 1, b + 1, n);
    assert(ls.subrange(1, b) =~= front);
    assert(ls.subrange(b + 1, n) =~= body);
}

/// Writing a note and cutting the text gives the body and the reference
/// section back, and as front matter the lines that were written.
pub proof fn law_serialize_zones(
    m: MetaView,
    front: Seq<Seq<char>>,
    body: Seq<Seq<char>>,
    reference: Seq<Seq<char>>,
)
    requires
        meta_text(m) == unlines(front),
        are_lines(front),
        are_lines(body),
        are_lines(reference),
        forall|i: int| 0 <= i < front.len() ==> !is_rule(#[trigger] front[i]),
        body.len() > 0,
        !fenced(body, 0, body.len() as int),
        reference.len() > 0,
        reference.last().len() > 0,
        exists|i: int| 0 <= i < reference.len() && !text::is_blank(#[trigger] reference[i]),
        forall|i: int|
            0 <= i < reference.len() ==> text::is_blank(#[trigger] reference[i]) || matched(
                REF_LINE@,
                reference[i],
            ),
        forall|i: int| 0 <= i < reference.len() ==> !#[trigger] is_separator(reference, 0, i),
    ensures
        split_view(serialized(m, join(body, "\n"@), join(reference, "\n"@))) == Ok::<
            ZonesView,
            ErrorView,
        >(
            ZonesView {
                frontmatter: join(front, "\n"@),
                body: join(body, "\n"@),
                reference: join(reference, "\n"@),
            },
        ),
{
    law_zones_round_trip(front, body, reference);
}

/// Links to other targets stay as they are: a text without a link to the old
/// target is not changed.
pub proof fn law_rewrite_absent(
    s: Seq<char>,
    ms: Seq<MatchView>,
    pos: int,
    old_target: Seq<char>,
    new_target: Seq<char>,
)
    requires
        in_sequence(ms, s.len() as int),
        0 <= pos <= s.len(),
        ms.len() > 0 ==> pos <= ms[0].start,
        forall|i: int| 0 <= i < ms.len() ==> (#[trigger] ms[i]).first != old_target,
    ensures
        rewritten(s, ms, pos, old_target, new_target) == s.skip(pos),
    decreases ms.len(),
{
    if ms.len() > 0 {
        lemma_rewrite_step(s, ms, pos, old_target, new_target);
        let r = ms.drop_first();
        assert forall|i: int| 0 <= i < r.len() implies (#[trigger] r[i]).first != old_target by {
            assert(r[i] == ms[i + 1]);
        }
        law_rewrite_absent(s, r, ms[0].end, old_target, new_target);
        assert(s.subrange(pos, ms[0].start) + s.subrange(ms[0].start, ms[0].end) + s.skip(
            ms[0].end,
        ) =~= s.skip(pos));
    }
}

/// Pointing links at the target that they have changes nothing.
pub proof fn law_rewrite_same(s: Seq<char>, ms: Seq<MatchView>, pos: int, target: Seq<char>)
    requires
        in_sequence(ms, s.len() as int),
        are_links(ms, s),
        0 <= pos <= s.len(),
        ms.len() > 0 ==> pos <= ms[0].start,
    ensures
        rewritten(s, ms, pos, target, target) == s.skip(pos),
    decreases ms.len(),
{
    if ms.len() > 0 {
        lemma_rewrite_step(s, ms, pos, target, target);
        let r = ms.drop_first();
        assert forall|i: int| 0 <= i < r.len() implies s.subrange((#[trigger] r[i]).start, r[i].end)
            == link_form(r[i].first, r[i].second) by {
            assert(r[i] == ms[i + 1]);
        }
        law_rewrite_same(s, r, ms[0].end, target);
        assert(link_text(s, ms[0], target, target) == s.subrange(ms[0].start, ms[0].end));
        assert(s.subrange(pos, ms[0].start) + s.subrange(ms[0].start, ms[0].end) + s.skip(
            ms[0].end,
        ) =~= s.skip(pos));
    }
}

proof fn lemma_rewrite_step(
    s: Seq<char>,
    ms: Seq<MatchView>,
    pos: int,
    old_target: Seq<char>,
    new_target: Seq<char>,
)
    requires
        in_sequence(ms, s.len() as int),
        ms.len() > 0,
    ensures
        in_sequence(ms.drop_first(), s.len() as int),
        ms.len() > 1 ==> ms[0].end <= ms.drop_first()[0].start,
{
    let r = ms.drop_first();
    assert forall|i: int| 0 <= i < r.len() implies 0 <= (#[trigger] r[i]).start <= r[i].end
        <= s.len() by {
        assert(r[i] == ms[i + 1]);
    }
    assert forall|i: int, j: int| 0 <= i < j < r.len() implies (#[trigger] r[i]).end
        <= (#[trigger] r[j]).start by {
        assert(r[i] == ms[i + 1] && r[j] == ms[j + 1]);
    }
    if ms.len() > 1 {
        assert(r[0] == ms[1]);
    }
}

} // verus!
