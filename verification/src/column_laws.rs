//! What is read of a note for a column, and what is found of columns in many notes.
use crate::indexer::{
    all_warnings, defined_schemas, duplicates, field_value, has_cell, heading_line, heading_names,
    inferred_schema, link_target, missing_cells, new_columns, note_warnings_view, saw, saw_extras,
    saw_fields, saw_heading, saw_headings, saw_notes, section_in, section_start, widened,
    without_blank_end, SeenColumns, SeenView,
};
use crate::error::ErrorView;
use crate::parser::parsed_zettel;
use crate::picks::{lemma_pick_more, lemma_pick_none, picked};
use crate::rows::{heading_of, next_heading};
use crate::schema::{schema_of, Fields};
use crate::statement_laws::law_column_found;
use crate::text::{self, has_prefix, is_blank, join, lines, split, trimmed};
use crate::textmap::{self, keys, lookup};
use crate::types::{ColumnView, FieldView, SchemaView, WarningView, ZettelView, Zone};
use vstd::prelude::*;

verus! {

// ---------------------------------------------------------------------------
// Sections
// ---------------------------------------------------------------------------
/// The line of a heading is the first that is it, but for white space.
pub proof fn law_heading_found(ls: Seq<Seq<char>>, heading: Seq<char>, from: int)
    requires
        0 <= from <= ls.len(),
    ensures
        from <= heading_line(ls, heading, from) <= ls.len(),
        forall|i: int|
            from <= i < heading_line(ls, heading, from) ==> trimmed(#[trigger] ls[i]) != heading,
        heading_line(ls, heading, from) < ls.len() ==> trimmed(
            ls[heading_line(ls, heading, from)],
        ) == heading,
    decreases ls.len() - from,
{
    if from < ls.len() && trimmed(ls[from]) != heading {
        law_heading_found(ls, heading, from + 1);
    }
}

/// The next heading is the first line from a place on that begins as one.
pub proof fn law_next_heading(ls: Seq<Seq<char>>, from: int)
    requires
        0 <= from <= ls.len(),
    ensures
        from <= next_heading(ls, from) <= ls.len(),
        forall|i: int|
            from <= i < next_heading(ls, from) ==> !has_prefix(#[trigger] ls[i], "## "@),
        next_heading(ls, from) < ls.len() ==> has_prefix(ls[next_heading(ls, from)], "## "@),
    decreases ls.len() - from,
{
    if from < ls.len() && !has_prefix(ls[from], "## "@) {
        law_next_heading(ls, from + 1);
    }
}

/// The blank lines at the end are taken, all of them and no other.
pub proof fn law_blank_end(ls: Seq<Seq<char>>)
    ensures
        without_blank_end(ls).len() <= ls.len(),
        ls.take(without_blank_end(ls).len() as int) == without_blank_end(ls),
        forall|i: int|
            without_blank_end(ls).len() <= i < ls.len() ==> is_blank(#[trigger] ls[i]),
        without_blank_end(ls).len() > 0 ==> !is_blank(without_blank_end(ls).last()),
    decreases ls.len(),
{
    if ls.len() > 0 && is_blank(ls.last()) {
        let d = ls.drop_last();
        law_blank_end(d);
        let w = without_blank_end(ls);
        assert(ls.take(w.len() as int) =~= d.take(w.len() as int));
        assert forall|i: int| w.len() <= i < ls.len() implies is_blank(#[trigger] ls[i]) by {
            if i < d.len() {
                assert(d[i] == ls[i]);
            }
        }
    } else {
        assert(ls.take(ls.len() as int) =~= ls);
    }
}

/// A section is what stands under the first heading of its name: its lines up to the next
/// heading or the end, without a blank line before them and without blank lines behind.
pub proof fn law_section(
    before: Seq<Seq<char>>,
    heading: Seq<char>,
    gap: Seq<Seq<char>>,
    held: Seq<Seq<char>>,
    blank: Seq<Seq<char>>,
    after: Seq<Seq<char>>,
    name: Seq<char>,
)
    requires
        trimmed(heading) == "## "@ + name,
        forall|i: int| 0 <= i < before.len() ==> trimmed(#[trigger] before[i]) != "## "@ + name,
        gap.len() <= 1 && (gap.len() == 1 ==> is_blank(gap[0])),
        held.len() > 0,
        gap.len() == 0 ==> !is_blank(held[0]),
        !is_blank(held.last()),
        forall|i: int| 0 <= i < held.len() ==> !has_prefix(#[trigger] held[i], "## "@),
        forall|i: int| 0 <= i < blank.len() ==> is_blank(#[trigger] blank[i]),
        after.len() > 0 ==> has_prefix(after[0], "## "@),
    ensures
        section_in(before + seq![heading] + gap + held + blank + after, name) == join(held, "\n"@),
{
    let ls = before + seq![heading] + gap + held + blank + after;
    let h = heading_line(ls, heading_of(name), 0);
    let b = before.len() as int;
    law_heading_found(ls, heading_of(name), 0);
    assert(ls[b] == heading);
    if h < b {
        assert(ls[h] == before[h]);
    }
    assert(h == b);
    if gap.len() == 1 {
        assert(ls[b + 1] == gap[0]);
    } else {
        assert(ls[b + 1] == held[0]);
    }
    let s = section_start(ls, h);
    assert(s == b + 1 + gap.len());
    law_next_heading(ls, s);
    let e = s + held.len() + blank.len();
    let k = next_heading(ls, s);
    if k < e {
        if k < s + held.len() {
            assert(ls[k] == held[k - s]);
        } else {
            assert(ls[k] == blank[k - s - held.len()]);
            lemma_blank_no_heading(ls[k]);
        }
    }
    if after.len() > 0 {
        assert(ls[e] == after[0]);
    }
    assert(k == e);
    let part = ls.subrange(s, k);
    assert(part =~= held + blank);
    law_blank_end(part);
    let w = without_blank_end(part);
    if w.len() > held.len() {
        assert(w.last() == part[w.len() - 1]);
        assert(part[w.len() - 1] == blank[w.len() - 1 - held.len()]);
    }
    if w.len() < held.len() {
        assert(part[held.len() - 1] == held.last());
    }
    assert(w =~= held);
}

proof fn lemma_blank_no_heading(l: Seq<char>)
    requires
        is_blank(l),
    ensures
        !has_prefix(l, "## "@),
{
    reveal_strlit("## ");
    crate::string_laws::law_trim(l);
    if has_prefix(l, "## "@) {
        assert(l.take(3)[0] == '#');
        assert(l[0] == '#');
    }
}

/// A note without a heading of a name has no such section.
pub proof fn law_no_section(ls: Seq<Seq<char>>, name: Seq<char>)
    requires
        forall|i: int| 0 <= i < ls.len() ==> trimmed(#[trigger] ls[i]) != "## "@ + name,
    ensures
        section_in(ls, name).len() == 0,
{
    law_heading_found(ls, heading_of(name), 0);
}

/// The headings of a note are those of the lines that begin as one, but for white space, in
/// their order.
pub proof fn law_headings(ls: Seq<Seq<char>>)
    ensures
        picked(
            heading_names(ls),
            Seq::new(ls.len(), |i: int| trimmed(trimmed(ls[i]).skip(3))),
            |i: int| has_prefix(trimmed(ls[i]), "## "@),
        ),
    decreases ls.len(),
{
    reveal_strlit("## ");
    let whole = Seq::new(ls.len(), |i: int| trimmed(trimmed(ls[i]).skip(3)));
    let keep = |i: int| has_prefix(trimmed(ls[i]), "## "@);
    if ls.len() == 0 {
        assert(whole =~= Seq::<Seq<char>>::empty());
        lemma_pick_none::<Seq<char>>(keep);
    } else {
        let d = ls.drop_last();
        law_headings(d);
        assert(whole.drop_last() =~= Seq::new(d.len(), |i: int| trimmed(trimmed(d[i]).skip(3))));
        lemma_pick_more(
            heading_names(d),
            whole,
            |i: int| has_prefix(trimmed(d[i]), "## "@),
            keep,
        );
    }
}

// ---------------------------------------------------------------------------
// Fields
// ---------------------------------------------------------------------------
/// The value of an inline field is that of the first with its key.
pub proof fn law_field_found(fs: Seq<FieldView>, key: Seq<char>)
    ensures
        match field_value(fs, key) {
            Some(v) => exists|i: int|
                0 <= i < fs.len() && (#[trigger] fs[i]).key == key && fs[i].value == v && forall|
                    j: int,
                |
                    0 <= j < i ==> (#[trigger] fs[j]).key != key,
            None => forall|j: int| 0 <= j < fs.len() ==> (#[trigger] fs[j]).key != key,
        },
    decreases fs.len(),
{
    if fs.len() > 0 {
        if fs[0].key == key {
            assert(fs[0].key == key && fs[0].value == fs[0].value);
        } else {
            let d = fs.drop_first();
            law_field_found(d, key);
            assert forall|j: int| 0 < j < fs.len() implies #[trigger] fs[j] == d[j - 1] by {}
            if let Some(v) = field_value(d, key) {
                let i = choose|i: int|
                    0 <= i < d.len() && (#[trigger] d[i]).key == key && d[i].value == v && forall|
                        j: int,
                    |
                        0 <= j < i ==> (#[trigger] d[j]).key != key;
                assert(fs[i + 1] == d[i]);
                assert forall|j: int| 0 <= j < i + 1 implies (#[trigger] fs[j]).key != key by {
                    if j > 0 {
                        assert(d[j - 1].key != key);
                    }
                }
            }
        }
    }
}

/// The target of a link is what stands before its display, in double brackets or not.
pub proof fn law_link_target(target: Seq<char>, display: Seq<char>)
    requires
        target.len() > 0,
        !target.contains('|') && !target.contains(']'),
        !display.contains('|') && !display.contains(']'),
    ensures
        link_target("[["@ + target + "]]"@) == target,
        link_target("[["@ + target + "|"@ + display + "]]"@) == target,
{
    reveal_strlit("[[");
    reveal_strlit("]]");
    reveal_strlit("|");
    let e = Seq::<char>::empty();
    let a = "[["@ + target + "]]"@;
    let b = "[["@ + target + "|"@ + display + "]]"@;
    lemma_bracketed(target);
    let m = target + "|"@ + display;
    lemma_bracketed(m);
    assert("[["@ + m + "]]"@ =~= b);
    assert forall|i: int| 0 <= i < target.len() implies target[i] != '|' by {
        assert(target.contains(target[i]));
    }
    crate::log_laws::lemma_split_one(target, '|');
    assert(m =~= target + seq!['|'] + display);
    crate::log_laws::lemma_split_cat(target, '|', display);
    assert(split(m, '|')[0] == split(target, '|')[0]);
}

proof fn lemma_bracketed(m: Seq<char>)
    ensures
        link_target("[["@ + m + "]]"@) == split(m, '|')[0],
{
    reveal_strlit("[[");
    reveal_strlit("]]");
    let a = "[["@ + m + "]]"@;
    let e = Seq::<char>::empty();
    assert(e + a + e =~= a);
    crate::string_laws::law_trim_finds(e, a, e);
    assert(a.take(2) =~= "[["@);
    let u = a.skip(2);
    assert(u =~= m + "]]"@);
    assert(u.skip(u.len() - 2) =~= "]]"@);
    assert(u.take(u.len() - 2) =~= m);
}

// ---------------------------------------------------------------------------
// Columns of notes
// ---------------------------------------------------------------------------
/// The columns that a schema does not have yet: exactly those with names that it does not
/// have, in their order.
pub proof fn law_new_columns(have: Seq<ColumnView>, more: Seq<ColumnView>)
    ensures
        picked(
            new_columns(have, more),
            more,
            |i: int|
                forall|j: int| 0 <= j < have.len() ==> (#[trigger] have[j]).name != more[i].name,
        ),
    decreases more.len(),
{
    let keep = |i: int|
        forall|j: int| 0 <= j < have.len() ==> (#[trigger] have[j]).name != more[i].name;
    if more.len() == 0 {
        assert(more =~= Seq::<ColumnView>::empty());
        lemma_pick_none::<ColumnView>(keep);
    } else {
        let d = more.drop_last();
        law_new_columns(have, d);
        law_column_found(have, more.last().name);
        lemma_pick_more(
            new_columns(have, d),
            more,
            |i: int|
                forall|j: int| 0 <= j < have.len() ==> (#[trigger] have[j]).name != d[i].name,
            keep,
        );
    }
}

/// Whether a note has a column: a field of the front matter, a heading or a reference, in
/// lower case.
pub open spec fn names_column(z: ZettelView, k: Seq<char>) -> bool {
    ||| exists|i: int|
        0 <= i < z.meta.extra.len() && text::lowered((#[trigger] z.meta.extra[i]).0) == k
    ||| exists|i: int|
        0 <= i < heading_names(lines(z.body)).len() && text::lowered(
            #[trigger] heading_names(lines(z.body))[i],
        ) == k
    ||| exists|i: int|
        0 <= i < z.fields.len() && (#[trigger] z.fields[i]).zone == Zone::Reference
            && text::lowered(z.fields[i].key) == k
}

proof fn lemma_saw(m: SeenColumns, key: Seq<char>, zone: Zone, t: Seq<char>, k: Seq<char>)
    requires
        text::ascending(keys(m)),
    ensures
        text::ascending(keys(saw(m, key, zone, t))),
        lookup(saw(m, key, zone, t), k) is Some == (lookup(m, k) is Some || k == key),
        lookup(m, k) matches Some(v) ==> (lookup(saw(m, key, zone, t), k) matches Some(w)
            && w.zone == v.zone && forall|x: Seq<char>| #[trigger]
            w.types.contains(x) == (v.types.contains(x) || (k == key && x == t))),
        lookup(m, k) is None && k == key ==> lookup(saw(m, key, zone, t), k) == Some(
            SeenView { zone, types: seq![t] },
        ),
{
    if let Some(s) = lookup(m, key) {
        let n = SeenView { zone: s.zone, types: s.types.push(t) };
        textmap::law_put_sorted(m, key, n);
        textmap::lemma_lookup_put(m, key, n);
        assert forall|x: Seq<char>| #[trigger] n.types.contains(x) == (s.types.contains(x) || x
            == t) by {
            if s.types.contains(x) {
                assert(n.types[s.types.index_of(x)] == x);
            }
            if x == t {
                assert(n.types[s.types.len() as int] == t);
            }
            if n.types.contains(x) {
                let i = n.types.index_of(x);
                if i < s.types.len() {
                    assert(s.types[i] == x);
                }
            }
        }
    } else {
        let n = SeenView { zone, types: seq![t] };
        textmap::law_put_sorted(m, key, n);
        textmap::lemma_lookup_put(m, key, n);
    }
}

proof fn lemma_saw_heading(m: SeenColumns, key: Seq<char>, k: Seq<char>)
    requires
        text::ascending(keys(m)),
    ensures
        text::ascending(keys(saw_heading(m, key))),
        lookup(saw_heading(m, key), k) is Some == (lookup(m, k) is Some || k == key),
        lookup(m, k) is Some ==> lookup(saw_heading(m, key), k) == lookup(m, k),
{
    let n = SeenView { zone: Zone::Body, types: seq!["TEXT"@] };
    textmap::law_put_sorted(m, key, n);
    textmap::lemma_lookup_put(m, key, n);
}

proof fn lemma_saw_extras(m: SeenColumns, e: Fields, k: Seq<char>)
    requires
        text::ascending(keys(m)),
    ensures
        text::ascending(keys(saw_extras(m, e))),
        lookup(saw_extras(m, e), k) is Some == (lookup(m, k) is Some || exists|i: int|
            0 <= i < e.len() && text::lowered((#[trigger] e[i]).0) == k),
        lookup(m, k) matches Some(v) ==> (lookup(saw_extras(m, e), k) matches Some(w) && w.zone
            == v.zone),
        lookup(m, k) is None ==> (lookup(saw_extras(m, e), k) matches Some(w) ==> w.zone
            == Zone::Frontmatter),
    decreases e.len(),
{
    if e.len() > 0 {
        let d = e.drop_last();
        lemma_saw_extras(m, d, k);
        lemma_saw(
            saw_extras(m, d),
            text::lowered(e.last().0),
            Zone::Frontmatter,
            crate::indexer::type_of_value(e.last().1),
            k,
        );
        if exists|i: int| 0 <= i < d.len() && text::lowered((#[trigger] d[i]).0) == k {
            let i = choose|i: int| 0 <= i < d.len() && text::lowered((#[trigger] d[i]).0) == k;
            assert(text::lowered(e[i].0) == k);
        }
        if exists|i: int| 0 <= i < e.len() && text::lowered((#[trigger] e[i]).0) == k {
            let i = choose|i: int| 0 <= i < e.len() && text::lowered((#[trigger] e[i]).0) == k;
            if i < d.len() {
                assert(text::lowered(d[i].0) == k);
            }
        }
        if text::lowered(e.last().0) == k {
            assert(text::lowered(e[e.len() - 1].0) == k);
        }
    }
}

proof fn lemma_saw_headings(m: SeenColumns, hs: Seq<Seq<char>>, k: Seq<char>)
    requires
        text::ascending(keys(m)),
    ensures
        text::ascending(keys(saw_headings(m, hs))),
        lookup(saw_headings(m, hs), k) is Some == (lookup(m, k) is Some || exists|i: int|
            0 <= i < hs.len() && text::lowered(#[trigger] hs[i]) == k),
        lookup(m, k) is Some ==> lookup(saw_headings(m, hs), k) == lookup(m, k),
        lookup(m, k) is None ==> (lookup(saw_headings(m, hs), k) matches Some(w) ==> w.zone
            == Zone::Body && w.types == seq!["TEXT"@]),
    decreases hs.len(),
{
    if hs.len() > 0 {
        let d = hs.drop_last();
        lemma_saw_headings(m, d, k);
        lemma_saw_heading(saw_headings(m, d), text::lowered(hs.last()), k);
        let n = SeenView { zone: Zone::Body, types: seq!["TEXT"@] };
        textmap::lemma_lookup_put(saw_headings(m, d), text::lowered(hs.last()), n);
        if exists|i: int| 0 <= i < d.len() && text::lowered(#[trigger] d[i]) == k {
            let i = choose|i: int| 0 <= i < d.len() && text::lowered(#[trigger] d[i]) == k;
            assert(text::lowered(hs[i]) == k);
        }
        if exists|i: int| 0 <= i < hs.len() && text::lowered(#[trigger] hs[i]) == k {
            let i = choose|i: int| 0 <= i < hs.len() && text::lowered(#[trigger] hs[i]) == k;
            if i < d.len() {
                assert(text::lowered(d[i]) == k);
            }
        }
        if text::lowered(hs.last()) == k {
            assert(text::lowered(hs[hs.len() - 1]) == k);
        }
    }
}

proof fn lemma_saw_fields(m: SeenColumns, fs: Seq<FieldView>, k: Seq<char>)
    requires
        text::ascending(keys(m)),
    ensures
        text::ascending(keys(saw_fields(m, fs))),
        lookup(saw_fields(m, fs), k) is Some == (lookup(m, k) is Some || exists|i: int|
            0 <= i < fs.len() && (#[trigger] fs[i]).zone == Zone::Reference && text::lowered(
                fs[i].key,
            ) == k),
        lookup(m, k) matches Some(v) ==> (lookup(saw_fields(m, fs), k) matches Some(w) && w.zone
            == v.zone),
        lookup(m, k) is None ==> (lookup(saw_fields(m, fs), k) matches Some(w) ==> w.zone
            == Zone::Reference),
    decreases fs.len(),
{
    if fs.len() > 0 {
        let d = fs.drop_last();
        let l = fs.last();
        lemma_saw_fields(m, d, k);
        lemma_saw(saw_fields(m, d), text::lowered(l.key), Zone::Reference, "TEXT"@, k);
        if exists|i: int|
            0 <= i < d.len() && (#[trigger] d[i]).zone == Zone::Reference && text::lowered(d[i].key)
                == k {
            let i = choose|i: int|
                0 <= i < d.len() && (#[trigger] d[i]).zone == Zone::Reference && text::lowered(
                    d[i].key,
                ) == k;
            assert(fs[i] == d[i]);
        }
        if exists|i: int|
            0 <= i < fs.len() && (#[trigger] fs[i]).zone == Zone::Reference && text::lowered(
                fs[i].key,
            ) == k {
            let i = choose|i: int|
                0 <= i < fs.len() && (#[trigger] fs[i]).zone == Zone::Reference && text::lowered(
                    fs[i].key,
                ) == k;
            if i < d.len() {
                assert(d[i] == fs[i]);
            }
        }
        if l.zone == Zone::Reference && text::lowered(l.key) == k {
            assert(fs[fs.len() - 1] == l);
        }
    }
}

/// The columns that are found in notes are exactly those that one of the notes has. Each is
/// there once, and kept where the first note that has it keeps it.
pub proof fn law_columns_found(zs: Seq<ZettelView>, k: Seq<char>)
    ensures
        text::ascending(keys(saw_notes(zs))),
        lookup(saw_notes(zs), k) is Some == exists|i: int|
            0 <= i < zs.len() && names_column(#[trigger] zs[i], k),
        zs.len() > 0 && lookup(saw_notes(zs.drop_last()), k) is Some ==> (lookup(saw_notes(zs), k)
            matches Some(w) && w.zone == lookup(saw_notes(zs.drop_last()), k)->0.zone),
    decreases zs.len(),
{
    if zs.len() == 0 {
        assert(keys(saw_notes(zs)) =~= Seq::empty());
    } else {
        let d = zs.drop_last();
        let z = zs.last();
        law_columns_found(d, k);
        let m = saw_notes(d);
        let m1 = saw_extras(m, z.meta.extra);
        let hs = heading_names(lines(z.body));
        let m2 = saw_headings(m1, hs);
        lemma_saw_extras(m, z.meta.extra, k);
        lemma_saw_headings(m1, hs, k);
        lemma_saw_fields(m2, z.fields, k);
        if exists|i: int| 0 <= i < d.len() && names_column(#[trigger] d[i], k) {
            let i = choose|i: int| 0 <= i < d.len() && names_column(#[trigger] d[i], k);
            assert(names_column(zs[i], k));
        }
        if exists|i: int| 0 <= i < zs.len() && names_column(#[trigger] zs[i], k) {
            let i = choose|i: int| 0 <= i < zs.len() && names_column(#[trigger] zs[i], k);
            if i < d.len() {
                assert(names_column(d[i], k));
            }
        }
        if names_column(z, k) {
            assert(names_column(zs[zs.len() - 1], k));
        }
    }
}

/// A column that a note is the first to have is kept in the front matter where the note has
/// it there, else in the body where it is a heading, else among the references.
pub proof fn law_zone_found(zs: Seq<ZettelView>, k: Seq<char>)
    requires
        zs.len() > 0,
        lookup(saw_notes(zs.drop_last()), k) is None,
    ensures
        lookup(saw_notes(zs), k) matches Some(w) ==> w.zone == (if exists|i: int|
            0 <= i < zs.last().meta.extra.len() && text::lowered(
                (#[trigger] zs.last().meta.extra[i]).0,
            ) == k {
            Zone::Frontmatter
        } else if exists|i: int|
            0 <= i < heading_names(lines(zs.last().body)).len() && text::lowered(
                #[trigger] heading_names(lines(zs.last().body))[i],
            ) == k {
            Zone::Body
        } else {
            Zone::Reference
        }),
{
    let z = zs.last();
    let m = saw_notes(zs.drop_last());
    law_columns_found(zs.drop_last(), k);
    let m1 = saw_extras(m, z.meta.extra);
    let hs = heading_names(lines(z.body));
    let m2 = saw_headings(m1, hs);
    lemma_saw_extras(m, z.meta.extra, k);
    lemma_saw_headings(m1, hs, k);
    lemma_saw_fields(m2, z.fields, k);
}

/// Whether all types that were seen of a column are seen still.
pub open spec fn keeps_types(m: SeenColumns, n: SeenColumns, k: Seq<char>) -> bool {
    lookup(m, k) matches Some(v) ==> (lookup(n, k) matches Some(w) && forall|x: Seq<char>|
        #[trigger] v.types.contains(x) ==> w.types.contains(x))
}

proof fn lemma_extras_types(m: SeenColumns, e: Fields, k: Seq<char>, i: int)
    requires
        text::ascending(keys(m)),
    ensures
        keeps_types(m, saw_extras(m, e), k),
        0 <= i < e.len() && text::lowered(e[i].0) == k ==> (lookup(saw_extras(m, e), k)
            matches Some(w) && w.types.contains(crate::indexer::type_of_value(e[i].1))),
    decreases e.len(),
{
    if e.len() > 0 {
        let d = e.drop_last();
        lemma_saw_extras(m, d, k);
        lemma_extras_types(m, d, k, i);
        let t = crate::indexer::type_of_value(e.last().1);
        let p = saw_extras(m, d);
        lemma_saw(p, text::lowered(e.last().0), Zone::Frontmatter, t, k);
        if i == e.len() - 1 && text::lowered(e[i].0) == k && lookup(p, k) is None {
            assert(seq![t][0] == t);
        }
    }
}

proof fn lemma_fields_types(m: SeenColumns, fs: Seq<FieldView>, k: Seq<char>)
    requires
        text::ascending(keys(m)),
    ensures
        keeps_types(m, saw_fields(m, fs), k),
    decreases fs.len(),
{
    if fs.len() > 0 {
        let d = fs.drop_last();
        lemma_saw_fields(m, d, k);
        lemma_fields_types(m, d, k);
        lemma_saw(saw_fields(m, d), text::lowered(fs.last().key), Zone::Reference, "TEXT"@, k);
    }
}

/// The type of a column covers the value that each note has for it in its front matter.
pub proof fn law_types_found(zs: Seq<ZettelView>, n: int, i: int)
    requires
        0 <= n < zs.len(),
        0 <= i < zs[n].meta.extra.len(),
    ensures
        lookup(saw_notes(zs), text::lowered(zs[n].meta.extra[i].0)) matches Some(w)
            && w.types.contains(crate::indexer::type_of_value(zs[n].meta.extra[i].1)),
    decreases zs.len(),
{
    let k = text::lowered(zs[n].meta.extra[i].0);
    let d = zs.drop_last();
    let z = zs.last();
    law_columns_found(d, k);
    let m = saw_notes(d);
    let m1 = saw_extras(m, z.meta.extra);
    let hs = heading_names(lines(z.body));
    let m2 = saw_headings(m1, hs);
    lemma_saw_extras(m, z.meta.extra, k);
    lemma_saw_headings(m1, hs, k);
    lemma_extras_types(m, z.meta.extra, k, i);
    lemma_fields_types(m2, z.fields, k);
    if n < d.len() {
        assert(d[n] == zs[n]);
        law_types_found(d, n, i);
    }
}

/// A schema that is found in notes has a column for each name that is found, once, in the order
/// of the names.
pub proof fn law_inferred_columns(name: Seq<char>, zs: Seq<ZettelView>, k: Seq<char>)
    ensures
        ({
            let s = inferred_schema(name, zs);
            &&& s.table_name == name
            &&& s.columns.len() == saw_notes(zs).len()
            &&& forall|i: int, j: int|
                0 <= i < j < s.columns.len() ==> text::lt(
                    (#[trigger] s.columns[i]).name,
                    (#[trigger] s.columns[j]).name,
                )
            &&& (exists|i: int| 0 <= i < s.columns.len() && (#[trigger] s.columns[i]).name == k)
                == exists|i: int| 0 <= i < zs.len() && names_column(#[trigger] zs[i], k)
            &&& forall|i: int|
                0 <= i < s.columns.len() ==> (lookup(saw_notes(zs), (#[trigger] s.columns[i]).name)
                    matches Some(w) && s.columns[i].zone == Some(w.zone) && s.columns[i].data_type
                    == widened(w.types))
        }),
{
    let s = inferred_schema(name, zs);
    let m = saw_notes(zs);
    law_columns_found(zs, k);
    textmap::lemma_lookup_none(m, k);
    assert forall|i: int, j: int| 0 <= i < j < s.columns.len() implies text::lt(
        (#[trigger] s.columns[i]).name,
        (#[trigger] s.columns[j]).name,
    ) by {
        assert(keys(m)[i] == m[i].0 && keys(m)[j] == m[j].0);
    }
    assert forall|i: int| 0 <= i < s.columns.len() implies (lookup(
        m,
        (#[trigger] s.columns[i]).name,
    ) matches Some(w) && s.columns[i].zone == Some(w.zone) && s.columns[i].data_type == widened(
        w.types,
    )) by {
        textmap::lemma_lookup_at(m, i);
    }
    if keys(m).contains(k) {
        let i = keys(m).index_of(k);
        assert(s.columns[i].name == k);
    }
    if exists|i: int| 0 <= i < s.columns.len() && (#[trigger] s.columns[i]).name == k {
        let i = choose|i: int| 0 <= i < s.columns.len() && (#[trigger] s.columns[i]).name == k;
        assert(keys(m)[i] == k);
    }
}

/// A type that covers some types: the one that they all are, a real number where they are
/// numbers of both kinds, else a text.
pub proof fn law_covering_type(ts: Seq<Seq<char>>, t: Seq<char>)
    requires
        ts.len() > 0,
    ensures
        (forall|i: int| 0 <= i < ts.len() ==> #[trigger] ts[i] == t) ==> widened(ts) == t,
        ts.contains("INTEGER"@) && ts.contains("REAL"@) && (forall|i: int|
            0 <= i < ts.len() ==> #[trigger] ts[i] == "INTEGER"@ || ts[i] == "REAL"@)
            ==> widened(ts) == "REAL"@,
        (exists|i: int, j: int|
            0 <= i < ts.len() && 0 <= j < ts.len() && #[trigger] ts[i] != #[trigger] ts[j]
                && ts[i] != "INTEGER"@ && ts[i] != "REAL"@) ==> widened(ts) == "TEXT"@,
{
    reveal_strlit("INTEGER");
    reveal_strlit("REAL");
    reveal_strlit("TEXT");
    if ts.contains("INTEGER"@) && ts.contains("REAL"@) {
        let i = ts.index_of("INTEGER"@);
        let j = ts.index_of("REAL"@);
        assert(ts[i] == "INTEGER"@ && ts[j] == "REAL"@);
        assert("INTEGER"@.len() != "REAL"@.len());
        assert(!crate::indexer::all_are(ts, ts[0]));
    }
}

// ---------------------------------------------------------------------------
// Warnings
// ---------------------------------------------------------------------------
/// A note is warned of for each reference whose key is in its front matter too.
pub proof fn law_duplicates(path: Seq<char>, extra: Fields, fs: Seq<FieldView>)
    ensures
        picked(
            duplicates(path, extra, fs),
            Seq::new(
                fs.len(),
                |i: int| WarningView::CrossZoneDuplicate { path, key: fs[i].key },
            ),
            |i: int| fs[i].zone == Zone::Reference && lookup(extra, fs[i].key) is Some,
        ),
    decreases fs.len(),
{
    let whole = Seq::new(
        fs.len(),
        |i: int| WarningView::CrossZoneDuplicate { path, key: fs[i].key },
    );
    let keep = |i: int| fs[i].zone == Zone::Reference && lookup(extra, fs[i].key) is Some;
    if fs.len() == 0 {
        assert(whole =~= Seq::<WarningView>::empty());
        lemma_pick_none::<WarningView>(keep);
    } else {
        let d = fs.drop_last();
        law_duplicates(path, extra, d);
        assert(whole.drop_last() =~= Seq::new(
            d.len(),
            |i: int| WarningView::CrossZoneDuplicate { path, key: d[i].key },
        ));
        lemma_pick_more(
            duplicates(path, extra, d),
            whole,
            |i: int| d[i].zone == Zone::Reference && lookup(extra, d[i].key) is Some,
            keep,
        );
    }
}

/// A note is warned of for each required column of its type that it does not have.
pub proof fn law_missing_cells(
    path: Seq<char>,
    z: ZettelView,
    zettel_type: Seq<char>,
    cs: Seq<ColumnView>,
)
    ensures
        picked(
            missing_cells(path, z, zettel_type, cs),
            Seq::new(
                cs.len(),
                |i: int| WarningView::MissingRequired { path, zettel_type, field: cs[i].name },
            ),
            |i: int| cs[i].required && !has_cell(z, cs[i]),
        ),
    decreases cs.len(),
{
    let whole = Seq::new(
        cs.len(),
        |i: int| WarningView::MissingRequired { path, zettel_type, field: cs[i].name },
    );
    let keep = |i: int| cs[i].required && !has_cell(z, cs[i]);
    if cs.len() == 0 {
        assert(whole =~= Seq::<WarningView>::empty());
        lemma_pick_none::<WarningView>(keep);
    } else {
        let d = cs.drop_last();
        law_missing_cells(path, z, zettel_type, d);
        assert(whole.drop_last() =~= Seq::new(
            d.len(),
            |i: int| WarningView::MissingRequired { path, zettel_type, field: d[i].name },
        ));
        lemma_pick_more(
            missing_cells(path, z, zettel_type, d),
            whole,
            |i: int| d[i].required && !has_cell(z, d[i]),
            keep,
        );
    }
}

/// The warnings of some notes are those of each of them, and no other: a note that cannot be
/// read has one that says so, a note that can has those of its references and of its type.
pub proof fn law_warnings(
    notes: Seq<(Seq<char>, Seq<char>)>,
    typedefs: Seq<(Seq<char>, SchemaView)>,
    w: WarningView,
)
    ensures
        all_warnings(notes, typedefs).contains(w) == exists|i: int|
            0 <= i < notes.len() && is_warned(#[trigger] notes[i], typedefs, w),
    decreases notes.len(),
{
    if notes.len() > 0 {
        let d = notes.drop_last();
        let n = notes.len() - 1;
        let p = all_warnings(d, typedefs);
        let l = notes.last();
        let q = note_warnings_view(l.0, parsed_zettel(l.1, l.0), typedefs);
        law_warnings(d, typedefs, w);
        lemma_in_either(p, q, w);
        assert(q.contains(w) == is_warned(l, typedefs, w)) by {
            match parsed_zettel(l.1, l.0) {
                Err(e) => {
                    assert(q[0] == WarningView::MalformedYaml {
                        path: l.0,
                        error: crate::error::error_text(e),
                    });
                },
                Ok(z) => {
                    let more = match z.meta.zettel_type {
                        None => Seq::<WarningView>::empty(),
                        Some(t) => match lookup(typedefs, t) {
                            None => Seq::<WarningView>::empty(),
                            Some(s) => missing_cells(l.0, z, t, s.columns),
                        },
                    };
                    lemma_in_either(duplicates(l.0, z.meta.extra, z.fields), more, w);
                },
            }
        }
        assert(notes[n] == l);
        if exists|i: int| 0 <= i < d.len() && is_warned(#[trigger] d[i], typedefs, w) {
            let i = choose|i: int| 0 <= i < d.len() && is_warned(#[trigger] d[i], typedefs, w);
            assert(is_warned(notes[i], typedefs, w));
        }
        if exists|i: int| 0 <= i < notes.len() && is_warned(#[trigger] notes[i], typedefs, w) {
            let i = choose|i: int|
                0 <= i < notes.len() && is_warned(#[trigger] notes[i], typedefs, w);
            if i < n {
                assert(is_warned(d[i], typedefs, w));
            }
        }
    }
}

/// Whether a note is warned of: it cannot be read, or one of its references is in its front
/// matter too, or a required column of its type is missing.
pub open spec fn is_warned(
    note: (Seq<char>, Seq<char>),
    typedefs: Seq<(Seq<char>, SchemaView)>,
    w: WarningView,
) -> bool {
    match parsed_zettel(note.1, note.0) {
        Err(e) => w == WarningView::MalformedYaml {
            path: note.0,
            error: crate::error::error_text(e),
        },
        Ok(z) => {
            ||| duplicates(note.0, z.meta.extra, z.fields).contains(w)
            ||| z.meta.zettel_type matches Some(t) && (lookup(typedefs, t) matches Some(s)
                && missing_cells(note.0, z, t, s.columns).contains(w))
        },
    }
}

proof fn lemma_in_either<A>(a: Seq<A>, b: Seq<A>, x: A)
    ensures
        (a + b).contains(x) == (a.contains(x) || b.contains(x)),
{
    let c = a + b;
    if c.contains(x) {
        let i = c.index_of(x);
        if i < a.len() {
            assert(a[i] == x);
        } else {
            assert(b[i - a.len()] == x);
        }
    }
    if a.contains(x) {
        assert(c[a.index_of(x)] == x);
    }
    if b.contains(x) {
        assert(c[a.len() + b.index_of(x)] == x);
    }
}

/// Whether a note defines a table.
pub open spec fn defines(note: (Seq<char>, Seq<char>), s: SchemaView) -> bool {
    parsed_zettel(note.1, note.0) matches Ok(z) && schema_of(z.meta) == Ok::<SchemaView, ErrorView>(s)
}

/// The schema of a table is the one that the last note defines that has its name; a note that
/// cannot be read, or that defines none, does not count.
pub proof fn law_defined_schemas(notes: Seq<(Seq<char>, Seq<char>)>, name: Seq<char>)
    ensures
        text::ascending(keys(defined_schemas(notes))),
        match lookup(defined_schemas(notes), name) {
            Some(s) => s.table_name == name && exists|i: int|
                0 <= i < notes.len() && defines(#[trigger] notes[i], s) && forall|
                    j: int,
                    t: SchemaView,
                |
                    i < j < notes.len() && #[trigger] defines(notes[j], t) ==> t.table_name != name,
            None => forall|j: int, t: SchemaView|
                0 <= j < notes.len() && #[trigger] defines(notes[j], t) ==> t.table_name != name,
        },
    decreases notes.len(),
{
    if notes.len() == 0 {
        assert(keys(defined_schemas(notes)) =~= Seq::empty());
    } else {
        let d = notes.drop_last();
        let n = notes.len() - 1;
        let l = notes.last();
        law_defined_schemas(d, name);
        let p = defined_schemas(d);
        assert forall|j: int| 0 <= j < n implies #[trigger] notes[j] == d[j] by {}
        assert(notes[n] == l);
        let kept = match parsed_zettel(l.1, l.0) {
            Err(_) => true,
            Ok(z) => match schema_of(z.meta) {
                Err(_) => true,
                Ok(s) => s.table_name != name,
            },
        };
        if let Ok(z) = parsed_zettel(l.1, l.0) {
            if let Ok(s) = schema_of(z.meta) {
                textmap::law_put_sorted(p, s.table_name, s);
                textmap::lemma_lookup_put(p, s.table_name, s);
                if s.table_name == name {
                    assert(defines(notes[n], s));
                }
            }
        }
        if kept {
            assert(lookup(defined_schemas(notes), name) == lookup(p, name));
            if let Some(s) = lookup(p, name) {
                let i = choose|i: int|
                    0 <= i < d.len() && defines(#[trigger] d[i], s) && forall|
                        j: int,
                        t: SchemaView,
                    |
                        i < j < d.len() && #[trigger] defines(d[j], t) ==> t.table_name != name;
                assert(defines(notes[i], s));
                assert forall|j: int, t: SchemaView|
                    i < j < notes.len() && #[trigger] defines(notes[j], t) implies t.table_name
                    != name by {
                    if j < n {
                        assert(defines(d[j], t));
                    }
                }
            } else {
                assert forall|j: int, t: SchemaView|
                    0 <= j < notes.len() && #[trigger] defines(notes[j], t) implies t.table_name
                    != name by {
                    if j < n {
                        assert(defines(d[j], t));
                    }
                }
            }
        }
    }
}

} // verus!
