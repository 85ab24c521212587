//! What rows give back of what was written into them.
use crate::indexer::{
    cell, field_value, heading_line, link_target, section_in, section_start, shown_value,
    without_blank_end,
};
use crate::error::{ErrorView, ZettelError};
use crate::front_laws::{
    front_entries, front_lines, is_plain_meta, lemma_front_entries, lemma_front_lines,
};
use crate::parse_laws::{are_front, note_of};
use crate::parser::{
    are_lines, fenced, frontmatter_of, inline_fields_of, is_fence, is_line, is_reading, is_rule,
    is_separator, is_writing, law_no_false_reference, law_zones_round_trip, lemma_join_unlines,
    lemma_lines_after, lemma_lines_join, lemma_lines_unlines, parsed_zettel, reference_text,
    serialized, split_view, unlines, with_path_id,
};
use crate::patterns::{matched, REF_LINE};
use crate::rows::{
    blank_after, find_column, has_heading, has_ref, heading_of, next_heading, ref_line, ref_prefix,
    row_body, row_note, row_parts, section_replaced, section_text, typed_value, with_ref,
    with_section, with_update, Cells,
};
use crate::schema::zone_of_column;
use crate::sql_engine::row_text;
use crate::text::{self, join, lines, trimmed, trimmed_start, without_cr};
use crate::textmap::{self, lookup};
use crate::types::{
    ColumnView, FieldView, MetaView, ParsedZettel, SchemaView, ValueView, ZettelView, Zone,
};
use crate::yaml::plain_text;
use vstd::prelude::*;

verus! {

// ---------------------------------------------------------------------------
// Lines of joined texts
// ---------------------------------------------------------------------------
/// The lines that texts make when each is followed by a line feed.
pub open spec fn flat(xs: Seq<Seq<char>>) -> Seq<Seq<char>>
    decreases xs.len(),
{
    if xs.len() == 0 {
        Seq::empty()
    } else {
        flat(xs.drop_last()) + lines(xs.last() + "\n"@)
    }
}

proof fn lemma_flat(xs: Seq<Seq<char>>)
    ensures
        lines(unlines(xs)) == flat(xs),
        unlines(xs).len() == 0 || unlines(xs).last() == '\n',
    decreases xs.len(),
{
    reveal_strlit("\n");
    if xs.len() == 0 {
        assert(lines(unlines(xs)) =~= flat(xs));
    } else {
        let d = xs.drop_last();
        lemma_flat(d);
        text::lemma_assoc(unlines(d), xs.last(), "\n"@);
        lemma_lines_after(unlines(d), xs.last() + "\n"@);
    }
}

pub proof fn lemma_flat_one(x: Seq<char>)
    ensures
        flat(seq![x]) == lines(x + "\n"@),
{
    let d = seq![x].drop_last();
    assert(d =~= Seq::<Seq<char>>::empty());
    assert(flat(d) =~= Seq::<Seq<char>>::empty());
    assert(flat(seq![x]) =~= lines(x + "\n"@));
}

pub proof fn lemma_flat_cat(a: Seq<Seq<char>>, b: Seq<Seq<char>>)
    ensures
        flat(a + b) == flat(a) + flat(b),
    decreases b.len(),
{
    if b.len() == 0 {
        assert(a + b =~= a);
        assert(flat(a) + flat(b) =~= flat(a));
    } else {
        lemma_flat_cat(a, b.drop_last());
        assert((a + b).drop_last() =~= a + b.drop_last());
        assert(flat(a + b) =~= flat(a) + flat(b));
    }
}

proof fn lemma_join_cat(a: Seq<Seq<char>>, b: Seq<Seq<char>>)
    requires
        b.len() > 0,
    ensures
        join(a + b, "\n"@) == unlines(a) + join(b, "\n"@),
    decreases b.len(),
{
    let c = a + b;
    if b.len() == 1 {
        assert(c.drop_last() =~= a);
        if a.len() == 0 {
            assert(c =~= b);
            assert(unlines(a) + join(b, "\n"@) =~= join(b, "\n"@));
        } else {
            lemma_join_unlines(a);
        }
    } else {
        lemma_join_cat(a, b.drop_last());
        assert(c.drop_last() =~= a + b.drop_last());
        text::lemma_assoc(unlines(a), join(b.drop_last(), "\n"@), "\n"@);
        text::lemma_assoc(unlines(a), join(b.drop_last(), "\n"@) + "\n"@, b.last());
    }
}

/// The lines of texts that are joined: those of the first ones, each with its
/// line feed, and those of the others.
pub proof fn lemma_lines_joined(a: Seq<Seq<char>>, b: Seq<Seq<char>>)
    requires
        b.len() > 0,
    ensures
        lines(join(a + b, "\n"@)) == flat(a) + lines(join(b, "\n"@)),
{
    lemma_join_cat(a, b);
    lemma_flat(a);
    lemma_lines_after(unlines(a), join(b, "\n"@));
}

pub proof fn lemma_single(x: Seq<char>)
    requires
        !x.contains('\n'),
    ensures
        lines(x + "\n"@) == seq![without_cr(x)],
        x.len() > 0 ==> lines(x) == seq![x],
{
    reveal_strlit("\n");
    let s = x + "\n"@;
    assert forall|i: int| 0 <= i < x.len() implies s[i] != '\n' && x[i] != '\n' by {
        assert(x.contains(x[i]));
    }
    text::lemma_until_is(s, '\n', x.len() as int);
    text::lemma_until_is(x, '\n', x.len() as int);
    assert(s.take(x.len() as int) =~= x);
    assert(s.skip(x.len() as int + 1) =~= Seq::<char>::empty());
    assert(lines(s.skip(x.len() as int + 1)) == Seq::<Seq<char>>::empty());
    assert(lines(s) =~= seq![without_cr(x)]);
}

/// Texts without line feeds make one line each.
pub proof fn lemma_flat_lines(xs: Seq<Seq<char>>)
    requires
        forall|i: int| 0 <= i < xs.len() ==> !(#[trigger] xs[i]).contains('\n'),
    ensures
        flat(xs).len() == xs.len(),
        forall|i: int| 0 <= i < xs.len() ==> #[trigger] flat(xs)[i] == without_cr(xs[i]),
    decreases xs.len(),
{
    if xs.len() > 0 {
        let d = xs.drop_last();
        assert forall|i: int| 0 <= i < d.len() implies !(#[trigger] d[i]).contains('\n') by {
            assert(d[i] == xs[i]);
        }
        lemma_flat_lines(d);
        assert(!xs[xs.len() - 1].contains('\n'));
        lemma_single(xs.last());
        assert forall|i: int| 0 <= i < xs.len() implies #[trigger] flat(xs)[i] == without_cr(
            xs[i],
        ) by {
            if i < d.len() {
                assert(flat(xs)[i] == flat(d)[i]);
                assert(d[i] == xs[i]);
            }
        }
    }
}

/// No line holds a line feed.
pub proof fn lemma_no_feed(s: Seq<char>)
    ensures
        forall|i: int| 0 <= i < lines(s).len() ==> !(#[trigger] lines(s)[i]).contains('\n'),
    decreases s.len(),
{
    let k = text::until(s, '\n');
    text::lemma_until(s, '\n');
    if s.len() > 0 {
        if k < s.len() {
            let rest = s.skip(k + 1);
            lemma_no_feed(rest);
            let first = without_cr(s.take(k));
            assert forall|i: int| 0 <= i < lines(s).len() implies !(#[trigger] lines(
                s,
            )[i]).contains('\n') by {
                if i == 0 {
                    if first.contains('\n') {
                        let j = first.index_of('\n');
                        assert(s[j] == '\n');
                    }
                } else {
                    assert(lines(s)[i] == lines(rest)[i - 1]);
                }
            }
        } else {
            assert forall|i: int| 0 <= i < lines(s).len() implies !(#[trigger] lines(
                s,
            )[i]).contains('\n') by {
                if s.contains('\n') {
                    let j = s.index_of('\n');
                    assert(s[j] == '\n');
                }
            }
        }
    }
}

/// A carriage return at the end is white space.
proof fn lemma_trim_cr(x: Seq<char>)
    ensures
        trimmed(without_cr(x)) == trimmed(x),
    decreases x.len(),
{
    if x.len() > 0 && x.last() == '\r' {
        let d = x.drop_last();
        assert(without_cr(x) =~= d);
        lemma_trim_start_cr(x);
    }
}

proof fn lemma_trim_start_cr(x: Seq<char>)
    requires
        x.len() > 0,
        x.last() == '\r',
    ensures
        trimmed(x.drop_last()) == trimmed(x),
    decreases x.len(),
{
    let d = x.drop_last();
    if d.len() == 0 {
        assert(x.drop_first() =~= d);
        assert(trimmed_start(x) == trimmed_start(d));
    } else if text::is_space(x[0]) {
        assert(d[0] == x[0]);
        lemma_trim_start_cr(x.drop_first());
        assert(x.drop_first().drop_last() =~= d.drop_first());
    } else {
        assert(d[0] == x[0]);
        assert(trimmed_start(x) == x && trimmed_start(d) == d);
    }
}

proof fn lemma_prefix_cr(x: Seq<char>)
    requires
        text::has_prefix(x, "## "@),
    ensures
        text::has_prefix(without_cr(x), "## "@),
{
    reveal_strlit("## ");
    assert(x.take(3)[2] == x[2]);
    if x.len() == 3 {
        assert(x[2] == ' ');
    }
    assert(without_cr(x).take(3) =~= x.take(3));
}

// ---------------------------------------------------------------------------
// Setting a section and reading it
// ---------------------------------------------------------------------------
pub proof fn lemma_heading_line(ls: Seq<Seq<char>>, h: Seq<char>, i: int)
    requires
        0 <= i,
    ensures
        i <= ls.len() ==> i <= heading_line(ls, h, i) <= ls.len(),
        forall|j: int| i <= j < heading_line(ls, h, i) && j < ls.len() ==> trimmed(
            #[trigger] ls[j],
        ) != h,
        heading_line(ls, h, i) < ls.len() ==> trimmed(ls[heading_line(ls, h, i)]) == h,
    decreases ls.len() - i,
{
    if i < ls.len() && trimmed(ls[i]) != h {
        lemma_heading_line(ls, h, i + 1);
    }
}

pub proof fn lemma_heading_is(ls: Seq<Seq<char>>, h: Seq<char>, i: int, p: int)
    requires
        0 <= i <= p < ls.len(),
        forall|j: int| i <= j < p ==> trimmed(#[trigger] ls[j]) != h,
        trimmed(ls[p]) == h,
    ensures
        heading_line(ls, h, i) == p,
    decreases p - i,
{
    if i < p {
        assert(trimmed(ls[i]) != h);
        lemma_heading_is(ls, h, i + 1, p);
    }
}

pub proof fn lemma_next_is(ls: Seq<Seq<char>>, i: int, p: int)
    requires
        0 <= i <= p <= ls.len(),
        forall|j: int| i <= j < p ==> !text::has_prefix(#[trigger] ls[j], "## "@),
        p < ls.len() ==> text::has_prefix(ls[p], "## "@),
    ensures
        next_heading(ls, i) == p,
    decreases p - i,
{
    if i < p {
        assert(!text::has_prefix(ls[i], "## "@));
        lemma_next_is(ls, i + 1, p);
    }
}

/// What comes before the first heading stays.
proof fn lemma_replaced_from(ls: Seq<Seq<char>>, i: int, h: Seq<char>, val: Seq<char>, p: int)
    requires
        0 <= i <= p <= ls.len(),
        forall|j: int| i <= j < p ==> trimmed(#[trigger] ls[j]) != h,
    ensures
        section_replaced(ls, i, h, val) == ls.subrange(i, p) + section_replaced(ls, p, h, val),
    decreases p - i,
{
    if i < p {
        assert(trimmed(ls[i]) != h);
        lemma_replaced_from(ls, i + 1, h, val, p);
        assert(ls.subrange(i, p) =~= seq![ls[i]] + ls.subrange(i + 1, p));
        assert(section_replaced(ls, i, h, val) =~= ls.subrange(i, p) + section_replaced(
            ls,
            p,
            h,
            val,
        ));
    } else {
        assert(ls.subrange(i, p) =~= Seq::<Seq<char>>::empty());
        assert(section_replaced(ls, i, h, val) =~= ls.subrange(i, p) + section_replaced(
            ls,
            p,
            h,
            val,
        ));
    }
}

/// Whether a text can be the value of a section: it is what its lines make when
/// they are joined, none of them begins another section, and the last one is
/// not blank.
pub open spec fn is_section_value(val: Seq<char>) -> bool {
    &&& val.len() > 0
    &&& join(lines(val), "\n"@) == val
    &&& !text::is_blank(lines(val).last())
    &&& forall|i: int|
        0 <= i < lines(val).len() ==> !text::has_prefix(#[trigger] lines(val)[i], "## "@)
}

/// Whether a name can be that of a section: its heading is a line without white
/// space at the end.
pub open spec fn is_section_name(name: Seq<char>) -> bool {
    !name.contains('\n') && trimmed(heading_of(name)) == heading_of(name)
}

/// Whether the value of a section will stand after a blank line.
pub open spec fn blank_line_follows(ls: Seq<Seq<char>>, name: Seq<char>) -> bool {
    let h = heading_of(name);
    !has_heading(ls, h) || blank_after(ls, heading_line(ls, h, 0))
}

/// Whether another section follows after a section.
pub open spec fn section_follows(ls: Seq<Seq<char>>, name: Seq<char>) -> bool {
    let h = heading_of(name);
    has_heading(ls, h) && next_heading(ls, heading_line(ls, h, 0) + 1) < ls.len()
}

pub proof fn lemma_value_lines(val: Seq<char>)
    requires
        is_section_value(val),
        val.last() != '\r',
    ensures
        lines(val + "\n"@) == lines(val),
    decreases val.len(),
{
    reveal_strlit("\n");
    assert(val.last() != '\n') by {
        if val.last() == '\n' {
            // the last line would have to end with the line feed
            lemma_no_feed(val);
            let vs = lines(val);
            assert(vs.len() > 0);
            if vs.len() == 1 {
                assert(join(vs, "\n"@) == vs[0]);
                assert(vs[0].contains(val.last())) by {
                    assert(vs[0][val.len() - 1] == '\n');
                }
            } else {
                let t = vs.last();
                assert(!text::is_blank(t));
                assert(t.len() > 0) by {
                    if t.len() == 0 {
                        assert(trimmed(t) == t);
                    }
                }
                assert(val.last() == t.last());
                assert(t[t.len() - 1] == '\n');
                assert(t.contains('\n'));
            }
        }
    }
    lemma_lines_feed(val);
}

/// A line feed at the end adds no line.
proof fn lemma_lines_feed(s: Seq<char>)
    requires
        s.len() > 0,
        s.last() != '\n',
        s.last() != '\r',
    ensures
        lines(s + "\n"@) == lines(s),
    decreases s.len(),
{
    reveal_strlit("\n");
    let t = s + "\n"@;
    let k = text::until(s, '\n');
    text::lemma_until(s, '\n');
    if k < s.len() {
        assert forall|i: int| 0 <= i < k implies t[i] != '\n' by {
            assert(t[i] == s[i]);
        }
        text::lemma_until_is(t, '\n', k);
        assert(t.take(k) =~= s.take(k));
        assert(t.skip(k + 1) =~= s.skip(k + 1) + "\n"@);
        assert(k < s.len() - 1);
        assert(s.skip(k + 1).last() == s.last());
        lemma_lines_feed(s.skip(k + 1));
    } else {
        assert(!s.contains('\n')) by {
            if s.contains('\n') {
                let j = s.index_of('\n');
                assert(s[j] == '\n');
            }
        }
        lemma_single(s);
        assert(without_cr(s) == s);
    }
}

/// What a section gives whose value stands at its place.
proof fn lemma_section_at(
    t: Seq<Seq<char>>,
    name: Seq<char>,
    p: int,
    s: int,
    vs: Seq<Seq<char>>,
    tail: bool,
)
    requires
        0 <= p < s,
        s + vs.len() <= t.len(),
        vs.len() > 0,
        forall|j: int| 0 <= j < p ==> trimmed(#[trigger] t[j]) != heading_of(name),
        trimmed(t[p]) == heading_of(name),
        t.subrange(s, s + vs.len()) == vs,
        s == p + 2 ==> text::is_blank(t[p + 1]),
        s == p + 1 ==> !text::is_blank(vs[0]),
        s <= p + 2,
        !text::is_blank(vs.last()),
        forall|i: int| 0 <= i < vs.len() ==> !text::has_prefix(#[trigger] vs[i], "## "@),
        !tail ==> t.len() == s + vs.len(),
        tail ==> t.len() > s + vs.len() + 1 && t[s + vs.len()] == Seq::<char>::empty()
            && text::has_prefix(t[s + vs.len() + 1], "## "@),
    ensures
        section_in(t, name) == join(vs, "\n"@),
{
    let h = heading_of(name);
    lemma_heading_is(t, h, 0, p);
    assert(vs[0] == t[s]);
    assert(section_start(t, p) == s);
    let e: int = if tail {
        s + vs.len() + 1
    } else {
        s + vs.len()
    };
    assert forall|j: int| s <= j < e implies !text::has_prefix(#[trigger] t[j], "## "@) by {
        if j < s + vs.len() {
            assert(vs[j - s] == t[j]);
        } else {
            reveal_strlit("## ");
        }
    }
    lemma_next_is(t, s, e);
    let c = t.subrange(s, e);
    if tail {
        assert(c.last() == Seq::<char>::empty());
        assert(trimmed(Seq::<char>::empty()) == Seq::<char>::empty());
        assert(c.drop_last() =~= vs);
        assert(without_blank_end(c) == without_blank_end(vs));
    } else {
        assert(c =~= vs);
    }
    assert(without_blank_end(vs) == vs);
}

/// The case in which another section follows.
#[verifier::spinoff_prover]
proof fn lemma_read_middle(ls: Seq<Seq<char>>, name: Seq<char>, val: Seq<char>, p: int)
    requires
        forall|i: int| 0 <= i < ls.len() ==> !(#[trigger] ls[i]).contains('\n'),
        is_section_value(val),
        val.last() != '\r',
        0 <= p < ls.len(),
        forall|j: int| 0 <= j < p ==> trimmed(#[trigger] ls[j]) != heading_of(name),
        trimmed(ls[p]) == heading_of(name),
        !text::is_blank(lines(val)[0]) || blank_after(ls, p),
        next_heading(ls, p + 1) < ls.len(),
    ensures
        section_in(lines(join(section_replaced(ls, 0, heading_of(name), val), "\n"@)), name)
            == join(lines(val), "\n"@),
{
    let h = heading_of(name);
    let vs = lines(val);
    let e = Seq::<char>::empty();
    let out = section_replaced(ls, 0, h, val);
    assert(!e.contains('\n'));
    assert(without_cr(e) == e);
    assert(trimmed(e) == e);
    lemma_replaced_from(ls, 0, h, val, p);
    let b = if blank_after(ls, p) {
        seq![e]
    } else {
        Seq::<Seq<char>>::empty()
    };
    let k = next_heading(ls, p + 1);
    let w = ls.subrange(0, p) + seq![ls[p]] + b;
    let s: int = w.len() as int;
    assert forall|i: int| 0 <= i < w.len() implies !(#[trigger] w[i]).contains('\n') by {
        if i <= p {
            assert(w[i] == ls[i]);
        }
    }
    lemma_flat_lines(w);
    let r = section_replaced(ls, k, h, val);
    crate::rows::lemma_next_heading(ls, p + 1);
    assert(r[0] == ls[k]);
    let x = w + (seq![val] + seq![e]);
    assert(section_replaced(ls, p, h, val) == seq![ls[p]] + b + seq![val] + seq![e] + r);
    assert(out =~= x + r);
    lemma_lines_joined(x, r);
    lemma_flat_cat(w, seq![val] + seq![e]);
    lemma_flat_cat(seq![val], seq![e]);
    lemma_flat_one(val);
    lemma_flat_one(e);
    lemma_value_lines(val);
    lemma_single(e);
    let rest = lines(join(r, "\n"@));
    lemma_first_line(r);
    let t = lines(join(out, "\n"@));
    assert(t == flat(w) + (vs + seq![e]) + rest);
    assert(t.subrange(s, s + vs.len()) =~= vs);
    assert forall|j: int| 0 <= j < p implies trimmed(#[trigger] t[j]) != h by {
        assert(t[j] == flat(w)[j]);
        assert(w[j] == ls[j]);
        lemma_trim_cr(ls[j]);
    }
    assert(t[p] == flat(w)[p]);
    assert(w[p] == ls[p]);
    lemma_trim_cr(ls[p]);
    if s == p + 2 {
        assert(t[p + 1] == flat(w)[p + 1]);
        assert(w[p + 1] == e);
    }
    assert(t[s + vs.len()] == e);
    assert(t[s + vs.len() + 1] == rest[0]);
    lemma_section_at(t, name, p, s, vs, true);
}

/// The case in which the section is the last one.
#[verifier::spinoff_prover]
proof fn lemma_read_last(ls: Seq<Seq<char>>, name: Seq<char>, val: Seq<char>, p: int)
    requires
        forall|i: int| 0 <= i < ls.len() ==> !(#[trigger] ls[i]).contains('\n'),
        is_section_value(val),
        0 <= p < ls.len(),
        forall|j: int| 0 <= j < p ==> trimmed(#[trigger] ls[j]) != heading_of(name),
        trimmed(ls[p]) == heading_of(name),
        !text::is_blank(lines(val)[0]) || blank_after(ls, p),
        next_heading(ls, p + 1) >= ls.len(),
    ensures
        section_in(lines(join(section_replaced(ls, 0, heading_of(name), val), "\n"@)), name)
            == join(lines(val), "\n"@),
{
    let h = heading_of(name);
    let vs = lines(val);
    let e = Seq::<char>::empty();
    let out = section_replaced(ls, 0, h, val);
    assert(!e.contains('\n'));
    lemma_replaced_from(ls, 0, h, val, p);
    let b = if blank_after(ls, p) {
        seq![e]
    } else {
        Seq::<Seq<char>>::empty()
    };
    let k = next_heading(ls, p + 1);
    let w = ls.subrange(0, p) + seq![ls[p]] + b;
    assert forall|i: int| 0 <= i < w.len() implies !(#[trigger] w[i]).contains('\n') by {
        if i <= p {
            assert(w[i] == ls[i]);
        }
    }
    lemma_flat_lines(w);
    assert(section_replaced(ls, p, h, val) =~= seq![ls[p]] + b + seq![val]) by {
        if p < k && k <= ls.len() {
            assert(section_replaced(ls, k, h, val) == Seq::<Seq<char>>::empty());
        }
    }
    assert(out =~= w + seq![val]);
    lemma_lines_joined(w, seq![val]);
    let t = lines(join(out, "\n"@));
    assert(t == flat(w) + vs);
    assert forall|i: int| 0 <= i <= p implies #[trigger] w[i] == ls[i] by {
        if i < p {
            assert(ls.subrange(0, p)[i] == ls[i]);
        }
    }
    lemma_read_end(t, w, name, p, vs, ls);
}

/// The case in which there is no such section yet.
#[verifier::spinoff_prover]
proof fn lemma_read_new(ls: Seq<Seq<char>>, name: Seq<char>, val: Seq<char>)
    requires
        forall|i: int| 0 <= i < ls.len() ==> !(#[trigger] ls[i]).contains('\n'),
        is_section_name(name),
        is_section_value(val),
        !has_heading(ls, heading_of(name)),
    ensures
        section_in(lines(join(with_section(ls, name, val), "\n"@)), name) == join(
            lines(val),
            "\n"@,
        ),
{
    let h = heading_of(name);
    let vs = lines(val);
    let e = Seq::<char>::empty();
    let out = with_section(ls, name, val);
    reveal_strlit("## ");
    assert(!e.contains('\n'));
    assert(without_cr(e) == e);
    assert(trimmed(e) == e);
    assert(h.len() >= 3 && h[0] == '#');
    let b = if ls.len() > 0 && !text::is_blank(ls.last()) {
        seq![e]
    } else {
        Seq::<Seq<char>>::empty()
    };
    let w = ls + b + seq![h, e];
    assert(out =~= w + seq![val]);
    let p: int = w.len() - 2;
    assert(!h.contains('\n')) by {
        if h.contains('\n') {
            let j = h.index_of('\n');
            assert(j >= 3);
            assert(name[j - 3] == '\n');
        }
    }
    assert forall|i: int| 0 <= i < w.len() implies !(#[trigger] w[i]).contains('\n') by {
        if i < ls.len() {
            assert(w[i] == ls[i]);
        }
    }
    lemma_flat_lines(w);
    lemma_lines_joined(w, seq![val]);
    let t = lines(join(out, "\n"@));
    assert(t == flat(w) + vs);
    let s: int = w.len() as int;
    assert forall|j: int| 0 <= j < p implies trimmed(#[trigger] t[j]) != h by {
        assert(t[j] == flat(w)[j]);
        if j < ls.len() {
            assert(w[j] == ls[j]);
            lemma_trim_cr(ls[j]);
            assert(trimmed(ls[j]) != h);
        } else {
            assert(w[j] == e);
        }
    }
    assert(t[p] == flat(w)[p]);
    assert(w[p] == h);
    lemma_trim_cr(h);
    assert(t[p + 1] == flat(w)[p + 1]);
    assert(w[p + 1] == e);
    assert(t.subrange(s, s + vs.len()) =~= vs);
    lemma_section_at(t, name, p, s, vs, false);
}

/// A section gives back the value that it was set to.
pub proof fn law_section_read_back(body: Seq<char>, name: Seq<char>, val: Seq<char>)
    requires
        is_section_name(name),
        is_section_value(val),
        !text::is_blank(lines(val)[0]) || blank_line_follows(lines(body), name),
        val.last() != '\r' || !section_follows(lines(body), name),
    ensures
        section_in(lines(join(with_section(lines(body), name, val), "\n"@)), name) == val,
{
    let ls = lines(body);
    let h = heading_of(name);
    lemma_no_feed(body);
    if has_heading(ls, h) {
        lemma_heading_line(ls, h, 0);
        let p = heading_line(ls, h, 0);
        assert(p < ls.len()) by {
            let j = choose|j: int| 0 <= j < ls.len() && trimmed(#[trigger] ls[j]) == h;
            assert(trimmed(ls[j]) == h);
        }
        if next_heading(ls, p + 1) < ls.len() {
            lemma_read_middle(ls, name, val, p);
        } else {
            lemma_read_last(ls, name, val, p);
        }
    } else {
        lemma_read_new(ls, name, val);
    }
}

/// What a section at the end gives.
proof fn lemma_read_end(
    t: Seq<Seq<char>>,
    w: Seq<Seq<char>>,
    name: Seq<char>,
    p: int,
    vs: Seq<Seq<char>>,
    ls: Seq<Seq<char>>,
)
    requires
        t == flat(w) + vs,
        flat(w).len() == w.len(),
        forall|i: int| 0 <= i < w.len() ==> #[trigger] flat(w)[i] == without_cr(w[i]),
        0 <= p < ls.len(),
        w.len() == p + 1 || w.len() == p + 2,
        forall|i: int| 0 <= i <= p ==> #[trigger] w[i] == ls[i],
        w.len() == p + 2 ==> w[p + 1] == Seq::<char>::empty(),
        w.len() == p + 1 ==> !text::is_blank(vs[0]),
        vs.len() > 0,
        !text::is_blank(vs.last()),
        forall|i: int| 0 <= i < vs.len() ==> !text::has_prefix(#[trigger] vs[i], "## "@),
        forall|j: int| 0 <= j < p ==> trimmed(#[trigger] ls[j]) != heading_of(name),
        trimmed(ls[p]) == heading_of(name),
    ensures
        section_in(t, name) == join(vs, "\n"@),
{
    let s: int = w.len() as int;
    let e = Seq::<char>::empty();
    assert(trimmed(e) == e);
    assert(without_cr(e) == e);
    assert(t.subrange(s, s + vs.len()) =~= vs);
    assert forall|j: int| 0 <= j < p implies trimmed(#[trigger] t[j]) != heading_of(name) by {
        assert(t[j] == flat(w)[j]);
        assert(w[j] == ls[j]);
        lemma_trim_cr(ls[j]);
    }
    assert(t[p] == flat(w)[p]);
    assert(w[p] == ls[p]);
    lemma_trim_cr(ls[p]);
    if s == p + 2 {
        assert(t[p + 1] == flat(w)[p + 1]);
    }
    lemma_section_at(t, name, p, s, vs, false);
}

/// The first line of texts that are joined, where the first text begins a
/// section.
proof fn lemma_first_line(r: Seq<Seq<char>>)
    requires
        r.len() > 0,
        !r[0].contains('\n'),
        text::has_prefix(r[0], "## "@),
    ensures
        lines(join(r, "\n"@)).len() > 0,
        text::has_prefix(lines(join(r, "\n"@))[0], "## "@),
{
    lemma_single(r[0]);
    reveal_strlit("## ");
    if r.len() > 1 {
        let a = seq![r[0]];
        let b = r.skip(1);
        assert(r =~= a + b);
        lemma_lines_joined(a, b);
        lemma_flat_one(r[0]);
        assert(lines(join(r, "\n"@))[0] == flat(a)[0]);
        lemma_prefix_cr(r[0]);
    }
}

/// Setting a column that is kept in the body and reading it gives the value.
pub proof fn law_body_column_read_back(
    z: ZettelView,
    cs: Seq<ColumnView>,
    i: int,
    val: Seq<char>,
)
    requires
        0 <= i < cs.len(),
        find_column(cs, cs[i].name) == Some(i),
        zone_of_column(cs[i]) == Zone::Body,
        is_section_name(cs[i].name),
        is_section_value(val),
        !text::is_blank(lines(val)[0]) || blank_line_follows(lines(z.body), cs[i].name),
        val.last() != '\r' || !section_follows(lines(z.body), cs[i].name),
    ensures
        cell(with_update(z, cs, cs[i].name, val), cs[i]) == val,
{
    law_section_read_back(z.body, cs[i].name, val);
}

/// Setting a column that is kept in the front matter and reading it gives the
/// value as its data type shows it; a text as it is.
pub proof fn law_field_column_read_back(
    z: ZettelView,
    cs: Seq<ColumnView>,
    i: int,
    val: Seq<char>,
)
    requires
        0 <= i < cs.len(),
        find_column(cs, cs[i].name) == Some(i),
        zone_of_column(cs[i]) == Zone::Frontmatter,
    ensures
        cell(with_update(z, cs, cs[i].name, val), cs[i]) == shown_value(
            typed_value(val, cs[i].data_type),
        ),
        !crate::schema::numeric(cs[i].data_type) ==> cell(
            with_update(z, cs, cs[i].name, val),
            cs[i],
        ) == val,
{
    textmap::law_lookup_put(
        z.meta.extra,
        cs[i].name,
        typed_value(val, cs[i].data_type),
    );
}

/// Setting a reference leaves one form of it and every other line as it was.
pub proof fn law_reference_set(ls: Seq<Seq<char>>, key: Seq<char>, val: Seq<char>, i: int)
    requires
        0 <= i < ls.len(),
    ensures
        with_ref(ls, key, val).contains(ref_line(key, val)),
        with_ref(ls, key, val)[i] == if text::has_prefix(ls[i], ref_prefix(key)) {
            ref_line(key, val)
        } else {
            ls[i]
        },
{
    let r = with_ref(ls, key, val);
    if has_ref(ls, key) {
        let j = choose|j: int| 0 <= j < ls.len() && text::has_prefix(
            #[trigger] ls[j],
            ref_prefix(key),
        );
        assert(r[j] == ref_line(key, val));
    } else {
        assert(r[ls.len() as int] == ref_line(key, val));
        assert(!text::has_prefix(ls[i], ref_prefix(key)));
    }
}

// ---------------------------------------------------------------------------
// Inserting a row and reading it
// ---------------------------------------------------------------------------
/// Whether a column of a row is in its note's body.
pub open spec fn in_body(c: ColumnView, cells: Cells) -> bool {
    zone_of_column(c) == Zone::Body && lookup(cells, c.name) is Some
}

/// The lines of a row's note, values as they are.
spec fn body_list(cs: Seq<ColumnView>, cells: Cells) -> Seq<Seq<char>>
    decreases cs.len(),
{
    if cs.len() == 0 {
        Seq::empty()
    } else {
        let p = body_list(cs.drop_last(), cells);
        let c = cs.last();
        if in_body(c, cells) {
            p + separator(p) + seq![heading_of(c.name), Seq::empty(), lookup(cells, c.name)->0]
        } else {
            p
        }
    }
}

spec fn separator(p: Seq<Seq<char>>) -> Seq<Seq<char>> {
    if p.len() > 0 {
        seq![Seq::<char>::empty()]
    } else {
        Seq::<Seq<char>>::empty()
    }
}

proof fn lemma_join_three(p: Seq<Seq<char>>, h: Seq<char>, v: Seq<char>)
    ensures
        ({
            let e = Seq::<char>::empty();
            join(p + separator(p) + seq![h, e, v], "\n"@) == (if p.len() == 0 {
                Seq::<char>::empty()
            } else {
                join(p, "\n"@) + "\n\n"@
            }) + h + "\n\n"@ + v
        }),
{
    reveal_strlit("\n");
    reveal_strlit("\n\n");
    let e = Seq::<char>::empty();
    let n = "\n"@;
    let a = p + separator(p);
    let l1 = a + seq![h];
    let l2 = a + seq![h, e];
    let l3 = a + seq![h, e, v];
    assert(l3.drop_last() =~= l2);
    assert(l2.drop_last() =~= l1);
    assert(l1.drop_last() =~= a);
    assert(join(l3, n) == join(l2, n) + n + v);
    assert(join(l2, n) == join(l1, n) + n + e);
    if p.len() == 0 {
        assert(l1 =~= seq![h]);
        assert(join(l1, n) == h);
        assert(join(l3, n) =~= e + h + "\n\n"@ + v);
    } else {
        assert(a.drop_last() =~= p);
        assert(join(a, n) == join(p, n) + n + e);
        assert(join(l1, n) == join(a, n) + n + h);
        assert(join(l3, n) =~= join(p, n) + "\n\n"@ + h + "\n\n"@ + v);
    }
}

proof fn lemma_sections(cs: Seq<ColumnView>, cells: Cells)
    ensures
        ({
            let sections = row_parts(cs, cells).sections;
            let l = body_list(cs, cells);
            (sections.len() == 0) == (l.len() == 0) && join(sections, "\n\n"@) == join(l, "\n"@)
        }),
    decreases cs.len(),
{
    if cs.len() > 0 {
        let d = cs.drop_last();
        lemma_sections(d, cells);
        let c = cs.last();
        if in_body(c, cells) {
            let v = lookup(cells, c.name)->0;
            let before = row_parts(d, cells).sections;
            let p = body_list(d, cells);
            let x = section_text(c.name, v);
            lemma_join_three(p, heading_of(c.name), v);
            assert(before.push(x).drop_last() =~= before);
            assert(row_parts(cs, cells).sections == before.push(x));
            if before.len() == 0 {
                assert(join(before.push(x), "\n\n"@) == x);
                assert(Seq::<char>::empty() + heading_of(c.name) =~= heading_of(c.name));
            } else {
                let j = join(before, "\n\n"@) + "\n\n"@;
                assert(join(before.push(x), "\n\n"@) == j + x);
                assert(j + x =~= j + heading_of(c.name) + "\n\n"@ + v);
            }
        }
    }
}

/// The lines of the body of a row's note.
spec fn body_lines(cs: Seq<ColumnView>, cells: Cells) -> Seq<Seq<char>> {
    seq![Seq::<char>::empty()] + flat(body_list(cs, cells))
}

proof fn lemma_body_lines(cs: Seq<ColumnView>, cells: Cells)
    requires
        body_list(cs, cells).len() > 0,
    ensures
        lines(row_body(row_parts(cs, cells).sections)) == body_lines(cs, cells),
{
    let l = body_list(cs, cells);
    let e = Seq::<char>::empty();
    lemma_sections(cs, cells);
    lemma_join_unlines(l);
    lemma_flat(l);
    reveal_strlit("\n");
    text::lemma_assoc("\n"@, join(l, "\n"@), "\n"@);
    lemma_lines_after("\n"@, unlines(l));
    assert(e + "\n"@ =~= "\n"@);
    lemma_single(e);
    assert(without_cr(e) == e);
}

/// Whether a value can be read back from a row: no line of it looks like a
/// heading, it ends with a line that is not blank, and its line ends are line
/// feeds.
pub open spec fn is_row_value(val: Seq<char>) -> bool {
    &&& is_section_value(val)
    &&& val.last() != '\r'
    &&& forall|i: int|
        0 <= i < lines(val).len() ==> !text::has_prefix(trimmed(#[trigger] lines(val)[i]), "## "@)
}

/// Whether the columns of a row that are kept in the body have names and values
/// that can be read back, and no two have one name.
pub open spec fn readable(cs: Seq<ColumnView>, cells: Cells) -> bool {
    &&& forall|i: int|
        0 <= i < cs.len() && in_body(#[trigger] cs[i], cells) ==> is_section_name(cs[i].name)
            && is_row_value(lookup(cells, cs[i].name)->0)
    &&& forall|i: int, j: int|
        0 <= i < j < cs.len() ==> (#[trigger] cs[i]).name != (#[trigger] cs[j]).name
}

proof fn lemma_readable_less(cs: Seq<ColumnView>, cells: Cells)
    requires
        readable(cs, cells),
        cs.len() > 0,
    ensures
        readable(cs.drop_last(), cells),
        in_body(cs.last(), cells) ==> is_section_name(cs.last().name) && is_row_value(
            lookup(cells, cs.last().name)->0,
        ),
        forall|i: int| 0 <= i < cs.len() - 1 ==> (#[trigger] cs[i]).name != cs.last().name,
{
    let d = cs.drop_last();
    let n = cs.len() - 1;
    assert(cs[n] == cs.last());
    assert forall|i: int| 0 <= i < d.len() && in_body(#[trigger] d[i], cells) implies
        is_section_name(d[i].name) && is_row_value(lookup(cells, d[i].name)->0) by {
        assert(d[i] == cs[i]);
    }
    assert forall|i: int, j: int| 0 <= i < j < d.len() implies (#[trigger] d[i]).name != (
    #[trigger] d[j]).name by {
        assert(d[i] == cs[i] && d[j] == cs[j]);
    }
}

/// The lines that the last column adds.
proof fn lemma_body_step(cs: Seq<ColumnView>, cells: Cells)
    requires
        readable(cs, cells),
        cs.len() > 0,
        in_body(cs.last(), cells),
    ensures
        ({
            let c = cs.last();
            let h = heading_of(c.name);
            let v = lookup(cells, c.name)->0;
            let e = Seq::<char>::empty();
            let p = body_list(cs.drop_last(), cells);
            body_lines(cs, cells) == body_lines(cs.drop_last(), cells) + separator(p) + seq![
                without_cr(h),
                e,
            ] + lines(v)
        }),
{
    let c = cs.last();
    let h = heading_of(c.name);
    let v = lookup(cells, c.name)->0;
    let e = Seq::<char>::empty();
    let p = body_list(cs.drop_last(), cells);
    let sep = separator(p);
    lemma_readable_less(cs, cells);
    lemma_name_line(c.name);
    assert(!e.contains('\n'));
    assert(without_cr(e) == e);
    let x = p + sep;
    let y = seq![h, e] + seq![v];
    assert(body_list(cs, cells) =~= x + y);
    lemma_flat_cat(x, y);
    lemma_flat_cat(p, sep);
    lemma_flat_cat(seq![h, e], seq![v]);
    lemma_flat_one(v);
    lemma_value_lines(v);
    assert forall|i: int| 0 <= i < sep.len() implies !(#[trigger] sep[i]).contains('\n') by {}
    lemma_flat_lines(sep);
    assert(flat(sep) =~= sep);
    let two = seq![h, e];
    assert forall|i: int| 0 <= i < two.len() implies !(#[trigger] two[i]).contains('\n') by {}
    lemma_flat_lines(two);
    assert(flat(two) =~= seq![without_cr(h), e]);
    assert(body_lines(cs, cells) =~= body_lines(cs.drop_last(), cells) + sep + seq![
        without_cr(h),
        e,
    ] + lines(v));
}

pub proof fn lemma_name_line(name: Seq<char>)
    requires
        is_section_name(name),
    ensures
        !heading_of(name).contains('\n'),
        trimmed(without_cr(heading_of(name))) == heading_of(name),
        text::has_prefix(without_cr(heading_of(name)), "## "@),
        text::has_prefix(heading_of(name), "## "@),
{
    reveal_strlit("## ");
    let h = heading_of(name);
    if h.contains('\n') {
        let j = h.index_of('\n');
        assert(j >= 3);
        assert(name[j - 3] == '\n');
    }
    assert(h.take(3) =~= "## "@);
    lemma_trim_cr(h);
    lemma_prefix_cr(h);
}

/// A name that no column has is no heading of the body.
proof fn lemma_not_heading(cs: Seq<ColumnView>, cells: Cells, name: Seq<char>)
    requires
        readable(cs, cells),
        forall|i: int| 0 <= i < cs.len() ==> (#[trigger] cs[i]).name != name,
    ensures
        forall|j: int|
            0 <= j < body_lines(cs, cells).len() ==> trimmed(#[trigger] body_lines(cs, cells)[j])
                != heading_of(name),
    decreases cs.len(),
{
    reveal_strlit("## ");
    let e = Seq::<char>::empty();
    let h = heading_of(name);
    let t = body_lines(cs, cells);
    assert(trimmed(e) == e);
    assert(h.len() >= 3);
    assert(h.take(3) =~= "## "@);
    if cs.len() == 0 {
        assert(flat(body_list(cs, cells)) == Seq::<Seq<char>>::empty());
    } else {
        let d = cs.drop_last();
        let c = cs.last();
        lemma_readable_less(cs, cells);
        assert forall|i: int| 0 <= i < d.len() implies (#[trigger] d[i]).name != name by {
            assert(d[i] == cs[i]);
        }
        lemma_not_heading(d, cells, name);
        if in_body(c, cells) {
            let hc = heading_of(c.name);
            let v = lookup(cells, c.name)->0;
            let vs = lines(v);
            let t0 = body_lines(d, cells);
            let sep = separator(body_list(d, cells));
            lemma_body_step(cs, cells);
            lemma_name_line(c.name);
            assert(cs[cs.len() - 1].name != name);
            assert(hc != h) by {
                if hc == h {
                    assert(hc.skip(3) =~= c.name);
                    assert(h.skip(3) =~= name);
                }
            }
            assert forall|j: int| 0 <= j < t.len() implies trimmed(#[trigger] t[j]) != h by {
                let a = t0.len() as int;
                let b = a + sep.len();
                if j < a {
                    assert(t[j] == t0[j]);
                } else if j < b {
                    assert(t[j] == e);
                } else if j == b {
                    assert(t[j] == without_cr(hc));
                } else if j == b + 1 {
                    assert(t[j] == e);
                } else {
                    assert(t[j] == vs[j - b - 2]);
                    assert(!text::has_prefix(trimmed(vs[j - b - 2]), "## "@));
                }
            }
        }
    }
}

/// A section stays as it is when another one is added at the end.
proof fn lemma_section_kept(
    t: Seq<Seq<char>>,
    name: Seq<char>,
    h: Seq<char>,
    more: Seq<Seq<char>>,
)
    requires
        heading_line(t, heading_of(name), 0) < t.len(),
        section_start(t, heading_line(t, heading_of(name), 0)) < t.len(),
        text::has_prefix(h, "## "@),
    ensures
        ({
            let u = t + seq![Seq::<char>::empty(), h] + more;
            &&& section_in(u, name) == section_in(t, name)
            &&& heading_line(u, heading_of(name), 0) == heading_line(t, heading_of(name), 0)
            &&& section_start(u, heading_line(t, heading_of(name), 0)) == section_start(
                t,
                heading_line(t, heading_of(name), 0),
            )
        }),
{
    let e = Seq::<char>::empty();
    let u = t + seq![e, h] + more;
    let g = heading_of(name);
    reveal_strlit("## ");
    lemma_heading_line(t, g, 0);
    let p = heading_line(t, g, 0);
    assert forall|j: int| 0 <= j < p implies trimmed(#[trigger] u[j]) != g by {
        assert(u[j] == t[j]);
    }
    assert(u[p] == t[p]);
    lemma_heading_is(u, g, 0, p);
    let s = section_start(t, p);
    assert(p + 1 < t.len());
    assert(u[p + 1] == t[p + 1]);
    crate::rows::lemma_next_heading(t, s);
    let x = next_heading(t, s);
    let y: int = if x < t.len() {
        x
    } else {
        t.len() as int + 1
    };
    assert forall|j: int| s <= j < y implies !text::has_prefix(#[trigger] u[j], "## "@) by {
        if j < t.len() {
            assert(u[j] == t[j]);
        } else {
            assert(u[j] == e);
        }
    }
    if x < t.len() {
        assert(u[x] == t[x]);
    } else {
        assert(u[t.len() as int + 1] == h);
    }
    lemma_next_is(u, s, y);
    if x < t.len() {
        assert(u.subrange(s, y) =~= t.subrange(s, x));
    } else {
        let c = u.subrange(s, y);
        assert(c.last() == e);
        assert(trimmed(e) == e);
        assert(c.drop_last() =~= t.subrange(s, x));
    }
}

proof fn lemma_body_read(cs: Seq<ColumnView>, cells: Cells, i: int)
    requires
        readable(cs, cells),
        0 <= i < cs.len(),
        in_body(cs[i], cells),
    ensures
        ({
            let t = body_lines(cs, cells);
            let p = heading_line(t, heading_of(cs[i].name), 0);
            &&& section_in(t, cs[i].name) == lookup(cells, cs[i].name)->0
            &&& p < t.len()
            &&& section_start(t, p) < t.len()
            &&& body_list(cs, cells).len() > 0
        }),
    decreases cs.len(),
{
    let d = cs.drop_last();
    let c = cs.last();
    let e = Seq::<char>::empty();
    let t0 = body_lines(d, cells);
    let t = body_lines(cs, cells);
    let sep = separator(body_list(d, cells));
    lemma_readable_less(cs, cells);
    if i == cs.len() - 1 {
        let v = lookup(cells, c.name)->0;
        let vs = lines(v);
        let h = heading_of(c.name);
        lemma_body_step(cs, cells);
        lemma_name_line(c.name);
        assert forall|k: int| 0 <= k < d.len() implies (#[trigger] d[k]).name != c.name by {
            assert(d[k] == cs[k]);
        }
        lemma_not_heading(d, cells, c.name);
        assert(trimmed(e) == e);
        let p: int = t0.len() as int + sep.len();
        assert forall|j: int| 0 <= j < p implies trimmed(#[trigger] t[j]) != h by {
            if j < t0.len() {
                assert(t[j] == t0[j]);
            } else {
                assert(t[j] == e);
                reveal_strlit("## ");
            }
        }
        assert(t[p] == without_cr(h));
        assert(t[p + 1] == e);
        assert(t.subrange(p + 2, p + 2 + vs.len()) =~= vs);
        lemma_section_at(t, c.name, p, p + 2, vs, false);
        lemma_heading_is(t, h, 0, p);
    } else {
        assert(d[i] == cs[i]);
        lemma_body_read(d, cells, i);
        if in_body(c, cells) {
            lemma_body_step(cs, cells);
            lemma_name_line(c.name);
            let h = without_cr(heading_of(c.name));
            let more = seq![e] + lines(lookup(cells, c.name)->0);
            assert(sep =~= seq![e]);
            assert(t =~= t0 + seq![e, h] + more);
            lemma_section_kept(t0, cs[i].name, h, more);
        } else {
            assert(body_list(cs, cells) == body_list(d, cells));
        }
    }
}

proof fn lemma_target_read(val: Seq<char>)
    requires
        !val.contains('|'),
    ensures
        link_target("[["@ + val + "]]"@) == val,
{
    reveal_strlit("[[");
    reveal_strlit("]]");
    let v = "[["@ + val + "]]"@;
    assert(v[0] == '[' && v.last() == ']');
    assert(trimmed(v) == v);
    assert(v.take(2) =~= "[["@);
    let a = v.skip(2);
    assert(a =~= val + "]]"@);
    assert(a.skip(a.len() - 2) =~= "]]"@);
    assert(a.take(a.len() - 2) =~= val);
    assert forall|i: int| 0 <= i < val.len() implies val[i] != '|' by {
        assert(val.contains(val[i]));
    }
    text::lemma_until_is(val, '|', val.len() as int);
}

proof fn lemma_fields_read(cs: Seq<ColumnView>, cells: Cells, name: Seq<char>)
    requires
        forall|i: int, j: int|
            0 <= i < j < cs.len() ==> (#[trigger] cs[i]).name != (#[trigger] cs[j]).name,
    ensures
        field_value(row_parts(cs, cells).fields, name) == match find_column(cs, name) {
            Some(i) => if zone_of_column(cs[i]) == Zone::Reference && lookup(cells, name) is Some {
                Some("[["@ + lookup(cells, name)->0 + "]]"@)
            } else {
                None
            },
            None => None,
        },
        find_column(cs, name) matches Some(i) ==> 0 <= i < cs.len() && cs[i].name == name,
        find_column(cs, name) is None ==> forall|i: int|
            0 <= i < cs.len() ==> (#[trigger] cs[i]).name != name,
    decreases cs.len(),
{
    if cs.len() > 0 {
        let d = cs.drop_last();
        assert forall|i: int, j: int| 0 <= i < j < d.len() implies (#[trigger] d[i]).name != (
        #[trigger] d[j]).name by {
            assert(d[i] == cs[i] && d[j] == cs[j]);
        }
        lemma_fields_read(d, cells, name);
        let c = cs.last();
        let f = row_parts(d, cells).fields;
        if zone_of_column(c) == Zone::Reference && lookup(cells, c.name) is Some {
            let x = FieldView {
                key: c.name,
                value: "[["@ + lookup(cells, c.name)->0 + "]]"@,
                zone: Zone::Reference,
            };
            lemma_field_push(f, x, name);
        }
        if find_column(d, name) is Some {
            let i = find_column(d, name)->0;
            assert(d[i] == cs[i]);
            assert(cs[i].name != cs[cs.len() - 1].name);
        } else {
            assert forall|i: int| 0 <= i < cs.len() && c.name != name implies (#[trigger] cs[i]).name
                != name by {
                if i < d.len() {
                    assert(d[i] == cs[i]);
                }
            }
        }
    }
}

proof fn lemma_field_push(f: Seq<FieldView>, x: FieldView, name: Seq<char>)
    ensures
        field_value(f.push(x), name) == match field_value(f, name) {
            Some(v) => Some(v),
            None => if x.key == name {
                Some(x.value)
            } else {
                None
            },
        },
    decreases f.len(),
{
    let g = f.push(x);
    if f.len() == 0 {
        assert(g.drop_first() =~= Seq::<FieldView>::empty());
        assert(field_value(g.drop_first(), name) is None);
    } else {
        assert(g.drop_first() =~= f.drop_first().push(x));
        lemma_field_push(f.drop_first(), x, name);
    }
}

proof fn lemma_extra_read(cs: Seq<ColumnView>, cells: Cells, i: int)
    requires
        forall|a: int, b: int|
            0 <= a < b < cs.len() ==> (#[trigger] cs[a]).name != (#[trigger] cs[b]).name,
        0 <= i < cs.len(),
        zone_of_column(cs[i]) == Zone::Frontmatter,
        lookup(cells, cs[i].name) is Some,
    ensures
        text::ascending(textmap::keys(row_parts(cs, cells).extra)),
        lookup(row_parts(cs, cells).extra, cs[i].name) == Some(
            typed_value(
                lookup(cells, cs[i].name)->0,
                cs[i].data_type,
            ),
        ),
    decreases cs.len(),
{
    let d = cs.drop_last();
    let c = cs.last();
    let x = row_parts(d, cells).extra;
    lemma_extra_sorted(d, cells);
    lemma_extra_sorted(cs, cells);
    if i == cs.len() - 1 {
        textmap::law_lookup_put(
            x,
            c.name,
            typed_value(lookup(cells, c.name)->0, c.data_type),
        );
    } else {
        assert(d[i] == cs[i]);
        assert forall|a: int, b: int| 0 <= a < b < d.len() implies (#[trigger] d[a]).name != (
        #[trigger] d[b]).name by {
            assert(d[a] == cs[a] && d[b] == cs[b]);
        }
        lemma_extra_read(d, cells, i);
        assert(cs[i].name != cs[cs.len() - 1].name);
        if zone_of_column(c) == Zone::Frontmatter && lookup(cells, c.name) is Some {
            textmap::law_put_other(
                x,
                c.name,
                typed_value(lookup(cells, c.name)->0, c.data_type),
                cs[i].name,
            );
        }
    }
}

proof fn lemma_extra_sorted(cs: Seq<ColumnView>, cells: Cells)
    ensures
        text::ascending(textmap::keys(row_parts(cs, cells).extra)),
    decreases cs.len(),
{
    if cs.len() == 0 {
        textmap::lemma_empty::<ValueView>();
    } else {
        let c = cs.last();
        let d = cs.drop_last();
        lemma_extra_sorted(d, cells);
        if zone_of_column(c) == Zone::Frontmatter && lookup(cells, c.name) is Some {
            textmap::law_put_sorted(
                row_parts(d, cells).extra,
                c.name,
                typed_value(lookup(cells, c.name)->0, c.data_type),
            );
        }
    }
}

/// A row that was inserted gives back its values: in the body and in the
/// reference section as they are, in the front matter as the data type shows
/// them.
pub proof fn law_inserted_row_read_back(
    id: Seq<char>,
    s: SchemaView,
    cells: Cells,
    i: int,
)
    requires
        readable(s.columns, cells),
        0 <= i < s.columns.len(),
        lookup(cells, s.columns[i].name) is Some,
        zone_of_column(s.columns[i]) == Zone::Reference ==> !lookup(
            cells,
            s.columns[i].name,
        )->0.contains('|'),
    ensures
        ({
            let c = s.columns[i];
            let val = lookup(cells, c.name)->0;
            cell(row_note(id, s, cells), c) == match zone_of_column(c) {
                Zone::Frontmatter => shown_value(
                    typed_value(val, c.data_type),
                ),
                _ => val,
            }
        }),
{
    let cs = s.columns;
    let c = cs[i];
    match zone_of_column(c) {
        Zone::Body => {
            lemma_body_read(cs, cells, i);
            lemma_body_lines(cs, cells);
        },
        Zone::Frontmatter => {
            lemma_extra_read(cs, cells, i);
        },
        Zone::Reference => {
            lemma_fields_read(cs, cells, c.name);
            let k = find_column(cs, c.name);
            assert(k == Some(i)) by {
                if k is None {
                    assert(cs[i].name != c.name);
                } else if k->0 < i {
                    assert(cs[k->0].name != cs[i].name);
                } else if i < k->0 {
                    assert(cs[i].name != cs[k->0].name);
                }
            }
            lemma_target_read(lookup(cells, c.name)->0);
        },
    }
}

// ---------------------------------------------------------------------------
// Rows after their notes were written and read
// ---------------------------------------------------------------------------
/// The lines of a written note without reference section, whose body ends with
/// a line feed.
proof fn lemma_plain_lines(head: Seq<char>, body: Seq<char>)
    requires
        head.len() > 0 && head.last() == '\n',
        are_lines(lines(body)),
        lines(body).len() > 0,
        lines(body).last().len() > 0,
    ensures
        lines(head + body) == lines(head + join(lines(body), "\n"@)),
{
    lemma_lines_after(head, body);
    lemma_lines_after(head, join(lines(body), "\n"@));
    lemma_lines_join(lines(body));
}

/// The lines of a written note whose body and reference section end with a line
/// feed: an empty line closes the body.
proof fn lemma_zone_lines(head: Seq<char>, body: Seq<char>, reference: Seq<char>)
    requires
        head.len() > 0 && head.last() == '\n',
        body.len() > 0 && body.last() == '\n',
        are_lines(lines(body)),
        are_lines(lines(reference)),
        lines(reference).len() > 0,
        lines(reference).last().len() > 0,
    ensures
        are_lines(lines(body).push(Seq::empty())),
        lines(head + body + ("\n---\n"@ + reference)) == lines(
            head + join(lines(body).push(Seq::empty()), "\n"@) + ("\n---\n"@ + join(
                lines(reference),
                "\n"@,
            )),
        ),
{
    reveal_strlit("\n");
    reveal_strlit("---\n");
    reveal_strlit("\n---\n");
    let e = Seq::<char>::empty();
    let bl = lines(body).push(e);
    let rl = lines(reference);
    let feed = "\n"@;
    let rule = "---\n"@;
    assert forall|i: int| 0 <= i < bl.len() implies is_line(#[trigger] bl[i]) by {
        if i < lines(body).len() {
            assert(bl[i] == lines(body)[i]);
        }
    }
    let a = head + body + feed;
    let b = head + unlines(bl);
    lemma_join_unlines(bl);
    lemma_lines_unlines(bl);
    assert(head + body + ("\n---\n"@ + reference) =~= a + (rule + reference));
    assert(head + join(bl, feed) + ("\n---\n"@ + join(rl, feed)) =~= b + (rule + join(rl, feed)))
        by {
        assert(head + (join(bl, feed) + feed) =~= b);
    }
    lemma_lines_after(head, body);
    lemma_lines_after(head + body, feed);
    assert(e + feed =~= feed);
    lemma_single(e);
    assert(without_cr(e) == e);
    lemma_lines_after(head, unlines(bl));
    assert(lines(a) =~= lines(b)) by {
        assert(lines(head) + lines(body) + seq![e] =~= lines(head) + bl);
    }
    assert(b.len() > 0 && b.last() == '\n');
    lemma_lines_after(a, rule + reference);
    lemma_lines_after(b, rule + join(rl, feed));
    lemma_lines_after(rule, reference);
    lemma_lines_after(rule, join(rl, feed));
    lemma_lines_join(rl);
}

/// The text between which the zones of a note stand.
pub open spec fn note_head(front: Seq<Seq<char>>) -> Seq<char> {
    "---\n"@ + unlines(front) + "---\n"@
}

/// Whether the zones of a written note can be told apart again. The body and
/// the reference section end with a line feed; no line of theirs ends with a
/// carriage return, and the last holds something. Without reference section the
/// body holds no rule outside of fenced blocks; with one, it closes each fenced
/// block that it opens, and the section holds reference lines and blanks and no
/// rule outside of fenced blocks.
pub open spec fn is_storable(body: Seq<char>, reference: Seq<char>) -> bool {
    let bl = lines(body);
    let rl = lines(reference);
    &&& body.len() > 0 && body.last() == '\n'
    &&& are_lines(bl)
    &&& if reference.len() == 0 {
        bl.last().len() > 0 && forall|i: int| 0 <= i < bl.len() ==> !#[trigger] is_separator(
            bl,
            0,
            i,
        )
    } else {
        &&& !fenced(bl, 0, bl.len() as int)
        &&& are_lines(rl)
        &&& rl.last().len() > 0
        &&& exists|i: int| 0 <= i < rl.len() && !text::is_blank(#[trigger] rl[i])
        &&& forall|i: int|
            0 <= i < rl.len() ==> text::is_blank(#[trigger] rl[i]) || matched(REF_LINE@, rl[i])
        &&& forall|i: int| 0 <= i < rl.len() ==> !#[trigger] is_separator(rl, 0, i)
    }
}

proof fn lemma_fenced_push(ls: Seq<Seq<char>>, x: Seq<char>, i: int)
    requires
        0 <= i <= ls.len(),
    ensures
        fenced(ls.push(x), 0, i) == fenced(ls, 0, i),
    decreases i,
{
    if i > 0 {
        lemma_fenced_push(ls, x, i - 1);
        assert(ls.push(x)[i - 1] == ls[i - 1]);
    }
}

/// A note that is written with some lines of front matter and cut into zones gives
/// the lines of its body back, and those of its reference section.
pub proof fn law_stored_front(front: Seq<Seq<char>>, body: Seq<char>, reference: Seq<char>)
    requires
        are_lines(front),
        forall|i: int| 0 <= i < front.len() ==> !is_rule(#[trigger] front[i]),
        is_storable(body, reference),
    ensures
        split_view(note_of(front, body, reference)) matches Ok(z) && z.frontmatter == join(
            front,
            "\n"@,
        ) && lines(z.body) == lines(body) && lines(z.reference) == lines(reference),
{
    let bl = lines(body);
    let rl = lines(reference);
    let e = Seq::<char>::empty();
    let head = note_head(front);
    reveal_strlit("---\n");
    reveal_strlit("\n");
    assert(head.last() == '\n');
    assert(bl.len() > 0) by {
        lemma_lines_some(body);
    }
    if reference.len() == 0 {
        assert(reference =~= e);
        assert(note_of(front, body, reference) =~= head + body);
        lemma_plain_lines(head, body);
        law_no_false_reference(front, bl);
        lemma_lines_join(bl);
        assert(lines(e) =~= rl);
    } else {
        lemma_lines_some(reference);
        let closed = bl.push(e);
        assert(note_of(front, body, reference) == head + body + ("\n---\n"@ + reference));
        lemma_zone_lines(head, body, reference);
        let n = bl.len() as int;
        lemma_fenced_push(bl, e, n);
        assert(closed[n] == e);
        assert(!is_fence(e)) by {
            lemma_blank_no_fence();
        }
        assert(!fenced(closed, 0, n + 1));
        law_zones_round_trip(front, closed, rl);
        assert(reference_text(join(rl, "\n"@)) == "\n---\n"@ + join(rl, "\n"@)) by {
            lemma_lines_join(rl);
            if join(rl, "\n"@).len() == 0 {
                assert(lines(join(rl, "\n"@)) =~= Seq::<Seq<char>>::empty());
            }
        }
        lemma_lines_join(rl);
        assert(closed.drop_last() =~= bl);
        lemma_join_unlines(bl);
        assert(join(closed, "\n"@) == unlines(bl)) by {
            assert(closed.last() == e);
            assert(join(bl, "\n"@) + "\n"@ + e =~= join(bl, "\n"@) + "\n"@);
        }
        lemma_lines_unlines(bl);
    }
}

/// A note that is written and cut into zones gives the lines of its body back,
/// and those of its reference section.
pub proof fn law_stored_zones(
    m: MetaView,
    front: Seq<Seq<char>>,
    body: Seq<char>,
    reference: Seq<char>,
)
    requires
        are_front(m, front),
        is_storable(body, reference),
    ensures
        split_view(serialized(m, body, reference)) matches Ok(z) && z.frontmatter == join(
            front,
            "\n"@,
        ) && lines(z.body) == lines(body) && lines(z.reference) == lines(reference),
{
    law_stored_front(front, body, reference);
}

proof fn lemma_lines_some(s: Seq<char>)
    requires
        s.len() > 0,
    ensures
        lines(s).len() > 0,
{
}

proof fn lemma_blank_no_fence()
    ensures
        !is_fence(Seq::<char>::empty()),
{
    reveal_strlit("```");
    reveal_strlit("~~~");
    let e = Seq::<char>::empty();
    assert(trimmed(e).len() == 0);
}

/// A row that was inserted, whose note was written and read again, gives back
/// its values in the body, where its front matter reads and no inline field
/// stands in two zones.
pub proof fn law_stored_row_read_back(
    id: Seq<char>,
    s: SchemaView,
    cells: Cells,
    front: Seq<Seq<char>>,
    path: Seq<char>,
    i: int,
)
    requires
        readable(s.columns, cells),
        0 <= i < s.columns.len(),
        in_body(s.columns[i], cells),
        are_front(row_note(id, s, cells).meta, front),
        is_storable(row_note(id, s, cells).body, row_note(id, s, cells).reference),
    ensures
        ({
            let note = row_note(id, s, cells);
            let again = parsed_zettel(row_text(id, s, cells), path);
            match (
                frontmatter_of(join(front, "\n"@), path),
                inline_fields_of(note.body, note.reference),
            ) {
                (Err(x), _) => again == Err::<ZettelView, ErrorView>(x),
                (Ok(_), Err(x)) => again == Err::<ZettelView, ErrorView>(x),
                (Ok(_), Ok(_)) => again matches Ok(z) && cell(z, s.columns[i]) == lookup(
                    cells,
                    s.columns[i].name,
                )->0,
            }
        }),
{
    let z = row_note(id, s, cells);
    law_stored_zones(z.meta, front, z.body, z.reference);
    law_inserted_row_read_back(id, s, cells, i);
}

/// A row of plain values that was inserted, whose note was written and read again,
/// has the front matter that it had, and gives back its values in the front
/// matter, as the data type shows them, and in the body. Only inline fields that
/// stand in two zones keep such a note from being read.
pub proof fn law_plain_row_read_back(
    note: ParsedZettel,
    id: Seq<char>,
    s: SchemaView,
    cells: Cells,
    content: Seq<char>,
    path: Seq<char>,
    r: Result<ParsedZettel, ZettelError>,
)
    requires
        note@ == row_note(id, s, cells),
        readable(s.columns, cells),
        is_plain_meta(note@.meta),
        is_storable(note@.body, note@.reference),
        is_writing(note@, content),
        is_reading(content, path, r),
    ensures
        match r {
            Ok(z) => z@.meta == note@.meta && forall|i: int|
                0 <= i < s.columns.len() && lookup(cells, s.columns[i].name) is Some
                    && zone_of_column(s.columns[i]) != Zone::Reference ==> cell(
                    z@,
                    #[trigger] s.columns[i],
                ) == stored_value(s.columns[i], lookup(cells, s.columns[i].name)->0),
            Err(_) => split_view(content) is Ok && inline_fields_of(
                split_view(content)->Ok_0.body,
                split_view(content)->Ok_0.reference,
            ) is Err,
        },
{
    let m = note@.meta;
    lemma_front_lines(m);
    law_stored_front(front_lines(m), note@.body, note@.reference);
    assert(with_path_id(m, path) == m);
    lemma_front_entries(m);
    assert(split_view(content)->Ok_0.frontmatter == plain_text(front_entries(m)));
    if let Ok(z) = r {
        assert forall|i: int|
            0 <= i < s.columns.len() && lookup(cells, s.columns[i].name) is Some && zone_of_column(
                s.columns[i],
            ) != Zone::Reference implies cell(z@, #[trigger] s.columns[i]) == stored_value(
            s.columns[i],
            lookup(cells, s.columns[i].name)->0,
        ) by {
            law_inserted_row_read_back(id, s, cells, i);
        }
    }
}

/// A value as it is read from the row that it is stored in.
pub open spec fn stored_value(c: ColumnView, val: Seq<char>) -> Seq<char> {
    match zone_of_column(c) {
        Zone::Frontmatter => shown_value(typed_value(val, c.data_type)),
        _ => val,
    }
}

} // verus!
