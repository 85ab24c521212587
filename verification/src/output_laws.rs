//! How parts of notes and of values are written, one after the other.
use crate::crdt_resolver::{
    ended, headings_of, is_log_body, log_sections, merged_headings, section_merged, section_under,
    sections_of, written_sections,
};
use crate::body_laws::{law_merged_headings, law_written_sections};
use crate::indexer::{list_debug, map_debug, value_debug};
use crate::merge_fm::{item_kept, kept_ours, list_merge, with_theirs};
use crate::parser::{entry_text, extras_text, tag_lines, tags_text, yaml_quoted};
use crate::picks::{lemma_pick_more, lemma_pick_none, picked};
use crate::rows::typed_value;
use crate::schema::Fields;
use crate::text::{
    self, has_part, has_prefix, has_suffix, join, occurs_at, split, trimmed, trimmed_end,
};
use crate::types::ValueView;
use crate::written::{as_written, key_line, after_key, scalar_text, written_items};
use crate::yaml::{real_written, YamlView};
use vstd::prelude::*;

verus! {

// ---------------------------------------------------------------------------
// Front matter
// ---------------------------------------------------------------------------
/// The other fields are written one after the other, but for the two that have their own
/// places.
pub proof fn law_other_fields_written(a: Fields, b: Fields, k: Seq<char>, v: ValueView)
    ensures
        extras_text(a + b) == extras_text(a) + extras_text(b),
        extras_text(seq![(k, v)]) == if k == "publish"@ || k == "processed"@ {
            Seq::empty()
        } else {
            entry_text(k, v)
        },
    decreases b.len(),
{
    let one = seq![(k, v)];
    assert(one.drop_last() =~= Seq::empty());
    assert(extras_text(one.drop_last()) =~= Seq::empty());
    assert(extras_text(one) =~= if k == "publish"@ || k == "processed"@ {
        Seq::empty()
    } else {
        entry_text(k, v)
    });
    if b.len() == 0 {
        assert(a + b =~= a);
        assert(extras_text(a) + extras_text(b) =~= extras_text(a));
    } else {
        law_other_fields_written(a, b.drop_last(), k, v);
        assert((a + b).drop_last() =~= a + b.drop_last());
        assert(extras_text(a + b) =~= extras_text(a) + extras_text(b));
    }
}

/// The tags are written one to a line, in their order, under a line of their own; without tags
/// there is no line.
pub proof fn law_tags_written(a: Seq<Seq<char>>, b: Seq<Seq<char>>, t: Seq<char>)
    ensures
        tag_lines(a + b) == tag_lines(a) + tag_lines(b),
        tag_lines(seq![t]) == "  - "@ + yaml_quoted(t) + "\n"@,
        tags_text(Seq::empty()).len() == 0,
        a.len() > 0 ==> tags_text(a) == "tags:\n"@ + tag_lines(a),
    decreases b.len(),
{
    let one = seq![t];
    assert(one.drop_last() =~= Seq::empty());
    assert(tag_lines(one.drop_last()) =~= Seq::empty());
    assert(tag_lines(one) =~= "  - "@ + yaml_quoted(t) + "\n"@);
    if b.len() == 0 {
        assert(a + b =~= a);
        assert(tag_lines(a) + tag_lines(b) =~= tag_lines(a));
    } else {
        law_tags_written(a, b.drop_last(), t);
        assert((a + b).drop_last() =~= a + b.drop_last());
        assert(tag_lines(a + b) =~= tag_lines(a) + tag_lines(b));
    }
}

/// A list that is written in one line between brackets has its items between the commas, each
/// without white space round it.
pub proof fn law_flow_items(ls: Seq<Seq<char>>, key: Seq<char>, k: int, inner: Seq<char>, i: int)
    requires
        key_line(ls, key, 0) == Some(k),
        after_key(ls[k], key) == "["@ + inner + "]"@,
        0 <= i < split(inner, ',').len(),
    ensures
        written_items(ls, key).len() == split(inner, ',').len(),
        written_items(ls, key)[i] == trimmed(split(inner, ',')[i]),
{
    reveal_strlit("[");
    reveal_strlit("]");
    let rest = "["@ + inner + "]"@;
    assert(rest.subrange(1, rest.len() - 1) =~= inner);
}

/// A scalar is taken as it is written where that reads as the scalar; else in its usual form. A
/// text is taken as it is.
pub proof fn law_scalar_as_written(y: YamlView, w: Seq<char>, other: Seq<char>)
    ensures
        as_written(y, None, other) == other,
        as_written(y, Some(w), other) == w || as_written(y, Some(w), other) == other,
        y matches YamlView::Text(s) ==> scalar_text(y, Some(w)) == Some(s),
        y is Bool && crate::yaml::parsed_yaml(w) == Ok::<YamlView, Seq<char>>(y) ==> scalar_text(
            y,
            Some(w),
        ) == Some(w),
        y is Number && crate::yaml::parsed_yaml(w) == Ok::<YamlView, Seq<char>>(y) ==> scalar_text(
            y,
            Some(w),
        ) == Some(w),
        y is List || y is Mapping ==> scalar_text(y, Some(w)) is None,
{
}

// ---------------------------------------------------------------------------
// Values
// ---------------------------------------------------------------------------
/// A list is shown with its items in their order and commas between them.
pub proof fn law_list_shown(l: Seq<ValueView>)
    ensures
        list_debug(l) == join(Seq::new(l.len(), |i: int| value_debug(l[i])), ", "@),
    decreases l.len(),
{
    let all = Seq::new(l.len(), |i: int| value_debug(l[i]));
    if l.len() > 1 {
        let d = l.drop_last();
        law_list_shown(d);
        assert(all.drop_last() =~= Seq::new(d.len(), |i: int| value_debug(d[i])));
    }
}

/// A mapping is shown with its fields in their order and commas between them.
pub proof fn law_mapping_shown(m: Fields)
    ensures
        map_debug(m) == join(
            Seq::new(
                m.len(),
                |i: int| text::debugged_one(m[i].0) + ": "@ + value_debug(m[i].1),
            ),
            ", "@,
        ),
    decreases m.len(),
{
    let all = Seq::new(
        m.len(),
        |i: int| text::debugged_one(m[i].0) + ": "@ + value_debug(m[i].1),
    );
    if m.len() > 1 {
        let d = m.drop_last();
        law_mapping_shown(d);
        assert(all.drop_last() =~= Seq::new(
            d.len(),
            |i: int| text::debugged_one(d[i].0) + ": "@ + value_debug(d[i].1),
        ));
    }
}

/// A value of a column is the number that its text writes where the column asks for a number
/// and the text writes one; a truth value in a column of these; else the text.
pub proof fn law_typed_value(val: Seq<char>, data_type: Seq<char>)
    ensures
        ({
            let t = text::uppered(data_type);
            let v = typed_value(val, data_type);
            &&& v is Number ==> t == "INTEGER"@ || t == "REAL"@
            &&& v is Bool == (t == "BOOLEAN"@)
            &&& v matches ValueView::Text(s) ==> s == val
            &&& !(v is List) && !(v is Mapping)
            &&& t == "INTEGER"@ ==> (v is Number) == (text::parsed_signed(val) is Some)
            &&& t == "REAL"@ ==> (v is Number) == (real_written(val) is Some)
            &&& v matches ValueView::Bool(b) ==> b == seq!["true"@, "1"@, "yes"@].contains(
                text::lowered(val),
            )
        }),
{
    reveal_strlit("INTEGER");
    reveal_strlit("REAL");
    reveal_strlit("BOOLEAN");
    assert("REAL"@.len() == 4 && "BOOLEAN"@.len() == 7 && "INTEGER"@.len() == 7);
    assert("BOOLEAN"@[0] != "INTEGER"@[0]);
    let l = text::lowered(val);
    let s = seq!["true"@, "1"@, "yes"@];
    assert(s.contains(l) == (l == "true"@ || l == "1"@ || l == "yes"@)) by {
        assert(s[0] == "true"@ && s[1] == "1"@ && s[2] == "yes"@);
        if s.contains(l) {
            let i = s.index_of(l);
            assert(s[i] == l);
        }
    }
}

// ---------------------------------------------------------------------------
// Merged lists and bodies
// ---------------------------------------------------------------------------
proof fn lemma_kept_ours(a: Seq<Seq<char>>, o: Seq<Seq<char>>, t: Seq<Seq<char>>, n: int)
    requires
        0 <= n <= o.len(),
    ensures
        picked(kept_ours(a, o, t, n), o.take(n), |i: int| item_kept(a, o, t, o[i])),
    decreases n,
{
    let keep = |i: int| item_kept(a, o, t, o[i]);
    if n == 0 {
        assert(o.take(0) =~= Seq::<Seq<char>>::empty());
        lemma_pick_none::<Seq<char>>(keep);
    } else {
        lemma_kept_ours(a, o, t, n - 1);
        assert(o.take(n).drop_last() =~= o.take(n - 1));
        lemma_pick_more(kept_ours(a, o, t, n - 1), o.take(n), keep, keep);
    }
}

proof fn lemma_with_theirs(a: Seq<Seq<char>>, o: Seq<Seq<char>>, t: Seq<Seq<char>>, n: int)
    requires
        0 <= n <= t.len(),
    ensures
        has_start(with_theirs(a, o, t, n), kept_ours(a, o, t, o.len() as int)),
    decreases n,
{
    let k = kept_ours(a, o, t, o.len() as int);
    let r = with_theirs(a, o, t, n);
    if n == 0 {
        assert(r.take(k.len() as int) =~= k);
    } else {
        lemma_with_theirs(a, o, t, n - 1);
        let p = with_theirs(a, o, t, n - 1);
        assert(r.take(k.len() as int) =~= p.take(k.len() as int));
    }
}

pub open spec fn has_start(l: Seq<Seq<char>>, p: Seq<Seq<char>>) -> bool {
    p.len() <= l.len() && l.take(p.len() as int) == p
}

/// Which items of ours stay: those that we added, and those that theirs has too.
pub open spec fn stays(a: Seq<Seq<char>>, o: Seq<Seq<char>>, t: Seq<Seq<char>>) -> spec_fn(
    int,
) -> bool {
    |i: int| !a.contains(o[i]) || t.contains(o[i])
}

/// A merged list begins with the items of ours that stay, in their order.
pub proof fn law_merged_list_order(a: Seq<Seq<char>>, o: Seq<Seq<char>>, t: Seq<Seq<char>>)
    ensures
        list_merge(Some(a), Some(o), Some(t)) matches Some(l) && exists|k: Seq<Seq<char>>|
            #[trigger] has_start(l, k) && picked(k, o, stays(a, o, t)),
{
    let k = kept_ours(a, o, t, o.len() as int);
    lemma_kept_ours(a, o, t, o.len() as int);
    lemma_with_theirs(a, o, t, t.len() as int);
    assert(o.take(o.len() as int) =~= o);
    let keep = |i: int| item_kept(a, o, t, o[i]);
    let same = stays(a, o, t);
    let at = choose|at: Seq<int>| #[trigger] crate::picks::is_pick(k, o, keep, at);
    assert forall|i: int| 0 <= i < o.len() implies #[trigger] keep(i) == same(i) by {
        assert(o.contains(o[i]));
    }
    assert forall|i: int| 0 <= i < o.len() && #[trigger] same(i) implies at.contains(i) by {
        assert(keep(i));
    }
    assert(crate::picks::is_pick(k, o, same, at));
    assert(picked(k, o, same));
    let l = list_merge(Some(a), Some(o), Some(t))->0;
    assert(has_start(l, k));
}

proof fn lemma_part(w: Seq<char>, v: Seq<char>, x: Seq<char>, z: Seq<char>)
    requires
        has_prefix(w, v),
        has_suffix(v, x),
        has_prefix(x, z),
    ensures
        has_part(w, z),
{
    let p = v.len() - x.len();
    assert forall|j: int| 0 <= j < z.len() implies w.subrange(p, p + z.len())[j] == z[j] by {
        assert(w[p + j] == w.take(v.len() as int)[p + j]);
        assert(v[p + j] == v.skip(p)[j]);
        assert(x[j] == x.take(z.len() as int)[j]);
    }
    assert(w.subrange(p, p + z.len()) =~= z);
    assert(occurs_at(w, z, p));
}

/// What a merged body has under a heading of either side is merged from what the sides have
/// under it, and stands there in full; only white space at the end of the body is taken.
pub proof fn law_merged_body_sections(
    a: Seq<char>,
    o: Seq<char>,
    t: Seq<char>,
    m: Seq<char>,
    h: Option<Seq<char>>,
)
    requires
        is_log_body(a, o, t, m),
        headings_of(sections_of(o)).contains(h) || headings_of(sections_of(t)).contains(h),
    ensures
        exists|s: Seq<char>, w: Seq<char>|
            {
                &&& #[trigger] section_merged(
                    section_under(a, h),
                    section_under(o, h),
                    section_under(t, h),
                    s,
                )
                &&& m == #[trigger] trimmed_end(w)
                &&& has_part(
                    w,
                    match h {
                        Some(x) => "## "@ + x + "\n"@ + s,
                        None => s,
                    },
                )
            },
{
    let hs = merged_headings(o, t);
    law_merged_headings(o, t, h);
    let ms = choose|ms: Seq<Seq<char>>|
        #![trigger log_sections(a, o, t, ms)]
        log_sections(a, o, t, ms) && m == trimmed_end(
            written_sections(merged_headings(o, t), ms, ms.len() as int),
        );
    let n = ms.len() as int;
    let w = written_sections(hs, ms, n);
    let i = hs.index_of(h);
    assert(hs[i] == h);
    let s = ms[i];
    assert(section_merged(section_under(a, h), section_under(o, h), section_under(t, h), s));
    law_written_sections(hs, ms, n, i);
    let v = written_sections(hs, ms, i + 1);
    let x = match h {
        Some(y) => "## "@ + y + "\n"@ + ended(s),
        None => ended(s),
    };
    let z = match h {
        Some(y) => "## "@ + y + "\n"@ + s,
        None => s,
    };
    assert(x.take(z.len() as int) =~= z) by {
        assert(ended(s).take(s.len() as int) == s);
    }
    lemma_part(w, v, x, z);
    assert(m == trimmed_end(w));
}

} // verus!
