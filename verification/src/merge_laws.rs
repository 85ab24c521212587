//! A note of plain values that nobody changed is resolved to itself.
use crate::crdt_resolver::{
    ancestor_text, assembled, body_merged, default_resolution, front_merged, is_assembly,
    side_zones,
};
use crate::entry_laws::{has_entry, lemma_same_meta, say_no_more};
use crate::error::{ErrorView, ZettelError};
use crate::front_laws::{
    are_front_entries, emits, front_entries, front_lines, is_front, is_front_entry, is_plain_meta,
    keys_differ, lemma_bool_word, lemma_coloned, lemma_front_entries, lemma_front_lines, lemma_keys,
    lemma_no_quotes, lemma_number, lemma_plain_fronts, lemma_plain_lines, lemma_plain_scalar,
    lemma_tag_text, lemma_trimmed_line, lemma_unlines_cat, lemma_unlines_join, lemma_unlines_one,
    lemma_whole, lemma_word_chars, lemma_yamls, meta_from, plain_value, texts_value, Entry,
};
use crate::merge::{are_bare, is_reference_merge, law_reference_lines, line_kept, ref_items};
use crate::merge_fm::{
    clean_scalar, emits_field, field_kept, fm_entries, fm_fields, fm_line, fm_text, fm_value,
    has_plain_fields, in_quotes, is_fm_merge, is_fm_merge_text, item_lines, law_fm_merge_idempotent,
    lemma_partition_sorted, lists_of, node_text, node_texts, scalars_of, FmEntries, FmView,
};
use crate::parse_laws::{is_settled, law_split_front, law_split_references, lemma_reference_filled};
use crate::parser::{
    frontmatter_of, inline_fields_of, is_reading, is_text, needs_quotes, reads_front, split_view,
    tag_lines, unlines, with_path_id,
};
use crate::text::{self, join};
use crate::textmap::{self, lookup, put};
use crate::types::{ConflictFile, MetaView, ParsedZettel, ValueView};
use crate::yaml::{
    bool_word, entry_lines, holds, holds_all, is_coloned, is_key, is_plain, is_plain_text,
    is_scalar, is_scalar_of, is_whole, parsed_yaml, plain_lines, plain_text, writes, yaml_of,
    yamls_of, Plain, YamlView,
};
use vstd::prelude::*;

verus! {

broadcast use vstd::string::group_string_axioms;

/// Whether a value is a scalar or a list of plain texts.
pub open spec fn is_flat_value(v: ValueView) -> bool {
    match v {
        ValueView::List(l) => forall|i: int|
            0 <= i < l.len() ==> (#[trigger] l[i]) is Text && is_plain_text(l[i]->Text_0),
        ValueView::Mapping(_) => false,
        _ => true,
    }
}

/// Whether YAML writes a scalar as it was written: a plain text, a whole number, a
/// truth value in small letters or null.
pub open spec fn is_steady(w: Seq<char>) -> bool {
    is_plain_text(w) || is_whole(w) || w == "true"@ || w == "false"@ || w == "null"@
}

/// Whether a merge keeps a value that nobody changed: scalars that are written as
/// they were, and lists of such. Quotes stay only where they are needed.
pub open spec fn is_flat(p: Plain) -> bool {
    match p {
        Plain::Scalar(w) => is_steady(w) || is_coloned(w),
        Plain::Quoted(w) => needs_quotes(w) || is_plain_text(w),
        Plain::Whole(_, _) => true,
        Plain::Items(l) => forall|i: int| 0 <= i < l.len() ==> is_steady(#[trigger] l[i]),
        Plain::Value(v, _) => is_flat_value(v),
    }
}

pub open spec fn are_flat(d: Seq<Entry>) -> bool {
    forall|i: int| 0 <= i < d.len() ==> is_flat((#[trigger] d[i]).1)
}

spec fn list_texts(l: Seq<ValueView>) -> Seq<Seq<char>> {
    Seq::new(l.len(), |i: int| l[i]->Text_0)
}

/// The field that an entry makes.
spec fn fm_of(p: Plain) -> FmView {
    match p {
        Plain::Scalar(w) => FmView::Scalar(w),
        Plain::Quoted(w) => FmView::Scalar(w),
        Plain::Whole(w, _) => FmView::Scalar(w),
        Plain::Items(l) => FmView::List(l),
        Plain::Value(v, _) => match v {
            ValueView::Text(w) => FmView::Scalar(w),
            ValueView::Bool(b) => FmView::Scalar(bool_word(b)),
            ValueView::Number(n) => FmView::Scalar(n.yaml),
            ValueView::List(l) => FmView::List(list_texts(l)),
            ValueView::Mapping(_) => FmView::Scalar(Seq::empty()),
        },
    }
}

/// How a merge writes an entry: in quotes where these are needed, a list indented.
spec fn rewritten(p: Plain) -> Plain {
    match p {
        Plain::Scalar(w) => if needs_quotes(w) {
            Plain::Quoted(w)
        } else {
            p
        },
        Plain::Quoted(w) => if needs_quotes(w) {
            p
        } else {
            Plain::Scalar(w)
        },
        Plain::Whole(_, _) => p,
        Plain::Items(_) => p,
        Plain::Value(v, _) => match v {
            ValueView::List(l) => Plain::Items(list_texts(l)),
            _ => Plain::Value(v, false),
        },
    }
}

proof fn lemma_steady(w: Seq<char>)
    requires
        is_steady(w),
    ensures
        is_scalar(w),
        !needs_quotes(w),
        w.len() > 0,
        !text::is_space(w[0]),
        !text::is_space(w.last()),
{
    reveal_strlit("true");
    reveal_strlit("false");
    reveal_strlit("null");
    if is_plain_text(w) {
        lemma_plain_scalar(w);
    } else if is_whole(w) {
        lemma_whole(w);
    }
    assert(is_scalar(w));
    lemma_word_chars(w);
}

/// A rewritten entry is plain, says the same, and is rewritten as it is.
proof fn lemma_rewritten(k: Seq<char>, p: Plain)
    requires
        is_plain(p),
        is_flat(p),
        is_front_entry((k, p)),
    ensures
        is_plain(rewritten(p)),
        is_flat(rewritten(p)),
        is_front_entry((k, rewritten(p))),
        plain_value(rewritten(p)) == plain_value(p),
        fm_of(rewritten(p)) == fm_of(p),
        rewritten(rewritten(p)) == rewritten(p),
{
    lemma_keys();
    match p {
        Plain::Scalar(w) => {
            if is_coloned(w) {
                lemma_coloned(w);
            } else {
                lemma_steady(w);
            }
        },
        Plain::Quoted(w) => {
            if !needs_quotes(w) {
                lemma_plain_scalar(w);
            }
        },
        Plain::Value(v, _) => {
            if let ValueView::List(l) = v {
                let ws = list_texts(l);
                assert forall|i: int| 0 <= i < ws.len() implies is_plain_text(#[trigger] ws[i])
                    && is_scalar(ws[i]) by {
                    assert(l[i] is Text);
                    lemma_plain_scalar(ws[i]);
                }
                assert(texts_value(ws)->List_0 =~= l) by {
                    assert forall|i: int| 0 <= i < l.len() implies ValueView::Text(ws[i]) == #[trigger]
                        l[i] by {
                        assert(l[i] is Text);
                    }
                }
            }
        },
        _ => {},
    }
}

/// The entries in the order of their keys.
spec fn in_key_order(d: Seq<Entry>) -> Seq<Entry>
    decreases d.len(),
{
    if d.len() == 0 {
        Seq::empty()
    } else {
        put(in_key_order(d.drop_last()), d.last().0, rewritten(d.last().1))
    }
}

spec fn fields_made(d: Seq<Entry>) -> FmEntries {
    Seq::new(d.len(), |i: int| (d[i].0, fm_of(d[i].1)))
}

proof fn lemma_fields_made_put(d: Seq<Entry>, k: Seq<char>, p: Plain)
    ensures
        fields_made(put(d, k, p)) == put(fields_made(d), k, fm_of(p)),
{
    let f = fields_made(d);
    textmap::lemma_place(d, k);
    let n = textmap::place(d, k);
    assert forall|i: int| 0 <= i < n implies text::lt(#[trigger] f[i].0, k) by {
        assert(f[i].0 == d[i].0);
    }
    if n < d.len() {
        assert(f[n].0 == d[n].0);
    }
    textmap::lemma_place_is(f, k, n);
    assert(fields_made(put(d, k, p)) =~= put(f, k, fm_of(p)));
}

/// What a scalar is taken for in a merge.
proof fn lemma_scalar_node(y: YamlView, w: Seq<char>)
    requires
        is_scalar_of(y, w),
        is_steady(w) || is_coloned(w),
        y is Text || emits(y),
    ensures
        node_text(y) == w,
{
    if !(y is Text) {
        lemma_steady(w);
        lemma_trimmed_line(w);
        reveal_strlit("null");
        reveal_strlit("\n");
        reveal_strlit("null\n");
        assert("null\n"@ =~= "null"@ + "\n"@);
    }
}

proof fn lemma_node(y: YamlView, p: Plain)
    requires
        is_plain(p),
        is_flat(p),
        holds(y, p),
        emits_field(y),
    ensures
        fm_value(y) == fm_of(p),
{
    match p {
        Plain::Scalar(w) => {
            lemma_scalar_node(y, w);
        },
        Plain::Quoted(w) => {},
        Plain::Whole(w, _) => {
            lemma_steady(w);
            lemma_trimmed_line(w);
        },
        Plain::Items(l) => {
            let t = y->List_0;
            assert(node_texts(t) =~= l) by {
                assert forall|i: int| 0 <= i < l.len() implies node_text(#[trigger] t[i]) == l[i] by {
                    assert(is_scalar_of(t[i], l[i]));
                    assert(is_steady(l[i]));
                    assert(t[i] is Text || emits(t[i]));
                    lemma_scalar_node(t[i], l[i]);
                }
            }
        },
        Plain::Value(v, _) => match v {
            ValueView::Bool(b) => {
                lemma_bool_word(b);
                lemma_trimmed_line(bool_word(b));
            },
            ValueView::Number(n) => {
                lemma_number(n);
                assert(y == yaml_of(ValueView::Number(n)));
                lemma_trimmed_line(n.yaml);
            },
            ValueView::List(l) => {
                lemma_yamls(l);
                let t = yamls_of(l);
                assert(y == YamlView::List(t));
                assert(node_texts(t) =~= list_texts(l)) by {
                    assert forall|i: int| 0 <= i < l.len() implies node_text(t[i])
                        == #[trigger] list_texts(l)[i] by {
                        assert(l[i] is Text);
                        assert(t[i] == yaml_of(l[i]));
                    }
                }
            },
            _ => {},
        },
    }
}

/// The fields of a front matter that holds plain entries.
proof fn lemma_fm_entries(d: Seq<Entry>, t: Seq<(YamlView, YamlView)>)
    requires
        holds_all(YamlView::Mapping(t), d),
        are_flat(d),
        are_front_entries(d),
        forall|i: int| 0 <= i < d.len() ==> is_plain((#[trigger] d[i]).1),
        forall|i: int| 0 <= i < t.len() ==> emits_field((#[trigger] t[i]).1),
    ensures
        fm_entries(t) == fields_made(in_key_order(d)),
    decreases d.len(),
{
    if d.len() == 0 {
        assert(fm_entries(t) =~= fields_made(in_key_order(d)));
    } else {
        let n = d.len() - 1;
        let u = t.drop_last();
        let e = d.drop_last();
        assert forall|i: int| 0 <= i < e.len() implies (#[trigger] u[i]).0 == YamlView::Text(e[i].0)
            && holds(u[i].1, e[i].1) by {
            assert(u[i] == t[i] && e[i] == d[i]);
        }
        assert forall|i: int| 0 <= i < e.len() implies is_flat((#[trigger] e[i]).1) && is_plain(
            e[i].1,
        ) && is_front_entry(e[i]) by {
            assert(e[i] == d[i]);
        }
        assert forall|i: int| 0 <= i < u.len() implies emits_field((#[trigger] u[i]).1) by {
            assert(u[i] == t[i]);
        }
        lemma_fm_entries(e, u);
        assert(t[n].0 == YamlView::Text(d[n].0) && holds(t[n].1, d[n].1));
        assert(emits_field(t[n].1));
        assert(is_flat(d[n].1) && is_plain(d[n].1) && is_front_entry(d[n]));
        lemma_node(t[n].1, d[n].1);
        lemma_rewritten(d[n].0, d[n].1);
        lemma_fields_made_put(in_key_order(e), d[n].0, rewritten(d[n].1));
    }
}

/// What the entries in the order of their keys are.
proof fn lemma_in_key_order(d: Seq<Entry>)
    requires
        keys_differ(d),
    ensures
        text::ascending(textmap::keys(in_key_order(d))),
        forall|i: int|
            0 <= i < d.len() ==> lookup(in_key_order(d), (#[trigger] d[i]).0) == Some(
                rewritten(d[i].1),
            ),
        forall|k: Seq<char>| #[trigger]
            lookup(in_key_order(d), k) is Some ==> exists|i: int|
                0 <= i < d.len() && (#[trigger] d[i]).0 == k,
    decreases d.len(),
{
    if d.len() > 0 {
        let e = d.drop_last();
        let n = d.len() - 1;
        assert forall|i: int, j: int| 0 <= i < j < e.len() implies (#[trigger] e[i]).0 != (
        #[trigger] e[j]).0 by {
            assert(e[i] == d[i] && e[j] == d[j]);
        }
        lemma_in_key_order(e);
        let p = in_key_order(e);
        textmap::law_put_sorted(p, d.last().0, rewritten(d.last().1));
        textmap::lemma_lookup_put(p, d.last().0, rewritten(d.last().1));
        assert forall|i: int| 0 <= i < d.len() implies lookup(in_key_order(d), (#[trigger] d[i]).0)
            == Some(rewritten(d[i].1)) by {
            if i < n {
                assert(e[i] == d[i]);
                assert(d[i].0 != d[n].0);
            }
        }
        assert forall|k: Seq<char>| #[trigger] lookup(in_key_order(d), k) is Some implies exists|
            i: int,
        | 0 <= i < d.len() && (#[trigger] d[i]).0 == k by {
            if k == d.last().0 {
                assert(d[n].0 == k);
            } else {
                let i = choose|i: int| 0 <= i < e.len() && (#[trigger] e[i]).0 == k;
                assert(d[i].0 == k);
            }
        }
    } else {
        assert(in_key_order(d).len() == 0);
    }
}

/// Whether an entry is one of some entries, as a merge writes it.
spec fn comes_from(e: Entry, d: Seq<Entry>) -> bool {
    exists|i: int| 0 <= i < d.len() && (#[trigger] d[i]).0 == e.0 && e.1 == rewritten(d[i].1)
}

proof fn lemma_comes_from(e: Entry, d: Seq<Entry>)
    requires
        comes_from(e, d),
        is_front(d),
        are_flat(d),
    ensures
        has_entry(d, e),
        is_key(e.0),
        is_plain(e.1),
        is_front_entry(e),
        is_flat(e.1),
        rewritten(e.1) == e.1,
{
    let i = choose|i: int|
        0 <= i < d.len() && (#[trigger] d[i]).0 == e.0 && e.1 == rewritten(d[i].1);
    assert(is_key(d[i].0) && is_plain(d[i].1) && is_front_entry(d[i]) && is_flat(d[i].1));
    assert(d[i] == (d[i].0, d[i].1));
    lemma_rewritten(d[i].0, d[i].1);
    assert(e == (d[i].0, rewritten(d[i].1)));
}

proof fn lemma_order_comes(d: Seq<Entry>)
    requires
        is_front(d),
        are_flat(d),
    ensures
        keys_differ(in_key_order(d)),
        forall|j: int| 0 <= j < in_key_order(d).len() ==> comes_from(#[trigger] in_key_order(d)[j], d),
        say_no_more(d, in_key_order(d)),
{
    reveal(say_no_more);
    let s = in_key_order(d);
    assert(keys_differ(d));
    lemma_in_key_order(d);
    let ks = textmap::keys(s);
    assert forall|j: int| 0 <= j < s.len() implies comes_from(#[trigger] s[j], d) by {
        textmap::lemma_lookup_at(s, j);
        let i = choose|i: int| 0 <= i < d.len() && (#[trigger] d[i]).0 == s[j].0;
        assert(d[i].0 == s[j].0);
    }
    assert forall|i: int, j: int| 0 <= i < j < s.len() implies (#[trigger] s[i]).0 != (
    #[trigger] s[j]).0 by {
        assert(text::lt(ks[i], ks[j]));
        text::lemma_lt_irreflexive(ks[j]);
    }
    assert forall|i: int| 0 <= i < d.len() implies has_entry(s, #[trigger] d[i]) by {
        let k = d[i].0;
        textmap::law_lookup_is_an_entry(s, k, rewritten(d[i].1));
        let j = s.index_of((k, rewritten(d[i].1)));
        assert(is_plain(d[i].1) && is_front_entry(d[i]) && is_flat(d[i].1));
        assert(d[i] == (d[i].0, d[i].1));
        lemma_rewritten(d[i].0, d[i].1);
        assert(s[j].0 == k && plain_value(s[j].1) == plain_value(d[i].1));
    }
}

/// Entries in the order of their keys say the same.
#[verifier::spinoff_prover]
proof fn lemma_sorted_meta(d: Seq<Entry>)
    requires
        is_front(d),
        are_flat(d),
    ensures
        meta_from(in_key_order(d)) == meta_from(d),
        is_front(in_key_order(d)),
        are_flat(in_key_order(d)),
        are_rewritten(in_key_order(d)),
{
    let s = in_key_order(d);
    assert(keys_differ(d));
    lemma_order_comes(d);
    assert forall|j: int| 0 <= j < s.len() implies has_entry(d, #[trigger] s[j]) && is_key(s[j].0)
        && is_plain(s[j].1) && is_front_entry(s[j]) && is_flat(s[j].1) && rewritten(s[j].1)
        == s[j].1 by {
        lemma_comes_from(s[j], d);
    }
    assert(s.len() > 0 && say_no_more(s, d)) by {
        reveal(say_no_more);
        assert(has_entry(s, d[0]));
    }
    lemma_same_meta(s, d);
}

// ---------------------------------------------------------------------------
// The text of merged fields
// ---------------------------------------------------------------------------
spec fn are_rewritten(d: Seq<Entry>) -> bool {
    forall|i: int| 0 <= i < d.len() ==> rewritten((#[trigger] d[i]).1) == d[i].1
}

spec fn as_merged(v: FmView) -> FmView {
    match v {
        FmView::Scalar(s) => FmView::Scalar(in_quotes(s)),
        FmView::List(_) => v,
    }
}

spec fn all_merged(a: FmEntries) -> FmEntries {
    Seq::new(a.len(), |i: int| (a[i].0, as_merged(a[i].1)))
}

proof fn lemma_clean(w: Seq<char>)
    ensures
        clean_scalar(in_quotes(w)) == if needs_quotes(w) {
            in_quotes(w)
        } else {
            w
        },
{
    reveal_strlit("\"");
    let s = in_quotes(w);
    assert(s[0] == '"' && s.last() == '"');
    assert(s.subrange(1, s.len() - 1) =~= w);
}

proof fn lemma_items(l: Seq<Seq<char>>)
    requires
        forall|i: int| 0 <= i < l.len() ==> is_scalar(#[trigger] l[i]),
    ensures
        item_lines(l) == tag_lines(l),
    decreases l.len(),
{
    if l.len() > 0 {
        let d = l.drop_last();
        assert forall|i: int| 0 <= i < d.len() implies is_scalar(#[trigger] d[i]) by {
            assert(d[i] == l[i]);
        }
        lemma_items(d);
        assert(is_scalar(l[l.len() - 1]));
        lemma_word_chars(l.last());
    }
}

proof fn lemma_fm_line(k: Seq<char>, p: Plain)
    requires
        is_plain(p),
        is_flat(p),
        rewritten(p) == p,
    ensures
        fm_line(k, as_merged(fm_of(p))) == unlines(entry_lines(k, p)),
{
    reveal_strlit(": ");
    reveal_strlit(": \"");
    reveal_strlit("\"");
    reveal_strlit(":");
    reveal_strlit("\n");
    reveal_strlit(":\n");
    assert(": \""@ =~= ": "@ + "\""@);
    assert(":\n"@ =~= ":"@ + "\n"@);
    match p {
        Plain::Scalar(w) => {
            lemma_clean(w);
            lemma_unlines_one(k + ": "@ + w);
        },
        Plain::Quoted(w) => {
            lemma_clean(w);
            lemma_unlines_one(k + ": \""@ + w + "\""@);
            assert(k + ": "@ + ("\""@ + w + "\""@) =~= k + ": \""@ + w + "\""@);
        },
        Plain::Whole(w, _) => {
            lemma_steady(w);
            lemma_clean(w);
            lemma_unlines_one(k + ": "@ + w);
        },
        Plain::Items(l) => {
            lemma_items(l);
            lemma_tag_text(l);
            let s = Seq::new(l.len(), |i: int| "  - "@ + l[i]);
            lemma_unlines_cat(seq![k + ":"@], s);
            lemma_unlines_one(k + ":"@);
            assert(entry_lines(k, p) == seq![k + ":"@] + s);
            assert(fm_line(k, as_merged(fm_of(p))) =~= unlines(entry_lines(k, p)));
        },
        Plain::Value(v, indent) => match v {
            ValueView::Text(w) => {
                lemma_no_quotes(w);
                lemma_clean(w);
                lemma_unlines_one(k + ": "@ + w);
            },
            ValueView::Bool(b) => {
                lemma_bool_word(b);
                lemma_clean(bool_word(b));
                lemma_unlines_one(k + ": "@ + bool_word(b));
            },
            ValueView::Number(n) => {
                lemma_number(n);
                lemma_clean(n.yaml);
                lemma_unlines_one(k + ": "@ + n.yaml);
            },
            _ => {},
        },
    }
}

proof fn lemma_fm_text(d: Seq<Entry>)
    requires
        are_flat(d),
        are_rewritten(d),
        forall|i: int| 0 <= i < d.len() ==> is_plain((#[trigger] d[i]).1),
    ensures
        fm_text(all_merged(fields_made(d))) == unlines(plain_lines(d)),
    decreases d.len(),
{
    let m = all_merged(fields_made(d));
    if d.len() > 0 {
        let e = d.drop_last();
        let n = d.len() - 1;
        assert forall|i: int| 0 <= i < e.len() implies is_flat((#[trigger] e[i]).1) && is_plain(
            e[i].1,
        ) && rewritten(e[i].1) == e[i].1 by {
            assert(e[i] == d[i]);
        }
        lemma_fm_text(e);
        assert(m.drop_last() =~= all_merged(fields_made(e)));
        assert(is_flat(d[n].1) && is_plain(d[n].1) && rewritten(d[n].1) == d[n].1);
        lemma_fm_line(d[n].0, d[n].1);
        lemma_unlines_cat(plain_lines(e), entry_lines(d[n].0, d[n].1));
    }
}

// ---------------------------------------------------------------------------
// The merge of a front matter with itself
// ---------------------------------------------------------------------------
proof fn lemma_scalar_in(m: FmEntries, k: Seq<char>, s: Seq<char>)
    ensures
        scalars_of(m).contains((k, s)) == m.contains((k, FmView::Scalar(s))),
    decreases m.len(),
{
    let e = (k, s);
    let f = (k, FmView::Scalar(s));
    if m.len() > 0 {
        let d = m.drop_last();
        let x = scalars_of(m);
        let y = scalars_of(d);
        lemma_scalar_in(d, k, s);
        if y.contains(e) {
            let i = y.index_of(e);
            assert(x[i] == e);
        }
        if d.contains(f) {
            assert(m[d.index_of(f)] == f);
        }
        if m.last() == f {
            assert(m[m.len() - 1] == f);
            assert(x[x.len() - 1] == e);
        }
        if x.contains(e) && !y.contains(e) {
            let i = x.index_of(e);
            if i < y.len() {
                assert(y[i] == e);
            }
            assert(m.last() == f);
        }
        if m.contains(f) && m.last() != f {
            let i = m.index_of(f);
            assert(d[i] == f);
        }
    }
}

proof fn lemma_list_in(m: FmEntries, k: Seq<char>, l: Seq<Seq<char>>)
    ensures
        lists_of(m).contains((k, l)) == m.contains((k, FmView::List(l))),
    decreases m.len(),
{
    let e = (k, l);
    let f = (k, FmView::List(l));
    if m.len() > 0 {
        let d = m.drop_last();
        let x = lists_of(m);
        let y = lists_of(d);
        lemma_list_in(d, k, l);
        if y.contains(e) {
            let i = y.index_of(e);
            assert(x[i] == e);
        }
        if d.contains(f) {
            assert(m[d.index_of(f)] == f);
        }
        if m.last() == f {
            assert(m[m.len() - 1] == f);
            assert(x[x.len() - 1] == e);
        }
        if x.contains(e) && !y.contains(e) {
            let i = x.index_of(e);
            if i < y.len() {
                assert(y[i] == e);
            }
            assert(m.last() == f);
        }
        if m.contains(f) && m.last() != f {
            let i = m.index_of(f);
            assert(d[i] == f);
        }
    }
}

/// What a merge keeps of a field that nobody changed.
proof fn lemma_field_kept(f: FmEntries, k: Seq<char>)
    requires
        text::ascending(textmap::keys(f)),
    ensures
        field_kept(f, k) == match lookup(f, k) {
            Some(v) => Some(as_merged(v)),
            None => None,
        },
{
    lemma_partition_sorted(f);
    let ls = lists_of(f);
    let ss = scalars_of(f);
    match lookup(ls, k) {
        Some(l) => {
            textmap::law_lookup_is_an_entry(ls, k, l);
            lemma_list_in(f, k, l);
            textmap::law_lookup_is_an_entry(f, k, FmView::List(l));
        },
        None => {
            match lookup(ss, k) {
                Some(s) => {
                    textmap::law_lookup_is_an_entry(ss, k, s);
                    lemma_scalar_in(f, k, s);
                    textmap::law_lookup_is_an_entry(f, k, FmView::Scalar(s));
                },
                None => {
                    match lookup(f, k) {
                        Some(FmView::Scalar(s)) => {
                            textmap::law_lookup_is_an_entry(f, k, FmView::Scalar(s));
                            lemma_scalar_in(f, k, s);
                            textmap::law_lookup_is_an_entry(ss, k, s);
                        },
                        Some(FmView::List(l)) => {
                            textmap::law_lookup_is_an_entry(f, k, FmView::List(l));
                            lemma_list_in(f, k, l);
                            textmap::law_lookup_is_an_entry(ls, k, l);
                        },
                        None => {},
                    }
                },
            }
        },
    }
}

/// The merge of fields with themselves.
proof fn lemma_merged_self(f: FmEntries, m: FmEntries)
    requires
        text::ascending(textmap::keys(f)),
        is_fm_merge(f, f, f, m),
    ensures
        m == all_merged(f),
{
    let g = all_merged(f);
    assert(textmap::keys(g) =~= textmap::keys(f));
    assert forall|k: Seq<char>| #[trigger] lookup(m, k) == lookup(g, k) by {
        law_fm_merge_idempotent(f, m, k);
        lemma_field_kept(f, k);
        textmap::lemma_lookup_none(f, k);
        textmap::lemma_lookup_none(g, k);
        if lookup(f, k) is Some {
            let i = textmap::keys(f).index_of(k);
            assert(f[i].0 == k && g[i].0 == k);
            textmap::lemma_lookup_at(f, i);
            textmap::lemma_lookup_at(g, i);
        }
    }
    textmap::lemma_same_entries(m, g);
}

/// A front matter of plain entries that nobody changed is read from its merge as it
/// was.
#[verifier::spinoff_prover]
proof fn lemma_front_unchanged(d: Seq<Entry>, fm: Seq<char>, path: Seq<char>)
    requires
        is_front(d),
        are_flat(d),
        has_plain_fields(plain_text(d)),
        fm_fields(plain_text(d)) is Ok,
        is_fm_merge_text(
            fm_fields(plain_text(d))->Ok_0,
            fm_fields(plain_text(d))->Ok_0,
            fm_fields(plain_text(d))->Ok_0,
            fm,
        ),
        reads_front(fm, path),
    ensures
        frontmatter_of(fm, path) == Ok::<MetaView, ErrorView>(with_path_id(meta_from(d), path)),
{
    let s = plain_text(d);
    lemma_plain_fronts(s);
    assert(writes(s, plain_text(d)));
    let t = parsed_yaml(s)->Ok_0->Mapping_0;
    assert(holds_all(YamlView::Mapping(t), d));
    lemma_fm_entries(d, t);
    let e = in_key_order(d);
    lemma_sorted_meta(d);
    assert(keys_differ(d));
    lemma_in_key_order(d);
    let f = fields_made(e);
    assert(textmap::keys(f) =~= textmap::keys(e));
    let n = choose|n: FmEntries| #[trigger] is_fm_merge(f, f, f, n) && fm == fm_text(n);
    lemma_merged_self(f, n);
    lemma_fm_text(e);
    lemma_plain_lines(e);
    lemma_unlines_join(plain_lines(e));
    assert(fm == plain_text(e) + "\n"@);
    assert(writes(fm, plain_text(e)));
}

/// A note of plain entries that nobody changed is resolved to a note with its front
/// matter and its body, and the lines of its reference section, in order and each
/// once.
pub proof fn law_unchanged_note_resolved(c: ConflictFile, d: Seq<Entry>, content: Seq<char>)
    requires
        c.ours@ == ancestor_text(c) && c.theirs@ == ancestor_text(c),
        default_resolution(c, content),
        is_front(d),
        are_flat(d),
        side_zones(c.ours@)->Ok_0.frontmatter == plain_text(d),
    ensures
        ({
            let z = side_zones(c.ours@)->Ok_0;
            exists|r: Seq<char>|
                #![trigger is_reference_merge(z.reference, z.reference, z.reference, r)]
                is_reference_merge(z.reference, z.reference, z.reference, r) && is_text(
                    with_path_id(meta_from(d), c.path@),
                    z.body,
                    r,
                    content,
                ) && inline_fields_of(z.body, r) is Ok
        }),
{
    let z = side_zones(c.ours@)->Ok_0;
    let (fm, b, r) = choose|fm: Seq<char>, b: Seq<char>, r: Seq<char>|
        #![trigger assembled(c.path@, fm, b, r)]
        {
            &&& front_merged(z, z, z, fm)
            &&& body_merged(z.body, z.body, z.body, b)
            &&& is_reference_merge(z.reference, z.reference, z.reference, r)
            &&& assembled(c.path@, fm, b, r) == Ok::<Seq<char>, ErrorView>(content)
            &&& is_assembly(c.path@, fm, b, r, content)
            &&& has_plain_fields(z.frontmatter)
        };
    lemma_front_unchanged(d, fm, c.path@);
    assert(is_reference_merge(z.reference, z.reference, z.reference, r));
}

/// Whether a text is some lines, in order and each once.
pub open spec fn are_sorted_lines(s: Seq<char>, ls: Seq<Seq<char>>) -> bool {
    exists|l: Seq<Seq<char>>|
        {
            &&& #[trigger] text::ascending(l)
            &&& s == join(l, "\n"@)
            &&& forall|x: Seq<char>| #[trigger] l.contains(x) == ls.contains(x)
        }
}

/// A note that nobody changed, with front matter of plain entries in whatever order,
/// is read from its resolution as it was: its front matter and its body, and the
/// lines of its reference section, in order and each once.
pub proof fn law_unchanged_note_read(
    c: ConflictFile,
    p: ParsedZettel,
    d: Seq<Entry>,
    content: Seq<char>,
    q: Result<ParsedZettel, ZettelError>,
)
    requires
        c.ours@ == ancestor_text(c) && c.theirs@ == ancestor_text(c),
        default_resolution(c, content),
        is_reading(c.ours@, c.path@, Ok(p)),
        is_settled(c.ours@),
        is_front(d),
        are_flat(d),
        split_view(c.ours@)->Ok_0.frontmatter == plain_text(d),
        is_plain_meta(p@.meta),
        are_bare(ref_items(p@.reference)),
        is_reading(content, c.path@, q),
    ensures
        q matches Ok(y) && y@.meta == p@.meta && y@.body == p@.body && are_sorted_lines(
            y@.reference,
            ref_items(p@.reference),
        ),
{
    let z = split_view(c.ours@)->Ok_0;
    let m = p@.meta;
    law_unchanged_note_resolved(c, d, content);
    let r = choose|r: Seq<char>|
        #![trigger is_reference_merge(z.reference, z.reference, z.reference, r)]
        is_reference_merge(z.reference, z.reference, z.reference, r) && is_text(
            with_path_id(meta_from(d), c.path@),
            z.body,
            r,
            content,
        ) && inline_fields_of(z.body, r) is Ok;
    assert(m == with_path_id(meta_from(d), c.path@));
    law_reference_lines(z.reference, z.reference, z.reference, r);
    let items = ref_items(z.reference);
    let l = choose|l: Seq<Seq<char>>|
        {
            &&& #[trigger] text::ascending(l)
            &&& r == join(l, "\n"@)
            &&& forall|x: Seq<char>| #[trigger]
                l.contains(x) == line_kept(items, items, items, x)
        };
    assert forall|x: Seq<char>| #[trigger] l.contains(x) == items.contains(x) by {
        assert(l.contains(x) == line_kept(items, items, items, x));
    }
    lemma_front_lines(m);
    lemma_front_entries(m);
    if l.len() == 0 {
        assert(r =~= Seq::<char>::empty());
        lemma_no_items(c.ours@, items, l);
        law_split_front(c.ours@, front_lines(m));
    } else {
        assert forall|i: int| 0 <= i < l.len() implies items.contains(#[trigger] l[i]) by {
            assert(l.contains(l[i]));
        }
        law_split_references(c.ours@, front_lines(m), l);
    }
    assert(split_view(content)->Ok_0.frontmatter == plain_text(front_entries(m)));
}

/// A note without reference lines has no reference section.
proof fn lemma_no_items(content: Seq<char>, items: Seq<Seq<char>>, l: Seq<Seq<char>>)
    requires
        split_view(content) is Ok,
        items == ref_items(split_view(content)->Ok_0.reference),
        l.len() == 0,
        forall|x: Seq<char>| #[trigger] l.contains(x) == items.contains(x),
        is_settled(content),
    ensures
        split_view(content)->Ok_0.reference == Seq::<char>::empty(),
{
    if items.len() > 0 {
        assert(items.contains(items[0]));
        assert(l.contains(items[0]));
    }
    lemma_reference_filled(content);
    if split_view(content)->Ok_0.reference.len() == 0 {
        assert(split_view(content)->Ok_0.reference =~= Seq::<char>::empty());
    }
}

} // verus!
