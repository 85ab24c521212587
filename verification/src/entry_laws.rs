//! What the entries of a front matter are read as: they are found among its lines,
//! and their order does not matter.
use crate::error::ErrorView;
use crate::front_laws::{
    is_front, is_front_entry, is_name, is_sound, is_written, keys_differ, lemma_coloned, lemma_keys,
    lemma_meta_read, lemma_plain_fronts, lemma_plain_lines, lemma_plain_lines_cat, lemma_sound,
    lemma_unlines_join, lemma_word_chars, meta_from, plain_value, plain_words, value_read, Entry,
};
use crate::parser::{frontmatter_of, is_line, lemma_lines_join, lemma_lines_unlines, with_path_id};
use crate::text::{self, lines, trimmed};
use crate::textmap::{self, lookup};
use crate::types::{MetaView, ValueView};
use crate::written::{comment_start, dashed, given_twice, key_line, uncommented};
use crate::yaml::{
    are_plain, dashed_lines, entry_lines, field_holds, field_lines, fields_hold, holds, indentation,
    is_key, is_letter, is_plain, is_scalar, is_word_char, item_lines, parsed_fields, plain_lines,
    plain_text, writes, Plain, YamlView,
};
use vstd::prelude::*;

verus! {

broadcast use vstd::string::group_string_axioms;

// ---------------------------------------------------------------------------
// The lines of the entries
// ---------------------------------------------------------------------------
/// Whether a line does not begin with a key.
spec fn is_tail(x: Seq<char>) -> bool {
    x.len() > 0 && (x[0] == ' ' || x[0] == '-')
}

spec fn are_tails(ls: Seq<Seq<char>>) -> bool {
    forall|i: int| 0 <= i < ls.len() ==> is_tail(#[trigger] ls[i])
}

proof fn lemma_item_tails(l: Seq<ValueView>, by: Seq<char>)
    ensures
        are_tails(item_lines(l, by)),
    decreases l.len(),
{
    if l.len() > 0 {
        lemma_item_tails(l.drop_last(), by);
        reveal_strlit("- ");
        reveal_strlit("  ");
        let a = item_lines(l.drop_last(), by);
        let ls = item_lines(l, by);
        assert forall|i: int| 0 <= i < ls.len() implies is_tail(#[trigger] ls[i]) by {
            if i < a.len() {
                assert(ls[i] == a[i]);
            } else if let ValueView::Mapping(m) = l.last() {
                assert(ls[i] == dashed_lines(field_lines(m, by))[i - a.len()]);
            }
        }
    }
}

/// The first line of an entry begins with its key, and no other one does.
proof fn lemma_entry_tails(k: Seq<char>, p: Plain)
    ensures
        entry_lines(k, p).len() > 0,
        text::has_prefix(entry_lines(k, p)[0], k + ":"@),
        forall|i: int| 0 < i < entry_lines(k, p).len() ==> is_tail(#[trigger] entry_lines(k, p)[i]),
{
    let ls = entry_lines(k, p);
    reveal_strlit(": ");
    reveal_strlit(":");
    reveal_strlit(": \"");
    reveal_strlit("  ");
    reveal_strlit("  - ");
    assert(ls[0].take((k + ":"@).len() as int) =~= k + ":"@);
    if let Plain::Value(v, indent) = p {
        let by = indentation(indent);
        if let ValueView::List(l) = v {
            lemma_item_tails(l, by);
            let it = item_lines(l, by);
            assert forall|i: int| 0 < i < ls.len() implies is_tail(#[trigger] ls[i]) by {
                assert(ls[i] == by + it[i - 1]);
                assert(is_tail(it[i - 1]));
                if by.len() == 0 {
                    assert(ls[i] =~= it[i - 1]);
                }
            }
        }
    }
}

proof fn lemma_no_head(x: Seq<char>, k: Seq<char>)
    requires
        is_tail(x),
        is_key(k),
    ensures
        !text::has_prefix(x, k + ":"@),
{
    if text::has_prefix(x, k + ":"@) {
        assert(x.take((k + ":"@).len() as int)[0] == (k + ":"@)[0]);
        assert(k[0] == x[0]);
    }
}

/// A line begins with one key.
proof fn lemma_one_head(x: Seq<char>, k: Seq<char>, j: Seq<char>)
    requires
        is_key(k),
        is_key(j),
        text::has_prefix(x, k + ":"@),
        text::has_prefix(x, j + ":"@),
    ensures
        k == j,
{
    reveal_strlit(":");
    let a = k + ":"@;
    let b = j + ":"@;
    let n = k.len() as int;
    let m = j.len() as int;
    assert forall|i: int| 0 <= i < a.len() implies #[trigger] x[i] == a[i] by {
        assert(x.take(a.len() as int)[i] == a[i]);
    }
    assert forall|i: int| 0 <= i < b.len() implies #[trigger] x[i] == b[i] by {
        assert(x.take(b.len() as int)[i] == b[i]);
    }
    assert(a[n] == ':' && b[m] == ':');
    assert(x[n] == ':' && x[m] == ':');
    if n < m {
        assert(b[n] == j[n]);
        assert(is_word_char(j[n]));
    }
    if m < n {
        assert(a[m] == k[m]);
        assert(is_word_char(k[m]));
    }
    assert forall|i: int| 0 <= i < n implies k[i] == j[i] by {
        assert(x[i] == a[i] && x[i] == b[i]);
    }
    assert(k =~= j);
}

proof fn lemma_key_none(ls: Seq<Seq<char>>, k: Seq<char>, from: int)
    requires
        0 <= from,
        forall|i: int| from <= i < ls.len() ==> !text::has_prefix(#[trigger] ls[i], k + ":"@),
    ensures
        key_line(ls, k, from) is None,
    decreases ls.len() - from,
{
    if from < ls.len() {
        lemma_key_none(ls, k, from + 1);
    }
}

proof fn lemma_key_is(ls: Seq<Seq<char>>, k: Seq<char>, from: int, p: int)
    requires
        0 <= from <= p < ls.len(),
        forall|i: int| from <= i < p ==> !text::has_prefix(#[trigger] ls[i], k + ":"@),
        text::has_prefix(ls[p], k + ":"@),
    ensures
        key_line(ls, k, from) == Some(p),
    decreases p - from,
{
    if from < p {
        lemma_key_is(ls, k, from + 1, p);
    }
}

/// No line of other entries begins with a key.
proof fn lemma_lines_free(d: Seq<Entry>, k: Seq<char>)
    requires
        is_key(k),
        forall|j: int| 0 <= j < d.len() ==> is_key((#[trigger] d[j]).0) && d[j].0 != k,
    ensures
        forall|i: int|
            0 <= i < plain_lines(d).len() ==> !text::has_prefix(
                #[trigger] plain_lines(d)[i],
                k + ":"@,
            ),
    decreases d.len(),
{
    if d.len() > 0 {
        let e = d.drop_last();
        let n = d.len() - 1;
        assert forall|j: int| 0 <= j < e.len() implies is_key((#[trigger] e[j]).0) && e[j].0 != k by {
            assert(e[j] == d[j]);
        }
        lemma_lines_free(e, k);
        assert(is_key(d[n].0) && d[n].0 != k);
        lemma_entry_tails(d[n].0, d[n].1);
        let a = plain_lines(e);
        let b = entry_lines(d[n].0, d[n].1);
        let ls = plain_lines(d);
        assert forall|i: int| 0 <= i < ls.len() implies !text::has_prefix(
            #[trigger] ls[i],
            k + ":"@,
        ) by {
            if i < a.len() {
                assert(ls[i] == a[i]);
            } else {
                assert(ls[i] == b[i - a.len()]);
                if i == a.len() {
                    if text::has_prefix(ls[i], k + ":"@) {
                        lemma_one_head(ls[i], d[n].0, k);
                    }
                } else {
                    lemma_no_head(ls[i], k);
                }
            }
        }
    }
}

/// The lines of entries, with those of one of them.
proof fn lemma_around(d: Seq<Entry>, i: int)
    requires
        0 <= i < d.len(),
    ensures
        plain_lines(d) == plain_lines(d.take(i)) + entry_lines(d[i].0, d[i].1) + plain_lines(
            d.skip(i + 1),
        ),
{
    let a = d.take(i);
    let b = a.push(d[i]);
    let c = d.skip(i + 1);
    assert(d =~= b + c);
    lemma_plain_lines_cat(b, c);
    assert(b.drop_last() =~= a);
}

/// Where a key stands among the lines.
proof fn lemma_key_at(d: Seq<Entry>, i: int)
    requires
        are_plain(d),
        0 <= i < d.len(),
    ensures
        key_line(plain_lines(d), d[i].0, 0) == Some(plain_lines(d.take(i)).len() as int),
        key_line(plain_lines(d), d[i].0, 1 + plain_lines(d.take(i)).len() as int) is None,
{
    let k = d[i].0;
    let ls = plain_lines(d);
    let a = plain_lines(d.take(i));
    let b = entry_lines(k, d[i].1);
    let c = plain_lines(d.skip(i + 1));
    let p = a.len() as int;
    lemma_around(d, i);
    lemma_entry_tails(k, d[i].1);
    assert(is_key(k));
    let x = d.take(i);
    let y = d.skip(i + 1);
    assert forall|j: int| 0 <= j < x.len() implies is_key((#[trigger] x[j]).0) && x[j].0 != k by {
        assert(x[j] == d[j]);
        assert(d[j].0 != d[i].0);
    }
    assert forall|j: int| 0 <= j < y.len() implies is_key((#[trigger] y[j]).0) && y[j].0 != k by {
        assert(y[j] == d[j + i + 1]);
        assert(d[i].0 != d[j + i + 1].0);
    }
    lemma_lines_free(x, k);
    lemma_lines_free(y, k);
    assert forall|j: int| 0 <= j < p implies !text::has_prefix(#[trigger] ls[j], k + ":"@) by {
        assert(ls[j] == a[j]);
    }
    assert(ls[p] == b[0]);
    lemma_key_is(ls, k, 0, p);
    assert forall|j: int| p + 1 <= j < ls.len() implies !text::has_prefix(
        #[trigger] ls[j],
        k + ":"@,
    ) by {
        if j < p + b.len() {
            assert(ls[j] == b[j - p]);
            lemma_no_head(ls[j], k);
        } else {
            assert(ls[j] == c[j - p - b.len()]);
        }
    }
    lemma_key_none(ls, k, p + 1);
}

proof fn lemma_comment_none(s: Seq<char>, i: int)
    requires
        0 <= i <= s.len(),
        forall|j: int| 0 <= j < s.len() ==> #[trigger] s[j] != '#',
    ensures
        comment_start(s, i) == s.len(),
    decreases s.len() - i,
{
    if i < s.len() {
        assert(s[i] != '#');
        lemma_comment_none(s, i + 1);
    }
}

/// A text after a space is that text.
proof fn lemma_after_space(w: Seq<char>)
    requires
        w.len() > 0,
        !text::is_space(w[0]),
        !text::is_space(w.last()),
        forall|j: int| 0 <= j < w.len() ==> #[trigger] w[j] != '#',
    ensures
        uncommented(seq![' '] + w) == w,
        uncommented(w) == w,
        trimmed(w) == w,
{
    let s = seq![' '] + w;
    assert forall|j: int| 0 <= j < s.len() implies #[trigger] s[j] != '#' by {
        if j > 0 {
            assert(s[j] == w[j - 1]);
        }
    }
    lemma_comment_none(s, 0);
    lemma_comment_none(w, 0);
    assert(s.take(s.len() as int) =~= s);
    assert(w.take(w.len() as int) =~= w);
    assert(s.drop_first() =~= w);
    assert(text::trimmed_start(w) == w);
    assert(text::trimmed_start(s) == w);
    assert(text::trimmed_end(w) == w);
}

/// The items of a list on lines of their own.
proof fn lemma_dashed(ls: Seq<Seq<char>>, p: int, l: Seq<Seq<char>>)
    requires
        0 <= p,
        p + l.len() <= ls.len(),
        forall|j: int| 0 <= j < l.len() ==> is_scalar(#[trigger] l[j]) && ls[p + j] == "  - "@ + l[j],
        p + l.len() < ls.len() ==> ls[p + l.len()].len() > 0 && is_letter(ls[p + l.len()][0]),
    ensures
        dashed(ls, p) == l,
    decreases l.len(),
{
    reveal_strlit("- ");
    reveal_strlit("-");
    reveal_strlit("  - ");
    if l.len() == 0 {
        if p < ls.len() {
            let x = ls[p];
            assert(text::trimmed_start(x) == x);
            crate::front_laws::lemma_end_prefix(x);
            crate::front_laws::lemma_end_kept(x);
            let t = trimmed(x);
            assert(t[0] == x[0]);
            if text::has_prefix(t, "- "@) {
                assert(t.take(2)[0] == '-');
            }
        }
        assert(dashed(ls, p) =~= l);
    } else {
        let r = l.drop_first();
        let w = l[0];
        assert forall|j: int| 0 <= j < r.len() implies is_scalar(#[trigger] r[j]) && ls[p + 1 + j]
            == "  - "@ + r[j] by {
            assert(r[j] == l[j + 1]);
            assert(ls[p + (j + 1)] == "  - "@ + l[j + 1]);
        }
        lemma_dashed(ls, p + 1, r);
        assert(is_scalar(w));
        lemma_word_chars(w);
        lemma_after_space(w);
        let x = ls[p + 0];
        let y = x.drop_first();
        let z = y.drop_first();
        assert(x == "  - "@ + w);
        assert(x[0] == ' ' && y[0] == ' ' && z[0] == '-' && z[1] == ' ');
        assert(z =~= "- "@ + w);
        assert(text::trimmed_start(z) == z);
        assert(text::trimmed_start(y) == z);
        assert(text::trimmed_start(x) == z);
        assert(z.last() == w.last());
        assert(text::trimmed_end(z) == z);
        assert(z.take(2) =~= "- "@);
        assert(z.skip(2) =~= w);
        assert(l =~= seq![w] + r);
    }
}

/// An entry is found among the lines as it is written.
#[verifier::spinoff_prover]
proof fn lemma_written(d: Seq<Entry>, i: int)
    requires
        are_plain(d),
        0 <= i < d.len(),
    ensures
        is_written(plain_lines(d), d[i]),
{
    let k = d[i].0;
    let ls = plain_lines(d);
    let a = plain_lines(d.take(i));
    let p = a.len() as int;
    lemma_key_at(d, i);
    lemma_around(d, i);
    lemma_entry_tails(k, d[i].1);
    assert(is_key(k) && is_plain(d[i].1));
    reveal_strlit(":");
    reveal_strlit(": ");
    match d[i].1 {
        Plain::Scalar(w) => {
            if is_scalar(w) {
                lemma_word_chars(w);
            } else {
                lemma_coloned(w);
                lemma_coloned_bare(w);
            }
            assert(ls[p] == k + ": "@ + w);
            assert(ls[p].skip((k + ":"@).len() as int) =~= seq![' '] + w);
            lemma_after_space(w);
        },
        Plain::Items(l) => {
            let e = Seq::<char>::empty();
            assert(ls[p] == k + ":"@);
            assert(ls[p].skip((k + ":"@).len() as int) =~= e);
            lemma_comment_none(e, 0);
            assert(e.take(0) =~= e);
            assert(trimmed(e) == e);
            let y = d.skip(i + 1);
            let c = plain_lines(y);
            if c.len() > 0 {
                assert(y.len() > 0);
                assert forall|j: int| 0 <= j < y.len() implies is_key((#[trigger] y[j]).0)
                    && is_plain(y[j].1) by {
                    assert(y[j] == d[j + i + 1]);
                }
                lemma_plain_lines(y);
                assert(is_key(y[0].0));
            }
            assert forall|j: int| 0 <= j < l.len() implies is_scalar(#[trigger] l[j]) && ls[p + 1 + j]
                == "  - "@ + l[j] by {
                let b = entry_lines(k, d[i].1);
                assert(ls[p + 1 + j] == b[1 + j]);
            }
            if p + 1 + l.len() < ls.len() {
                assert(ls[p + 1 + l.len()] == c[0]);
            }
            lemma_dashed(ls, p + 1, l);
        },
        _ => {},
    }
}

proof fn lemma_coloned_bare(w: Seq<char>)
    requires
        crate::yaml::is_coloned(w),
    ensures
        forall|j: int| 0 <= j < w.len() ==> #[trigger] w[j] != '#',
{
    let (a, b) = choose|a: Seq<char>, b: Seq<char>| #[trigger]
        crate::yaml::coloned(a, b) == w && crate::yaml::is_word(a) && crate::yaml::is_word(b);
    reveal_strlit(":");
    let n = a.len() as int;
    assert forall|j: int| 0 <= j < w.len() implies #[trigger] w[j] != '#' by {
        if j < n {
            assert(w[j] == a[j]);
            assert(is_word_char(a[j]));
        } else if j > n {
            assert(w[j] == b[j - n - 1]);
            assert(is_word_char(b[j - n - 1]));
        }
    }
}

/// No key is given twice.
proof fn lemma_given_once(d: Seq<Entry>, k: Seq<char>)
    requires
        are_plain(d),
        is_key(k),
    ensures
        !given_twice(plain_lines(d), k),
{
    if exists|i: int| 0 <= i < d.len() && (#[trigger] d[i]).0 == k {
        let i = choose|i: int| 0 <= i < d.len() && (#[trigger] d[i]).0 == k;
        lemma_key_at(d, i);
    } else {
        assert forall|j: int| 0 <= j < d.len() implies is_key((#[trigger] d[j]).0) && d[j].0 != k by {}
        lemma_lines_free(d, k);
        lemma_key_none(plain_lines(d), k, 0);
    }
}

/// The lines of a text of plain entries.
proof fn lemma_lines_of(d: Seq<Entry>, yaml: Seq<char>)
    requires
        are_plain(d),
        writes(yaml, plain_text(d)),
    ensures
        lines(yaml) == plain_lines(d),
{
    let ls = plain_lines(d);
    lemma_plain_lines(d);
    assert forall|i: int| 0 <= i < ls.len() implies is_line(#[trigger] ls[i]) && ls[i].len() > 0 by {
        assert(is_sound(ls[i]));
        lemma_sound(ls[i]);
    }
    lemma_unlines_join(ls);
    lemma_lines_join(ls);
    lemma_lines_unlines(ls);
}

// ---------------------------------------------------------------------------
// Reading
// ---------------------------------------------------------------------------
/// The entry that a field holds.
spec fn entry_for(d: Seq<Entry>, e: (Seq<char>, YamlView)) -> Entry {
    let j = choose|j: int| 0 <= j < d.len() && (#[trigger] d[j]).0 == e.0 && holds(e.1, d[j].1);
    d[j]
}

/// What a front matter of plain entries is read as.
#[verifier::spinoff_prover]
pub(crate) proof fn lemma_plain_read(d: Seq<Entry>, yaml: Seq<char>, path: Seq<char>)
    requires
        is_front(d),
        writes(yaml, plain_text(d)),
        parsed_fields(yaml) matches Ok(f) && fields_hold(f, d) && text::ascending(textmap::keys(f)),
    ensures
        frontmatter_of(yaml, path) == Ok::<MetaView, ErrorView>(with_path_id(meta_from(d), path)),
{
    let f = parsed_fields(yaml)->Ok_0;
    let ls = plain_lines(d);
    let e = Seq::new(f.len(), |i: int| entry_for(d, f[i]));
    lemma_lines_of(d, yaml);
    lemma_plain_fronts(yaml);
    lemma_keys();
    lemma_given_once(d, "id"@);
    lemma_given_once(d, "title"@);
    lemma_given_once(d, "date"@);
    lemma_given_once(d, "type"@);
    lemma_given_once(d, "tags"@);
    assert forall|i: int| 0 <= i < f.len() implies (#[trigger] f[i]).0 == e[i].0 && holds(
        f[i].1,
        e[i].1,
    ) && is_front_entry(e[i]) && is_written(ls, e[i]) && d.contains(e[i]) by {
        assert(field_holds(f[i], d));
        let j = choose|j: int|
            0 <= j < d.len() && (#[trigger] d[j]).0 == f[i].0 && holds(f[i].1, d[j].1);
        lemma_written(d, j);
        assert(is_front_entry(d[j]));
    }
    lemma_meta_read(ls, e, f);
    let kf = textmap::keys(f);
    assert forall|i: int, j: int| 0 <= i < j < e.len() implies (#[trigger] e[i]).0 != (
    #[trigger] e[j]).0 by {
        assert(f[i].0 == e[i].0 && f[j].0 == e[j].0);
        assert(text::lt(kf[i], kf[j]));
        text::lemma_lt_irreflexive(kf[j]);
    }
    assert(say_no_more(e, d) && say_no_more(d, e)) by {
        reveal(say_no_more);
        assert forall|i: int| 0 <= i < e.len() implies has_entry(d, #[trigger] e[i]) by {
            assert(f[i].0 == e[i].0);
            let j = d.index_of(e[i]);
            assert(d[j].0 == e[i].0);
        }
        assert forall|j: int| 0 <= j < d.len() implies has_entry(e, #[trigger] d[j]) by {
            assert(kf.contains(d[j].0));
            let i = kf.index_of(d[j].0);
            assert(f[i].0 == e[i].0);
            let n = d.index_of(e[i]);
            assert(d[n].0 == d[j].0);
            if n < j {
                assert(d[n].0 != d[j].0);
            } else if j < n {
                assert(d[j].0 != d[n].0);
            }
            assert(e[i].0 == d[j].0 && plain_value(e[i].1) == plain_value(d[j].1));
        }
    }
    lemma_same_meta(e, d);
}

// ---------------------------------------------------------------------------
// The order of the entries
// ---------------------------------------------------------------------------
pub open spec fn has_key_in(x: Seq<Entry>, k: Seq<char>) -> bool {
    exists|i: int| 0 <= i < x.len() && (#[trigger] x[i]).0 == k
}

/// What an entry says of a front matter.
pub open spec fn tells(m: MetaView, e: Entry) -> bool {
    let v = plain_value(e.1);
    if e.0 == "id"@ {
        m.id == Some(v->Text_0)
    } else if e.0 == "title"@ {
        m.title == Some(v->Text_0)
    } else if e.0 == "date"@ {
        m.date == Some(v->Text_0)
    } else if e.0 == "type"@ {
        m.zettel_type == Some(v->Text_0)
    } else if e.0 == "tags"@ {
        m.tags == plain_words(e.1)
    } else {
        lookup(m.extra, e.0) == Some(value_read(e.1))
    }
}

/// What a front matter has of a key that no entry has.
pub open spec fn lacks(m: MetaView, x: Seq<Entry>) -> bool {
    &&& !has_key_in(x, "id"@) ==> m.id is None
    &&& !has_key_in(x, "title"@) ==> m.title is None
    &&& !has_key_in(x, "date"@) ==> m.date is None
    &&& !has_key_in(x, "type"@) ==> m.zettel_type is None
    &&& !has_key_in(x, "tags"@) ==> m.tags == Seq::<Seq<char>>::empty()
    &&& forall|k: Seq<char>| #[trigger]
        lookup(m.extra, k) is Some ==> has_key_in(x, k) && is_name(k)
}

pub(crate) proof fn lemma_meta_told(x: Seq<Entry>)
    requires
        keys_differ(x),
    ensures
        text::ascending(textmap::keys(meta_from(x).extra)),
        forall|i: int| 0 <= i < x.len() ==> tells(meta_from(x), #[trigger] x[i]),
        lacks(meta_from(x), x),
    decreases x.len(),
{
    let m = meta_from(x);
    if x.len() > 0 {
        let d = x.drop_last();
        let n = x.len() - 1;
        let o = meta_from(d);
        let e = x.last();
        assert forall|i: int, j: int| 0 <= i < j < d.len() implies (#[trigger] d[i]).0 != (
        #[trigger] d[j]).0 by {
            assert(d[i] == x[i] && d[j] == x[j]);
        }
        lemma_meta_told(d);
        lemma_keys();
        textmap::law_put_sorted(o.extra, e.0, value_read(e.1));
        textmap::lemma_lookup_put(o.extra, e.0, value_read(e.1));
        assert forall|i: int| 0 <= i < x.len() implies tells(m, #[trigger] x[i]) by {
            if i < n {
                assert(d[i] == x[i]);
                assert(tells(o, d[i]));
                assert(x[i].0 != x[n].0);
            }
        }
        assert forall|k: Seq<char>| #[trigger] has_key_in(d, k) implies has_key_in(x, k) by {
            let i = choose|i: int| 0 <= i < d.len() && (#[trigger] d[i]).0 == k;
            assert(x[i].0 == k);
        }
        assert(x[n].0 == e.0);
        assert(has_key_in(x, e.0));
        assert forall|k: Seq<char>| #[trigger] lookup(m.extra, k) is Some implies has_key_in(x, k)
            && is_name(k) by {
            if lookup(o.extra, k) is Some {
                assert(has_key_in(d, k));
            }
        }
    } else {
        assert(m.extra =~= Seq::<(Seq<char>, ValueView)>::empty());
        assert(m.tags =~= Seq::<Seq<char>>::empty());
        assert forall|k: Seq<char>| #[trigger] lookup(m.extra, k) is Some implies has_key_in(x, k)
            && is_name(k) by {}
    }
}

pub open spec fn has_entry(b: Seq<Entry>, e: Entry) -> bool {
    exists|j: int|
        0 <= j < b.len() && (#[trigger] b[j]).0 == e.0 && plain_value(b[j].1) == plain_value(e.1)
}

/// Whether the entries of one sequence are in another.
#[verifier::opaque]
pub open spec fn say_no_more(a: Seq<Entry>, b: Seq<Entry>) -> bool {
    forall|i: int| 0 <= i < a.len() ==> has_entry(b, #[trigger] a[i])
}

pub(crate) proof fn lemma_key_in(a: Seq<Entry>, b: Seq<Entry>, k: Seq<char>)
    requires
        say_no_more(a, b),
        keys_differ(b),
        has_key_in(a, k),
    ensures
        exists|i: int, j: int|
            0 <= i < a.len() && 0 <= j < b.len() && (#[trigger] a[i]).0 == k && (#[trigger] b[j]).0
                == k && plain_value(a[i].1) == plain_value(b[j].1),
{
    reveal(say_no_more);
    let i = choose|i: int| 0 <= i < a.len() && (#[trigger] a[i]).0 == k;
    assert(has_entry(b, a[i]));
    let j = choose|j: int|
        0 <= j < b.len() && (#[trigger] b[j]).0 == a[i].0 && plain_value(b[j].1) == plain_value(
            a[i].1,
        );
    assert(a[i].0 == k && b[j].0 == k);
}

/// The same at one key.
pub(crate) proof fn lemma_told_alike(a: Seq<Entry>, b: Seq<Entry>, k: Seq<char>)
    requires
        keys_differ(a),
        keys_differ(b),
        say_no_more(a, b),
        say_no_more(b, a),
    ensures
        has_key_in(a, k) == has_key_in(b, k),
        has_key_in(a, k) ==> exists|i: int, j: int|
            0 <= i < a.len() && 0 <= j < b.len() && (#[trigger] a[i]).0 == k && (#[trigger] b[j]).0
                == k && plain_value(a[i].1) == plain_value(b[j].1),
{
    if has_key_in(a, k) {
        lemma_key_in(a, b, k);
    }
    if has_key_in(b, k) {
        lemma_key_in(b, a, k);
        let (i, j) = choose|i: int, j: int|
            0 <= i < b.len() && 0 <= j < a.len() && (#[trigger] b[i]).0 == k && (#[trigger] a[j]).0
                == k && plain_value(b[i].1) == plain_value(a[j].1);
        assert(a[j].0 == k);
    }
}

/// What two front matters say of a key.
pub open spec fn same_at_key(x: MetaView, y: MetaView, k: Seq<char>) -> bool {
    if k == "id"@ {
        x.id == y.id
    } else if k == "title"@ {
        x.title == y.title
    } else if k == "date"@ {
        x.date == y.date
    } else if k == "type"@ {
        x.zettel_type == y.zettel_type
    } else if k == "tags"@ {
        x.tags == y.tags
    } else {
        lookup(x.extra, k) == lookup(y.extra, k)
    }
}

#[verifier::spinoff_prover]
pub(crate) proof fn lemma_same_at_key(a: Seq<Entry>, b: Seq<Entry>, k: Seq<char>)
    requires
        keys_differ(a),
        keys_differ(b),
        say_no_more(a, b),
        say_no_more(b, a),
    ensures
        same_at_key(meta_from(a), meta_from(b), k),
{
    let x = meta_from(a);
    let y = meta_from(b);
    lemma_meta_told(a);
    lemma_meta_told(b);
    lemma_told_alike(a, b, k);
    if has_key_in(a, k) {
        let (i, j) = choose|i: int, j: int|
            0 <= i < a.len() && 0 <= j < b.len() && (#[trigger] a[i]).0 == k && (
            #[trigger] b[j]).0 == k && plain_value(a[i].1) == plain_value(b[j].1);
        assert(tells(x, a[i]) && tells(y, b[j]));
    } else {
        assert(lacks(x, a) && lacks(y, b));
        if lookup(x.extra, k) is Some {
            assert(has_key_in(a, k));
        }
        if lookup(y.extra, k) is Some {
            assert(has_key_in(b, k));
        }
    }
}

/// The order of the entries does not matter.
#[verifier::spinoff_prover]
pub(crate) proof fn lemma_same_meta(a: Seq<Entry>, b: Seq<Entry>)
    requires
        keys_differ(a),
        keys_differ(b),
        say_no_more(a, b),
        say_no_more(b, a),
    ensures
        meta_from(a) == meta_from(b),
{
    let x = meta_from(a);
    let y = meta_from(b);
    lemma_same_at_key(a, b, "id"@);
    lemma_same_at_key(a, b, "title"@);
    lemma_same_at_key(a, b, "date"@);
    lemma_same_at_key(a, b, "type"@);
    lemma_same_at_key(a, b, "tags"@);
    lemma_extra_told(a);
    lemma_extra_told(b);
    lemma_keys();
    assert forall|k: Seq<char>| #[trigger] lookup(x.extra, k) == lookup(y.extra, k) by {
        lemma_same_at_key(a, b, k);
    }
    textmap::lemma_same_entries(x.extra, y.extra);
}

pub(crate) proof fn lemma_extra_told(x: Seq<Entry>)
    requires
        keys_differ(x),
    ensures
        text::ascending(textmap::keys(meta_from(x).extra)),
        forall|k: Seq<char>| #[trigger]
            lookup(meta_from(x).extra, k) is Some ==> is_name(k),
{
    lemma_meta_told(x);
}

} // verus!
