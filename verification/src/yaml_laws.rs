//! What values and trees hold, and what the lines of a front matter write.
use crate::text::{self, has_prefix, trimmed};
use crate::textmap::{self, keys, lookup};
use crate::types::{pairs_view, value_view, values_view, Value, ValueView};
use crate::written::{comment_start, dashed, given_twice, is_comment, key_line, uncommented};
use crate::yaml::{
    entries_of, fields_of, list_view, mapping_view, value_of, values_of, yaml_of, yaml_view,
    yamls_of, Yaml, YamlView,
};
use vstd::prelude::*;

verus! {

// ---------------------------------------------------------------------------
// Values and trees
// ---------------------------------------------------------------------------
/// A list holds a value for each of its items, in their order.
pub proof fn law_values_read(l: Seq<YamlView>)
    ensures
        values_of(l).len() == l.len(),
        forall|i: int| 0 <= i < l.len() ==> #[trigger] values_of(l)[i] == value_of(l[i]),
    decreases l.len(),
{
    if l.len() > 0 {
        let d = l.drop_last();
        law_values_read(d);
        assert forall|i: int| 0 <= i < l.len() implies #[trigger] values_of(l)[i] == value_of(
            l[i],
        ) by {
            if i < d.len() {
                assert(values_of(l)[i] == values_of(d)[i]);
            }
        }
    }
}

/// A list is written with each of its values, in their order.
pub proof fn law_values_written(l: Seq<ValueView>)
    ensures
        yamls_of(l).len() == l.len(),
        forall|i: int| 0 <= i < l.len() ==> #[trigger] yamls_of(l)[i] == yaml_of(l[i]),
    decreases l.len(),
{
    if l.len() > 0 {
        let d = l.drop_last();
        law_values_written(d);
        assert forall|i: int| 0 <= i < l.len() implies #[trigger] yamls_of(l)[i] == yaml_of(
            l[i],
        ) by {
            if i < d.len() {
                assert(yamls_of(l)[i] == yamls_of(d)[i]);
            }
        }
    }
}

/// A mapping is written with each of its fields, in their order and under their names.
pub proof fn law_fields_written(m: Seq<(Seq<char>, ValueView)>)
    ensures
        entries_of(m).len() == m.len(),
        forall|i: int|
            0 <= i < m.len() ==> #[trigger] entries_of(m)[i] == (
                YamlView::Text(m[i].0),
                yaml_of(m[i].1),
            ),
    decreases m.len(),
{
    if m.len() > 0 {
        let d = m.drop_last();
        law_fields_written(d);
        assert forall|i: int| 0 <= i < m.len() implies #[trigger] entries_of(m)[i] == (
            YamlView::Text(m[i].0),
            yaml_of(m[i].1),
        ) by {
            if i < d.len() {
                assert(entries_of(m)[i] == entries_of(d)[i]);
            }
        }
    }
}

/// A mapping holds under each name the value of the last entry with that name; entries whose
/// key is no text do not count.
pub proof fn law_fields_read(m: Seq<(YamlView, YamlView)>, k: Seq<char>)
    ensures
        text::ascending(keys(fields_of(m))),
        match lookup(fields_of(m), k) {
            Some(v) => exists|i: int|
                0 <= i < m.len() && (#[trigger] m[i]).0 == YamlView::Text(k) && v == value_of(
                    m[i].1,
                ) && forall|j: int| i < j < m.len() ==> (#[trigger] m[j]).0 != YamlView::Text(k),
            None => forall|j: int|
                0 <= j < m.len() ==> (#[trigger] m[j]).0 != YamlView::Text(k),
        },
    decreases m.len(),
{
    if m.len() == 0 {
        assert(keys(fields_of(m)) =~= Seq::empty());
    } else {
        let d = m.drop_last();
        let n = m.len() - 1;
        law_fields_read(d, k);
        assert forall|j: int| 0 <= j < n implies #[trigger] m[j] == d[j] by {}
        assert(m[n] == m.last());
        if let YamlView::Text(x) = m.last().0 {
            let v = value_of(m.last().1);
            textmap::law_put_sorted(fields_of(d), x, v);
            textmap::lemma_lookup_put(fields_of(d), x, v);
        }
        if m.last().0 != YamlView::Text(k) {
            assert(lookup(fields_of(m), k) == lookup(fields_of(d), k));
            if let Some(w) = lookup(fields_of(d), k) {
                let i = choose|i: int|
                    0 <= i < d.len() && (#[trigger] d[i]).0 == YamlView::Text(k) && w == value_of(
                        d[i].1,
                    ) && forall|j: int|
                        i < j < d.len() ==> (#[trigger] d[j]).0 != YamlView::Text(k);
                assert(m[i] == d[i]);
            }
        }
    }
}

/// What a list and a mapping hold is what their items hold, one by one.
pub proof fn law_value_views(l: Seq<Value>, m: Seq<(String, Value)>)
    ensures
        values_view(l).len() == l.len(),
        forall|i: int| 0 <= i < l.len() ==> #[trigger] values_view(l)[i] == value_view(l[i]),
        pairs_view(m).len() == m.len(),
        forall|i: int|
            0 <= i < m.len() ==> #[trigger] pairs_view(m)[i] == (m[i].0@, value_view(m[i].1)),
    decreases l.len() + m.len(),
{
    if l.len() > 0 {
        let d = l.drop_last();
        law_value_views(d, m);
        assert forall|i: int| 0 <= i < l.len() implies #[trigger] values_view(l)[i] == value_view(
            l[i],
        ) by {
            if i < d.len() {
                assert(values_view(l)[i] == values_view(d)[i]);
            }
        }
    } else if m.len() > 0 {
        let d = m.drop_last();
        law_value_views(l, d);
        assert forall|i: int| 0 <= i < m.len() implies #[trigger] pairs_view(m)[i] == (
            m[i].0@,
            value_view(m[i].1),
        ) by {
            if i < d.len() {
                assert(pairs_view(m)[i] == pairs_view(d)[i]);
            }
        }
    }
}

/// The same of trees.
pub proof fn law_tree_views(l: Seq<Yaml>, m: Seq<(Yaml, Yaml)>)
    ensures
        list_view(l).len() == l.len(),
        forall|i: int| 0 <= i < l.len() ==> #[trigger] list_view(l)[i] == yaml_view(l[i]),
        mapping_view(m).len() == m.len(),
        forall|i: int|
            0 <= i < m.len() ==> #[trigger] mapping_view(m)[i] == (
                yaml_view(m[i].0),
                yaml_view(m[i].1),
            ),
    decreases l.len() + m.len(),
{
    if l.len() > 0 {
        let d = l.drop_last();
        law_tree_views(d, m);
        assert forall|i: int| 0 <= i < l.len() implies #[trigger] list_view(l)[i] == yaml_view(
            l[i],
        ) by {
            if i < d.len() {
                assert(list_view(l)[i] == list_view(d)[i]);
            }
        }
    } else if m.len() > 0 {
        let d = m.drop_last();
        law_tree_views(l, d);
        assert forall|i: int| 0 <= i < m.len() implies #[trigger] mapping_view(m)[i] == (
            yaml_view(m[i].0),
            yaml_view(m[i].1),
        ) by {
            if i < d.len() {
                assert(mapping_view(m)[i] == mapping_view(d)[i]);
            }
        }
    }
}

// ---------------------------------------------------------------------------
// Lines
// ---------------------------------------------------------------------------
proof fn lemma_comment_start(s: Seq<char>, from: int)
    requires
        0 <= from <= s.len(),
    ensures
        from <= comment_start(s, from) <= s.len(),
        forall|j: int| from <= j < comment_start(s, from) ==> !#[trigger] is_comment(s, j),
        comment_start(s, from) < s.len() ==> is_comment(s, comment_start(s, from)),
    decreases s.len() - from,
{
    if from < s.len() && !is_comment(s, from) {
        lemma_comment_start(s, from + 1);
    }
}

/// A value is what stands before a comment, without white space round it. A comment begins with
/// a hash at the start or behind a blank.
pub proof fn law_uncommented(s: Seq<char>, more: Seq<char>)
    requires
        forall|i: int|
            0 <= i < s.len() && #[trigger] s[i] == '#' ==> i > 0 && s[i - 1] != ' ' && s[i - 1]
                != '\t',
    ensures
        uncommented(s) == trimmed(s),
        uncommented(s + " #"@ + more) == trimmed(s + " "@),
{
    reveal_strlit(" #");
    reveal_strlit(" ");
    lemma_comment_start(s, 0);
    let k = comment_start(s, 0);
    if k < s.len() {
        assert(s[k] == '#');
    }
    assert(s.take(s.len() as int) =~= s);
    let t = s + " #"@ + more;
    lemma_comment_start(t, 0);
    let j = comment_start(t, 0);
    let n = s.len() as int;
    assert(t[n] == ' ' && t[n + 1] == '#');
    assert(is_comment(t, n + 1));
    if j < n {
        assert(t[j] == s[j]);
        if j > 0 {
            assert(t[j - 1] == s[j - 1]);
        }
    }
    assert(j == n + 1);
    assert(t.take(j) =~= s + " "@);
}

/// The line of a key is the first that begins with it and a colon.
pub proof fn law_key_line(ls: Seq<Seq<char>>, key: Seq<char>, from: int)
    requires
        0 <= from,
    ensures
        match key_line(ls, key, from) {
            Some(k) => from <= k < ls.len() && has_prefix(ls[k], key + ":"@) && forall|j: int|
                from <= j < k ==> !has_prefix(#[trigger] ls[j], key + ":"@),
            None => forall|j: int|
                from <= j < ls.len() ==> !has_prefix(#[trigger] ls[j], key + ":"@),
        },
    decreases ls.len() - from,
{
    if from < ls.len() && !has_prefix(ls[from], key + ":"@) {
        law_key_line(ls, key, from + 1);
    }
}

/// A key is given twice just where two lines begin with it.
pub proof fn law_given_twice(ls: Seq<Seq<char>>, key: Seq<char>)
    ensures
        given_twice(ls, key) == exists|i: int, j: int|
            0 <= i < j < ls.len() && has_prefix(#[trigger] ls[i], key + ":"@) && has_prefix(
                #[trigger] ls[j],
                key + ":"@,
            ),
{
    law_key_line(ls, key, 0);
    if let Some(k) = key_line(ls, key, 0) {
        law_key_line(ls, key, k + 1);
        if let Some(m) = key_line(ls, key, k + 1) {
            assert(has_prefix(ls[k], key + ":"@) && has_prefix(ls[m], key + ":"@));
        }
    }
}

/// The items under a key are those of the lines that begin with a hyphen, one for each, up to
/// the first line that does not.
pub proof fn law_dashed_items(ls: Seq<Seq<char>>, from: int, to: int)
    requires
        0 <= from <= to <= ls.len(),
        forall|i: int| from <= i < to ==> has_prefix(trimmed(#[trigger] ls[i]), "- "@),
        to < ls.len() ==> trimmed(ls[to]).len() > 0 && trimmed(ls[to])[0] != '#' && trimmed(
            ls[to],
        )[0] != '-',
    ensures
        dashed(ls, from).len() == to - from,
        forall|i: int|
            from <= i < to ==> dashed(ls, from)[i - from] == uncommented(
                trimmed(#[trigger] ls[i]).skip(2),
            ),
    decreases to - from,
{
    reveal_strlit("- ");
    reveal_strlit("-");
    if from == to {
        if to < ls.len() {
            let t = trimmed(ls[to]);
            if has_prefix(t, "- "@) {
                assert(t.take(2)[0] == '-');
            }
            assert(t != "-"@);
        }
    } else {
        law_dashed_items(ls, from + 1, to);
        let r = dashed(ls, from + 1);
        let all = dashed(ls, from);
        assert(all == seq![uncommented(trimmed(ls[from]).skip(2))] + r);
        assert forall|i: int| from <= i < to implies all[i - from] == uncommented(
            trimmed(#[trigger] ls[i]).skip(2),
        ) by {
            if i > from {
                assert(all[i - from] == r[i - from - 1]);
            }
        }
    }
}

} // verus!
