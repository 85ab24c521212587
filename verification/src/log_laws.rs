//! What the entries of a log are, and what merging logs keeps of them.
use crate::crdt_resolver::{
    by_date, dedup_key, entry_date, first_line, inserted_entry, log_entries, log_state,
    merged_entries, merged_log, sort_date, unique_entries,
};
use crate::row_laws::lemma_no_feed;
use crate::text::{
    self, has_prefix, is_blank, is_space, join, lines, split, trimmed_end, trimmed_start,
};
use vstd::prelude::*;

verus! {

/// The lines that are not blank, without white space at their ends.
pub open spec fn said(ls: Seq<Seq<char>>) -> Seq<Seq<char>>
    decreases ls.len(),
{
    if ls.len() == 0 {
        Seq::empty()
    } else if is_blank(ls.last()) {
        said(ls.drop_last())
    } else {
        said(ls.drop_last()).push(trimmed_end(ls.last()))
    }
}

/// Whether an entry of a log begins with a line.
pub open spec fn is_mark(l: Seq<char>) -> bool {
    has_prefix(l, "- ["@)
}

/// Whether an entry is one: it begins as one, and none of its further lines does.
pub open spec fn is_one_entry(e: Seq<char>) -> bool {
    &&& is_mark(e)
    &&& forall|j: int| 0 < j < split(e, '\n').len() ==> !is_mark(#[trigger] split(e, '\n')[j])
}

// ---------------------------------------------------------------------------
// Parts of a text
// ---------------------------------------------------------------------------
pub(crate) proof fn lemma_split_one(s: Seq<char>, c: char)
    requires
        forall|i: int| 0 <= i < s.len() ==> s[i] != c,
    ensures
        split(s, c) == seq![s],
{
    text::lemma_until_is(s, c, s.len() as int);
}

pub(crate) proof fn lemma_split_cat(a: Seq<char>, c: char, b: Seq<char>)
    ensures
        split(a + seq![c] + b, c) == split(a, c) + split(b, c),
    decreases a.len(),
{
    let s = a + seq![c] + b;
    let k = text::until(a, c);
    text::lemma_until(a, c);
    if k == a.len() {
        assert forall|i: int| 0 <= i < k implies s[i] != c by {
            assert(s[i] == a[i]);
        }
        assert(s[k] == c);
        text::lemma_until_is(s, c, k);
        assert(s.take(k) =~= a);
        assert(s.skip(k + 1) =~= b);
    } else {
        assert forall|i: int| 0 <= i < k implies s[i] != c by {
            assert(s[i] == a[i]);
        }
        assert(s[k] == a[k]);
        text::lemma_until_is(s, c, k);
        assert(s.take(k) =~= a.take(k));
        assert(s.skip(k + 1) =~= a.skip(k + 1) + seq![c] + b);
        lemma_split_cat(a.skip(k + 1), c, b);
        assert(split(s, c) =~= split(a, c) + split(b, c));
    }
}

/// A character more is one of the last part.
pub(crate) proof fn lemma_split_push(s: Seq<char>, c: char, x: char)
    requires
        x != c,
    ensures
        split(s, c).len() > 0,
        split(s.push(x), c) == split(s, c).drop_last().push(split(s, c).last().push(x)),
    decreases s.len(),
{
    let t = s.push(x);
    let k = text::until(s, c);
    text::lemma_until(s, c);
    if k == s.len() {
        assert forall|i: int| 0 <= i < t.len() implies t[i] != c by {
            if i < s.len() {
                assert(t[i] == s[i]);
            }
        }
        lemma_split_one(t, c);
        lemma_split_one(s, c);
        assert(seq![s].drop_last().push(t) =~= seq![t]);
    } else {
        assert forall|i: int| 0 <= i < k implies t[i] != c by {
            assert(t[i] == s[i]);
        }
        assert(t[k] == s[k]);
        text::lemma_until_is(t, c, k);
        let r = s.skip(k + 1);
        assert(t.take(k) =~= s.take(k));
        assert(t.skip(k + 1) =~= r.push(x));
        lemma_split_push(r, c, x);
        assert(split(t, c) =~= split(s, c).drop_last().push(split(s, c).last().push(x)));
    }
}

// ---------------------------------------------------------------------------
// Blanks
// ---------------------------------------------------------------------------
pub(crate) proof fn lemma_blank(s: Seq<char>)
    ensures
        is_blank(s) == (forall|i: int| 0 <= i < s.len() ==> is_space(#[trigger] s[i])),
    decreases s.len(),
{
    if s.len() == 0 {
    } else if is_space(s[0]) {
        let d = s.drop_first();
        lemma_blank(d);
        if forall|i: int| 0 <= i < d.len() ==> is_space(#[trigger] d[i]) {
            assert forall|i: int| 0 <= i < s.len() implies is_space(#[trigger] s[i]) by {
                if i > 0 {
                    assert(d[i - 1] == s[i]);
                }
            }
        }
        if forall|i: int| 0 <= i < s.len() ==> is_space(#[trigger] s[i]) {
            assert forall|i: int| 0 <= i < d.len() implies is_space(#[trigger] d[i]) by {
                assert(s[i + 1] == d[i]);
            }
        }
    } else {
        assert(trimmed_start(s) == s);
        crate::front_laws::lemma_end_kept(s);
        assert(!is_space(s[0]));
    }
}

proof fn lemma_blank_push(s: Seq<char>, x: char)
    requires
        is_space(x),
    ensures
        is_blank(s.push(x)) == is_blank(s),
        trimmed_end(s.push(x)) == trimmed_end(s),
{
    let t = s.push(x);
    lemma_blank(s);
    lemma_blank(t);
    assert(t.drop_last() =~= s);
    if is_blank(t) {
        assert forall|i: int| 0 <= i < s.len() implies is_space(#[trigger] s[i]) by {
            assert(t[i] == s[i]);
        }
    }
    if is_blank(s) {
        assert forall|i: int| 0 <= i < t.len() implies is_space(#[trigger] t[i]) by {
            if i < s.len() {
                assert(t[i] == s[i]);
            }
        }
    }
}

proof fn lemma_mark_not_blank(l: Seq<char>)
    requires
        is_mark(l),
    ensures
        !is_blank(l),
        l.len() >= 3,
        l[0] == '-' && l[1] == ' ' && l[2] == '[',
{
    reveal_strlit("- [");
    assert(l.take(3)[0] == '-' && l.take(3)[1] == ' ' && l.take(3)[2] == '[');
    lemma_blank(l);
    assert(!is_space(l[0]));
}

proof fn lemma_said_cat(a: Seq<Seq<char>>, b: Seq<Seq<char>>)
    ensures
        said(a + b) == said(a) + said(b),
    decreases b.len(),
{
    if b.len() == 0 {
        assert(a + b =~= a);
        assert(said(a) + said(b) =~= said(a));
    } else {
        lemma_said_cat(a, b.drop_last());
        assert((a + b).drop_last() =~= a + b.drop_last());
        assert(said(a + b) =~= said(a) + said(b));
    }
}

proof fn lemma_said_empty()
    ensures
        said(seq![Seq::<char>::empty()]) == Seq::<Seq<char>>::empty(),
        said(split(Seq::<char>::empty(), '\n')) == Seq::<Seq<char>>::empty(),
{
    let e = Seq::<char>::empty();
    lemma_blank(e);
    let none = Seq::<Seq<char>>::empty();
    assert(seq![e].drop_last() =~= none);
    assert(seq![e].last() == e);
    assert(said(none) == none);
    assert(said(seq![e]) == said(seq![e].drop_last()));
    lemma_split_one(e, '\n');
}

/// White space at the end of a text says nothing.
proof fn lemma_said_trimmed(x: Seq<char>)
    ensures
        said(split(trimmed_end(x), '\n')) == said(split(x, '\n')),
    decreases x.len(),
{
    if x.len() > 0 && is_space(x.last()) {
        let y = x.drop_last();
        let c = x.last();
        let e = Seq::<char>::empty();
        lemma_said_trimmed(y);
        assert(x =~= y.push(c));
        if c == '\n' {
            assert(x =~= y + seq!['\n'] + e);
            lemma_split_cat(y, '\n', e);
            lemma_said_cat(split(y, '\n'), split(e, '\n'));
            lemma_said_empty();
            assert(said(split(y, '\n')) + Seq::<Seq<char>>::empty() =~= said(split(y, '\n')));
        } else {
            lemma_split_push(y, '\n', c);
            let p = split(y, '\n');
            let q = split(x, '\n');
            lemma_blank_push(p.last(), c);
            assert(q.drop_last() =~= p.drop_last());
        }
    }
}

/// Nor does it make an entry of a line that is none.
proof fn lemma_entry_trimmed(x: Seq<char>)
    requires
        is_one_entry(x),
    ensures
        is_one_entry(trimmed_end(x)),
    decreases x.len(),
{
    if x.len() > 0 && is_space(x.last()) {
        let y = x.drop_last();
        let c = x.last();
        let e = Seq::<char>::empty();
        assert(x =~= y.push(c));
        lemma_mark_not_blank(x);
        assert(!is_space(x[2]));
        assert(y.len() >= 3);
        assert(y.take(3) =~= x.take(3));
        reveal_strlit("- [");
        let p = split(y, '\n');
        let q = split(x, '\n');
        if c == '\n' {
            assert(x =~= y + seq!['\n'] + e);
            lemma_split_cat(y, '\n', e);
            assert forall|j: int| 0 < j < p.len() implies !is_mark(#[trigger] p[j]) by {
                assert(q[j] == p[j]);
            }
        } else {
            lemma_split_push(y, '\n', c);
            assert forall|j: int| 0 < j < p.len() implies !is_mark(#[trigger] p[j]) by {
                if j < p.len() - 1 {
                    assert(q[j] == p[j]);
                } else {
                    assert(q[j] == p[j].push(c));
                    if is_mark(p[j]) {
                        assert(q[j].take(3) =~= p[j].take(3));
                    }
                }
            }
        }
        lemma_entry_trimmed(y);
    }
}

// ---------------------------------------------------------------------------
// Entries
// ---------------------------------------------------------------------------
spec fn said_by_all(es: Seq<Seq<char>>) -> Seq<Seq<char>>
    decreases es.len(),
{
    if es.len() == 0 {
        Seq::empty()
    } else {
        said_by_all(es.drop_last()) + said(split(es.last(), '\n'))
    }
}

proof fn lemma_said_joined(es: Seq<Seq<char>>)
    ensures
        said(split(join(es, "\n"@), '\n')) == said_by_all(es),
    decreases es.len(),
{
    let d = es.drop_last();
    if es.len() == 0 {
        lemma_said_empty();
    } else if es.len() == 1 {
        assert(d =~= Seq::<Seq<char>>::empty());
        assert(said_by_all(d) =~= Seq::<Seq<char>>::empty());
        assert(said_by_all(es) =~= said(split(es[0], '\n')));
    } else {
        lemma_said_joined(d);
        reveal_strlit("\n");
        assert("\n"@ =~= seq!['\n']);
        lemma_split_cat(join(d, "\n"@), '\n', es.last());
        lemma_said_cat(split(join(d, "\n"@), '\n'), split(es.last(), '\n'));
    }
}

#[verifier::spinoff_prover]
proof fn lemma_log_state(ls: Seq<Seq<char>>, k: int)
    requires
        forall|i: int| 0 <= i < ls.len() ==> !(#[trigger] ls[i]).contains('\n'),
        0 <= k <= ls.len(),
        forall|i: int| 0 <= i < k ==> !is_mark(#[trigger] ls[i]),
        k < ls.len() ==> is_mark(ls[k]),
    ensures
        ({
            let (es, cur) = log_state(ls);
            &&& k == ls.len() ==> es.len() == 0 && cur.len() == 0
            &&& k < ls.len() ==> is_one_entry(cur)
            &&& forall|i: int| 0 <= i < es.len() ==> is_one_entry(#[trigger] es[i])
            &&& said_by_all(es) + said(split(cur, '\n')) == said(ls.skip(k))
        }),
    decreases ls.len(),
{
    let (es, cur) = log_state(ls);
    let none = Seq::<Seq<char>>::empty();
    if ls.len() == 0 {
        lemma_said_empty();
        assert(ls.skip(k) =~= none);
        assert(said_by_all(es) + said(split(cur, '\n')) =~= none);
    } else {
        let d = ls.drop_last();
        let l = ls.last();
        let n = d.len() as int;
        assert(ls[n] == l);
        assert forall|i: int| 0 <= i < d.len() implies !(#[trigger] d[i]).contains('\n') by {
            assert(d[i] == ls[i]);
        }
        let kd = if k < n {
            k
        } else {
            n
        };
        assert forall|i: int| 0 <= i < kd implies !is_mark(#[trigger] d[i]) by {
            assert(d[i] == ls[i]);
        }
        if kd < n {
            assert(d[kd] == ls[kd]);
        }
        lemma_log_state(d, kd);
        let (ed, cd) = log_state(d);
        assert forall|i: int| 0 <= i < l.len() implies l[i] != '\n' by {
            if l[i] == '\n' {
                assert(l.contains('\n'));
            }
        }
        lemma_split_one(l, '\n');
        if k <= n {
            assert(ls.skip(k) =~= d.skip(kd) + seq![l]);
            lemma_said_cat(d.skip(kd), seq![l]);
            assert(seq![l].drop_last() =~= none);
        } else {
            assert(ls.skip(k) =~= none);
            assert(d.skip(kd) =~= none);
        }
        if is_mark(l) {
            assert(k <= n);
            lemma_mark_not_blank(l);
            if kd < n {
                lemma_entry_trimmed(cd);
                lemma_mark_not_blank(cd);
                lemma_said_trimmed(cd);
                let t = trimmed_end(cd);
                assert(es == ed.push(t));
                assert(es.drop_last() =~= ed);
                assert forall|i: int| 0 <= i < es.len() implies is_one_entry(#[trigger] es[i]) by {
                    if i < ed.len() {
                        assert(es[i] == ed[i]);
                    }
                }
            } else {
                assert(es == ed);
                assert(ed =~= none);
                assert(cd =~= Seq::<char>::empty());
                lemma_said_empty();
            }
            assert(is_one_entry(cur));
            assert(said_by_all(es) + said(split(cur, '\n')) =~= said(ls.skip(k)));
        } else if kd == n {
            lemma_said_empty();
            assert(cd =~= Seq::<char>::empty());
        } else {
            lemma_mark_not_blank(cd);
            let e = Seq::<char>::empty();
            let m = if is_blank(l) {
                e
            } else {
                l
            };
            assert(cur =~= cd + seq!['\n'] + m);
            lemma_split_cat(cd, '\n', m);
            lemma_split_one(m, '\n');
            lemma_said_cat(split(cd, '\n'), seq![m]);
            lemma_said_empty();
            assert(cur.take(3) =~= cd.take(3));
            reveal_strlit("- [");
            assert(!is_mark(m)) by {
                if is_mark(m) {
                    lemma_mark_not_blank(m);
                }
            }
            let p = split(cd, '\n');
            let q = split(cur, '\n');
            text::lemma_split_nonempty(cd, '\n');
            assert forall|j: int| 0 < j < q.len() implies !is_mark(#[trigger] q[j]) by {
                if j < p.len() {
                    assert(q[j] == p[j]);
                } else {
                    assert(q[j] == m);
                }
            }
            assert(said(seq![m]) == said(seq![l])) by {
                assert(seq![m].drop_last() =~= none);
                lemma_blank(l);
            }
            assert(said_by_all(es) + said(split(cur, '\n')) =~= said(ls.skip(k)));
        }
    }
}

/// No text of a log is lost, and none is made up: the lines of its entries, one
/// entry after the other, are the lines of the body from the first one on that
/// begins an entry, but for blank lines and white space at the end of a line. Each
/// entry begins as one does, and none of its further lines does, so each line stands
/// under the nearest beginning before it.
pub proof fn law_log_keeps_lines(body: Seq<char>, k: int)
    requires
        0 <= k <= lines(body).len(),
        forall|i: int| 0 <= i < k ==> !is_mark(#[trigger] lines(body)[i]),
        k < lines(body).len() ==> is_mark(lines(body)[k]),
    ensures
        said(split(join(log_entries(body), "\n"@), '\n')) == said(lines(body).skip(k)),
        forall|i: int| 0 <= i < log_entries(body).len() ==> is_one_entry(#[trigger] log_entries(body)[i]),
{
    let ls = lines(body);
    let (es, cur) = log_state(ls);
    lemma_no_feed(body);
    lemma_log_state(ls, k);
    let r = log_entries(body);
    if cur.len() > 0 {
        lemma_entry_trimmed(cur);
        lemma_said_trimmed(cur);
        let t = trimmed_end(cur);
        assert(r == es.push(t));
        assert(r.drop_last() =~= es);
        assert forall|i: int| 0 <= i < r.len() implies is_one_entry(#[trigger] r[i]) by {
            if i < es.len() {
                assert(r[i] == es[i]);
            }
        }
    } else {
        lemma_said_empty();
        assert(cur =~= Seq::<char>::empty());
        assert(said_by_all(es) + Seq::<Seq<char>>::empty() =~= said_by_all(es));
    }
    lemma_said_joined(r);
}

// ---------------------------------------------------------------------------
// Merging
// ---------------------------------------------------------------------------
/// Whether the entry at a place is the first one of its key.
pub open spec fn is_first(es: Seq<Seq<char>>, i: int) -> bool {
    &&& 0 <= i < es.len()
    &&& forall|j: int| 0 <= j < i ==> dedup_key(#[trigger] es[j]) != dedup_key(es[i])
}

/// Whether an entry is one of some entries, and the first one of its key.
pub open spec fn is_kept(es: Seq<Seq<char>>, e: Seq<char>) -> bool {
    exists|i: int| #[trigger] is_first(es, i) && es[i] == e
}

/// Whether two entries are the first ones of their keys, one before the other.
pub open spec fn kept_before(es: Seq<Seq<char>>, x: Seq<char>, y: Seq<char>) -> bool {
    exists|i: int, j: int|
        #[trigger] is_first(es, i) && #[trigger] is_first(es, j) && i < j && es[i] == x && es[j] == y
}

proof fn lemma_first_shorter(es: Seq<Seq<char>>, i: int)
    requires
        es.len() > 0,
        0 <= i < es.len() - 1,
    ensures
        is_first(es.drop_last(), i) == is_first(es, i),
{
    let d = es.drop_last();
    if is_first(es, i) {
        assert forall|j: int| 0 <= j < i implies dedup_key(#[trigger] d[j]) != dedup_key(d[i]) by {
            assert(d[j] == es[j]);
        }
    }
    if is_first(d, i) {
        assert forall|j: int| 0 <= j < i implies dedup_key(#[trigger] es[j]) != dedup_key(es[i]) by {
            assert(d[j] == es[j]);
        }
    }
}

#[verifier::spinoff_prover]
proof fn lemma_unique_exact(es: Seq<Seq<char>>)
    ensures
        forall|e: Seq<char>| #[trigger] unique_entries(es).contains(e) == is_kept(es, e),
        forall|p: int, q: int|
            0 <= p < q < unique_entries(es).len() ==> kept_before(
                es,
                #[trigger] unique_entries(es)[p],
                #[trigger] unique_entries(es)[q],
            ),
        forall|p: int, q: int|
            0 <= p < q < unique_entries(es).len() ==> dedup_key(#[trigger] unique_entries(es)[p])
                != dedup_key(#[trigger] unique_entries(es)[q]),
    decreases es.len(),
{
    let u = unique_entries(es);
    if es.len() > 0 {
        let d = es.drop_last();
        let n = es.len() - 1;
        let v = unique_entries(d);
        lemma_unique_exact(d);
        assert forall|e: Seq<char>| #[trigger] is_kept(d, e) implies is_kept(es, e) by {
            let i = choose|i: int| #[trigger] is_first(d, i) && d[i] == e;
            lemma_first_shorter(es, i);
            assert(is_first(es, i) && es[i] == e);
        }
        assert forall|x: Seq<char>, y: Seq<char>| #[trigger] kept_before(d, x, y) implies kept_before(
            es,
            x,
            y,
        ) by {
            let (i, j) = choose|i: int, j: int|
                #[trigger] is_first(d, i) && #[trigger] is_first(d, j) && i < j && d[i] == x && d[j]
                    == y;
            lemma_first_shorter(es, i);
            lemma_first_shorter(es, j);
            assert(is_first(es, i) && is_first(es, j) && es[i] == x && es[j] == y);
        }
        let seen = crate::crdt_resolver::has_entry_key(v, dedup_key(es.last()));
        assert(seen == !is_first(es, n)) by {
            if seen {
                let i = choose|i: int|
                    0 <= i < v.len() && dedup_key(#[trigger] v[i]) == dedup_key(es.last());
                assert(v.contains(v[i]));
                let k = choose|k: int| #[trigger] is_first(d, k) && d[k] == v[i];
                assert(dedup_key(es[k]) == dedup_key(es[n]));
            }
            if !is_first(es, n) {
                let j = choose|j: int|
                    0 <= j < n && dedup_key(#[trigger] es[j]) == dedup_key(es[n]);
                lemma_first_of_key(d, j);
                let k = choose|k: int|
                    #[trigger] is_first(d, k) && dedup_key(d[k]) == dedup_key(d[j]);
                assert(is_kept(d, d[k]));
                assert(v.contains(d[k]));
                let i = v.index_of(d[k]);
                assert(dedup_key(v[i]) == dedup_key(es.last()));
            }
        }
        assert forall|e: Seq<char>| #[trigger] u.contains(e) == is_kept(es, e) by {
            if u.contains(e) {
                let i = u.index_of(e);
                if i < v.len() {
                    assert(v[i] == e);
                    assert(v.contains(e));
                } else {
                    assert(is_first(es, n) && es[n] == e);
                }
            }
            if is_kept(es, e) {
                let i = choose|i: int| #[trigger] is_first(es, i) && es[i] == e;
                if i < n {
                    lemma_first_shorter(es, i);
                    assert(is_first(d, i) && d[i] == e);
                    assert(is_kept(d, e));
                    assert(v.contains(e));
                    assert(u[v.index_of(e)] == e);
                } else {
                    assert(u[u.len() - 1] == e);
                }
            }
        }
        assert forall|p: int, q: int| 0 <= p < q < u.len() implies kept_before(
            es,
            #[trigger] u[p],
            #[trigger] u[q],
        ) && dedup_key(u[p]) != dedup_key(u[q]) by {
            assert(u[p] == v[p]);
            if q < v.len() {
                assert(u[q] == v[q]);
                assert(kept_before(d, v[p], v[q]));
            } else {
                assert(v.contains(v[p]));
                let i = choose|i: int| #[trigger] is_first(d, i) && d[i] == v[p];
                lemma_first_shorter(es, i);
                assert(is_first(es, i) && is_first(es, n));
                assert(es[i] == u[p] && es[n] == u[q]);
            }
        }
    }
}

/// Of each key there is a first entry.
proof fn lemma_first_of_key(es: Seq<Seq<char>>, j: int)
    requires
        0 <= j < es.len(),
    ensures
        exists|k: int| #[trigger] is_first(es, k) && dedup_key(es[k]) == dedup_key(es[j]),
    decreases j,
{
    if !is_first(es, j) {
        let i = choose|i: int| 0 <= i < j && dedup_key(#[trigger] es[i]) == dedup_key(es[j]);
        lemma_first_of_key(es, i);
    }
}

/// Whether members that are equal by date stand in the order of other ones.
spec fn in_their_order(r: Seq<Seq<char>>, es: Seq<Seq<char>>) -> bool {
    forall|p: int, q: int|
        0 <= p < q < r.len() && sort_date(#[trigger] r[p]) == sort_date(#[trigger] r[q])
            ==> stands_before(es, r[p], r[q])
}

pub open spec fn stands_before(es: Seq<Seq<char>>, x: Seq<char>, y: Seq<char>) -> bool {
    exists|i: int, j: int|
        0 <= i < j < es.len() && #[trigger] es[i] == x && #[trigger] es[j] == y
}

proof fn lemma_inserted_order(s: Seq<Seq<char>>, e: Seq<char>, es: Seq<Seq<char>>)
    requires
        in_their_order(s, es),
        forall|i: int| 0 <= i < s.len() ==> es.contains(#[trigger] s[i]),
    ensures
        in_their_order(inserted_entry(s, e), es.push(e)),
    decreases s.len(),
{
    let r = inserted_entry(s, e);
    let f = es.push(e);
    assert forall|x: Seq<char>, y: Seq<char>| #[trigger] stands_before(es, x, y) implies stands_before(
        f,
        x,
        y,
    ) by {
        let (i, j) = choose|i: int, j: int|
            0 <= i < j < es.len() && #[trigger] es[i] == x && #[trigger] es[j] == y;
        assert(f[i] == x && f[j] == y);
    }
    if s.len() > 0 && text::lt(sort_date(e), sort_date(s.last())) {
        let d = s.drop_last();
        assert forall|p: int, q: int|
            0 <= p < q < d.len() && sort_date(#[trigger] d[p]) == sort_date(
                #[trigger] d[q],
            ) implies stands_before(es, d[p], d[q]) by {
            assert(d[p] == s[p] && d[q] == s[q]);
        }
        assert forall|i: int| 0 <= i < d.len() implies es.contains(#[trigger] d[i]) by {
            assert(d[i] == s[i]);
        }
        lemma_inserted_order(d, e, es);
        let w = inserted_entry(d, e);
        assert forall|p: int, q: int|
            0 <= p < q < r.len() && sort_date(#[trigger] r[p]) == sort_date(
                #[trigger] r[q],
            ) implies stands_before(f, r[p], r[q]) by {
            assert(r[p] == w[p]);
            if q < w.len() {
                assert(r[q] == w[q]);
            } else {
                assert(w.contains(w[p]));
                crate::crdt_resolver::lemma_inserted_members(d, e, w[p]);
                if w[p] == e && !d.contains(e) {
                    text::lemma_lt_irreflexive(sort_date(e));
                } else if w[p] == e {
                    text::lemma_lt_irreflexive(sort_date(e));
                } else {
                    let i = d.index_of(w[p]);
                    let n = s.len() - 1;
                    assert(s[i] == w[p] && s[n] == r[q]);
                    assert(stands_before(es, s[i], s[n]));
                }
            }
        }
    } else {
        assert forall|p: int, q: int|
            0 <= p < q < r.len() && sort_date(#[trigger] r[p]) == sort_date(
                #[trigger] r[q],
            ) implies stands_before(f, r[p], r[q]) by {
            assert(r[p] == s[p]);
            if q < s.len() {
                assert(r[q] == s[q]);
                assert(stands_before(es, s[p], s[q]));
            } else {
                assert(es.contains(s[p]));
                let i = es.index_of(s[p]);
                assert(f[i] == s[p] && f[es.len() as int] == e);
            }
        }
    }
}

proof fn lemma_by_date_order(es: Seq<Seq<char>>)
    ensures
        in_their_order(by_date(es), es),
    decreases es.len(),
{
    if es.len() > 0 {
        let d = es.drop_last();
        lemma_by_date_order(d);
        assert forall|i: int| 0 <= i < by_date(d).len() implies d.contains(
            #[trigger] by_date(d)[i],
        ) by {
            crate::crdt_resolver::lemma_by_date_members(d, by_date(d)[i]);
            assert(by_date(d).contains(by_date(d)[i]));
        }
        lemma_inserted_order(by_date(d), es.last(), d);
        assert(d.push(es.last()) =~= es);
    }
}

proof fn lemma_by_date_len(es: Seq<Seq<char>>)
    ensures
        by_date(es).len() == es.len(),
    decreases es.len(),
{
    if es.len() > 0 {
        lemma_by_date_len(es.drop_last());
        lemma_inserted_len(by_date(es.drop_last()), es.last());
    }
}

proof fn lemma_inserted_len(s: Seq<Seq<char>>, e: Seq<char>)
    ensures
        inserted_entry(s, e).len() == s.len() + 1,
    decreases s.len(),
{
    if s.len() > 0 && text::lt(sort_date(e), sort_date(s.last())) {
        lemma_inserted_len(s.drop_last(), e);
    }
}

/// A merged log holds exactly the first entry of each key, whole as it stands there:
/// of ours, else of theirs, else of the ancestor's.
pub proof fn law_log_first_of_key(a: Seq<char>, o: Seq<char>, t: Seq<char>, e: Seq<char>)
    ensures
        merged_entries(a, o, t).contains(e) == is_kept(
            log_entries(o) + log_entries(t) + log_entries(a),
            e,
        ),
{
    let all = log_entries(o) + log_entries(t) + log_entries(a);
    lemma_unique_exact(all);
    crate::crdt_resolver::lemma_by_date_members(unique_entries(all), e);
}

/// Entries of one date stand in a merged log in the order in which they came.
pub proof fn law_log_order(a: Seq<char>, o: Seq<char>, t: Seq<char>, p: int, q: int)
    requires
        0 <= p < q < merged_entries(a, o, t).len(),
    ensures
        sort_date(merged_entries(a, o, t)[p]) == sort_date(merged_entries(a, o, t)[q])
            ==> kept_before(
            log_entries(o) + log_entries(t) + log_entries(a),
            merged_entries(a, o, t)[p],
            merged_entries(a, o, t)[q],
        ),
        sort_date(merged_entries(a, o, t)[p]) == sort_date(merged_entries(a, o, t)[q]) || text::lt(
            sort_date(merged_entries(a, o, t)[p]),
            sort_date(merged_entries(a, o, t)[q]),
        ),
{
    let all = log_entries(o) + log_entries(t) + log_entries(a);
    let u = unique_entries(all);
    let m = merged_entries(a, o, t);
    lemma_unique_exact(all);
    lemma_by_date_order(u);
    crate::crdt_resolver::law_log_sorted(a, o, t);
    text::lemma_lt_total(sort_date(m[p]), sort_date(m[q]));
    assert(!text::lt(sort_date(m[q]), sort_date(m[p])));
    if sort_date(m[p]) == sort_date(m[q]) {
        assert(stands_before(u, m[p], m[q]));
        let (i, j) = choose|i: int, j: int|
            0 <= i < j < u.len() && #[trigger] u[i] == m[p] && #[trigger] u[j] == m[q];
        assert(kept_before(all, u[i], u[j]));
    }
}

proof fn lemma_said_by(es: Seq<Seq<char>>, i: int, l: Seq<char>)
    requires
        0 <= i < es.len(),
        said(split(es[i], '\n')).contains(l),
    ensures
        said_by_all(es).contains(l),
    decreases es.len(),
{
    let d = es.drop_last();
    let r = said_by_all(es);
    if i == es.len() - 1 {
        let k = said(split(es[i], '\n')).index_of(l);
        assert(r[said_by_all(d).len() + k] == l);
    } else {
        assert(d[i] == es[i]);
        lemma_said_by(d, i, l);
        assert(r[said_by_all(d).index_of(l)] == l);
    }
}

proof fn lemma_said_from(es: Seq<Seq<char>>, l: Seq<char>)
    requires
        said_by_all(es).contains(l),
    ensures
        exists|i: int| 0 <= i < es.len() && said(split(#[trigger] es[i], '\n')).contains(l),
    decreases es.len(),
{
    if es.len() > 0 {
        let d = es.drop_last();
        let r = said_by_all(es);
        let k = r.index_of(l);
        let n = said_by_all(d).len();
        if k < n {
            assert(said_by_all(d)[k] == l);
            lemma_said_from(d, l);
            let i = choose|i: int|
                0 <= i < d.len() && said(split(#[trigger] d[i], '\n')).contains(l);
            assert(es[i] == d[i]);
        } else {
            let x = said(split(es.last(), '\n'));
            assert(x[k - n] == l);
            assert(es[es.len() - 1] == es.last());
        }
    }
}

/// Every line of an entry that is kept is a line of the merged log, and the merged
/// log has no other lines.
pub proof fn law_merged_log_lines(a: Seq<char>, o: Seq<char>, t: Seq<char>, l: Seq<char>)
    ensures
        said(split(merged_log(a, o, t), '\n')).contains(l) == (exists|e: Seq<char>|
            is_kept(log_entries(o) + log_entries(t) + log_entries(a), e) && #[trigger] said(
                split(e, '\n'),
            ).contains(l)),
{
    let all = log_entries(o) + log_entries(t) + log_entries(a);
    let m = merged_entries(a, o, t);
    lemma_said_joined(m);
    if exists|e: Seq<char>| is_kept(all, e) && #[trigger] said(split(e, '\n')).contains(l) {
        let e = choose|e: Seq<char>| is_kept(all, e) && #[trigger] said(split(e, '\n')).contains(l);
        law_log_first_of_key(a, o, t, e);
        lemma_said_by(m, m.index_of(e), l);
    }
    if said_by_all(m).contains(l) {
        lemma_said_from(m, l);
        let i = choose|i: int| 0 <= i < m.len() && said(split(#[trigger] m[i], '\n')).contains(l);
        assert(m.contains(m[i]));
        law_log_first_of_key(a, o, t, m[i]);
        assert(said(split(m[i], '\n')).contains(l));
    }
}

/// A merge of a log with itself, in which no key occurs twice, has the same entries,
/// as many of them, and every line of the log from its first entry on.
pub proof fn law_log_with_itself(b: Seq<char>, k: int, l: Seq<char>)
    requires
        forall|i: int, j: int|
            0 <= i < j < log_entries(b).len() ==> dedup_key(#[trigger] log_entries(b)[i])
                != dedup_key(#[trigger] log_entries(b)[j]),
        0 <= k <= lines(b).len(),
        forall|i: int| 0 <= i < k ==> !is_mark(#[trigger] lines(b)[i]),
        k < lines(b).len() ==> is_mark(lines(b)[k]),
    ensures
        forall|e: Seq<char>| #[trigger]
            merged_entries(b, b, b).contains(e) == log_entries(b).contains(e),
        said(split(merged_log(b, b, b), '\n')).contains(l) == said(lines(b).skip(k)).contains(l),
{
    let es = log_entries(b);
    let all = es + es + es;
    let m = merged_entries(b, b, b);
    assert forall|e: Seq<char>| #[trigger] m.contains(e) == es.contains(e) by {
        law_log_first_of_key(b, b, b, e);
        if is_kept(all, e) {
            let i = choose|i: int| #[trigger] is_first(all, i) && all[i] == e;
            let n = es.len() as int;
            if i < n {
                assert(es[i] == e);
            } else if i < 2 * n {
                assert(es[i - n] == e);
            } else {
                assert(es[i - 2 * n] == e);
            }
        }
        if es.contains(e) {
            let i = es.index_of(e);
            assert(all[i] == es[i]);
            assert forall|j: int| 0 <= j < i implies dedup_key(#[trigger] all[j]) != dedup_key(
                all[i],
            ) by {
                assert(all[j] == es[j]);
                assert(dedup_key(es[j]) != dedup_key(es[i]));
            }
            assert(is_first(all, i) && all[i] == e);
        }
    }
    law_log_keeps_lines(b, k);
    lemma_said_joined(es);
    lemma_said_joined(m);
    if said_by_all(m).contains(l) {
        lemma_said_from(m, l);
        let i = choose|i: int| 0 <= i < m.len() && said(split(#[trigger] m[i], '\n')).contains(l);
        assert(m.contains(m[i]));
        assert(es.contains(m[i]));
        let j = es.index_of(m[i]);
        lemma_said_by(es, j, l);
    }
    if said_by_all(es).contains(l) {
        lemma_said_from(es, l);
        let i = choose|i: int| 0 <= i < es.len() && said(split(#[trigger] es[i], '\n')).contains(l);
        assert(es.contains(es[i]));
        assert(m.contains(es[i]));
        let j = m.index_of(es[i]);
        lemma_said_by(m, j, l);
    }
}

// ---------------------------------------------------------------------------
// Keys and dates
// ---------------------------------------------------------------------------
/// The beginning of an entry: a check box with a mark.
pub open spec fn check_box(mark: char) -> Seq<char> {
    seq!['-', ' ', '[', mark, ']', ' ']
}

proof fn lemma_ascii_bytes(s: Seq<char>, n: int)
    requires
        0 <= n <= s.len(),
        forall|i: int| 0 <= i < n ==> 0x80 > (#[trigger] s[i]) as int,
    ensures
        text::char_at_byte(s, n) == Some(n),
    decreases n,
{
    if n > 0 {
        let d = s.drop_first();
        assert(0x80 > s[0] as int);
        assert forall|i: int| 0 <= i < n - 1 implies 0x80 > (#[trigger] d[i]) as int by {
            assert(d[i] == s[i + 1]);
        }
        lemma_ascii_bytes(d, n - 1);
    }
}

/// The state of its check box does not tell an entry from another: the key is what
/// stands after the box on the first line, whatever lines follow. The date is the
/// first ten characters of that.
pub proof fn law_entry_key(mark: char, rest: Seq<char>, more: Seq<char>)
    requires
        0x80 > mark as int,
        mark != '\n',
        rest.len() > 0,
        !rest.contains('\n'),
        rest.last() != '\r',
    ensures
        dedup_key(check_box(mark) + rest) == rest,
        dedup_key(check_box(mark) + rest + seq!['\n'] + more) == rest,
        rest.len() >= 10 && (forall|i: int| 0 <= i < 10 ==> 0x80 > (#[trigger] rest[i]) as int)
            ==> entry_date(check_box(mark) + rest) == Some(rest.take(10)) && entry_date(
            check_box(mark) + rest + seq!['\n'] + more,
        ) == Some(rest.take(10)),
{
    let b = check_box(mark);
    let l = b + rest;
    let e = l + seq!['\n'] + more;
    assert forall|i: int| 0 <= i < l.len() implies l[i] != '\n' by {
        if i >= 6 {
            assert(l[i] == rest[i - 6]);
            assert(rest.contains(rest[i - 6]));
        }
    }
    text::lemma_until_is(l, '\n', l.len() as int);
    assert(lines(l) == seq![l]);
    assert forall|i: int| 0 <= i < l.len() implies e[i] != '\n' by {
        assert(e[i] == l[i]);
    }
    assert(e[l.len() as int] == '\n');
    text::lemma_until_is(e, '\n', l.len() as int);
    assert(e.take(l.len() as int) =~= l);
    assert(l.last() == rest.last());
    assert(first_line(l) == l);
    assert(first_line(e) == l);
    lemma_ascii_bytes(l, 6);
    assert(l.skip(6) =~= rest);
    if rest.len() >= 10 && (forall|i: int| 0 <= i < 10 ==> 0x80 > (#[trigger] rest[i]) as int) {
        assert forall|i: int| 0 <= i < 16 implies 0x80 > (#[trigger] l[i]) as int by {
            if i >= 6 {
                assert(l[i] == rest[i - 6]);
            }
        }
        lemma_ascii_bytes(l, 16);
        assert(l.subrange(6, 16) =~= rest.take(10));
    }
}

} // verus!
