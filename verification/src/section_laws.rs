//! What setting one section of a body leaves of the others.
use crate::indexer::{heading_line, section_in, section_start, without_blank_end};
use crate::parser::is_line;
use crate::row_laws::{
    flat, is_row_value, is_section_name, lemma_flat_cat, lemma_flat_lines, lemma_flat_one,
    lemma_heading_is, lemma_heading_line, lemma_lines_joined, lemma_name_line, lemma_single,
    lemma_value_lines,
};
use crate::rows::{
    blank_after, has_heading, heading_of, lemma_next_heading, next_heading, section_replaced,
    with_section,
};
use crate::text::{self, join, lines, trimmed, without_cr};
use vstd::prelude::*;

verus! {

/// Whether the headings of a body are plain: none is indented, and no line ends
/// with a carriage return.
pub open spec fn is_plain(ls: Seq<Seq<char>>) -> bool {
    forall|i: int|
        0 <= i < ls.len() ==> is_line(#[trigger] ls[i]) && (text::has_prefix(
            trimmed(ls[i]),
            "## "@,
        ) ==> text::has_prefix(ls[i], "## "@))
}

/// The lines from `i` on with the section set, the lines of the value apart.
spec fn spread(ls: Seq<Seq<char>>, i: int, h: Seq<char>, vs: Seq<Seq<char>>) -> Seq<Seq<char>>
    decreases ls.len() - i,
    when 0 <= i
{
    if i >= ls.len() {
        Seq::empty()
    } else if trimmed(ls[i]) == h {
        let k = next_heading(ls, i + 1);
        seq![ls[i]] + (if blank_after(ls, i) {
            seq![Seq::<char>::empty()]
        } else {
            Seq::empty()
        }) + vs + (if k < ls.len() {
            seq![Seq::<char>::empty()]
        } else {
            Seq::empty()
        }) + if i < k <= ls.len() {
            spread(ls, k, h, vs)
        } else {
            Seq::empty()
        }
    } else {
        seq![ls[i]] + spread(ls, i + 1, h, vs)
    }
}

proof fn lemma_one_line(x: Seq<char>)
    requires
        is_line(x),
    ensures
        flat(seq![x]) == seq![x],
{
    lemma_flat_one(x);
    lemma_single(x);
}

proof fn lemma_spread(ls: Seq<Seq<char>>, i: int, h: Seq<char>, val: Seq<char>)
    requires
        0 <= i,
        forall|j: int| 0 <= j < ls.len() ==> is_line(#[trigger] ls[j]),
        is_row_value(val),
    ensures
        flat(section_replaced(ls, i, h, val)) == spread(ls, i, h, lines(val)),
    decreases ls.len() - i,
{
    let vs = lines(val);
    let e = Seq::<char>::empty();
    let none = Seq::<Seq<char>>::empty();
    if i >= ls.len() {
        assert(flat(none) == none);
    } else if trimmed(ls[i]) == h {
        let k = next_heading(ls, i + 1);
        lemma_next_heading(ls, i + 1);
        let b = if blank_after(ls, i) {
            seq![e]
        } else {
            none
        };
        let c = if k < ls.len() {
            seq![e]
        } else {
            none
        };
        let r = if i < k <= ls.len() {
            section_replaced(ls, k, h, val)
        } else {
            none
        };
        let q = if i < k <= ls.len() {
            spread(ls, k, h, vs)
        } else {
            none
        };
        if i < k <= ls.len() {
            lemma_spread(ls, k, h, val);
        } else {
            assert(flat(none) == none);
        }
        assert(flat(none) == none);
        assert(is_line(e)) by {
            assert(!e.contains('\n'));
        }
        lemma_one_line(e);
        assert(is_line(ls[i]));
        lemma_one_line(ls[i]);
        lemma_flat_one(val);
        lemma_value_lines(val);
        let x0 = seq![ls[i]];
        lemma_flat_cat(x0, b);
        lemma_flat_cat(x0 + b, seq![val]);
        lemma_flat_cat(x0 + b + seq![val], c);
        lemma_flat_cat(x0 + b + seq![val] + c, r);
        assert(section_replaced(ls, i, h, val) == x0 + b + seq![val] + c + r);
        assert(spread(ls, i, h, vs) == x0 + b + vs + c + q);
    } else {
        lemma_spread(ls, i + 1, h, val);
        assert(is_line(ls[i]));
        lemma_one_line(ls[i]);
        lemma_flat_cat(seq![ls[i]], section_replaced(ls, i + 1, h, val));
    }
}

/// The lines before the first heading.
spec fn upto(ls: Seq<Seq<char>>) -> Seq<Seq<char>>
    decreases ls.len(),
{
    if ls.len() == 0 || text::has_prefix(ls[0], "## "@) {
        Seq::empty()
    } else {
        seq![ls[0]] + upto(ls.drop_first())
    }
}

proof fn lemma_upto(ls: Seq<Seq<char>>, s: int)
    requires
        0 <= s <= ls.len(),
    ensures
        ls.subrange(s, next_heading(ls, s)) == upto(ls.skip(s)),
        s <= next_heading(ls, s) <= ls.len(),
    decreases ls.len() - s,
{
    lemma_next_heading(ls, s);
    let t = ls.skip(s);
    if s < ls.len() && !text::has_prefix(ls[s], "## "@) {
        lemma_upto(ls, s + 1);
        assert(t.drop_first() =~= ls.skip(s + 1));
        assert(ls.subrange(s, next_heading(ls, s)) =~= seq![ls[s]] + ls.subrange(
            s + 1,
            next_heading(ls, s + 1),
        ));
    } else {
        assert(ls.subrange(s, s) =~= Seq::<Seq<char>>::empty());
    }
}

/// The text of a section whose heading is the first line.
spec fn first_section(ls: Seq<Seq<char>>) -> Seq<char> {
    let rest = if ls.len() > 1 && text::is_blank(ls[1]) {
        ls.skip(2)
    } else {
        ls.skip(1)
    };
    join(without_blank_end(upto(rest)), "\n"@)
}

proof fn lemma_section_first(ls: Seq<Seq<char>>, name: Seq<char>)
    requires
        ls.len() > 0,
    ensures
        trimmed(ls[0]) == heading_of(name) ==> section_in(ls, name) == first_section(ls),
        trimmed(ls[0]) != heading_of(name) ==> section_in(ls, name) == section_in(
            ls.drop_first(),
            name,
        ),
{
    let h = heading_of(name);
    if trimmed(ls[0]) == h {
        let s = section_start(ls, 0);
        lemma_upto(ls, s);
    } else {
        let d = ls.drop_first();
        lemma_heading_line(ls, h, 0);
        lemma_heading_line(d, h, 0);
        let p = heading_line(d, h, 0);
        if p < d.len() {
            assert forall|j: int| 0 <= j < p + 1 implies trimmed(#[trigger] ls[j]) != h by {
                if j > 0 {
                    assert(ls[j] == d[j - 1]);
                }
            }
            assert(ls[p + 1] == d[p]);
            lemma_heading_is(ls, h, 0, p + 1);
            if p + 1 < d.len() {
                assert(ls[p + 2] == d[p + 1]);
            }
            let s = section_start(d, p);
            assert(section_start(ls, p + 1) == s + 1);
            lemma_upto(d, s);
            lemma_upto(ls, s + 1);
            assert(ls.skip(s + 1) =~= d.skip(s));
        } else {
            let q = heading_line(ls, h, 0);
            if q < ls.len() {
                assert(q > 0);
                assert(ls[q] == d[q - 1]);
                assert(trimmed(d[q - 1]) == h);
            }
        }
    }
}

/// Lines in front that are no heading of the name do not matter.
proof fn lemma_section_skip(a: Seq<Seq<char>>, b: Seq<Seq<char>>, name: Seq<char>)
    requires
        forall|j: int| 0 <= j < a.len() ==> trimmed(#[trigger] a[j]) != heading_of(name),
    ensures
        section_in(a + b, name) == section_in(b, name),
    decreases a.len(),
{
    if a.len() == 0 {
        assert(a + b =~= b);
    } else {
        let d = a.drop_first();
        lemma_section_first(a + b, name);
        assert((a + b)[0] == a[0]);
        assert((a + b).drop_first() =~= d + b);
        assert forall|j: int| 0 <= j < d.len() implies trimmed(#[trigger] d[j]) != heading_of(
            name,
        ) by {
            assert(d[j] == a[j + 1]);
        }
        lemma_section_skip(d, b, name);
    }
}

proof fn lemma_spread_upto(
    ls: Seq<Seq<char>>,
    i: int,
    name: Seq<char>,
    vs: Seq<Seq<char>>,
)
    requires
        0 <= i <= ls.len(),
        is_plain(ls),
    ensures
        upto(spread(ls, i, heading_of(name), vs)) == upto(ls.skip(i)),
        i < ls.len() ==> spread(ls, i, heading_of(name), vs).len() > 0 && spread(
            ls,
            i,
            heading_of(name),
            vs,
        )[0] == ls[i],
    decreases ls.len() - i,
{
    let h = heading_of(name);
    let t = spread(ls, i, h, vs);
    let u = ls.skip(i);
    if i < ls.len() {
        assert(is_line(ls[i]));
        assert(t[0] == ls[i]);
        assert(u[0] == ls[i]);
        if trimmed(ls[i]) == h {
            lemma_heading_prefix(name);
            assert(text::has_prefix(ls[i], "## "@));
        } else if !text::has_prefix(ls[i], "## "@) {
            lemma_spread_upto(ls, i + 1, name, vs);
            assert(t.drop_first() =~= spread(ls, i + 1, h, vs));
            assert(u.drop_first() =~= ls.skip(i + 1));
        }
    }
}

proof fn lemma_heading_prefix(name: Seq<char>)
    ensures
        text::has_prefix(heading_of(name), "## "@),
{
    reveal_strlit("## ");
    assert(heading_of(name).take(3) =~= "## "@);
}

/// The value's own lines are no headings.
proof fn lemma_value_no_heading(val: Seq<char>, other: Seq<char>)
    requires
        is_row_value(val),
    ensures
        forall|j: int|
            0 <= j < lines(val).len() ==> trimmed(#[trigger] lines(val)[j]) != heading_of(other),
{
    lemma_heading_prefix(other);
    assert forall|j: int| 0 <= j < lines(val).len() implies trimmed(#[trigger] lines(val)[j])
        != heading_of(other) by {
        assert(!text::has_prefix(trimmed(lines(val)[j]), "## "@));
    }
}

proof fn lemma_spread_section(
    ls: Seq<Seq<char>>,
    i: int,
    name: Seq<char>,
    val: Seq<char>,
    other: Seq<char>,
)
    requires
        0 <= i <= ls.len(),
        is_plain(ls),
        is_row_value(val),
        name != other,
    ensures
        section_in(spread(ls, i, heading_of(name), lines(val)), other) == section_in(
            ls.skip(i),
            other,
        ),
    decreases ls.len() - i,
{
    let h = heading_of(name);
    let g = heading_of(other);
    let vs = lines(val);
    let e = Seq::<char>::empty();
    let none = Seq::<Seq<char>>::empty();
    let t = spread(ls, i, h, vs);
    let u = ls.skip(i);
    lemma_heading_prefix(name);
    lemma_heading_prefix(other);
    reveal_strlit("## ");
    assert(h != g) by {
        if h == g {
            assert(h.skip(3) =~= name);
            assert(g.skip(3) =~= other);
        }
    }
    if i == ls.len() {
        assert(t =~= u);
    } else if trimmed(ls[i]) == h {
        let k = next_heading(ls, i + 1);
        lemma_next_heading(ls, i + 1);
        lemma_value_no_heading(val, other);
        assert(trimmed(e) == e);
        let b = if blank_after(ls, i) {
            seq![e]
        } else {
            none
        };
        let c = if k < ls.len() {
            seq![e]
        } else {
            none
        };
        let a = seq![ls[i]] + b + vs + c;
        assert forall|j: int| 0 <= j < a.len() implies trimmed(#[trigger] a[j]) != g by {
            let x: int = 1 + b.len() as int;
            if j == 0 {
                assert(a[j] == ls[i]);
            } else if j < x {
                assert(a[j] == e);
            } else if j < x + vs.len() {
                assert(a[j] == vs[j - x]);
            } else {
                assert(a[j] == e);
            }
        }
        let m: int = if k <= ls.len() {
            k
        } else {
            ls.len() as int
        };
        let f = ls.subrange(i, m);
        assert(u =~= f + ls.skip(m));
        assert forall|j: int| 0 <= j < f.len() implies trimmed(#[trigger] f[j]) != g by {
            assert(f[j] == ls[i + j]);
            assert(is_line(ls[i + j]));
        }
        lemma_section_skip(f, ls.skip(m), other);
        if k <= ls.len() {
            lemma_spread_section(ls, k, name, val, other);
            assert(t =~= a + spread(ls, k, h, vs));
            lemma_section_skip(a, spread(ls, k, h, vs), other);
        } else {
            assert(t =~= a + none);
            lemma_section_skip(a, none, other);
            assert(ls.skip(m) =~= none);
        }
    } else {
        assert(t[0] == ls[i]);
        assert(u[0] == ls[i]);
        assert(t.drop_first() =~= spread(ls, i + 1, h, vs));
        assert(u.drop_first() =~= ls.skip(i + 1));
        lemma_section_first(t, other);
        lemma_section_first(u, other);
        lemma_spread_section(ls, i + 1, name, val, other);
        if trimmed(ls[i]) == g {
            lemma_spread_upto(ls, i + 1, name, vs);
            if i + 1 < ls.len() {
                assert(t[1] == ls[i + 1]);
                assert(u[1] == ls[i + 1]);
            } else {
                assert(spread(ls, i + 1, h, vs) == none);
            }
            if i + 1 < ls.len() && text::is_blank(ls[i + 1]) {
                assert(trimmed(ls[i + 1]) != h);
                lemma_spread_upto(ls, i + 2, name, vs);
                assert(t.skip(2) =~= spread(ls, i + 2, h, vs));
                assert(u.skip(2) =~= ls.skip(i + 2));
            } else {
                assert(t.skip(1) =~= t.drop_first());
                assert(u.skip(1) =~= u.drop_first());
            }
        }
    }
}

/// An empty line at the end does not matter.
proof fn lemma_section_blank_end(t: Seq<Seq<char>>, name: Seq<char>)
    ensures
        section_in(t.push(Seq::empty()), name) == section_in(t, name),
    decreases t.len(),
{
    let e = Seq::<char>::empty();
    let u = t.push(e);
    let none = Seq::<Seq<char>>::empty();
    reveal_strlit("## ");
    assert(trimmed(e) == e);
    lemma_section_first(u, name);
    if t.len() == 0 {
        assert(u.drop_first() =~= none);
        assert(t =~= none);
    } else {
        lemma_section_first(t, name);
        assert(u[0] == t[0]);
        assert(u.drop_first() =~= t.drop_first().push(e));
        lemma_section_blank_end(t.drop_first(), name);
        if trimmed(t[0]) == heading_of(name) {
            if t.len() == 1 {
                assert(u[1] == e);
                assert(u.skip(2) =~= none);
                assert(t.skip(1) =~= none);
            } else {
                assert(u[1] == t[1]);
                let n: int = if text::is_blank(t[1]) {
                    2
                } else {
                    1
                };
                assert(u.skip(n) =~= t.skip(n).push(e));
                lemma_upto_blank_end(t.skip(n));
            }
        }
    }
}

proof fn lemma_upto_blank_end(t: Seq<Seq<char>>)
    ensures
        without_blank_end(upto(t.push(Seq::empty()))) == without_blank_end(upto(t)),
        upto(t.push(Seq::empty())) == upto(t) || upto(t.push(Seq::empty())) == upto(t).push(
            Seq::empty(),
        ),
    decreases t.len(),
{
    let e = Seq::<char>::empty();
    let u = t.push(e);
    let none = Seq::<Seq<char>>::empty();
    reveal_strlit("## ");
    assert(trimmed(e) == e);
    if t.len() == 0 {
        assert(u.drop_first() =~= none);
        assert(upto(u.drop_first()) == none);
        assert(upto(u) =~= seq![e]);
        assert(upto(t) =~= none);
        assert(seq![e].drop_last() =~= none);
        assert(upto(u) =~= upto(t).push(e));
    } else {
        assert(u[0] == t[0]);
        assert(u.drop_first() =~= t.drop_first().push(e));
        lemma_upto_blank_end(t.drop_first());
        if !text::has_prefix(t[0], "## "@) {
            let x = upto(t.drop_first());
            if upto(u.drop_first()) == x.push(e) {
                assert(upto(u) =~= upto(t).push(e));
            } else {
                assert(upto(u) =~= upto(t));
            }
        }
        if upto(u) == upto(t).push(e) {
            assert(upto(u).drop_last() =~= upto(t));
        }
    }
}

/// A heading after a section ends it.
proof fn lemma_section_before(
    t: Seq<Seq<char>>,
    h: Seq<char>,
    more: Seq<Seq<char>>,
    name: Seq<char>,
)
    requires
        text::has_prefix(h, "## "@),
        text::has_prefix(trimmed(h), "## "@),
        trimmed(h) != heading_of(name),
        forall|j: int| 0 <= j < more.len() ==> trimmed(#[trigger] more[j]) != heading_of(name),
    ensures
        section_in(t + seq![h] + more, name) == section_in(t, name),
    decreases t.len(),
{
    let none = Seq::<Seq<char>>::empty();
    let u = t + seq![h] + more;
    reveal_strlit("## ");
    if t.len() == 0 {
        let a = seq![h] + more;
        assert(u =~= a + none);
        assert forall|j: int| 0 <= j < a.len() implies trimmed(#[trigger] a[j]) != heading_of(
            name,
        ) by {
            if j > 0 {
                assert(a[j] == more[j - 1]);
            }
        }
        lemma_section_skip(a, none, name);
        assert(t =~= none);
    } else {
        let d = t.drop_first();
        lemma_section_first(u, name);
        lemma_section_first(t, name);
        assert(u[0] == t[0]);
        assert(u.drop_first() =~= d + seq![h] + more);
        lemma_section_before(d, h, more, name);
        if trimmed(t[0]) == heading_of(name) {
            if t.len() == 1 {
                assert(u[1] == h);
                assert(!text::is_blank(h));
                assert(u.skip(1)[0] == h);
                assert(t.skip(1) =~= none);
            } else {
                assert(u[1] == t[1]);
                let n: int = if text::is_blank(t[1]) {
                    2
                } else {
                    1
                };
                assert(u.skip(n) =~= t.skip(n) + seq![h] + more);
                lemma_upto_before(t.skip(n), h, more);
            }
        }
    }
}

proof fn lemma_upto_before(t: Seq<Seq<char>>, h: Seq<char>, more: Seq<Seq<char>>)
    requires
        text::has_prefix(h, "## "@),
    ensures
        upto(t + seq![h] + more) == upto(t),
    decreases t.len(),
{
    let u = t + seq![h] + more;
    if t.len() == 0 {
        assert(u[0] == h);
    } else {
        assert(u[0] == t[0]);
        assert(u.drop_first() =~= t.drop_first() + seq![h] + more);
        lemma_upto_before(t.drop_first(), h, more);
    }
}

/// The lines of joined texts are the lines of each, but for an empty last one.
proof fn lemma_joined_flat(xs: Seq<Seq<char>>)
    requires
        xs.len() > 0,
        xs.last().len() == 0 || lines(xs.last() + "\n"@) == lines(xs.last()),
    ensures
        xs.last().len() == 0 ==> flat(xs) == lines(join(xs, "\n"@)).push(Seq::empty()),
        xs.last().len() > 0 ==> flat(xs) == lines(join(xs, "\n"@)),
{
    let d = xs.drop_last();
    let e = Seq::<char>::empty();
    assert(xs =~= d + seq![xs.last()]);
    lemma_lines_joined(d, seq![xs.last()]);
    if xs.last().len() == 0 {
        assert(xs.last() =~= e);
        assert(!e.contains('\n'));
        lemma_single(e);
        assert(lines(e) == Seq::<Seq<char>>::empty());
        assert(lines(join(xs, "\n"@)) =~= flat(d));
        assert(flat(xs) =~= flat(d).push(e));
    }
}

/// Setting a section leaves the text of every other section as it is.
#[verifier::spinoff_prover]
pub proof fn law_other_sections_kept(
    body: Seq<char>,
    name: Seq<char>,
    val: Seq<char>,
    other: Seq<char>,
)
    requires
        is_section_name(name),
        is_row_value(val),
        is_plain(lines(body)),
        name != other,
    ensures
        section_in(lines(join(with_section(lines(body), name, val), "\n"@)), other) == section_in(
            lines(body),
            other,
        ),
{
    let ls = lines(body);
    let h = heading_of(name);
    let vs = lines(val);
    let e = Seq::<char>::empty();
    let out = with_section(ls, name, val);
    let t = lines(join(out, "\n"@));
    lemma_value_lines(val);
    if has_heading(ls, h) {
        assert(ls.skip(0) =~= ls);
        lemma_spread(ls, 0, h, val);
        lemma_spread_section(ls, 0, name, val, other);
        lemma_spread_upto(ls, 0, name, vs);
        lemma_replaced_last(ls, 0, h, val);
        lemma_joined_flat(out);
        if out.last().len() == 0 {
            lemma_section_blank_end(t, other);
        }
    } else {
        lemma_name_line(name);
        let b = if ls.len() > 0 && !text::is_blank(ls.last()) {
            seq![e]
        } else {
            Seq::<Seq<char>>::empty()
        };
        let w = ls + b + seq![h] + seq![e];
        assert(out =~= w + seq![val]);
        lemma_joined_flat(out);
        lemma_flat_cat(w, seq![val]);
        lemma_flat_one(val);
        assert(!e.contains('\n'));
        assert(without_cr(e) == e);
        assert forall|i: int| 0 <= i < w.len() implies !(#[trigger] w[i]).contains('\n') by {
            if i < ls.len() {
                assert(w[i] == ls[i]);
                assert(is_line(ls[i]));
            }
        }
        lemma_flat_lines(w);
        let g = without_cr(h);
        let f = ls + b;
        let more = seq![e] + vs;
        assert(flat(w) =~= f + seq![g] + seq![e]) by {
            assert forall|i: int| 0 <= i < w.len() implies flat(w)[i] == (f + seq![g] + seq![e])[i] by {
                if i < ls.len() {
                    assert(w[i] == ls[i]);
                    assert(is_line(ls[i]));
                }
            }
        }
        assert(t =~= f + seq![g] + more);
        lemma_heading_prefix(name);
        lemma_heading_prefix(other);
        reveal_strlit("## ");
        assert(h != heading_of(other)) by {
            if h == heading_of(other) {
                assert(h.skip(3) =~= name);
                assert(heading_of(other).skip(3) =~= other);
            }
        }
        lemma_value_no_heading(val, other);
        assert(trimmed(e) == e);
        assert forall|j: int| 0 <= j < more.len() implies trimmed(#[trigger] more[j])
            != heading_of(other) by {
            if j == 0 {
                assert(more[j] == e);
            } else {
                assert(more[j] == vs[j - 1]);
            }
        }
        lemma_section_before(f, g, more, other);
        if b.len() > 0 {
            assert(f =~= ls.push(e));
            lemma_section_blank_end(ls, other);
        } else {
            assert(f =~= ls);
        }
    }
}

/// The last text of a body with a section set is a line of the body, empty, or
/// the value.
proof fn lemma_replaced_last(ls: Seq<Seq<char>>, i: int, h: Seq<char>, val: Seq<char>)
    requires
        0 <= i < ls.len(),
        forall|j: int| 0 <= j < ls.len() ==> is_line(#[trigger] ls[j]),
        is_row_value(val),
    ensures
        ({
            let r = section_replaced(ls, i, h, val);
            r.len() > 0 && (r.last().len() == 0 || lines(r.last() + "\n"@) == lines(r.last()))
        }),
    decreases ls.len() - i,
{
    lemma_value_lines(val);
    let k = next_heading(ls, i + 1);
    lemma_next_heading(ls, i + 1);
    if trimmed(ls[i]) == h {
        if k < ls.len() {
            lemma_replaced_last(ls, k, h, val);
            let r = section_replaced(ls, i, h, val);
            let q = section_replaced(ls, k, h, val);
            assert(r.last() == q.last());
        } else {
            let r = section_replaced(ls, i, h, val);
            if i < k <= ls.len() {
                assert(section_replaced(ls, k, h, val) == Seq::<Seq<char>>::empty());
            }
            assert(r.last() == val);
        }
    } else if i + 1 < ls.len() {
        lemma_replaced_last(ls, i + 1, h, val);
        let r = section_replaced(ls, i, h, val);
        assert(r.last() == section_replaced(ls, i + 1, h, val).last());
    } else {
        let r = section_replaced(ls, i, h, val);
        assert(section_replaced(ls, i + 1, h, val) == Seq::<Seq<char>>::empty());
        assert(r =~= seq![ls[i]]);
        assert(is_line(ls[i]));
        lemma_single(ls[i]);
    }
}

} // verus!
