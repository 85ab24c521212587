//! Reading a note, writing it and reading it again.
use crate::error::ErrorView;
use crate::front_laws::lemma_end_prefix;
use crate::merge::{filled, ref_items};
use crate::parser::{
    all_blank, are_lines, boundary, fenced, first_rule, frontmatter_bounds, frontmatter_of,
    is_fence, is_line, is_rule, is_separator, law_zones_round_trip, lemma_fenced_from,
    lemma_fenced_shift, lemma_first_rule, lemma_lines_after, lemma_lines_join, lemma_lines_unlines,
    lemma_one_line, lemma_rule_line, meta_text, only_refs, parsed_zettel, ref_flags, reference_text,
    refs_are_marked, separators, serialized, split_view, unlines,
};
use crate::patterns::{matched, REF_LINE};
use crate::text::{self, join, lines};
use crate::types::{MetaView, ZettelView, ZonesView};
use vstd::prelude::*;

verus! {

/// What is known of the boundary of the reference section.
proof fn lemma_boundary(ls: Seq<Seq<char>>, refs: Seq<bool>, from: int, m: int, end: int)
    requires
        0 <= from <= m <= end <= ls.len(),
        forall|i: int| m <= i < end ==> !#[trigger] is_separator(ls, from, i),
    ensures
        ({
            let (start, e) = boundary(ls, refs, separators(ls, from, m), end);
            start matches Some(p) ==> {
                &&& from <= p < e <= end
                &&& is_separator(ls, from, p)
                &&& forall|i: int| p < i < e ==> !#[trigger] is_separator(ls, from, i)
                &&& !all_blank(ls, p + 1, e)
                &&& only_refs(ls, refs, p + 1, e)
            }
        }),
    decreases m - from,
{
    if m > from {
        let s = separators(ls, from, m - 1);
        if is_separator(ls, from, m - 1) {
            assert(s.push(m - 1).drop_last() =~= s);
            if all_blank(ls, m, end) {
                lemma_boundary(ls, refs, from, m - 1, m - 1);
            }
        } else {
            assert forall|i: int| m - 1 <= i < end implies !#[trigger] is_separator(
                ls,
                from,
                i,
            ) by {
                if i == m - 1 {
                }
            }
            lemma_boundary(ls, refs, from, m - 1, end);
        }
    }
}

/// The boundary depends on the lines after the front matter alone.
proof fn lemma_boundary_shift(
    ls: Seq<Seq<char>>,
    a: int,
    ns: Seq<Seq<char>>,
    c: int,
    len: int,
    j: int,
    end: int,
)
    requires
        0 <= a,
        0 <= c,
        0 <= j <= end <= len,
        a + len <= ls.len(),
        c + len <= ns.len(),
        forall|k: int| 0 <= k < len ==> #[trigger] ls[a + k] == ns[c + k],
    ensures
        ({
            let (p, e) = boundary(ls, ref_flags(ls), separators(ls, a, a + j), a + end);
            let (q, f) = boundary(ns, ref_flags(ns), separators(ns, c, c + j), c + end);
            (p is Some) == (q is Some)
        }),
    decreases j,
{
    if j > 0 {
        let k = j - 1;
        lemma_fenced_same(ls, a, ns, c, len, k);
        assert(ls[a + k] == ns[c + k]);
        let s = separators(ls, a, a + k);
        let t = separators(ns, c, c + k);
        if is_separator(ls, a, a + k) {
            assert(s.push(a + k).drop_last() =~= s);
            assert(t.push(c + k).drop_last() =~= t);
            assert(all_blank(ls, a + k + 1, a + end) == all_blank(ns, c + k + 1, c + end)) by {
                if all_blank(ls, a + k + 1, a + end) {
                    assert forall|i: int| c + k + 1 <= i < c + end implies text::is_blank(
                        #[trigger] ns[i],
                    ) by {
                        assert(ls[a + (i - c)] == ns[c + (i - c)]);
                    }
                }
                if all_blank(ns, c + k + 1, c + end) {
                    assert forall|i: int| a + k + 1 <= i < a + end implies text::is_blank(
                        #[trigger] ls[i],
                    ) by {
                        assert(ls[a + (i - a)] == ns[c + (i - a)]);
                    }
                }
            }
            assert(only_refs(ls, ref_flags(ls), a + k + 1, a + end) == only_refs(
                ns,
                ref_flags(ns),
                c + k + 1,
                c + end,
            )) by {
                if only_refs(ls, ref_flags(ls), a + k + 1, a + end) {
                    assert forall|i: int|
                        c + k + 1 <= i < c + end && !text::is_blank(#[trigger] ns[i]) implies
                        ref_flags(ns)[i] by {
                        assert(ls[a + (i - c)] == ns[c + (i - c)]);
                        assert(ref_flags(ls)[a + (i - c)]);
                    }
                }
                if only_refs(ns, ref_flags(ns), c + k + 1, c + end) {
                    assert forall|i: int|
                        a + k + 1 <= i < a + end && !text::is_blank(#[trigger] ls[i]) implies
                        ref_flags(ls)[i] by {
                        assert(ls[a + (i - a)] == ns[c + (i - a)]);
                        assert(ref_flags(ns)[c + (i - a)]);
                    }
                }
            }
            lemma_boundary_shift(ls, a, ns, c, len, k, k);
        } else {
            lemma_boundary_shift(ls, a, ns, c, len, k, end);
        }
    }
}

proof fn lemma_fenced_same(
    ls: Seq<Seq<char>>,
    a: int,
    ns: Seq<Seq<char>>,
    c: int,
    len: int,
    k: int,
)
    requires
        0 <= k <= len,
        forall|i: int| 0 <= i < len ==> #[trigger] ls[a + i] == ns[c + i],
    ensures
        fenced(ls, a, a + k) == fenced(ns, c, c + k),
    decreases k,
{
    if k > 0 {
        lemma_fenced_same(ls, a, ns, c, len, k - 1);
        assert(ls[a + (k - 1)] == ns[c + (k - 1)]);
    }
}

/// The place of the first rule is a rule.
proof fn lemma_first_rule_is(ls: Seq<Seq<char>>, from: int)
    requires
        0 <= from,
    ensures
        first_rule(ls, from) < ls.len() ==> from <= first_rule(ls, from),
    decreases ls.len() - from,
{
    if from < ls.len() && !is_rule(ls[from]) {
        lemma_first_rule_is(ls, from + 1);
    }
}

/// A text made of lines that does not end with a line feed has those lines.
proof fn lemma_part_lines(part: Seq<Seq<char>>)
    requires
        are_lines(part),
        join(part, "\n"@).len() > 0,
        join(part, "\n"@).last() != '\n',
    ensures
        part.len() > 0,
        part.last().len() > 0,
        lines(join(part, "\n"@)) == part,
{
    reveal_strlit("\n");
    let t = join(part, "\n"@);
    assert(part.len() > 0);
    if part.last().len() == 0 {
        if part.len() > 1 {
            assert(t == join(part.drop_last(), "\n"@) + "\n"@ + part.last());
            assert(t.last() == '\n');
        }
    }
    lemma_lines_join(part);
}

/// Whether the text of a note comes back when it is cut into zones, written and
/// cut again: no line ends with a carriage return, and the last zone does not
/// end with an empty line.
pub open spec fn is_settled(content: Seq<char>) -> bool {
    &&& are_lines(lines(content))
    &&& split_view(content) matches Ok(z) ==> if z.reference.len() > 0 {
        z.reference.last() != '\n'
    } else {
        z.body.len() > 0 ==> z.body.last() != '\n'
    }
}

/// Whether some lines are the front matter of a note: they are what is written
/// for it, and none of them is a rule.
pub open spec fn are_front(m: MetaView, front: Seq<Seq<char>>) -> bool {
    &&& meta_text(m) == unlines(front)
    &&& are_lines(front)
    &&& forall|i: int| 0 <= i < front.len() ==> !is_rule(#[trigger] front[i])
}

pub proof fn lemma_no_body(front: Seq<Seq<char>>)
    requires
        are_lines(front),
        forall|i: int| 0 <= i < front.len() ==> !is_rule(#[trigger] front[i]),
    ensures
        split_view("---\n"@ + unlines(front) + "---\n"@ + Seq::<char>::empty()) == Ok::<
            ZonesView,
            ErrorView,
        >(
            ZonesView {
                frontmatter: join(front, "\n"@),
                body: Seq::empty(),
                reference: Seq::empty(),
            },
        ),
{
    let none = Seq::<Seq<char>>::empty();
    assert forall|i: int| 0 <= i < none.len() implies !#[trigger] is_separator(none, 0, i) by {}
    crate::parser::law_no_false_reference(front, none);
}

/// A note without reference section.
#[verifier::spinoff_prover]
proof fn lemma_again_plain(
    ls: Seq<Seq<char>>,
    b: int,
    front: Seq<Seq<char>>,
)
    requires
        are_lines(ls),
        0 <= b < ls.len(),
        boundary(
            ls,
            ref_flags(ls),
            separators(ls, b + 1, ls.len() as int),
            ls.len() as int,
        ).0 is None,
        join(ls.subrange(b + 1, ls.len() as int), "\n"@).len() > 0,
        join(ls.subrange(b + 1, ls.len() as int), "\n"@).last() != '\n',
        are_lines(front),
        forall|i: int| 0 <= i < front.len() ==> !is_rule(#[trigger] front[i]),
    ensures
        split_view(
            "---\n"@ + unlines(front) + "---\n"@ + join(
                ls.subrange(b + 1, ls.len() as int),
                "\n"@,
            ),
        ) == Ok::<ZonesView, ErrorView>(
            ZonesView {
                frontmatter: join(front, "\n"@),
                body: join(ls.subrange(b + 1, ls.len() as int), "\n"@),
                reference: Seq::empty(),
            },
        ),
{
    lemma_rule_line();
    reveal_strlit("\n");
    let r = "---"@;
    let n = ls.len() as int;
    let body = ls.subrange(b + 1, n);
    let bt = join(body, "\n"@);
    assert forall|i: int| 0 <= i < body.len() implies is_line(#[trigger] body[i]) by {
        assert(body[i] == ls[b + 1 + i]);
    }
    lemma_part_lines(body);
    let t0 = "---\n"@;
    let head = t0 + unlines(front);
    let t1 = head + t0;
    lemma_one_line(r);
    lemma_lines_unlines(front);
    lemma_lines_after(t0, unlines(front));
    lemma_lines_after(head, t0);
    lemma_lines_after(t1, bt);
    let whole = t0 + unlines(front) + t0 + bt;
    let ns = seq![r] + front + seq![r] + body;
    assert(lines(whole) =~= ns);
    let c = front.len() as int + 1;
    assert(ns[0] == r && ns[c] == r);
    lemma_first_rule(ns, 0, 0);
    assert forall|i: int| 1 <= i < c implies !is_rule(#[trigger] ns[i]) by {
        assert(ns[i] == front[i - 1]);
    }
    lemma_first_rule(ns, 1, c);
    let len: int = body.len() as int;
    assert forall|k: int| 0 <= k < len implies #[trigger] ls[b + 1 + k] == ns[c + 1 + k] by {
        assert(body[k] == ls[b + 1 + k]);
        assert(ns[c + 1 + k] == body[k]);
    }
    lemma_boundary_shift(ls, b + 1, ns, c + 1, len, len, len);
    assert(ns.subrange(1, c) =~= front);
    assert(ns.subrange(c + 1, ns.len() as int) =~= body);
}

/// A note with a reference section.
#[verifier::spinoff_prover]
proof fn lemma_again_refs(
    ls: Seq<Seq<char>>,
    b: int,
    p: int,
    e: int,
    front: Seq<Seq<char>>,
)
    requires
        are_lines(ls),
        0 <= b < ls.len(),
        boundary(ls, ref_flags(ls), separators(ls, b + 1, ls.len() as int), ls.len() as int) == (
            Some(p),
            e,
        ),
        join(ls.subrange(p + 1, e), "\n"@).len() > 0 ==> join(
            ls.subrange(p + 1, e),
            "\n"@,
        ).last() != '\n',
        are_lines(front),
        forall|i: int| 0 <= i < front.len() ==> !is_rule(#[trigger] front[i]),
    ensures
        split_view(
            "---\n"@ + unlines(front) + "---\n"@ + join(ls.subrange(b + 1, p), "\n"@)
                + reference_text(join(ls.subrange(p + 1, e), "\n"@)),
        ) == Ok::<ZonesView, ErrorView>(
            ZonesView {
                frontmatter: join(front, "\n"@),
                body: join(ls.subrange(b + 1, p), "\n"@),
                reference: join(ls.subrange(p + 1, e), "\n"@),
            },
        ),
        join(ls.subrange(p + 1, e), "\n"@).len() > 0,
{
    let n = ls.len() as int;
    let f = b + 1;
    lemma_boundary(ls, ref_flags(ls), f, n, n);
    let refs = ls.subrange(p + 1, e);
    let cut = ls.subrange(f, p);
    let body = if cut.len() == 0 {
        seq![Seq::<char>::empty()]
    } else {
        cut
    };
    assert(join(body, "\n"@) == join(cut, "\n"@));
    assert forall|i: int| 0 <= i < refs.len() implies is_line(#[trigger] refs[i]) by {
        assert(refs[i] == ls[p + 1 + i]);
    }
    assert forall|i: int| 0 <= i < body.len() implies is_line(#[trigger] body[i]) by {
        if cut.len() > 0 {
            assert(body[i] == ls[f + i]);
        } else {
            assert(!body[i].contains('\n'));
        }
    }
    let w = choose|i: int| p + 1 <= i < e && !text::is_blank(#[trigger] ls[i]);
    assert(!all_blank(ls, p + 1, e));
    assert(p + 1 <= w < e && !text::is_blank(ls[w]));
    assert(refs[w - p - 1] == ls[w]);
    lemma_join_holds(refs, w - p - 1);
    lemma_part_lines(refs);
    // No fenced block is open at the end of the body.
    assert(!fenced(ls, f, p));
    if cut.len() > 0 {
        assert forall|j: int| 0 <= j < cut.len() implies ls[f + j] == #[trigger] cut[j] by {}
        lemma_fenced_shift(ls, cut, f, cut.len() as int);
    } else {
        assert(!fenced(body, 0, 1)) by {
            let x = Seq::<char>::empty();
            reveal_strlit("```");
            reveal_strlit("~~~");
            assert(body[0] == x);
            assert(text::trimmed(x) == x);
            assert(!fenced(body, 0, 0));
        }
    }
    assert(!fenced(ls, f, p + 1));
    assert forall|j: int| 0 <= j < refs.len() implies ls[p + 1 + j] == #[trigger] refs[j] by {}
    assert forall|i: int| 0 <= i < refs.len() implies !#[trigger] is_separator(refs, 0, i) by {
        lemma_fenced_from(ls, f, p + 1, p + 1 + i);
        lemma_fenced_shift(ls, refs, p + 1, i);
        assert(!is_separator(ls, f, p + 1 + i));
        assert(refs[i] == ls[p + 1 + i]);
    }
    assert forall|i: int| 0 <= i < refs.len() implies text::is_blank(#[trigger] refs[i])
        || matched(REF_LINE@, refs[i]) by {
        assert(refs[i] == ls[p + 1 + i]);
        if !text::is_blank(refs[i]) {
            assert(ref_flags(ls)[p + 1 + i]);
        }
    }
    law_zones_round_trip(front, body, refs);
}

/// A joined text is not empty where one of its parts is not.
proof fn lemma_join_holds(part: Seq<Seq<char>>, i: int)
    requires
        0 <= i < part.len(),
        !text::is_blank(part[i]),
    ensures
        join(part, "\n"@).len() > 0,
    decreases part.len(),
{
    reveal_strlit("\n");
    if part[i].len() == 0 {
        assert(text::trimmed(part[i]) == part[i]);
    }
    if part.len() == 1 {
        assert(part[0] == part[i]);
    }
}

/// A note as text, from the lines of its front matter.
pub open spec fn note_of(front: Seq<Seq<char>>, body: Seq<char>, reference: Seq<char>) -> Seq<char> {
    "---\n"@ + unlines(front) + "---\n"@ + body + reference_text(reference)
}

/// A note that is cut into zones, written with some lines of front matter and cut
/// again has the same body and the same reference section, and that front matter.
pub proof fn law_split_front(content: Seq<char>, front: Seq<Seq<char>>)
    requires
        split_view(content) is Ok,
        is_settled(content),
        are_lines(front),
        forall|i: int| 0 <= i < front.len() ==> !is_rule(#[trigger] front[i]),
    ensures
        ({
            let z = split_view(content)->Ok_0;
            split_view(note_of(front, z.body, z.reference)) == Ok::<ZonesView, ErrorView>(
                ZonesView {
                    frontmatter: join(front, "\n"@),
                    body: z.body,
                    reference: z.reference,
                },
            )
        }),
{
    let ls = lines(content);
    let n = ls.len() as int;
    let z = split_view(content)->Ok_0;
    let (a, b) = frontmatter_bounds(ls)->Ok_0;
    lemma_first_rule_is(ls, 0);
    lemma_first_rule_is(ls, a + 1);
    assert(0 <= b < n);
    let (start, e) = boundary(ls, ref_flags(ls), separators(ls, b + 1, n), n);
    if start is Some {
        let p = start->0;
        lemma_again_refs(ls, b, p, e, front);
    } else {
        let bt = join(ls.subrange(b + 1, n), "\n"@);
        let head = "---\n"@ + unlines(front) + "---\n"@;
        if bt.len() == 0 {
            assert(bt =~= Seq::<char>::empty());
            lemma_no_body(front);
        } else {
            lemma_again_plain(ls, b, front);
        }
        assert(head + bt + reference_text(Seq::empty()) =~= head + bt);
    }
}

/// A line that begins with a hyphen and a space is no rule and no fence.
proof fn lemma_marked(x: Seq<char>)
    requires
        text::has_prefix(x, "- "@),
    ensures
        !is_rule(x),
        !is_fence(x),
{
    reveal_strlit("- ");
    reveal_strlit("---");
    reveal_strlit("```");
    reveal_strlit("~~~");
    assert(x.take(2)[0] == '-' && x.take(2)[1] == ' ');
    assert(x[0] == '-' && x[1] == ' ');
    assert(text::trimmed_start(x) == x);
    lemma_end_prefix(x);
    let t = text::trimmed(x);
    if is_rule(x) {
        assert(t[1] == x[1]);
    }
    if text::has_prefix(t, "```"@) {
        assert(t.take(3)[0] == t[0]);
        assert(t[0] == x[0]);
    }
    if text::has_prefix(t, "~~~"@) {
        assert(t.take(3)[0] == t[0]);
        assert(t[0] == x[0]);
    }
}

/// Lines that begin with a hyphen and a space hold no fence.
proof fn lemma_marked_lines(ls: Seq<Seq<char>>, i: int)
    requires
        0 <= i <= ls.len(),
        forall|j: int| 0 <= j < ls.len() ==> text::has_prefix(#[trigger] ls[j], "- "@),
    ensures
        !fenced(ls, 0, i),
    decreases i,
{
    if i > 0 {
        lemma_marked_lines(ls, i - 1);
        lemma_marked(ls[i - 1]);
    }
}

proof fn lemma_filled(ls: Seq<Seq<char>>, x: Seq<char>)
    requires
        filled(ls).contains(x),
    ensures
        ls.contains(x),
        !text::is_blank(x),
    decreases ls.len(),
{
    if ls.len() > 0 {
        let d = ls.drop_last();
        if !text::is_blank(ls.last()) && x == ls.last() {
            assert(ls[ls.len() - 1] == x);
        } else {
            let f = filled(ls);
            let i = f.index_of(x);
            if !text::is_blank(ls.last()) {
                assert(filled(d)[i] == x);
            }
            lemma_filled(d, x);
            assert(ls[d.index_of(x)] == x);
        }
    }
}

/// A note that is cut into zones, written with some lines of front matter and with
/// some of its reference lines, in whatever order, and cut again has the same body,
/// that front matter and those reference lines.
#[verifier::spinoff_prover]
pub proof fn law_split_references(
    content: Seq<char>,
    front: Seq<Seq<char>>,
    refs: Seq<Seq<char>>,
)
    requires
        split_view(content) is Ok,
        is_settled(content),
        refs_are_marked(lines(content)),
        are_lines(front),
        forall|i: int| 0 <= i < front.len() ==> !is_rule(#[trigger] front[i]),
        refs.len() > 0,
        forall|i: int|
            0 <= i < refs.len() ==> ref_items(split_view(content)->Ok_0.reference).contains(
                #[trigger] refs[i],
            ),
    ensures
        ({
            let z = split_view(content)->Ok_0;
            split_view(note_of(front, z.body, join(refs, "\n"@))) == Ok::<ZonesView, ErrorView>(
                ZonesView {
                    frontmatter: join(front, "\n"@),
                    body: z.body,
                    reference: join(refs, "\n"@),
                },
            )
        }),
{
    let ls = lines(content);
    let n = ls.len() as int;
    let z = split_view(content)->Ok_0;
    let (a, b) = frontmatter_bounds(ls)->Ok_0;
    lemma_first_rule_is(ls, 0);
    lemma_first_rule_is(ls, a + 1);
    let f = b + 1;
    let (start, e) = boundary(ls, ref_flags(ls), separators(ls, f, n), n);
    assert(ref_items(z.reference).contains(refs[0]));
    if start is None {
        let none = Seq::<char>::empty();
        lemma_filled(lines(none), refs[0]);
        assert(lines(none) =~= Seq::<Seq<char>>::empty());
    } else {
        let p = start->0;
        lemma_boundary(ls, ref_flags(ls), f, n, n);
        let old = ls.subrange(p + 1, e);
        let cut = ls.subrange(f, p);
        let body = if cut.len() == 0 {
            seq![Seq::<char>::empty()]
        } else {
            cut
        };
        assert(join(body, "\n"@) == join(cut, "\n"@));
        assert forall|i: int| 0 <= i < body.len() implies is_line(#[trigger] body[i]) by {
            if cut.len() > 0 {
                assert(body[i] == ls[f + i]);
            } else {
                assert(!body[i].contains('\n'));
            }
        }
        assert forall|i: int| 0 <= i < old.len() implies is_line(#[trigger] old[i]) by {
            assert(old[i] == ls[p + 1 + i]);
        }
        let w = choose|i: int| p + 1 <= i < e && !text::is_blank(#[trigger] ls[i]);
        assert(!all_blank(ls, p + 1, e));
        assert(old[w - p - 1] == ls[w]);
        lemma_join_holds(old, w - p - 1);
        lemma_part_lines(old);
        assert(!fenced(ls, f, p));
        if cut.len() > 0 {
            assert forall|j: int| 0 <= j < cut.len() implies ls[f + j] == #[trigger] cut[j] by {}
            lemma_fenced_shift(ls, cut, f, cut.len() as int);
        } else {
            assert(!fenced(body, 0, 1)) by {
                let x = Seq::<char>::empty();
                reveal_strlit("```");
                reveal_strlit("~~~");
                assert(body[0] == x);
                assert(text::trimmed(x) == x);
                assert(!fenced(body, 0, 0));
            }
        }
        assert forall|i: int| 0 <= i < refs.len() implies is_line(#[trigger] refs[i])
            && !text::is_blank(refs[i]) && matched(REF_LINE@, refs[i]) && text::has_prefix(
            refs[i],
            "- "@,
        ) by {
            lemma_filled(old, refs[i]);
            let j = old.index_of(refs[i]);
            assert(old[j] == ls[p + 1 + j]);
            assert(ref_flags(ls)[p + 1 + j]);
            assert(matched(REF_LINE@, ls[p + 1 + j]));
        }
        assert forall|i: int| 0 <= i < refs.len() implies !#[trigger] is_separator(refs, 0, i) by {
            lemma_marked_lines(refs, i);
            lemma_marked(refs[i]);
        }
        assert(refs.last().len() > 0) by {
            reveal_strlit("- ");
            assert(text::has_prefix(refs[refs.len() - 1], "- "@));
        }
        assert(!text::is_blank(refs[0]));
        law_zones_round_trip(front, body, refs);
    }
}

proof fn lemma_filled_has(ls: Seq<Seq<char>>, i: int)
    requires
        0 <= i < ls.len(),
        !text::is_blank(ls[i]),
    ensures
        filled(ls).len() > 0,
    decreases ls.len(),
{
    let d = ls.drop_last();
    if text::is_blank(ls.last()) {
        assert(d[i] == ls[i]);
        lemma_filled_has(d, i);
    }
}

/// A reference section that is there holds a line that is not blank.
pub(crate) proof fn lemma_reference_filled(content: Seq<char>)
    requires
        split_view(content) is Ok,
        is_settled(content),
    ensures
        split_view(content)->Ok_0.reference.len() > 0 ==> ref_items(
            split_view(content)->Ok_0.reference,
        ).len() > 0,
{
    let ls = lines(content);
    let n = ls.len() as int;
    let z = split_view(content)->Ok_0;
    let (a, b) = frontmatter_bounds(ls)->Ok_0;
    lemma_first_rule_is(ls, 0);
    lemma_first_rule_is(ls, a + 1);
    let (start, e) = boundary(ls, ref_flags(ls), separators(ls, b + 1, n), n);
    if start is Some && z.reference.len() > 0 {
        let p = start->0;
        lemma_boundary(ls, ref_flags(ls), b + 1, n, n);
        let old = ls.subrange(p + 1, e);
        assert forall|i: int| 0 <= i < old.len() implies is_line(#[trigger] old[i]) by {
            assert(old[i] == ls[p + 1 + i]);
        }
        lemma_part_lines(old);
        let w = choose|i: int| p + 1 <= i < e && !text::is_blank(#[trigger] ls[i]);
        assert(!all_blank(ls, p + 1, e));
        assert(old[w - p - 1] == ls[w]);
        lemma_filled_has(old, w - p - 1);
    }
}

/// A note that is cut into zones, written with some front matter and cut again
/// has the same body and the same reference section, and that front matter.
pub proof fn law_split_again(content: Seq<char>, m: MetaView, front: Seq<Seq<char>>)
    requires
        split_view(content) is Ok,
        is_settled(content),
        are_front(m, front),
    ensures
        ({
            let z = split_view(content)->Ok_0;
            split_view(serialized(m, z.body, z.reference)) == Ok::<ZonesView, ErrorView>(
                ZonesView {
                    frontmatter: join(front, "\n"@),
                    body: z.body,
                    reference: z.reference,
                },
            )
        }),
{
    law_split_front(content, front);
}

/// Reading a note, writing it and reading it again gives the same body, the
/// same reference section and the same inline fields. Where the front matter
/// that is written is read as what it was written from, the whole note but for
/// links in the front matter comes back.
pub proof fn law_parse_again(content: Seq<char>, path: Seq<char>, front: Seq<Seq<char>>)
    requires
        parsed_zettel(content, path) is Ok,
        is_settled(content),
        are_front(parsed_zettel(content, path)->Ok_0.meta, front),
    ensures
        ({
            let z = parsed_zettel(content, path)->Ok_0;
            let again = parsed_zettel(serialized(z.meta, z.body, z.reference), path);
            match frontmatter_of(join(front, "\n"@), path) {
                Ok(m) => again matches Ok(y) && y.meta == m && y.body == z.body && y.reference
                    == z.reference && y.fields == z.fields && y.path == z.path,
                Err(x) => again == Err::<ZettelView, ErrorView>(x),
            }
        }),
{
    let z = parsed_zettel(content, path)->Ok_0;
    law_split_again(content, z.meta, front);
}

} // verus!
