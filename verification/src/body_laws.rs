//! What the sections of a body are, and how they are merged and written.
use crate::crdt_resolver::{
    ended, headings_of, lww_winner, merged_headings, section_at, section_map, section_state,
    section_under, sections_of, with_new, written_sections, SectionState,
};
use crate::text::{self, has_prefix, has_suffix, join, lines, trimmed};
use crate::textmap::{self, keys};
use crate::types::ConflictFile;
use vstd::prelude::*;

verus! {

// ---------------------------------------------------------------------------
// Sections
// ---------------------------------------------------------------------------
/// The lines of a body: those before the first heading, then each heading with the lines
/// under it.
pub open spec fn laid_out(
    lead: Seq<Seq<char>>,
    heads: Seq<Seq<char>>,
    under: Seq<Seq<Seq<char>>>,
) -> Seq<Seq<char>>
    decreases heads.len(),
{
    if heads.len() == 0 {
        lead
    } else {
        laid_out(lead, heads.drop_last(), under.drop_last()) + seq![heads.last()] + under.last()
    }
}

/// Whether no line begins as a heading.
pub open spec fn no_heading(ls: Seq<Seq<char>>) -> bool {
    forall|i: int| 0 <= i < ls.len() ==> !has_prefix(#[trigger] ls[i], "## "@)
}

/// Whether lines are laid out as sections: just the headings begin as one.
pub open spec fn are_sections(
    lead: Seq<Seq<char>>,
    heads: Seq<Seq<char>>,
    under: Seq<Seq<Seq<char>>>,
) -> bool {
    &&& no_heading(lead)
    &&& heads.len() == under.len()
    &&& forall|i: int| 0 <= i < heads.len() ==> has_prefix(#[trigger] heads[i], "## "@)
    &&& forall|i: int| 0 <= i < under.len() ==> no_heading(#[trigger] under[i])
}

proof fn lemma_more_lines(ls: Seq<Seq<char>>, more: Seq<Seq<char>>)
    requires
        no_heading(more),
    ensures
        section_state(ls + more) == (SectionState {
            lines: section_state(ls).lines + more,
            ..section_state(ls)
        }),
    decreases more.len(),
{
    let s = section_state(ls);
    if more.len() == 0 {
        assert(ls + more =~= ls);
        assert(s.lines + more =~= s.lines);
    } else {
        let d = more.drop_last();
        assert forall|i: int| 0 <= i < d.len() implies !has_prefix(#[trigger] d[i], "## "@) by {
            assert(d[i] == more[i]);
        }
        lemma_more_lines(ls, d);
        assert((ls + more).drop_last() =~= ls + d);
        assert((ls + more).last() == more[more.len() - 1]);
        assert((s.lines + d).push(more.last()) =~= s.lines + more);
    }
}

proof fn lemma_laid_out(
    lead: Seq<Seq<char>>,
    heads: Seq<Seq<char>>,
    under: Seq<Seq<Seq<char>>>,
)
    requires
        are_sections(lead, heads, under),
    ensures
        ({
            let s = section_state(laid_out(lead, heads, under));
            let first = if lead.len() > 0 {
                1int
            } else {
                0int
            };
            if heads.len() == 0 {
                s.heading is None && s.lines == lead && s.sections.len() == 0
            } else {
                &&& s.heading == Some(trimmed(heads.last().skip(3)))
                &&& s.lines == under.last()
                &&& s.sections.len() == first + heads.len() - 1
                &&& lead.len() > 0 ==> s.sections[0] == (None::<Seq<char>>, join(lead, "\n"@))
                &&& forall|i: int|
                    0 <= i < heads.len() - 1 ==> s.sections[first + i] == (
                        Some(trimmed((#[trigger] heads[i]).skip(3))),
                        join(under[i], "\n"@),
                    )
            }
        }),
    decreases heads.len(),
{
    reveal_strlit("## ");
    let e = Seq::<Seq<char>>::empty();
    if heads.len() == 0 {
        lemma_more_lines(e, lead);
        assert(e + lead =~= lead);
        assert(section_state(e).lines =~= e);
    } else {
        let hd = heads.drop_last();
        let ud = under.drop_last();
        let n = heads.len() - 1;
        assert forall|i: int| 0 <= i < hd.len() implies has_prefix(#[trigger] hd[i], "## "@) by {
            assert(hd[i] == heads[i]);
        }
        assert forall|i: int| 0 <= i < ud.len() implies no_heading(#[trigger] ud[i]) by {
            assert(ud[i] == under[i]);
        }
        lemma_laid_out(lead, hd, ud);
        let p = laid_out(lead, hd, ud);
        let q = p + seq![heads.last()];
        assert(q.drop_last() =~= p);
        assert(has_prefix(heads[n], "## "@));
        assert(no_heading(under[n]));
        lemma_more_lines(q, under.last());
        let s = section_state(p);
        let t = section_state(q);
        assert(t.lines + under.last() =~= under.last());
        let first = if lead.len() > 0 {
            1int
        } else {
            0int
        };
        assert forall|i: int| 0 <= i < n implies t.sections[first + i] == (
            Some(trimmed((#[trigger] heads[i]).skip(3))),
            join(under[i], "\n"@),
        ) by {
            if i < n - 1 {
                assert(hd[i] == heads[i]);
                assert(t.sections[first + i] == s.sections[first + i]);
            } else {
                assert(hd.last() == heads[i]);
                assert(ud.last() == under[i]);
            }
        }
    }
}

/// A body is cut at its headings and nowhere else. Each section has the lines up to the next
/// heading, all of them; what is before the first heading is a section without one.
pub proof fn law_sections(
    body: Seq<char>,
    lead: Seq<Seq<char>>,
    heads: Seq<Seq<char>>,
    under: Seq<Seq<Seq<char>>>,
)
    requires
        are_sections(lead, heads, under),
        lines(body) == laid_out(lead, heads, under),
    ensures
        ({
            let s = sections_of(body);
            let first = if lead.len() > 0 || heads.len() == 0 {
                1int
            } else {
                0int
            };
            &&& s.len() == first + heads.len()
            &&& first == 1 ==> s[0] == (None::<Seq<char>>, join(lead, "\n"@))
            &&& forall|i: int|
                0 <= i < heads.len() ==> s[first + i] == (
                    Some(trimmed((#[trigger] heads[i]).skip(3))),
                    join(under[i], "\n"@),
                )
        }),
{
    lemma_laid_out(lead, heads, under);
    let n = heads.len() - 1;
    let s = section_state(lines(body));
    let r = sections_of(body);
    let first = if lead.len() > 0 || heads.len() == 0 {
        1int
    } else {
        0int
    };
    if heads.len() > 0 {
        assert forall|i: int| 0 <= i < heads.len() implies r[first + i] == (
            Some(trimmed((#[trigger] heads[i]).skip(3))),
            join(under[i], "\n"@),
        ) by {
            if i < n {
                assert(r[first + i] == s.sections[first + i]);
            } else {
                assert(heads.last() == heads[i] && under.last() == under[i]);
            }
        }
    }
}

/// Whether a section is the last under a heading.
pub open spec fn is_last_under(
    s: Seq<(Option<Seq<char>>, Seq<char>)>,
    heading: Option<Seq<char>>,
    i: int,
) -> bool {
    &&& 0 <= i < s.len()
    &&& s[i].0 == heading
    &&& forall|j: int| i < j < s.len() ==> (#[trigger] s[j]).0 != heading
}

proof fn lemma_section_map(s: Seq<(Option<Seq<char>>, Seq<char>)>, heading: Option<Seq<char>>)
    ensures
        text::ascending(keys(section_map(s).titled)),
        match section_at(section_map(s), heading) {
            Some(x) => exists|i: int| #[trigger] is_last_under(s, heading, i) && s[i].1 == x,
            None => forall|i: int| 0 <= i < s.len() ==> (#[trigger] s[i]).0 != heading,
        },
    decreases s.len(),
{
    if s.len() == 0 {
        assert(keys(section_map(s).titled) =~= Seq::empty());
    } else {
        let d = s.drop_last();
        let n = s.len() - 1;
        lemma_section_map(d, heading);
        let m = section_map(d);
        if let Some(h) = s.last().0 {
            textmap::law_put_sorted(m.titled, h, s.last().1);
            textmap::lemma_lookup_put(m.titled, h, s.last().1);
        }
        if s.last().0 == heading {
            assert(is_last_under(s, heading, n));
        } else {
            assert(section_at(section_map(s), heading) == section_at(m, heading));
            assert forall|i: int| 0 <= i < n implies #[trigger] s[i] == d[i] by {}
            if let Some(x) = section_at(m, heading) {
                let i = choose|i: int| #[trigger] is_last_under(d, heading, i) && d[i].1 == x;
                assert(is_last_under(s, heading, i));
            }
        }
    }
}

/// What a body has under a heading: its last section with the heading, or nothing.
pub proof fn law_section_under(body: Seq<char>, heading: Option<Seq<char>>, i: int)
    ensures
        is_last_under(sections_of(body), heading, i) ==> section_under(body, heading)
            == sections_of(body)[i].1,
        !headings_of(sections_of(body)).contains(heading) ==> section_under(body, heading).len()
            == 0,
{
    let s = sections_of(body);
    lemma_section_map(s, heading);
    if is_last_under(s, heading, i) {
        let x = section_at(section_map(s), heading);
        assert(x is Some);
        let j = choose|j: int| #[trigger] is_last_under(s, heading, j) && s[j].1 == x->0;
        if i < j {
            assert(s[j].0 != heading);
        }
        if j < i {
            assert(s[i].0 != heading);
        }
    }
    if !headings_of(s).contains(heading) {
        if section_at(section_map(s), heading) is Some {
            let j = choose|j: int| #[trigger] is_last_under(s, heading, j);
            assert(headings_of(s)[j] == heading);
        }
    }
}

// ---------------------------------------------------------------------------
// Headings of two bodies
// ---------------------------------------------------------------------------
proof fn lemma_with_new(
    hs: Seq<Option<Seq<char>>>,
    more: Seq<Option<Seq<char>>>,
)
    requires
        hs.no_duplicates(),
    ensures
        with_new(hs, more).no_duplicates(),
        with_new(hs, more).len() >= hs.len(),
        with_new(hs, more).take(hs.len() as int) == hs,
        forall|h: Option<Seq<char>>| #[trigger]
            with_new(hs, more).contains(h) == (hs.contains(h) || more.contains(h)),
    decreases more.len(),
{
    let r = with_new(hs, more);
    if more.len() == 0 {
        assert(r.take(hs.len() as int) =~= hs);
    } else {
        let d = more.drop_last();
        let n = more.len() - 1;
        let l = more.last();
        let p = with_new(hs, d);
        lemma_with_new(hs, d);
        assert(r.take(hs.len() as int) =~= p.take(hs.len() as int));
        assert forall|h: Option<Seq<char>>| #[trigger] r.contains(h) == (hs.contains(h)
            || more.contains(h)) by {
            if r.contains(h) {
                let i = r.index_of(h);
                if i < p.len() {
                    assert(p[i] == h);
                    assert(p.contains(h));
                    if d.contains(h) {
                        assert(more[d.index_of(h)] == h);
                    }
                } else {
                    assert(more[n] == h);
                }
            }
            if hs.contains(h) || d.contains(h) {
                assert(p.contains(h));
                assert(r[p.index_of(h)] == h);
            }
            if more.contains(h) {
                let i = more.index_of(h);
                if i < n {
                    assert(d[i] == h);
                } else if !p.contains(l) {
                    assert(r[p.len() as int] == h);
                } else {
                    assert(r == p);
                }
            }
        }
    }
}

/// A merged body has the headings of both bodies, each once: first those of ours, then those
/// that only theirs has.
pub proof fn law_merged_headings(o: Seq<char>, t: Seq<char>, h: Option<Seq<char>>)
    ensures
        ({
            let r = merged_headings(o, t);
            let a = with_new(Seq::empty(), headings_of(sections_of(o)));
            &&& r.no_duplicates()
            &&& r.contains(h) == (headings_of(sections_of(o)).contains(h) || headings_of(
                sections_of(t),
            ).contains(h))
            &&& a.len() <= r.len() && r.take(a.len() as int) == a
            &&& a.contains(h) == headings_of(sections_of(o)).contains(h)
        }),
{
    let e = Seq::<Option<Seq<char>>>::empty();
    let x = headings_of(sections_of(o));
    let y = headings_of(sections_of(t));
    lemma_with_new(e, x);
    lemma_with_new(with_new(e, x), y);
    assert(!e.contains(h));
    assert(with_new(e, x).contains(h) == x.contains(h));
    assert(merged_headings(o, t).contains(h) == (with_new(e, x).contains(h) || y.contains(h)));
}

/// Headings that differ from each other keep their order.
pub proof fn law_headings_in_order(hs: Seq<Option<Seq<char>>>)
    requires
        hs.no_duplicates(),
    ensures
        with_new(Seq::empty(), hs) == hs,
    decreases hs.len(),
{
    if hs.len() > 0 {
        let d = hs.drop_last();
        law_headings_in_order(d);
        if d.contains(hs.last()) {
            assert(hs[d.index_of(hs.last())] == hs[hs.len() - 1]);
        }
        assert(d.push(hs.last()) =~= hs);
    }
}

// ---------------------------------------------------------------------------
// Writing
// ---------------------------------------------------------------------------
/// Sections are written one after the other: what is written before is kept, and each stands
/// under its heading.
pub proof fn law_written_sections(hs: Seq<Option<Seq<char>>>, ms: Seq<Seq<char>>, n: int, i: int)
    requires
        0 <= i < n <= hs.len() == ms.len(),
    ensures
        has_prefix(written_sections(hs, ms, n), written_sections(hs, ms, i + 1)),
        has_suffix(
            written_sections(hs, ms, i + 1),
            match hs[i] {
                Some(h) => "## "@ + h + "\n"@ + ended(ms[i]),
                None => ended(ms[i]),
            },
        ),
        has_prefix(ended(ms[i]), ms[i]),
        ended(ms[i]).last() == '\n',
        ended(ms[i]).len() <= ms[i].len() + 1,
    decreases n,
{
    reveal_strlit("\n");
    reveal_strlit("## ");
    let w = written_sections(hs, ms, n);
    let v = written_sections(hs, ms, i + 1);
    if i + 1 < n {
        law_written_sections(hs, ms, n - 1, i);
        let p = written_sections(hs, ms, n - 1);
        assert(w.take(v.len() as int) =~= p.take(v.len() as int));
    } else {
        assert(w.take(v.len() as int) =~= v);
        let x = match hs[i] {
            Some(h) => "## "@ + h + "\n"@ + ended(ms[i]),
            None => ended(ms[i]),
        };
        assert(v.skip(v.len() - x.len()) =~= x);
        let m = ms[i];
        assert(ended(m).take(m.len() as int) =~= m);
        if has_suffix(m, "\n"@) {
            assert(m.skip(m.len() - 1)[0] == '\n');
        }
    }
}

/// A section adds to what is written before it its heading and its lines alone, with a blank line
/// between.
pub proof fn law_written_apart(hs: Seq<Option<Seq<char>>>, ms: Seq<Seq<char>>, i: int)
    requires
        0 <= i < hs.len() == ms.len(),
    ensures
        has_prefix(written_sections(hs, ms, i + 1), written_sections(hs, ms, i)),
        written_sections(hs, ms, i + 1).len() == written_sections(hs, ms, i).len() + (match hs[i] {
            Some(h) => h.len() + 4 + if i > 0 && written_sections(hs, ms, i).len() > 0 {
                1int
            } else {
                0
            },
            None => 0,
        }) + ended(ms[i]).len(),
        (hs[i] is Some && written_sections(hs, ms, i).len() > 0) ==> written_sections(
            hs,
            ms,
            i + 1,
        )[written_sections(hs, ms, i).len() as int] == '\n',
{
    reveal_strlit("\n");
    reveal_strlit("## ");
    let u = written_sections(hs, ms, i);
    let v = written_sections(hs, ms, i + 1);
    assert(v.take(u.len() as int) =~= u);
}

// ---------------------------------------------------------------------------
// The last writer
// ---------------------------------------------------------------------------
/// The side with the later time stamp wins; with equal ones, or where one is not known, ours
/// does.
pub proof fn law_last_writer(c: ConflictFile)
    ensures
        c.ours_hlc is None || c.theirs_hlc is None ==> lww_winner(c) == c.ours@,
        c.ours_hlc is Some && c.theirs_hlc is Some && c.ours_hlc->0.before(c.theirs_hlc->0)
            ==> lww_winner(c) == c.theirs@,
        c.ours_hlc is Some && c.theirs_hlc is Some && !c.ours_hlc->0.before(c.theirs_hlc->0)
            ==> lww_winner(c) == c.ours@,
{
}

} // verus!
