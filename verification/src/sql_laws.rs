//! What statements leave in the store and what they leave alone.
use crate::error::{ErrorView, ZettelError};
use crate::front_laws::{front_entries, is_plain_meta, law_new_meta_read};
use crate::parse_laws::is_settled;
use crate::parser::{
    extras_text, is_reading, meta_text, opt_line, parsed_zettel, promoted_text, quoted_line,
    reference_text, serialized, tags_text, with_path_id,
};
use crate::picks::{lemma_pick_more, lemma_pick_none, lemma_picked_members, picked};
use crate::rows::typed_value;
use crate::sql::{literal, SqlExpr};
use crate::sql_engine::{
    is_deleted, is_untyping, kept_deletes, kept_writes, last_write, untyped_text, PendingDelete,
    PendingWrite,
};
use crate::text::{self, parsed_signed, scanned};
use crate::yaml::real_of_signed;
use crate::types::{MetaView, ParsedZettel, ValueView};
use vstd::prelude::*;

verus! {

// ---------------------------------------------------------------------------
// Commits
// ---------------------------------------------------------------------------
proof fn lemma_kept_deletes(ds: Seq<PendingDelete>, stored: Seq<bool>)
    requires
        ds.len() <= stored.len(),
    ensures
        picked(
            kept_deletes(ds, stored),
            Seq::new(ds.len(), |i: int| ds[i].path@),
            |i: int| stored[i],
        ),
    decreases ds.len(),
{
    let whole = Seq::new(ds.len(), |i: int| ds[i].path@);
    let keep = |i: int| stored[i];
    if ds.len() == 0 {
        assert(whole =~= Seq::<Seq<char>>::empty());
        lemma_pick_none::<Seq<char>>(keep);
    } else {
        let d = ds.drop_last();
        lemma_kept_deletes(d, stored);
        assert(whole.drop_last() =~= Seq::new(d.len(), |i: int| d[i].path@));
        lemma_pick_more(kept_deletes(d, stored), whole, keep, keep);
    }
}

/// A commit deletes each file whose deletion was held back and that is stored, in the
/// order of the deletions, and nothing else.
pub proof fn law_commit_deletes(ds: Seq<PendingDelete>, stored: Seq<bool>)
    requires
        stored.len() == ds.len(),
    ensures
        picked(
            kept_deletes(ds, stored),
            Seq::new(ds.len(), |i: int| ds[i].path@),
            |i: int| stored[i],
        ),
        forall|i: int|
            0 <= i < ds.len() && stored[i] ==> kept_deletes(ds, stored).contains(
                (#[trigger] ds[i]).path@,
            ),
        forall|p: Seq<char>| #[trigger]
            kept_deletes(ds, stored).contains(p) ==> exists|i: int|
                0 <= i < ds.len() && stored[i] && (#[trigger] ds[i]).path@ == p,
{
    let whole = Seq::new(ds.len(), |i: int| ds[i].path@);
    let keep = |i: int| stored[i];
    lemma_kept_deletes(ds, stored);
    assert forall|i: int| 0 <= i < ds.len() && stored[i] implies kept_deletes(
        ds,
        stored,
    ).contains((#[trigger] ds[i]).path@) by {
        lemma_picked_members(kept_deletes(ds, stored), whole, keep, ds[i].path@);
        assert(keep(i) && whole[i] == ds[i].path@);
    }
    assert forall|p: Seq<char>| #[trigger] kept_deletes(ds, stored).contains(p) implies exists|
        i: int,
    |
        0 <= i < ds.len() && stored[i] && (#[trigger] ds[i]).path@ == p by {
        lemma_picked_members(kept_deletes(ds, stored), whole, keep, p);
        let i = choose|i: int| 0 <= i < whole.len() && #[trigger] keep(i) && whole[i] == p;
        assert(ds[i].path@ == p);
    }
}

proof fn lemma_kept_writes(ws: Seq<PendingWrite>, ds: Seq<PendingDelete>)
    ensures
        picked(
            kept_writes(ws, ds),
            Seq::new(ws.len(), |i: int| (ws[i].path@, ws[i].content@)),
            |i: int| !is_path_of(ds, ws[i].path@),
        ),
    decreases ws.len(),
{
    let whole = Seq::new(ws.len(), |i: int| (ws[i].path@, ws[i].content@));
    let keep = |i: int| !is_path_of(ds, ws[i].path@);
    if ws.len() == 0 {
        assert(whole =~= Seq::<(Seq<char>, Seq<char>)>::empty());
        lemma_pick_none::<(Seq<char>, Seq<char>)>(keep);
    } else {
        let d = ws.drop_last();
        lemma_kept_writes(d, ds);
        assert(whole.drop_last() =~= Seq::new(d.len(), |i: int| (d[i].path@, d[i].content@)));
        lemma_pick_more(
            kept_writes(d, ds),
            whole,
            |i: int| !is_path_of(ds, d[i].path@),
            keep,
        );
    }
}

/// Whether a path is among those whose deletion was held back.
pub open spec fn is_path_of(ds: Seq<PendingDelete>, path: Seq<char>) -> bool {
    exists|i: int| 0 <= i < ds.len() && (#[trigger] ds[i]).path@ == path
}

/// A commit carries out the writes that were held back, in their order, but those of
/// files whose deletion was.
pub proof fn law_commit_writes_in_order(ws: Seq<PendingWrite>, ds: Seq<PendingDelete>)
    ensures
        picked(
            kept_writes(ws, ds),
            Seq::new(ws.len(), |i: int| (ws[i].path@, ws[i].content@)),
            |i: int| !is_path_of(ds, ws[i].path@),
        ),
{
    lemma_kept_writes(ws, ds);
}

/// What a file holds after some files were written in their order.
pub open spec fn held_after(ws: Seq<(Seq<char>, Seq<char>)>, path: Seq<char>) -> Option<Seq<char>>
    decreases ws.len(),
{
    if ws.len() == 0 {
        None
    } else if ws.last().0 == path {
        Some(ws.last().1)
    } else {
        held_after(ws.drop_last(), path)
    }
}

/// After a commit the store holds of a file that was not deleted what was read of it
/// within the transaction.
pub proof fn law_commit_stores_what_was_read(
    ws: Seq<PendingWrite>,
    ds: Seq<PendingDelete>,
    path: Seq<char>,
)
    requires
        !is_deleted(ds, path),
    ensures
        held_after(kept_writes(ws, ds), path) == last_write(ws, path),
    decreases ws.len(),
{
    if ws.len() > 0 {
        let d = ws.drop_last();
        law_commit_stores_what_was_read(d, ds, path);
        let p = kept_writes(d, ds);
        let r = kept_writes(ws, ds);
        if !is_deleted(ds, ws.last().path@) {
            assert(r.drop_last() =~= p);
        }
    }
}

// ---------------------------------------------------------------------------
// Taking a type
// ---------------------------------------------------------------------------
proof fn lemma_middle(
    a: Seq<char>,
    w: Seq<char>,
    f: Seq<char>,
    g: Seq<char>,
    x: Seq<char>,
    body: Seq<char>,
    r: Seq<char>,
)
    ensures
        "---\n"@ + (a + w + f + g + x) + "---\n"@ + body + r == ("---\n"@ + a) + w + (f + g + x
            + "---\n"@ + body + r),
{
    assert("---\n"@ + (a + w + f + g + x) + "---\n"@ + body + r =~= ("---\n"@ + a) + w + (f + g + x
        + "---\n"@ + body + r));
}

/// Taking a note's type takes the line of the type from what would be written for the
/// note, and no other character.
pub proof fn law_only_type_line_taken(content: Seq<char>, path: Seq<char>, t: Seq<char>)
    requires
        untyped_text(content, path) == Ok::<Seq<char>, ErrorView>(t),
    ensures
        parsed_zettel(content, path) matches Ok(z) && exists|a: Seq<char>, b: Seq<char>|
            {
                &&& serialized(z.meta, z.body, z.reference) == #[trigger] (a + quoted_line(
                    "type: "@,
                    z.meta.zettel_type,
                ) + b)
                &&& t == a + b
            },
{
    let z = parsed_zettel(content, path)->Ok_0;
    let m = z.meta;
    let n = MetaView { zettel_type: None, ..m };
    let w = quoted_line("type: "@, m.zettel_type);
    let a = opt_line("id: "@, m.id) + quoted_line("title: "@, m.title) + opt_line("date: "@, m.date)
        + tags_text(m.tags);
    let f = promoted_text(m.extra, "publish"@);
    let g = promoted_text(m.extra, "processed"@);
    let x = extras_text(m.extra);
    let r = reference_text(z.reference);
    lemma_middle(a, w, f, g, x, z.body, r);
    lemma_middle(a, Seq::empty(), f, g, x, z.body, r);
    let b = f + g + x + "---\n"@ + z.body + r;
    assert(("---\n"@ + a) + Seq::<char>::empty() + b =~= ("---\n"@ + a) + b);
    assert(meta_text(m) == a + w + f + g + x);
    assert(meta_text(n) == a + Seq::<char>::empty() + f + g + x);
    assert(serialized(m, z.body, z.reference) == ("---\n"@ + a) + w + b);
}

/// A note whose type was taken is read as a note without a type. Its identifier, title,
/// date, tags, other fields, body, reference section and inline fields are those that it
/// had.
pub proof fn law_untyped_note_read(
    content: Seq<char>,
    path: Seq<char>,
    p: ParsedZettel,
    t: Seq<char>,
    q: Result<ParsedZettel, ZettelError>,
)
    requires
        is_reading(content, path, Ok(p)),
        is_settled(content),
        is_plain_meta(p@.meta),
        front_entries(MetaView { zettel_type: None, ..p@.meta }).len() > 0,
        is_untyping(content, path, t),
        is_reading(t, path, q),
    ensures
        q matches Ok(y) && {
            &&& y@.meta.zettel_type is None
            &&& y@.meta.id == p@.meta.id
            &&& y@.meta.title == p@.meta.title
            &&& y@.meta.date == p@.meta.date
            &&& y@.meta.tags == p@.meta.tags
            &&& y@.meta.extra == p@.meta.extra
            &&& y@.body == p@.body
            &&& y@.reference == p@.reference
            &&& y@.fields == p@.fields
        },
{
    let m = MetaView { zettel_type: None, ..p@.meta };
    assert(with_path_id(p@.meta, path) == p@.meta);
    assert(with_path_id(m, path) == m);
    law_new_meta_read(content, path, p, m, t, q);
}

// ---------------------------------------------------------------------------
// Literals
// ---------------------------------------------------------------------------
proof fn lemma_scanned_below(s: Seq<char>, small: int, large: int)
    requires
        small <= large,
        scanned(s, small) is Ok,
    ensures
        scanned(s, large) == scanned(s, small),
    decreases s.len(),
{
    if s.len() > 0 {
        lemma_scanned_below(s.drop_last(), small, large);
    }
}

/// A sign before a literal stands before its text.
pub proof fn law_signed_literal(e: SqlExpr, op: String, operand: Box<SqlExpr>)
    requires
        e == (SqlExpr::Unary { op, operand }),
    ensures
        literal(e) is Ok == literal(*operand) is Ok,
        literal(e) is Ok ==> {
            let s = literal(e)->Ok_0;
            let t = literal(*operand)->Ok_0;
            &&& s.len() == op@.len() + t.len()
            &&& text::has_prefix(s, op@)
            &&& text::has_suffix(s, t)
        },
        literal(e) is Err ==> literal(e)->Err_0 == literal(*operand)->Err_0,
{
    if literal(*operand) is Ok {
        let s = literal(e)->Ok_0;
        let t = literal(*operand)->Ok_0;
        assert(s.take(op@.len() as int) =~= op@);
        assert(s.skip(s.len() - t.len()) =~= t);
    }
}

/// A minus before a number gives the text of the number with a minus before it, which
/// is read as minus the number, also in a column of integers.
pub proof fn law_negative_literal(
    e: SqlExpr,
    op: String,
    operand: Box<SqlExpr>,
    n: String,
    k: int,
    data_type: Seq<char>,
)
    requires
        e == (SqlExpr::Unary { op, operand }),
        op@ == "-"@,
        *operand == SqlExpr::Number(n),
        n@.len() > 0 && text::is_digit(n@[0]),
    ensures
        literal(e) matches Ok(s) && {
            &&& s.len() == n@.len() + 1
            &&& s[0] == '-'
            &&& s.skip(1) == n@
            &&& parsed_signed(n@) == Some(k) ==> parsed_signed(s) == Some(-k)
            &&& parsed_signed(n@) == Some(k) && text::uppered(data_type) == "INTEGER"@
                ==> typed_value(s, data_type) == ValueView::Number(real_of_signed(-k))
        },
{
    reveal_strlit("-");
    assert(literal(*operand) == Ok::<Seq<char>, ErrorView>(n@));
    let s = literal(e)->Ok_0;
    assert(s == op@ + n@);
    assert(s.skip(1) =~= n@);
    assert(s.drop_first() =~= n@);
    if parsed_signed(n@) == Some(k) {
        lemma_scanned_below(n@, 0x7fff_ffff_ffff_ffff, 0x8000_0000_0000_0000);
    }
}

/// The text of a literal without a sign is what it holds.
pub proof fn law_plain_literal(e: SqlExpr)
    ensures
        e matches SqlExpr::Quoted(s) ==> literal(e) == Ok::<Seq<char>, ErrorView>(s@),
        e matches SqlExpr::Number(n) ==> literal(e) == Ok::<Seq<char>, ErrorView>(n@),
        e matches SqlExpr::Truth(b) ==> literal(e) == Ok::<Seq<char>, ErrorView>(
            if b {
                "true"@
            } else {
                "false"@
            },
        ),
        e is Null ==> literal(e) == Ok::<Seq<char>, ErrorView>(Seq::empty()),
        e is OtherValue || e is Name || e is Binary || e is Other ==> literal(e) is Err,
{
}

} // verus!
