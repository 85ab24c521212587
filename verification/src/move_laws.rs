//! What moving a note leaves of the links to it.
use crate::git_ops::{
    bare_id, first_parts, is_note_path, joined, last_change, note_changes, note_paths,
    relinked_note, rename_writes, touches, without_endings, FileStatus, HistoryEntry,
    MAX_REVWALK_DEPTH,
};
use crate::link_laws::{is_target, law_only_targets_change, pieces, Piece};
use crate::log_laws::{lemma_split_cat, lemma_split_one};
use crate::parser::{file_stem, last_of, named_parts, stem_of};
use crate::picks::{lemma_pick_more, lemma_pick_none, lemma_picked_members, picked};
use crate::text::{self, has_suffix, split};
use crate::types::DiffKind;
use vstd::prelude::*;

verus! {

/// A path without its ending.
pub open spec fn is_stem(p: Seq<char>) -> bool {
    !has_suffix(p, ".md"@)
}

/// A path without its ending whose last part is `name`.
pub open spec fn is_named(stem: Seq<char>, name: Seq<char>) -> bool {
    &&& is_stem(stem)
    &&& name.len() > 0 && !name.contains('/')
    &&& stem == name || has_suffix(stem, "/"@ + name)
}

/// A path with one ending is named by links without it.
pub proof fn law_link_target(p: Seq<char>)
    requires
        is_stem(p),
    ensures
        without_endings(p + ".md"@) == p,
        without_endings(p) == p,
{
    reveal_strlit(".md");
    let q = p + ".md"@;
    assert(q.skip(q.len() - 3) =~= ".md"@);
    assert(q.take(q.len() - 3) =~= p);
    assert(has_suffix(q, ".md"@));
    assert(without_endings(q) == without_endings(p));
}

proof fn lemma_last_of(s: Seq<char>, c: char, k: int)
    requires
        0 <= k < s.len(),
        s[k] == c,
        forall|i: int| k < i < s.len() ==> s[i] != c,
    ensures
        last_of(s, c) == k,
    decreases s.len(),
{
    if k < s.len() - 1 {
        let d = s.drop_last();
        assert(s[s.len() - 1] != c);
        assert forall|i: int| k < i < d.len() implies d[i] != c by {
            assert(d[i] == s[i]);
        }
        lemma_last_of(d, c, k);
    }
}

/// The identifier by which links may name a note is its file's name without the
/// ending, in whatever directory the file lies.
pub proof fn law_link_id(dir: Seq<char>, name: Seq<char>)
    requires
        name.len() > 0,
        !name.contains('/'),
    ensures
        file_stem(dir + "/"@ + name + ".md"@) == Some(name),
        bare_id(dir + "/"@ + name + ".md"@) == name,
        bare_id(name + ".md"@) == name,
{
    reveal_strlit(".md");
    reveal_strlit("/");
    reveal_strlit(".");
    reveal_strlit("..");
    let f = name + ".md"@;
    let p = dir + "/"@ + name + ".md"@;
    assert forall|i: int| 0 <= i < f.len() implies f[i] != '/' by {
        if i < name.len() {
            assert(f[i] == name[i]);
            assert(name.contains(name[i]));
        }
    }
    lemma_split_one(f, '/');
    assert(p =~= dir + seq!['/'] + f);
    lemma_split_cat(dir, '/', f);
    let ps = split(p, '/');
    assert(ps.last() == f);
    assert(f != "."@ && f != ".."@) by {
        assert(f.len() > 3);
    }
    assert(named_parts(ps).last() == f);
    assert(seq![f].last() == f);
    assert(named_parts(split(f, '/')).last() == f);
    lemma_last_of(f, '.', name.len() as int);
    assert(f.take(name.len() as int) =~= name);
    assert(stem_of(f) == name);
}

/// What a link to a note is called after the note was moved.
pub open spec fn moved(f: Seq<char>, old_stem: Seq<char>, id: Seq<char>, new_stem: Seq<char>) -> Seq<
    char,
> {
    if f == old_stem || f == id {
        new_stem
    } else {
        f
    }
}

/// After a note was moved, a text that links to it is as it was, but that each link
/// to the note's old path or to its old identifier names the new path. Each link is
/// displayed as before.
pub proof fn law_links_follow(
    content: Seq<char>,
    old_stem: Seq<char>,
    name: Seq<char>,
    new_stem: Seq<char>,
)
    requires
        is_named(old_stem, name),
        is_stem(new_stem),
        is_target(new_stem),
    ensures
        ({
            let t = relinked_note(content, old_stem + ".md"@, new_stem + ".md"@);
            &&& pieces(t).len() == pieces(content).len()
            &&& forall|i: int|
                0 <= i < pieces(t).len() ==> #[trigger] pieces(t)[i] == match pieces(content)[i] {
                    Piece::Plain(c) => Piece::Plain(c),
                    Piece::Link(f, d) => Piece::Link(moved(f, old_stem, name, new_stem), d),
                }
        }),
{
    law_link_target(old_stem);
    law_link_target(new_stem);
    if old_stem != name {
        let k = old_stem.len() - ("/"@ + name).len();
        assert(old_stem =~= old_stem.take(k) + old_stem.skip(k));
        law_link_id(old_stem.take(k), name);
        assert(old_stem.take(k) + "/"@ + name =~= old_stem);
    } else {
        law_link_id(Seq::empty(), name);
    }
    let a = crate::git_ops::relinked(content, old_stem, new_stem);
    law_only_targets_change(content, old_stem, new_stem);
    law_only_targets_change(a, name, new_stem);
}

/// Then no link names the note by its old path or its old identifier, unless that is
/// the new path's text.
pub proof fn law_no_stale_link(
    content: Seq<char>,
    old_stem: Seq<char>,
    name: Seq<char>,
    new_stem: Seq<char>,
    d: Option<Seq<char>>,
)
    requires
        is_named(old_stem, name),
        is_stem(new_stem),
        is_target(new_stem),
    ensures
        ({
            let t = relinked_note(content, old_stem + ".md"@, new_stem + ".md"@);
            &&& old_stem != new_stem ==> !pieces(t).contains(Piece::Link(old_stem, d))
            &&& name != new_stem ==> !pieces(t).contains(Piece::Link(name, d))
        }),
{
    let t = relinked_note(content, old_stem + ".md"@, new_stem + ".md"@);
    law_links_follow(content, old_stem, name, new_stem);
    let ps = pieces(t);
    if ps.contains(Piece::Link(old_stem, d)) {
        let i = ps.index_of(Piece::Link(old_stem, d));
        assert(ps[i] == Piece::Link(old_stem, d));
    }
    if ps.contains(Piece::Link(name, d)) {
        let i = ps.index_of(Piece::Link(name, d));
        assert(ps[i] == Piece::Link(name, d));
    }
}

pub open spec fn is_rewritten(
    notes: Seq<(Seq<char>, Seq<char>)>,
    old_path: Seq<char>,
    new_path: Seq<char>,
    i: int,
) -> bool {
    relinked_note(notes[i].1, old_path, new_path) != notes[i].1
}

proof fn lemma_rename_writes(
    notes: Seq<(Seq<char>, Seq<char>)>,
    old_path: Seq<char>,
    new_path: Seq<char>,
)
    ensures
        picked(
            rename_writes(notes, old_path, new_path),
            Seq::new(
                notes.len(),
                |i: int| (notes[i].0, relinked_note(notes[i].1, old_path, new_path)),
            ),
            |i: int| is_rewritten(notes, old_path, new_path, i),
        ),
    decreases notes.len(),
{
    let whole = Seq::new(
        notes.len(),
        |i: int| (notes[i].0, relinked_note(notes[i].1, old_path, new_path)),
    );
    let keep = |i: int| is_rewritten(notes, old_path, new_path, i);
    if notes.len() == 0 {
        assert(whole =~= Seq::<(Seq<char>, Seq<char>)>::empty());
        lemma_pick_none::<(Seq<char>, Seq<char>)>(keep);
    } else {
        let d = notes.drop_last();
        lemma_rename_writes(d, old_path, new_path);
        let part = Seq::new(
            d.len(),
            |i: int| (d[i].0, relinked_note(d[i].1, old_path, new_path)),
        );
        assert(whole.drop_last() =~= part);
        lemma_pick_more(
            rename_writes(d, old_path, new_path),
            whole,
            |i: int| is_rewritten(d, old_path, new_path, i),
            keep,
        );
    }
}

/// The notes that are written when a note is moved are exactly those whose text
/// changes, in their order, each with its text rewritten.
pub proof fn law_rewritten_notes(
    notes: Seq<(Seq<char>, Seq<char>)>,
    old_path: Seq<char>,
    new_path: Seq<char>,
)
    ensures
        picked(
            rename_writes(notes, old_path, new_path),
            Seq::new(
                notes.len(),
                |i: int| (notes[i].0, relinked_note(notes[i].1, old_path, new_path)),
            ),
            |i: int| relinked_note(notes[i].1, old_path, new_path) != notes[i].1,
        ),
{
    lemma_rename_writes(notes, old_path, new_path);
    let a = |i: int| is_rewritten(notes, old_path, new_path, i);
    let b = |i: int| relinked_note(notes[i].1, old_path, new_path) != notes[i].1;
    assert(a =~= b);
}

/// A note that links to the moved note, by its path or by its identifier, is among
/// those that are written, unless its links have the new name already; a note that
/// does not is not rewritten.
pub proof fn law_linking_note_is_written(
    notes: Seq<(Seq<char>, Seq<char>)>,
    old_stem: Seq<char>,
    name: Seq<char>,
    new_stem: Seq<char>,
    i: int,
    f: Seq<char>,
    d: Option<Seq<char>>,
)
    requires
        is_named(old_stem, name),
        is_stem(new_stem),
        is_target(new_stem),
        0 <= i < notes.len(),
        pieces(notes[i].1).contains(Piece::Link(f, d)),
        f == old_stem || f == name,
        f != new_stem,
    ensures
        first_parts(rename_writes(notes, old_stem + ".md"@, new_stem + ".md"@)).contains(
            notes[i].0,
        ),
{
    let old_path = old_stem + ".md"@;
    let new_path = new_stem + ".md"@;
    let t = relinked_note(notes[i].1, old_path, new_path);
    law_links_follow(notes[i].1, old_stem, name, new_stem);
    let ps = pieces(notes[i].1);
    let k = ps.index_of(Piece::Link(f, d));
    assert(pieces(t)[k] == Piece::Link(new_stem, d));
    assert(t != notes[i].1);
    lemma_rename_writes(notes, old_path, new_path);
    let whole = Seq::new(
        notes.len(),
        |i: int| (notes[i].0, relinked_note(notes[i].1, old_path, new_path)),
    );
    let keep = |i: int| is_rewritten(notes, old_path, new_path, i);
    let r = rename_writes(notes, old_path, new_path);
    lemma_picked_members(r, whole, keep, (notes[i].0, t));
    assert(keep(i) && whole[i] == (notes[i].0, t));
    let j = r.index_of((notes[i].0, t));
    assert(first_parts(r)[j] == notes[i].0);
}

/// The notes that link to a path are all there, with those that link to its
/// identifier: each that is found by either is, and no identifier twice because of it.
pub proof fn law_backlinks_joined(
    a: Seq<(Seq<char>, Seq<char>)>,
    b: Seq<(Seq<char>, Seq<char>)>,
)
    ensures
        joined(a, b).len() >= a.len(),
        joined(a, b).take(a.len() as int) == a,
        forall|i: int|
            0 <= i < b.len() ==> first_parts(joined(a, b)).contains((#[trigger] b[i]).0),
        forall|e: (Seq<char>, Seq<char>)| #[trigger]
            joined(a, b).contains(e) ==> a.contains(e) || b.contains(e),
        forall|i: int, j: int|
            0 <= i < j < joined(a, b).len() && a.len() <= j ==> (#[trigger] joined(a, b)[i]).0 != (
            #[trigger] joined(a, b)[j]).0,
    decreases b.len(),
{
    let r = joined(a, b);
    if b.len() == 0 {
        assert(r.take(a.len() as int) =~= a);
    } else {
        let d = b.drop_last();
        let p = joined(a, d);
        let n = b.len() - 1;
        law_backlinks_joined(a, d);
        assert(r.take(a.len() as int) =~= p.take(a.len() as int));
        assert forall|i: int| 0 <= i < b.len() implies first_parts(r).contains(
            (#[trigger] b[i]).0,
        ) by {
            if i < n {
                assert(d[i] == b[i]);
                let j = first_parts(p).index_of(d[i].0);
                assert(first_parts(r)[j] == d[i].0);
            } else if r == p {
                let j = choose|j: int| 0 <= j < p.len() && (#[trigger] p[j]).0 == b.last().0;
                assert(first_parts(r)[j] == b[i].0);
            } else {
                assert(first_parts(r)[p.len() as int] == b[i].0);
            }
        }
        assert forall|e: (Seq<char>, Seq<char>)| #[trigger] r.contains(e) implies a.contains(e)
            || b.contains(e) by {
            let j = r.index_of(e);
            if j < p.len() {
                assert(p[j] == e);
                assert(p.contains(e));
                if d.contains(e) {
                    assert(b[d.index_of(e)] == e);
                }
            } else {
                assert(b[n] == e);
            }
        }
    }
}

/// The notes among some paths are exactly those in the notes' directory with the
/// notes' ending, in their order.
pub proof fn law_notes_listed(paths: Seq<Seq<char>>)
    ensures
        picked(
            note_paths(paths),
            paths,
            |i: int|
                text::has_prefix(paths[i], "zettelkasten/"@) && has_suffix(paths[i], ".md"@),
        ),
    decreases paths.len(),
{
    let keep = |i: int|
        text::has_prefix(paths[i], "zettelkasten/"@) && has_suffix(paths[i], ".md"@);
    if paths.len() == 0 {
        assert(paths =~= Seq::<Seq<char>>::empty());
        lemma_pick_none::<Seq<char>>(keep);
    } else {
        let d = paths.drop_last();
        law_notes_listed(d);
        lemma_pick_more(
            note_paths(d),
            paths,
            |i: int| text::has_prefix(d[i], "zettelkasten/"@) && has_suffix(d[i], ".md"@),
            keep,
        );
    }
}

/// The time stamp of a path is that of the first commit of its history that changed
/// the path, if that lies among the first hundred; no earlier one did.
pub proof fn law_last_change(h: Seq<Option<HistoryEntry>>, path: Seq<char>)
    ensures
        match last_change(h, path, 0) {
            Some(i) => {
                &&& 0 <= i < h.len() && i < 100
                &&& h[i] is Some && text::texts(h[i]->0.paths@).contains(path)
                &&& forall|j: int|
                    0 <= j < i && (#[trigger] h[j]) is Some ==> !text::texts(
                        h[j]->0.paths@,
                    ).contains(path)
            },
            None => forall|j: int|
                0 <= j < h.len() && j < 100 && (#[trigger] h[j]) is Some ==> !text::texts(
                    h[j]->0.paths@,
                ).contains(path),
        },
{
    lemma_last_change(h, path, 0);
}

proof fn lemma_last_change(h: Seq<Option<HistoryEntry>>, path: Seq<char>, from: int)
    requires
        0 <= from,
    ensures
        match last_change(h, path, from) {
            Some(i) => {
                &&& from <= i < h.len() && i < 100
                &&& h[i] is Some && text::texts(h[i]->0.paths@).contains(path)
                &&& forall|j: int|
                    from <= j < i && (#[trigger] h[j]) is Some ==> !text::texts(
                        h[j]->0.paths@,
                    ).contains(path)
            },
            None => forall|j: int|
                from <= j < h.len() && j < 100 && (#[trigger] h[j]) is Some ==> !text::texts(
                    h[j]->0.paths@,
                ).contains(path),
        },
    decreases h.len() - from,
{
    if from < h.len() && from < MAX_REVWALK_DEPTH && !touches(h[from], path) {
        lemma_last_change(h, path, from + 1);
    }
}

/// The changes of notes between two commits: exactly the added, changed, deleted and
/// renamed files that are notes, in their order; a renamed one counts as changed.
pub proof fn law_changes_of_notes(s: Seq<(FileStatus, String)>)
    ensures
        picked(
            note_changes(s),
            Seq::new(s.len(), |i: int| (change_of(s[i].0), s[i].1@)),
            |i: int| s[i].0 != FileStatus::Other && is_note_path(s[i].1@),
        ),
    decreases s.len(),
{
    let whole = Seq::new(s.len(), |i: int| (change_of(s[i].0), s[i].1@));
    let keep = |i: int| s[i].0 != FileStatus::Other && is_note_path(s[i].1@);
    if s.len() == 0 {
        assert(whole =~= Seq::<(DiffKind, Seq<char>)>::empty());
        lemma_pick_none::<(DiffKind, Seq<char>)>(keep);
    } else {
        let d = s.drop_last();
        law_changes_of_notes(d);
        assert(whole.drop_last() =~= Seq::new(d.len(), |i: int| (change_of(d[i].0), d[i].1@)));
        lemma_pick_more(
            note_changes(d),
            whole,
            |i: int| d[i].0 != FileStatus::Other && is_note_path(d[i].1@),
            keep,
        );
    }
}

/// What a change of a file is called; nothing is said of one that is none.
pub open spec fn change_of(s: FileStatus) -> DiffKind {
    match s {
        FileStatus::Added => DiffKind::Added,
        FileStatus::Deleted => DiffKind::Deleted,
        _ => DiffKind::Modified,
    }
}

} // verus!
