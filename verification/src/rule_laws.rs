//! What the rules on statements, names, versions and identifiers decide.
use crate::attachments::{path_of, refused};
use crate::bundle::node_place;
use crate::compaction::{commit_named, merged_name, temp_name, TempView};
use crate::error::{error_text, ErrorView};
use crate::git_ops::{
    conflict_path, path_refusal, side_content, version_plan, without_endings, ConflictSide,
    VersionPlan, CURRENT_FORMAT_VERSION,
};
use crate::ids::{free_after, id_text, times_from};
use crate::index_sql::core_table_names;
use crate::indexer::type_of_value;
use crate::log_laws::{lemma_split_cat, lemma_split_one};
use crate::move_laws::is_stem;
use crate::nosql::{are_keys, link_key_set, tag_key_set, type_key_set, IndexKeys};
use crate::rows::Cells;
use crate::schema::{zone_of_text, zone_text};
use crate::sql::{identifier, InsertSource, SqlColumn, SqlExpr, SqlStatement};
use crate::sql_engine::{
    action_of, assigned, created_schema, declared_columns, insert_refusal, is_reserved,
    literal_rows, refusal, source_rows, updates_of, Action,
};
use crate::statement_laws::{is_refused, law_allowed_values};
use crate::string_laws::{is_gap, law_decimal, law_scanned, law_trim_finds};
use crate::text::{
    self, ascii_lowered, char_at_byte, has_prefix, has_suffix, occurs_at, split, texts,
};
use crate::types::{ColumnView, NodeConfig, ValueView, ZettelView, Zone};
use vstd::prelude::*;

verus! {

// ---------------------------------------------------------------------------
// Statements
// ---------------------------------------------------------------------------
/// Just those statements are refused that have no place in a store of notes: indexes, views,
/// triggers and virtual tables, and an update from another table.
pub proof fn law_refused_statements(s: SqlStatement)
    ensures
        refusal(s) is Some == {
            ||| s is CreateIndex
            ||| s is CreateView
            ||| s is CreateVirtualTable
            ||| s is CreateTrigger
            ||| s is AlterIndex
            ||| s matches SqlStatement::Update { table, from_clause, assignments, selection }
                && from_clause
            ||| s matches SqlStatement::Drop { kind, if_exists, names, cascade } && !(kind is Table)
        },
{
}

/// Each kind of statement has its own action; what is none of these is a query.
pub proof fn law_actions(s: SqlStatement)
    ensures
        (action_of(s) == Action::CreateTable) == s is CreateTable,
        (action_of(s) == Action::Insert) == s is Insert,
        (action_of(s) == Action::Update) == s is Update,
        (action_of(s) == Action::Delete) == s is Delete,
        (action_of(s) == Action::AlterTable) == s is AlterTable,
        (action_of(s) == Action::DropTables) == s is Drop,
        (action_of(s) == Action::Begin) == s is Begin,
        (action_of(s) == Action::Commit) == s is Commit,
        (action_of(s) == Action::Rollback) == s is Rollback,
        s is Other ==> action_of(s) == Action::Query,
{
}

/// An insertion that would replace rows is refused, whatever form says so; a plain one is not.
pub proof fn law_refused_insertions(replace_into: bool, or_clause: bool, on_clause: bool)
    ensures
        insert_refusal(replace_into, or_clause, on_clause) is Some == (replace_into || or_clause
            || on_clause),
{
}

/// The rows of an insertion are those of its values; without values there are none.
pub proof fn law_inserted_rows(source: InsertSource)
    ensures
        source matches InsertSource::Values(rows) ==> source_rows(source) == literal_rows(rows@),
        !(source is Values) ==> source_rows(source) is Err,
{
}

/// The tables of the index itself are reserved, and so is every name that begins as theirs.
pub proof fn law_reserved_tables(i: int, name: Seq<char>)
    ensures
        0 <= i < core_table_names().len() ==> is_reserved(core_table_names()[i]),
        core_table_names().len() == 7,
        is_reserved("_zdb_"@ + name),
        is_reserved("sqlite_"@ + name),
        name.len() > 0 && name[0] != '_' && name[0] != 's' && name[0] != 'z' ==> !is_reserved(name),
{
    reveal_strlit("zettels");
    reveal_strlit("_zdb_");
    reveal_strlit("sqlite_");
    reveal_strlit("_zdb_fts");
    reveal_strlit("_zdb_tags");
    reveal_strlit("_zdb_fields");
    reveal_strlit("_zdb_links");
    reveal_strlit("_zdb_aliases");
    reveal_strlit("_zdb_meta");
    assert(("_zdb_"@ + name).take(5) =~= "_zdb_"@);
    assert(("sqlite_"@ + name).take(7) =~= "sqlite_"@);
    assert("_zdb_fts"@.take(5) =~= "_zdb_"@);
    assert("_zdb_tags"@.take(5) =~= "_zdb_"@);
    assert("_zdb_fields"@.take(5) =~= "_zdb_"@);
    assert("_zdb_links"@.take(5) =~= "_zdb_"@);
    assert("_zdb_aliases"@.take(5) =~= "_zdb_"@);
    assert("_zdb_meta"@.take(5) =~= "_zdb_"@);
    if name.len() > 0 && name[0] != '_' && name[0] != 's' && name[0] != 'z' {
        if has_prefix(name, "_zdb_"@) {
            assert(name.take(5)[0] == '_');
        }
        if has_prefix(name, "sqlite_"@) {
            assert(name.take(7)[0] == 's');
        }
        assert("zettels"@[0] == 'z');
    }
}

/// A name means the same in double quotes and without them.
pub proof fn law_quoted_identifier(name: Seq<char>)
    requires
        name.len() > 0 && name[0] != '"' && name.last() != '"',
    ensures
        identifier("\""@ + name + "\""@) == text::lowered(name),
        identifier(name) == text::lowered(name),
{
    reveal_strlit("\"");
    let q = "\""@ + name + "\""@;
    let r = q.drop_first();
    reveal_with_fuel(text::stripped_start, 3);
    reveal_with_fuel(text::stripped_end, 3);
    assert(r[0] == name[0]);
    assert(text::stripped_start(q, '"') == r);
    assert(r.last() == '"');
    assert(r.drop_last() =~= name);
    assert(text::stripped_end(r, '"') == name);
    assert(text::stripped_start(name, '"') == name);
    assert(text::stripped_end(name, '"') == name);
}

/// A table that is created has the name that the statement gives and the columns that it
/// declares.
pub proof fn law_created_table(name: Seq<char>, cols: Seq<SqlColumn>)
    ensures
        created_schema(name, cols).table_name == identifier(name),
        created_schema(name, cols).columns == declared_columns(cols),
        created_schema(name, cols).crdt_strategy is None,
        created_schema(name, cols).template_sections.len() == 0,
{
}

/// An update sets what is assigned, and is refused where a column does not allow a value.
pub proof fn law_update_allowed(cs: Seq<ColumnView>, l: Seq<(Vec<String>, SqlExpr)>)
    ensures
        assigned(l) is Err ==> updates_of(cs, l) is Err,
        assigned(l) matches Ok(m) ==> {
            &&& updates_of(cs, l) is Ok == forall|j: int|
                0 <= j < cs.len() ==> !#[trigger] is_refused(cs, m, j)
            &&& updates_of(cs, l) is Ok ==> updates_of(cs, l) == Ok::<Cells, ErrorView>(m)
        },
{
    if let Ok(m) = assigned(l) {
        law_allowed_values(cs, m);
    }
}

// ---------------------------------------------------------------------------
// Files
// ---------------------------------------------------------------------------
/// A file is attached under a note only where its path stays in the note's directory: it has
/// the three parts that were given, and does not lead out of the repository.
pub proof fn law_attachment_stays(id: Seq<char>, filename: Seq<char>)
    ensures
        refused(id, filename) is None ==> {
            &&& split(path_of(id, filename), '/') == seq!["reference"@, id, filename]
            &&& filename.len() > 0 && filename != ".."@ && !filename.contains('\\')
            &&& path_refusal(path_of(id, filename)) is None
            &&& id.len() == 14 && text::all_digits(id)
        },
        filename.contains('/') || filename.contains('\\') || filename.len() == 0 || filename
            == ".."@ ==> refused(id, filename) is Some,
        id.len() != 14 ==> refused(id, filename) is Some,
{
    reveal_strlit("..");
    reveal_strlit("/");
    reveal_strlit("reference/");
    reveal_strlit("reference");
    if filename == ".."@ {
        assert(filename.subrange(0, 2) =~= ".."@);
        assert(occurs_at(filename, ".."@, 0));
    }
    if refused(id, filename) is None {
        let p = path_of(id, filename);
        let r = "reference"@;
        assert(p =~= r + seq!['/'] + (id + seq!['/'] + filename));
        assert forall|i: int| 0 <= i < r.len() implies r[i] != '/' by {}
        assert forall|i: int| 0 <= i < id.len() implies id[i] != '/' by {
            assert(text::is_digit(id[i]));
        }
        assert forall|i: int| 0 <= i < filename.len() implies filename[i] != '/' by {
            assert(filename.contains(filename[i]));
        }
        lemma_split_one(r, '/');
        lemma_split_one(id, '/');
        lemma_split_one(filename, '/');
        lemma_split_cat(id, '/', filename);
        lemma_split_cat(r, '/', id + seq!['/'] + filename);
        let ps = seq![r, id, filename];
        assert(split(p, '/') =~= ps);
        if ps.contains(".."@) {
            let i = ps.index_of(".."@);
            if i == 0 {
                assert(r.len() == 2);
            } else if i == 1 {
                assert(id.len() == 2);
            }
        }
        assert(p[0] == 'r');
    }
}

/// A conflict is about the file that ours names, or else theirs; what a side does not have is
/// empty.
pub proof fn law_conflict_file(ours: Option<ConflictSide>, theirs: Option<ConflictSide>)
    ensures
        ours matches Some(s) ==> (s.path matches Some(p) ==> conflict_path(ours, theirs) == p@),
        ours is None ==> (theirs matches Some(s) ==> (s.path matches Some(p) ==> conflict_path(
            ours,
            theirs,
        ) == p@)),
        ours matches Some(s) ==> side_content(ours) == s.content@,
        ours is None ==> side_content(ours).len() == 0,
{
    reveal_strlit("");
}

/// A repository of a newer format is refused, one of an older format or without a version gets
/// one, and one of this format is left as it is.
pub proof fn law_format_version(n: nat, gap: Seq<char>)
    requires
        is_gap(gap),
        n <= u32::MAX,
    ensures
        version_plan(None) == Ok::<VersionPlan, ErrorView>(VersionPlan::AddVersionFile),
        ({
            let r = version_plan(Some(text::decimal(n) + gap));
            &&& n > CURRENT_FORMAT_VERSION ==> r == Err::<VersionPlan, ErrorView>(
                ErrorView::VersionMismatch { repo: n as u32, driver: CURRENT_FORMAT_VERSION },
            )
            &&& n == CURRENT_FORMAT_VERSION ==> r == Ok::<VersionPlan, ErrorView>(
                VersionPlan::Current,
            )
            &&& n < CURRENT_FORMAT_VERSION ==> r == Ok::<VersionPlan, ErrorView>(
                VersionPlan::AddVersionFile,
            )
        }),
{
    let d = text::decimal(n);
    law_decimal(n);
    let e = Seq::<char>::empty();
    assert(text::is_digit(d[0]) && text::is_digit(d[d.len() - 1]));
    law_trim_finds(e, d, gap);
    assert(e + d + gap =~= d + gap);
    law_scanned(d, u32::MAX as int);
    assert(text::parsed_unsigned(d, u32::MAX as int) == Ok::<int, text::NumberError>(n as int));
}

/// Taking the endings from a path takes them all and nothing else.
pub proof fn law_endings(path: Seq<char>, n: nat)
    ensures
        is_stem(without_endings(path)),
        has_prefix(path, without_endings(path)),
        is_stem(path) ==> without_endings(path + endings(n)) == path,
    decreases path.len() + n,
{
    reveal_strlit(".md");
    let p = path;
    if has_suffix(p, ".md"@) {
        let q = p.take(p.len() - 3);
        law_endings(q, 0);
        let w = without_endings(q);
        assert(p.take(w.len() as int) =~= q.take(w.len() as int));
    } else {
        assert(p.take(p.len() as int) =~= p);
        if n > 0 {
            law_endings(p, (n - 1) as nat);
            let a = p + endings((n - 1) as nat);
            let b = p + endings(n);
            assert(b =~= a + ".md"@);
            assert(b.skip(b.len() - 3) =~= ".md"@);
            assert(b.take(b.len() - 3) =~= a);
            assert(without_endings(b) == without_endings(a));
        } else {
            assert(p + endings(0) =~= p);
        }
    }
}

/// So many endings.
pub open spec fn endings(n: nat) -> Seq<char>
    decreases n,
{
    if n == 0 {
        Seq::empty()
    } else {
        endings((n - 1) as nat) + ".md"@
    }
}

/// The name of a file that others were joined into is read as the part that it holds, where
/// its first word names a commit.
pub proof fn law_merged_name(id: Seq<char>, is_frontmatter: bool)
    requires
        is_frontmatter || !has_suffix(id, "_fm"@),
    ensures
        temp_name(merged_name(id, is_frontmatter)) == match commit_named("compacted"@) {
            Some(full) => Some(TempView { commit: full, zettel_id: Some(id), is_frontmatter }),
            None => None,
        },
{
    reveal_strlit("compacted");
    reveal_strlit("compacted_");
    reveal_strlit("_");
    assert("compacted_"@ =~= "compacted"@ + "_"@);
    assert(!"compacted"@.contains('_')) by {
        if "compacted"@.contains('_') {
            let i = "compacted"@.index_of('_');
            assert("compacted"@[i] == '_');
        }
    }
    crate::compaction::law_temp_name_round_trip("compacted"@, id, is_frontmatter);
}

/// A device is found by its identifier, the first where there are two.
pub proof fn law_node_found(nodes: Seq<NodeConfig>, uuid: Seq<char>)
    ensures
        match node_place(nodes, uuid) {
            Some(i) => 0 <= i < nodes.len() && nodes[i].uuid@ == uuid && forall|j: int|
                0 <= j < i ==> (#[trigger] nodes[j]).uuid@ != uuid,
            None => forall|j: int| 0 <= j < nodes.len() ==> (#[trigger] nodes[j]).uuid@ != uuid,
        },
{
    if exists|i: int| 0 <= i < nodes.len() && (#[trigger] nodes[i]).uuid@ == uuid {
        let i = choose|i: int| 0 <= i < nodes.len() && (#[trigger] nodes[i]).uuid@ == uuid;
        lemma_first_node(nodes, uuid, i);
    }
}

proof fn lemma_first_node(nodes: Seq<NodeConfig>, uuid: Seq<char>, i: int)
    requires
        0 <= i < nodes.len(),
        nodes[i].uuid@ == uuid,
    ensures
        exists|k: int|
            0 <= k < nodes.len() && (#[trigger] nodes[k]).uuid@ == uuid && (forall|j: int|
                0 <= j < k ==> (#[trigger] nodes[j]).uuid@ != uuid),
    decreases i,
{
    if exists|j: int| 0 <= j < i && (#[trigger] nodes[j]).uuid@ == uuid {
        let j = choose|j: int| 0 <= j < i && (#[trigger] nodes[j]).uuid@ == uuid;
        lemma_first_node(nodes, uuid, j);
    } else {
        assert(nodes[i].uuid@ == uuid);
    }
}

// ---------------------------------------------------------------------------
// Identifiers
// ---------------------------------------------------------------------------
/// The identifier after a time is that of the first later second whose identifier is free.
pub proof fn law_next_free(t: int, taken: Seq<Seq<char>>, fuel: nat)
    ensures
        free_after(t, taken, fuel) matches Some(u) ==> {
            &&& t < u <= t + fuel + 1
            &&& id_text(u) is Some && !taken.contains(id_text(u)->0)
            &&& forall|x: int|
                t < x < u ==> (#[trigger] id_text(x)) is Some && taken.contains(id_text(x)->0)
        },
    decreases fuel,
{
    if id_text(t + 1) is Some && taken.contains(id_text(t + 1)->0) && fuel > 0 {
        law_next_free(t + 1, taken, (fuel - 1) as nat);
    }
}

/// Identifiers for some rows: as many as are asked for, the first one that was given, each
/// later than the one before and free.
pub proof fn law_times(first: int, taken: Seq<Seq<char>>, n: int)
    ensures
        times_from(first, taken, n) matches Some(l) ==> {
            &&& l.len() == if n <= 1 {
                1
            } else {
                n
            }
            &&& l[0] == first
            &&& forall|i: int, j: int| 0 <= i < j < l.len() ==> #[trigger] l[i] < #[trigger] l[j]
            &&& forall|i: int|
                0 < i < l.len() ==> id_text(#[trigger] l[i]) is Some && !taken.contains(
                    id_text(l[i])->0,
                )
        },
    decreases n,
{
    if n > 1 {
        law_times(first, taken, n - 1);
        if let Some(l) = times_from(first, taken, n - 1) {
            law_next_free(l.last(), taken, taken.len());
            if let Some(t) = free_after(l.last(), taken, taken.len()) {
                let r = l.push(t);
                assert forall|i: int, j: int| 0 <= i < j < r.len() implies #[trigger] r[i]
                    < #[trigger] r[j] by {
                    assert(r[i] == l[i]);
                    if j < l.len() {
                        assert(r[j] == l[j]);
                    } else if i < l.len() - 1 {
                        assert(l[i] < l[l.len() - 1]);
                    }
                }
            }
        }
    }
}

/// The keys under which a note is found are those of its type, of each of its tags and of each
/// of its links.
pub proof fn law_keys_of_note(k: IndexKeys, z: ZettelView, id: Seq<char>)
    requires
        are_keys(k, z, id),
    ensures
        k.id@ == id,
        texts(k.by_tag@).to_set() == tag_key_set(z, id),
        texts(k.links@).to_set() == link_key_set(z, id),
        k.by_type matches Some(t) ==> type_key_set(z, id) == Set::empty().insert(t@),
        k.by_type is None ==> type_key_set(z, id) == Set::<Seq<char>>::empty(),
        k.by_tag@.len() == z.meta.tags.len(),
        k.links@.len() == z.links.len(),
        forall|i: int|
            0 <= i < z.meta.tags.len() ==> texts(k.by_tag@)[i] == (#[trigger] z.meta.tags[i]) + "/"@
                + id,
        forall|i: int|
            0 <= i < z.links.len() ==> texts(k.links@)[i] == (#[trigger] z.links[i]).target + "/"@
                + id,
{
    assert(texts(k.by_tag@).len() == k.by_tag@.len());
    assert(texts(k.links@).len() == k.links@.len());
}

// ---------------------------------------------------------------------------
// Texts
// ---------------------------------------------------------------------------
/// A zone is read as it is written.
pub proof fn law_zone_text(z: Zone)
    ensures
        zone_of_text(zone_text(z)) == z,
        zone_text(Zone::Frontmatter) == "frontmatter"@,
        zone_text(Zone::Body) == "body"@,
        zone_text(Zone::Reference) == "reference"@,
{
    reveal_strlit("frontmatter");
    reveal_strlit("body");
    reveal_strlit("reference");
    assert("frontmatter"@.len() == 11 && "body"@.len() == 4 && "reference"@.len() == 9);
}

/// The type of a value: a text counts as the number or the truth value that it writes.
pub proof fn law_type_of_text(s: Seq<char>)
    ensures
        text::parsed_signed(s) is Some ==> type_of_value(ValueView::Text(s)) == "INTEGER"@,
        text::parsed_signed(s) is None && crate::yaml::real_written(s) is Some ==> type_of_value(
            ValueView::Text(s),
        ) == "REAL"@,
        text::parsed_signed(s) is None && crate::yaml::real_written(s) is None && (s == "true"@
            || s == "false"@) ==> type_of_value(ValueView::Text(s)) == "BOOLEAN"@,
        text::parsed_signed(s) is None && crate::yaml::real_written(s) is None && s != "true"@ && s
            != "false"@ ==> type_of_value(ValueView::Text(s)) == "TEXT"@,
        type_of_value(ValueView::Bool(true)) == "BOOLEAN"@,
        type_of_value(ValueView::Bool(false)) == "BOOLEAN"@,
{
}

/// The letters A to Z are put in lower case one by one, and nothing else changes.
pub proof fn law_ascii_lowered(s: Seq<char>)
    ensures
        ascii_lowered(s).len() == s.len(),
        forall|i: int|
            0 <= i < s.len() ==> (if 'A' as int <= s[i] as int <= 'Z' as int {
                (#[trigger] ascii_lowered(s)[i]) as int == s[i] as int + 32
            } else {
                ascii_lowered(s)[i] == s[i]
            }),
        ascii_lowered(ascii_lowered(s)) == ascii_lowered(s),
{
    let t = ascii_lowered(s);
    assert forall|i: int| 0 <= i < s.len() implies (if 'A' as int <= s[i] as int <= 'Z' as int {
        (#[trigger] t[i]) as int == s[i] as int + 32
    } else {
        t[i] == s[i]
    }) by {
        let n = s[i] as int;
        if 65 <= n <= 90 {
            let c = (n + 32) as char;
            assert(c as int == n + 32);
        }
    }
    assert(ascii_lowered(t) =~= t);
}

/// The number of bytes of a text in UTF-8.
pub open spec fn bytes_in(s: Seq<char>) -> int
    decreases s.len(),
{
    if s.len() == 0 {
        0
    } else {
        let n = s[0] as int;
        (if n < 0x80 {
            1
        } else if n < 0x800 {
            2
        } else if n < 0x10000 {
            3
        } else {
            4int
        }) + bytes_in(s.drop_first())
    }
}

/// A place in bytes is between two characters just where some first characters take so many
/// bytes.
pub proof fn law_place_in_bytes(s: Seq<char>, n: int, k: int)
    ensures
        char_at_byte(s, n) matches Some(i) ==> 0 <= i <= s.len() && bytes_in(s.take(i)) == n,
        0 <= k <= s.len() && bytes_in(s.take(k)) == n ==> char_at_byte(s, n) == Some(k),
    decreases s.len(),
{
    if s.len() > 0 && n > 0 {
        let d = s.drop_first();
        let w = text::width(s[0]);
        law_place_in_bytes(d, n - w, k - 1);
        if let Some(i) = char_at_byte(s, n) {
            assert(s.take(i).drop_first() =~= d.take(i - 1));
        }
        if 0 < k <= s.len() {
            assert(s.take(k).drop_first() =~= d.take(k - 1));
            lemma_bytes_positive(d.take(k - 1));
        }
    } else if 0 <= k <= s.len() {
        lemma_bytes_positive(s.take(k));
        assert(s.take(0) =~= Seq::empty());
    } else {
        assert(s.take(0) =~= Seq::empty());
    }
    if n == 0 {
        assert(s.take(0) =~= Seq::empty());
        if 0 < k <= s.len() {
            lemma_bytes_positive(s.take(k));
        }
    }
}

proof fn lemma_bytes_positive(s: Seq<char>)
    ensures
        bytes_in(s) >= s.len(),
    decreases s.len(),
{
    if s.len() > 0 {
        lemma_bytes_positive(s.drop_first());
    }
}

/// An error is shown with its message behind its kind.
pub proof fn law_error_text(e: ErrorView, m: Seq<char>)
    ensures
        e == ErrorView::Parse(m) || e == ErrorView::Validation(m) || e == ErrorView::NotFound(m)
            || e == ErrorView::SqlEngine(m) || e == ErrorView::Git(m) || e == ErrorView::Yaml(m)
            || e == ErrorView::InvalidPath(m) || e == ErrorView::Io(m) || e == ErrorView::Toml(m)
            || e == ErrorView::Sql(m) || e == ErrorView::Automerge(m) || e == ErrorView::Redb(m)
            ==> has_suffix(error_text(e), ": "@ + m),
{
    reveal_strlit(": ");
    reveal_strlit("git: ");
    reveal_strlit("yaml: ");
    reveal_strlit("sql: ");
    reveal_strlit("automerge: ");
    reveal_strlit("io: ");
    reveal_strlit("toml: ");
    reveal_strlit("parse: ");
    reveal_strlit("not found: ");
    reveal_strlit("validation: ");
    reveal_strlit("invalid path: ");
    reveal_strlit("sql engine: ");
    reveal_strlit("redb: ");
    let t = error_text(e);
    let x = ": "@ + m;
    assert(t.len() >= x.len() ==> t.skip(t.len() - x.len()).len() == x.len());
    if e == ErrorView::Parse(m) || e == ErrorView::Validation(m) || e == ErrorView::NotFound(m) || e
        == ErrorView::SqlEngine(m) || e == ErrorView::Git(m) || e == ErrorView::Yaml(m) || e
        == ErrorView::InvalidPath(m) || e == ErrorView::Io(m) || e == ErrorView::Toml(m) || e
        == ErrorView::Sql(m) || e == ErrorView::Automerge(m) || e == ErrorView::Redb(m) {
        assert(t.skip(t.len() - x.len()) =~= x);
    }
}

} // verus!
