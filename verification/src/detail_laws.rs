//! How the parts of a note, a column and a statement fit together.
use crate::attachments::path_of;
use crate::column_laws::law_link_target;
use crate::compaction::{temp_key, temp_name};
use crate::crdt_resolver::{
    ancestor_text, assembled, default_bodies, default_resolution, default_rule, fails_with,
    front_merged, is_log, is_log_body, is_resolution, log_resolution, resolution_error, resolves,
    side_zones, unreadable, BodyRule,
};
use crate::effects::{table_effects, EffectView};
use crate::error::{ErrorView, ZettelError};
use crate::hlc::Hlc;
use crate::index_plan::{
    attachment_row, check_sql, column_sql, column_sqls, create_sql, insert_names, insert_sql,
    name_sql, placeholders, quoted_values, scalar_of, update_statement,
};
use crate::indexer::{cell, field_value, has_cell, merged_schema, section_in, shown_value};
use crate::merge::is_reference_merge;
use crate::merge_fm::{
    field_merged, fm_value, in_quotes, is_fm_merge, lists_of, node_text, scalars_of, FmEntries,
    FmView,
};
use crate::parser::{
    body_groups, fence_flags, field_items, frontmatter_of, inline_fields_of, is_fence, is_rule,
    parsed_zettel, ref_groups, serialized, split_view, wikilinks_of,
};
use crate::patterns::{
    groups, matched, is_block_mark, without_code, BODY_FIELD, LOG_ENTRY, REF_FIELD,
};
use crate::reading_laws::{
    are_fields, is_held, law_code_gives_nothing, law_inline_fields, marks_before,
};
use crate::schema::{text_at, typedef_meta, zone_of_column, Fields};
use crate::sql::SqlColumn;
use crate::sql_engine::{declared_column, renamed_text, untyped_text, updated_text};
use crate::sql_plan::{edited, NoteEdit};
use crate::string_laws::{is_gap, law_trim_finds};
use crate::text::{self, has_part, has_prefix, has_suffix, join, lines};
use crate::textmap::{lookup, mapped};
use crate::types::{
    ColumnView, ConflictFile, ResolvedFile, SchemaView, ValueView, ZettelView, Zone, ZonesView,
};
use crate::yaml::YamlView;
use vstd::prelude::*;

verus! {

// ---------------------------------------------------------------------------
// Notes
// ---------------------------------------------------------------------------
/// A note that is read has the zones that its text is cut into, what its front matter says, the
/// inline fields of its body and its reference section, the links of all three zones, and the
/// path that it was read from.
pub proof fn law_note_parts(content: Seq<char>, path: Seq<char>)
    ensures
        match parsed_zettel(content, path) {
            Ok(z) => split_view(content) matches Ok(c) && {
                &&& z.body == c.body
                &&& z.reference == c.reference
                &&& z.path == path
                &&& frontmatter_of(c.frontmatter, path) == Ok::<_, ErrorView>(z.meta)
                &&& inline_fields_of(c.body, c.reference) == Ok::<_, ErrorView>(z.fields)
                &&& z.links == wikilinks_of(c.frontmatter, c.body, c.reference)
            },
            Err(_) => match split_view(content) {
                Err(_) => true,
                Ok(c) => frontmatter_of(c.frontmatter, path) is Err || inline_fields_of(
                    c.body,
                    c.reference,
                ) is Err,
            },
        },
{
}

/// Each line of a note's reference section that has the form of a field gives one, and each line
/// of its body that has it outside of code.
pub proof fn law_fields_of_note(body: Seq<char>, reference: Seq<char>, i: int)
    requires
        inline_fields_of(body, reference) is Ok,
    ensures
        ({
            let fs = inline_fields_of(body, reference)->Ok_0;
            &&& 0 <= i < lines(reference).len() ==> is_held(
                fs,
                (groups(REF_FIELD@, lines(reference)[i]), Zone::Reference),
            )
            &&& 0 <= i < lines(body).len() && !is_block_mark(lines(body)[i]) && marks_before(
                fence_flags(lines(body)),
                i,
            ) % 2 == 0 ==> is_held(
                fs,
                (groups(BODY_FIELD@, without_code(lines(body)[i])), Zone::Body),
            )
        }),
{
    let bl = lines(body);
    let rl = lines(reference);
    let fences = fence_flags(bl);
    let bg = body_groups(bl);
    let rg = ref_groups(rl);
    let items = field_items(fences, bg, rg);
    let fs = inline_fields_of(body, reference)->Ok_0;
    law_inline_fields(items);
    assert(are_fields(items, fs));
    if 0 <= i < rl.len() {
        assert(items[bl.len() + i] == (groups(REF_FIELD@, rl[i]), Zone::Reference));
        assert(is_held(fs, items[bl.len() + i]));
    }
    if 0 <= i < bl.len() {
        law_code_gives_nothing(fences, bg, rg, i);
        assert(is_held(fs, items[i]));
    }
}

/// A rule is three hyphens, with white space round them or not. A fence is three backticks or
/// tildes, whatever follows.
pub proof fn law_rules_and_fences(a: Seq<char>, b: Seq<char>, word: Seq<char>)
    requires
        is_gap(a) && is_gap(b),
        word.len() > 0 && !text::is_space(word[0]) && !text::is_space(word.last()),
    ensures
        is_rule(a + "---"@ + b),
        is_rule(a + word + b) == (word == "---"@),
        is_fence(a + word + b) == (has_prefix(word, "```"@) || has_prefix(word, "~~~"@)),
        !is_rule(a),
        !is_fence(a),
{
    reveal_strlit("---");
    reveal_strlit("```");
    reveal_strlit("~~~");
    law_trim_finds(a, "---"@, b);
    law_trim_finds(a, word, b);
    crate::string_laws::law_trim(a);
}

/// An empty side of a conflict has three empty zones; any other is cut as a note is. An ancestor
/// that is not there is empty.
pub proof fn law_sides(content: Seq<char>, c: ConflictFile)
    ensures
        content.len() == 0 ==> (side_zones(content) matches Ok(z) && z.frontmatter.len() == 0
            && z.body.len() == 0 && z.reference.len() == 0),
        content.len() > 0 ==> side_zones(content) == split_view(content),
        c.ancestor is None ==> ancestor_text(c).len() == 0,
        c.ancestor matches Some(s) ==> ancestor_text(c) == s@,
{
}

/// A change of a note is what its kind says.
pub proof fn law_kinds_of_edits(content: Seq<char>, path: Seq<char>, e: NoteEdit)
    ensures
        e is Untype ==> edited(content, path, e) == untyped_text(content, path),
        e matches NoteEdit::Rename { old_name, new_name, zone } ==> edited(content, path, e)
            == renamed_text(content, path, old_name@, new_name@, zone),
        e matches NoteEdit::Update { schema, updates } ==> edited(content, path, e) == updated_text(
            content,
            path,
            schema@,
            mapped(updates@),
        ),
{
}

// ---------------------------------------------------------------------------
// Columns
// ---------------------------------------------------------------------------
/// A column is kept where it says; else among the references where it refers to a table, in the
/// front matter where it is a number or a truth value, and in the body otherwise.
pub proof fn law_zone_of_column(c: ColumnView)
    ensures
        c.zone matches Some(z) ==> zone_of_column(c) == z,
        c.zone is None && c.references is Some ==> zone_of_column(c) == Zone::Reference,
        c.zone is None && c.references is None && seq!["INTEGER"@, "REAL"@, "BOOLEAN"@].contains(
            text::uppered(c.data_type),
        ) ==> zone_of_column(c) == Zone::Frontmatter,
        c.zone is None && c.references is None && !seq!["INTEGER"@, "REAL"@, "BOOLEAN"@].contains(
            text::uppered(c.data_type),
        ) ==> zone_of_column(c) == Zone::Body,
{
    let t = text::uppered(c.data_type);
    let s = seq!["INTEGER"@, "REAL"@, "BOOLEAN"@];
    assert(s[0] == "INTEGER"@ && s[1] == "REAL"@ && s[2] == "BOOLEAN"@);
    if s.contains(t) {
        let i = s.index_of(t);
        assert(s[i] == t);
    }
}

/// A column that a statement declares is kept where a column that says nothing of it is.
pub proof fn law_declared_zone(c: SqlColumn)
    ensures
        declared_column(c).zone == Some(
            zone_of_column(ColumnView { zone: None, ..declared_column(c) }),
        ),
        zone_of_column(declared_column(c)) == zone_of_column(
            ColumnView { zone: None, ..declared_column(c) },
        ),
        declared_column(c).data_type == crate::sql::type_name_of(c.data_type),
{
}

/// What a note has for a column: the target of its first field with the column's name, the field
/// of its front matter, or its section.
pub proof fn law_cell(z: ZettelView, c: ColumnView, target: Seq<char>)
    requires
        target.len() > 0 && !target.contains('|') && !target.contains(']'),
    ensures
        zone_of_column(c) == Zone::Reference && field_value(z.fields, c.name) == Some(
            "[["@ + target + "]]"@,
        ) ==> cell(z, c) == target,
        zone_of_column(c) == Zone::Reference && field_value(z.fields, c.name) is None ==> cell(
            z,
            c,
        ).len() == 0,
        zone_of_column(c) == Zone::Frontmatter ==> (lookup(z.meta.extra, c.name)
            matches Some(ValueView::Text(s)) ==> cell(z, c) == s),
        zone_of_column(c) == Zone::Frontmatter && lookup(z.meta.extra, c.name) is None ==> cell(
            z,
            c,
        ).len() == 0,
        zone_of_column(c) == Zone::Body ==> cell(z, c) == section_in(lines(z.body), c.name),
{
    let e = Seq::<char>::empty();
    law_link_target(target, e);
}

/// Whether a note has a required column: a field with its name where the column says that it is
/// a reference, a heading where it says that it is in the body, else a field of the front matter.
pub proof fn law_has_cell(z: ZettelView, c: ColumnView)
    ensures
        c.zone == Some(Zone::Reference) ==> has_cell(z, c) == exists|i: int|
            0 <= i < z.fields.len() && (#[trigger] z.fields[i]).key == c.name,
        c.zone == Some(Zone::Body) ==> has_cell(z, c) == has_part(z.body, "## "@ + c.name),
        c.zone == Some(Zone::Frontmatter) || c.zone is None ==> has_cell(z, c) == lookup(
            z.meta.extra,
            c.name,
        ) is Some,
{
}

/// A single value is shown the same in a column and as a field.
pub proof fn law_shown_value(v: ValueView)
    ensures
        v is List || v is Mapping ==> scalar_of(v) is None,
        !(v is List || v is Mapping) ==> scalar_of(v) == Some(shown_value(v)),
        v matches ValueView::Text(s) ==> shown_value(v) == s,
        v matches ValueView::Number(n) ==> shown_value(v) == n.display,
        v matches ValueView::Bool(b) ==> shown_value(v) == if b {
            "true"@
        } else {
            "false"@
        },
{
}

/// A schema that is given keeps its strategy and its sections; without one the inferred schema is
/// taken as it is.
pub proof fn law_merged_schema(g: SchemaView, inferred: SchemaView)
    ensures
        merged_schema(None, inferred) == inferred,
        merged_schema(Some(g), inferred).crdt_strategy == g.crdt_strategy,
        merged_schema(Some(g), inferred).template_sections == g.template_sections,
        merged_schema(Some(g), inferred).table_name == g.table_name,
{
}

/// The note of a schema is titled as the table and has the type of schemas.
pub proof fn law_schema_note(id: Seq<char>, s: SchemaView)
    ensures
        typedef_meta(id, s).id == Some(id),
        typedef_meta(id, s).title == Some(s.table_name),
        typedef_meta(id, s).zettel_type == Some("_typedef"@),
        typedef_meta(id, s).date is None,
        typedef_meta(id, s).tags.len() == 0,
{
}

// ---------------------------------------------------------------------------
// Statements
// ---------------------------------------------------------------------------
/// A column that allows some values is checked: it may be empty or one of them.
pub proof fn law_checked_column(c: ColumnView)
    ensures
        c.allowed_values matches Some(l) ==> {
            &&& has_suffix(column_sql(c), " IN ("@ + join(quoted_values(l), ", "@) + "))"@)
            &&& has_part(column_sql(c), name_sql(c.name) + " IS NULL OR "@ + name_sql(c.name))
        },
        c.allowed_values is None ==> check_sql(c).len() == 0,
{
    if let Some(l) = c.allowed_values {
        let n = name_sql(c.name);
        let x = " IN ("@ + join(quoted_values(l), ", "@) + "))"@;
        let h = n + " "@ + crate::index_plan::storage_type(c.data_type) + " CHECK("@;
        let y = n + " IS NULL OR "@ + n;
        let s = column_sql(c);
        assert(s =~= h + y + x);
        assert(s.skip(s.len() - x.len()) =~= x);
        assert(s.subrange(h.len() as int, h.len() as int + y.len()) =~= y);
        assert(text::occurs_at(s, y, h.len() as int));
    }
}

/// A table is created under its name with all its columns.
pub proof fn law_create_statement(s: SchemaView, if_not_exists: bool)
    ensures
        has_suffix(
            create_sql(s, if_not_exists),
            name_sql(s.table_name) + " ("@ + join(column_sqls(s.columns), ", "@) + ")"@,
        ),
        has_prefix(create_sql(s, true), "CREATE TABLE IF NOT EXISTS "@),
        has_prefix(create_sql(s, if_not_exists), "CREATE TABLE "@),
        create_sql(s, false).len() == "CREATE TABLE "@.len() + (name_sql(s.table_name) + " ("@ + join(
            column_sqls(s.columns),
            ", "@,
        ) + ")"@).len(),
{
    reveal_strlit("CREATE TABLE ");
    reveal_strlit("CREATE TABLE IF NOT EXISTS ");
    let x = name_sql(s.table_name) + " ("@ + join(column_sqls(s.columns), ", "@) + ")"@;
    let r = create_sql(s, if_not_exists);
    assert(r.skip(r.len() - x.len()) =~= x);
    let t = create_sql(s, true);
    assert(t.take("CREATE TABLE IF NOT EXISTS "@.len() as int) =~= "CREATE TABLE IF NOT EXISTS "@);
    assert(r.take("CREATE TABLE "@.len() as int) =~= "CREATE TABLE "@);
}

/// A row is inserted into its table under the names of all columns, with as many places for
/// values.
pub proof fn law_insert_statement(s: SchemaView, or_replace: bool)
    ensures
        has_suffix(
            insert_sql(s, or_replace),
            name_sql(s.table_name) + " ("@ + join(insert_names(s.columns), ", "@) + ") VALUES ("@
                + join(placeholders(s.columns.len() + 1), ", "@) + ")"@,
        ),
        has_prefix(insert_sql(s, false), "INSERT INTO "@),
        has_prefix(insert_sql(s, true), "INSERT OR REPLACE INTO "@),
{
    let x = name_sql(s.table_name) + " ("@ + join(insert_names(s.columns), ", "@) + ") VALUES ("@
        + join(placeholders(s.columns.len() + 1), ", "@) + ")"@;
    let r = insert_sql(s, or_replace);
    assert(r.skip(r.len() - x.len()) =~= x);
    let a = insert_sql(s, false);
    let b = insert_sql(s, true);
    assert(a.take("INSERT INTO "@.len() as int) =~= "INSERT INTO "@);
    assert(b.take("INSERT OR REPLACE INTO "@.len() as int) =~= "INSERT OR REPLACE INTO "@);
}

/// The row of an attachment has what the note says of it, and the path that the file is stored
/// under.
pub proof fn law_attachment_row(id: Seq<char>, m: Fields, name: Seq<char>)
    requires
        text_at(m, "name"@) == Some(name),
    ensures
        attachment_row(id, m).name == name,
        attachment_row(id, m).path == path_of(id, name),
        text_at(m, "mime"@) matches Some(t) ==> attachment_row(id, m).mime == t,
        lookup(m, "size"@) matches Some(ValueView::Number(n)) ==> attachment_row(id, m).size
            == n.as_i64,
{
}

// ---------------------------------------------------------------------------
// Fields and files
// ---------------------------------------------------------------------------
/// A field of a front matter is a list where it holds one, with a text for each item, and a
/// scalar otherwise; a text is taken as it is.
pub proof fn law_field_value(y: YamlView, l: Seq<YamlView>, s: Seq<char>, i: int)
    ensures
        node_text(YamlView::Text(s)) == s,
        fm_value(YamlView::List(l)) matches FmView::List(r) && r.len() == l.len() && (0 <= i < l.len()
            ==> r[i] == node_text(l[i])),
        !(y is List) ==> fm_value(y) == FmView::Scalar(node_text(y)),
{
}

/// A temporary file belongs to the part that its name says; one without an identifier, and the
/// file that keeps the directory, belong to none.
pub proof fn law_part_of_file(name: Seq<char>)
    ensures
        temp_key(".gitkeep"@) is None,
        temp_name(name) is None ==> temp_key(name) is None,
        temp_name(name) matches Some(t) ==> name != ".gitkeep"@ ==> temp_key(name) == match t.zettel_id {
            Some(id) => Some((id, t.is_frontmatter)),
            None => None,
        },
{
}

// ---------------------------------------------------------------------------
// Merging
// ---------------------------------------------------------------------------
/// A scalar field that both sides changed comes out as one of them has it; where one side took it
/// away and the other changed it, it comes out as changed.
pub proof fn law_scalar_conflict(
    a: FmEntries,
    o: FmEntries,
    t: FmEntries,
    m: FmEntries,
    k: Seq<char>,
)
    requires
        is_fm_merge(a, o, t, m),
        lookup(lists_of(a), k) is None && lookup(lists_of(o), k) is None && lookup(lists_of(t), k)
            is None,
        lookup(scalars_of(o), k) != lookup(scalars_of(a), k),
        lookup(scalars_of(t), k) != lookup(scalars_of(a), k),
    ensures
        match (lookup(scalars_of(o), k), lookup(scalars_of(t), k)) {
            (Some(x), Some(y)) => lookup(m, k) == Some(FmView::Scalar(in_quotes(x))) || lookup(m, k)
                == Some(FmView::Scalar(in_quotes(y))),
            (Some(x), None) => lookup(m, k) == Some(FmView::Scalar(in_quotes(x))),
            (None, Some(y)) => lookup(m, k) == Some(FmView::Scalar(in_quotes(y))),
            (None, None) => lookup(m, k) is None,
        },
{
    assert(field_merged(a, o, t, k, lookup(m, k)));
}

/// Time stamps are ordered by the wall clock, then by the counter, then by the device.
pub proof fn law_order_of_time_stamps(x: Hlc, y: Hlc)
    ensures
        x.wall_ms < y.wall_ms ==> x.before(y) && !y.before(x),
        x.wall_ms == y.wall_ms && x.counter < y.counter ==> x.before(y) && !y.before(x),
        x.wall_ms == y.wall_ms && x.counter == y.counter ==> x.before(y) == text::lt(
            x.node@,
            y.node@,
        ),
{
}

/// A conflict one side of which cannot be read is not resolved: the error is that of the first
/// side that cannot, the ancestor before ours and ours before theirs.
pub proof fn law_unreadable_side(c: ConflictFile, e: ErrorView)
    ensures
        side_zones(ancestor_text(c)) == Err::<ZonesView, ErrorView>(e) ==> unreadable(c) == Some(e),
        side_zones(ancestor_text(c)) is Ok && side_zones(c.ours@) == Err::<ZonesView, ErrorView>(e)
            ==> unreadable(c) == Some(e),
        side_zones(ancestor_text(c)) is Ok && side_zones(c.ours@) is Ok && side_zones(c.theirs@)
            == Err::<ZonesView, ErrorView>(e) ==> unreadable(c) == Some(e),
{
}

#[verifier::spinoff_prover]
proof fn lemma_resolved_is_readable(c: ConflictFile, content: Seq<char>)
    requires
        default_resolution(c, content),
    ensures
        unreadable(c) is None,
{
    let a = side_zones(ancestor_text(c))->Ok_0;
    let o = side_zones(c.ours@)->Ok_0;
    let t = side_zones(c.theirs@)->Ok_0;
    let fm = choose|fm: Seq<char>| front_merged(a, o, t, fm);
    assert(front_merged(a, o, t, fm));
}

proof fn lemma_error_is(c: ConflictFile, bodies: BodyRule, e: ErrorView, x: ErrorView)
    requires
        resolution_error(c, bodies, e),
        unreadable(c) == Some(x),
    ensures
        e == x,
{
}

#[verifier::spinoff_prover]
#[verifier::rlimit(60)]
proof fn lemma_first_error(
    conflicts: Seq<ConflictFile>,
    bodies: BodyRule,
    e: ErrorView,
    x: ErrorView,
)
    requires
        conflicts.len() > 0,
        unreadable(conflicts[0]) == Some(x),
        fails_with(conflicts, bodies, e),
    ensures
        e == x,
{
    assert forall|i: int|
        0 <= i < conflicts.len() && #[trigger] resolution_error(conflicts[i], bodies, e) && (
        forall|j: int| 0 <= j < i ==> unreadable(#[trigger] conflicts[j]) is None) implies e
        == x by {
        if i > 0 {
            assert(unreadable(conflicts[0]) is None);
        } else {
            lemma_error_is(conflicts[0], bodies, e, x);
        }
    }
}

/// Where the first conflict cannot be read, none is resolved, and the error is that conflict's.
#[verifier::spinoff_prover]
#[verifier::rlimit(60)]
pub proof fn law_unreadable_conflict(
    conflicts: Seq<ConflictFile>,
    r: Result<Vec<ResolvedFile>, ZettelError>,
    x: ErrorView,
)
    requires
        conflicts.len() > 0,
        unreadable(conflicts[0]) == Some(x),
        is_resolution(conflicts, None, r),
    ensures
        r matches Err(e) && e@ == x,
{
    match r {
        Ok(files) => {
            assert(resolves(conflicts, files@, default_rule()));
            assert(files@[0].path@ == conflicts[0].path@);
            assert(default_rule()(conflicts[0], files@[0].content@));
            lemma_resolved_is_readable(conflicts[0], files@[0].content@);
        },
        Err(e) => {
            lemma_first_error(conflicts, default_bodies(), e@, x);
        },
    }
}

/// A section is a log where one of its lines that is not blank has the form of an entry.
pub proof fn law_log_section(body: Seq<char>, i: int)
    ensures
        0 <= i < lines(body).len() && !text::is_blank(lines(body)[i]) && matched(
            LOG_ENTRY@,
            lines(body)[i],
        ) ==> is_log(body),
        (forall|j: int|
            0 <= j < lines(body).len() ==> text::is_blank(#[trigger] lines(body)[j]) || !matched(
                LOG_ENTRY@,
                lines(body)[j],
            )) ==> !is_log(body),
        is_log(Seq::empty()) == false,
{
}

/// A conflict of logs is resolved zone by zone: the front matter and the reference section are
/// merged as always, the body section by section.
pub proof fn law_log_resolution(c: ConflictFile, content: Seq<char>)
    requires
        log_resolution(c, content),
    ensures
        side_zones(ancestor_text(c)) matches Ok(a) && (side_zones(c.ours@) matches Ok(o)
            && (side_zones(c.theirs@) matches Ok(t) && exists|
            fm: Seq<char>,
            b: Seq<char>,
            r: Seq<char>,
        |
            {
                &&& front_merged(a, o, t, fm)
                &&& is_log_body(a.body, o.body, t.body, b)
                &&& is_reference_merge(a.reference, o.reference, t.reference, r)
                &&& #[trigger] assembled(c.path@, fm, b, r) == Ok::<Seq<char>, ErrorView>(content)
            })),
{
}

/// What is assembled of three zones is the text of the note with the front matter that they say,
/// that body and that reference section.
pub proof fn law_assembled(path: Seq<char>, fm: Seq<char>, body: Seq<char>, reference: Seq<char>)
    ensures
        assembled(path, fm, body, reference) matches Ok(s) ==> (frontmatter_of(fm, path)
            matches Ok(m) && s == serialized(m, body, reference)),
        assembled(path, fm, body, reference) is Err == (frontmatter_of(fm, path) is Err
            || inline_fields_of(body, reference) is Err),
{
}

/// The index is updated for a row where an update sets columns of its table, and by no other
/// change.
pub proof fn law_row_in_index(e: NoteEdit, id: Seq<char>)
    ensures
        e is Untype || e is Rename ==> table_effects(e, id).len() == 0,
        e matches NoteEdit::Update { schema, updates } ==> match update_statement(
            schema@,
            id,
            mapped(updates@),
        ) {
            None => table_effects(e, id).len() == 0,
            Some((sql, vals)) => table_effects(e, id).len() == 1 && (table_effects(e, id)[0]
                matches EffectView::Run { sql: q, values } && q == sql && values.len() == vals.len()
                && forall|i: int|
                0 <= i < vals.len() ==> values[i] == Some(#[trigger] vals[i])),
        },
{
}

} // verus!
