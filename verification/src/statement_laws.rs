//! What the parts of a statement come to: values, columns, rows and assignments.
use crate::error::ErrorView;
use crate::picks::{lemma_pick_more, lemma_pick_none, picked};
use crate::rows::{find_column, title_column, Cells};
use crate::schema::zone_of_column;
use crate::sql::{
    foreign_table, identifier, literal, where_id, AlterOperation, Condition, SqlColumn, SqlExpr,
    SqlOption,
};
use crate::sql_engine::{
    after_operation, allowed_error, altered, assigned, declared_column, declared_columns,
    first_missing, last_write, literal_rows, literals, paired, referenced, refused_value,
    row_cells_of, row_path_of, target_name, with_defaults, AlterState, PendingWrite,
};
use crate::text::{self, texts};
use crate::textmap::{self, lookup};
use crate::types::{ColumnView, Zone};
use vstd::prelude::*;

verus! {

// ---------------------------------------------------------------------------
// Values
// ---------------------------------------------------------------------------
/// The values of a row are the texts of its expressions, each in its place. Where an
/// expression has none, the error is that of the first such expression.
pub proof fn law_row_values(row: Seq<SqlExpr>)
    ensures
        match literals(row) {
            Ok(l) => l.len() == row.len() && forall|i: int|
                0 <= i < row.len() ==> literal(#[trigger] row[i]) == Ok::<Seq<char>, ErrorView>(
                    l[i],
                ),
            Err(e) => exists|i: int|
                0 <= i < row.len() && literal(#[trigger] row[i]) == Err::<Seq<char>, ErrorView>(e)
                    && forall|j: int| 0 <= j < i ==> literal(#[trigger] row[j]) is Ok,
        },
    decreases row.len(),
{
    if row.len() > 0 {
        let d = row.drop_last();
        let n = row.len() - 1;
        law_row_values(d);
        match literals(d) {
            Err(e) => {
                let i = choose|i: int|
                    0 <= i < d.len() && literal(#[trigger] d[i]) == Err::<Seq<char>, ErrorView>(e)
                        && forall|j: int| 0 <= j < i ==> literal(#[trigger] d[j]) is Ok;
                assert(row[i] == d[i]);
                assert forall|j: int| 0 <= j < i implies literal(#[trigger] row[j]) is Ok by {
                    assert(d[j] == row[j]);
                }
            },
            Ok(l) => {
                assert forall|j: int| 0 <= j < n implies literal(#[trigger] row[j]) == Ok::<
                    Seq<char>,
                    ErrorView,
                >(l[j]) by {
                    assert(d[j] == row[j]);
                }
                assert(row[n] == row.last());
            },
        }
    }
}

/// The rows of an insertion are all there, each with its values in their places; or the
/// error is that of the first row that has one.
pub proof fn law_all_rows(rows: Seq<Vec<SqlExpr>>)
    ensures
        match literal_rows(rows) {
            Ok(l) => l.len() == rows.len() && forall|i: int|
                0 <= i < rows.len() ==> literals((#[trigger] rows[i])@) == Ok::<
                    Seq<Seq<char>>,
                    ErrorView,
                >(l[i]),
            Err(e) => exists|i: int|
                0 <= i < rows.len() && literals((#[trigger] rows[i])@) == Err::<
                    Seq<Seq<char>>,
                    ErrorView,
                >(e) && forall|j: int| 0 <= j < i ==> literals((#[trigger] rows[j])@) is Ok,
        },
    decreases rows.len(),
{
    if rows.len() > 0 {
        let d = rows.drop_last();
        let n = rows.len() - 1;
        law_all_rows(d);
        match literal_rows(d) {
            Err(e) => {
                let i = choose|i: int|
                    0 <= i < d.len() && literals((#[trigger] d[i])@) == Err::<
                        Seq<Seq<char>>,
                        ErrorView,
                    >(e) && forall|j: int| 0 <= j < i ==> literals((#[trigger] d[j])@) is Ok;
                assert(rows[i] == d[i]);
                assert forall|j: int| 0 <= j < i implies literals((#[trigger] rows[j])@) is Ok by {
                    assert(d[j] == rows[j]);
                }
            },
            Ok(l) => {
                assert forall|j: int| 0 <= j < n implies literals((#[trigger] rows[j])@) == Ok::<
                    Seq<Seq<char>>,
                    ErrorView,
                >(l[j]) by {
                    assert(d[j] == rows[j]);
                }
                assert(rows[n] == rows.last());
            },
        }
    }
}

/// The condition `id = '<value>'` selects its value, however `id` is cased; no other
/// condition selects anything.
pub proof fn law_selected_id(c: Option<Condition>)
    ensures
        match where_id(c) {
            Ok(v) => c matches Some(w) && (w.expr matches SqlExpr::Binary { left, op, right, shown }
                && op@ == "="@ && (*left matches SqlExpr::Name { value, shown } && text::lowered(
                value@,
            ) == "id"@) && literal(*right) == Ok::<Seq<char>, ErrorView>(v)),
            Err(_) => true,
        },
        c matches Some(w) ==> (w.expr matches SqlExpr::Binary { left, op, right, shown } ==> op@
            == "="@ ==> (*left matches SqlExpr::Name { value, shown } ==> text::lowered(value@)
            == "id"@ ==> where_id(c) == literal(*right))),
{
}

// ---------------------------------------------------------------------------
// Rows
// ---------------------------------------------------------------------------
/// Whether a value is given at place `i` for a name, and none after it.
pub open spec fn is_last_of(names: Seq<Seq<char>>, name: Seq<char>, n: int, i: int) -> bool {
    &&& 0 <= i < n
    &&& names[i] == name
    &&& forall|j: int| i < j < n ==> #[trigger] names[j] != name
}

proof fn lemma_paired(names: Seq<Seq<char>>, vals: Seq<Seq<char>>, n: int, name: Seq<char>)
    requires
        0 <= n <= names.len() == vals.len(),
    ensures
        text::ascending(textmap::keys(paired(names, vals, n))),
        match lookup(paired(names, vals, n), name) {
            Some(v) => exists|i: int| #[trigger] is_last_of(names, name, n, i) && vals[i] == v,
            None => forall|i: int| 0 <= i < n ==> #[trigger] names[i] != name,
        },
    decreases n,
{
    if n > 0 {
        lemma_paired(names, vals, n - 1, name);
        let p = paired(names, vals, n - 1);
        textmap::law_put_sorted(p, names[n - 1], vals[n - 1]);
        textmap::lemma_lookup_put(p, names[n - 1], vals[n - 1]);
        if name == names[n - 1] {
            assert(is_last_of(names, name, n, n - 1));
        } else if let Some(v) = lookup(p, name) {
            let i = choose|i: int| #[trigger]
                is_last_of(names, name, n - 1, i) && vals[i] == v;
            assert(is_last_of(names, name, n, i));
        }
    } else {
        assert(textmap::keys(paired(names, vals, n)) =~= Seq::empty());
    }
}

/// A row has for each name that is given the value in the same place, the last one where
/// a name is given twice, and nothing else.
pub proof fn law_given_values(names: Seq<Seq<char>>, vals: Seq<Seq<char>>, name: Seq<char>)
    requires
        names.len() == vals.len(),
    ensures
        ({
            let r = lookup(paired(names, vals, names.len() as int), name);
            &&& names.contains(name) == r is Some
            &&& forall|i: int| #[trigger]
                is_last_of(names, name, names.len() as int, i) ==> r == Some(vals[i])
        }),
{
    let n = names.len() as int;
    lemma_paired(names, vals, n, name);
    let r = lookup(paired(names, vals, n), name);
    if r is Some {
        let k = choose|i: int| #[trigger] is_last_of(names, name, n, i) && vals[i] == r->0;
        assert(names[k] == name);
        assert forall|i: int| #[trigger] is_last_of(names, name, n, i) implies r == Some(
            vals[i],
        ) by {
            if i < k {
                assert(names[k] != name);
            }
            if k < i {
                assert(names[i] != name);
            }
        }
    } else if names.contains(name) {
        assert(names[names.index_of(name)] == name);
    }
}

/// The first column of a name.
pub proof fn law_column_found(cs: Seq<ColumnView>, name: Seq<char>)
    ensures
        match find_column(cs, name) {
            Some(i) => 0 <= i < cs.len() && cs[i].name == name && forall|j: int|
                0 <= j < i ==> (#[trigger] cs[j]).name != name,
            None => forall|j: int| 0 <= j < cs.len() ==> (#[trigger] cs[j]).name != name,
        },
    decreases cs.len(),
{
    if cs.len() > 0 {
        let d = cs.drop_last();
        law_column_found(d, name);
        assert forall|j: int| 0 <= j < d.len() implies #[trigger] cs[j] == d[j] by {}
    }
}

/// The column that gives the title: the first that is kept in the body.
pub proof fn law_title_column(cs: Seq<ColumnView>)
    ensures
        match title_column(cs) {
            Some(i) => 0 <= i < cs.len() && zone_of_column(cs[i]) == Zone::Body && forall|j: int|
                0 <= j < i ==> zone_of_column(#[trigger] cs[j]) != Zone::Body,
            None => forall|j: int|
                0 <= j < cs.len() ==> zone_of_column(#[trigger] cs[j]) != Zone::Body,
        },
    decreases cs.len(),
{
    if cs.len() > 0 {
        let d = cs.drop_last();
        law_title_column(d);
        assert forall|j: int| 0 <= j < d.len() implies #[trigger] cs[j] == d[j] by {}
    }
}

/// Where a row gives no value and a column has a default, the row gets that of the first
/// such column; other cells are as they were.
pub proof fn law_default_is_given(cs: Seq<ColumnView>, cells: Cells, i: int)
    requires
        text::ascending(textmap::keys(cells)),
        0 <= i < cs.len(),
        cs[i].default_value is Some,
        forall|j: int|
            0 <= j < i && (#[trigger] cs[j]).name == cs[i].name ==> cs[j].default_value is None,
    ensures
        lookup(cells, cs[i].name) is None ==> lookup(with_defaults(cs, cells), cs[i].name)
            == cs[i].default_value,
    decreases cs.len(),
{
    let d = cs.drop_last();
    let n = cs.len() - 1;
    let name = cs[i].name;
    let p = with_defaults(d, cells);
    crate::sql_engine::law_defaults(d, cells, name);
    if lookup(cells, name) is None {
        if i < n {
            assert forall|j: int| 0 <= j < i && (#[trigger] d[j]).name == d[i].name implies d[j].default_value is None by {
                assert(cs[j] == d[j]);
            }
            law_default_is_given(d, cells, i);
            if lookup(p, cs.last().name) is None && cs.last().default_value is Some {
                textmap::lemma_lookup_put(p, cs.last().name, cs.last().default_value->0);
            }
        } else {
            if lookup(p, name) is Some {
                let j = choose|j: int|
                    0 <= j < d.len() && (#[trigger] d[j]).name == name && d[j].default_value
                        == lookup(p, name);
                assert(cs[j].name == name && cs[j].default_value is Some);
            }
            textmap::lemma_lookup_put(p, name, cs[i].default_value->0);
        }
    }
}

/// A row is refused just where a column has allowed values and the row another value than
/// these that is not empty. The error names the first such column and the value.
pub proof fn law_allowed_values(cs: Seq<ColumnView>, cells: Cells)
    ensures
        match allowed_error(cs, cells) {
            Some(e) => exists|i: int|
                is_refused(cs, cells, i) && e == refused_value(
                    cs[i],
                    lookup(cells, cs[i].name)->0,
                ) && forall|j: int| 0 <= j < i ==> !#[trigger] is_refused(cs, cells, j),
            None => forall|j: int| 0 <= j < cs.len() ==> !#[trigger] is_refused(cs, cells, j),
        },
    decreases cs.len(),
{
    if cs.len() > 0 {
        let d = cs.drop_last();
        let n = cs.len() - 1;
        law_allowed_values(d, cells);
        assert forall|j: int| 0 <= j < n implies #[trigger] is_refused(cs, cells, j) == is_refused(
            d,
            cells,
            j,
        ) by {
            assert(cs[j] == d[j]);
        }
        if let Some(e) = allowed_error(d, cells) {
            let i = choose|i: int|
                is_refused(d, cells, i) && e == refused_value(d[i], lookup(cells, d[i].name)->0)
                    && forall|j: int| 0 <= j < i ==> !#[trigger] is_refused(d, cells, j);
            assert(is_refused(cs, cells, i));
        } else {
            assert(cs[n] == cs.last());
            if allowed_error(cs, cells) is Some {
                assert(is_refused(cs, cells, n));
            }
        }
    }
}

pub open spec fn is_refused(cs: Seq<ColumnView>, cells: Cells, i: int) -> bool {
    &&& 0 <= i < cs.len()
    &&& cs[i].allowed_values matches Some(l) && (lookup(cells, cs[i].name) matches Some(v)
        && v.len() > 0 && !l.contains(v))
}

/// The cells of a row: refused where there are not as many values as names; else each
/// name has its value, and a column that no name gives its default.
pub proof fn law_row_cells(
    cs: Seq<ColumnView>,
    names: Seq<Seq<char>>,
    row: Seq<Seq<char>>,
    name: Seq<char>,
)
    ensures
        names.len() != row.len() ==> row_cells_of(cs, names, row) is Err,
        row_cells_of(cs, names, row) matches Ok(cells) ==> {
            &&& text::ascending(textmap::keys(cells))
            &&& forall|j: int| !#[trigger] is_refused(cs, cells, j)
            &&& names.contains(name) ==> lookup(cells, name) == lookup(
                paired(names, row, names.len() as int),
                name,
            )
            &&& !names.contains(name) ==> match find_default(cs, name) {
                Some(v) => lookup(cells, name) == Some(v),
                None => lookup(cells, name) is None,
            }
        },
{
    if names.len() == row.len() {
        let p = paired(names, row, names.len() as int);
        lemma_paired(names, row, names.len() as int, name);
        law_given_values(names, row, name);
        let cells = with_defaults(cs, p);
        crate::sql_engine::law_defaults(cs, p, name);
        law_allowed_values(cs, cells);
        lemma_find_default(cs, name);
        if !names.contains(name) {
            if find_default(cs, name) is Some {
                let i = choose|i: int| is_default(cs, name, i);
                law_default_is_given(cs, p, i);
            }
        }
    }
}

/// Whether a column is the first of its name with a default.
pub open spec fn is_default(cs: Seq<ColumnView>, name: Seq<char>, i: int) -> bool {
    &&& 0 <= i < cs.len()
    &&& cs[i].name == name && cs[i].default_value is Some
    &&& forall|j: int|
        0 <= j < i && (#[trigger] cs[j]).name == name ==> cs[j].default_value is None
}

/// The default of the first column of a name that has one.
pub open spec fn find_default(cs: Seq<ColumnView>, name: Seq<char>) -> Option<Seq<char>> {
    if exists|i: int| is_default(cs, name, i) {
        cs[choose|i: int| is_default(cs, name, i)].default_value
    } else {
        None
    }
}

proof fn lemma_find_default(cs: Seq<ColumnView>, name: Seq<char>)
    ensures
        find_default(cs, name) is None ==> forall|i: int|
            0 <= i < cs.len() && (#[trigger] cs[i]).name == name ==> cs[i].default_value is None,
        find_default(cs, name) is Some ==> exists|i: int| is_default(cs, name, i),
    decreases cs.len(),
{
    if find_default(cs, name) is None {
        assert forall|i: int| 0 <= i < cs.len() && (#[trigger] cs[i]).name == name implies cs[i].default_value is None by {
            lemma_no_default(cs, name, i);
        }
    }
}

proof fn lemma_no_default(cs: Seq<ColumnView>, name: Seq<char>, i: int)
    requires
        forall|i: int| !is_default(cs, name, i),
        0 <= i < cs.len(),
        cs[i].name == name,
    ensures
        cs[i].default_value is None,
    decreases i,
{
    if cs[i].default_value is Some {
        assert(!is_default(cs, name, i));
        let j = choose|j: int|
            0 <= j < i && (#[trigger] cs[j]).name == name && cs[j].default_value is Some;
        lemma_no_default(cs, name, j);
    }
}

// ---------------------------------------------------------------------------
// References
// ---------------------------------------------------------------------------
/// Whether a row refers to a note by a column.
pub open spec fn refers(cs: Seq<ColumnView>, cells: Cells, i: int) -> bool {
    cs[i].references is Some && (lookup(cells, cs[i].name) matches Some(v) && v.len() > 0)
}

/// The notes that a row refers to: the value of each column that is a reference and not
/// empty, in the order of the columns, and no other.
pub proof fn law_referred_notes(cs: Seq<ColumnView>, cells: Cells)
    ensures
        picked(
            referenced(cs, cells),
            Seq::new(cs.len(), |i: int| lookup(cells, cs[i].name).unwrap_or(Seq::empty())),
            |i: int| refers(cs, cells, i),
        ),
    decreases cs.len(),
{
    let whole = Seq::new(cs.len(), |i: int| lookup(cells, cs[i].name).unwrap_or(Seq::empty()));
    let keep = |i: int| refers(cs, cells, i);
    if cs.len() == 0 {
        assert(whole =~= Seq::<Seq<char>>::empty());
        lemma_pick_none::<Seq<char>>(keep);
    } else {
        let d = cs.drop_last();
        law_referred_notes(d, cells);
        assert(whole.drop_last() =~= Seq::new(
            d.len(),
            |i: int| lookup(cells, d[i].name).unwrap_or(Seq::empty()),
        ));
        lemma_pick_more(referenced(d, cells), whole, |i: int| refers(d, cells, i), keep);
    }
}

/// A reference is missing just where one of the notes was not found; the first such is
/// named.
pub proof fn law_missing_reference(ids: Seq<Seq<char>>, found: Seq<bool>)
    requires
        ids.len() <= found.len(),
    ensures
        match first_missing(ids, found) {
            Some(x) => exists|i: int|
                0 <= i < ids.len() && ids[i] == x && !#[trigger] found[i] && forall|j: int|
                    0 <= j < i ==> #[trigger] found[j],
            None => forall|j: int| 0 <= j < ids.len() ==> #[trigger] found[j],
        },
    decreases ids.len(),
{
    if ids.len() > 0 {
        let d = ids.drop_last();
        law_missing_reference(d, found);
        if let Some(x) = first_missing(d, found) {
            let i = choose|i: int|
                0 <= i < d.len() && d[i] == x && !#[trigger] found[i] && forall|j: int|
                    0 <= j < i ==> #[trigger] found[j];
            assert(ids[i] == x && !found[i]);
        } else if first_missing(ids, found) is Some {
            assert(!found[ids.len() - 1] && ids[ids.len() - 1] == ids.last());
        }
    }
}

// ---------------------------------------------------------------------------
// Assignments
// ---------------------------------------------------------------------------
/// Whether the assignment at place `i` is the last to a name.
pub open spec fn assigns_last(l: Seq<(Vec<String>, SqlExpr)>, name: Seq<char>, i: int) -> bool {
    &&& 0 <= i < l.len()
    &&& target_name(texts(l[i].0@)) == name
    &&& forall|j: int| i < j < l.len() ==> target_name(texts((#[trigger] l[j]).0@)) != name
}

/// An update sets each name that is assigned to, to the text of the last expression
/// assigned, and nothing else; an expression without a text refuses it.
pub proof fn law_assignments(l: Seq<(Vec<String>, SqlExpr)>, name: Seq<char>)
    ensures
        match assigned(l) {
            Ok(m) => {
                &&& text::ascending(textmap::keys(m))
                &&& forall|i: int| 0 <= i < l.len() ==> literal((#[trigger] l[i]).1) is Ok
                &&& match lookup(m, name) {
                    Some(v) => exists|i: int| #[trigger]
                        assigns_last(l, name, i) && literal(l[i].1) == Ok::<Seq<char>, ErrorView>(
                            v,
                        ),
                    None => forall|i: int|
                        0 <= i < l.len() ==> target_name(texts((#[trigger] l[i]).0@)) != name,
                }
            },
            Err(e) => exists|i: int|
                0 <= i < l.len() && literal((#[trigger] l[i]).1) == Err::<Seq<char>, ErrorView>(e)
                    && forall|j: int| 0 <= j < i ==> literal((#[trigger] l[j]).1) is Ok,
        },
    decreases l.len(),
{
    if l.len() == 0 {
        assert(textmap::keys(assigned(l)->Ok_0) =~= Seq::empty());
    } else {
        let d = l.drop_last();
        let n = l.len() - 1;
        law_assignments(d, name);
        assert forall|j: int| 0 <= j < n implies #[trigger] l[j] == d[j] by {}
        match assigned(d) {
            Err(e) => {
                let i = choose|i: int|
                    0 <= i < d.len() && literal((#[trigger] d[i]).1) == Err::<Seq<char>, ErrorView>(
                        e,
                    ) && forall|j: int| 0 <= j < i ==> literal((#[trigger] d[j]).1) is Ok;
                assert(l[i] == d[i]);
            },
            Ok(m) => {
                assert(l[n] == l.last());
                if let Ok(v) = literal(l.last().1) {
                    let t = target_name(texts(l.last().0@));
                    textmap::law_put_sorted(m, t, v);
                    textmap::lemma_lookup_put(m, t, v);
                    if t == name {
                        assert(assigns_last(l, name, n));
                    } else if lookup(m, name) is Some {
                        let i = choose|i: int| #[trigger]
                            assigns_last(d, name, i) && literal(d[i].1) == Ok::<
                                Seq<char>,
                                ErrorView,
                            >(lookup(m, name)->0);
                        assert(assigns_last(l, name, i));
                    }
                }
            },
        }
    }
}

/// A name alone is assigned to in lower case.
pub proof fn law_assigned_name(names: Seq<Seq<char>>)
    requires
        names.len() == 1,
    ensures
        target_name(names) == text::lowered(names[0]),
{
    let l = crate::sql_engine::lowered_all(names);
    assert(l =~= seq![text::lowered(names[0])]);
    assert(l.drop_last() =~= Seq::empty());
    assert(target_name(names) =~= text::lowered(names[0]));
}

// ---------------------------------------------------------------------------
// Tables
// ---------------------------------------------------------------------------
/// The columns of a new table: those that are declared but for the identifier, the type
/// and the title, in their order.
pub proof fn law_declared_columns(cols: Seq<SqlColumn>)
    ensures
        picked(
            declared_columns(cols),
            Seq::new(cols.len(), |i: int| declared_column(cols[i])),
            |i: int| !is_built_in(text::lowered(cols[i].name@)),
        ),
    decreases cols.len(),
{
    let whole = Seq::new(cols.len(), |i: int| declared_column(cols[i]));
    let keep = |i: int| !is_built_in(text::lowered(cols[i].name@));
    if cols.len() == 0 {
        assert(whole =~= Seq::<ColumnView>::empty());
        lemma_pick_none::<ColumnView>(keep);
    } else {
        let d = cols.drop_last();
        law_declared_columns(d);
        assert(whole.drop_last() =~= Seq::new(d.len(), |i: int| declared_column(d[i])));
        lemma_pick_more(
            declared_columns(d),
            whole,
            |i: int| !is_built_in(text::lowered(d[i].name@)),
            keep,
        );
    }
}

/// What every note has: an identifier, a type and a title.
pub open spec fn is_built_in(name: Seq<char>) -> bool {
    seq!["id"@, "type"@, "title"@].contains(name)
}

/// A declared column refers to the table of its first foreign key, and to none where it
/// has none. It is kept in the reference section where it refers to a table.
pub proof fn law_declared_reference(c: SqlColumn)
    ensures
        declared_column(c).name == text::lowered(c.name@),
        declared_column(c).references is Some == (declared_column(c).zone == Some(Zone::Reference)),
        declared_column(c).references is Some == exists|i: int|
            0 <= i < c.options@.len() && (#[trigger] c.options@[i]) is ForeignKey,
        declared_column(c).references matches Some(t) ==> exists|i: int|
            0 <= i < c.options@.len() && (#[trigger] c.options@[i] matches SqlOption::ForeignKey(s)
                && t == identifier(s@)) && forall|j: int|
                0 <= j < i ==> (#[trigger] c.options@[j]) is Other,
        !declared_column(c).required,
        declared_column(c).search_boost is None,
        declared_column(c).allowed_values is None,
        declared_column(c).default_value is None,
{
    lemma_foreign_table(c.options@, 0);
}

proof fn lemma_foreign_table(o: Seq<SqlOption>, from: int)
    requires
        0 <= from <= o.len(),
    ensures
        match foreign_table(o, from) {
            Some(t) => exists|i: int|
                from <= i < o.len() && (#[trigger] o[i] matches SqlOption::ForeignKey(s) && t
                    == identifier(s@)) && forall|j: int|
                    from <= j < i ==> (#[trigger] o[j]) is Other,
            None => forall|i: int| from <= i < o.len() ==> !((#[trigger] o[i]) is ForeignKey),
        },
    decreases o.len() - from,
{
    if from < o.len() {
        if o[from] is Other {
            lemma_foreign_table(o, from + 1);
            if let Some(t) = foreign_table(o, from + 1) {
                let i = choose|i: int|
                    from + 1 <= i < o.len() && (#[trigger] o[i] matches SqlOption::ForeignKey(s)
                        && t == identifier(s@)) && forall|j: int|
                        from + 1 <= j < i ==> (#[trigger] o[j]) is Other;
                assert(o[i] is ForeignKey);
            }
        } else {
            assert(o[from] is ForeignKey);
        }
    }
}

/// An added column stands behind the others, which are as they were; a column of its name
/// refuses it.
pub proof fn law_column_added(cs: Seq<ColumnView>, op: AlterOperation)
    ensures
        op matches AlterOperation::AddColumn { name, data_type } ==> {
            let n = text::lowered(name@);
            &&& after_operation(cs, op) is Err == exists|i: int|
                0 <= i < cs.len() && (#[trigger] cs[i]).name == n
            &&& after_operation(cs, op) matches Ok(s) ==> {
                &&& s.rename is None
                &&& s.columns.len() == cs.len() + 1
                &&& s.columns.take(cs.len() as int) == cs
                &&& s.columns.last().name == n
                &&& s.columns.last().data_type == crate::sql::type_name_of(data_type)
                &&& s.columns.last().references is None
                &&& s.columns.last().zone is None
                &&& !s.columns.last().required
            }
        },
{
    if let AlterOperation::AddColumn { name, data_type } = op {
        law_column_found(cs, text::lowered(name@));
        if let Ok(s) = after_operation(cs, op) {
            assert(s.columns.take(cs.len() as int) =~= cs);
        }
    }
}

/// Dropping a column leaves the others, in their order; where there is none of its name
/// nothing changes, or it is refused.
pub proof fn law_column_dropped(cs: Seq<ColumnView>, op: AlterOperation)
    requires
        forall|i: int, j: int|
            0 <= i < j < cs.len() ==> (#[trigger] cs[i]).name != (#[trigger] cs[j]).name,
    ensures
        op matches AlterOperation::DropColumn { name, if_exists } ==> {
            let n = text::lowered(name@);
            match after_operation(cs, op) {
                Ok(s) => {
                    &&& s.rename is None
                    &&& picked(s.columns, cs, |i: int| cs[i].name != n)
                },
                Err(_) => !if_exists && forall|i: int|
                    0 <= i < cs.len() ==> (#[trigger] cs[i]).name != n,
            }
        },
{
    if let AlterOperation::DropColumn { name, if_exists } = op {
        let n = text::lowered(name@);
        law_column_found(cs, n);
        let keep = |i: int| cs[i].name != n;
        if let Ok(s) = after_operation(cs, op) {
            match find_column(cs, n) {
                Some(p) => {
                    let at = Seq::new(
                        (cs.len() - 1) as nat,
                        |i: int|
                            if i < p {
                                i
                            } else {
                                i + 1
                            },
                    );
                    assert forall|i: int| 0 <= i < cs.len() && #[trigger] keep(i) implies at.contains(
                        i,
                    ) by {
                        if i < p {
                            assert(at[i] == i);
                        } else {
                            assert(at[i - 1] == i);
                        }
                    }
                    assert(crate::picks::is_pick(s.columns, cs, keep, at));
                },
                None => {
                    let at = Seq::new(cs.len(), |i: int| i);
                    assert forall|i: int| 0 <= i < cs.len() && #[trigger] keep(i) implies at.contains(
                        i,
                    ) by {
                        assert(at[i] == i);
                    }
                    assert(crate::picks::is_pick(s.columns, cs, keep, at));
                },
            }
        }
    }
}

/// Renaming a column changes its name and nothing else: not its place, what it refers to
/// or where it is kept, nor another column.
pub proof fn law_column_renamed(cs: Seq<ColumnView>, op: AlterOperation)
    requires
        forall|i: int, j: int|
            0 <= i < j < cs.len() ==> (#[trigger] cs[i]).name != (#[trigger] cs[j]).name,
    ensures
        op matches AlterOperation::RenameColumn { old_name, new_name } ==> {
            let a = text::lowered(old_name@);
            let b = text::lowered(new_name@);
            match after_operation(cs, op) {
                Ok(s) => {
                    &&& s.columns.len() == cs.len()
                    &&& forall|i: int|
                        0 <= i < cs.len() ==> (#[trigger] s.columns[i]).name == (if cs[i].name == a {
                            b
                        } else {
                            cs[i].name
                        }) && s.columns[i].data_type == cs[i].data_type && s.columns[i].references
                            == cs[i].references && s.columns[i].zone == cs[i].zone
                            && s.columns[i].required == cs[i].required
                            && s.columns[i].search_boost == cs[i].search_boost
                            && s.columns[i].allowed_values == cs[i].allowed_values
                            && s.columns[i].default_value == cs[i].default_value
                    &&& forall|i: int|
                        0 <= i < cs.len() && (#[trigger] cs[i]).name == a ==> s.rename == Some(
                            (a, b, zone_of_column(cs[i])),
                        )
                    &&& exists|i: int| 0 <= i < cs.len() && (#[trigger] cs[i]).name == a
                },
                Err(_) => (exists|i: int| 0 <= i < cs.len() && (#[trigger] cs[i]).name == b) || (
                forall|i: int| 0 <= i < cs.len() ==> (#[trigger] cs[i]).name != a),
            }
        },
{
    if let AlterOperation::RenameColumn { old_name, new_name } = op {
        law_column_found(cs, text::lowered(old_name@));
        law_column_found(cs, text::lowered(new_name@));
    }
}

/// Operations are carried out one after the other, up to the first that fails or that
/// renames a column.
pub proof fn law_operations_in_turn(
    cs: Seq<ColumnView>,
    first: Seq<AlterOperation>,
    op: AlterOperation,
)
    ensures
        altered(cs, first) is Err ==> altered(cs, first.push(op)) == altered(cs, first),
        altered(cs, first) matches Ok(s) ==> s.rename is Some ==> altered(cs, first.push(op))
            == altered(cs, first),
        altered(cs, first) matches Ok(s) ==> s.rename is None ==> altered(cs, first.push(op))
            == after_operation(s.columns, op),
        altered(cs, seq![op]) == after_operation(cs, op),
        altered(cs, Seq::empty()) == Ok::<AlterState, ErrorView>(
            AlterState { columns: cs, rename: None },
        ),
{
    assert(first.push(op).drop_last() =~= first);
    assert(seq![op].drop_last() =~= Seq::empty());
    assert(altered(cs, Seq::empty()) == Ok::<AlterState, ErrorView>(
        AlterState { columns: cs, rename: None },
    ));
}

/// The note of a row lies under the notes' directory, has the row's identifier for a name,
/// and rows of different tables or identifiers have different notes.
pub proof fn law_row_paths_differ(
    table: Seq<char>,
    id: Seq<char>,
    other_table: Seq<char>,
    other_id: Seq<char>,
)
    requires
        !id.contains('/') && !other_id.contains('/'),
        id.len() > 0 && other_id.len() > 0,
        row_path_of(table, id) == row_path_of(other_table, other_id),
    ensures
        id == other_id,
        table == other_table || table == "zettels"@ || other_table == "zettels"@,
        crate::git_ops::is_note_path(row_path_of(table, id)),
        crate::git_ops::bare_id(row_path_of(table, id)) == id,
{
    reveal_strlit("zettelkasten/");
    reveal_strlit("zettelkasten");
    reveal_strlit("/");
    reveal_strlit(".md");
    lemma_row_path(table, id);
    lemma_row_path(other_table, other_id);
    if table != "zettels"@ && other_table != "zettels"@ {
        let a = row_path_of(table, id);
        let n = a.len() - id.len() - 4;
        assert(a.subrange(13, n) =~= table);
        assert(a.subrange(13, n) =~= other_table);
    }
}

proof fn lemma_row_path(table: Seq<char>, id: Seq<char>)
    requires
        !id.contains('/'),
        id.len() > 0,
    ensures
        crate::git_ops::is_note_path(row_path_of(table, id)),
        crate::git_ops::bare_id(row_path_of(table, id)) == id,
{
    reveal_strlit("zettelkasten/");
    reveal_strlit("zettelkasten");
    reveal_strlit("/");
    reveal_strlit(".md");
    let p = row_path_of(table, id);
    let z = "zettelkasten"@;
    assert(p.take("zettelkasten/"@.len() as int) =~= "zettelkasten/"@);
    assert(p.skip(p.len() - 3) =~= ".md"@);
    if table == "zettels"@ {
        crate::move_laws::law_link_id(z, id);
        assert(p =~= z + "/"@ + id + ".md"@);
    } else {
        crate::move_laws::law_link_id("zettelkasten/"@ + table, id);
        assert(p =~= "zettelkasten/"@ + table + "/"@ + id + ".md"@);
    }
}

// ---------------------------------------------------------------------------
// Reading within a transaction
// ---------------------------------------------------------------------------
/// What was written last to a path is what the last write to it holds; without a write
/// there is nothing.
pub proof fn law_last_write(ws: Seq<PendingWrite>, path: Seq<char>)
    ensures
        match last_write(ws, path) {
            Some(c) => exists|i: int|
                0 <= i < ws.len() && (#[trigger] ws[i]).path@ == path && ws[i].content@ == c
                    && forall|j: int| i < j < ws.len() ==> (#[trigger] ws[j]).path@ != path,
            None => forall|j: int| 0 <= j < ws.len() ==> (#[trigger] ws[j]).path@ != path,
        },
    decreases ws.len(),
{
    if ws.len() > 0 {
        let d = ws.drop_last();
        let n = ws.len() - 1;
        if ws.last().path@ == path {
            assert(ws[n].path@ == path);
        } else {
            law_last_write(d, path);
            assert forall|j: int| 0 <= j < n implies #[trigger] ws[j] == d[j] by {}
            if let Some(c) = last_write(d, path) {
                let i = choose|i: int|
                    0 <= i < d.len() && (#[trigger] d[i]).path@ == path && d[i].content@ == c
                        && forall|j: int| i < j < d.len() ==> (#[trigger] d[j]).path@ != path;
                assert(ws[i] == d[i]);
            }
        }
    }
}

} // verus!
