//! Merging the front matter of a note, field by field.
use crate::docs::{
    are_copies, changed_apart, changes_in, delete_entry, entry, failure, fork, goes_on, has_key,
    is_at, is_map_merge, known, map_entries, map_keys, map_value, merge, mergeable, new_doc,
    object_at, put_entry, put_object, root, second_copy, without_key, Kind,
};
use crate::error::{ErrorView, ZettelError};
use crate::front_laws::emits;
use crate::parser::needs_quotes;
use crate::text::{self, texts, trimmed};
use crate::textmap::{self, lookup, mapped, TextMap};
use crate::yaml::{
    is_read_plainly, emitted_yaml, lemma_list_view, lemma_mapping_view, list_view, mapping_view, parsed_yaml,
    read_yaml, write_yaml, yaml_view, Yaml, YamlView,
};
use automerge::{AutoCommit, ObjId};
use vstd::prelude::*;

verus! {

broadcast use vstd::string::group_string_axioms;

/// A field of the front matter: one text or a list of texts.
#[derive(Debug)]
pub enum FmValue {
    Scalar(String),
    List(Vec<String>),
}

pub enum FmView {
    Scalar(Seq<char>),
    List(Seq<Seq<char>>),
}

impl View for FmValue {
    type V = FmView;

    open spec fn view(&self) -> FmView {
        match *self {
            FmValue::Scalar(s) => FmView::Scalar(s@),
            FmValue::List(l) => FmView::List(texts(l@)),
        }
    }
}

/// A list of texts.
#[derive(Debug)]
pub struct Items {
    pub items: Vec<String>,
}

impl View for Items {
    type V = Seq<Seq<char>>;

    open spec fn view(&self) -> Seq<Seq<char>> {
        texts(self.items@)
    }
}

pub type FmEntries = Seq<(Seq<char>, FmView)>;

// ---------------------------------------------------------------------------
// Between YAML and fields
// ---------------------------------------------------------------------------
/// A node as text: a text as it is, anything else as YAML writes it.
pub open spec fn node_text(y: YamlView) -> Seq<char> {
    match y {
        YamlView::Text(s) => s,
        _ => trimmed(emitted_yaml(y)),
    }
}

pub open spec fn node_texts(l: Seq<YamlView>) -> Seq<Seq<char>> {
    Seq::new(l.len(), |i: int| node_text(l[i]))
}

pub open spec fn fm_value(y: YamlView) -> FmView {
    match y {
        YamlView::List(l) => FmView::List(node_texts(l)),
        _ => FmView::Scalar(node_text(y)),
    }
}

pub open spec fn fm_entries(m: Seq<(YamlView, YamlView)>) -> FmEntries
    decreases m.len(),
{
    if m.len() == 0 {
        Seq::empty()
    } else {
        textmap::put(fm_entries(m.drop_last()), node_text(m.last().0), fm_value(m.last().1))
    }
}

/// The fields that a YAML document holds; a document that is no mapping has none.
pub open spec fn fm_of_yaml(y: YamlView) -> FmEntries {
    match y {
        YamlView::Mapping(m) => fm_entries(m),
        _ => Seq::empty(),
    }
}

/// The fields of a front matter.
pub open spec fn fm_fields(yaml: Seq<char>) -> Result<FmEntries, ErrorView> {
    if text::is_blank(yaml) {
        Ok(Seq::empty())
    } else {
        match parsed_yaml(yaml) {
            Ok(y) => Ok(fm_of_yaml(y)),
            Err(e) => Err(ErrorView::Yaml(e)),
        }
    }
}

fn node(y: &Yaml) -> (r: String)
    ensures
        r@ == node_text(y@),
        y@ is Text || emits(y@),
{
    match y {
        Yaml::Text(s) => text::copy(s.as_str()),
        _ => {
            let e = write_yaml(y);
            text::trim(e.as_str())
        },
    }
}

/// Whether what is written for a field is plain where the field is; a list is
/// written item by item.
pub open spec fn emits_field(y: YamlView) -> bool {
    match y {
        YamlView::List(l) => forall|i: int|
            0 <= i < l.len() ==> (#[trigger] l[i]) is Text || emits(l[i]),
        _ => y is Text || emits(y),
    }
}

/// Whether the fields of a front matter are read plainly, and are written so.
pub open spec fn has_plain_fields(yaml: Seq<char>) -> bool {
    !text::is_blank(yaml) ==> {
        &&& is_read_plainly(yaml)
        &&& parsed_yaml(yaml) matches Ok(YamlView::Mapping(m)) ==> forall|i: int|
            0 <= i < m.len() ==> emits_field((#[trigger] m[i]).1)
    }
}

fn field(y: &Yaml) -> (r: FmValue)
    ensures
        r@ == fm_value(y@),
        emits_field(y@),
{
    match y {
        Yaml::List(l) => {
            let mut out: Vec<String> = Vec::new();
            let ghost all = list_view(l@);
            let mut i: usize = 0;
            proof {
                lemma_list_view(l@);
                assert(texts(out@) =~= node_texts(all).take(0));
            }
            while i < l.len()
                invariant
                    i <= l@.len() == all.len(),
                    forall|j: int| 0 <= j < all.len() ==> #[trigger] all[j] == yaml_view(l@[j]),
                    texts(out@) == node_texts(all).take(i as int),
                    forall|j: int| 0 <= j < i ==> (#[trigger] all[j]) is Text || emits(all[j]),
                decreases l@.len() - i,
            {
                let s = node(&l[i]);
                proof {
                    text::lemma_texts_push(out@, s);
                    assert(all[i as int] == yaml_view(l@[i as int]));
                    assert(node_texts(all).take(i + 1) =~= node_texts(all).take(i as int).push(s@));
                }
                out.push(s);
                i = i + 1;
            }
            proof {
                assert(node_texts(all).take(i as int) =~= node_texts(all));
            }
            FmValue::List(out)
        },
        _ => FmValue::Scalar(node(y)),
    }
}

/// Reads the fields from a YAML document.
pub fn fields_from_yaml(y: &Yaml) -> (r: TextMap<FmValue>)
    ensures
        mapped(r@) == fm_of_yaml(y@),
        r.sorted(),
        y@ matches YamlView::Mapping(m) ==> forall|i: int|
            0 <= i < m.len() ==> emits_field((#[trigger] m[i]).1),
{
    let mut out: TextMap<FmValue> = TextMap::new();
    proof {
        assert(mapped(out@) =~= Seq::<(Seq<char>, FmView)>::empty());
    }
    if let Yaml::Mapping(m) = y {
        let ghost all = mapping_view(m@);
        let mut i: usize = 0;
        proof {
            lemma_mapping_view(m@);
            assert(all.take(0) =~= Seq::<(YamlView, YamlView)>::empty());
        }
        while i < m.len()
            invariant
                i <= m@.len() == all.len(),
                forall|j: int|
                    0 <= j < all.len() ==> #[trigger] all[j] == (
                        yaml_view(m@[j].0),
                        yaml_view(m@[j].1),
                    ),
                mapped(out@) == fm_entries(all.take(i as int)),
                out.sorted(),
                forall|j: int| 0 <= j < i ==> emits_field((#[trigger] all[j]).1),
            decreases m@.len() - i,
        {
            let k = node(&m[i].0);
            let v = field(&m[i].1);
            proof {
                let t = all.take(i + 1);
                assert(t.drop_last() =~= all.take(i as int));
                assert(t.last() == all[i as int]);
                textmap::lemma_mapped_put(out@, k@, v);
            }
            out.insert(k, v);
            i = i + 1;
        }
        proof {
            assert(all.take(i as int) =~= all);
        }
    }
    out
}

/// Reads the fields of a front matter.
pub fn yaml_to_map(yaml: &str) -> (r: Result<TextMap<FmValue>, ZettelError>)
    ensures
        match r {
            Ok(m) => fm_fields(yaml@) == Ok::<FmEntries, ErrorView>(mapped(m@)) && m.sorted(),
            Err(e) => fm_fields(yaml@) == Err::<FmEntries, ErrorView>(e@),
        },
        has_plain_fields(yaml@),
{
    if text::blank(yaml) {
        let m: TextMap<FmValue> = TextMap::new();
        proof {
            assert(mapped(m@) =~= Seq::<(Seq<char>, FmView)>::empty());
        }
        return Ok(m);
    }
    let tree = read_yaml(yaml);
    proof {
        assert(is_read_plainly(yaml@));
    }
    match tree {
        Ok(y) => Ok(fields_from_yaml(&y)),
        Err(e) => Err(ZettelError::Yaml(e)),
    }
}

/// A scalar as it is written: quotes round it are dropped where it needs none.
pub open spec fn clean_scalar(s: Seq<char>) -> Seq<char> {
    if s.len() >= 2 && s[0] == '"' && s.last() == '"' && !needs_quotes(s.subrange(1, s.len() - 1)) {
        s.subrange(1, s.len() - 1)
    } else {
        s
    }
}

pub open spec fn item_lines(l: Seq<Seq<char>>) -> Seq<char>
    decreases l.len(),
{
    if l.len() == 0 {
        Seq::empty()
    } else if needs_quotes(l.last()) {
        item_lines(l.drop_last()) + "  - \""@ + l.last() + "\"\n"@
    } else {
        item_lines(l.drop_last()) + "  - "@ + l.last() + "\n"@
    }
}

pub open spec fn fm_line(k: Seq<char>, v: FmView) -> Seq<char> {
    match v {
        FmView::Scalar(s) => k + ": "@ + clean_scalar(s) + "\n"@,
        FmView::List(l) => k + ":\n"@ + item_lines(l),
    }
}

/// The fields as front matter.
pub open spec fn fm_text(m: FmEntries) -> Seq<char>
    decreases m.len(),
{
    if m.len() == 0 {
        Seq::empty()
    } else {
        fm_text(m.drop_last()) + fm_line(m.last().0, m.last().1)
    }
}

/// Whether a scalar holds a special character.
pub fn yaml_needs_quotes(s: &str) -> (r: bool)
    ensures
        r == needs_quotes(s@),
{
    text::contains_char(s, ':') || text::contains_char(s, '[') || text::contains_char(s, ']')
        || text::contains_char(s, '{') || text::contains_char(s, '}') || text::contains_char(
        s,
        '#',
    )
}

fn clean(s: &str) -> (r: String)
    ensures
        r@ == clean_scalar(s@),
{
    let cs = text::chars(s);
    let n: usize = cs.len();
    if n >= 2 && cs[0] == '"' && cs[n - 1] == '"' {
        let inner = text::slice(&cs, 1, n - 1);
        if !yaml_needs_quotes(inner.as_str()) {
            return inner;
        }
    }
    text::copy(s)
}

fn write_items(out: &mut String, l: &Vec<String>)
    ensures
        final(out)@ == old(out)@ + item_lines(texts(l@)),
{
    let ghost before = out@;
    let ghost all = texts(l@);
    let mut i: usize = 0;
    proof {
        assert(all.take(0) =~= Seq::<Seq<char>>::empty());
        assert(out@ =~= before + Seq::<char>::empty());
    }
    while i < l.len()
        invariant
            i <= l@.len(),
            all == texts(l@),
            out@ == before + item_lines(all.take(i as int)),
        decreases l@.len() - i,
    {
        if yaml_needs_quotes(l[i].as_str()) {
            out.append("  - \"");
            out.append(l[i].as_str());
            out.append("\"\n");
        } else {
            out.append("  - ");
            out.append(l[i].as_str());
            out.append("\n");
        }
        proof {
            let t = all.take(i + 1);
            assert(t.drop_last() =~= all.take(i as int));
            assert(t.last() == l@[i as int]@);
            assert(out@ =~= before + item_lines(t));
        }
        i = i + 1;
    }
    proof {
        assert(all.take(i as int) =~= all);
    }
}

/// Writes fields as front matter.
pub fn map_to_yaml(m: &TextMap<FmValue>) -> (r: String)
    ensures
        r@ == fm_text(mapped(m@)),
{
    let ghost all = mapped(m@);
    let mut out = String::new();
    let mut i: usize = 0;
    proof {
        assert(all.take(0) =~= Seq::<(Seq<char>, FmView)>::empty());
        assert(out@ =~= Seq::<char>::empty());
    }
    while i < m.entries.len()
        invariant
            i <= m.entries@.len() == all.len(),
            all == mapped(m@),
            out@ == fm_text(all.take(i as int)),
        decreases m.entries@.len() - i,
    {
        let ghost before = out@;
        out.append(m.entries[i].0.as_str());
        match &m.entries[i].1 {
            FmValue::Scalar(s) => {
                let c = clean(s.as_str());
                out.append(": ");
                out.append(c.as_str());
                out.append("\n");
            },
            FmValue::List(l) => {
                out.append(":\n");
                write_items(&mut out, l);
            },
        }
        proof {
            let t = all.take(i + 1);
            assert(t.drop_last() =~= all.take(i as int));
            assert(t.last() == (m.entries@[i as int].0@, m.entries@[i as int].1@));
            assert(out@ =~= before + fm_line(t.last().0, t.last().1));
        }
        i = i + 1;
    }
    proof {
        assert(all.take(i as int) =~= all);
    }
    out
}

// ---------------------------------------------------------------------------
// Scalars and lists apart
// ---------------------------------------------------------------------------
pub open spec fn scalars_of(m: FmEntries) -> Seq<(Seq<char>, Seq<char>)>
    decreases m.len(),
{
    if m.len() == 0 {
        Seq::empty()
    } else {
        match m.last().1 {
            FmView::Scalar(s) => scalars_of(m.drop_last()).push((m.last().0, s)),
            FmView::List(_) => scalars_of(m.drop_last()),
        }
    }
}

pub open spec fn lists_of(m: FmEntries) -> Seq<(Seq<char>, Seq<Seq<char>>)>
    decreases m.len(),
{
    if m.len() == 0 {
        Seq::empty()
    } else {
        match m.last().1 {
            FmView::Scalar(_) => lists_of(m.drop_last()),
            FmView::List(l) => lists_of(m.drop_last()).push((m.last().0, l)),
        }
    }
}

/// Taking the scalars or the lists out keeps the order of the keys.
pub(crate) proof fn lemma_partition_sorted(m: FmEntries)
    requires
        text::ascending(textmap::keys(m)),
    ensures
        text::ascending(textmap::keys(scalars_of(m))),
        text::ascending(textmap::keys(lists_of(m))),
        forall|i: int|
            0 <= i < scalars_of(m).len() ==> textmap::keys(m).contains(
                (#[trigger] scalars_of(m)[i]).0,
            ),
        forall|i: int|
            0 <= i < lists_of(m).len() ==> textmap::keys(m).contains((#[trigger] lists_of(m)[i]).0),
    decreases m.len(),
{
    if m.len() > 0 {
        let d = m.drop_last();
        let km = textmap::keys(m);
        let kd = textmap::keys(d);
        assert(kd =~= km.drop_last());
        assert forall|i: int, j: int| 0 <= i < j < kd.len() implies text::lt(
            #[trigger] kd[i],
            #[trigger] kd[j],
        ) by {
            assert(kd[i] == km[i] && kd[j] == km[j]);
        }
        lemma_partition_sorted(d);
        let last = m.last().0;
        assert(km[km.len() - 1] == last);
        assert forall|k: Seq<char>| #[trigger] kd.contains(k) implies text::lt(k, last)
            && km.contains(k) by {
            let i = kd.index_of(k);
            assert(km[i] == k);
            assert(text::lt(km[i], km[km.len() - 1]));
        }
        let s = scalars_of(m);
        let sd = scalars_of(d);
        assert forall|i: int| 0 <= i < s.len() implies km.contains((#[trigger] s[i]).0) by {
            if i < sd.len() {
                assert(s[i] == sd[i]);
                assert(kd.contains(sd[i].0));
            }
        }
        let ks = textmap::keys(s);
        let ksd = textmap::keys(sd);
        assert forall|i: int, j: int| 0 <= i < j < ks.len() implies text::lt(
            #[trigger] ks[i],
            #[trigger] ks[j],
        ) by {
            assert(s[i] == sd[i]);
            assert(kd.contains(sd[i].0));
            if j < sd.len() {
                assert(s[j] == sd[j]);
                assert(text::lt(ksd[i], ksd[j]));
            }
        }
        let l = lists_of(m);
        let ld = lists_of(d);
        assert forall|i: int| 0 <= i < l.len() implies km.contains((#[trigger] l[i]).0) by {
            if i < ld.len() {
                assert(l[i] == ld[i]);
                assert(kd.contains(ld[i].0));
            }
        }
        let kl = textmap::keys(l);
        let kld = textmap::keys(ld);
        assert forall|i: int, j: int| 0 <= i < j < kl.len() implies text::lt(
            #[trigger] kl[i],
            #[trigger] kl[j],
        ) by {
            assert(l[i] == ld[i]);
            assert(kd.contains(ld[i].0));
            if j < ld.len() {
                assert(l[j] == ld[j]);
                assert(text::lt(kld[i], kld[j]));
            }
        }
    }
}

/// Parts the fields of a front matter into scalars and lists.
pub fn partition_fm(m: &TextMap<FmValue>) -> (r: (TextMap<String>, TextMap<Items>))
    ensures
        mapped(r.0@) == scalars_of(mapped(m@)),
        mapped(r.1@) == lists_of(mapped(m@)),
        m.sorted() ==> r.0.sorted() && r.1.sorted(),
{
    let ghost all = mapped(m@);
    let mut scalars: TextMap<String> = TextMap::new();
    let mut lists: TextMap<Items> = TextMap::new();
    let mut i: usize = 0;
    proof {
        assert(all.take(0) =~= Seq::<(Seq<char>, FmView)>::empty());
        assert(mapped(scalars@) =~= Seq::<(Seq<char>, Seq<char>)>::empty());
        assert(mapped(lists@) =~= Seq::<(Seq<char>, Seq<Seq<char>>)>::empty());
    }
    while i < m.entries.len()
        invariant
            i <= m.entries@.len() == all.len(),
            all == mapped(m@),
            mapped(scalars@) == scalars_of(all.take(i as int)),
            mapped(lists@) == lists_of(all.take(i as int)),
        decreases m.entries@.len() - i,
    {
        let k = text::copy(m.entries[i].0.as_str());
        proof {
            let t = all.take(i + 1);
            assert(t.drop_last() =~= all.take(i as int));
            assert(t.last() == (m.entries@[i as int].0@, m.entries@[i as int].1@));
        }
        match &m.entries[i].1 {
            FmValue::Scalar(s) => {
                let v = text::copy(s.as_str());
                let ghost before = scalars@;
                scalars.entries.push((k, v));
                proof {
                    assert(scalars@ =~= before.push((k@, v)));
                    assert(mapped(scalars@) =~= mapped(before).push((k@, v@)));
                }
            },
            FmValue::List(l) => {
                let v = Items { items: text::copy_all(l) };
                let ghost before = lists@;
                lists.entries.push((k, v));
                proof {
                    assert(lists@ =~= before.push((k@, v)));
                    assert(mapped(lists@) =~= mapped(before).push((k@, v@)));
                }
            },
        }
        i = i + 1;
    }
    proof {
        assert(all.take(i as int) =~= all);
        textmap::lemma_mapped(m@, Seq::<char>::empty());
        textmap::lemma_mapped(scalars@, Seq::<char>::empty());
        textmap::lemma_mapped(lists@, Seq::<char>::empty());
        if m.sorted() {
            lemma_partition_sorted(all);
        }
    }
    (scalars, lists)
}

// ---------------------------------------------------------------------------
// Lists: a three-way merge of sets
// ---------------------------------------------------------------------------
/// Whether an item is in the merge: it was there and both kept it, or it is new
/// on one side.
pub open spec fn item_kept(
    a: Seq<Seq<char>>,
    o: Seq<Seq<char>>,
    t: Seq<Seq<char>>,
    x: Seq<char>,
) -> bool {
    crate::merge::line_kept(a, o, t, x)
}

/// Our items that stay, in our order.
pub open spec fn kept_ours(
    a: Seq<Seq<char>>,
    o: Seq<Seq<char>>,
    t: Seq<Seq<char>>,
    n: int,
) -> Seq<Seq<char>>
    decreases n,
{
    if n <= 0 {
        Seq::empty()
    } else if item_kept(a, o, t, o[n - 1]) {
        kept_ours(a, o, t, n - 1).push(o[n - 1])
    } else {
        kept_ours(a, o, t, n - 1)
    }
}

/// The same with their items that stay and that are not there yet, in their
/// order.
pub open spec fn with_theirs(
    a: Seq<Seq<char>>,
    o: Seq<Seq<char>>,
    t: Seq<Seq<char>>,
    n: int,
) -> Seq<Seq<char>>
    decreases n,
{
    if n <= 0 {
        kept_ours(a, o, t, o.len() as int)
    } else {
        let p = with_theirs(a, o, t, n - 1);
        if item_kept(a, o, t, t[n - 1]) && !p.contains(t[n - 1]) {
            p.push(t[n - 1])
        } else {
            p
        }
    }
}

pub open spec fn or_empty(l: Option<Seq<Seq<char>>>) -> Seq<Seq<char>> {
    match l {
        Some(s) => s,
        None => Seq::empty(),
    }
}

/// The merge of a list field. One side that removed the field removes it.
pub open spec fn list_merge(
    a: Option<Seq<Seq<char>>>,
    o: Option<Seq<Seq<char>>>,
    t: Option<Seq<Seq<char>>>,
) -> Option<Seq<Seq<char>>> {
    if a is None && o is None && t is None {
        None
    } else if a is Some && (o is None || t is None) {
        None
    } else {
        let ol = or_empty(o);
        let tl = or_empty(t);
        Some(with_theirs(or_empty(a), ol, tl, tl.len() as int))
    }
}

fn list_field(m: &TextMap<Items>, key: &str) -> (r: Option<Vec<String>>)
    ensures
        match r {
            Some(l) => lookup(mapped(m@), key@) == Some(texts(l@)),
            None => lookup(mapped(m@), key@) is None,
        },
{
    proof {
        textmap::lemma_mapped(m@, key@);
    }
    match m.get(key) {
        Some(l) => Some(text::copy_all(&l.items)),
        None => None,
    }
}

fn kept(a: &Vec<String>, o: &Vec<String>, t: &Vec<String>, x: &str) -> (r: bool)
    ensures
        r == item_kept(texts(a@), texts(o@), texts(t@), x@),
{
    if text::contains_text(a, x) {
        text::contains_text(o, x) && text::contains_text(t, x)
    } else {
        text::contains_text(o, x) || text::contains_text(t, x)
    }
}

fn merge_items(a: &Vec<String>, o: &Vec<String>, t: &Vec<String>) -> (r: Vec<String>)
    ensures
        texts(r@) == with_theirs(texts(a@), texts(o@), texts(t@), t@.len() as int),
{
    let ghost av = texts(a@);
    let ghost ov = texts(o@);
    let ghost tv = texts(t@);
    let mut out: Vec<String> = Vec::new();
    let mut i: usize = 0;
    proof {
        assert(texts(out@) =~= Seq::<Seq<char>>::empty());
    }
    while i < o.len()
        invariant
            i <= o@.len(),
            texts(out@) == kept_ours(av, ov, tv, i as int),
        decreases o@.len() - i,
    {
        proof {
            assert(ov[i as int] == o@[i as int]@);
        }
        if kept(a, o, t, o[i].as_str()) {
            let s = text::copy(o[i].as_str());
            proof {
                text::lemma_texts_push(out@, s);
            }
            out.push(s);
        }
        i = i + 1;
    }
    let mut j: usize = 0;
    while j < t.len()
        invariant
            j <= t@.len(),
            texts(out@) == with_theirs(av, ov, tv, j as int),
        decreases t@.len() - j,
    {
        proof {
            assert(tv[j as int] == t@[j as int]@);
        }
        if kept(a, o, t, t[j].as_str()) && !text::contains_text(&out, t[j].as_str()) {
            let s = text::copy(t[j].as_str());
            proof {
                text::lemma_texts_push(out@, s);
            }
            out.push(s);
        }
        j = j + 1;
    }
    out
}

fn merge_list(a: &Option<Vec<String>>, o: &Option<Vec<String>>, t: &Option<Vec<String>>) -> (r:
    Option<Vec<String>>)
    ensures
        crate::types::opt_texts(r) == list_merge(
            crate::types::opt_texts(*a),
            crate::types::opt_texts(*o),
            crate::types::opt_texts(*t),
        ),
{
    if a.is_none() && o.is_none() && t.is_none() {
        return None;
    }
    if a.is_some() && (o.is_none() || t.is_none()) {
        return None;
    }
    let none: Vec<String> = Vec::new();
    proof {
        assert(texts(none@) =~= Seq::<Seq<char>>::empty());
    }
    let av = match a {
        Some(v) => v,
        None => &none,
    };
    let ov = match o {
        Some(v) => v,
        None => &none,
    };
    let tv = match t {
        Some(v) => v,
        None => &none,
    };
    Some(merge_items(av, ov, tv))
}

fn add_keys(out: &mut Vec<String>, m: &TextMap<Items>)
    ensures
        forall|k: Seq<char>| #[trigger]
            texts(final(out)@).contains(k) == (texts(old(out)@).contains(k) || textmap::keys(
                m@,
            ).contains(k)),
{
    let ghost before = texts(out@);
    let ghost ks = textmap::keys(m@);
    let mut i: usize = 0;
    proof {
        assert(before + ks.take(0) =~= before);
    }
    while i < m.entries.len()
        invariant
            i <= m.entries@.len() == ks.len(),
            ks == textmap::keys(m@),
            texts(out@) == before + ks.take(i as int),
        decreases m.entries@.len() - i,
    {
        let s = text::copy(m.entries[i].0.as_str());
        proof {
            text::lemma_texts_push(out@, s);
            assert(ks[i as int] == s@);
            assert(before + ks.take(i + 1) =~= (before + ks.take(i as int)).push(s@));
        }
        out.push(s);
        i = i + 1;
    }
    proof {
        assert(ks.take(i as int) =~= ks);
        assert forall|k: Seq<char>| #[trigger]
            texts(out@).contains(k) == (before.contains(k) || ks.contains(k)) by {
            let w = before + ks;
            if before.contains(k) {
                assert(w[before.index_of(k)] == k);
            }
            if ks.contains(k) {
                assert(w[before.len() + ks.index_of(k)] == k);
            }
            if w.contains(k) {
                let x = w.index_of(k);
                if x < before.len() {
                    assert(before[x] == k);
                } else {
                    assert(ks[x - before.len()] == k);
                }
            }
        }
    }
}

/// Merges the list fields of three front matters.
pub fn merge_list_fields(
    ancestor: &TextMap<Items>,
    ours: &TextMap<Items>,
    theirs: &TextMap<Items>,
) -> (r: TextMap<FmValue>)
    requires
        ancestor.sorted(),
        ours.sorted(),
        theirs.sorted(),
    ensures
        r.sorted(),
        forall|k: Seq<char>| #[trigger]
            lookup(mapped(r@), k) == match list_merge(
                lookup(mapped(ancestor@), k),
                lookup(mapped(ours@), k),
                lookup(mapped(theirs@), k),
            ) {
                Some(l) => Some(FmView::List(l)),
                None => None,
            },
{
    let mut all: Vec<String> = Vec::new();
    add_keys(&mut all, ancestor);
    add_keys(&mut all, ours);
    add_keys(&mut all, theirs);
    let ghost ks = texts(all@);
    let ghost av = mapped(ancestor@);
    let ghost ov = mapped(ours@);
    let ghost tv = mapped(theirs@);
    let mut out: TextMap<FmValue> = TextMap::new();
    let mut i: usize = 0;
    proof {
        assert(mapped(out@) =~= Seq::<(Seq<char>, FmView)>::empty());
    }
    while i < all.len()
        invariant
            i <= all@.len(),
            ks == texts(all@),
            av == mapped(ancestor@),
            ov == mapped(ours@),
            tv == mapped(theirs@),
            out.sorted(),
            forall|k: Seq<char>| #[trigger]
                lookup(mapped(out@), k) == if ks.take(i as int).contains(k) {
                    match list_merge(lookup(av, k), lookup(ov, k), lookup(tv, k)) {
                        Some(l) => Some(FmView::List(l)),
                        None => None,
                    }
                } else {
                    None
                },
        decreases all@.len() - i,
    {
        let key = all[i].as_str();
        let a = list_field(ancestor, key);
        let o = list_field(ours, key);
        let t = list_field(theirs, key);
        let ghost p = ks.take(i as int);
        let ghost q = ks.take(i + 1);
        proof {
            assert(ks[i as int] == key@);
            assert(q =~= p.push(key@));
            assert forall|k: Seq<char>| #[trigger] q.contains(k) == (p.contains(k) || k == key@) by {
                if p.contains(k) {
                    assert(q[p.index_of(k)] == k);
                }
                assert(q[i as int] == key@);
                if q.contains(k) && k != key@ {
                    assert(p[q.index_of(k)] == k);
                }
            }
        }
        match merge_list(&a, &o, &t) {
            Some(l) => {
                let v = FmValue::List(l);
                proof {
                    textmap::lemma_mapped_put(out@, key@, v);
                    textmap::lemma_mapped(out@, key@);
                    textmap::lemma_lookup_put(mapped(out@), key@, v@);
                }
                out.insert(text::copy(key), v);
            },
            None => {},
        }
        i = i + 1;
    }
    proof {
        assert(ks.take(i as int) =~= ks);
        assert forall|k: Seq<char>| #[trigger]
            lookup(mapped(out@), k) == match list_merge(
                lookup(av, k),
                lookup(ov, k),
                lookup(tv, k),
            ) {
                Some(l) => Some(FmView::List(l)),
                None => None,
            } by {
            if !ks.contains(k) {
                textmap::lemma_lookup_none(ancestor@, k);
                textmap::lemma_lookup_none(ours@, k);
                textmap::lemma_lookup_none(theirs@, k);
                textmap::lemma_mapped(ancestor@, k);
                textmap::lemma_mapped(ours@, k);
                textmap::lemma_mapped(theirs@, k);
            }
        }
    }
    out
}

// ---------------------------------------------------------------------------
// Scalars: one entry for each key of a map that merges
// ---------------------------------------------------------------------------
pub type Entries = Set<(int, Seq<char>, Seq<char>)>;

pub type Scalars = Seq<(Seq<char>, Seq<char>)>;

/// Whether a map's entries say what the scalars say.
pub open spec fn shows(m: Entries, e: Scalars) -> bool {
    &&& forall|n: int, k: Seq<char>, v: Seq<char>| #[trigger]
        m.contains(entry(n, k, v)) ==> lookup(e, k) == Some(v)
    &&& forall|k: Seq<char>| #[trigger] lookup(e, k) is Some ==> has_value(m, k, lookup(e, k)->0)
}

pub open spec fn has_value(m: Entries, k: Seq<char>, v: Seq<char>) -> bool {
    exists|n: int| m.contains(#[trigger] entry(n, k, v))
}

/// Whether two maps have the same entries under a key.
pub open spec fn same_at(b: Entries, s: Entries, k: Seq<char>) -> bool {
    forall|n: int, v: Seq<char>| #[trigger]
        s.contains(entry(n, k, v)) == b.contains(entry(n, k, v))
}

/// Whether a key was brought from one value to another: not touched where they
/// are the same, else with new entries of the new value alone.
pub open spec fn key_edited(
    b: Entries,
    known0: Set<int>,
    s: Entries,
    k: Seq<char>,
    a: Option<Seq<char>>,
    c: Option<Seq<char>>,
) -> bool {
    if c == a {
        same_at(b, s, k)
    } else {
        &&& forall|n: int, v: Seq<char>| #[trigger]
            s.contains(entry(n, k, v)) ==> c == Some(v) && !known0.contains(n)
        &&& c is Some ==> has_value(s, k, c->0)
    }
}

pub open spec fn has_id(s: Entries, n: int) -> bool {
    exists|k: Seq<char>, v: Seq<char>| s.contains(#[trigger] entry(n, k, v))
}

/// Whether a map was brought from the scalars `anc` to the scalars `cur`.
pub open spec fn is_map_edit(
    b: Entries,
    known0: Set<int>,
    anc: Scalars,
    cur: Scalars,
    s: Entries,
    ks: Set<int>,
) -> bool {
    &&& forall|k: Seq<char>| #[trigger]
        key_edited(b, known0, s, k, lookup(anc, k), lookup(cur, k))
    &&& forall|x: int| #[trigger] known0.contains(x) ==> ks.contains(x)
    &&& forall|x: int| #[trigger] ks.contains(x) && !known0.contains(x) ==> has_id(s, x)
}

/// Whether all that a map has is known.
pub open spec fn all_known(b: Entries, known0: Set<int>) -> bool {
    forall|n: int, k: Seq<char>, v: Seq<char>| #[trigger]
        b.contains(entry(n, k, v)) ==> known0.contains(n)
}

/// What a merged scalar may be: the value of the side that changed it. Where
/// both did, a value goes before a removal, and of two values either may win.
pub open spec fn scalar_merged(
    a: Option<Seq<char>>,
    o: Option<Seq<char>>,
    t: Option<Seq<char>>,
    r: Option<Seq<char>>,
) -> bool {
    if o == a {
        r == t
    } else if t == a {
        r == o
    } else if o is None {
        r == t
    } else if t is None {
        r == o
    } else {
        r == o || r == t
    }
}

proof fn lemma_map_merge(
    b: Entries,
    known0: Set<int>,
    anc: Scalars,
    ours: Scalars,
    s: Entries,
    ks: Set<int>,
    theirs: Scalars,
    o: Entries,
    ko: Set<int>,
    m: Entries,
    k: Seq<char>,
)
    requires
        shows(b, anc),
        all_known(b, known0),
        is_map_edit(b, known0, anc, ours, s, ks),
        is_map_edit(b, known0, anc, theirs, o, ko),
        is_map_merge(s, ks, o, ko, m),
    ensures
        forall|n: int, v: Seq<char>| #[trigger]
            m.contains(entry(n, k, v)) ==> scalar_merged(
                lookup(anc, k),
                lookup(ours, k),
                lookup(theirs, k),
                Some(v),
            ),
        has_key(m, k) || scalar_merged(lookup(anc, k), lookup(ours, k), lookup(theirs, k), None),
{
    let av = lookup(anc, k);
    let ov = lookup(ours, k);
    let tv = lookup(theirs, k);
    assert(key_edited(b, known0, s, k, av, ov));
    assert(key_edited(b, known0, o, k, av, tv));
    assert forall|n: int, v: Seq<char>| #[trigger] m.contains(entry(n, k, v)) implies scalar_merged(
        av,
        ov,
        tv,
        Some(v),
    ) by {
        let e = entry(n, k, v);
        assert(s.contains(e) || o.contains(e));
        if b.contains(e) {
            assert(known0.contains(n));
            assert(ks.contains(n) && ko.contains(n));
        }
        if s.contains(e) && ov == av {
            assert(b.contains(e));
        }
        if o.contains(e) && tv == av {
            assert(b.contains(e));
        }
    }
    if !has_key(m, k) && !scalar_merged(av, ov, tv, None) {
        if av is Some {
            assert(has_value(b, k, av->0));
        }
        if ov is Some && ov != av {
            assert(has_value(s, k, ov->0));
            let n = choose|n: int| s.contains(#[trigger] entry(n, k, ov->0));
            lemma_new_entry(s, ks, o, ko, known0, entry(n, k, ov->0));
            assert(m.contains(entry(n, k, ov->0)));
        }
        if tv is Some && tv != av {
            assert(has_value(o, k, tv->0));
            let n = choose|n: int| o.contains(#[trigger] entry(n, k, tv->0));
            lemma_new_entry(o, ko, s, ks, known0, entry(n, k, tv->0));
            assert(m.contains(entry(n, k, tv->0)));
        }
        if ov == av && tv == av {
            let n = choose|n: int| b.contains(#[trigger] entry(n, k, av->0));
            assert(s.contains(entry(n, k, av->0)) && o.contains(entry(n, k, av->0)));
            assert(m.contains(entry(n, k, av->0)));
        }
    }
}

/// A new entry of one side is unknown to the other, or the other has it.
proof fn lemma_new_entry(
    s: Entries,
    ks: Set<int>,
    o: Entries,
    ko: Set<int>,
    known0: Set<int>,
    e: (int, Seq<char>, Seq<char>),
)
    requires
        s.contains(e),
        !known0.contains(e.0),
        forall|x: int| #[trigger] ko.contains(x) && !known0.contains(x) ==> has_id(o, x),
        forall|f: (int, Seq<char>, Seq<char>), g: (int, Seq<char>, Seq<char>)|
            #![trigger s.contains(f), o.contains(g)]
            s.contains(f) && o.contains(g) && f.0 == g.0 ==> f == g,
    ensures
        o.contains(e) || !ko.contains(e.0),
{
    if ko.contains(e.0) {
        assert(has_id(o, e.0));
        let (k, v) = choose|k: Seq<char>, v: Seq<char>| o.contains(#[trigger] entry(e.0, k, v));
        assert(entry(e.0, k, v) == e);
    }
}

fn scalar_at(m: &TextMap<String>, key: &str) -> (r: Option<String>)
    ensures
        text::opt_text(r) == lookup(mapped(m@), key@),
{
    proof {
        textmap::lemma_mapped(m@, key@);
    }
    match m.get(key) {
        Some(s) => Some(text::copy(s.as_str())),
        None => None,
    }
}

fn holds(o: &Option<String>, v: &str) -> (r: bool)
    ensures
        r == (text::opt_text(*o) == Some(v@)),
{
    match o {
        Some(s) => text::same(s.as_str(), v),
        None => false,
    }
}

/// Brings a document's map from one set of scalars to another: what changed is
/// put, what is gone is deleted.
fn apply_scalar_diff(
    doc: &mut AutoCommit,
    id: &ObjId,
    ancestor: &TextMap<String>,
    current: &TextMap<String>,
) -> (r: Result<(), ZettelError>)
    requires
        is_at(*id, *old(doc), Kind::Entries),
        shows(map_entries(*old(doc)), mapped(ancestor@)),
        all_known(map_entries(*old(doc)), known(*old(doc))),
        ancestor.sorted(),
        current.sorted(),
    ensures
        r is Ok && goes_on(*old(doc), *final(doc)) && is_map_edit(
            map_entries(*old(doc)),
            known(*old(doc)),
            mapped(ancestor@),
            mapped(current@),
            map_entries(*final(doc)),
            known(*final(doc)),
        ),
{
    let ghost b = map_entries(*doc);
    let ghost k0 = known(*doc);
    let ghost anc = mapped(ancestor@);
    let ghost cur = mapped(current@);
    let ghost ck = textmap::keys(cur);
    let ghost ak = textmap::keys(anc);
    proof {
        textmap::lemma_mapped(ancestor@, Seq::<char>::empty());
        textmap::lemma_mapped(current@, Seq::<char>::empty());
    }
    let mut i: usize = 0;
    while i < current.entries.len()
        invariant
            i <= current.entries@.len() == cur.len(),
            cur == mapped(current@),
            anc == mapped(ancestor@),
            ck == textmap::keys(cur),
            text::ascending(ck),
            ancestor.sorted(),
            shows(b, anc),
            all_known(b, k0),
            is_at(*id, *doc, Kind::Entries),
            goes_on(*old(doc), *doc),
            forall|k: Seq<char>| #[trigger]
                same_at(b, map_entries(*doc), k) || ck.take(i as int).contains(k),
            forall|k: Seq<char>| #[trigger]
                ck.take(i as int).contains(k) ==> key_edited(
                    b,
                    k0,
                    map_entries(*doc),
                    k,
                    lookup(anc, k),
                    lookup(cur, k),
                ),
            forall|x: int| #[trigger] k0.contains(x) ==> known(*doc).contains(x),
            forall|x: int| #[trigger]
                known(*doc).contains(x) && !k0.contains(x) ==> has_id_in(map_entries(*doc), x, ck),
        decreases current.entries@.len() - i,
    {
        let key = current.entries[i].0.as_str();
        let value = current.entries[i].1.as_str();
        let ghost before = map_entries(*doc);
        let ghost kb = known(*doc);
        let ghost p = ck.take(i as int);
        let ghost q = ck.take(i + 1);
        proof {
            assert(ck[i as int] == key@);
            assert(cur[i as int] == (key@, value@));
            textmap::lemma_lookup_at(cur, i as int);
            lemma_take_keys(ck, i as int);
        }
        let was = scalar_at(ancestor, key);
        if !holds(&was, value) {
            proof {
                assert(!p.contains(key@));
                assert(same_at(b, before, key@));
                assert forall|n: int| !before.contains((n, key@, value@)) by {
                    assert(before.contains(entry(n, key@, value@)) == b.contains(
                        entry(n, key@, value@),
                    ));
                }
            }
            match put_entry(doc, id, key, value) {
                Ok(_) => {},
                Err(e) => {
                    return Err(failure(e));
                },
            }
            proof {
                let now = map_entries(*doc);
                let n = choose|n: int|
                    {
                        &&& !kb.contains(n)
                        &&& known(*doc) == kb.insert(n)
                        &&& now == without_key(before, key@).insert(
                            #[trigger] entry(n, key@, value@),
                        )
                    };
                assert(now.contains(entry(n, key@, value@)));
                assert(!k0.contains(n));
                assert(has_value(now, key@, value@));
                assert forall|x: int, k: Seq<char>, v: Seq<char>| #[trigger]
                    now.contains(entry(x, k, v)) == (if k == key@ {
                        x == n && v == value@
                    } else {
                        before.contains(entry(x, k, v))
                    }) by {
                }
                assert forall|k: Seq<char>| #[trigger] same_at(b, now, k) || q.contains(k) by {
                    if k != key@ && !p.contains(k) {
                        assert(same_at(b, before, k));
                    }
                }
                assert forall|k: Seq<char>| #[trigger] q.contains(k) implies key_edited(
                    b,
                    k0,
                    now,
                    k,
                    lookup(anc, k),
                    lookup(cur, k),
                ) by {
                    if k != key@ {
                        assert(p.contains(k));
                        lemma_key_edited_same(b, k0, before, now, k, lookup(anc, k), lookup(cur, k));
                    }
                }
                assert forall|x: int| #[trigger]
                    known(*doc).contains(x) && !k0.contains(x) implies has_id_in(now, x, ck) by {
                    if x == n {
                        assert(ck.contains(key@));
                        assert(now.contains(entry(n, key@, value@)));
                    } else {
                        assert(kb.contains(x));
                        let (k, v) = choose|k: Seq<char>, v: Seq<char>|
                            before.contains(#[trigger] entry(x, k, v)) && ck.contains(k);
                        if k == key@ {
                            assert(b.contains(entry(x, k, v)));
                        }
                        assert(now.contains(entry(x, k, v)));
                    }
                }
            }
        } else {
            proof {
                assert forall|k: Seq<char>| #[trigger] q.contains(k) implies key_edited(
                    b,
                    k0,
                    before,
                    k,
                    lookup(anc, k),
                    lookup(cur, k),
                ) by {
                    if k == key@ {
                        assert(!p.contains(key@));
                        assert(same_at(b, before, key@));
                    } else {
                        assert(p.contains(k));
                    }
                }
                assert forall|k: Seq<char>| #[trigger] same_at(b, before, k) || q.contains(k) by {
                    if p.contains(k) {
                        assert(q.contains(k));
                    }
                }
            }
        }
        i = i + 1;
    }
    proof {
        assert(ck.take(i as int) =~= ck);
    }
    let mut j: usize = 0;
    proof {
        assert(ak.take(0) =~= Seq::<Seq<char>>::empty());
    }
    while j < ancestor.entries.len()
        invariant
            j <= ancestor.entries@.len() == anc.len(),
            cur == mapped(current@),
            anc == mapped(ancestor@),
            ck == textmap::keys(cur),
            ak == textmap::keys(anc),
            text::ascending(ck),
            text::ascending(ak),
            current.sorted(),
            is_at(*id, *doc, Kind::Entries),
            goes_on(*old(doc), *doc),
            forall|k: Seq<char>| #[trigger]
                ck.contains(k) ==> key_edited(
                    b,
                    k0,
                    map_entries(*doc),
                    k,
                    lookup(anc, k),
                    lookup(cur, k),
                ),
            forall|k: Seq<char>| #[trigger]
                same_at(b, map_entries(*doc), k) || ck.contains(k) || (ak.take(
                    j as int,
                ).contains(k) && !has_key(map_entries(*doc), k)),
            forall|k: Seq<char>| #[trigger]
                ak.take(j as int).contains(k) && !ck.contains(k) ==> !has_key(map_entries(*doc), k),
            forall|x: int| #[trigger] k0.contains(x) ==> known(*doc).contains(x),
            forall|x: int| #[trigger]
                known(*doc).contains(x) && !k0.contains(x) ==> has_id_in(map_entries(*doc), x, ck),
        decreases ancestor.entries@.len() - j,
    {
        let key = ancestor.entries[j].0.as_str();
        let ghost before = map_entries(*doc);
        let ghost p = ak.take(j as int);
        let ghost q = ak.take(j + 1);
        proof {
            assert(ak[j as int] == key@);
            lemma_take_keys(ak, j as int);
            textmap::lemma_lookup_at(anc, j as int);
            textmap::lemma_lookup_none(cur, key@);
            textmap::lemma_mapped(current@, key@);
        }
        if !current.contains_key(key) {
            match delete_entry(doc, id, key) {
                Ok(_) => {},
                Err(e) => {
                    return Err(failure(e));
                },
            }
            proof {
                let now = map_entries(*doc);
                assert forall|x: int, k: Seq<char>, v: Seq<char>| #[trigger]
                    now.contains(entry(x, k, v)) == (k != key@ && before.contains(
                        entry(x, k, v),
                    )) by {
                }
                assert forall|k: Seq<char>| #[trigger] ck.contains(k) implies key_edited(
                    b,
                    k0,
                    now,
                    k,
                    lookup(anc, k),
                    lookup(cur, k),
                ) by {
                    lemma_key_edited_same(b, k0, before, now, k, lookup(anc, k), lookup(cur, k));
                }
                assert(!has_key(now, key@));
                assert forall|k: Seq<char>| has_key(now, k) implies has_key(before, k) by {
                    let (n, v) = choose|n: int, v: Seq<char>| now.contains(#[trigger] entry(n, k, v));
                    assert(before.contains(entry(n, k, v)));
                }
                assert forall|k: Seq<char>| #[trigger]
                    same_at(b, now, k) || ck.contains(k) || (q.contains(k) && !has_key(now, k)) by {
                    if k != key@ && same_at(b, before, k) {
                        assert(same_at(b, now, k));
                    }
                    assert(same_at(b, before, k) || !same_at(b, before, k));
                }
                assert forall|x: int| #[trigger]
                    known(*doc).contains(x) && !k0.contains(x) implies has_id_in(now, x, ck) by {
                    let (k, v) = choose|k: Seq<char>, v: Seq<char>|
                        before.contains(#[trigger] entry(x, k, v)) && ck.contains(k);
                    assert(now.contains(entry(x, k, v)));
                }
            }
        } else {
            proof {
                assert forall|k: Seq<char>| #[trigger]
                    same_at(b, before, k) || ck.contains(k) || (q.contains(k) && !has_key(
                        before,
                        k,
                    )) by {
                    if p.contains(k) {
                        assert(q.contains(k));
                    }
                }
            }
        }
        j = j + 1;
    }
    proof {
        assert(ak.take(j as int) =~= ak);
        let s = map_entries(*doc);
        assert forall|k: Seq<char>| #[trigger]
            key_edited(b, k0, s, k, lookup(anc, k), lookup(cur, k)) by {
            textmap::lemma_lookup_none(cur, k);
            textmap::lemma_lookup_none(anc, k);
            if ck.contains(k) {
            } else if ak.contains(k) {
                assert(!has_key(s, k));
            } else {
                assert(same_at(b, s, k));
            }
        }
        assert forall|x: int| #[trigger] known(*doc).contains(x) && !k0.contains(x) implies has_id(
            s,
            x,
        ) by {
            let (k, v) = choose|k: Seq<char>, v: Seq<char>|
                s.contains(#[trigger] entry(x, k, v)) && ck.contains(k);
            assert(s.contains(entry(x, k, v)));
        }
    }
    Ok(())
}

pub open spec fn has_id_in(s: Entries, n: int, ks: Seq<Seq<char>>) -> bool {
    exists|k: Seq<char>, v: Seq<char>| s.contains(#[trigger] entry(n, k, v)) && ks.contains(k)
}

proof fn lemma_take_keys(ks: Seq<Seq<char>>, i: int)
    requires
        text::ascending(ks),
        0 <= i < ks.len(),
    ensures
        !ks.take(i).contains(ks[i]),
        ks.contains(ks[i]),
        forall|k: Seq<char>| #[trigger]
            ks.take(i + 1).contains(k) == (ks.take(i).contains(k) || k == ks[i]),
{
    let p = ks.take(i);
    let q = ks.take(i + 1);
    if p.contains(ks[i]) {
        let x = p.index_of(ks[i]);
        assert(text::lt(ks[x], ks[i]));
        text::lemma_lt_irreflexive(ks[i]);
    }
    assert forall|k: Seq<char>| #[trigger] q.contains(k) == (p.contains(k) || k == ks[i]) by {
        if p.contains(k) {
            assert(q[p.index_of(k)] == k);
        }
        assert(q[i] == ks[i]);
        if q.contains(k) && k != ks[i] {
            assert(p[q.index_of(k)] == k);
        }
    }
}

/// What holds of a key depends on its own entries alone.
proof fn lemma_key_edited_same(
    b: Entries,
    k0: Set<int>,
    s: Entries,
    t: Entries,
    k: Seq<char>,
    a: Option<Seq<char>>,
    c: Option<Seq<char>>,
)
    requires
        key_edited(b, k0, s, k, a, c),
        forall|n: int, v: Seq<char>| #[trigger]
            t.contains(entry(n, k, v)) == s.contains(entry(n, k, v)),
    ensures
        key_edited(b, k0, t, k, a, c),
{
    if c == a {
        assert(same_at(b, s, k));
        assert(same_at(b, t, k));
    } else {
        if c is Some {
            let n = choose|n: int| s.contains(#[trigger] entry(n, k, c->0));
            assert(t.contains(entry(n, k, c->0)));
        }
    }
}

// ---------------------------------------------------------------------------
// The whole front matter
// ---------------------------------------------------------------------------
pub open spec fn in_quotes(v: Seq<char>) -> Seq<char> {
    "\""@ + v + "\""@
}

/// Whether a merged scalar field is one that may come out.
pub open spec fn scalar_field(
    a: Option<Seq<char>>,
    o: Option<Seq<char>>,
    t: Option<Seq<char>>,
    r: Option<FmView>,
) -> bool {
    match r {
        Some(FmView::Scalar(q)) => exists|v: Seq<char>| #[trigger]
            scalar_merged(a, o, t, Some(v)) && q == in_quotes(v),
        Some(FmView::List(_)) => false,
        None => scalar_merged(a, o, t, None),
    }
}

/// Whether a merged field is one that may come out: a list field as the sets
/// merge, any other as the scalars do.
pub open spec fn field_merged(
    a: FmEntries,
    o: FmEntries,
    t: FmEntries,
    k: Seq<char>,
    r: Option<FmView>,
) -> bool {
    match list_merge(lookup(lists_of(a), k), lookup(lists_of(o), k), lookup(lists_of(t), k)) {
        Some(l) => r == Some(FmView::List(l)),
        None => scalar_field(
            lookup(scalars_of(a), k),
            lookup(scalars_of(o), k),
            lookup(scalars_of(t), k),
            r,
        ),
    }
}

/// Whether fields are a merge of three front matters.
pub open spec fn is_fm_merge(a: FmEntries, o: FmEntries, t: FmEntries, m: FmEntries) -> bool {
    &&& text::ascending(textmap::keys(m))
    &&& forall|k: Seq<char>| #[trigger] field_merged(a, o, t, k, lookup(m, k))
}

/// Whether a text writes such a merge.
pub open spec fn is_fm_merge_text(
    a: FmEntries,
    o: FmEntries,
    t: FmEntries,
    merged: Seq<char>,
) -> bool {
    exists|m: FmEntries| #[trigger] is_fm_merge(a, o, t, m) && merged == fm_text(m)
}

/// What merged entries show: of each key one of its values, in quotes.
pub open spec fn shown(m: Entries, out: FmEntries) -> bool {
    forall|k: Seq<char>| #[trigger] shown_at(m, k, lookup(out, k))
}

pub open spec fn shown_at(m: Entries, k: Seq<char>, r: Option<FmView>) -> bool {
    match r {
        Some(FmView::Scalar(q)) => exists|v: Seq<char>| #[trigger]
            has_value(m, k, v) && q == in_quotes(v),
        Some(FmView::List(_)) => false,
        None => !has_key(m, k),
    }
}

/// Merges the entries of two copies of a document. It succeeds where two authors
/// changed them apart, and fails only where the changes do not go together.
pub fn merge_entry_copies(doc_ours: &mut AutoCommit, doc_theirs: &mut AutoCommit) -> (r: Result<
    TextMap<FmValue>,
    ZettelError,
>)
    requires
        root(*old(doc_ours)) == Some(("frontmatter"@, Kind::Entries)),
        are_copies(*old(doc_ours), *old(doc_theirs)),
    ensures
        changed_apart(*old(doc_ours), *old(doc_theirs)) ==> r is Ok,
        match r {
            Ok(out) => out.sorted() && exists|m: Entries|
                shown(m, mapped(out@)) && #[trigger] is_map_merge(
                    map_entries(*old(doc_ours)),
                    known(*old(doc_ours)),
                    map_entries(*old(doc_theirs)),
                    known(*old(doc_theirs)),
                    m,
                ),
            Err(e) => e@ is Automerge && !mergeable(
                changes_in(*old(doc_ours)),
                changes_in(*old(doc_theirs)),
            ),
        },
{
    match merge(doc_ours, doc_theirs) {
        Ok(_) => {},
        Err(e) => {
            return Err(failure(e));
        },
    }
    let ghost m = map_entries(*doc_ours);
    let merged_id = match object_at(doc_ours, "frontmatter") {
        Ok(Some(id)) => id,
        Ok(None) => {
            return Err(ZettelError::Parse(text::copy("missing frontmatter map after merge")));
        },
        Err(e) => {
            return Err(failure(e));
        },
    };
    let keys = map_keys(doc_ours, &merged_id);
    let ghost kv = texts(keys@);
    let mut out: TextMap<FmValue> = TextMap::new();
    let mut j: usize = 0;
    proof {
        assert(mapped(out@) =~= Seq::<(Seq<char>, FmView)>::empty());
    }
    while j < keys.len()
        invariant
            j <= keys@.len(),
            kv == texts(keys@),
            m == map_entries(*doc_ours),
            is_at(merged_id, *doc_ours, Kind::Entries),
            out.sorted(),
            forall|k: Seq<char>| #[trigger]
                kv.contains(k) == has_key(m, k),
            forall|k: Seq<char>| #[trigger]
                lookup(mapped(out@), k) is Some == kv.take(j as int).contains(k),
            forall|k: Seq<char>| #[trigger]
                lookup(mapped(out@), k) matches Some(x) ==> x is Scalar && exists|
                    n: int,
                    v: Seq<char>,
                |
                    m.contains(#[trigger] entry(n, k, v)) && x->Scalar_0 == in_quotes(v),
        decreases keys@.len() - j,
    {
        let key = keys[j].as_str();
        let ghost p = kv.take(j as int);
        let ghost q = kv.take(j + 1);
        proof {
            assert(kv[j as int] == key@);
            assert(q =~= p.push(key@));
            assert forall|k: Seq<char>| #[trigger] q.contains(k) == (p.contains(k) || k == key@) by {
                if p.contains(k) {
                    assert(q[p.index_of(k)] == k);
                }
                assert(q[j as int] == key@);
                if q.contains(k) && k != key@ {
                    assert(p[q.index_of(k)] == k);
                }
            }
            assert(kv.contains(key@));
        }
        match map_value(doc_ours, &merged_id, key) {
            Ok(Some(t)) => {
                let v = FmValue::Scalar(t);
                proof {
                    textmap::lemma_mapped_put(out@, key@, v);
                    textmap::lemma_mapped(out@, key@);
                    textmap::lemma_lookup_put(mapped(out@), key@, v@);
                }
                out.insert(text::copy(key), v);
            },
            Ok(None) => {},
            Err(e) => {
                return Err(failure(e));
            },
        }
        j = j + 1;
    }
    proof {
        assert(kv.take(j as int) =~= kv);
        assert forall|k: Seq<char>| #[trigger] shown_at(m, k, lookup(mapped(out@), k)) by {
            let r = lookup(mapped(out@), k);
            if r is Some {
                let (n, v) = choose|n: int, v: Seq<char>|
                    m.contains(#[trigger] entry(n, k, v)) && r->0->Scalar_0 == in_quotes(v);
                assert(has_value(m, k, v));
            } else {
                assert(!kv.contains(k));
            }
        }
        assert(shown(m, mapped(out@)));
    }
    Ok(out)
}

/// The scalars of three front matters, merged.
fn merge_scalars(
    ancestor: &TextMap<String>,
    ours: &TextMap<String>,
    theirs: &TextMap<String>,
) -> (r: Result<TextMap<FmValue>, ZettelError>)
    requires
        ancestor.sorted(),
        ours.sorted(),
        theirs.sorted(),
    ensures
        match r {
            Ok(m) => m.sorted() && forall|k: Seq<char>| #[trigger]
                scalar_field(
                    lookup(mapped(ancestor@), k),
                    lookup(mapped(ours@), k),
                    lookup(mapped(theirs@), k),
                    lookup(mapped(m@), k),
                ),
            Err(_) => false,
        },
{
    let ghost anc = mapped(ancestor@);
    let ghost ov = mapped(ours@);
    let ghost tv = mapped(theirs@);
    let mut doc = new_doc();
    let id = match put_object(&mut doc, "frontmatter", Kind::Entries) {
        Ok(id) => id,
        Err(e) => {
            return Err(failure(e));
        },
    };
    let mut i: usize = 0;
    let ghost ak = textmap::keys(anc);
    proof {
        textmap::lemma_mapped(ancestor@, Seq::<char>::empty());
    }
    while i < ancestor.entries.len()
        invariant
            i <= ancestor.entries@.len() == anc.len(),
            anc == mapped(ancestor@),
            ak == textmap::keys(anc),
            text::ascending(ak),
            is_at(id, doc, Kind::Entries),
            root(doc) == Some(("frontmatter"@, Kind::Entries)),
            forall|n: int, k: Seq<char>, v: Seq<char>| #[trigger]
                map_entries(doc).contains(entry(n, k, v)) ==> known(doc).contains(n) && ak.take(
                    i as int,
                ).contains(k) && lookup(anc, k) == Some(v),
            forall|k: Seq<char>| #[trigger]
                ak.take(i as int).contains(k) ==> lookup(anc, k) is Some && has_value(
                    map_entries(doc),
                    k,
                    lookup(anc, k)->0,
                ),
        decreases ancestor.entries@.len() - i,
    {
        let key = ancestor.entries[i].0.as_str();
        let value = ancestor.entries[i].1.as_str();
        let ghost before = map_entries(doc);
        let ghost kb = known(doc);
        let ghost p = ak.take(i as int);
        let ghost q = ak.take(i + 1);
        proof {
            assert(ak[i as int] == key@);
            assert(anc[i as int] == (key@, value@));
            textmap::lemma_lookup_at(anc, i as int);
            lemma_take_keys(ak, i as int);
            assert forall|n: int| !before.contains((n, key@, value@)) by {
                if before.contains(entry(n, key@, value@)) {
                    assert(p.contains(key@));
                }
            }
        }
        match put_entry(&mut doc, &id, key, value) {
            Ok(_) => {},
            Err(e) => {
                return Err(failure(e));
            },
        }
        proof {
            let now = map_entries(doc);
            let n = choose|n: int|
                {
                    &&& !kb.contains(n)
                    &&& known(doc) == kb.insert(n)
                    &&& now == without_key(before, key@).insert(#[trigger] entry(n, key@, value@))
                };
            assert(now.contains(entry(n, key@, value@)));
            assert forall|x: int, k: Seq<char>, v: Seq<char>| #[trigger]
                now.contains(entry(x, k, v)) implies known(doc).contains(x) && q.contains(k)
                && lookup(anc, k) == Some(v) by {
                if k != key@ {
                    assert(before.contains(entry(x, k, v)));
                }
            }
            assert forall|k: Seq<char>| #[trigger] q.contains(k) implies lookup(anc, k) is Some
                && has_value(now, k, lookup(anc, k)->0) by {
                if k != key@ {
                    assert(p.contains(k));
                    let x = choose|x: int| before.contains(#[trigger] entry(x, k, lookup(anc, k)->0));
                    assert(now.contains(entry(x, k, lookup(anc, k)->0)));
                }
            }
        }
        i = i + 1;
    }
    let ghost b = map_entries(doc);
    let ghost k0 = known(doc);
    proof {
        assert(ak.take(i as int) =~= ak);
        assert forall|k: Seq<char>| #[trigger] lookup(anc, k) is Some implies has_value(
            b,
            k,
            lookup(anc, k)->0,
        ) by {
            textmap::lemma_lookup_none(anc, k);
            assert(ak.contains(k));
        }
        assert(shows(b, anc));
        assert(all_known(b, k0));
    }
    let mut doc_ours = fork(&mut doc);
    let ours_id = match object_at(&doc_ours, "frontmatter") {
        Ok(Some(id)) => id,
        Ok(None) => {
            return Err(ZettelError::Parse(text::copy("missing frontmatter map")));
        },
        Err(e) => {
            return Err(failure(e));
        },
    };
    match apply_scalar_diff(&mut doc_ours, &ours_id, ancestor, ours) {
        Ok(_) => {},
        Err(e) => {
            return Err(e);
        },
    }
    let mut doc_theirs = second_copy(&mut doc, &doc_ours);
    let theirs_id = match object_at(&doc_theirs, "frontmatter") {
        Ok(Some(id)) => id,
        Ok(None) => {
            return Err(ZettelError::Parse(text::copy("missing frontmatter map")));
        },
        Err(e) => {
            return Err(failure(e));
        },
    };
    match apply_scalar_diff(&mut doc_theirs, &theirs_id, ancestor, theirs) {
        Ok(_) => {},
        Err(e) => {
            return Err(e);
        },
    }
    let ghost s = map_entries(doc_ours);
    let ghost ks = known(doc_ours);
    let ghost o = map_entries(doc_theirs);
    let ghost ko = known(doc_theirs);
    let out = match merge_entry_copies(&mut doc_ours, &mut doc_theirs) {
        Ok(out) => out,
        Err(e) => {
            return Err(e);
        },
    };
    proof {
        let m = choose|m: Entries|
            shown(m, mapped(out@)) && #[trigger] is_map_merge(s, ks, o, ko, m);
        assert forall|k: Seq<char>| #[trigger]
            scalar_field(lookup(anc, k), lookup(ov, k), lookup(tv, k), lookup(mapped(out@), k)) by {
            lemma_map_merge(b, k0, anc, ov, s, ks, tv, o, ko, m, k);
            let r = lookup(mapped(out@), k);
            assert(shown_at(m, k, r));
            if r is Some {
                let v = choose|v: Seq<char>| #[trigger]
                    has_value(m, k, v) && r->0->Scalar_0 == in_quotes(v);
                assert(scalar_merged(lookup(anc, k), lookup(ov, k), lookup(tv, k), Some(v)));
            }
        }
    }
    Ok(out)
}

/// Merges two front matters that were changed apart, field by field. This succeeds
/// where all three can be read.
pub fn merge_frontmatter(ancestor: &str, ours: &str, theirs: &str) -> (r: Result<
    String,
    ZettelError,
>)
    ensures
        match (fm_fields(ancestor@), fm_fields(ours@), fm_fields(theirs@)) {
            (Err(e), _, _) => r matches Err(x) && x@ == e,
            (Ok(_), Err(e), _) => r matches Err(x) && x@ == e,
            (Ok(_), Ok(_), Err(e)) => r matches Err(x) && x@ == e,
            (Ok(a), Ok(o), Ok(t)) => match r {
                Ok(y) => is_fm_merge_text(a, o, t, y@),
                Err(_) => false,
            },
        },
        r is Ok ==> has_plain_fields(ancestor@) && has_plain_fields(ours@) && has_plain_fields(
            theirs@,
        ),
{
    let a = match yaml_to_map(ancestor) {
        Ok(m) => m,
        Err(e) => {
            return Err(e);
        },
    };
    let o = match yaml_to_map(ours) {
        Ok(m) => m,
        Err(e) => {
            return Err(e);
        },
    };
    let t = match yaml_to_map(theirs) {
        Ok(m) => m,
        Err(e) => {
            return Err(e);
        },
    };
    let (a_scalars, a_lists) = partition_fm(&a);
    let (o_scalars, o_lists) = partition_fm(&o);
    let (t_scalars, t_lists) = partition_fm(&t);
    let mut merged = match merge_scalars(&a_scalars, &o_scalars, &t_scalars) {
        Ok(m) => m,
        Err(e) => {
            return Err(e);
        },
    };
    let lists = merge_list_fields(&a_lists, &o_lists, &t_lists);
    let ghost scalars = mapped(merged@);
    let ghost lv = mapped(lists@);
    let ghost lk = textmap::keys(lv);
    proof {
        textmap::lemma_mapped(lists@, Seq::<char>::empty());
    }
    let mut rest = lists;
    while rest.entries.len() > 0
        invariant
            rest.entries@.len() <= lv.len(),
            lk == textmap::keys(lv),
            text::ascending(lk),
            mapped(rest@) == lv.take(rest.entries@.len() as int),
            merged.sorted(),
            forall|k: Seq<char>| #[trigger]
                lookup(mapped(merged@), k) == if lk.skip(rest.entries@.len() as int).contains(k) {
                    lookup(lv, k)
                } else {
                    lookup(scalars, k)
                },
        decreases rest.entries@.len(),
    {
        let ghost n = rest.entries@.len() as int;
        let ghost before = rest@;
        let (k, v) = rest.entries.pop().unwrap();
        proof {
            assert(before[n - 1] == (k@, v));
            assert(rest@ =~= before.drop_last());
            assert(mapped(before)[n - 1] == (k@, v@));
            assert(lv[n - 1] == (k@, v@));
            assert(mapped(rest@) =~= lv.take(n - 1));
            textmap::lemma_lookup_at(lv, n - 1);
            textmap::lemma_mapped_put(merged@, k@, v);
            textmap::lemma_mapped(merged@, k@);
            textmap::lemma_lookup_put(mapped(merged@), k@, v@);
            let p = lk.skip(n);
            let q = lk.skip(n - 1);
            assert(lk[n - 1] == k@);
            assert forall|x: Seq<char>| #[trigger] q.contains(x) == (p.contains(x) || x == k@) by {
                assert(q[0] == k@);
                if p.contains(x) {
                    assert(q[p.index_of(x) + 1] == x);
                }
                if q.contains(x) && x != k@ {
                    assert(p[q.index_of(x) - 1] == x);
                }
            }
        }
        merged.insert(k, v);
    }
    let out = map_to_yaml(&merged);
    proof {
        assert(lk.skip(0) =~= lk);
        let m = mapped(merged@);
        textmap::lemma_mapped(merged@, Seq::<char>::empty());
        assert forall|k: Seq<char>| #[trigger]
            field_merged(mapped(a@), mapped(o@), mapped(t@), k, lookup(m, k)) by {
            textmap::lemma_lookup_none(lv, k);
            assert(scalar_field(
                lookup(mapped(a_scalars@), k),
                lookup(mapped(o_scalars@), k),
                lookup(mapped(t_scalars@), k),
                lookup(scalars, k),
            ));
            assert(lookup(m, k) == if lk.contains(k) {
                lookup(lv, k)
            } else {
                lookup(scalars, k)
            });
        }
        assert(is_fm_merge(mapped(a@), mapped(o@), mapped(t@), m));
        assert(is_fm_merge_text(mapped(a@), mapped(o@), mapped(t@), out@));
        assert(fm_fields(ancestor@) == Ok::<FmEntries, ErrorView>(mapped(a@)));
        assert(fm_fields(ours@) == Ok::<FmEntries, ErrorView>(mapped(o@)));
        assert(fm_fields(theirs@) == Ok::<FmEntries, ErrorView>(mapped(t@)));
    }
    Ok(out)
}

// ---------------------------------------------------------------------------
// Laws
// ---------------------------------------------------------------------------
/// Fields do not disturb each other: a scalar field that only one side changed,
/// or none, comes out as that side has it, whatever happened to other fields.
pub proof fn law_field_independence(
    a: FmEntries,
    o: FmEntries,
    t: FmEntries,
    m: FmEntries,
    k: Seq<char>,
)
    requires
        is_fm_merge(a, o, t, m),
        lookup(lists_of(a), k) is None,
        lookup(lists_of(o), k) is None,
        lookup(lists_of(t), k) is None,
    ensures
        lookup(scalars_of(o), k) == lookup(scalars_of(a), k) ==> lookup(m, k) == match lookup(
            scalars_of(t),
            k,
        ) {
            Some(v) => Some(FmView::Scalar(in_quotes(v))),
            None => None,
        },
        lookup(scalars_of(t), k) == lookup(scalars_of(a), k) ==> lookup(m, k) == match lookup(
            scalars_of(o),
            k,
        ) {
            Some(v) => Some(FmView::Scalar(in_quotes(v))),
            None => None,
        },
{
    assert(field_merged(a, o, t, k, lookup(m, k)));
}

/// What is in a merged list is what the rule keeps.
pub proof fn lemma_list_members(
    a: Seq<Seq<char>>,
    o: Seq<Seq<char>>,
    t: Seq<Seq<char>>,
    n: int,
    x: Seq<char>,
)
    requires
        0 <= n <= t.len(),
    ensures
        with_theirs(a, o, t, n).contains(x) == (item_kept(a, o, t, x) && (o.contains(x) || t.take(
            n,
        ).contains(x))),
    decreases n,
{
    if n == 0 {
        lemma_kept_ours(a, o, t, o.len() as int, x);
        assert(o.take(o.len() as int) =~= o);
        assert(t.take(0) =~= Seq::<Seq<char>>::empty());
    } else {
        lemma_list_members(a, o, t, n - 1, x);
        lemma_list_members(a, o, t, n - 1, t[n - 1]);
        let p = with_theirs(a, o, t, n - 1);
        let r = with_theirs(a, o, t, n);
        let u = t.take(n - 1);
        let w = t.take(n);
        assert(w =~= u.push(t[n - 1]));
        if u.contains(x) {
            assert(w[u.index_of(x)] == x);
        }
        if w.contains(x) && x != t[n - 1] {
            assert(u[w.index_of(x)] == x);
        }
        assert(w[n - 1] == t[n - 1]);
        if p.contains(x) && r != p {
            assert(r[p.index_of(x)] == x);
        }
        if r != p {
            assert(r[r.len() - 1] == t[n - 1]);
            if r.contains(x) && x != t[n - 1] {
                assert(p[r.index_of(x)] == x);
            }
        }
    }
}

proof fn lemma_kept_ours(
    a: Seq<Seq<char>>,
    o: Seq<Seq<char>>,
    t: Seq<Seq<char>>,
    n: int,
    x: Seq<char>,
)
    requires
        0 <= n <= o.len(),
    ensures
        kept_ours(a, o, t, n).contains(x) == (item_kept(a, o, t, x) && o.take(n).contains(x)),
    decreases n,
{
    if n > 0 {
        lemma_kept_ours(a, o, t, n - 1, x);
        let p = kept_ours(a, o, t, n - 1);
        let r = kept_ours(a, o, t, n);
        let u = o.take(n - 1);
        let w = o.take(n);
        if u.contains(x) {
            assert(w[u.index_of(x)] == x);
        }
        if w.contains(x) && x != o[n - 1] {
            assert(u[w.index_of(x)] == x);
        }
        assert(w[n - 1] == o[n - 1]);
        if item_kept(a, o, t, o[n - 1]) {
            assert(r[r.len() - 1] == o[n - 1]);
            if p.contains(x) {
                assert(r[p.index_of(x)] == x);
            }
            if r.contains(x) && x != o[n - 1] {
                assert(p[r.index_of(x)] == x);
            }
        }
    }
}

/// Merging a list field gives the same items, whichever side is ours; what
/// either side added is there, what either removed is not.
pub proof fn law_list_merge_commutes(
    a: Option<Seq<Seq<char>>>,
    o: Option<Seq<Seq<char>>>,
    t: Option<Seq<Seq<char>>>,
    x: Seq<char>,
)
    ensures
        list_merge(a, o, t) is Some == list_merge(a, t, o) is Some,
        list_merge(a, o, t) is Some ==> list_merge(a, o, t)->0.contains(x) == list_merge(
            a,
            t,
            o,
        )->0.contains(x),
        list_merge(a, o, t) is Some ==> list_merge(a, o, t)->0.contains(x) == item_kept(
            or_empty(a),
            or_empty(o),
            or_empty(t),
            x,
        ),
{
    let av = or_empty(a);
    let ov = or_empty(o);
    let tv = or_empty(t);
    lemma_list_members(av, ov, tv, tv.len() as int, x);
    lemma_list_members(av, tv, ov, ov.len() as int, x);
    assert(tv.take(tv.len() as int) =~= tv);
    assert(ov.take(ov.len() as int) =~= ov);
}

/// Whether two merged fields are alike: the same scalar, or lists of the same
/// members.
pub open spec fn alike(x: Option<FmView>, y: Option<FmView>) -> bool {
    match (x, y) {
        (Some(FmView::List(l)), Some(FmView::List(r))) => forall|i: Seq<char>| #[trigger]
            l.contains(i) == r.contains(i),
        _ => x == y,
    }
}

/// Whether the two sides changed different scalar fields, or changed a field to
/// the same value.
pub open spec fn apart(a: FmEntries, o: FmEntries, t: FmEntries) -> bool {
    forall|k: Seq<char>|
        {
            let v = #[trigger] lookup(scalars_of(a), k);
            let x = lookup(scalars_of(o), k);
            let y = lookup(scalars_of(t), k);
            x == v || y == v || x == y
        }
}

/// Whether the list fields come out in the same order, whichever side is ours.
pub open spec fn lists_agree(a: FmEntries, o: FmEntries, t: FmEntries) -> bool {
    forall|k: Seq<char>|
        {
            let l = #[trigger] lookup(lists_of(a), k);
            let x = lookup(lists_of(o), k);
            let y = lookup(lists_of(t), k);
            list_merge(l, x, y) == list_merge(l, y, x)
        }
}

/// Where the two sides changed different scalars, it does not matter which side
/// is ours: the merges have the same scalars, and lists of the same members.
/// Where the lists agree in their order too, as they do where none was changed,
/// the merges are the same.
pub proof fn law_fm_merge_commutes(
    a: FmEntries,
    o: FmEntries,
    t: FmEntries,
    m: FmEntries,
    n: FmEntries,
)
    requires
        is_fm_merge(a, o, t, m),
        is_fm_merge(a, t, o, n),
        apart(a, o, t),
    ensures
        forall|k: Seq<char>| alike(#[trigger] lookup(m, k), lookup(n, k)),
        lists_agree(a, o, t) ==> m == n,
{
    assert forall|k: Seq<char>| alike(#[trigger] lookup(m, k), lookup(n, k)) && (lists_agree(a, o, t)
        ==> lookup(m, k) == lookup(n, k)) by {
        assert(field_merged(a, o, t, k, lookup(m, k)));
        assert(field_merged(a, t, o, k, lookup(n, k)));
        let la = lookup(lists_of(a), k);
        let lo = lookup(lists_of(o), k);
        let lt = lookup(lists_of(t), k);
        assert forall|x: Seq<char>| list_merge(la, lo, lt) is Some implies #[trigger] list_merge(
            la,
            lo,
            lt,
        )->0.contains(x) == list_merge(la, lt, lo)->0.contains(x) by {
            law_list_merge_commutes(la, lo, lt, x);
        }
        law_list_merge_commutes(la, lo, lt, Seq::empty());
        let sa = lookup(scalars_of(a), k);
        if lists_agree(a, o, t) {
            assert(list_merge(la, lo, lt) == list_merge(la, lt, lo));
        }
    }
    if lists_agree(a, o, t) {
        textmap::lemma_same_entries(m, n);
    }
}

/// Where the two sides changed different scalars, front matters have one merge.
pub proof fn law_fm_merge_unique(
    a: FmEntries,
    o: FmEntries,
    t: FmEntries,
    m: FmEntries,
    n: FmEntries,
)
    requires
        is_fm_merge(a, o, t, m),
        is_fm_merge(a, o, t, n),
        apart(a, o, t),
    ensures
        m == n,
{
    assert forall|k: Seq<char>| #[trigger] lookup(m, k) == lookup(n, k) by {
        assert(field_merged(a, o, t, k, lookup(m, k)));
        assert(field_merged(a, o, t, k, lookup(n, k)));
        let v = lookup(scalars_of(a), k);
    }
    textmap::lemma_same_entries(m, n);
}

/// A field that nobody changed, as a merge has it: a list as it is, a scalar in
/// quotes.
pub open spec fn field_kept(a: FmEntries, k: Seq<char>) -> Option<FmView> {
    match lookup(lists_of(a), k) {
        Some(l) => Some(FmView::List(l)),
        None => match lookup(scalars_of(a), k) {
            Some(v) => Some(FmView::Scalar(in_quotes(v))),
            None => None,
        },
    }
}

/// Merging three times the same front matter keeps its fields.
pub proof fn law_fm_merge_idempotent(a: FmEntries, m: FmEntries, k: Seq<char>)
    requires
        is_fm_merge(a, a, a, m),
    ensures
        lookup(m, k) == field_kept(a, k),
{
    assert(field_merged(a, a, a, k, lookup(m, k)));
    match lookup(lists_of(a), k) {
        Some(l) => {
            law_list_merge_idempotent(l);
        },
        None => {},
    }
}

/// Merging three times the same list gives that list.
pub proof fn law_list_merge_idempotent(a: Seq<Seq<char>>)
    ensures
        list_merge(Some(a), Some(a), Some(a)) == Some(a),
{
    lemma_kept_all(a, a.len() as int);
    assert(a.take(a.len() as int) =~= a);
    lemma_no_more(a, a.len() as int);
}

proof fn lemma_kept_all(a: Seq<Seq<char>>, n: int)
    requires
        0 <= n <= a.len(),
    ensures
        kept_ours(a, a, a, n) == a.take(n),
    decreases n,
{
    if n > 0 {
        lemma_kept_all(a, n - 1);
        assert(a.contains(a[n - 1]));
        assert(a.take(n) =~= a.take(n - 1).push(a[n - 1]));
    } else {
        assert(kept_ours(a, a, a, n) =~= a.take(n));
    }
}

proof fn lemma_no_more(a: Seq<Seq<char>>, n: int)
    requires
        0 <= n <= a.len(),
        kept_ours(a, a, a, a.len() as int) == a,
    ensures
        with_theirs(a, a, a, n) == a,
    decreases n,
{
    if n > 0 {
        lemma_no_more(a, n - 1);
        assert(a.contains(a[n - 1]));
    }
}

} // verus!
