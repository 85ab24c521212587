//! The data of the library and the views that contracts speak of.
use crate::hlc::Hlc;
use crate::textmap::{self, TextMap};
use crate::text::{self, opt_text, texts};
use vstd::prelude::*;

verus! {

broadcast use vstd::string::group_string_axioms;

// ---------------------------------------------------------------------------
// Configuration
// ---------------------------------------------------------------------------
/// Repository-wide configuration, stored in `.zetteldb.toml`.
#[derive(Debug, Clone)]
pub struct RepoConfig {
    pub compaction: CompactionConfig,
    pub crdt: CrdtConfig,
    pub maintenance: MaintenanceConfig,
}

#[derive(Debug, Clone, Copy)]
pub struct CompactionConfig {
    /// Days before a node that does not sync is considered stale.
    pub stale_ttl_days: u32,
    /// Size in MB from which temporary merge files are cleaned up.
    pub threshold_mb: u32,
}

#[derive(Debug, Clone)]
pub struct CrdtConfig {
    /// The merge strategy of a type whose definition names none.
    pub default_strategy: String,
}

#[derive(Debug, Clone, Copy)]
pub struct MaintenanceConfig {
    /// Whether writes may start maintenance by themselves.
    pub auto_enabled: bool,
    /// The number of commits in a session after which they do; zero for never.
    pub write_threshold: u32,
}

pub fn default_stale_ttl_days() -> (n: u32)
    ensures
        n == 90,
{
    90
}

pub fn default_threshold_mb() -> (n: u32)
    ensures
        n == 1,
{
    1
}

pub fn default_crdt_strategy() -> (s: String)
    ensures
        s@ == "preset:default"@,
{
    text::copy("preset:default")
}

impl Default for CompactionConfig {
    fn default() -> (c: CompactionConfig)
        ensures
            c.stale_ttl_days == 90,
            c.threshold_mb == 1,
    {
        CompactionConfig {
            stale_ttl_days: default_stale_ttl_days(),
            threshold_mb: default_threshold_mb(),
        }
    }
}

impl Default for CrdtConfig {
    fn default() -> (c: CrdtConfig)
        ensures
            c.default_strategy@ == "preset:default"@,
    {
        CrdtConfig { default_strategy: default_crdt_strategy() }
    }
}

impl Default for MaintenanceConfig {
    fn default() -> (c: MaintenanceConfig)
        ensures
            !c.auto_enabled,
            c.write_threshold == 50,
    {
        MaintenanceConfig { auto_enabled: false, write_threshold: 50 }
    }
}

impl Default for RepoConfig {
    fn default() -> (c: RepoConfig)
        ensures
            c.compaction.stale_ttl_days == 90,
            c.compaction.threshold_mb == 1,
            c.crdt.default_strategy@ == "preset:default"@,
            !c.maintenance.auto_enabled,
            c.maintenance.write_threshold == 50,
    {
        RepoConfig {
            compaction: CompactionConfig::default(),
            crdt: CrdtConfig::default(),
            maintenance: MaintenanceConfig::default(),
        }
    }
}

// ---------------------------------------------------------------------------
// Values
// ---------------------------------------------------------------------------
/// A floating-point number, as far as the library reads it: how it is shown and
/// debugged, how YAML writes it, and what is left of it as an integer.
#[derive(Debug, Clone)]
pub struct Real {
    pub display: String,
    pub debug: String,
    pub yaml: String,
    pub as_u64: u64,
    pub as_i64: i64,
}

pub struct RealView {
    pub display: Seq<char>,
    pub debug: Seq<char>,
    pub yaml: Seq<char>,
    pub as_u64: u64,
    pub as_i64: i64,
}

impl View for Real {
    type V = RealView;

    open spec fn view(&self) -> RealView {
        RealView {
            display: self.display@,
            debug: self.debug@,
            yaml: self.yaml@,
            as_u64: self.as_u64,
            as_i64: self.as_i64,
        }
    }
}

impl Real {
    pub fn copy(&self) -> (r: Real)
        ensures
            r@ == self@,
    {
        Real {
            display: text::copy(self.display.as_str()),
            debug: text::copy(self.debug.as_str()),
            yaml: text::copy(self.yaml.as_str()),
            as_u64: self.as_u64,
            as_i64: self.as_i64,
        }
    }
}

/// A value of the front matter.
#[derive(Debug)]
pub enum Value {
    String(String),
    Number(Real),
    Bool(bool),
    List(Vec<Value>),
    Mapping(TextMap<Value>),
}

pub enum ValueView {
    Text(Seq<char>),
    Number(RealView),
    Bool(bool),
    List(Seq<ValueView>),
    Mapping(Seq<(Seq<char>, ValueView)>),
}

pub open spec fn value_view(v: Value) -> ValueView
    decreases v,
{
    match v {
        Value::String(s) => ValueView::Text(s@),
        Value::Number(n) => ValueView::Number(n@),
        Value::Bool(b) => ValueView::Bool(b),
        Value::List(l) => ValueView::List(values_view(l@)),
        Value::Mapping(m) => ValueView::Mapping(pairs_view(m.entries@)),
    }
}

pub open spec fn values_view(s: Seq<Value>) -> Seq<ValueView>
    decreases s,
{
    if s.len() == 0 {
        Seq::empty()
    } else {
        values_view(s.drop_last()).push(value_view(s.last()))
    }
}

pub open spec fn pairs_view(s: Seq<(String, Value)>) -> Seq<(Seq<char>, ValueView)>
    decreases s,
{
    if s.len() == 0 {
        Seq::empty()
    } else {
        pairs_view(s.drop_last()).push((s.last().0@, value_view(s.last().1)))
    }
}

pub open spec fn fields_view(m: TextMap<Value>) -> Seq<(Seq<char>, ValueView)> {
    pairs_view(m.entries@)
}

pub proof fn lemma_values_view(s: Seq<Value>)
    ensures
        values_view(s).len() == s.len(),
        forall|i: int| 0 <= i < s.len() ==> #[trigger] values_view(s)[i] == value_view(s[i]),
    decreases s.len(),
{
    if s.len() > 0 {
        lemma_values_view(s.drop_last());
        assert forall|i: int| 0 <= i < s.len() implies #[trigger] values_view(s)[i] == value_view(
            s[i],
        ) by {
            if i < s.len() - 1 {
                assert(s.drop_last()[i] == s[i]);
                assert(values_view(s)[i] == values_view(s.drop_last())[i]);
            }
        }
    }
}

pub proof fn lemma_pairs_view(s: Seq<(String, Value)>)
    ensures
        pairs_view(s).len() == s.len(),
        forall|i: int|
            0 <= i < s.len() ==> #[trigger] pairs_view(s)[i] == (s[i].0@, value_view(s[i].1)),
    decreases s.len(),
{
    if s.len() > 0 {
        lemma_pairs_view(s.drop_last());
        assert forall|i: int| 0 <= i < s.len() implies #[trigger] pairs_view(s)[i] == (
            s[i].0@,
            value_view(s[i].1),
        ) by {
            if i < s.len() - 1 {
                assert(s.drop_last()[i] == s[i]);
                assert(pairs_view(s)[i] == pairs_view(s.drop_last())[i]);
            }
        }
    }
}

/// The entries and their views have their keys at the same places.
pub proof fn lemma_place_view(a: Seq<(Seq<char>, Value)>, b: Seq<(Seq<char>, ValueView)>, key: Seq<char>)
    requires
        a.len() == b.len(),
        forall|i: int| 0 <= i < a.len() ==> (#[trigger] a[i]).0 == b[i].0,
    ensures
        textmap::place(a, key) == textmap::place(b, key),
        0 <= textmap::place(a, key) <= a.len(),
{
    textmap::lemma_place(a, key);
    let p = textmap::place(a, key);
    assert forall|i: int| 0 <= i < p implies text::lt(#[trigger] b[i].0, key) by {
        assert(a[i].0 == b[i].0);
    }
    if p < a.len() {
        assert(a[p].0 == b[p].0);
    }
    textmap::lemma_place_is(b, key, p);
}

/// Looking a key up in a map of values gives the view that its view gives.
pub proof fn lemma_fields_lookup(m: TextMap<Value>, key: Seq<char>)
    ensures
        match textmap::lookup(m@, key) {
            Some(v) => textmap::lookup(fields_view(m), key) == Some(value_view(v)),
            None => textmap::lookup(fields_view(m), key) is None,
        },
        textmap::keys(m@) == textmap::keys(fields_view(m)),
{
    lemma_pairs_view(m.entries@);
    lemma_place_view(m@, fields_view(m), key);
    assert(textmap::keys(m@) =~= textmap::keys(fields_view(m)));
}

pub proof fn lemma_fields_put(before: TextMap<Value>, after: TextMap<Value>, key: Seq<char>, v: Value)
    requires
        after@ == textmap::put(before@, key, v),
    ensures
        fields_view(after) == textmap::put(fields_view(before), key, value_view(v)),
{
    lemma_pairs_view(before.entries@);
    lemma_pairs_view(after.entries@);
    lemma_place_view(before@, fields_view(before), key);
    let p = textmap::place(before@, key);
    let a = fields_view(after);
    let b = textmap::put(fields_view(before), key, value_view(v));
    assert(a.len() == after@.len());
    assert forall|i: int| 0 <= i < a.len() implies #[trigger] a[i] == b[i] by {
        assert(after@[i] == textmap::put(before@, key, v)[i]);
        assert(after@[i] == (after.entries@[i].0@, after.entries@[i].1));
        let j = if i <= p || p < before@.len() && before@[p].0 == key {
            i
        } else {
            i - 1
        };
        if i != p {
            assert(before@[j] == (before.entries@[j].0@, before.entries@[j].1));
            assert(fields_view(before)[j] == (before.entries@[j].0@, value_view(
                before.entries@[j].1,
            )));
        }
    }
    assert(a =~= b);
}

pub proof fn lemma_fields_without(before: TextMap<Value>, after: TextMap<Value>, key: Seq<char>)
    requires
        after@ == textmap::without(before@, key),
    ensures
        fields_view(after) == textmap::without(fields_view(before), key),
{
    lemma_pairs_view(before.entries@);
    lemma_pairs_view(after.entries@);
    lemma_place_view(before@, fields_view(before), key);
    let p = textmap::place(before@, key);
    let a = fields_view(after);
    let b = textmap::without(fields_view(before), key);
    assert(a.len() == after@.len());
    assert forall|i: int| 0 <= i < a.len() implies #[trigger] a[i] == b[i] by {
        assert(after@[i] == textmap::without(before@, key)[i]);
        assert(after@[i] == (after.entries@[i].0@, after.entries@[i].1));
        let j = if p < before@.len() && before@[p].0 == key && i >= p {
            i + 1
        } else {
            i
        };
        assert(before@[j] == (before.entries@[j].0@, before.entries@[j].1));
        assert(fields_view(before)[j] == (before.entries@[j].0@, value_view(before.entries@[j].1)));
    }
    assert(a =~= b);
}

impl View for Value {
    type V = ValueView;

    open spec fn view(&self) -> ValueView {
        value_view(*self)
    }
}

impl Value {
    pub fn as_str(&self) -> (r: Option<&str>)
        ensures
            match r {
                Some(s) => self@ == ValueView::Text(s@),
                None => !(self@ is Text),
            },
    {
        match self {
            Value::String(s) => Some(s.as_str()),
            _ => None,
        }
    }

    pub fn as_number(&self) -> (r: Option<&Real>)
        ensures
            match r {
                Some(n) => self@ == ValueView::Number(n@),
                None => !(self@ is Number),
            },
    {
        match self {
            Value::Number(n) => Some(n),
            _ => None,
        }
    }

    pub fn as_bool(&self) -> (r: Option<bool>)
        ensures
            match r {
                Some(b) => self@ == ValueView::Bool(b),
                None => !(self@ is Bool),
            },
    {
        match self {
            Value::Bool(b) => Some(*b),
            _ => None,
        }
    }

    pub fn as_sequence(&self) -> (r: Option<&Vec<Value>>)
        ensures
            match r {
                Some(l) => self@ == ValueView::List(values_view(l@)),
                None => !(self@ is List),
            },
    {
        match self {
            Value::List(l) => Some(l),
            _ => None,
        }
    }

    pub fn as_mapping(&self) -> (r: Option<&TextMap<Value>>)
        ensures
            match r {
                Some(m) => self@ == ValueView::Mapping(fields_view(*m)),
                None => !(self@ is Mapping),
            },
    {
        match self {
            Value::Mapping(m) => Some(m),
            _ => None,
        }
    }

    pub fn is_sequence(&self) -> (r: bool)
        ensures
            r == (self@ is List),
    {
        matches!(self, Value::List(_))
    }

    pub fn is_mapping(&self) -> (r: bool)
        ensures
            r == (self@ is Mapping),
    {
        matches!(self, Value::Mapping(_))
    }

    /// A copy of the value.
    pub fn copy(&self) -> (r: Value)
        ensures
            r@ == self@,
        decreases self,
    {
        match self {
            Value::String(s) => Value::String(text::copy(s.as_str())),
            Value::Number(n) => Value::Number(n.copy()),
            Value::Bool(b) => Value::Bool(*b),
            Value::List(l) => Value::List(copy_values(l)),
            Value::Mapping(m) => Value::Mapping(copy_fields(m)),
        }
    }
}

pub fn copy_values(l: &Vec<Value>) -> (r: Vec<Value>)
    ensures
        values_view(r@) == values_view(l@),
    decreases l,
{
    let mut r: Vec<Value> = Vec::new();
    let mut i: usize = 0;
    while i < l.len()
        invariant
            i <= l@.len(),
            values_view(r@) == values_view(l@.take(i as int)),
        decreases l@.len() - i,
    {
        let v = l[i].copy();
        proof {
            assert(l@.take(i + 1).drop_last() =~= l@.take(i as int));
            assert(r@.push(v).drop_last() =~= r@);
        }
        r.push(v);
        i = i + 1;
    }
    proof {
        assert(l@.take(i as int) =~= l@);
    }
    r
}

pub fn copy_fields(m: &TextMap<Value>) -> (r: TextMap<Value>)
    ensures
        fields_view(r) == fields_view(*m),
    decreases m,
{
    let mut out: Vec<(String, Value)> = Vec::new();
    let ghost all = m.entries@;
    let mut i: usize = 0;
    while i < m.entries.len()
        invariant
            i <= all.len(),
            all == m.entries@,
            pairs_view(out@) == pairs_view(all.take(i as int)),
        decreases all.len() - i,
    {
        let k = text::copy(m.entries[i].0.as_str());
        let v = m.entries[i].1.copy();
        proof {
            assert(all.take(i + 1).drop_last() =~= all.take(i as int));
            assert(out@.push((k, v)).drop_last() =~= out@);
        }
        out.push((k, v));
        i = i + 1;
    }
    proof {
        assert(all.take(i as int) =~= all);
    }
    TextMap { entries: out }
}

// ---------------------------------------------------------------------------
// Zettels
// ---------------------------------------------------------------------------
#[derive(Debug, Clone, PartialEq, Eq, Hash)]
pub struct ZettelId(pub String);

impl ZettelId {
    /// The identifier as it is shown.
    pub fn to_text(&self) -> (r: String)
        ensures
            r@ == self.0@,
    {
        text::copy(self.0.as_str())
    }
}

/// The three zones of a note.
#[derive(Debug, Clone, Copy, PartialEq, Eq, Structural)]
pub enum Zone {
    Frontmatter,
    Body,
    Reference,
}

#[derive(Debug)]
pub struct ZettelMeta {
    pub id: Option<ZettelId>,
    pub title: Option<String>,
    pub date: Option<String>,
    pub zettel_type: Option<String>,
    pub tags: Vec<String>,
    pub extra: TextMap<Value>,
}

pub struct MetaView {
    pub id: Option<Seq<char>>,
    pub title: Option<Seq<char>>,
    pub date: Option<Seq<char>>,
    pub zettel_type: Option<Seq<char>>,
    pub tags: Seq<Seq<char>>,
    pub extra: Seq<(Seq<char>, ValueView)>,
}

pub open spec fn id_text(o: Option<ZettelId>) -> Option<Seq<char>> {
    match o {
        Some(id) => Some(id.0@),
        None => None,
    }
}

impl View for ZettelMeta {
    type V = MetaView;

    open spec fn view(&self) -> MetaView {
        MetaView {
            id: id_text(self.id),
            title: opt_text(self.title),
            date: opt_text(self.date),
            zettel_type: opt_text(self.zettel_type),
            tags: texts(self.tags@),
            extra: fields_view(self.extra),
        }
    }
}

pub open spec fn empty_meta() -> MetaView {
    MetaView {
        id: None,
        title: None,
        date: None,
        zettel_type: None,
        tags: Seq::empty(),
        extra: Seq::empty(),
    }
}

impl Default for ZettelMeta {
    fn default() -> (m: ZettelMeta)
        ensures
            m@ == empty_meta(),
            m.extra.sorted(),
    {
        let m = ZettelMeta {
            id: None,
            title: None,
            date: None,
            zettel_type: None,
            tags: Vec::new(),
            extra: TextMap::new(),
        };
        proof {
            lemma_pairs_view(m.extra.entries@);
            assert(m@.tags =~= Seq::<Seq<char>>::empty());
            assert(m.extra@.len() == m.extra.entries@.len());
            assert(m@.extra =~= Seq::<(Seq<char>, ValueView)>::empty());
        }
        m
    }
}

impl ZettelMeta {
    pub fn copy(&self) -> (r: ZettelMeta)
        ensures
            r@ == self@,
    {
        ZettelMeta {
            id: match &self.id {
                Some(id) => Some(ZettelId(id.to_text())),
                None => None,
            },
            title: text::copy_opt(&self.title),
            date: text::copy_opt(&self.date),
            zettel_type: text::copy_opt(&self.zettel_type),
            tags: text::copy_all(&self.tags),
            extra: copy_fields(&self.extra),
        }
    }
}

/// A `key:: value` field in the body or the reference section.
#[derive(Debug, Clone)]
pub struct InlineField {
    pub key: String,
    pub value: String,
    pub zone: Zone,
}

pub struct FieldView {
    pub key: Seq<char>,
    pub value: Seq<char>,
    pub zone: Zone,
}

impl View for InlineField {
    type V = FieldView;

    open spec fn view(&self) -> FieldView {
        FieldView { key: self.key@, value: self.value@, zone: self.zone }
    }
}

pub open spec fn inline_view(s: Seq<InlineField>) -> Seq<FieldView> {
    Seq::new(s.len(), |i: int| s[i]@)
}

/// A `[[target|display]]` link.
#[derive(Debug, Clone)]
pub struct WikiLink {
    pub target: String,
    pub display: Option<String>,
    pub zone: Zone,
}

pub struct LinkView {
    pub target: Seq<char>,
    pub display: Option<Seq<char>>,
    pub zone: Zone,
}

impl View for WikiLink {
    type V = LinkView;

    open spec fn view(&self) -> LinkView {
        LinkView { target: self.target@, display: opt_text(self.display), zone: self.zone }
    }
}

pub open spec fn links_view(s: Seq<WikiLink>) -> Seq<LinkView> {
    Seq::new(s.len(), |i: int| s[i]@)
}

/// A note with its front matter read and its fields and links found.
#[derive(Debug)]
pub struct ParsedZettel {
    pub meta: ZettelMeta,
    pub body: String,
    pub reference_section: String,
    pub inline_fields: Vec<InlineField>,
    pub wikilinks: Vec<WikiLink>,
    pub path: String,
}

pub struct ZettelView {
    pub meta: MetaView,
    pub body: Seq<char>,
    pub reference: Seq<char>,
    pub fields: Seq<FieldView>,
    pub links: Seq<LinkView>,
    pub path: Seq<char>,
}

impl View for ParsedZettel {
    type V = ZettelView;

    open spec fn view(&self) -> ZettelView {
        ZettelView {
            meta: self.meta@,
            body: self.body@,
            reference: self.reference_section@,
            fields: inline_view(self.inline_fields@),
            links: links_view(self.wikilinks@),
            path: self.path@,
        }
    }
}

/// A note cut into its zones.
#[derive(Debug, Clone)]
pub struct Zettel {
    pub raw_frontmatter: String,
    pub body: String,
    pub reference_section: String,
}

/// Front matter, body, reference section.
pub struct ZonesView {
    pub frontmatter: Seq<char>,
    pub body: Seq<char>,
    pub reference: Seq<char>,
}

impl View for Zettel {
    type V = ZonesView;

    open spec fn view(&self) -> ZonesView {
        ZonesView {
            frontmatter: self.raw_frontmatter@,
            body: self.body@,
            reference: self.reference_section@,
        }
    }
}

// ---------------------------------------------------------------------------
// Nodes, synchronisation, merging
// ---------------------------------------------------------------------------
#[derive(Debug, Clone, Copy, PartialEq, Eq, Structural)]
pub enum NodeStatus {
    Active,
    Stale,
    Retired,
}

impl Default for NodeStatus {
    fn default() -> (s: NodeStatus)
        ensures
            s == NodeStatus::Active,
    {
        NodeStatus::Active
    }
}

#[derive(Debug, Clone)]
pub struct NodeConfig {
    pub uuid: String,
    pub name: String,
    pub known_heads: Vec<String>,
    pub last_sync: Option<String>,
    /// The last time stamp, kept so that the clock goes on after a restart.
    pub hlc: Option<String>,
    pub status: NodeStatus,
    /// When the node was first registered.
    pub created: Option<String>,
}

#[derive(Debug, Clone)]
pub struct NodeInfo {
    pub uuid: String,
    pub name: String,
}

#[derive(Debug, Clone)]
pub struct SyncState {
    pub known_heads: Vec<String>,
    pub last_sync: Option<String>,
}

#[derive(Debug, Clone)]
pub struct SyncReport {
    pub direction: String,
    pub commits_transferred: usize,
    pub conflicts_resolved: usize,
    pub resurrected: usize,
}

/// A file that both sides of a merge changed.
#[derive(Debug, Clone)]
pub struct ConflictFile {
    pub path: String,
    pub ancestor: Option<String>,
    pub ours: String,
    pub theirs: String,
    /// The time stamp of the commit that our content comes from.
    pub ours_hlc: Option<Hlc>,
    /// The time stamp of the commit that their content comes from.
    pub theirs_hlc: Option<Hlc>,
}

#[derive(Debug, Clone, PartialEq, Eq)]
pub struct CommitHash(pub String);

impl CommitHash {
    /// The hash as it is shown.
    pub fn to_text(&self) -> (r: String)
        ensures
            r@ == self.0@,
    {
        text::copy(self.0.as_str())
    }
}

#[derive(Debug, Clone)]
pub enum MergeResult {
    AlreadyUpToDate,
    FastForward(CommitHash),
    Clean(CommitHash),
    Conflicts(Vec<ConflictFile>, CommitHash),
}

#[derive(Debug, Clone)]
pub struct ResolvedFile {
    pub path: String,
    pub content: String,
    pub fm_crdt_bytes: Option<Vec<u8>>,
}

#[derive(Debug, Clone)]
pub struct CompactOptions {
    pub force: bool,
    pub skip_backup: bool,
    pub backup_path: Option<String>,
}

impl Default for CompactOptions {
    fn default() -> (o: CompactOptions)
        ensures
            !o.force && !o.skip_backup && o.backup_path is None,
    {
        CompactOptions { force: false, skip_backup: false, backup_path: None }
    }
}

#[derive(Debug, Clone)]
pub struct CompactionReport {
    pub files_removed: usize,
    pub crdt_docs_compacted: usize,
    pub gc_success: bool,
    pub crdt_temp_bytes_before: u64,
    pub crdt_temp_bytes_after: u64,
    pub crdt_temp_files_before: usize,
    pub crdt_temp_files_after: usize,
    pub repo_bytes_before: u64,
    pub repo_bytes_after: u64,
    pub backup_path: Option<String>,
}

/// What happened to a file between two commits.
#[derive(Debug, Clone, Copy, PartialEq, Eq, Structural)]
pub enum DiffKind {
    Added,
    Modified,
    Deleted,
}

#[derive(Debug, Clone)]
pub struct BundleManifest {
    pub source_node: String,
    pub target_node: String,
    pub timestamp: String,
    pub format_version: u32,
}

// ---------------------------------------------------------------------------
// Tables
// ---------------------------------------------------------------------------
#[derive(Debug, Clone)]
pub struct ColumnDef {
    pub name: String,
    pub data_type: String,
    pub references: Option<String>,
    pub zone: Option<Zone>,
    pub required: bool,
    pub search_boost: Option<Real>,
    pub allowed_values: Option<Vec<String>>,
    pub default_value: Option<String>,
}

pub struct ColumnView {
    pub name: Seq<char>,
    pub data_type: Seq<char>,
    pub references: Option<Seq<char>>,
    pub zone: Option<Zone>,
    pub required: bool,
    pub search_boost: Option<RealView>,
    pub allowed_values: Option<Seq<Seq<char>>>,
    pub default_value: Option<Seq<char>>,
}

pub open spec fn opt_real(o: Option<Real>) -> Option<RealView> {
    match o {
        Some(r) => Some(r@),
        None => None,
    }
}

pub open spec fn opt_texts(o: Option<Vec<String>>) -> Option<Seq<Seq<char>>> {
    match o {
        Some(v) => Some(texts(v@)),
        None => None,
    }
}

impl View for ColumnDef {
    type V = ColumnView;

    open spec fn view(&self) -> ColumnView {
        ColumnView {
            name: self.name@,
            data_type: self.data_type@,
            references: opt_text(self.references),
            zone: self.zone,
            required: self.required,
            search_boost: opt_real(self.search_boost),
            allowed_values: opt_texts(self.allowed_values),
            default_value: opt_text(self.default_value),
        }
    }
}

pub open spec fn columns_view(s: Seq<ColumnDef>) -> Seq<ColumnView> {
    Seq::new(s.len(), |i: int| s[i]@)
}

impl ColumnDef {
    pub fn copy(&self) -> (r: ColumnDef)
        ensures
            r@ == self@,
    {
        ColumnDef {
            name: text::copy(self.name.as_str()),
            data_type: text::copy(self.data_type.as_str()),
            references: text::copy_opt(&self.references),
            zone: self.zone,
            required: self.required,
            search_boost: match &self.search_boost {
                Some(b) => Some(b.copy()),
                None => None,
            },
            allowed_values: match &self.allowed_values {
                Some(v) => Some(text::copy_all(v)),
                None => None,
            },
            default_value: text::copy_opt(&self.default_value),
        }
    }
}

pub fn copy_columns(v: &Vec<ColumnDef>) -> (r: Vec<ColumnDef>)
    ensures
        columns_view(r@) == columns_view(v@),
{
    let mut r: Vec<ColumnDef> = Vec::new();
    let mut i: usize = 0;
    while i < v.len()
        invariant
            i <= v@.len(),
            columns_view(r@) == columns_view(v@).take(i as int),
        decreases v@.len() - i,
    {
        let c = v[i].copy();
        let ghost before = r@;
        r.push(c);
        proof {
            assert(columns_view(r@) =~= columns_view(before).push(c@));
            assert(columns_view(v@).take(i + 1) =~= columns_view(v@).take(i as int).push(v@[i as int]@));
        }
        i = i + 1;
    }
    proof {
        assert(columns_view(v@).take(i as int) =~= columns_view(v@));
    }
    r
}

#[derive(Debug, Clone)]
pub struct TableSchema {
    pub table_name: String,
    pub columns: Vec<ColumnDef>,
    pub crdt_strategy: Option<String>,
    pub template_sections: Vec<String>,
}

pub struct SchemaView {
    pub table_name: Seq<char>,
    pub columns: Seq<ColumnView>,
    pub crdt_strategy: Option<Seq<char>>,
    pub template_sections: Seq<Seq<char>>,
}

impl View for TableSchema {
    type V = SchemaView;

    open spec fn view(&self) -> SchemaView {
        SchemaView {
            table_name: self.table_name@,
            columns: columns_view(self.columns@),
            crdt_strategy: opt_text(self.crdt_strategy),
            template_sections: texts(self.template_sections@),
        }
    }
}

impl TableSchema {
    pub fn copy(&self) -> (r: TableSchema)
        ensures
            r@ == self@,
    {
        TableSchema {
            table_name: text::copy(self.table_name.as_str()),
            columns: copy_columns(&self.columns),
            crdt_strategy: text::copy_opt(&self.crdt_strategy),
            template_sections: text::copy_all(&self.template_sections),
        }
    }
}

#[derive(Debug, Clone)]
pub enum ConsistencyWarning {
    MalformedYaml { path: String, error: String },
    CrossZoneDuplicate { path: String, key: String },
    MissingRequired { path: String, zettel_type: String, field: String },
}

pub enum WarningView {
    MalformedYaml { path: Seq<char>, error: Seq<char> },
    CrossZoneDuplicate { path: Seq<char>, key: Seq<char> },
    MissingRequired { path: Seq<char>, zettel_type: Seq<char>, field: Seq<char> },
}

impl View for ConsistencyWarning {
    type V = WarningView;

    open spec fn view(&self) -> WarningView {
        match *self {
            ConsistencyWarning::MalformedYaml { path, error } => WarningView::MalformedYaml {
                path: path@,
                error: error@,
            },
            ConsistencyWarning::CrossZoneDuplicate { path, key } => {
                WarningView::CrossZoneDuplicate { path: path@, key: key@ }
            },
            ConsistencyWarning::MissingRequired { path, zettel_type, field } => {
                WarningView::MissingRequired {
                    path: path@,
                    zettel_type: zettel_type@,
                    field: field@,
                }
            },
        }
    }
}

pub open spec fn warnings_view(s: Seq<ConsistencyWarning>) -> Seq<WarningView> {
    Seq::new(s.len(), |i: int| s[i]@)
}

#[derive(Debug, Clone)]
pub struct RebuildReport {
    pub indexed: usize,
    pub tables_materialized: usize,
    pub types_inferred: Vec<String>,
    pub warnings: Vec<ConsistencyWarning>,
}

impl Default for RebuildReport {
    fn default() -> (r: RebuildReport)
        ensures
            r.indexed == 0,
            r.tables_materialized == 0,
            r.types_inferred@.len() == 0,
            r.warnings@.len() == 0,
    {
        RebuildReport {
            indexed: 0,
            tables_materialized: 0,
            types_inferred: Vec::new(),
            warnings: Vec::new(),
        }
    }
}

#[derive(Debug, Clone)]
pub struct RenameReport {
    pub updated: Vec<String>,
    pub unresolvable: Vec<String>,
}

impl Default for RenameReport {
    fn default() -> (r: RenameReport)
        ensures
            r.updated@.len() == 0,
            r.unresolvable@.len() == 0,
    {
        RenameReport { updated: Vec::new(), unresolvable: Vec::new() }
    }
}

// ---------------------------------------------------------------------------
// Attachments
// ---------------------------------------------------------------------------
/// A file attached to a note, stored under `reference/{id}/`.
#[derive(Debug, Clone, PartialEq)]
pub struct AttachmentInfo {
    pub name: String,
    pub mime: String,
    pub size: u64,
    /// The path from the root of the repository.
    pub path: String,
}

pub struct AttachmentView {
    pub name: Seq<char>,
    pub mime: Seq<char>,
    pub size: u64,
    pub path: Seq<char>,
}

impl View for AttachmentInfo {
    type V = AttachmentView;

    open spec fn view(&self) -> AttachmentView {
        AttachmentView { name: self.name@, mime: self.mime@, size: self.size, path: self.path@ }
    }
}

pub open spec fn attachments_view(s: Seq<AttachmentInfo>) -> Seq<AttachmentView> {
    Seq::new(s.len(), |i: int| s[i]@)
}

/// The media type that belongs to a file extension in lower case.
pub open spec fn mime_of(ext: Seq<char>) -> Seq<char> {
    if ext == "jpg"@ || ext == "jpeg"@ {
        "image/jpeg"@
    } else if ext == "png"@ {
        "image/png"@
    } else if ext == "gif"@ {
        "image/gif"@
    } else if ext == "svg"@ {
        "image/svg+xml"@
    } else if ext == "webp"@ {
        "image/webp"@
    } else if ext == "bmp"@ {
        "image/bmp"@
    } else if ext == "ico"@ {
        "image/x-icon"@
    } else if ext == "pdf"@ {
        "application/pdf"@
    } else if ext == "json"@ {
        "application/json"@
    } else if ext == "xml"@ {
        "application/xml"@
    } else if ext == "zip"@ {
        "application/zip"@
    } else if ext == "gz"@ || ext == "gzip"@ {
        "application/gzip"@
    } else if ext == "tar"@ {
        "application/x-tar"@
    } else if ext == "txt"@ {
        "text/plain"@
    } else if ext == "md"@ {
        "text/markdown"@
    } else if ext == "html"@ || ext == "htm"@ {
        "text/html"@
    } else if ext == "css"@ {
        "text/css"@
    } else if ext == "csv"@ {
        "text/csv"@
    } else if ext == "js"@ {
        "text/javascript"@
    } else if ext == "mp3"@ {
        "audio/mpeg"@
    } else if ext == "wav"@ {
        "audio/wav"@
    } else if ext == "mp4"@ {
        "video/mp4"@
    } else if ext == "webm"@ {
        "video/webm"@
    } else if ext == "mov"@ {
        "video/quicktime"@
    } else {
        "application/octet-stream"@
    }
}

/// The extension of a file name: what follows its last dot; none where it has
/// no dot.
pub open spec fn extension_of(filename: Seq<char>) -> Option<Seq<char>> {
    let parts = text::split(filename, '.');
    if parts.len() > 1 {
        Some(parts.last())
    } else {
        None
    }
}

impl AttachmentInfo {
    /// The media type that a file name's extension stands for.
    pub fn mime_from_filename(filename: &str) -> (r: &'static str)
        ensures
            r@ == match extension_of(filename@) {
                Some(ext) => mime_of(text::ascii_lowered(ext)),
                None => "application/octet-stream"@,
            },
    {
        let parts = text::split_on(filename, '.');
        if parts.len() < 2 {
            return "application/octet-stream";
        }
        proof {
            text::lemma_split_nonempty(filename@, '.');
        }
        let lower = text::ascii_lower(parts[parts.len() - 1].as_str());
        let ext = lower.as_str();
        if text::same(ext, "jpg") || text::same(ext, "jpeg") {
            "image/jpeg"
        } else if text::same(ext, "png") {
            "image/png"
        } else if text::same(ext, "gif") {
            "image/gif"
        } else if text::same(ext, "svg") {
            "image/svg+xml"
        } else if text::same(ext, "webp") {
            "image/webp"
        } else if text::same(ext, "bmp") {
            "image/bmp"
        } else if text::same(ext, "ico") {
            "image/x-icon"
        } else if text::same(ext, "pdf") {
            "application/pdf"
        } else if text::same(ext, "json") {
            "application/json"
        } else if text::same(ext, "xml") {
            "application/xml"
        } else if text::same(ext, "zip") {
            "application/zip"
        } else if text::same(ext, "gz") || text::same(ext, "gzip") {
            "application/gzip"
        } else if text::same(ext, "tar") {
            "application/x-tar"
        } else if text::same(ext, "txt") {
            "text/plain"
        } else if text::same(ext, "md") {
            "text/markdown"
        } else if text::same(ext, "html") || text::same(ext, "htm") {
            "text/html"
        } else if text::same(ext, "css") {
            "text/css"
        } else if text::same(ext, "csv") {
            "text/csv"
        } else if text::same(ext, "js") {
            "text/javascript"
        } else if text::same(ext, "mp3") {
            "audio/mpeg"
        } else if text::same(ext, "wav") {
            "audio/wav"
        } else if text::same(ext, "mp4") {
            "video/mp4"
        } else if text::same(ext, "webm") {
            "video/webm"
        } else if text::same(ext, "mov") {
            "video/quicktime"
        } else {
            "application/octet-stream"
        }
    }
}

} // verus!
