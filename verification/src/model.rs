//! The vault's data model: tagged field values, entries, groups, the node
//! tree, and vault-level metadata, together with their mathematical views.

use vstd::prelude::*;

verus! {

/// Tells a group node from an entry node, in lookups and deletions.
#[derive(Clone, Copy, PartialEq, Eq, Structural, Debug)]
pub enum NodeKind {
    Group,
    Entry,
}

/// A tagged field value of an entry.
///
/// A `BinaryReference` holds an index into the vault-level attachment pool;
/// an out-of-range index is a non-fatal resolution failure.
#[derive(Debug, Clone)]
pub enum Value {
    PlainText(String),
    SensitiveText(Vec<u8>),
    InlineBinary(Vec<u8>),
    BinaryReference(usize),
}

/// One named field of an entry.
#[derive(Debug, Clone)]
pub struct Field {
    pub key: String,
    pub value: Value,
}

/// An entry node of the vault tree: an ordered mapping from field names to
/// values, plus an opaque one-time-password provisioning string.
#[derive(Debug, Clone)]
pub struct VaultEntry {
    pub uuid: String,
    pub fields: Vec<Field>,
    pub otp: Option<String>,
}

/// A group node of the vault tree: an ordered sequence of child nodes,
/// groups and entries interleaved in display order.
#[derive(Debug)]
pub struct VaultGroup {
    pub uuid: String,
    pub name: String,
    pub icon: Option<u32>,
    pub children: Vec<Node>,
}

/// A node of the vault tree.
#[derive(Debug)]
pub enum Node {
    Group(VaultGroup),
    Entry(VaultEntry),
}

/// The whole decrypted vault: the root group, the recycle-bin metadata and
/// the vault-level attachment pool.
#[derive(Debug)]
pub struct Vault {
    pub root: VaultGroup,
    pub recycle_bin_uuid: Option<String>,
    pub recycle_bin_enabled: Option<bool>,
    pub attachment_pool: Vec<Vec<u8>>,
}

// ---------------------------------------------------------------------------
// Mathematical views
// ---------------------------------------------------------------------------

#[verifier::ext_equal]
pub enum ValueView {
    PlainText(Seq<char>),
    SensitiveText(Seq<u8>),
    InlineBinary(Seq<u8>),
    BinaryReference(int),
}

#[verifier::ext_equal]
pub struct FieldView {
    pub key: Seq<char>,
    pub value: ValueView,
}

#[verifier::ext_equal]
pub struct EntryView {
    pub uuid: Seq<char>,
    pub fields: Seq<FieldView>,
    pub otp: Option<Seq<char>>,
}

#[verifier::ext_equal]
pub struct GroupView {
    pub uuid: Seq<char>,
    pub name: Seq<char>,
    pub icon: Option<u32>,
    pub children: Seq<NodeView>,
}

#[verifier::ext_equal]
pub enum NodeView {
    Group(GroupView),
    Entry(EntryView),
}

#[verifier::ext_equal]
pub struct VaultView {
    pub root: GroupView,
    pub recycle_bin_uuid: Option<Seq<char>>,
    pub recycle_bin_enabled: Option<bool>,
    pub pool: Seq<Seq<u8>>,
}

pub open spec fn value_view(v: Value) -> ValueView {
    match v {
        Value::PlainText(s) => ValueView::PlainText(s@),
        Value::SensitiveText(b) => ValueView::SensitiveText(b@),
        Value::InlineBinary(b) => ValueView::InlineBinary(b@),
        Value::BinaryReference(i) => ValueView::BinaryReference(i as int),
    }
}

pub open spec fn field_view(f: Field) -> FieldView {
    FieldView { key: f.key@, value: value_view(f.value) }
}

pub open spec fn fields_view(s: Seq<Field>) -> Seq<FieldView> {
    s.map_values(|f: Field| field_view(f))
}

pub open spec fn opt_string_view(o: Option<String>) -> Option<Seq<char>> {
    match o {
        Option::Some(s) => Option::Some(s@),
        Option::None => Option::None,
    }
}

pub open spec fn entry_view(e: VaultEntry) -> EntryView {
    EntryView { uuid: e.uuid@, fields: fields_view(e.fields@), otp: opt_string_view(e.otp) }
}

pub open spec fn group_view(g: VaultGroup) -> GroupView
    decreases g,
{
    GroupView { uuid: g.uuid@, name: g.name@, icon: g.icon, children: nodes_view(g.children@) }
}

pub open spec fn nodes_view(s: Seq<Node>) -> Seq<NodeView>
    decreases s,
{
    if s.len() == 0 {
        Seq::empty()
    } else {
        nodes_view(s.subrange(0, s.len() - 1)).push(node_view(s[s.len() - 1]))
    }
}

pub open spec fn node_view(n: Node) -> NodeView
    decreases n,
{
    match n {
        Node::Group(g) => NodeView::Group(group_view(g)),
        Node::Entry(e) => NodeView::Entry(entry_view(e)),
    }
}

pub open spec fn pool_view(s: Seq<Vec<u8>>) -> Seq<Seq<u8>> {
    s.map_values(|b: Vec<u8>| b@)
}

impl View for VaultEntry {
    type V = EntryView;

    open spec fn view(&self) -> EntryView {
        entry_view(*self)
    }
}

impl View for VaultGroup {
    type V = GroupView;

    open spec fn view(&self) -> GroupView {
        group_view(*self)
    }
}

impl View for Node {
    type V = NodeView;

    open spec fn view(&self) -> NodeView {
        node_view(*self)
    }
}

impl View for Vault {
    type V = VaultView;

    open spec fn view(&self) -> VaultView {
        VaultView {
            root: group_view(self.root),
            recycle_bin_uuid: opt_string_view(self.recycle_bin_uuid),
            recycle_bin_enabled: self.recycle_bin_enabled,
            pool: pool_view(self.attachment_pool@),
        }
    }
}

// ---------------------------------------------------------------------------
// Basic facts about the node-sequence view
// ---------------------------------------------------------------------------

pub broadcast proof fn lemma_nodes_view_len(s: Seq<Node>)
    ensures
        #[trigger] nodes_view(s).len() == s.len(),
    decreases s,
{
    if s.len() > 0 {
        lemma_nodes_view_len(s.subrange(0, s.len() - 1));
    }
}

pub broadcast proof fn lemma_nodes_view_index(s: Seq<Node>, i: int)
    requires
        0 <= i < s.len(),
    ensures
        #[trigger] nodes_view(s)[i] == node_view(s[i]),
    decreases s,
{
    lemma_nodes_view_len(s);
    if s.len() > 0 && i < s.len() - 1 {
        lemma_nodes_view_len(s.subrange(0, s.len() - 1));
        lemma_nodes_view_index(s.subrange(0, s.len() - 1), i);
    }
}

pub broadcast proof fn lemma_nodes_view_push(s: Seq<Node>, n: Node)
    ensures
        #[trigger] nodes_view(s.push(n)) == nodes_view(s).push(node_view(n)),
{
    assert(s.push(n).subrange(0, s.push(n).len() - 1) =~= s);
}


/// The size of a node's subtree, measured on views; it bounds the recursion
/// of every traversal.
pub open spec fn node_height(n: NodeView) -> nat
    decreases n,
{
    match n {
        NodeView::Group(g) => 1 + seq_height(g.children),
        NodeView::Entry(_) => 1,
    }
}

pub open spec fn seq_height(s: Seq<NodeView>) -> nat
    decreases s,
{
    if s.len() == 0 {
        0
    } else {
        node_height(s[0]) + seq_height(s.subrange(1, s.len() as int))
    }
}

pub proof fn lemma_seq_height_index(s: Seq<NodeView>, i: int)
    requires
        0 <= i < s.len(),
    ensures
        node_height(s[i]) <= seq_height(s),
    decreases s,
{
    if i > 0 {
        let rest = s.subrange(1, s.len() as int);
        lemma_seq_height_index(rest, i - 1);
    }
}

/// The uuid at a node's own root, before any of its descendants.
pub open spec fn node_uuid(n: NodeView) -> Seq<char> {
    match n {
        NodeView::Group(g) => g.uuid,
        NodeView::Entry(e) => e.uuid,
    }
}

pub open spec fn node_kind(n: NodeView) -> NodeKind {
    match n {
        NodeView::Group(_) => NodeKind::Group,
        NodeView::Entry(_) => NodeKind::Entry,
    }
}

/// Whether a node is itself the sought node: uuid and kind both match.
pub open spec fn node_matches(n: NodeView, u: Seq<char>, k: NodeKind) -> bool {
    node_uuid(n) == u && node_kind(n) == k
}


// ---------------------------------------------------------------------------
// Display-ready models, produced by the conversion layer
// ---------------------------------------------------------------------------

/// A resolved binary attachment: inline bytes, or pool bytes looked up
/// through a `BinaryReference`.
#[derive(Debug, Clone, PartialEq, Eq)]
pub struct Attachment {
    pub filename: String,
    pub _mime_type: Option<String>,
    pub data: Vec<u8>,
}

/// A display-ready entry: the five standard fields read with empty-string
/// defaults, the plain-text custom fields in entry order, and the resolved
/// attachments. Also serves as the draft handed to the mutation engine.
#[derive(Debug, Clone, PartialEq, Eq)]
pub struct Entry {
    pub uuid: String,
    pub title: String,
    pub username: String,
    pub password: String,
    pub url: String,
    pub notes: String,
    pub custom_fields: Vec<(String, String)>,
    pub otp: Option<String>,
    pub attachments: Vec<Attachment>,
}

/// A display-ready group: child groups and entries separated, each list in
/// document order.
#[derive(Debug)]
pub struct Group {
    pub uuid: String,
    pub name: String,
    pub children: Vec<Group>,
    pub entries: Vec<Entry>,
    pub is_recycle_bin: bool,
}

#[verifier::ext_equal]
pub struct AttachmentView {
    pub filename: Seq<char>,
    pub mime_type: Option<Seq<char>>,
    pub data: Seq<u8>,
}

#[verifier::ext_equal]
pub struct DisplayEntryView {
    pub uuid: Seq<char>,
    pub title: Seq<char>,
    pub username: Seq<char>,
    pub password: Seq<char>,
    pub url: Seq<char>,
    pub notes: Seq<char>,
    pub custom_fields: Seq<(Seq<char>, Seq<char>)>,
    pub otp: Option<Seq<char>>,
    pub attachments: Seq<AttachmentView>,
}

#[verifier::ext_equal]
pub struct DisplayGroupView {
    pub uuid: Seq<char>,
    pub name: Seq<char>,
    pub children: Seq<DisplayGroupView>,
    pub entries: Seq<DisplayEntryView>,
    pub is_recycle_bin: bool,
}

pub open spec fn attachment_view(a: Attachment) -> AttachmentView {
    AttachmentView { filename: a.filename@, mime_type: opt_string_view(a._mime_type), data: a.data@ }
}

pub open spec fn display_entry_view(e: Entry) -> DisplayEntryView {
    DisplayEntryView {
        uuid: e.uuid@,
        title: e.title@,
        username: e.username@,
        password: e.password@,
        url: e.url@,
        notes: e.notes@,
        custom_fields: e.custom_fields@.map_values(|p: (String, String)| (p.0@, p.1@)),
        otp: opt_string_view(e.otp),
        attachments: e.attachments@.map_values(|a: Attachment| attachment_view(a)),
    }
}

pub open spec fn display_group_view(g: Group) -> DisplayGroupView
    decreases g,
{
    DisplayGroupView {
        uuid: g.uuid@,
        name: g.name@,
        children: display_groups_view(g.children@),
        entries: g.entries@.map_values(|e: Entry| display_entry_view(e)),
        is_recycle_bin: g.is_recycle_bin,
    }
}

pub open spec fn display_groups_view(s: Seq<Group>) -> Seq<DisplayGroupView>
    decreases s,
{
    if s.len() == 0 {
        Seq::empty()
    } else {
        display_groups_view(s.subrange(0, s.len() - 1)).push(
            display_group_view(s[s.len() - 1]),
        )
    }
}

impl View for Entry {
    type V = DisplayEntryView;

    open spec fn view(&self) -> DisplayEntryView {
        display_entry_view(*self)
    }
}

impl View for Group {
    type V = DisplayGroupView;

    open spec fn view(&self) -> DisplayGroupView {
        display_group_view(*self)
    }
}

impl View for Attachment {
    type V = AttachmentView;

    open spec fn view(&self) -> AttachmentView {
        attachment_view(*self)
    }
}

pub broadcast proof fn lemma_display_groups_view_len(s: Seq<Group>)
    ensures
        #[trigger] display_groups_view(s).len() == s.len(),
    decreases s,
{
    if s.len() > 0 {
        lemma_display_groups_view_len(s.subrange(0, s.len() - 1));
    }
}

pub broadcast proof fn lemma_display_groups_view_push(s: Seq<Group>, g: Group)
    ensures
        #[trigger] display_groups_view(s.push(g)) == display_groups_view(s).push(
            display_group_view(g),
        ),
{
    assert(s.push(g).subrange(0, s.push(g).len() - 1) =~= s);
}

pub broadcast proof fn lemma_display_groups_view_index(s: Seq<Group>, i: int)
    requires
        0 <= i < s.len(),
    ensures
        #[trigger] display_groups_view(s)[i] == display_group_view(s[i]),
    decreases s,
{
    lemma_display_groups_view_len(s);
    if s.len() > 0 && i < s.len() - 1 {
        lemma_display_groups_view_len(s.subrange(0, s.len() - 1));
        lemma_display_groups_view_index(s.subrange(0, s.len() - 1), i);
    }
}

impl Entry {
    /// An empty draft for new-entry creation.
    pub fn new() -> (e: Entry)
        ensures
            e@.uuid.len() == 0,
            e@.title.len() == 0,
            e@.username.len() == 0,
            e@.password.len() == 0,
            e@.url.len() == 0,
            e@.notes.len() == 0,
            e@.custom_fields.len() == 0,
            e@.otp is None,
            e@.attachments.len() == 0,
    {
        Entry {
            uuid: String::new(),
            title: String::new(),
            username: String::new(),
            password: String::new(),
            url: String::new(),
            notes: String::new(),
            custom_fields: Vec::new(),
            otp: None,
            attachments: Vec::new(),
        }
    }
}

impl Default for Entry {
    fn default() -> (e: Entry)
        ensures
            e@.uuid.len() == 0,
            e@.title.len() == 0,
            e@.username.len() == 0,
            e@.password.len() == 0,
            e@.url.len() == 0,
            e@.notes.len() == 0,
            e@.custom_fields.len() == 0,
            e@.otp is None,
            e@.attachments.len() == 0,
    {
        Entry::new()
    }
}

// ---------------------------------------------------------------------------
// Reserved field keys and errors
// ---------------------------------------------------------------------------

/// The five reserved field keys, compared case-sensitively; every other key
/// names a custom field.
pub open spec fn is_reserved_key(k: Seq<char>) -> bool {
    k == "Title"@ || k == "UserName"@ || k == "Password"@ || k == "URL"@ || k == "Notes"@
}

/// The error taxonomy of the store.
#[derive(Debug, Clone, PartialEq, Eq)]
pub enum VaultError {
    /// A lookup, update or delete target was absent.
    NotFound { uuid: String, kind: NodeKind },
    /// Bad credentials on open.
    AuthenticationFailed,
    /// An attachment reference pointed outside the pool; non-fatal.
    InvalidAttachmentReference,
    /// An attempt to recycle the recycle bin itself.
    GuardViolation,
    /// A read, write, sync or rename failed.
    IoError,
    /// Shared or exclusive access to the vault could not be obtained.
    LockContention,
}

} // verus!
