//! The conversion layer: maps raw field maps and attachment references into
//! display-ready entries and groups, resolving inline and pooled
//! attachments, and builds the raw field list that a draft stands for.

use vstd::prelude::*;
use vstd::utf8::{valid_utf8, decode_utf8, encode_utf8};
use vstd::string::{StringExecFns, StrSliceExecFns};
use crate::model::{
    Node, NodeView, GroupView, EntryView, FieldView, ValueView, VaultGroup, VaultEntry,
    Field, Value, Entry, Group, Attachment, AttachmentView, DisplayEntryView, DisplayGroupView,
    field_view, fields_view, entry_view, nodes_view,
    opt_string_view, pool_view, is_reserved_key, attachment_view, display_entry_view,
    lemma_nodes_view_len, lemma_nodes_view_index,
};
use crate::mutation::clone_bytes;

verus! {

// ---------------------------------------------------------------------------
// Trusted decoding of sensitive byte buffers
// ---------------------------------------------------------------------------

/// Relies on `String::from_utf8`: it returns `Ok` exactly on valid UTF-8,
/// decoding it to the character sequence the encoding stands for.
#[verifier::external_body]
fn bytes_to_text(b: &Vec<u8>) -> (r: Option<String>)
    ensures
        match r {
            Option::Some(t) => valid_utf8(b@) && t@ == decode_utf8(b@),
            Option::None => !valid_utf8(b@),
        },
{
    String::from_utf8(b.clone()).ok()
}

// ---------------------------------------------------------------------------
// Specification: reading a field map
// ---------------------------------------------------------------------------

/// The value under `key`, at its first occurrence.
pub open spec fn lookup_field(s: Seq<FieldView>, key: Seq<char>) -> Option<ValueView>
    decreases s,
{
    if s.len() == 0 {
        Option::None
    } else if s[0].key == key {
        Option::Some(s[0].value)
    } else {
        lookup_field(s.subrange(1, s.len() as int), key)
    }
}

/// The text a stored value yields: plain text itself, a sensitive buffer
/// through UTF-8 decoding, and the empty string otherwise.
pub open spec fn text_of_value(v: ValueView) -> Seq<char> {
    match v {
        ValueView::PlainText(s) => s,
        ValueView::SensitiveText(b) => if valid_utf8(b) {
            decode_utf8(b)
        } else {
            Seq::empty()
        },
        ValueView::InlineBinary(_) => Seq::empty(),
        ValueView::BinaryReference(_) => Seq::empty(),
    }
}

/// A standard field accessor: the field's text, with an empty-string
/// default when the key is absent.
pub open spec fn std_field(s: Seq<FieldView>, key: Seq<char>) -> Seq<char> {
    match lookup_field(s, key) {
        Option::Some(v) => text_of_value(v),
        Option::None => Seq::empty(),
    }
}

/// The plain-text custom fields, in entry order: every non-reserved key
/// whose value is plain text.
pub open spec fn customs_of(s: Seq<FieldView>) -> Seq<(Seq<char>, Seq<char>)>
    decreases s,
{
    if s.len() == 0 {
        Seq::empty()
    } else {
        let rest = customs_of(s.subrange(1, s.len() as int));
        if !is_reserved_key(s[0].key) {
            match s[0].value {
                ValueView::PlainText(t) => seq![(s[0].key, t)] + rest,
                _ => rest,
            }
        } else {
            rest
        }
    }
}

/// The resolved attachments, in entry order: inline binaries as they are,
/// binary references through the pool; an out-of-range reference is a
/// non-fatal resolution failure and is skipped.
pub open spec fn attachments_of(s: Seq<FieldView>, pool: Seq<Seq<u8>>) -> Seq<AttachmentView>
    decreases s,
{
    if s.len() == 0 {
        Seq::empty()
    } else {
        let rest = attachments_of(s.subrange(1, s.len() as int), pool);
        if !is_reserved_key(s[0].key) {
            match s[0].value {
                ValueView::InlineBinary(b) => seq![
                    AttachmentView { filename: s[0].key, mime_type: Option::None, data: b },
                ] + rest,
                ValueView::BinaryReference(ix) => if 0 <= ix < pool.len() {
                    seq![
                        AttachmentView {
                            filename: s[0].key,
                            mime_type: Option::None,
                            data: pool[ix],
                        },
                    ] + rest
                } else {
                    rest
                },
                _ => rest,
            }
        } else {
            rest
        }
    }
}

/// The display-ready reading of a raw entry against an attachment pool.
pub open spec fn entry_to_display(e: EntryView, pool: Seq<Seq<u8>>) -> DisplayEntryView {
    DisplayEntryView {
        uuid: e.uuid,
        title: std_field(e.fields, "Title"@),
        username: std_field(e.fields, "UserName"@),
        password: std_field(e.fields, "Password"@),
        url: std_field(e.fields, "URL"@),
        notes: std_field(e.fields, "Notes"@),
        custom_fields: customs_of(e.fields),
        otp: e.otp,
        attachments: attachments_of(e.fields, pool),
    }
}

/// The display-ready reading of a whole subtree: child groups and entries
/// separated, each in document order.
pub open spec fn group_to_display(g: GroupView, pool: Seq<Seq<u8>>, bin: Option<Seq<char>>)
    -> DisplayGroupView
    decreases g,
{
    DisplayGroupView {
        uuid: g.uuid,
        name: g.name,
        children: child_groups_to_display(g.children, pool, bin),
        entries: child_entries_to_display(g.children, pool),
        is_recycle_bin: bin == Option::Some(g.uuid),
    }
}

pub open spec fn child_groups_to_display(
    s: Seq<NodeView>,
    pool: Seq<Seq<u8>>,
    bin: Option<Seq<char>>,
) -> Seq<DisplayGroupView>
    decreases s,
{
    if s.len() == 0 {
        Seq::empty()
    } else {
        let rest = child_groups_to_display(s.subrange(1, s.len() as int), pool, bin);
        match s[0] {
            NodeView::Group(g0) => seq![group_to_display(g0, pool, bin)] + rest,
            NodeView::Entry(_) => rest,
        }
    }
}

pub open spec fn child_entries_to_display(s: Seq<NodeView>, pool: Seq<Seq<u8>>) -> Seq<
    DisplayEntryView,
>
    decreases s,
{
    if s.len() == 0 {
        Seq::empty()
    } else {
        let rest = child_entries_to_display(s.subrange(1, s.len() as int), pool);
        match s[0] {
            NodeView::Entry(e0) => seq![entry_to_display(e0, pool)] + rest,
            NodeView::Group(_) => rest,
        }
    }
}

// ---------------------------------------------------------------------------
// Specification: the raw fields a draft stands for
// ---------------------------------------------------------------------------

/// The field list written for a draft: the five standard fields, the
/// password as a sensitive UTF-8 buffer, then the custom fields as plain
/// text, in draft order.
pub open spec fn draft_fields(d: DisplayEntryView) -> Seq<FieldView> {
    seq![
        FieldView { key: "Title"@, value: ValueView::PlainText(d.title) },
        FieldView { key: "UserName"@, value: ValueView::PlainText(d.username) },
        FieldView { key: "Password"@, value: ValueView::SensitiveText(encode_utf8(d.password)) },
        FieldView { key: "URL"@, value: ValueView::PlainText(d.url) },
        FieldView { key: "Notes"@, value: ValueView::PlainText(d.notes) },
    ] + d.custom_fields.map_values(
        |p: (Seq<char>, Seq<char>)| FieldView { key: p.0, value: ValueView::PlainText(p.1) },
    )
}

// ---------------------------------------------------------------------------
// Executable conversion
// ---------------------------------------------------------------------------

/// Reads one standard field as text, with an empty-string default.
fn get_field_text(fields: &Vec<Field>, key: &String) -> (r: String)
    ensures
        r@ == std_field(fields_view(fields@), key@),
{
    let ghost all = fields_view(fields@);
    let n = fields.len();
    let mut i: usize = 0;
    while i < n
        invariant
            0 <= i <= n,
            n == fields.len(),
            all == fields_view(fields@),
            all.len() == n,
            forall|j: int| 0 <= j < i ==> (#[trigger] all[j]).key != key@,
        decreases n - i,
    {
        proof {
            assert(all[i as int] == field_view(fields@[i as int]));
        }
        if fields[i].key == *key {
            proof {
                lemma_lookup_field_skip(all, i as int, key@);
                let suf = all.subrange(i as int, n as int);
                assert(suf[0] == all[i as int]);
            }
            let r = match &fields[i].value {
                Value::PlainText(s) => s.clone(),
                Value::SensitiveText(b) => {
                    match bytes_to_text(b) {
                        Some(t) => t,
                        None => String::new(),
                    }
                },
                Value::InlineBinary(_) => String::new(),
                Value::BinaryReference(_) => String::new(),
            };
            return r;
        }
        i = i + 1;
    }
    proof {
        lemma_lookup_field_skip(all, n as int, key@);
        assert(all.subrange(n as int, n as int) =~= Seq::<FieldView>::empty());
    }
    String::new()
}

proof fn lemma_lookup_field_skip(s: Seq<FieldView>, j: int, key: Seq<char>)
    requires
        0 <= j <= s.len(),
        forall|i: int| 0 <= i < j ==> (#[trigger] s[i]).key != key,
    ensures
        lookup_field(s, key) == lookup_field(s.subrange(j, s.len() as int), key),
    decreases j,
{
    if j > 0 {
        let rest = s.subrange(1, s.len() as int);
        assert(forall|i: int| 0 <= i < j - 1 ==> (#[trigger] rest[i]).key != key);
        lemma_lookup_field_skip(rest, j - 1, key);
        assert(rest.subrange(j - 1, rest.len() as int) =~= s.subrange(j, s.len() as int));
    } else {
        assert(s.subrange(0, s.len() as int) =~= s);
    }
}

/// Whether a key is one of the five reserved ones.
fn is_reserved(key: &String) -> (r: bool)
    ensures
        r == is_reserved_key(key@),
{
    let t = String::from_str("Title");
    let un = String::from_str("UserName");
    let pw = String::from_str("Password");
    let ur = String::from_str("URL");
    let no = String::from_str("Notes");
    *key == t || *key == un || *key == pw || *key == ur || *key == no
}

/// Converts a raw entry into its display-ready form, resolving attachments
/// against the vault-level pool.
pub fn convert_entry(e: &VaultEntry, pool: &Vec<Vec<u8>>) -> (r: Entry)
    ensures
        r@ == entry_to_display(e@, pool_view(pool@)),
{
    let ghost all = fields_view(e.fields@);
    let ghost pv = pool_view(pool@);
    let title_key = String::from_str("Title");
    let username_key = String::from_str("UserName");
    let password_key = String::from_str("Password");
    let url_key = String::from_str("URL");
    let notes_key = String::from_str("Notes");
    let title = get_field_text(&e.fields, &title_key);
    let username = get_field_text(&e.fields, &username_key);
    let password = get_field_text(&e.fields, &password_key);
    let url = get_field_text(&e.fields, &url_key);
    let notes = get_field_text(&e.fields, &notes_key);

    let mut customs: Vec<(String, String)> = Vec::new();
    let mut attachments: Vec<Attachment> = Vec::new();
    let n = e.fields.len();
    let mut i: usize = 0;
    proof {
        assert(all.subrange(0, n as int) =~= all);
    }
    while i < n
        invariant
            0 <= i <= n,
            n == e.fields.len(),
            all == fields_view(e.fields@),
            all.len() == n,
            pv == pool_view(pool@),
            customs_of(all) == customs@.map_values(|p: (String, String)| (p.0@, p.1@))
                + customs_of(all.subrange(i as int, n as int)),
            attachments_of(all, pv) == attachments@.map_values(|a: Attachment| attachment_view(a))
                + attachments_of(all.subrange(i as int, n as int), pv),
        decreases n - i,
    {
        proof {
            assert(all[i as int] == field_view(e.fields@[i as int]));
            let suf = all.subrange(i as int, n as int);
            assert(suf[0] == all[i as int]);
            assert(suf.subrange(1, suf.len() as int) =~= all.subrange(i + 1, n as int));
        }
        let ghost cbefore = customs@;
        let ghost abefore = attachments@;
        let f = &e.fields[i];
        if !is_reserved(&f.key) {
            match &f.value {
                Value::PlainText(t) => {
                    customs.push((f.key.clone(), t.clone()));
                },
                Value::InlineBinary(b) => {
                    attachments.push(
                        Attachment {
                            filename: f.key.clone(),
                            _mime_type: None,
                            data: clone_bytes(b),
                        },
                    );
                },
                Value::BinaryReference(ix) => {
                    if *ix < pool.len() {
                        attachments.push(
                            Attachment {
                                filename: f.key.clone(),
                                _mime_type: None,
                                data: clone_bytes(&pool[*ix]),
                            },
                        );
                    }
                },
                Value::SensitiveText(_) => {},
            }
        }
        proof {
            assert(customs@.map_values(|p: (String, String)| (p.0@, p.1@)) =~= cbefore.map_values(
                |p: (String, String)| (p.0@, p.1@),
            ) + customs@.map_values(|p: (String, String)| (p.0@, p.1@)).subrange(
                cbefore.len() as int,
                customs@.len() as int,
            ));
            assert(attachments@.map_values(|a: Attachment| attachment_view(a))
                =~= abefore.map_values(|a: Attachment| attachment_view(a)) + attachments@.map_values(
                |a: Attachment| attachment_view(a),
            ).subrange(abefore.len() as int, attachments@.len() as int));
        }
        i = i + 1;
    }
    proof {
        assert(all.subrange(n as int, n as int) =~= Seq::<FieldView>::empty());
        assert(customs_of(all) =~= customs@.map_values(|p: (String, String)| (p.0@, p.1@)));
        assert(attachments_of(all, pv) =~= attachments@.map_values(
            |a: Attachment| attachment_view(a),
        ));
    }
    let otp = match &e.otp {
        Some(o) => Some(o.clone()),
        None => None,
    };
    let r = Entry {
        uuid: e.uuid.clone(),
        title,
        username,
        password,
        url,
        notes,
        custom_fields: customs,
        otp,
        attachments,
    };
    proof {
        assert(r@ =~= entry_to_display(e@, pv));
    }
    r
}

/// Resolves a sensitive field to plain text on demand; fields of any other
/// variant, absent keys, and buffers that are not valid UTF-8 yield `None`.
pub fn resolve_sensitive(e: &VaultEntry, key: &String) -> (r: Option<String>)
    ensures
        match lookup_field(entry_view(*e).fields, key@) {
            Option::Some(v) => match v {
                ValueView::SensitiveText(b) => (valid_utf8(b) ==> (r matches Option::Some(t)
                    && t@ == decode_utf8(b))) && (!valid_utf8(b) ==> r is None),
                _ => r is None,
            },
            Option::None => r is None,
        },
{
    let ghost all = fields_view(e.fields@);
    let n = e.fields.len();
    let mut i: usize = 0;
    while i < n
        invariant
            0 <= i <= n,
            n == e.fields.len(),
            all == fields_view(e.fields@),
            all.len() == n,
            forall|j: int| 0 <= j < i ==> (#[trigger] all[j]).key != key@,
        decreases n - i,
    {
        proof {
            assert(all[i as int] == field_view(e.fields@[i as int]));
        }
        if e.fields[i].key == *key {
            proof {
                lemma_lookup_field_skip(all, i as int, key@);
                let suf = all.subrange(i as int, n as int);
                assert(suf[0] == all[i as int]);
            }
            let r = match &e.fields[i].value {
                Value::SensitiveText(b) => bytes_to_text(b),
                _ => None,
            };
            return r;
        }
        i = i + 1;
    }
    proof {
        lemma_lookup_field_skip(all, n as int, key@);
        assert(all.subrange(n as int, n as int) =~= Seq::<FieldView>::empty());
    }
    None
}

/// Converts a whole subtree into its display-ready form.
pub fn convert_group(g: &VaultGroup, pool: &Vec<Vec<u8>>, bin: &Option<String>) -> (r: Group)
    ensures
        r@ == group_to_display(g@, pool_view(pool@), opt_string_view(*bin)),
    decreases *g,
{
    broadcast use lemma_nodes_view_len, lemma_nodes_view_index;

    let ghost all = nodes_view(g.children@);
    let ghost pv = pool_view(pool@);
    let ghost binv = opt_string_view(*bin);
    let mut groups: Vec<Group> = Vec::new();
    let mut entries: Vec<Entry> = Vec::new();
    let n = g.children.len();
    let mut i: usize = 0;
    proof {
        assert(all.subrange(0, n as int) =~= all);
    }
    while i < n
        invariant
            0 <= i <= n,
            n == g.children.len(),
            all == nodes_view(g.children@),
            all.len() == n,
            pv == pool_view(pool@),
            binv == opt_string_view(*bin),
            child_groups_to_display(all, pv, binv) == crate::model::display_groups_view(groups@)
                + child_groups_to_display(all.subrange(i as int, n as int), pv, binv),
            child_entries_to_display(all, pv) == entries@.map_values(
                |e: Entry| display_entry_view(e),
            ) + child_entries_to_display(all.subrange(i as int, n as int), pv),
        decreases n - i,
    {
        broadcast use lemma_nodes_view_len, lemma_nodes_view_index,
            crate::model::lemma_display_groups_view_len,
            crate::model::lemma_display_groups_view_index;

        proof {
            let suf = all.subrange(i as int, n as int);
            assert(suf[0] == all[i as int]);
            assert(suf.subrange(1, suf.len() as int) =~= all.subrange(i + 1, n as int));
        }
        let ghost gbefore = groups@;
        let ghost ebefore = entries@;
        match &g.children[i] {
            Node::Group(cg) => {
                let dg = convert_group(cg, pool, bin);
                groups.push(dg);
                proof {
                    crate::model::lemma_display_groups_view_push(gbefore, dg);
                }
            },
            Node::Entry(ce) => {
                let de = convert_entry(ce, pool);
                entries.push(de);
                proof {
                    assert(entries@.map_values(|e: Entry| display_entry_view(e))
                        =~= ebefore.map_values(|e: Entry| display_entry_view(e)).push(
                        display_entry_view(de),
                    ));
                }
            },
        }
        i = i + 1;
    }
    proof {
        assert(all.subrange(n as int, n as int) =~= Seq::<NodeView>::empty());
        assert(child_groups_to_display(all, pv, binv) =~= crate::model::display_groups_view(
            groups@,
        ));
        assert(child_entries_to_display(all, pv) =~= entries@.map_values(
            |e: Entry| display_entry_view(e),
        ));
    }
    let is_bin = match bin {
        Some(b) => g.uuid == *b,
        None => false,
    };
    let r = Group { uuid: g.uuid.clone(), name: g.name.clone(), children: groups, entries, is_recycle_bin: is_bin };
    proof {
        assert(r@ =~= group_to_display(g@, pv, binv));
    }
    r
}

/// Builds the raw field list a draft stands for: the five standard fields,
/// then the customs as plain text, in draft order.
pub fn build_draft_fields(d: &Entry) -> (r: Vec<Field>)
    ensures
        fields_view(r@) == draft_fields(d@),
{
    let ghost dv = display_entry_view(*d);
    let mut r: Vec<Field> = Vec::new();
    r.push(Field { key: String::from_str("Title"), value: Value::PlainText(d.title.clone()) });
    r.push(
        Field { key: String::from_str("UserName"), value: Value::PlainText(d.username.clone()) },
    );
    r.push(
        Field {
            key: String::from_str("Password"),
            value: Value::SensitiveText(d.password.as_str().as_bytes_vec()),
        },
    );
    r.push(Field { key: String::from_str("URL"), value: Value::PlainText(d.url.clone()) });
    r.push(Field { key: String::from_str("Notes"), value: Value::PlainText(d.notes.clone()) });
    let ghost head = fields_view(r@);
    proof {
        assert(head =~= draft_fields(dv).subrange(0, 5));
    }
    let n = d.custom_fields.len();
    let mut i: usize = 0;
    while i < n
        invariant
            0 <= i <= n,
            n == d.custom_fields.len(),
            dv == display_entry_view(*d),
            dv.custom_fields.len() == n,
            fields_view(r@) == draft_fields(dv).subrange(0, 5 + i as int),
            draft_fields(dv).len() == 5 + n,
        decreases n - i,
    {
        let ghost before = fields_view(r@);
        let p = &d.custom_fields[i];
        r.push(Field { key: p.0.clone(), value: Value::PlainText(p.1.clone()) });
        proof {
            let pr = d.custom_fields@[i as int];
            assert(dv.custom_fields[i as int] == (pr.0@, pr.1@));
            assert(draft_fields(dv)[5 + i as int] == (FieldView {
                key: dv.custom_fields[i as int].0,
                value: ValueView::PlainText(dv.custom_fields[i as int].1),
            }));
            assert(fields_view(r@) =~= before.push(draft_fields(dv)[5 + i as int]));
            assert(fields_view(r@) =~= draft_fields(dv).subrange(0, 5 + i + 1));
        }
        i = i + 1;
    }
    proof {
        assert(draft_fields(dv).subrange(0, 5 + n as int) =~= draft_fields(dv));
    }
    r
}

} // verus!
