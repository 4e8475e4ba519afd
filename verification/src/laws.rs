//! The store's laws: proofs that relate several operations, stated over the
//! same views and specification functions the operations' own contracts
//! use.

use vstd::prelude::*;
use vstd::utf8::{valid_utf8, decode_utf8, encode_utf8};
use crate::model::{
    NodeKind, NodeView, GroupView, EntryView, FieldView, ValueView, VaultView, DisplayEntryView,
    AttachmentView, node_matches, node_uuid, is_reserved_key,
};
use crate::navigator::{
    find_in, seq_find_in, contains_uuid, seq_contains_uuid, under_group, seq_under_group,
    count_uuid, seq_count_uuid, child_of, seq_child_of, group_in, wf_tree,
    lemma_contains_find_some, lemma_seq_contains_find_some, lemma_seq_find_in_matches,
    lemma_seq_find_in_append,
};
use crate::mutation::{
    insert_under_group, seq_insert_under, seq_remove_first, node_removed, node_cleared,
    seq_clear_group,
};
use crate::convert::{
    entry_to_display, draft_fields, customs_of, attachments_of, lookup_field,
};
use crate::vault::{
    recycle_ok, ensure_bin_root, bin_group_view, empty_bin_transition, inside_recycle_bin,
};

verus! {

// ---------------------------------------------------------------------------
// Emptying the recycle bin is idempotent
// ---------------------------------------------------------------------------

proof fn lemma_node_cleared_still_has(n: NodeView, b: Seq<char>)
    requires
        find_in(n, b, NodeKind::Group) is Some,
    ensures
        find_in(node_cleared(n, b), b, NodeKind::Group) is Some,
    decreases n,
{
    match n {
        NodeView::Group(g) => {
            if g.uuid != b {
                lemma_seq_cleared_still_has(g.children, b);
            }
        },
        NodeView::Entry(_) => {},
    }
}

proof fn lemma_seq_cleared_still_has(s: Seq<NodeView>, b: Seq<char>)
    requires
        seq_find_in(s, b, NodeKind::Group) is Some,
    ensures
        seq_find_in(seq_clear_group(s, b), b, NodeKind::Group) is Some,
    decreases s,
{
    let rest = s.subrange(1, s.len() as int);
    if find_in(s[0], b, NodeKind::Group) is Some {
        lemma_node_cleared_still_has(s[0], b);
        let ns = seq![node_cleared(s[0], b)] + rest;
        assert(seq_clear_group(s, b) == ns);
        assert(ns[0] == node_cleared(s[0], b));
    } else {
        lemma_seq_cleared_still_has(rest, b);
        let ns = seq![s[0]] + seq_clear_group(rest, b);
        assert(seq_clear_group(s, b) == ns);
        assert(ns[0] == s[0]);
        assert(ns.subrange(1, ns.len() as int) =~= seq_clear_group(rest, b));
    }
}

proof fn lemma_node_cleared_idempotent(n: NodeView, b: Seq<char>)
    ensures
        node_cleared(node_cleared(n, b), b) == node_cleared(n, b),
    decreases n,
{
    match n {
        NodeView::Group(g) => {
            if g.uuid != b {
                lemma_seq_clear_idempotent(g.children, b);
            }
        },
        NodeView::Entry(_) => {},
    }
}

proof fn lemma_seq_clear_idempotent(s: Seq<NodeView>, b: Seq<char>)
    ensures
        seq_clear_group(seq_clear_group(s, b), b) == seq_clear_group(s, b),
    decreases s,
{
    if s.len() > 0 {
        let rest = s.subrange(1, s.len() as int);
        if find_in(s[0], b, NodeKind::Group) is Some {
            let h = node_cleared(s[0], b);
            let ns = seq![h] + rest;
            assert(seq_clear_group(s, b) == ns);
            lemma_node_cleared_still_has(s[0], b);
            lemma_node_cleared_idempotent(s[0], b);
            assert(ns[0] == h);
            assert(ns.subrange(1, ns.len() as int) =~= rest);
            assert(seq_clear_group(ns, b) == seq![node_cleared(h, b)] + rest);
            assert(seq![node_cleared(h, b)] + rest =~= ns);
        } else {
            let ns = seq![s[0]] + seq_clear_group(rest, b);
            assert(seq_clear_group(s, b) == ns);
            lemma_seq_clear_idempotent(rest, b);
            assert(ns[0] == s[0]);
            assert(ns.subrange(1, ns.len() as int) =~= seq_clear_group(rest, b));
            assert(seq_clear_group(ns, b) == seq![s[0]] + seq_clear_group(
                seq_clear_group(rest, b),
                b,
            ));
        }
    }
}

/// Law: emptying the recycle bin twice in succession succeeds both times —
/// each call's contract already owes success unconditionally — and the
/// second call changes nothing.
pub proof fn lemma_empty_recycle_bin_idempotent(v1: VaultView, v2: VaultView, v3: VaultView)
    requires
        empty_bin_transition(v1, v2),
        empty_bin_transition(v2, v3),
    ensures
        v3 == v2,
{
    match v1.recycle_bin_uuid {
        Option::Some(b) => {
            lemma_seq_clear_idempotent(v1.root.children, b);
            assert(v3 =~= v2);
        },
        Option::None => {
            assert(v3 =~= v2);
        },
    }
}

// ---------------------------------------------------------------------------
// A freshly added entry is found again, with the draft's fields
// ---------------------------------------------------------------------------

proof fn lemma_insert_fresh_found_group(root: GroupView, p: Seq<char>, e: EntryView)
    requires
        group_in(NodeView::Group(root), p),
        !contains_uuid(NodeView::Group(root), e.uuid),
    ensures
        seq_find_in(
            insert_under_group(root, p, NodeView::Entry(e)).children,
            e.uuid,
            NodeKind::Entry,
        ) == Option::Some(NodeView::Entry(e)),
    decreases root,
{
    let nn = NodeView::Entry(e);
    if root.uuid == p {
        lemma_seq_contains_find_some(root.children, e.uuid);
        assert(seq_find_in(root.children, e.uuid, NodeKind::Entry) is None);
        lemma_seq_find_in_append(root.children, seq![nn], e.uuid, NodeKind::Entry);
        assert(root.children.push(nn) =~= root.children + seq![nn]);
        assert(node_matches(nn, e.uuid, NodeKind::Entry));
        assert(seq![nn].len() == 1 && seq![nn][0] == nn);
        assert(find_in(nn, e.uuid, NodeKind::Entry) == Option::Some(nn));
        assert(seq_find_in(seq![nn], e.uuid, NodeKind::Entry) == Option::Some(nn));
    } else {
        lemma_insert_fresh_found_seq(root.children, p, e);
    }
}

proof fn lemma_insert_fresh_found_seq(s: Seq<NodeView>, p: Seq<char>, e: EntryView)
    requires
        seq_find_in(s, p, NodeKind::Group) is Some,
        !seq_contains_uuid(s, e.uuid),
    ensures
        seq_find_in(
            seq_insert_under(s, p, NodeView::Entry(e)),
            e.uuid,
            NodeKind::Entry,
        ) == Option::Some(NodeView::Entry(e)),
    decreases s,
{
    let nn = NodeView::Entry(e);
    let rest = s.subrange(1, s.len() as int);
    if group_in(s[0], p) {
        match s[0] {
            NodeView::Group(g0) => {
                lemma_insert_fresh_found_group(g0, p, e);
                let h = NodeView::Group(insert_under_group(g0, p, nn));
                let ns = seq![h] + rest;
                assert(seq_insert_under(s, p, nn) == ns);
                assert(ns[0] == h);
                assert(!node_matches(h, e.uuid, NodeKind::Entry));
                assert(find_in(h, e.uuid, NodeKind::Entry) == Option::Some(nn));
            },
            NodeView::Entry(_) => {
                assert(false);
            },
        }
    } else {
        lemma_insert_fresh_found_seq(rest, p, e);
        let ns = seq![s[0]] + seq_insert_under(rest, p, nn);
        assert(seq_insert_under(s, p, nn) == ns);
        assert(ns[0] == s[0]);
        lemma_contains_find_some(s[0], e.uuid);
        assert(find_in(s[0], e.uuid, NodeKind::Entry) is None);
        assert(ns.subrange(1, ns.len() as int) =~= seq_insert_under(rest, p, nn));
    }
}

proof fn lemma_customs_of_plain(cs: Seq<(Seq<char>, Seq<char>)>, pool: Seq<Seq<u8>>)
    requires
        forall|i: int| 0 <= i < cs.len() ==> !is_reserved_key((#[trigger] cs[i]).0),
    ensures
        customs_of(
            cs.map_values(
                |q: (Seq<char>, Seq<char>)| FieldView { key: q.0, value: ValueView::PlainText(q.1) },
            ),
        ) == cs,
        attachments_of(
            cs.map_values(
                |q: (Seq<char>, Seq<char>)| FieldView { key: q.0, value: ValueView::PlainText(q.1) },
            ),
            pool,
        ) == Seq::<AttachmentView>::empty(),
    decreases cs,
{
    let f = |q: (Seq<char>, Seq<char>)| FieldView { key: q.0, value: ValueView::PlainText(q.1) };
    let m = cs.map_values(f);
    if cs.len() == 0 {
        assert(m.len() == 0);
    } else {
        let crest = cs.subrange(1, cs.len() as int);
        lemma_customs_of_plain(crest, pool);
        assert(m.subrange(1, m.len() as int) =~= crest.map_values(f));
        assert(m[0] == f(cs[0]));
        assert(customs_of(m) == seq![(cs[0].0, cs[0].1)] + customs_of(crest.map_values(f)));
        assert(seq![(cs[0].0, cs[0].1)] + crest =~= cs);
    }
}

/// Law: a raw entry written for a draft reads back, through the conversion
/// layer, as exactly the draft: the five standard fields, the custom
/// fields in order, and no attachments. The password survives its round
/// trip through the sensitive UTF-8 buffer.
pub proof fn lemma_draft_fields_reading(
    d: DisplayEntryView,
    u: Seq<char>,
    otp: Option<Seq<char>>,
    pool: Seq<Seq<u8>>,
)
    requires
        forall|i: int|
            0 <= i < d.custom_fields.len() ==> !is_reserved_key((#[trigger] d.custom_fields[i]).0),
    ensures
        entry_to_display(EntryView { uuid: u, fields: draft_fields(d), otp }, pool)
            == (DisplayEntryView {
            uuid: u,
            title: d.title,
            username: d.username,
            password: d.password,
            url: d.url,
            notes: d.notes,
            custom_fields: d.custom_fields,
            otp,
            attachments: Seq::<AttachmentView>::empty(),
        }),
{
    broadcast use vstd::utf8::encode_utf8_valid_utf8, vstd::utf8::encode_utf8_decode_utf8;

    reveal_strlit("Title");
    reveal_strlit("UserName");
    reveal_strlit("Password");
    reveal_strlit("URL");
    reveal_strlit("Notes");
    let f = |q: (Seq<char>, Seq<char>)| FieldView { key: q.0, value: ValueView::PlainText(q.1) };
    let fs = draft_fields(d);
    let m = d.custom_fields.map_values(f);
    let s1 = fs.subrange(1, fs.len() as int);
    let s2 = fs.subrange(2, fs.len() as int);
    let s3 = fs.subrange(3, fs.len() as int);
    let s4 = fs.subrange(4, fs.len() as int);
    let s5 = fs.subrange(5, fs.len() as int);
    assert(s1 =~= fs.subrange(1, fs.len() as int));
    assert(s1.subrange(1, s1.len() as int) =~= s2);
    assert(s2.subrange(1, s2.len() as int) =~= s3);
    assert(s3.subrange(1, s3.len() as int) =~= s4);
    assert(s4.subrange(1, s4.len() as int) =~= s5);
    assert(s5 =~= m);
    assert(fs[0].key == "Title"@ && s1[0].key == "UserName"@ && s2[0].key == "Password"@
        && s3[0].key == "URL"@ && s4[0].key == "Notes"@);
    assert("Title"@.len() == 5 && "UserName"@.len() == 8 && "Password"@.len() == 8 && "URL"@.len()
        == 3 && "Notes"@.len() == 5);
    assert("Title"@[0] == 'T' && "Notes"@[0] == 'N');
    assert("UserName"@[0] == 'U' && "Password"@[0] == 'P');
    // the five standard accessors each stop at their own field
    reveal_with_fuel(lookup_field, 7);
    reveal_with_fuel(customs_of, 7);
    reveal_with_fuel(attachments_of, 7);
    assert(lookup_field(fs, "Title"@) == Option::Some(ValueView::PlainText(d.title)));
    assert(lookup_field(fs, "UserName"@) == Option::Some(ValueView::PlainText(d.username)));
    assert(lookup_field(fs, "Password"@) == Option::Some(
        ValueView::SensitiveText(encode_utf8(d.password)),
    ));
    assert(lookup_field(fs, "URL"@) == Option::Some(ValueView::PlainText(d.url)));
    assert(lookup_field(fs, "Notes"@) == Option::Some(ValueView::PlainText(d.notes)));
    // the password's buffer decodes back to the draft's text
    assert(valid_utf8(encode_utf8(d.password)));
    assert(decode_utf8(encode_utf8(d.password)) == d.password);
    // the custom fields read back in order, with no attachments
    assert(is_reserved_key(fs[0].key) && is_reserved_key(s1[0].key) && is_reserved_key(s2[0].key)
        && is_reserved_key(s3[0].key) && is_reserved_key(s4[0].key));
    assert(customs_of(fs) == customs_of(s5));
    assert(attachments_of(fs, pool) == attachments_of(s5, pool));
    lemma_customs_of_plain(d.custom_fields, pool);
    assert(customs_of(s5) == d.custom_fields);
    assert(entry_to_display(EntryView { uuid: u, fields: fs, otp }, pool) =~= (DisplayEntryView {
        uuid: u,
        title: d.title,
        username: d.username,
        password: d.password,
        url: d.url,
        notes: d.notes,
        custom_fields: d.custom_fields,
        otp,
        attachments: Seq::<AttachmentView>::empty(),
    }));
}

/// Law: a successful `add_entry` under a parent that exists, with an
/// engine-assigned uuid absent from the prior tree, leaves the new entry
/// findable in document order, and its display-ready reading equals the
/// draft — given that no custom field of the draft usurps a reserved key.
pub proof fn lemma_add_entry_round_trip(
    v1: VaultView,
    v2: VaultView,
    d: DisplayEntryView,
    p: Seq<char>,
    u: Seq<char>,
)
    requires
        group_in(NodeView::Group(v1.root), p),
        !contains_uuid(NodeView::Group(v1.root), u),
        v2 == (VaultView {
            root: insert_under_group(
                v1.root,
                p,
                NodeView::Entry(EntryView { uuid: u, fields: draft_fields(d), otp: Option::None }),
            ),
            ..v1
        }),
        forall|i: int|
            0 <= i < d.custom_fields.len() ==> !is_reserved_key((#[trigger] d.custom_fields[i]).0),
    ensures
        seq_find_in(v2.root.children, u, NodeKind::Entry) == Option::Some(
            NodeView::Entry(EntryView { uuid: u, fields: draft_fields(d), otp: Option::None }),
        ),
        entry_to_display(
            EntryView { uuid: u, fields: draft_fields(d), otp: Option::None },
            v2.pool,
        ) == (DisplayEntryView {
            uuid: u,
            title: d.title,
            username: d.username,
            password: d.password,
            url: d.url,
            notes: d.notes,
            custom_fields: d.custom_fields,
            otp: Option::None,
            attachments: Seq::<AttachmentView>::empty(),
        }),
{
    lemma_insert_fresh_found_group(
        v1.root,
        p,
        EntryView { uuid: u, fields: draft_fields(d), otp: Option::None },
    );
    lemma_draft_fields_reading(d, u, Option::None, v2.pool);
}


// ---------------------------------------------------------------------------
// A recycled node sits inside the bin and has left its former parent
// ---------------------------------------------------------------------------

proof fn lemma_seq_contains_append(s: Seq<NodeView>, t: Seq<NodeView>, u: Seq<char>)
    ensures
        seq_contains_uuid(s + t, u) == (seq_contains_uuid(s, u) || seq_contains_uuid(t, u)),
    decreases s,
{
    if s.len() == 0 {
        assert(s + t =~= t);
    } else {
        let rest = s.subrange(1, s.len() as int);
        assert((s + t)[0] == s[0]);
        assert((s + t).subrange(1, (s + t).len() as int) =~= rest + t);
        lemma_seq_contains_append(rest, t, u);
    }
}

proof fn lemma_seq_child_of_append(s: Seq<NodeView>, t: Seq<NodeView>, p: Seq<char>, u: Seq<char>)
    ensures
        seq_child_of(s + t, p, u) == (seq_child_of(s, p, u) || seq_child_of(t, p, u)),
    decreases s,
{
    if s.len() == 0 {
        assert(s + t =~= t);
    } else {
        let rest = s.subrange(1, s.len() as int);
        assert((s + t)[0] == s[0]);
        assert((s + t).subrange(1, (s + t).len() as int) =~= rest + t);
        lemma_seq_child_of_append(rest, t, p, u);
    }
}

/// Ensuring the bin leaves a group named `b` in the tree.
proof fn lemma_ensure_bin_has_group(root: GroupView, b: Seq<char>)
    ensures
        group_in(NodeView::Group(ensure_bin_root(root, b)), b),
{
    if !group_in(NodeView::Group(root), b) {
        let bv = NodeView::Group(bin_group_view(b));
        let root2 = ensure_bin_root(root, b);
        assert(root2.children =~= root.children + seq![bv]);
        lemma_seq_find_in_append(root.children, seq![bv], b, NodeKind::Group);
        assert(seq![bv].len() == 1 && seq![bv][0] == bv);
        assert(node_matches(bv, b, NodeKind::Group));
        assert(find_in(bv, b, NodeKind::Group) == Option::Some(bv));
        assert(seq_find_in(seq![bv], b, NodeKind::Group) is Some);
        assert(seq_find_in(root2.children, b, NodeKind::Group) is Some);
    }
}

proof fn lemma_insert_makes_under_group(root: GroupView, b: Seq<char>, nn: NodeView)
    requires
        group_in(NodeView::Group(root), b),
    ensures
        under_group(NodeView::Group(insert_under_group(root, b, nn)), b, node_uuid(nn)),
    decreases root,
{
    let x = node_uuid(nn);
    let root2 = insert_under_group(root, b, nn);
    if root.uuid == b {
        assert(root2.children == root.children.push(nn));
        assert(root.children.push(nn) =~= root.children + seq![nn]);
        lemma_seq_contains_append(root.children, seq![nn], x);
        assert(seq![nn].len() == 1 && seq![nn][0] == nn);
        assert(contains_uuid(nn, x));
        assert(seq_contains_uuid(seq![nn], x));
        assert(contains_uuid(NodeView::Group(root2), x));
    } else {
        lemma_insert_makes_under_seq(root.children, b, nn);
    }
}

proof fn lemma_insert_makes_under_seq(s: Seq<NodeView>, b: Seq<char>, nn: NodeView)
    requires
        seq_find_in(s, b, NodeKind::Group) is Some,
    ensures
        seq_under_group(seq_insert_under(s, b, nn), b, node_uuid(nn)),
    decreases s,
{
    let x = node_uuid(nn);
    let rest = s.subrange(1, s.len() as int);
    if group_in(s[0], b) {
        match s[0] {
            NodeView::Group(g0) => {
                lemma_insert_makes_under_group(g0, b, nn);
                let h = NodeView::Group(insert_under_group(g0, b, nn));
                let ns = seq![h] + rest;
                assert(seq_insert_under(s, b, nn) == ns);
                assert(ns[0] == h);
            },
            NodeView::Entry(_) => {
                assert(false);
            },
        }
    } else {
        lemma_insert_makes_under_seq(rest, b, nn);
        let ns = seq![s[0]] + seq_insert_under(rest, b, nn);
        assert(seq_insert_under(s, b, nn) == ns);
        assert(ns[0] == s[0]);
        assert(ns.subrange(1, ns.len() as int) =~= seq_insert_under(rest, b, nn));
    }
}

proof fn lemma_under_implies_contains(n: NodeView, anc: Seq<char>, x: Seq<char>)
    ensures
        under_group(n, anc, x) ==> contains_uuid(n, x),
    decreases n,
{
    match n {
        NodeView::Group(g) => {
            lemma_seq_under_implies_contains(g.children, anc, x);
        },
        NodeView::Entry(_) => {},
    }
}

proof fn lemma_seq_under_implies_contains(s: Seq<NodeView>, anc: Seq<char>, x: Seq<char>)
    ensures
        seq_under_group(s, anc, x) ==> seq_contains_uuid(s, x),
    decreases s,
{
    if s.len() > 0 {
        lemma_under_implies_contains(s[0], anc, x);
        lemma_seq_under_implies_contains(s.subrange(1, s.len() as int), anc, x);
    }
}

proof fn lemma_seq_count_index(s: Seq<NodeView>, i: int, x: Seq<char>)
    requires
        0 <= i < s.len(),
    ensures
        count_uuid(s[i], x) <= seq_count_uuid(s, x),
    decreases s,
{
    if i > 0 {
        lemma_seq_count_index(s.subrange(1, s.len() as int), i - 1, x);
    }
}

/// A group that has a direct child named `u` anywhere in a subtree puts at
/// least one `u`-node strictly below the subtree's root.
proof fn lemma_child_of_inner_count(n: NodeView, p: Seq<char>, u: Seq<char>)
    requires
        child_of(n, p, u),
    ensures
        n matches NodeView::Group(g) && seq_count_uuid(g.children, u) >= 1,
    decreases n,
{
    match n {
        NodeView::Group(g) => {
            if g.uuid == p && exists|i: int|
                0 <= i < g.children.len() && node_uuid(#[trigger] g.children[i]) == u {
                let i = choose|i: int|
                    0 <= i < g.children.len() && node_uuid(#[trigger] g.children[i]) == u;
                assert(count_uuid(g.children[i], u) >= 1);
                lemma_seq_count_index(g.children, i, u);
            } else {
                lemma_seq_child_of_inner_count(g.children, p, u);
            }
        },
        NodeView::Entry(_) => {},
    }
}

proof fn lemma_seq_child_of_inner_count(s: Seq<NodeView>, p: Seq<char>, u: Seq<char>)
    requires
        seq_child_of(s, p, u),
    ensures
        seq_count_uuid(s, u) >= 1,
    decreases s,
{
    if child_of(s[0], p, u) {
        lemma_child_of_inner_count(s[0], p, u);
        assert(count_uuid(s[0], u) >= 1);
    } else {
        lemma_seq_child_of_inner_count(s.subrange(1, s.len() as int), p, u);
    }
}

proof fn lemma_contains_count(n: NodeView, x: Seq<char>)
    ensures
        contains_uuid(n, x) <==> count_uuid(n, x) >= 1,
    decreases n,
{
    match n {
        NodeView::Group(g) => {
            lemma_seq_contains_count(g.children, x);
        },
        NodeView::Entry(_) => {},
    }
}

proof fn lemma_seq_contains_count(s: Seq<NodeView>, x: Seq<char>)
    ensures
        seq_contains_uuid(s, x) <==> seq_count_uuid(s, x) >= 1,
    decreases s,
{
    if s.len() > 0 {
        lemma_contains_count(s[0], x);
        lemma_seq_contains_count(s.subrange(1, s.len() as int), x);
    }
}

/// Detachment splits the uuid census: what the forest had is what remains
/// plus what the detached subtree holds.
proof fn lemma_node_removed_count(n: NodeView, u: Seq<char>, k: NodeKind, x: Seq<char>)
    requires
        crate::mutation::find_inside(n, u, k) is Some,
    ensures
        count_uuid(node_removed(n, u, k), x) + count_uuid(
            crate::mutation::find_inside(n, u, k)->Some_0,
            x,
        ) == count_uuid(n, x),
    decreases n,
{
    match n {
        NodeView::Group(g) => {
            lemma_seq_removed_count(g.children, u, k, x);
        },
        NodeView::Entry(_) => {},
    }
}

proof fn lemma_seq_removed_count(s: Seq<NodeView>, u: Seq<char>, k: NodeKind, x: Seq<char>)
    requires
        seq_find_in(s, u, k) is Some,
    ensures
        seq_count_uuid(seq_remove_first(s, u, k), x) + count_uuid(
            seq_find_in(s, u, k)->Some_0,
            x,
        ) == seq_count_uuid(s, x),
    decreases s,
{
    let rest = s.subrange(1, s.len() as int);
    let t = seq_find_in(s, u, k)->Some_0;
    if node_matches(s[0], u, k) {
        assert(t == s[0]);
        assert(seq_remove_first(s, u, k) == rest);
    } else if find_in(s[0], u, k) is Some {
        assert(t == find_in(s[0], u, k)->Some_0);
        assert(crate::mutation::find_inside(s[0], u, k) == find_in(s[0], u, k));
        lemma_node_removed_count(s[0], u, k, x);
        let ns = seq![node_removed(s[0], u, k)] + rest;
        assert(seq_remove_first(s, u, k) == ns);
        assert(ns[0] == node_removed(s[0], u, k));
        assert(ns.subrange(1, ns.len() as int) =~= rest);
    } else {
        lemma_seq_removed_count(rest, u, k, x);
        let ns = seq![s[0]] + seq_remove_first(rest, u, k);
        assert(seq_remove_first(s, u, k) == ns);
        assert(ns[0] == s[0]);
        assert(ns.subrange(1, ns.len() as int) =~= seq_remove_first(rest, u, k));
    }
}

/// Insertion never renames a forest's elements, nor changes their number.
proof fn lemma_seq_insert_uuids(s: Seq<NodeView>, b: Seq<char>, nn: NodeView)
    ensures
        seq_insert_under(s, b, nn).len() == s.len(),
        forall|i: int|
            0 <= i < s.len() ==> node_uuid(#[trigger] seq_insert_under(s, b, nn)[i]) == node_uuid(
                s[i],
            ),
    decreases s,
{
    if s.len() > 0 {
        let rest = s.subrange(1, s.len() as int);
        if group_in(s[0], b) {
            match s[0] {
                NodeView::Group(g0) => {
                    let h = NodeView::Group(insert_under_group(g0, b, nn));
                    let ns = seq![h] + rest;
                    assert(seq_insert_under(s, b, nn) == ns);
                    assert(ns[0] == h);
                    assert(forall|i: int| 1 <= i < s.len() ==> #[trigger] ns[i] == s[i]);
                },
                NodeView::Entry(_) => {},
            }
        } else {
            lemma_seq_insert_uuids(rest, b, nn);
            let ns = seq![s[0]] + seq_insert_under(rest, b, nn);
            assert(seq_insert_under(s, b, nn) == ns);
            assert(ns[0] == s[0]);
            assert(forall|i: int|
                1 <= i < s.len() ==> #[trigger] ns[i] == seq_insert_under(rest, b, nn)[i - 1]);
        }
    }
}

/// Insertion adds exactly one parent-child pair: the inserted node under
/// the first group named `b`. Any other pair was already there, or sits
/// inside the inserted node itself.
proof fn lemma_insert_child_decomp_group(
    root: GroupView,
    b: Seq<char>,
    nn: NodeView,
    p: Seq<char>,
    u: Seq<char>,
)
    ensures
        child_of(NodeView::Group(insert_under_group(root, b, nn)), p, u) ==> (child_of(
            NodeView::Group(root),
            p,
            u,
        ) || (p == b && u == node_uuid(nn)) || child_of(nn, p, u)),
    decreases root,
{
    let root2 = insert_under_group(root, b, nn);
    if root.uuid == b {
        if child_of(NodeView::Group(root2), p, u) {
            assert(root2.children == root.children.push(nn));
            assert(root.children.push(nn) =~= root.children + seq![nn]);
            lemma_seq_child_of_append(root.children, seq![nn], p, u);
            assert(seq![nn].len() == 1 && seq![nn][0] == nn);
            if root2.uuid == p && exists|i: int|
                0 <= i < root2.children.len() && node_uuid(#[trigger] root2.children[i]) == u {
                let i = choose|i: int|
                    0 <= i < root2.children.len() && node_uuid(#[trigger] root2.children[i]) == u;
                if i < root.children.len() {
                    assert(node_uuid(root.children[i]) == u);
                } else {
                    assert(root2.children[i] == nn);
                }
            } else {
                assert(seq_child_of(root2.children, p, u));
                if seq_child_of(seq![nn], p, u) {
                    assert(seq![nn].subrange(1, 1) =~= Seq::<NodeView>::empty());
                    assert(!seq_child_of(Seq::<NodeView>::empty(), p, u));
                    assert(child_of(nn, p, u));
                }
            }
        }
    } else {
        lemma_insert_child_decomp_seq(root.children, b, nn, p, u);
        if child_of(NodeView::Group(root2), p, u) {
            if root2.uuid == p && exists|i: int|
                0 <= i < root2.children.len() && node_uuid(#[trigger] root2.children[i]) == u {
                let i = choose|i: int|
                    0 <= i < root2.children.len() && node_uuid(#[trigger] root2.children[i]) == u;
                lemma_seq_insert_uuids(root.children, b, nn);
                assert(node_uuid(root.children[i]) == u);
            }
        }
    }
}

proof fn lemma_insert_child_decomp_seq(
    s: Seq<NodeView>,
    b: Seq<char>,
    nn: NodeView,
    p: Seq<char>,
    u: Seq<char>,
)
    ensures
        seq_child_of(seq_insert_under(s, b, nn), p, u) ==> (seq_child_of(s, p, u) || (p == b && u
            == node_uuid(nn)) || child_of(nn, p, u)),
    decreases s,
{
    if s.len() > 0 {
        let rest = s.subrange(1, s.len() as int);
        if group_in(s[0], b) {
            match s[0] {
                NodeView::Group(g0) => {
                    lemma_insert_child_decomp_group(g0, b, nn, p, u);
                    let h = NodeView::Group(insert_under_group(g0, b, nn));
                    let ns = seq![h] + rest;
                    assert(seq_insert_under(s, b, nn) == ns);
                    assert(ns[0] == h);
                    assert(ns.subrange(1, ns.len() as int) =~= rest);
                },
                NodeView::Entry(_) => {},
            }
        } else {
            lemma_insert_child_decomp_seq(rest, b, nn, p, u);
            let ns = seq![s[0]] + seq_insert_under(rest, b, nn);
            assert(seq_insert_under(s, b, nn) == ns);
            assert(ns[0] == s[0]);
            assert(ns.subrange(1, ns.len() as int) =~= seq_insert_under(rest, b, nn));
        }
    }
}

/// Law: after a successful recycle of `u` out of a well-formed tree, `u`
/// sits inside the recycle bin and is still findable, and is no longer a
/// child of its former parent — any parent other than the bin itself.
pub proof fn lemma_recycle_soft_delete(
    v1: VaultView,
    v2: VaultView,
    u: Seq<char>,
    k: NodeKind,
    p: Seq<char>,
)
    requires
        recycle_ok(v1, v2, u, k),
        wf_tree(NodeView::Group(ensure_bin_root(v1.root, v2.recycle_bin_uuid->Some_0))),
        p != v2.recycle_bin_uuid->Some_0,
    ensures
        inside_recycle_bin(v2, u),
        contains_uuid(NodeView::Group(v2.root), u),
        !child_of(NodeView::Group(v2.root), p, u),
{
    let b = v2.recycle_bin_uuid->Some_0;
    let mid = ensure_bin_root(v1.root, b);
    let t = seq_find_in(mid.children, u, k)->Some_0;
    let rem_mid = GroupView {
        uuid: mid.uuid,
        name: mid.name,
        icon: mid.icon,
        children: seq_remove_first(mid.children, u, k),
    };
    lemma_seq_find_in_matches(mid.children, u, k);
    assert(node_uuid(t) == u);
    assert(count_uuid(t, u) >= 1);
    // the census of `u`: exactly one in the whole tree, none left once the
    // target is detached
    lemma_seq_removed_count(mid.children, u, k, u);
    assert(count_uuid(NodeView::Group(mid), u) <= 1);
    assert(seq_count_uuid(mid.children, u) <= count_uuid(NodeView::Group(mid), u));
    assert(count_uuid(t, u) == 1);
    assert(seq_count_uuid(rem_mid.children, u) == 0);
    assert(mid.uuid != u);
    // the bin group survives the detachment
    if mid.uuid != b {
        lemma_ensure_bin_has_group(v1.root, b);
        assert(seq_find_in(mid.children, b, NodeKind::Group) is Some);
        crate::mutation::lemma_seq_remove_keeps_group(mid.children, u, k, b);
        assert(seq_find_in(rem_mid.children, b, NodeKind::Group) is Some);
    }
    assert(group_in(NodeView::Group(rem_mid), b));
    // the moved node is now inside the bin, hence findable
    lemma_insert_makes_under_group(rem_mid, b, t);
    assert(under_group(NodeView::Group(v2.root), b, u));
    lemma_under_implies_contains(NodeView::Group(v2.root), b, u);
    // and it is nobody else's child any more
    if child_of(NodeView::Group(v2.root), p, u) {
        lemma_insert_child_decomp_group(rem_mid, b, t, p, u);
        if child_of(NodeView::Group(rem_mid), p, u) {
            lemma_child_of_inner_count(NodeView::Group(rem_mid), p, u);
            assert(false);
        } else if child_of(t, p, u) {
            lemma_child_of_inner_count(t, p, u);
            match t {
                NodeView::Group(tg) => {
                    assert(count_uuid(t, u) >= 1 + seq_count_uuid(tg.children, u));
                    assert(false);
                },
                NodeView::Entry(_) => {
                    assert(false);
                },
            }
        } else {
            assert(p == b && u == node_uuid(t));
            assert(false);
        }
    }
}


// ---------------------------------------------------------------------------
// Mutation never duplicates a node
// ---------------------------------------------------------------------------

proof fn lemma_seq_count_append(s: Seq<NodeView>, t: Seq<NodeView>, x: Seq<char>)
    ensures
        seq_count_uuid(s + t, x) == seq_count_uuid(s, x) + seq_count_uuid(t, x),
    decreases s,
{
    if s.len() == 0 {
        assert(s + t =~= t);
    } else {
        let rest = s.subrange(1, s.len() as int);
        assert((s + t)[0] == s[0]);
        assert((s + t).subrange(1, (s + t).len() as int) =~= rest + t);
        lemma_seq_count_append(rest, t, x);
    }
}

/// Insertion adds exactly the inserted subtree's census, and does nothing
/// when the parent group is absent.
proof fn lemma_insert_count_group(root: GroupView, p: Seq<char>, nn: NodeView, x: Seq<char>)
    ensures
        group_in(NodeView::Group(root), p) ==> count_uuid(
            NodeView::Group(insert_under_group(root, p, nn)),
            x,
        ) == count_uuid(NodeView::Group(root), x) + count_uuid(nn, x),
        !group_in(NodeView::Group(root), p) ==> insert_under_group(root, p, nn) == root,
    decreases root,
{
    let root2 = insert_under_group(root, p, nn);
    if root.uuid == p {
        assert(root.children.push(nn) =~= root.children + seq![nn]);
        lemma_seq_count_append(root.children, seq![nn], x);
        assert(seq![nn].len() == 1 && seq![nn][0] == nn);
        assert(seq![nn].subrange(1, 1) =~= Seq::<NodeView>::empty());
        assert(seq_count_uuid(Seq::<NodeView>::empty(), x) == 0);
        assert(seq_count_uuid(seq![nn], x) == count_uuid(nn, x) + seq_count_uuid(
            seq![nn].subrange(1, 1),
            x,
        ));
    } else {
        lemma_insert_count_seq(root.children, p, nn, x);
        if !group_in(NodeView::Group(root), p) {
            assert(root2 =~= root);
        }
    }
}

proof fn lemma_insert_count_seq(s: Seq<NodeView>, p: Seq<char>, nn: NodeView, x: Seq<char>)
    ensures
        seq_find_in(s, p, NodeKind::Group) is Some ==> seq_count_uuid(
            seq_insert_under(s, p, nn),
            x,
        ) == seq_count_uuid(s, x) + count_uuid(nn, x),
        seq_find_in(s, p, NodeKind::Group) is None ==> seq_insert_under(s, p, nn) == s,
    decreases s,
{
    if s.len() > 0 {
        let rest = s.subrange(1, s.len() as int);
        if group_in(s[0], p) {
            match s[0] {
                NodeView::Group(g0) => {
                    lemma_insert_count_group(g0, p, nn, x);
                    let h = NodeView::Group(insert_under_group(g0, p, nn));
                    let ns = seq![h] + rest;
                    assert(seq_insert_under(s, p, nn) == ns);
                    assert(ns[0] == h);
                    assert(ns.subrange(1, ns.len() as int) =~= rest);
                },
                NodeView::Entry(_) => {},
            }
        } else {
            lemma_insert_count_seq(rest, p, nn, x);
            let ns = seq![s[0]] + seq_insert_under(rest, p, nn);
            assert(seq_insert_under(s, p, nn) == ns);
            assert(ns[0] == s[0]);
            assert(ns.subrange(1, ns.len() as int) =~= seq_insert_under(rest, p, nn));
            if seq_find_in(s, p, NodeKind::Group) is None {
                assert(ns =~= s);
            }
        }
    }
}

/// Law: adding an entry under a fresh, engine-assigned uuid keeps every
/// uuid in the tree unique — no node is ever duplicated by an add.
pub proof fn lemma_add_entry_preserves_wf(root: GroupView, p: Seq<char>, e: EntryView)
    requires
        wf_tree(NodeView::Group(root)),
        !contains_uuid(NodeView::Group(root), e.uuid),
    ensures
        wf_tree(NodeView::Group(insert_under_group(root, p, NodeView::Entry(e)))),
{
    let nn = NodeView::Entry(e);
    let root2 = insert_under_group(root, p, nn);
    if group_in(NodeView::Group(root), p) {
        assert forall|x: Seq<char>| #[trigger] count_uuid(NodeView::Group(root2), x) <= 1 by {
            lemma_insert_count_group(root, p, nn, x);
            if x == e.uuid {
                lemma_contains_count(NodeView::Group(root), x);
                assert(count_uuid(NodeView::Group(root), x) == 0);
            } else {
                assert(count_uuid(nn, x) == 0);
            }
        }
    } else {
        lemma_insert_count_group(root, p, nn, e.uuid);
    }
}

/// Law: a recycle relocates, it never copies — the uuid census of the tree
/// with the bin ensured is exactly the census after the move, so a
/// well-formed tree stays well formed and ownership stays single-parent.
pub proof fn lemma_recycle_preserves_census(
    v1: VaultView,
    v2: VaultView,
    u: Seq<char>,
    k: NodeKind,
)
    requires
        recycle_ok(v1, v2, u, k),
    ensures
        forall|x: Seq<char>| #[trigger] count_uuid(NodeView::Group(v2.root), x) == count_uuid(
            NodeView::Group(ensure_bin_root(v1.root, v2.recycle_bin_uuid->Some_0)),
            x,
        ),
        wf_tree(NodeView::Group(ensure_bin_root(v1.root, v2.recycle_bin_uuid->Some_0)))
            ==> wf_tree(NodeView::Group(v2.root)),
{
    let b = v2.recycle_bin_uuid->Some_0;
    let mid = ensure_bin_root(v1.root, b);
    let t = seq_find_in(mid.children, u, k)->Some_0;
    let rem_mid = GroupView {
        uuid: mid.uuid,
        name: mid.name,
        icon: mid.icon,
        children: seq_remove_first(mid.children, u, k),
    };
    if mid.uuid != b {
        lemma_ensure_bin_has_group(v1.root, b);
        crate::mutation::lemma_seq_remove_keeps_group(mid.children, u, k, b);
    }
    assert(group_in(NodeView::Group(rem_mid), b));
    assert forall|x: Seq<char>| #[trigger] count_uuid(NodeView::Group(v2.root), x) == count_uuid(
        NodeView::Group(mid),
        x,
    ) by {
        lemma_seq_removed_count(mid.children, u, k, x);
        lemma_insert_count_group(rem_mid, b, t, x);
    }
}


proof fn lemma_seq_find_none_each(s: Seq<NodeView>, u: Seq<char>, k: NodeKind)
    requires
        seq_find_in(s, u, k) is None,
    ensures
        forall|i: int| 0 <= i < s.len() ==> find_in(#[trigger] s[i], u, k) is None,
    decreases s,
{
    if s.len() > 0 {
        let rest = s.subrange(1, s.len() as int);
        lemma_seq_find_none_each(rest, u, k);
        assert(forall|i: int| 1 <= i < s.len() ==> #[trigger] s[i] == rest[i - 1]);
    }
}

/// Law: a permanent deletion only ever removes — the census of every uuid
/// can only fall, so a well-formed tree stays well formed.
pub proof fn lemma_delete_preserves_wf(root: GroupView, u: Seq<char>, k: NodeKind)
    requires
        wf_tree(NodeView::Group(root)),
    ensures
        wf_tree(
            NodeView::Group(
                GroupView {
                    uuid: root.uuid,
                    name: root.name,
                    icon: root.icon,
                    children: seq_remove_first(root.children, u, k),
                },
            ),
        ),
{
    let root2 = GroupView {
        uuid: root.uuid,
        name: root.name,
        icon: root.icon,
        children: seq_remove_first(root.children, u, k),
    };
    if seq_find_in(root.children, u, k) is Some {
        assert forall|x: Seq<char>| #[trigger] count_uuid(NodeView::Group(root2), x) <= 1 by {
            lemma_seq_removed_count(root.children, u, k, x);
            assert(count_uuid(NodeView::Group(root), x) <= 1);
            assert(seq_count_uuid(root2.children, x) <= seq_count_uuid(root.children, x));
        }
    } else {
        lemma_seq_find_none_each(root.children, u, k);
        crate::mutation::lemma_seq_remove_first_skip(
            root.children,
            root.children.len() as int,
            u,
            k,
        );
        assert(root.children.subrange(
            root.children.len() as int,
            root.children.len() as int,
        ) =~= Seq::<NodeView>::empty());
        assert(root2.children =~= root.children);
    }
}

} // verus!
