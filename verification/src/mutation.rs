//! Structural edits of the vault tree: insertion under a parent group,
//! detachment in document order, field rewriting of an entry, and clearing
//! the recycle bin's children. Every edit touches the first matching node in
//! depth-first pre-order and leaves the rest of the tree unchanged.

use vstd::prelude::*;
use crate::model::{
    Node, NodeKind, NodeView, GroupView, EntryView, FieldView, VaultGroup, Field, Value,
    value_view, node_view, node_matches, nodes_view, field_view, fields_view,
    lemma_nodes_view_len, lemma_nodes_view_index, lemma_nodes_view_push, node_height, seq_height,
    lemma_seq_height_index,
};
use crate::navigator::{find_in, seq_find_in, group_in, lemma_seq_find_in_skip};

verus! {

// ---------------------------------------------------------------------------
// Specification: insertion
// ---------------------------------------------------------------------------

/// The tree rooted at `g` with `nn` appended to the children of the first
/// group (in pre-order) whose uuid is `p`; unchanged when no such group
/// exists.
pub open spec fn insert_under_group(g: GroupView, p: Seq<char>, nn: NodeView) -> GroupView
    decreases g,
{
    if g.uuid == p {
        GroupView { uuid: g.uuid, name: g.name, icon: g.icon, children: g.children.push(nn) }
    } else {
        GroupView {
            uuid: g.uuid,
            name: g.name,
            icon: g.icon,
            children: seq_insert_under(g.children, p, nn),
        }
    }
}

pub open spec fn seq_insert_under(s: Seq<NodeView>, p: Seq<char>, nn: NodeView) -> Seq<NodeView>
    decreases s,
{
    if s.len() == 0 {
        s
    } else if group_in(s[0], p) {
        match s[0] {
            NodeView::Group(g0) => seq![NodeView::Group(insert_under_group(g0, p, nn))]
                + s.subrange(1, s.len() as int),
            NodeView::Entry(_) => s,
        }
    } else {
        seq![s[0]] + seq_insert_under(s.subrange(1, s.len() as int), p, nn)
    }
}

pub proof fn lemma_seq_insert_under_skip(s: Seq<NodeView>, j: int, p: Seq<char>, nn: NodeView)
    requires
        0 <= j <= s.len(),
        forall|i: int| 0 <= i < j ==> !group_in(#[trigger] s[i], p),
    ensures
        seq_insert_under(s, p, nn) == s.subrange(0, j) + seq_insert_under(
            s.subrange(j, s.len() as int),
            p,
            nn,
        ),
    decreases j,
{
    if j > 0 {
        let rest = s.subrange(1, s.len() as int);
        assert(forall|i: int| 0 <= i < j - 1 ==> !group_in(#[trigger] rest[i], p));
        lemma_seq_insert_under_skip(rest, j - 1, p, nn);
        assert(rest.subrange(j - 1, rest.len() as int) =~= s.subrange(j, s.len() as int));
        assert(seq![s[0]] + (rest.subrange(0, j - 1) + seq_insert_under(
            s.subrange(j, s.len() as int),
            p,
            nn,
        )) =~= s.subrange(0, j) + seq_insert_under(s.subrange(j, s.len() as int), p, nn));
    } else {
        assert(s.subrange(0, s.len() as int) =~= s);
        assert(s.subrange(0, 0) + seq_insert_under(s, p, nn) =~= seq_insert_under(s, p, nn));
    }
}

// ---------------------------------------------------------------------------
// Specification: detachment
// ---------------------------------------------------------------------------

/// The forest `s` with the first node of kind `k` and uuid `u` (in document
/// order) detached from its parent's children; unchanged when none matches.
pub open spec fn seq_remove_first(s: Seq<NodeView>, u: Seq<char>, k: NodeKind) -> Seq<NodeView>
    decreases s,
{
    if s.len() == 0 {
        s
    } else if node_matches(s[0], u, k) {
        s.subrange(1, s.len() as int)
    } else if find_in(s[0], u, k) is Some {
        seq![node_removed(s[0], u, k)] + s.subrange(1, s.len() as int)
    } else {
        seq![s[0]] + seq_remove_first(s.subrange(1, s.len() as int), u, k)
    }
}

/// The node `n` with the first match detached somewhere strictly inside it.
pub open spec fn node_removed(n: NodeView, u: Seq<char>, k: NodeKind) -> NodeView
    decreases n,
{
    match n {
        NodeView::Group(g) => NodeView::Group(
            GroupView {
                uuid: g.uuid,
                name: g.name,
                icon: g.icon,
                children: seq_remove_first(g.children, u, k),
            },
        ),
        NodeView::Entry(_) => n,
    }
}

pub proof fn lemma_seq_remove_first_skip(s: Seq<NodeView>, j: int, u: Seq<char>, k: NodeKind)
    requires
        0 <= j <= s.len(),
        forall|i: int| 0 <= i < j ==> find_in(#[trigger] s[i], u, k) is None,
    ensures
        seq_remove_first(s, u, k) == s.subrange(0, j) + seq_remove_first(
            s.subrange(j, s.len() as int),
            u,
            k,
        ),
    decreases j,
{
    if j > 0 {
        let rest = s.subrange(1, s.len() as int);
        assert(forall|i: int| 0 <= i < j - 1 ==> find_in(#[trigger] rest[i], u, k) is None);
        lemma_seq_remove_first_skip(rest, j - 1, u, k);
        assert(rest.subrange(j - 1, rest.len() as int) =~= s.subrange(j, s.len() as int));
        assert(seq![s[0]] + (rest.subrange(0, j - 1) + seq_remove_first(
            s.subrange(j, s.len() as int),
            u,
            k,
        )) =~= s.subrange(0, j) + seq_remove_first(s.subrange(j, s.len() as int), u, k));
    } else {
        assert(s.subrange(0, s.len() as int) =~= s);
        assert(s.subrange(0, 0) + seq_remove_first(s, u, k) =~= seq_remove_first(s, u, k));
    }
}

// ---------------------------------------------------------------------------
// Helpers relating views of edited vectors
// ---------------------------------------------------------------------------

pub proof fn lemma_nodes_view_update(s: Seq<Node>, i: int, n: Node)
    requires
        0 <= i < s.len(),
    ensures
        nodes_view(s.update(i, n)) =~= nodes_view(s).update(i, node_view(n)),
{
    broadcast use lemma_nodes_view_len, lemma_nodes_view_index;

    assert forall|j: int| 0 <= j < s.len() implies nodes_view(s.update(i, n))[j] == nodes_view(
        s,
    ).update(i, node_view(n))[j] by {
        lemma_nodes_view_index(s.update(i, n), j);
    }
}

pub proof fn lemma_nodes_view_remove(s: Seq<Node>, i: int)
    requires
        0 <= i < s.len(),
    ensures
        nodes_view(s.remove(i)) =~= nodes_view(s).remove(i),
{
    broadcast use lemma_nodes_view_len, lemma_nodes_view_index;

    assert forall|j: int| 0 <= j < s.len() - 1 implies nodes_view(s.remove(i))[j] == nodes_view(
        s,
    ).remove(i)[j] by {
        lemma_nodes_view_index(s.remove(i), j);
    }
}

// ---------------------------------------------------------------------------
// Executable edits
// ---------------------------------------------------------------------------

/// The node `n` with `nn` appended under the first group with uuid `p` in
/// `n`'s subtree, `n` itself included; an entry node is unchanged.
pub open spec fn insert_under_node(n: NodeView, p: Seq<char>, nn: NodeView) -> NodeView {
    match n {
        NodeView::Group(g) => NodeView::Group(insert_under_group(g, p, nn)),
        NodeView::Entry(_) => n,
    }
}

/// The first match strictly inside `n`: its own root is not considered.
pub open spec fn find_inside(n: NodeView, u: Seq<char>, k: NodeKind) -> Option<NodeView> {
    match n {
        NodeView::Group(g) => seq_find_in(g.children, u, k),
        NodeView::Entry(_) => Option::None,
    }
}

/// Appends `node` to the children of the first group with uuid `p` in the
/// subtree rooted at `g` (including `g`), in pre-order. Hands the node back
/// untouched when no such group exists; the tree is then unchanged.
pub fn insert_in(g: &mut VaultGroup, p: &String, node: Node) -> (back: Option<Node>)
    ensures
        group_in(NodeView::Group(old(g)@), p@) ==> back is None && final(g)@
            == insert_under_group(old(g)@, p@, node_view(node)),
        !group_in(NodeView::Group(old(g)@), p@) ==> back == Option::Some(node) && final(g)@
            == old(g)@,
    decreases node_height(NodeView::Group(old(g)@)), 0nat,
{
    broadcast use lemma_nodes_view_len, lemma_nodes_view_index;

    let ghost nv = node_view(node);
    if g.uuid == *p {
        let ghost before = g.children@;
        g.children.push(node);
        proof {
            lemma_nodes_view_push(before, node);
            assert(g@ =~= insert_under_group(old(g)@, p@, nv));
        }
        return None;
    }
    let ghost all = nodes_view(old(g).children@);
    let n = g.children.len();
    let mut carried = node;
    let mut i: usize = 0;
    while i < n
        invariant
            0 <= i <= n,
            n == g.children.len(),
            g.uuid == old(g).uuid,
            g.name == old(g).name,
            g.icon == old(g).icon,
            all == nodes_view(old(g).children@),
            nodes_view(g.children@) == all,
            all.len() == n,
            g.uuid@ != p@,
            carried == node,
            nv == node_view(node),
            forall|j: int| 0 <= j < i ==> !group_in(#[trigger] all[j], p@),
        decreases n - i,
    {
        broadcast use lemma_nodes_view_len, lemma_nodes_view_index;

        let ghost cur = g.children@;
        proof {
            lemma_nodes_view_index(cur, i as int);
            assert(node_view(cur[i as int]) == all[i as int]);
            lemma_seq_height_index(all, i as int);
            assert(old(g)@.children == all);
            assert(node_height(NodeView::Group(old(g)@)) == 1 + seq_height(all));
        }
        let ghost cval = carried;
        let back = insert_in_node(&mut g.children[i], p, carried);
        proof {
            assert(g.children@ == cur.update(i as int, g.children@[i as int]));
            lemma_nodes_view_update(cur, i as int, g.children@[i as int]);
        }
        match back {
            None => {
                proof {
                    assert(group_in(all[i as int], p@));
                    assert(node_view(g.children@[i as int]) == insert_under_node(
                        node_view(cur[i as int]),
                        p@,
                        node_view(cval),
                    ));
                    assert(node_view(g.children@[i as int]) == insert_under_node(
                        all[i as int],
                        p@,
                        nv,
                    ));
                    lemma_seq_insert_under_skip(all, i as int, p@, nv);
                    let suf = all.subrange(i as int, n as int);
                    assert(suf[0] == all[i as int]);
                    let g0 = all[i as int]->Group_0;
                    assert(seq_insert_under(suf, p@, nv) == seq![
                        NodeView::Group(insert_under_group(g0, p@, nv)),
                    ] + suf.subrange(1, suf.len() as int));
                    assert(suf.subrange(1, suf.len() as int) =~= all.subrange(i + 1, n as int));
                    assert(seq_insert_under(all, p@, nv) =~= all.update(
                        i as int,
                        NodeView::Group(insert_under_group(g0, p@, nv)),
                    ));
                    assert(g@.children =~= seq_insert_under(all, p@, nv));
                    assert(g@ =~= insert_under_group(old(g)@, p@, nv));
                    lemma_seq_find_in_skip(all, i as int, p@, NodeKind::Group);
                    assert(find_in(suf[0], p@, NodeKind::Group) is Some);
                }
                return None;
            },
            Some(nb) => {
                carried = nb;
                proof {
                    assert(!group_in(all[i as int], p@));
                    assert(node_view(g.children@[i as int]) == all[i as int]);
                    assert(nodes_view(g.children@) =~= all.update(i as int, all[i as int]));
                    assert(all.update(i as int, all[i as int]) =~= all);
                }
            },
        }
        i = i + 1;
    }
    proof {
        lemma_seq_find_in_skip(all, n as int, p@, NodeKind::Group);
        assert(all.subrange(n as int, n as int) =~= Seq::<NodeView>::empty());
        assert(!group_in(NodeView::Group(old(g)@), p@));
        assert(g@ =~= old(g)@);
    }
    Some(carried)
}

/// One node's share of the insertion: descend when the node is a group,
/// decline when it is an entry.
fn insert_in_node(nd: &mut Node, p: &String, node: Node) -> (back: Option<Node>)
    ensures
        group_in(node_view(*old(nd)), p@) ==> back is None && node_view(*final(nd))
            == insert_under_node(node_view(*old(nd)), p@, node_view(node)),
        !group_in(node_view(*old(nd)), p@) ==> back == Option::Some(node) && node_view(
            *final(nd),
        ) == node_view(*old(nd)),
    decreases node_height(node_view(*old(nd))), 1nat,
{
    match nd {
        Node::Group(cg) => insert_in(cg, p, node),
        Node::Entry(_) => Some(node),
    }
}

/// Detaches the first node of kind `k` with uuid `u` in document order from
/// its parent's children, anywhere strictly inside `g`, and returns it.
/// Returns `None`, with the tree unchanged, when no node matches.
pub fn remove_in(g: &mut VaultGroup, u: &String, k: NodeKind) -> (removed: Option<Node>)
    ensures
        match removed {
            Option::Some(node) => seq_find_in(nodes_view(old(g).children@), u@, k)
                == Option::Some(node_view(node)) && final(g)@ == (GroupView {
                uuid: old(g)@.uuid,
                name: old(g)@.name,
                icon: old(g)@.icon,
                children: seq_remove_first(nodes_view(old(g).children@), u@, k),
            }),
            Option::None => seq_find_in(nodes_view(old(g).children@), u@, k) is None && final(g)@
                == old(g)@,
        },
    decreases node_height(NodeView::Group(old(g)@)), 0nat,
{
    broadcast use lemma_nodes_view_len, lemma_nodes_view_index;

    let ghost all = nodes_view(old(g).children@);
    let n = g.children.len();
    let mut i: usize = 0;
    while i < n
        invariant
            0 <= i <= n,
            n == g.children.len(),
            g.uuid == old(g).uuid,
            g.name == old(g).name,
            g.icon == old(g).icon,
            all == nodes_view(old(g).children@),
            nodes_view(g.children@) == all,
            all.len() == n,
            forall|j: int| 0 <= j < i ==> find_in(#[trigger] all[j], u@, k) is None,
        decreases n - i,
    {
        broadcast use lemma_nodes_view_len, lemma_nodes_view_index;

        let ghost cur = g.children@;
        proof {
            lemma_nodes_view_index(cur, i as int);
            assert(node_view(cur[i as int]) == all[i as int]);
            lemma_seq_height_index(all, i as int);
            assert(old(g)@.children == all);
            assert(node_height(NodeView::Group(old(g)@)) == 1 + seq_height(all));
        }
        let own_match = match &g.children[i] {
            Node::Group(cg) => matches!(k, NodeKind::Group) && cg.uuid == *u,
            Node::Entry(ce) => matches!(k, NodeKind::Entry) && ce.uuid == *u,
        };
        if own_match {
            proof {
                assert(node_matches(all[i as int], u@, k));
            }
            let removed_node = g.children.remove(i);
            proof {
                assert(node_view(removed_node) == all[i as int]);
                lemma_nodes_view_remove(cur, i as int);
                lemma_seq_remove_first_skip(all, i as int, u@, k);
                let suf = all.subrange(i as int, n as int);
                assert(suf[0] == all[i as int]);
                assert(seq_remove_first(suf, u@, k) == suf.subrange(1, suf.len() as int));
                assert(suf.subrange(1, suf.len() as int) =~= all.subrange(i + 1, n as int));
                assert(seq_remove_first(all, u@, k) =~= all.remove(i as int));
                assert(g@.children =~= seq_remove_first(all, u@, k));
                lemma_seq_find_in_skip(all, i as int, u@, k);
                assert(find_in(suf[0], u@, k) == Option::Some(all[i as int]));
            }
            return Some(removed_node);
        }
        let deeper = remove_in_node(&mut g.children[i], u, k);
        proof {
            assert(g.children@ == cur.update(i as int, g.children@[i as int]));
            lemma_nodes_view_update(cur, i as int, g.children@[i as int]);
        }
        match deeper {
            Some(removed_node) => {
                proof {
                    assert(!node_matches(all[i as int], u@, k));
                    assert(find_inside(all[i as int], u@, k) == Option::Some(
                        node_view(removed_node),
                    ));
                    assert(find_in(all[i as int], u@, k) == Option::Some(
                        node_view(removed_node),
                    ));
                    assert(node_view(g.children@[i as int]) == node_removed(
                        all[i as int],
                        u@,
                        k,
                    ));
                    lemma_seq_remove_first_skip(all, i as int, u@, k);
                    let suf = all.subrange(i as int, n as int);
                    assert(suf[0] == all[i as int]);
                    assert(seq_remove_first(suf, u@, k) == seq![
                        node_removed(all[i as int], u@, k),
                    ] + suf.subrange(1, suf.len() as int));
                    assert(suf.subrange(1, suf.len() as int) =~= all.subrange(i + 1, n as int));
                    assert(seq_remove_first(all, u@, k) =~= all.update(
                        i as int,
                        node_removed(all[i as int], u@, k),
                    ));
                    assert(g@.children =~= seq_remove_first(all, u@, k));
                    lemma_seq_find_in_skip(all, i as int, u@, k);
                }
                return Some(removed_node);
            },
            None => {
                proof {
                    assert(find_inside(all[i as int], u@, k) is None);
                    assert(!node_matches(all[i as int], u@, k));
                    assert(find_in(all[i as int], u@, k) is None);
                    assert(node_view(g.children@[i as int]) == all[i as int]);
                    assert(nodes_view(g.children@) =~= all.update(i as int, all[i as int]));
                    assert(all.update(i as int, all[i as int]) =~= all);
                }
            },
        }
        i = i + 1;
    }
    proof {
        lemma_seq_find_in_skip(all, n as int, u@, k);
        assert(all.subrange(n as int, n as int) =~= Seq::<NodeView>::empty());
        assert(g@ =~= old(g)@);
    }
    None
}

/// One node's share of the detachment: search and detach strictly inside a
/// group node; an entry node holds nothing.
fn remove_in_node(nd: &mut Node, u: &String, k: NodeKind) -> (removed: Option<Node>)
    ensures
        match removed {
            Option::Some(node) => find_inside(node_view(*old(nd)), u@, k) == Option::Some(
                node_view(node),
            ) && node_view(*final(nd)) == node_removed(node_view(*old(nd)), u@, k),
            Option::None => find_inside(node_view(*old(nd)), u@, k) is None && node_view(
                *final(nd),
            ) == node_view(*old(nd)),
        },
    decreases node_height(node_view(*old(nd))), 1nat,
{
    match nd {
        Node::Group(cg) => remove_in(cg, u, k),
        Node::Entry(_) => None,
    }
}



// ---------------------------------------------------------------------------
// Detachment leaves unrelated groups in place
// ---------------------------------------------------------------------------

/// A group named `b` survives the detachment when it does not sit inside
/// the detached subtree.
pub proof fn lemma_node_removed_keeps_group(n: NodeView, u: Seq<char>, k: NodeKind, b: Seq<char>)
    requires
        find_inside(n, u, k) matches Option::Some(t) && find_in(t, b, NodeKind::Group) is None,
        find_in(n, b, NodeKind::Group) is Some,
    ensures
        find_in(node_removed(n, u, k), b, NodeKind::Group) is Some,
    decreases n,
{
    match n {
        NodeView::Group(g) => {
            if !node_matches(n, b, NodeKind::Group) {
                lemma_seq_remove_keeps_group(g.children, u, k, b);
            }
        },
        NodeView::Entry(_) => {},
    }
}

pub proof fn lemma_seq_remove_keeps_group(s: Seq<NodeView>, u: Seq<char>, k: NodeKind, b: Seq<char>)
    requires
        seq_find_in(s, u, k) matches Option::Some(t) && find_in(t, b, NodeKind::Group) is None,
        seq_find_in(s, b, NodeKind::Group) is Some,
    ensures
        seq_find_in(seq_remove_first(s, u, k), b, NodeKind::Group) is Some,
    decreases s,
{
    let rest = s.subrange(1, s.len() as int);
    let t = seq_find_in(s, u, k)->Some_0;
    if node_matches(s[0], u, k) {
        assert(t == s[0]);
        assert(seq_remove_first(s, u, k) == rest);
    } else if find_in(s[0], u, k) is Some {
        assert(t == find_in(s[0], u, k)->Some_0);
        let ns = seq![node_removed(s[0], u, k)] + rest;
        assert(seq_remove_first(s, u, k) == ns);
        assert(ns[0] == node_removed(s[0], u, k));
        assert(ns.subrange(1, ns.len() as int) =~= rest);
        if find_in(s[0], b, NodeKind::Group) is Some {
            lemma_node_removed_keeps_group(s[0], u, k, b);
        }
    } else {
        let ns = seq![s[0]] + seq_remove_first(rest, u, k);
        assert(seq_remove_first(s, u, k) == ns);
        assert(ns[0] == s[0]);
        assert(ns.subrange(1, ns.len() as int) =~= seq_remove_first(rest, u, k));
        if find_in(s[0], b, NodeKind::Group) is None {
            lemma_seq_remove_keeps_group(rest, u, k, b);
        }
    }
}

// ---------------------------------------------------------------------------
// Specification: clearing the children of a group
// ---------------------------------------------------------------------------

/// The node `n` with the first group named `u` in its subtree (itself
/// included) stripped of all children at once.
pub open spec fn node_cleared(n: NodeView, u: Seq<char>) -> NodeView
    decreases n,
{
    match n {
        NodeView::Group(g) => if g.uuid == u {
            NodeView::Group(GroupView { uuid: g.uuid, name: g.name, icon: g.icon, children: Seq::empty() })
        } else {
            NodeView::Group(
                GroupView {
                    uuid: g.uuid,
                    name: g.name,
                    icon: g.icon,
                    children: seq_clear_group(g.children, u),
                },
            )
        },
        NodeView::Entry(_) => n,
    }
}

pub open spec fn seq_clear_group(s: Seq<NodeView>, u: Seq<char>) -> Seq<NodeView>
    decreases s,
{
    if s.len() == 0 {
        s
    } else if find_in(s[0], u, NodeKind::Group) is Some {
        seq![node_cleared(s[0], u)] + s.subrange(1, s.len() as int)
    } else {
        seq![s[0]] + seq_clear_group(s.subrange(1, s.len() as int), u)
    }
}

pub proof fn lemma_seq_clear_group_skip(s: Seq<NodeView>, j: int, u: Seq<char>)
    requires
        0 <= j <= s.len(),
        forall|i: int| 0 <= i < j ==> find_in(#[trigger] s[i], u, NodeKind::Group) is None,
    ensures
        seq_clear_group(s, u) == s.subrange(0, j) + seq_clear_group(
            s.subrange(j, s.len() as int),
            u,
        ),
    decreases j,
{
    if j > 0 {
        let rest = s.subrange(1, s.len() as int);
        assert(forall|i: int|
            0 <= i < j - 1 ==> find_in(#[trigger] rest[i], u, NodeKind::Group) is None);
        lemma_seq_clear_group_skip(rest, j - 1, u);
        assert(rest.subrange(j - 1, rest.len() as int) =~= s.subrange(j, s.len() as int));
        assert(seq![s[0]] + (rest.subrange(0, j - 1) + seq_clear_group(
            s.subrange(j, s.len() as int),
            u,
        )) =~= s.subrange(0, j) + seq_clear_group(s.subrange(j, s.len() as int), u));
    } else {
        assert(s.subrange(0, s.len() as int) =~= s);
        assert(s.subrange(0, 0) + seq_clear_group(s, u) =~= seq_clear_group(s, u));
    }
}

// ---------------------------------------------------------------------------
// Specification: rewriting an entry's fields
// ---------------------------------------------------------------------------

/// The field list with the value at `f.key` replaced at its first
/// occurrence, or with `f` appended when the key is absent.
pub open spec fn upsert(s: Seq<FieldView>, f: FieldView) -> Seq<FieldView>
    decreases s,
{
    if s.len() == 0 {
        seq![f]
    } else if s[0].key == f.key {
        seq![f] + s.subrange(1, s.len() as int)
    } else {
        seq![s[0]] + upsert(s.subrange(1, s.len() as int), f)
    }
}

/// All of `ps` upserted in order.
pub open spec fn upsert_all(s: Seq<FieldView>, ps: Seq<FieldView>) -> Seq<FieldView>
    decreases ps,
{
    if ps.len() == 0 {
        s
    } else {
        upsert_all(upsert(s, ps[0]), ps.subrange(1, ps.len() as int))
    }
}

pub proof fn lemma_upsert_skip(s: Seq<FieldView>, j: int, f: FieldView)
    requires
        0 <= j <= s.len(),
        forall|i: int| 0 <= i < j ==> (#[trigger] s[i]).key != f.key,
    ensures
        upsert(s, f) == s.subrange(0, j) + upsert(s.subrange(j, s.len() as int), f),
    decreases j,
{
    if j > 0 {
        let rest = s.subrange(1, s.len() as int);
        assert(forall|i: int| 0 <= i < j - 1 ==> (#[trigger] rest[i]).key != f.key);
        lemma_upsert_skip(rest, j - 1, f);
        assert(rest.subrange(j - 1, rest.len() as int) =~= s.subrange(j, s.len() as int));
        assert(seq![s[0]] + (rest.subrange(0, j - 1) + upsert(s.subrange(j, s.len() as int), f))
            =~= s.subrange(0, j) + upsert(s.subrange(j, s.len() as int), f));
    } else {
        assert(s.subrange(0, s.len() as int) =~= s);
        assert(s.subrange(0, 0) + upsert(s, f) =~= upsert(s, f));
    }
}

/// The entry keeps its identity and provisioning string; only the fields
/// are rewritten.
pub open spec fn entry_with_fields(e: EntryView, fs: Seq<FieldView>) -> EntryView {
    EntryView { uuid: e.uuid, fields: fs, otp: e.otp }
}

/// The node `n` with the fields of the first entry named `u` in its subtree
/// rewritten by upserting every pair of `ps` in order.
pub open spec fn node_updated(n: NodeView, u: Seq<char>, ps: Seq<FieldView>) -> NodeView
    decreases n,
{
    match n {
        NodeView::Entry(e) => if e.uuid == u {
            NodeView::Entry(entry_with_fields(e, upsert_all(e.fields, ps)))
        } else {
            n
        },
        NodeView::Group(g) => NodeView::Group(
            GroupView {
                uuid: g.uuid,
                name: g.name,
                icon: g.icon,
                children: seq_update_entry(g.children, u, ps),
            },
        ),
    }
}

pub open spec fn seq_update_entry(s: Seq<NodeView>, u: Seq<char>, ps: Seq<FieldView>) -> Seq<
    NodeView,
>
    decreases s,
{
    if s.len() == 0 {
        s
    } else if find_in(s[0], u, NodeKind::Entry) is Some {
        seq![node_updated(s[0], u, ps)] + s.subrange(1, s.len() as int)
    } else {
        seq![s[0]] + seq_update_entry(s.subrange(1, s.len() as int), u, ps)
    }
}

pub proof fn lemma_seq_update_entry_skip(s: Seq<NodeView>, j: int, u: Seq<char>, ps: Seq<FieldView>)
    requires
        0 <= j <= s.len(),
        forall|i: int| 0 <= i < j ==> find_in(#[trigger] s[i], u, NodeKind::Entry) is None,
    ensures
        seq_update_entry(s, u, ps) == s.subrange(0, j) + seq_update_entry(
            s.subrange(j, s.len() as int),
            u,
            ps,
        ),
    decreases j,
{
    if j > 0 {
        let rest = s.subrange(1, s.len() as int);
        assert(forall|i: int|
            0 <= i < j - 1 ==> find_in(#[trigger] rest[i], u, NodeKind::Entry) is None);
        lemma_seq_update_entry_skip(rest, j - 1, u, ps);
        assert(rest.subrange(j - 1, rest.len() as int) =~= s.subrange(j, s.len() as int));
        assert(seq![s[0]] + (rest.subrange(0, j - 1) + seq_update_entry(
            s.subrange(j, s.len() as int),
            u,
            ps,
        )) =~= s.subrange(0, j) + seq_update_entry(s.subrange(j, s.len() as int), u, ps));
    } else {
        assert(s.subrange(0, s.len() as int) =~= s);
        assert(s.subrange(0, 0) + seq_update_entry(s, u, ps) =~= seq_update_entry(s, u, ps));
    }
}

// ---------------------------------------------------------------------------
// Executable clearing and updating
// ---------------------------------------------------------------------------

/// Empties the children of the first group with uuid `u` strictly inside
/// `g`, in document order. Reports whether such a group was found; the tree
/// is unchanged when not.
pub fn clear_group_in(g: &mut VaultGroup, u: &String) -> (found: bool)
    ensures
        found == (seq_find_in(nodes_view(old(g).children@), u@, NodeKind::Group) is Some),
        final(g)@ == (GroupView {
            uuid: old(g)@.uuid,
            name: old(g)@.name,
            icon: old(g)@.icon,
            children: seq_clear_group(nodes_view(old(g).children@), u@),
        }),
        !found ==> final(g)@ == old(g)@,
    decreases node_height(NodeView::Group(old(g)@)), 0nat,
{
    broadcast use lemma_nodes_view_len, lemma_nodes_view_index;

    let ghost all = nodes_view(old(g).children@);
    let n = g.children.len();
    let mut i: usize = 0;
    while i < n
        invariant
            0 <= i <= n,
            n == g.children.len(),
            g.uuid == old(g).uuid,
            g.name == old(g).name,
            g.icon == old(g).icon,
            all == nodes_view(old(g).children@),
            nodes_view(g.children@) == all,
            all.len() == n,
            forall|j: int| 0 <= j < i ==> find_in(#[trigger] all[j], u@, NodeKind::Group) is None,
        decreases n - i,
    {
        broadcast use lemma_nodes_view_len, lemma_nodes_view_index;

        let ghost cur = g.children@;
        proof {
            lemma_nodes_view_index(cur, i as int);
            assert(node_view(cur[i as int]) == all[i as int]);
            lemma_seq_height_index(all, i as int);
            assert(old(g)@.children == all);
            assert(node_height(NodeView::Group(old(g)@)) == 1 + seq_height(all));
        }
        let hit = clear_in_node(&mut g.children[i], u);
        proof {
            assert(g.children@ == cur.update(i as int, g.children@[i as int]));
            lemma_nodes_view_update(cur, i as int, g.children@[i as int]);
        }
        if hit {
            proof {
                assert(find_in(all[i as int], u@, NodeKind::Group) is Some);
                assert(node_view(g.children@[i as int]) == node_cleared(all[i as int], u@));
                lemma_seq_clear_group_skip(all, i as int, u@);
                let suf = all.subrange(i as int, n as int);
                assert(suf[0] == all[i as int]);
                assert(seq_clear_group(suf, u@) == seq![node_cleared(all[i as int], u@)]
                    + suf.subrange(1, suf.len() as int));
                assert(suf.subrange(1, suf.len() as int) =~= all.subrange(i + 1, n as int));
                assert(seq_clear_group(all, u@) =~= all.update(
                    i as int,
                    node_cleared(all[i as int], u@),
                ));
                assert(g@.children =~= seq_clear_group(all, u@));
                lemma_seq_find_in_skip(all, i as int, u@, NodeKind::Group);
            }
            return true;
        }
        proof {
            assert(find_in(all[i as int], u@, NodeKind::Group) is None);
            assert(node_view(g.children@[i as int]) == all[i as int]);
            assert(nodes_view(g.children@) =~= all.update(i as int, all[i as int]));
            assert(all.update(i as int, all[i as int]) =~= all);
        }
        i = i + 1;
    }
    proof {
        lemma_seq_find_in_skip(all, n as int, u@, NodeKind::Group);
        lemma_seq_clear_group_skip(all, n as int, u@);
        assert(all.subrange(n as int, n as int) =~= Seq::<NodeView>::empty());
        assert(all.subrange(0, n as int) + seq_clear_group(
            all.subrange(n as int, n as int),
            u@,
        ) =~= all);
        assert(g@ =~= old(g)@);
        assert(g@ =~= (GroupView {
            uuid: old(g)@.uuid,
            name: old(g)@.name,
            icon: old(g)@.icon,
            children: seq_clear_group(all, u@),
        }));
    }
    false
}

/// One node's share of the clearing: strip this group if it is the one,
/// else descend; entries hold nothing.
fn clear_in_node(nd: &mut Node, u: &String) -> (found: bool)
    ensures
        found == (find_in(node_view(*old(nd)), u@, NodeKind::Group) is Some),
        found ==> node_view(*final(nd)) == node_cleared(node_view(*old(nd)), u@),
        !found ==> node_view(*final(nd)) == node_view(*old(nd)),
    decreases node_height(node_view(*old(nd))), 1nat,
{
    match nd {
        Node::Group(cg) => {
            if cg.uuid == *u {
                cg.children.clear();
                proof {
                    assert(node_matches(node_view(*old(nd)), u@, NodeKind::Group));
                }
                true
            } else {
                clear_group_in(cg, u)
            }
        },
        Node::Entry(_) => false,
    }
}

/// Clones one byte buffer; the contents are preserved.
pub fn clone_bytes(b: &Vec<u8>) -> (r: Vec<u8>)
    ensures
        r@ == b@,
{
    let r = b.clone();
    proof {
        assert(forall|i: int| 0 <= i < b@.len() ==> r@[i] == b@[i]);
        assert(r@ =~= b@);
    }
    r
}

/// Clones one tagged value; the view is preserved.
pub fn clone_value(v: &Value) -> (r: Value)
    ensures
        value_view(r) == value_view(*v),
{
    match v {
        Value::PlainText(s) => Value::PlainText(s.clone()),
        Value::SensitiveText(b) => Value::SensitiveText(clone_bytes(b)),
        Value::InlineBinary(b) => Value::InlineBinary(clone_bytes(b)),
        Value::BinaryReference(i) => Value::BinaryReference(*i),
    }
}

/// Clones one field; the view is preserved.
pub fn clone_field(f: &Field) -> (r: Field)
    ensures
        field_view(r) == field_view(*f),
{
    Field { key: f.key.clone(), value: clone_value(&f.value) }
}

/// Replaces the value at `f.key` at its first occurrence, or appends `f`
/// when the key is absent.
pub fn upsert_field(fields: &mut Vec<Field>, f: Field)
    ensures
        fields_view(final(fields)@) == upsert(fields_view(old(fields)@), field_view(f)),
{
    let ghost all = fields_view(old(fields)@);
    let ghost fv = field_view(f);
    let n = fields.len();
    let mut i: usize = 0;
    while i < n
        invariant
            0 <= i <= n,
            n == fields.len(),
            fields@ == old(fields)@,
            all == fields_view(old(fields)@),
            all.len() == n,
            fv == field_view(f),
            forall|j: int| 0 <= j < i ==> (#[trigger] all[j]).key != fv.key,
        decreases n - i,
    {
        proof {
            assert(all[i as int] == field_view(fields@[i as int]));
        }
        if fields[i].key == f.key {
            proof {
                lemma_upsert_skip(all, i as int, fv);
                let suf = all.subrange(i as int, n as int);
                assert(suf[0] == all[i as int]);
                assert(upsert(suf, fv) == seq![fv] + suf.subrange(1, suf.len() as int));
                assert(suf.subrange(1, suf.len() as int) =~= all.subrange(i + 1, n as int));
                assert(upsert(all, fv) =~= all.update(i as int, fv));
            }
            fields[i] = f;
            proof {
                assert(fields_view(fields@) =~= upsert(all, fv));
            }
            return ;
        }
        i = i + 1;
    }
    proof {
        lemma_upsert_skip(all, n as int, fv);
        assert(all.subrange(n as int, n as int) =~= Seq::<FieldView>::empty());
        assert(upsert(Seq::<FieldView>::empty(), fv) == seq![fv]);
    }
    fields.push(f);
    proof {
        assert(all.subrange(0, all.len() as int) =~= all);
        assert(fields_view(fields@) =~= all + seq![fv]);
    }
}

/// Upserts every field of `ps`, in order.
pub fn apply_field_updates(fields: &mut Vec<Field>, ps: &Vec<Field>)
    ensures
        fields_view(final(fields)@) == upsert_all(fields_view(old(fields)@), fields_view(ps@)),
{
    let ghost pall = fields_view(ps@);
    let m = ps.len();
    proof {
        assert(pall.subrange(0, m as int) =~= pall);
    }
    let mut j: usize = 0;
    while j < m
        invariant
            0 <= j <= m,
            m == ps.len(),
            pall == fields_view(ps@),
            pall.len() == m,
            upsert_all(fields_view(old(fields)@), pall) == upsert_all(
                fields_view(fields@),
                pall.subrange(j as int, m as int),
            ),
        decreases m - j,
    {
        let ghost before = fields_view(fields@);
        proof {
            assert(pall[j as int] == field_view(ps@[j as int]));
        }
        let f = clone_field(&ps[j]);
        upsert_field(fields, f);
        proof {
            let suf = pall.subrange(j as int, m as int);
            assert(suf[0] == pall[j as int]);
            assert(upsert_all(before, suf) == upsert_all(
                upsert(before, pall[j as int]),
                suf.subrange(1, suf.len() as int),
            ));
            assert(suf.subrange(1, suf.len() as int) =~= pall.subrange(j + 1, m as int));
        }
        j = j + 1;
    }
    proof {
        assert(pall.subrange(m as int, m as int) =~= Seq::<FieldView>::empty());
    }
}

/// Rewrites the fields of the first entry with uuid `u` strictly inside
/// `g`, in document order, upserting every field of `ps` in order. Reports
/// whether the entry was found; the tree is unchanged when not.
pub fn update_entry_in(g: &mut VaultGroup, u: &String, ps: &Vec<Field>) -> (found: bool)
    ensures
        found == (seq_find_in(nodes_view(old(g).children@), u@, NodeKind::Entry) is Some),
        final(g)@ == (GroupView {
            uuid: old(g)@.uuid,
            name: old(g)@.name,
            icon: old(g)@.icon,
            children: seq_update_entry(nodes_view(old(g).children@), u@, fields_view(ps@)),
        }),
        !found ==> final(g)@ == old(g)@,
    decreases node_height(NodeView::Group(old(g)@)), 0nat,
{
    broadcast use lemma_nodes_view_len, lemma_nodes_view_index;

    let ghost all = nodes_view(old(g).children@);
    let ghost pall = fields_view(ps@);
    let n = g.children.len();
    let mut i: usize = 0;
    while i < n
        invariant
            0 <= i <= n,
            n == g.children.len(),
            g.uuid == old(g).uuid,
            g.name == old(g).name,
            g.icon == old(g).icon,
            all == nodes_view(old(g).children@),
            nodes_view(g.children@) == all,
            all.len() == n,
            pall == fields_view(ps@),
            forall|j: int| 0 <= j < i ==> find_in(#[trigger] all[j], u@, NodeKind::Entry) is None,
        decreases n - i,
    {
        broadcast use lemma_nodes_view_len, lemma_nodes_view_index;

        let ghost cur = g.children@;
        proof {
            lemma_nodes_view_index(cur, i as int);
            assert(node_view(cur[i as int]) == all[i as int]);
            lemma_seq_height_index(all, i as int);
            assert(old(g)@.children == all);
            assert(node_height(NodeView::Group(old(g)@)) == 1 + seq_height(all));
        }
        let hit = update_in_node(&mut g.children[i], u, ps);
        proof {
            assert(g.children@ == cur.update(i as int, g.children@[i as int]));
            lemma_nodes_view_update(cur, i as int, g.children@[i as int]);
        }
        if hit {
            proof {
                assert(find_in(all[i as int], u@, NodeKind::Entry) is Some);
                assert(node_view(g.children@[i as int]) == node_updated(
                    all[i as int],
                    u@,
                    pall,
                ));
                lemma_seq_update_entry_skip(all, i as int, u@, pall);
                let suf = all.subrange(i as int, n as int);
                assert(suf[0] == all[i as int]);
                assert(seq_update_entry(suf, u@, pall) == seq![
                    node_updated(all[i as int], u@, pall),
                ] + suf.subrange(1, suf.len() as int));
                assert(suf.subrange(1, suf.len() as int) =~= all.subrange(i + 1, n as int));
                assert(seq_update_entry(all, u@, pall) =~= all.update(
                    i as int,
                    node_updated(all[i as int], u@, pall),
                ));
                assert(g@.children =~= seq_update_entry(all, u@, pall));
                lemma_seq_find_in_skip(all, i as int, u@, NodeKind::Entry);
            }
            return true;
        }
        proof {
            assert(find_in(all[i as int], u@, NodeKind::Entry) is None);
            assert(node_view(g.children@[i as int]) == all[i as int]);
            assert(nodes_view(g.children@) =~= all.update(i as int, all[i as int]));
            assert(all.update(i as int, all[i as int]) =~= all);
        }
        i = i + 1;
    }
    proof {
        lemma_seq_find_in_skip(all, n as int, u@, NodeKind::Entry);
        lemma_seq_update_entry_skip(all, n as int, u@, pall);
        assert(all.subrange(n as int, n as int) =~= Seq::<NodeView>::empty());
        assert(all.subrange(0, n as int) + seq_update_entry(
            all.subrange(n as int, n as int),
            u@,
            pall,
        ) =~= all);
        assert(g@ =~= old(g)@);
        assert(g@ =~= (GroupView {
            uuid: old(g)@.uuid,
            name: old(g)@.name,
            icon: old(g)@.icon,
            children: seq_update_entry(all, u@, pall),
        }));
    }
    false
}

/// One node's share of the field rewrite: rewrite this entry if it is the
/// one, else descend into a group.
fn update_in_node(nd: &mut Node, u: &String, ps: &Vec<Field>) -> (found: bool)
    ensures
        found == (find_in(node_view(*old(nd)), u@, NodeKind::Entry) is Some),
        found ==> node_view(*final(nd)) == node_updated(
            node_view(*old(nd)),
            u@,
            fields_view(ps@),
        ),
        !found ==> node_view(*final(nd)) == node_view(*old(nd)),
    decreases node_height(node_view(*old(nd))), 1nat,
{
    match nd {
        Node::Entry(ce) => {
            if ce.uuid == *u {
                apply_field_updates(&mut ce.fields, ps);
                proof {
                    assert(node_matches(node_view(*old(nd)), u@, NodeKind::Entry));
                }
                true
            } else {
                false
            }
        },
        Node::Group(cg) => update_entry_in(cg, u, ps),
    }
}

} // verus!
