//! Tree navigation: uuid lookup, ancestor/descendant queries, and the
//! specification of depth-first pre-order search with first-match-wins
//! tie-breaking.

use vstd::prelude::*;
use crate::model::{
    Node, NodeKind, NodeView, VaultGroup, node_view, node_matches, node_uuid, nodes_view,
    lemma_nodes_view_len, lemma_nodes_view_index,
};

verus! {

// ---------------------------------------------------------------------------
// Specification: pre-order search
// ---------------------------------------------------------------------------

/// First node (in depth-first pre-order, the document order) of kind `k`
/// with uuid `u` in the subtree rooted at `n`, the root included.
pub open spec fn find_in(n: NodeView, u: Seq<char>, k: NodeKind) -> Option<NodeView>
    decreases n,
{
    if node_matches(n, u, k) {
        Option::Some(n)
    } else {
        match n {
            NodeView::Group(g) => seq_find_in(g.children, u, k),
            NodeView::Entry(_) => Option::None,
        }
    }
}

/// First match over a forest, scanned left to right.
pub open spec fn seq_find_in(s: Seq<NodeView>, u: Seq<char>, k: NodeKind) -> Option<NodeView>
    decreases s,
{
    if s.len() == 0 {
        Option::None
    } else {
        match find_in(s[0], u, k) {
            Option::Some(r) => Option::Some(r),
            Option::None => seq_find_in(s.subrange(1, s.len() as int), u, k),
        }
    }
}

/// Whether the subtree rooted at `n` holds a node with uuid `u`, of any kind.
pub open spec fn contains_uuid(n: NodeView, u: Seq<char>) -> bool
    decreases n,
{
    node_uuid(n) == u || (match n {
        NodeView::Group(g) => seq_contains_uuid(g.children, u),
        NodeView::Entry(_) => false,
    })
}

pub open spec fn seq_contains_uuid(s: Seq<NodeView>, u: Seq<char>) -> bool
    decreases s,
{
    if s.len() == 0 {
        false
    } else {
        contains_uuid(s[0], u) || seq_contains_uuid(s.subrange(1, s.len() as int), u)
    }
}

/// Whether some group with uuid `anc` exists in the subtree rooted at `n`
/// whose own subtree holds a node with uuid `u` (the ancestor group itself
/// counts as being inside).
pub open spec fn under_group(n: NodeView, anc: Seq<char>, u: Seq<char>) -> bool
    decreases n,
{
    match n {
        NodeView::Group(g) => (g.uuid == anc && contains_uuid(n, u)) || seq_under_group(
            g.children,
            anc,
            u,
        ),
        NodeView::Entry(_) => false,
    }
}

pub open spec fn seq_under_group(s: Seq<NodeView>, anc: Seq<char>, u: Seq<char>) -> bool
    decreases s,
{
    if s.len() == 0 {
        false
    } else {
        under_group(s[0], anc, u) || seq_under_group(s.subrange(1, s.len() as int), anc, u)
    }
}

/// How many nodes of the subtree rooted at `n` carry uuid `u`.
pub open spec fn count_uuid(n: NodeView, u: Seq<char>) -> nat
    decreases n,
{
    let own: nat = if node_uuid(n) == u {
        1
    } else {
        0
    };
    match n {
        NodeView::Group(g) => own + seq_count_uuid(g.children, u),
        NodeView::Entry(_) => own,
    }
}

pub open spec fn seq_count_uuid(s: Seq<NodeView>, u: Seq<char>) -> nat
    decreases s,
{
    if s.len() == 0 {
        0
    } else {
        count_uuid(s[0], u) + seq_count_uuid(s.subrange(1, s.len() as int), u)
    }
}

/// A tree is well formed when no uuid occurs at two nodes.
pub open spec fn wf_tree(n: NodeView) -> bool {
    forall|u: Seq<char>| #[trigger] count_uuid(n, u) <= 1
}

/// Whether some group with uuid `p` in the subtree rooted at `n` has a
/// direct child with uuid `u`.
pub open spec fn child_of(n: NodeView, p: Seq<char>, u: Seq<char>) -> bool
    decreases n,
{
    match n {
        NodeView::Group(g) => (g.uuid == p && exists|i: int|
            0 <= i < g.children.len() && node_uuid(#[trigger] g.children[i]) == u)
            || seq_child_of(g.children, p, u),
        NodeView::Entry(_) => false,
    }
}

pub open spec fn seq_child_of(s: Seq<NodeView>, p: Seq<char>, u: Seq<char>) -> bool
    decreases s,
{
    if s.len() == 0 {
        false
    } else {
        child_of(s[0], p, u) || seq_child_of(s.subrange(1, s.len() as int), p, u)
    }
}

/// Whether a group with uuid `p` exists in the subtree rooted at `n`.
pub open spec fn group_in(n: NodeView, p: Seq<char>) -> bool {
    find_in(n, p, NodeKind::Group) is Some
}

// ---------------------------------------------------------------------------
// Basic consequences of the search specification
// ---------------------------------------------------------------------------

/// A found node matches what was sought.
pub proof fn lemma_find_in_matches(n: NodeView, u: Seq<char>, k: NodeKind)
    ensures
        find_in(n, u, k) matches Option::Some(r) ==> node_matches(r, u, k),
    decreases n,
{
    if !node_matches(n, u, k) {
        match n {
            NodeView::Group(g) => {
                lemma_seq_find_in_matches(g.children, u, k);
            },
            NodeView::Entry(_) => {},
        }
    }
}

pub proof fn lemma_seq_find_in_matches(s: Seq<NodeView>, u: Seq<char>, k: NodeKind)
    ensures
        seq_find_in(s, u, k) matches Option::Some(r) ==> node_matches(r, u, k),
    decreases s,
{
    if s.len() > 0 {
        lemma_find_in_matches(s[0], u, k);
        lemma_seq_find_in_matches(s.subrange(1, s.len() as int), u, k);
    }
}

/// Conversely, a uuid in the tree is found under its node's kind; and a
/// uuid absent from the tree is found under neither kind.
pub proof fn lemma_contains_find_some(n: NodeView, u: Seq<char>)
    ensures
        contains_uuid(n, u) <==> (find_in(n, u, NodeKind::Group) is Some || find_in(
            n,
            u,
            NodeKind::Entry,
        ) is Some),
    decreases n,
{
    match n {
        NodeView::Group(g) => {
            lemma_seq_contains_find_some(g.children, u);
        },
        NodeView::Entry(_) => {},
    }
}

pub proof fn lemma_seq_contains_find_some(s: Seq<NodeView>, u: Seq<char>)
    ensures
        seq_contains_uuid(s, u) <==> (seq_find_in(s, u, NodeKind::Group) is Some || seq_find_in(
            s,
            u,
            NodeKind::Entry,
        ) is Some),
    decreases s,
{
    if s.len() > 0 {
        lemma_contains_find_some(s[0], u);
        lemma_seq_contains_find_some(s.subrange(1, s.len() as int), u);
    }
}

/// Skipping a prefix of a forest in which nothing matches leaves the search
/// result unchanged.
pub proof fn lemma_seq_find_in_skip(s: Seq<NodeView>, j: int, u: Seq<char>, k: NodeKind)
    requires
        0 <= j <= s.len(),
        forall|i: int| 0 <= i < j ==> find_in(#[trigger] s[i], u, k) is None,
    ensures
        seq_find_in(s, u, k) == seq_find_in(s.subrange(j, s.len() as int), u, k),
    decreases j,
{
    if j > 0 {
        let rest = s.subrange(1, s.len() as int);
        assert(forall|i: int| 0 <= i < j - 1 ==> find_in(#[trigger] rest[i], u, k) is None);
        lemma_seq_find_in_skip(rest, j - 1, u, k);
        assert(rest.subrange(j - 1, rest.len() as int) =~= s.subrange(j, s.len() as int));
    } else {
        assert(s.subrange(0, s.len() as int) =~= s);
    }
}

pub proof fn lemma_seq_contains_skip(s: Seq<NodeView>, j: int, u: Seq<char>)
    requires
        0 <= j <= s.len(),
        forall|i: int| 0 <= i < j ==> !contains_uuid(#[trigger] s[i], u),
    ensures
        seq_contains_uuid(s, u) == seq_contains_uuid(s.subrange(j, s.len() as int), u),
    decreases j,
{
    if j > 0 {
        let rest = s.subrange(1, s.len() as int);
        assert(forall|i: int| 0 <= i < j - 1 ==> !contains_uuid(#[trigger] rest[i], u));
        lemma_seq_contains_skip(rest, j - 1, u);
        assert(rest.subrange(j - 1, rest.len() as int) =~= s.subrange(j, s.len() as int));
    } else {
        assert(s.subrange(0, s.len() as int) =~= s);
    }
}

pub proof fn lemma_seq_under_group_skip(s: Seq<NodeView>, j: int, anc: Seq<char>, u: Seq<char>)
    requires
        0 <= j <= s.len(),
        forall|i: int| 0 <= i < j ==> !under_group(#[trigger] s[i], anc, u),
    ensures
        seq_under_group(s, anc, u) == seq_under_group(s.subrange(j, s.len() as int), anc, u),
    decreases j,
{
    if j > 0 {
        let rest = s.subrange(1, s.len() as int);
        assert(forall|i: int| 0 <= i < j - 1 ==> !under_group(#[trigger] rest[i], anc, u));
        lemma_seq_under_group_skip(rest, j - 1, anc, u);
        assert(rest.subrange(j - 1, rest.len() as int) =~= s.subrange(j, s.len() as int));
    } else {
        assert(s.subrange(0, s.len() as int) =~= s);
    }
}


/// Searching a concatenation: the left forest wins when it has a match.
pub proof fn lemma_seq_find_in_append(s: Seq<NodeView>, t: Seq<NodeView>, u: Seq<char>, k: NodeKind)
    ensures
        seq_find_in(s + t, u, k) == (match seq_find_in(s, u, k) {
            Option::Some(r) => Option::Some(r),
            Option::None => seq_find_in(t, u, k),
        }),
    decreases s,
{
    if s.len() == 0 {
        assert(s + t =~= t);
    } else {
        let rest = s.subrange(1, s.len() as int);
        assert((s + t)[0] == s[0]);
        assert((s + t).subrange(1, (s + t).len() as int) =~= rest + t);
        lemma_seq_find_in_append(rest, t, u, k);
    }
}

// ---------------------------------------------------------------------------
// Executable traversals
// ---------------------------------------------------------------------------

/// Whether any node in the subtree rooted at `g` (the group included)
/// carries uuid `u`.
pub fn group_contains_uuid(g: &VaultGroup, u: &String) -> (r: bool)
    ensures
        r == contains_uuid(NodeView::Group(g@), u@),
    decreases *g,
{
    broadcast use lemma_nodes_view_len, lemma_nodes_view_index;

    if g.uuid == *u {
        return true;
    }
    let ghost all = nodes_view(g.children@);
    let n = g.children.len();
    let mut i: usize = 0;
    while i < n
        invariant
            0 <= i <= n,
            n == g.children.len(),
            all == nodes_view(g.children@),
            all.len() == n,
            g.uuid@ != u@,
            forall|j: int| 0 <= j < i ==> !contains_uuid(#[trigger] all[j], u@),
        decreases n - i,
    {
        broadcast use lemma_nodes_view_len, lemma_nodes_view_index;

        let found = match &g.children[i] {
            Node::Group(cg) => group_contains_uuid(cg, u),
            Node::Entry(ce) => ce.uuid == *u,
        };
        if found {
            proof {
                lemma_seq_contains_skip(all, i as int, u@);
                let suf = all.subrange(i as int, n as int);
                assert(suf[0] == all[i as int]);
                assert(contains_uuid(suf[0], u@));
            }
            return true;
        }
        i = i + 1;
    }
    proof {
        lemma_seq_contains_skip(all, n as int, u@);
        assert(all.subrange(n as int, n as int) =~= Seq::<NodeView>::empty());
    }
    false
}

/// First node of kind `k` with uuid `u` in the forest `children`, scanned
/// in document order.
pub fn find_in_children<'a>(children: &'a Vec<Node>, u: &String, k: NodeKind) -> (r: Option<
    &'a Node,
>)
    ensures
        match r {
            Option::Some(found) => seq_find_in(nodes_view(children@), u@, k) == Option::Some(
                node_view(*found),
            ),
            Option::None => seq_find_in(nodes_view(children@), u@, k) is None,
        },
    decreases children@,
{
    broadcast use lemma_nodes_view_len, lemma_nodes_view_index;

    let ghost all = nodes_view(children@);
    let n = children.len();
    let mut i: usize = 0;
    while i < n
        invariant
            0 <= i <= n,
            n == children.len(),
            all == nodes_view(children@),
            all.len() == n,
            forall|j: int| 0 <= j < i ==> find_in(#[trigger] all[j], u@, k) is None,
        decreases n - i,
    {
        broadcast use lemma_nodes_view_len, lemma_nodes_view_index;

        let child = &children[i];
        let own_match = match child {
            Node::Group(cg) => matches!(k, NodeKind::Group) && cg.uuid == *u,
            Node::Entry(ce) => matches!(k, NodeKind::Entry) && ce.uuid == *u,
        };
        if own_match {
            proof {
                lemma_seq_find_in_skip(all, i as int, u@, k);
                let suf = all.subrange(i as int, n as int);
                assert(suf[0] == all[i as int]);
                assert(find_in(suf[0], u@, k) == Option::Some(node_view(*child)));
            }
            return Some(child);
        }
        if let Node::Group(cg) = child {
            let deeper = find_in_children(&cg.children, u, k);
            proof {
                lemma_seq_find_in_skip(all, i as int, u@, k);
                let suf = all.subrange(i as int, n as int);
                assert(suf[0] == all[i as int]);
            }
            if let Some(found) = deeper {
                return Some(found);
            }
            proof {
                assert(find_in(all[i as int], u@, k) is None);
            }
        } else {
            proof {
                assert(find_in(all[i as int], u@, k) is None);
            }
        }
        i = i + 1;
    }
    proof {
        lemma_seq_find_in_skip(all, n as int, u@, k);
        assert(all.subrange(n as int, n as int) =~= Seq::<NodeView>::empty());
    }
    None
}

/// Whether `u` lies inside the subtree of some group with uuid `anc`, the
/// ancestor group itself included, anywhere under `g` (including `g`).
pub fn group_has_descendant(g: &VaultGroup, anc: &String, u: &String) -> (r: bool)
    ensures
        r == under_group(NodeView::Group(g@), anc@, u@),
    decreases *g,
{
    broadcast use lemma_nodes_view_len, lemma_nodes_view_index;

    if g.uuid == *anc {
        let r = group_contains_uuid(g, u);
        if r {
            return true;
        }
    }
    let ghost all = nodes_view(g.children@);
    let n = g.children.len();
    let mut i: usize = 0;
    while i < n
        invariant
            0 <= i <= n,
            n == g.children.len(),
            all == nodes_view(g.children@),
            all.len() == n,
            !(g.uuid@ == anc@ && contains_uuid(NodeView::Group(g@), u@)),
            forall|j: int| 0 <= j < i ==> !under_group(#[trigger] all[j], anc@, u@),
        decreases n - i,
    {
        broadcast use lemma_nodes_view_len, lemma_nodes_view_index;

        let found = match &g.children[i] {
            Node::Group(cg) => group_has_descendant(cg, anc, u),
            Node::Entry(_) => false,
        };
        if found {
            proof {
                lemma_seq_under_group_skip(all, i as int, anc@, u@);
                let suf = all.subrange(i as int, n as int);
                assert(suf[0] == all[i as int]);
                assert(under_group(suf[0], anc@, u@));
            }
            return true;
        }
        proof {
            assert(!under_group(all[i as int], anc@, u@));
        }
        i = i + 1;
    }
    proof {
        lemma_seq_under_group_skip(all, n as int, anc@, u@);
        assert(all.subrange(n as int, n as int) =~= Seq::<NodeView>::empty());
    }
    false
}

} // verus!
