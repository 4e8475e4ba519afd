//! The vault's public operations: lookup and conversion, structural edits,
//! and the recycle-bin state machine.

use vstd::prelude::*;
use vstd::string::StringExecFns;
use crate::model::{
    Node, NodeKind, NodeView, GroupView, EntryView, VaultGroup, VaultEntry, Vault, VaultView,
    Entry, Group, VaultError, node_view, nodes_view, opt_string_view, group_view,
    lemma_nodes_view_len, lemma_nodes_view_index, lemma_nodes_view_push, node_matches,
};
use crate::navigator::{
    find_in, seq_find_in, under_group, group_in, find_in_children, group_has_descendant,
    lemma_seq_find_in_matches, lemma_seq_find_in_append,
};
use crate::mutation::{
    insert_under_group, seq_remove_first, seq_update_entry, seq_clear_group, insert_in, remove_in,
    update_entry_in, clear_group_in, lemma_seq_remove_keeps_group,
};
use crate::convert::{
    entry_to_display, group_to_display, draft_fields, convert_entry, convert_group,
    build_draft_fields,
};

verus! {

/// The conventional icon code of the recycle-bin group.
pub const RECYCLE_BIN_ICON: u32 = 43;

/// Relies on `uuid::Uuid::new_v4` and the hyphenated `Display` form of
/// `uuid::Uuid`: a freshly drawn random identifier rendered as 36
/// characters. Nothing more is promised of a random value.
#[verifier::external_body]
fn random_uuid_string() -> (r: String)
    ensures
        r@.len() == 36,
{
    uuid::Uuid::new_v4().to_string()
}

/// Whether `u` names a node inside the vault's recycle bin: the bin itself,
/// or anything in the subtree of a group carrying the bin's uuid.
pub open spec fn inside_recycle_bin(v: VaultView, u: Seq<char>) -> bool {
    match v.recycle_bin_uuid {
        Option::Some(b) => u == b || under_group(NodeView::Group(v.root), b, u),
        Option::None => false,
    }
}


/// The view of a freshly created recycle-bin group.
pub open spec fn bin_group_view(b: Seq<char>) -> GroupView {
    GroupView {
        uuid: b,
        name: "Recycle Bin"@,
        icon: Option::Some(RECYCLE_BIN_ICON),
        children: Seq::empty(),
    }
}

/// The tree with a recycle-bin group guaranteed: unchanged when a group
/// named `b` exists anywhere (the root included), else with a fresh bin
/// group appended to the root's children.
pub open spec fn ensure_bin_root(root: GroupView, b: Seq<char>) -> GroupView {
    if group_in(NodeView::Group(root), b) {
        root
    } else {
        GroupView {
            uuid: root.uuid,
            name: root.name,
            icon: root.icon,
            children: root.children.push(NodeView::Group(bin_group_view(b))),
        }
    }
}

/// What holds of the tree after a successful recycle with bin uuid `b`:
/// the bin group is ensured, the target is detached in document order, and
/// the detached node is re-attached under the first group named `b`.
pub open spec fn recycle_ok_with(
    v1: VaultView,
    v2: VaultView,
    u: Seq<char>,
    k: NodeKind,
    b: Seq<char>,
) -> bool {
    let mid = ensure_bin_root(v1.root, b);
    let found = seq_find_in(mid.children, u, k);
    &&& found is Some
    &&& find_in(found->Some_0, b, NodeKind::Group) is None
    &&& v2.root == insert_under_group(
        GroupView {
            uuid: mid.uuid,
            name: mid.name,
            icon: mid.icon,
            children: seq_remove_first(mid.children, u, k),
        },
        b,
        found->Some_0,
    )
    &&& v2.pool == v1.pool
}

/// What holds after a successful recycle: the registered bin uuid is kept,
/// or a fresh one is registered with the enabled flag, and the tree moved
/// the target under the bin.
pub open spec fn recycle_ok(v1: VaultView, v2: VaultView, u: Seq<char>, k: NodeKind) -> bool {
    &&& v2.recycle_bin_uuid is Some
    &&& (v1.recycle_bin_uuid is Some ==> v2.recycle_bin_uuid == v1.recycle_bin_uuid
        && v2.recycle_bin_enabled == v1.recycle_bin_enabled)
    &&& (v1.recycle_bin_uuid is None ==> v2.recycle_bin_enabled == Option::Some(true))
    &&& recycle_ok_with(v1, v2, u, k, v2.recycle_bin_uuid->Some_0)
}

/// What one `empty_recycle_bin` call does: the children of the first group
/// carrying the registered bin uuid are cleared in one truncation; with no
/// bin registered nothing changes; everything else is kept.
pub open spec fn empty_bin_transition(v1: VaultView, v2: VaultView) -> bool {
    v2 == (VaultView {
        root: (GroupView {
            uuid: v1.root.uuid,
            name: v1.root.name,
            icon: v1.root.icon,
            children: match v1.recycle_bin_uuid {
                Option::Some(b) => seq_clear_group(v1.root.children, b),
                Option::None => v1.root.children,
            },
        }),
        ..v1
    })
}

/// The full contract of a recycle call, shared by `recycle`, `delete_entry`
/// and `delete_group`. Failures leave the vault unchanged; recycling the
/// bin itself always fails with `GuardViolation`; an absent target always
/// fails with `NotFound`; and with a registered bin, success is owed
/// whenever the target exists and the bin does not sit inside it.
pub open spec fn recycle_post(
    v1: VaultView,
    v2: VaultView,
    u: String,
    k: NodeKind,
    r: Result<(), VaultError>,
) -> bool {
    let guard1 = v1.recycle_bin_uuid matches Option::Some(b1) && u@ == b1;
    &&& match r {
        Result::Ok(()) => recycle_ok(v1, v2, u@, k),
        Result::Err(e) => v2 == v1 && (e == VaultError::GuardViolation || e
            == (VaultError::NotFound { uuid: u, kind: k })),
    }
    &&& (guard1 ==> r == Result::<(), VaultError>::Err(VaultError::GuardViolation))
    &&& ((r matches Result::Err(VaultError::NotFound { .. })) <==> (!guard1 && seq_find_in(
        v1.root.children,
        u@,
        k,
    ) is None))
    &&& ((v1.recycle_bin_uuid matches Option::Some(b1) && u@ != b1 && (seq_find_in(
        v1.root.children,
        u@,
        k,
    ) matches Option::Some(t) && find_in(t, b1, NodeKind::Group) is None)) ==> r is Ok)
}

impl Vault {
    /// The display-ready reading of the whole tree.
    pub fn root_group(&self) -> (r: Group)
        ensures
            r@ == group_to_display(self@.root, self@.pool, self@.recycle_bin_uuid),
    {
        convert_group(&self.root, &self.attachment_pool, &self.recycle_bin_uuid)
    }

    /// First node of kind `kind` with uuid `uuid`, in document order,
    /// anywhere strictly inside the root.
    pub fn find<'a>(&'a self, uuid: &String, kind: NodeKind) -> (r: Option<&'a Node>)
        ensures
            match r {
                Option::Some(found) => seq_find_in(self@.root.children, uuid@, kind)
                    == Option::Some(node_view(*found)),
                Option::None => seq_find_in(self@.root.children, uuid@, kind) is None,
            },
    {
        find_in_children(&self.root.children, uuid, kind)
    }

    /// The display-ready reading of the first entry with uuid `uuid`, in
    /// document order.
    pub fn find_entry(&self, uuid: &String) -> (r: Option<Entry>)
        ensures
            match r {
                Option::Some(de) => seq_find_in(self@.root.children, uuid@, NodeKind::Entry)
                    matches Option::Some(nv) && nv matches NodeView::Entry(ev) && de@
                    == entry_to_display(ev, self@.pool),
                Option::None => seq_find_in(self@.root.children, uuid@, NodeKind::Entry) is None,
            },
    {
        broadcast use lemma_nodes_view_len, lemma_nodes_view_index;

        match find_in_children(&self.root.children, uuid, NodeKind::Entry) {
            Some(node) => {
                proof {
                    lemma_seq_find_in_matches(self@.root.children, uuid@, NodeKind::Entry);
                }
                match node {
                    Node::Entry(e) => Some(convert_entry(e, &self.attachment_pool)),
                    Node::Group(_) => {
                        proof {
                            assert(false);
                        }
                        None
                    },
                }
            },
            None => None,
        }
    }

    /// The recycle bin's uuid, when one has been registered.
    pub fn get_recycle_bin_uuid(&self) -> (r: Option<String>)
        ensures
            opt_string_view(r) == self@.recycle_bin_uuid,
    {
        match &self.recycle_bin_uuid {
            Some(b) => Some(b.clone()),
            None => None,
        }
    }

    /// Whether `uuid` names the recycle bin itself.
    pub fn is_recycle_bin(&self, uuid: &String) -> (r: bool)
        ensures
            r == (self@.recycle_bin_uuid == Option::Some(uuid@)),
    {
        match &self.recycle_bin_uuid {
            Some(b) => *uuid == *b,
            None => false,
        }
    }

    /// Whether `candidate` lies in the subtree of a group named `ancestor`,
    /// the ancestor group itself included.
    pub fn is_descendant_of(&self, candidate: &String, ancestor: &String) -> (r: bool)
        ensures
            r == under_group(NodeView::Group(self@.root), ancestor@, candidate@),
    {
        group_has_descendant(&self.root, ancestor, candidate)
    }

    /// Whether `uuid` equals the recycle bin's uuid or lies anywhere in its
    /// subtree; false while no bin is registered. Gates the choice between
    /// soft and permanent deletion.
    pub fn is_inside_recycle_bin(&self, uuid: &String) -> (r: bool)
        ensures
            r == inside_recycle_bin(self@, uuid@),
    {
        match &self.recycle_bin_uuid {
            Some(b) => *uuid == *b || group_has_descendant(&self.root, b, uuid),
            None => false,
        }
    }

    /// Creates a new entry from the draft's fields under the given parent
    /// group and returns the engine-assigned uuid. Fails with `NotFound`,
    /// the tree unchanged, when no group carries `parent_group_uuid`.
    pub fn add_entry(&mut self, parent_group_uuid: &String, entry: &Entry) -> (r: Result<
        String,
        VaultError,
    >)
        ensures
            match r {
                Result::Ok(u) => {
                    &&& group_in(NodeView::Group(old(self)@.root), parent_group_uuid@)
                    &&& u@.len() == 36
                    &&& final(self)@ == (VaultView {
                        root: insert_under_group(
                            old(self)@.root,
                            parent_group_uuid@,
                            NodeView::Entry(
                                EntryView {
                                    uuid: u@,
                                    fields: draft_fields(entry@),
                                    otp: Option::None,
                                },
                            ),
                        ),
                        ..old(self)@
                    })
                },
                Result::Err(e) => {
                    &&& !group_in(NodeView::Group(old(self)@.root), parent_group_uuid@)
                    &&& e == (VaultError::NotFound {
                        uuid: *parent_group_uuid,
                        kind: NodeKind::Group,
                    })
                    &&& final(self)@ == old(self)@
                },
            },
    {
        let u = random_uuid_string();
        let fields = build_draft_fields(entry);
        let node = Node::Entry(VaultEntry { uuid: u.clone(), fields, otp: None });
        let ghost nv = node_view(node);
        match insert_in(&mut self.root, parent_group_uuid, node) {
            None => {
                proof {
                    assert(final(self)@ =~= (VaultView {
                        root: insert_under_group(old(self)@.root, parent_group_uuid@, nv),
                        ..old(self)@
                    }));
                }
                Ok(u)
            },
            Some(_) => {
                proof {
                    assert(final(self)@ =~= old(self)@);
                }
                Err(VaultError::NotFound { uuid: parent_group_uuid.clone(), kind: NodeKind::Group })
            },
        }
    }

    /// Creates a new, empty group named after the draft under the given
    /// parent group and returns the engine-assigned uuid. Fails with
    /// `NotFound`, the tree unchanged, when no group carries
    /// `parent_group_uuid`.
    pub fn add_group(&mut self, parent_group_uuid: &String, group: &Group) -> (r: Result<
        String,
        VaultError,
    >)
        ensures
            match r {
                Result::Ok(u) => {
                    &&& group_in(NodeView::Group(old(self)@.root), parent_group_uuid@)
                    &&& u@.len() == 36
                    &&& final(self)@ == (VaultView {
                        root: insert_under_group(
                            old(self)@.root,
                            parent_group_uuid@,
                            NodeView::Group(
                                GroupView {
                                    uuid: u@,
                                    name: group@.name,
                                    icon: Option::None,
                                    children: Seq::empty(),
                                },
                            ),
                        ),
                        ..old(self)@
                    })
                },
                Result::Err(e) => {
                    &&& !group_in(NodeView::Group(old(self)@.root), parent_group_uuid@)
                    &&& e == (VaultError::NotFound {
                        uuid: *parent_group_uuid,
                        kind: NodeKind::Group,
                    })
                    &&& final(self)@ == old(self)@
                },
            },
    {
        let u = random_uuid_string();
        let node = Node::Group(
            VaultGroup { uuid: u.clone(), name: group.name.clone(), icon: None, children: Vec::new() },
        );
        let ghost nv = node_view(node);
        match insert_in(&mut self.root, parent_group_uuid, node) {
            None => {
                proof {
                    assert(nv == NodeView::Group(
                        GroupView {
                            uuid: u@,
                            name: group@.name,
                            icon: Option::None,
                            children: Seq::empty(),
                        },
                    ));
                    assert(final(self)@ =~= (VaultView {
                        root: insert_under_group(old(self)@.root, parent_group_uuid@, nv),
                        ..old(self)@
                    }));
                }
                Ok(u)
            },
            Some(_) => {
                proof {
                    assert(final(self)@ =~= old(self)@);
                }
                Err(VaultError::NotFound { uuid: parent_group_uuid.clone(), kind: NodeKind::Group })
            },
        }
    }

    /// Overwrites the standard and custom fields of the entry carrying the
    /// draft's uuid with the draft's values, each field fully replaced.
    /// Fails with `NotFound`, the tree unchanged, when no entry carries it.
    pub fn update_entry(&mut self, entry: &Entry) -> (r: Result<(), VaultError>)
        ensures
            match r {
                Result::Ok(()) => {
                    &&& seq_find_in(old(self)@.root.children, entry@.uuid, NodeKind::Entry)
                        is Some
                    &&& final(self)@ == (VaultView {
                        root: (GroupView {
                            uuid: old(self)@.root.uuid,
                            name: old(self)@.root.name,
                            icon: old(self)@.root.icon,
                            children: seq_update_entry(
                                old(self)@.root.children,
                                entry@.uuid,
                                draft_fields(entry@),
                            ),
                        }),
                        ..old(self)@
                    })
                },
                Result::Err(e) => {
                    &&& seq_find_in(old(self)@.root.children, entry@.uuid, NodeKind::Entry)
                        is None
                    &&& e == (VaultError::NotFound { uuid: entry.uuid, kind: NodeKind::Entry })
                    &&& final(self)@ == old(self)@
                },
            },
    {
        let ps = build_draft_fields(entry);
        if update_entry_in(&mut self.root, &entry.uuid, &ps) {
            proof {
                assert(final(self)@ =~= (VaultView {
                    root: (GroupView {
                        uuid: old(self)@.root.uuid,
                        name: old(self)@.root.name,
                        icon: old(self)@.root.icon,
                        children: seq_update_entry(
                            old(self)@.root.children,
                            entry@.uuid,
                            draft_fields(entry@),
                        ),
                    }),
                    ..old(self)@
                }));
            }
            Ok(())
        } else {
            proof {
                assert(final(self)@ =~= old(self)@);
            }
            Err(VaultError::NotFound { uuid: entry.uuid.clone(), kind: NodeKind::Entry })
        }
    }

    /// Irreversibly removes the first node of the given kind and uuid, in
    /// document order, with a single structural edit — also when the node
    /// currently sits inside the recycle bin. Fails with `NotFound`, the
    /// tree unchanged, when no node matches.
    pub fn delete_permanently(&mut self, uuid: &String, kind: NodeKind) -> (r: Result<
        (),
        VaultError,
    >)
        ensures
            match r {
                Result::Ok(()) => {
                    &&& seq_find_in(old(self)@.root.children, uuid@, kind) is Some
                    &&& final(self)@ == (VaultView {
                        root: (GroupView {
                            uuid: old(self)@.root.uuid,
                            name: old(self)@.root.name,
                            icon: old(self)@.root.icon,
                            children: seq_remove_first(old(self)@.root.children, uuid@, kind),
                        }),
                        ..old(self)@
                    })
                },
                Result::Err(e) => {
                    &&& seq_find_in(old(self)@.root.children, uuid@, kind) is None
                    &&& e == (VaultError::NotFound { uuid: *uuid, kind })
                    &&& final(self)@ == old(self)@
                },
            },
    {
        match remove_in(&mut self.root, uuid, kind) {
            Some(_) => {
                proof {
                    assert(final(self)@ =~= (VaultView {
                        root: (GroupView {
                            uuid: old(self)@.root.uuid,
                            name: old(self)@.root.name,
                            icon: old(self)@.root.icon,
                            children: seq_remove_first(old(self)@.root.children, uuid@, kind),
                        }),
                        ..old(self)@
                    }));
                }
                Ok(())
            },
            None => {
                proof {
                    assert(final(self)@ =~= old(self)@);
                }
                Err(VaultError::NotFound { uuid: uuid.clone(), kind })
            },
        }
    }

    /// Permanent removal of an entry; see `delete_permanently`.
    pub fn delete_entry_permanently(&mut self, uuid: &String) -> (r: Result<(), VaultError>)
        ensures
            match r {
                Result::Ok(()) => {
                    &&& seq_find_in(old(self)@.root.children, uuid@, NodeKind::Entry) is Some
                    &&& final(self)@ == (VaultView {
                        root: (GroupView {
                            uuid: old(self)@.root.uuid,
                            name: old(self)@.root.name,
                            icon: old(self)@.root.icon,
                            children: seq_remove_first(
                                old(self)@.root.children,
                                uuid@,
                                NodeKind::Entry,
                            ),
                        }),
                        ..old(self)@
                    })
                },
                Result::Err(e) => {
                    &&& seq_find_in(old(self)@.root.children, uuid@, NodeKind::Entry) is None
                    &&& e == (VaultError::NotFound { uuid: *uuid, kind: NodeKind::Entry })
                    &&& final(self)@ == old(self)@
                },
            },
    {
        self.delete_permanently(uuid, NodeKind::Entry)
    }

    /// Permanent removal of a group and its whole subtree; see
    /// `delete_permanently`.
    pub fn delete_group_permanently(&mut self, uuid: &String) -> (r: Result<(), VaultError>)
        ensures
            match r {
                Result::Ok(()) => {
                    &&& seq_find_in(old(self)@.root.children, uuid@, NodeKind::Group) is Some
                    &&& final(self)@ == (VaultView {
                        root: (GroupView {
                            uuid: old(self)@.root.uuid,
                            name: old(self)@.root.name,
                            icon: old(self)@.root.icon,
                            children: seq_remove_first(
                                old(self)@.root.children,
                                uuid@,
                                NodeKind::Group,
                            ),
                        }),
                        ..old(self)@
                    })
                },
                Result::Err(e) => {
                    &&& seq_find_in(old(self)@.root.children, uuid@, NodeKind::Group) is None
                    &&& e == (VaultError::NotFound { uuid: *uuid, kind: NodeKind::Group })
                    &&& final(self)@ == old(self)@
                },
            },
    {
        self.delete_permanently(uuid, NodeKind::Group)
    }

    /// Clears the recycle bin's children in one structural truncation.
    /// Succeeds unconditionally: with no bin registered, with the bin group
    /// absent, and with the bin already empty, nothing changes.
    pub fn empty_recycle_bin(&mut self) -> (r: Result<(), VaultError>)
        ensures
            r is Ok,
            empty_bin_transition(old(self)@, final(self)@),
    {
        let bin = match &self.recycle_bin_uuid {
            Some(b) => Some(b.clone()),
            None => None,
        };
        match bin {
            Some(b) => {
                clear_group_in(&mut self.root, &b);
            },
            None => {},
        }
        proof {
            assert(final(self)@ =~= (VaultView {
                root: (GroupView {
                    uuid: old(self)@.root.uuid,
                    name: old(self)@.root.name,
                    icon: old(self)@.root.icon,
                    children: match old(self)@.recycle_bin_uuid {
                        Option::Some(b) => seq_clear_group(old(self)@.root.children, b),
                        Option::None => old(self)@.root.children,
                    },
                }),
                ..old(self)@
            }));
        }
        Ok(())
    }

    /// Moves the first node of the given kind and uuid into the recycle
    /// bin, creating the bin group on first use. Refuses with
    /// `GuardViolation` to recycle the bin itself, or a group holding the
    /// bin in its subtree; fails with `NotFound` when no node matches. All
    /// failures leave the vault unchanged. When the bin is created fresh,
    /// its identifier is drawn at random; a draw that collides with the
    /// target is refused rather than acted on.
    pub fn recycle(&mut self, uuid: &String, kind: NodeKind) -> (r: Result<(), VaultError>)
        ensures
            recycle_post(old(self)@, final(self)@, *uuid, kind, r),
    {
        let b = match &self.recycle_bin_uuid {
            Some(b0) => {
                if *uuid == *b0 {
                    return Err(VaultError::GuardViolation);
                }
                b0.clone()
            },
            None => random_uuid_string(),
        };
        self.recycle_with_bin(uuid, kind, &b)
    }

    /// The deterministic body of a recycle, with the bin uuid fixed.
    fn recycle_with_bin(&mut self, uuid: &String, kind: NodeKind, b: &String) -> (r: Result<
        (),
        VaultError,
    >)
        requires
            old(self)@.recycle_bin_uuid matches Option::Some(b1) ==> b@ == b1 && uuid@ != b1,
        ensures
            ({
                let v1 = old(self)@;
                let v2 = final(self)@;
                let found = seq_find_in(v1.root.children, uuid@, kind);
                &&& (found is None ==> r == Result::<(), VaultError>::Err(
                    VaultError::NotFound { uuid: *uuid, kind },
                ) && v2 == v1)
                &&& (found matches Option::Some(t) ==> {
                    &&& ((uuid@ == b@ || find_in(t, b@, NodeKind::Group) is Some) ==> r
                        == Result::<(), VaultError>::Err(VaultError::GuardViolation) && v2 == v1)
                    &&& ((uuid@ != b@ && find_in(t, b@, NodeKind::Group) is None) ==> {
                        &&& r is Ok
                        &&& recycle_ok_with(v1, v2, uuid@, kind, b@)
                        &&& v2.recycle_bin_uuid == Option::Some(b@)
                        &&& (v1.recycle_bin_uuid is Some ==> v2.recycle_bin_uuid
                            == v1.recycle_bin_uuid && v2.recycle_bin_enabled
                            == v1.recycle_bin_enabled)
                        &&& (v1.recycle_bin_uuid is None ==> v2.recycle_bin_enabled
                            == Option::Some(true))
                    })
                })
            }),
    {
        broadcast use lemma_nodes_view_len, lemma_nodes_view_index;

        let ghost v1 = self@;
        // locate the target first: failures must leave the tree untouched
        let ghost tv: NodeView;
        let mut bin_in_target = false;
        match find_in_children(&self.root.children, uuid, kind) {
            None => {
                return Err(VaultError::NotFound { uuid: uuid.clone(), kind });
            },
            Some(target) => {
                proof {
                    tv = node_view(*target);
                }
                if *uuid == *b {
                    return Err(VaultError::GuardViolation);
                }
                // the bin group may not sit inside the subtree being moved
                bin_in_target = match target {
                    Node::Group(tg) => *b == tg.uuid || find_in_children(
                        &tg.children,
                        b,
                        NodeKind::Group,
                    ).is_some(),
                    Node::Entry(_) => false,
                };
                proof {
                    assert(bin_in_target == (find_in(tv, b@, NodeKind::Group) is Some));
                }
            },
        }
        if bin_in_target {
            return Err(VaultError::GuardViolation);
        }
        // ensure the bin group exists
        let bin_exists = self.root.uuid == *b || find_in_children(
            &self.root.children,
            b,
            NodeKind::Group,
        ).is_some();
        let ghost before_children = nodes_view(self.root.children@);
        if !bin_exists {
            let ghost raw_before = self.root.children@;
            self.root.children.push(
                Node::Group(
                    VaultGroup {
                        uuid: b.clone(),
                        name: String::from_str("Recycle Bin"),
                        icon: Some(RECYCLE_BIN_ICON),
                        children: Vec::new(),
                    },
                ),
            );
            proof {
                lemma_nodes_view_push(
                    raw_before,
                    self.root.children@[self.root.children@.len() - 1],
                );
            }
        }
        let had_bin = matches!(&self.recycle_bin_uuid, Some(_));
        if !had_bin {
            self.recycle_bin_uuid = Some(b.clone());
            self.recycle_bin_enabled = Some(true);
        }
        let ghost mid = ensure_bin_root(v1.root, b@);
        proof {
            assert(group_view(self.root) =~= mid);
            if !bin_exists {
                lemma_seq_find_in_append(
                    before_children,
                    seq![NodeView::Group(bin_group_view(b@))],
                    uuid@,
                    kind,
                );
                assert(before_children.push(NodeView::Group(bin_group_view(b@)))
                    =~= before_children + seq![NodeView::Group(bin_group_view(b@))]);
                let bv = NodeView::Group(bin_group_view(b@));
                assert(seq![bv].len() == 1 && seq![bv][0] == bv);
                assert(node_matches(bv, b@, NodeKind::Group));
                assert(find_in(bv, b@, NodeKind::Group) == Option::Some(bv));
                assert(seq_find_in(seq![bv], b@, NodeKind::Group) is Some);
                lemma_seq_find_in_append(
                    before_children,
                    seq![NodeView::Group(bin_group_view(b@))],
                    b@,
                    NodeKind::Group,
                );
            }
            assert(seq_find_in(mid.children, uuid@, kind) == Option::Some(tv));
            assert(mid.uuid == b@ || seq_find_in(mid.children, b@, NodeKind::Group) is Some);
        }
        // detach the target; it is still present after ensuring the bin
        let node = match remove_in(&mut self.root, uuid, kind) {
            Some(nd) => nd,
            None => {
                proof {
                    assert(false);
                }
                return Err(VaultError::GuardViolation);
            },
        };
        proof {
            if mid.uuid != b@ {
                lemma_seq_remove_keeps_group(mid.children, uuid@, kind, b@);
            }
            assert(group_in(NodeView::Group(self@.root), b@));
        }
        // re-attach it under the bin
        match insert_in(&mut self.root, b, node) {
            None => {
                proof {
                    assert(final(self)@.root == insert_under_group(
                        GroupView {
                            uuid: mid.uuid,
                            name: mid.name,
                            icon: mid.icon,
                            children: seq_remove_first(mid.children, uuid@, kind),
                        },
                        b@,
                        tv,
                    ));
                    assert(recycle_ok_with(v1, final(self)@, uuid@, kind, b@));
                }
                Ok(())
            },
            Some(_) => {
                proof {
                    assert(false);
                }
                Err(VaultError::GuardViolation)
            },
        }
    }

    /// Soft deletion of an entry: relocation into the recycle bin.
    pub fn delete_entry(&mut self, uuid: &String) -> (r: Result<(), VaultError>)
        ensures
            recycle_post(old(self)@, final(self)@, *uuid, NodeKind::Entry, r),
    {
        self.recycle(uuid, NodeKind::Entry)
    }

    /// Soft deletion of a group and its whole subtree: relocation into the
    /// recycle bin.
    pub fn delete_group(&mut self, uuid: &String) -> (r: Result<(), VaultError>)
        ensures
            recycle_post(old(self)@, final(self)@, *uuid, NodeKind::Group, r),
    {
        self.recycle(uuid, NodeKind::Group)
    }
}

} // verus!
