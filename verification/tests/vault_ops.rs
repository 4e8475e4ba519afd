//! End-to-end exercises of the mutation engine, the navigator and the
//! recycle-bin state machine.

use keeprs_core::convert::resolve_sensitive;
use keeprs_core::model::{
    Entry, Field, Group, Node, NodeKind, Value, Vault, VaultEntry, VaultGroup, VaultError,
};

fn empty_vault() -> Vault {
    Vault {
        root: VaultGroup {
            uuid: "00000000-0000-0000-0000-00000000root".to_string(),
            name: "Root".to_string(),
            icon: None,
            children: Vec::new(),
        },
        recycle_bin_uuid: None,
        recycle_bin_enabled: None,
        attachment_pool: Vec::new(),
    }
}

fn draft(title: &str, username: &str, password: &str, url: &str, notes: &str) -> Entry {
    Entry {
        uuid: String::new(),
        title: title.to_string(),
        username: username.to_string(),
        password: password.to_string(),
        url: url.to_string(),
        notes: notes.to_string(),
        custom_fields: Vec::new(),
        otp: None,
        attachments: Vec::new(),
    }
}

fn group_draft(name: &str) -> Group {
    Group {
        uuid: String::new(),
        name: name.to_string(),
        children: Vec::new(),
        entries: Vec::new(),
        is_recycle_bin: false,
    }
}

fn count_entries(g: &Group) -> usize {
    let mut n = g.entries.len();
    for c in &g.children {
        n += count_entries(c);
    }
    n
}

fn find_group<'a>(g: &'a Group, name: &str) -> Option<&'a Group> {
    if g.name == name {
        return Some(g);
    }
    for c in &g.children {
        if let Some(r) = find_group(c, name) {
            return Some(r);
        }
    }
    None
}

fn bin_group(g: &Group) -> Option<&Group> {
    if g.is_recycle_bin {
        return Some(g);
    }
    for c in &g.children {
        if let Some(r) = bin_group(c) {
            return Some(r);
        }
    }
    None
}

#[test]
fn add_entry_then_find_returns_draft() {
    let mut v = empty_vault();
    let root_uuid = v.root.uuid.clone();
    let mut d = draft("Bank", "alice", "hunter2", "https://bank.example", "main account");
    d.custom_fields.push(("PIN".to_string(), "1234".to_string()));
    let u = v.add_entry(&root_uuid, &d).expect("parent exists");
    assert_eq!(u.len(), 36);
    let found = v.find_entry(&u).expect("entry was just added");
    assert_eq!(found.title, "Bank");
    assert_eq!(found.username, "alice");
    assert_eq!(found.password, "hunter2");
    assert_eq!(found.url, "https://bank.example");
    assert_eq!(found.notes, "main account");
    assert_eq!(found.custom_fields, vec![("PIN".to_string(), "1234".to_string())]);
    assert_eq!(found.uuid, u);
    assert!(found.otp.is_none());
    assert!(found.attachments.is_empty());
}

#[test]
fn add_entry_unknown_parent_is_not_found_and_changes_nothing() {
    let mut v = empty_vault();
    let root_uuid = v.root.uuid.clone();
    let d0 = draft("A", "", "", "", "");
    v.add_entry(&root_uuid, &d0).unwrap();
    let before = count_entries(&v.root_group());
    let bogus = "not-a-real-uuid".to_string();
    let r = v.add_entry(&bogus, &draft("B", "", "", "", ""));
    match r {
        Err(VaultError::NotFound { uuid, kind }) => {
            assert_eq!(uuid, "not-a-real-uuid");
            assert_eq!(kind, NodeKind::Group);
        },
        other => panic!("expected NotFound, got {:?}", other),
    }
    assert_eq!(count_entries(&v.root_group()), before);
}

#[test]
fn add_group_creates_empty_named_group() {
    let mut v = empty_vault();
    let root_uuid = v.root.uuid.clone();
    let gu = v.add_group(&root_uuid, &group_draft("Finance")).unwrap();
    assert_eq!(gu.len(), 36);
    let rg = v.root_group();
    let fin = find_group(&rg, "Finance").expect("group was just added");
    assert_eq!(fin.uuid, gu);
    assert!(fin.children.is_empty());
    assert!(fin.entries.is_empty());
    assert!(!fin.is_recycle_bin);
}

#[test]
fn update_entry_replaces_fields_and_keeps_identity() {
    let mut v = empty_vault();
    let root_uuid = v.root.uuid.clone();
    let mut d = draft("Old", "olduser", "oldpass", "old://", "old notes");
    d.custom_fields.push(("Color".to_string(), "red".to_string()));
    let u = v.add_entry(&root_uuid, &d).unwrap();

    let mut d2 = draft("New", "newuser", "newpass", "new://", "new notes");
    d2.uuid = u.clone();
    d2.custom_fields.push(("Color".to_string(), "blue".to_string()));
    v.update_entry(&d2).expect("entry exists");

    let found = v.find_entry(&u).unwrap();
    assert_eq!(found.uuid, u);
    assert_eq!(found.title, "New");
    assert_eq!(found.username, "newuser");
    assert_eq!(found.password, "newpass");
    assert_eq!(found.url, "new://");
    assert_eq!(found.notes, "new notes");
    assert_eq!(found.custom_fields, vec![("Color".to_string(), "blue".to_string())]);
}

#[test]
fn update_entry_missing_is_not_found() {
    let mut v = empty_vault();
    let mut d = draft("X", "", "", "", "");
    d.uuid = "absent-uuid".to_string();
    let r = v.update_entry(&d);
    match r {
        Err(VaultError::NotFound { uuid, kind }) => {
            assert_eq!(uuid, "absent-uuid");
            assert_eq!(kind, NodeKind::Entry);
        },
        other => panic!("expected NotFound, got {:?}", other),
    }
}

#[test]
fn soft_delete_moves_entry_into_recycle_bin() {
    // Group "Finance" holds entry "Bank"; after the soft delete, "Finance"
    // is empty and the recycle bin holds the entry, same uuid and title.
    let mut v = empty_vault();
    let root_uuid = v.root.uuid.clone();
    let fin = v.add_group(&root_uuid, &group_draft("Finance")).unwrap();
    let e1 = v.add_entry(&fin, &draft("Bank", "alice", "pw", "", "")).unwrap();

    v.delete_entry(&e1).expect("entry exists and is not the bin");

    let rg = v.root_group();
    let fin_g = find_group(&rg, "Finance").unwrap();
    assert!(fin_g.entries.is_empty());
    let bin = bin_group(&rg).expect("bin was created on first use");
    assert_eq!(bin.entries.len(), 1);
    assert_eq!(bin.entries[0].uuid, e1);
    assert_eq!(bin.entries[0].title, "Bank");

    // the node is inside the bin, still findable, and no longer under its
    // former parent
    assert!(v.is_inside_recycle_bin(&e1));
    assert!(v.find_entry(&e1).is_some());
    assert!(!v.is_descendant_of(&e1, &fin));

    // bin metadata was registered
    let bu = v.get_recycle_bin_uuid().expect("bin uuid registered");
    assert_eq!(bu, bin.uuid);
    assert!(v.is_recycle_bin(&bu));
    assert_eq!(v.recycle_bin_enabled, Some(true));
}

#[test]
fn permanent_delete_after_soft_delete_purges_entry() {
    let mut v = empty_vault();
    let root_uuid = v.root.uuid.clone();
    let fin = v.add_group(&root_uuid, &group_draft("Finance")).unwrap();
    let e1 = v.add_entry(&fin, &draft("Bank", "", "", "", "")).unwrap();
    v.delete_entry(&e1).unwrap();
    let before = bin_group(&v.root_group()).unwrap().entries.len();

    v.delete_entry_permanently(&e1).expect("entry sits in the bin");

    assert!(v.find_entry(&e1).is_none());
    let after = bin_group(&v.root_group()).unwrap().entries.len();
    assert_eq!(before - after, 1);
}

#[test]
fn permanent_delete_missing_is_not_found() {
    let mut v = empty_vault();
    let ghost = "no-such".to_string();
    assert!(matches!(
        v.delete_entry_permanently(&ghost),
        Err(VaultError::NotFound { kind: NodeKind::Entry, .. })
    ));
    assert!(matches!(
        v.delete_group_permanently(&ghost),
        Err(VaultError::NotFound { kind: NodeKind::Group, .. })
    ));
}

#[test]
fn recycling_the_bin_itself_is_a_guard_violation() {
    let mut v = empty_vault();
    let root_uuid = v.root.uuid.clone();
    let e = v.add_entry(&root_uuid, &draft("A", "", "", "", "")).unwrap();
    v.delete_entry(&e).unwrap();
    let bu = v.get_recycle_bin_uuid().unwrap();

    let entries_before = count_entries(&v.root_group());
    assert!(matches!(v.delete_group(&bu), Err(VaultError::GuardViolation)));
    assert!(matches!(v.delete_entry(&bu), Err(VaultError::GuardViolation)));
    // the tree is unchanged on failure
    assert_eq!(count_entries(&v.root_group()), entries_before);
    assert_eq!(v.get_recycle_bin_uuid().unwrap(), bu);
}

#[test]
fn recycling_a_group_that_holds_the_bin_is_a_guard_violation() {
    // recycling a group whose subtree holds the bin would swallow the bin,
    // so it is refused and the tree stays unchanged
    let mut v2 = empty_vault();
    let bin_uuid = "bbbbbbbb-bbbb-bbbb-bbbb-bbbbbbbbbbbb".to_string();
    v2.root.children.push(Node::Group(VaultGroup {
        uuid: "oooooooo-oooo-oooo-oooo-oooooooooooo".to_string(),
        name: "Outer".to_string(),
        icon: None,
        children: vec![Node::Group(VaultGroup {
            uuid: bin_uuid.clone(),
            name: "Recycle Bin".to_string(),
            icon: Some(43),
            children: Vec::new(),
        })],
    }));
    v2.recycle_bin_uuid = Some(bin_uuid);
    v2.recycle_bin_enabled = Some(true);
    let outer2 = "oooooooo-oooo-oooo-oooo-oooooooooooo".to_string();
    assert!(matches!(v2.delete_group(&outer2), Err(VaultError::GuardViolation)));
    // unchanged: the outer group is still at the root
    assert_eq!(v2.root_group().children.len(), 1);
}

#[test]
fn empty_recycle_bin_twice_succeeds_and_second_call_changes_nothing() {
    let mut v = empty_vault();
    let root_uuid = v.root.uuid.clone();
    let e1 = v.add_entry(&root_uuid, &draft("A", "", "", "", "")).unwrap();
    let e2 = v.add_entry(&root_uuid, &draft("B", "", "", "", "")).unwrap();
    v.delete_entry(&e1).unwrap();
    v.delete_entry(&e2).unwrap();
    assert_eq!(bin_group(&v.root_group()).unwrap().entries.len(), 2);

    v.empty_recycle_bin().expect("always succeeds");
    let rg1 = v.root_group();
    let bin1 = bin_group(&rg1).unwrap();
    assert!(bin1.entries.is_empty() && bin1.children.is_empty());
    assert!(v.find_entry(&e1).is_none());

    v.empty_recycle_bin().expect("always succeeds again");
    let rg2 = v.root_group();
    let bin2 = bin_group(&rg2).unwrap();
    assert!(bin2.entries.is_empty() && bin2.children.is_empty());
    assert_eq!(count_entries(&rg1), count_entries(&rg2));
    assert_eq!(rg1.children.len(), rg2.children.len());
}

#[test]
fn empty_recycle_bin_without_bin_is_ok() {
    let mut v = empty_vault();
    v.empty_recycle_bin().expect("succeeds unconditionally");
    assert!(v.get_recycle_bin_uuid().is_none());
}

#[test]
fn recycling_a_group_moves_its_whole_subtree() {
    let mut v = empty_vault();
    let root_uuid = v.root.uuid.clone();
    let fin = v.add_group(&root_uuid, &group_draft("Finance")).unwrap();
    let e = v.add_entry(&fin, &draft("Bank", "", "", "", "")).unwrap();

    v.delete_group(&fin).expect("group exists");

    assert!(v.is_inside_recycle_bin(&fin));
    assert!(v.is_inside_recycle_bin(&e));
    // the entry is still inside the moved group
    assert!(v.is_descendant_of(&e, &fin));
    let rg = v.root_group();
    let bin = bin_group(&rg).unwrap();
    assert_eq!(bin.children.len(), 1);
    assert_eq!(bin.children[0].name, "Finance");
    assert_eq!(bin.children[0].entries.len(), 1);
}

#[test]
fn navigator_answers_descendant_and_kind_queries() {
    let mut v = empty_vault();
    let root_uuid = v.root.uuid.clone();
    let fin = v.add_group(&root_uuid, &group_draft("Finance")).unwrap();
    let sub = v.add_group(&fin, &group_draft("Cards")).unwrap();
    let e = v.add_entry(&sub, &draft("Visa", "", "", "", "")).unwrap();

    assert!(v.is_descendant_of(&e, &fin));
    assert!(v.is_descendant_of(&sub, &fin));
    assert!(v.is_descendant_of(&fin, &fin));
    assert!(!v.is_descendant_of(&fin, &sub));
    assert!(!v.is_inside_recycle_bin(&e));

    assert!(v.find(&e, NodeKind::Entry).is_some());
    assert!(v.find(&e, NodeKind::Group).is_none());
    assert!(v.find(&sub, NodeKind::Group).is_some());
}

#[test]
fn uuids_are_not_reused_across_the_tree() {
    let mut v = empty_vault();
    let root_uuid = v.root.uuid.clone();
    let a = v.add_entry(&root_uuid, &draft("A", "", "", "", "")).unwrap();
    let b = v.add_entry(&root_uuid, &draft("B", "", "", "", "")).unwrap();
    let g = v.add_group(&root_uuid, &group_draft("G")).unwrap();
    assert_ne!(a, b);
    assert_ne!(a, g);
    assert_ne!(b, g);
}

#[test]
fn resolve_sensitive_reads_a_protected_custom_field_on_demand() {
    let entry = VaultEntry {
        uuid: "e".to_string(),
        fields: vec![
            Field {
                key: "ApiToken".to_string(),
                value: Value::SensitiveText(b"SECRET-REDACTED".to_vec()),
            },
            Field { key: "Plain".to_string(), value: Value::PlainText("visible".to_string()) },
        ],
        otp: None,
    };
    let key = "ApiToken".to_string();
    assert_eq!(resolve_sensitive(&entry, &key), Some("SECRET-REDACTED".to_string()));
    let other = "Plain".to_string();
    assert_eq!(resolve_sensitive(&entry, &other), None);
    let missing = "Nope".to_string();
    assert_eq!(resolve_sensitive(&entry, &missing), None);
}

#[test]
fn soft_delete_of_a_missing_node_is_not_found() {
    let mut v = empty_vault();
    let ghost = "nobody-home".to_string();
    assert!(matches!(
        v.delete_entry(&ghost),
        Err(VaultError::NotFound { kind: NodeKind::Entry, .. })
    ));
    assert!(matches!(
        v.delete_group(&ghost),
        Err(VaultError::NotFound { kind: NodeKind::Group, .. })
    ));
    // no bin was created by the failed attempts
    assert!(v.get_recycle_bin_uuid().is_none());
}

#[test]
fn first_recycle_creates_the_conventional_bin_group() {
    let mut v = empty_vault();
    let root_uuid = v.root.uuid.clone();
    let e = v.add_entry(&root_uuid, &draft("A", "", "", "", "")).unwrap();
    v.delete_entry(&e).unwrap();
    let bu = v.get_recycle_bin_uuid().unwrap();
    assert_eq!(bu.len(), 36);
    match v.find(&bu, NodeKind::Group) {
        Some(Node::Group(g)) => {
            assert_eq!(g.name, "Recycle Bin");
            assert_eq!(g.icon, Some(43));
        },
        _ => panic!("the bin group exists in the tree"),
    }
}
