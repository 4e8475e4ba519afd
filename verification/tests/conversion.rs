//! The conversion layer: standard-field defaults, custom-field
//! classification, and attachment resolution against the vault-level pool.

use keeprs_core::convert::convert_entry;
use keeprs_core::model::{Field, Value, Vault, VaultEntry, VaultGroup};

fn entry_with_fields(fields: Vec<Field>) -> VaultEntry {
    VaultEntry { uuid: "entry-1".to_string(), fields, otp: None }
}

fn plain(key: &str, value: &str) -> Field {
    Field { key: key.to_string(), value: Value::PlainText(value.to_string()) }
}

#[test]
fn standard_fields_default_to_empty_strings() {
    let e = entry_with_fields(vec![plain("Title", "Only title")]);
    let pool: Vec<Vec<u8>> = Vec::new();
    let d = convert_entry(&e, &pool);
    assert_eq!(d.title, "Only title");
    assert_eq!(d.username, "");
    assert_eq!(d.password, "");
    assert_eq!(d.url, "");
    assert_eq!(d.notes, "");
    assert!(d.custom_fields.is_empty());
    assert!(d.attachments.is_empty());
}

#[test]
fn password_stored_as_sensitive_buffer_reads_back() {
    let e = entry_with_fields(vec![Field {
        key: "Password".to_string(),
        value: Value::SensitiveText(b"tr0ub4dor&3".to_vec()),
    }]);
    let pool: Vec<Vec<u8>> = Vec::new();
    let d = convert_entry(&e, &pool);
    assert_eq!(d.password, "tr0ub4dor&3");
}

#[test]
fn password_buffer_that_is_not_utf8_reads_as_empty() {
    let e = entry_with_fields(vec![Field {
        key: "Password".to_string(),
        value: Value::SensitiveText(vec![0xff, 0xfe, 0xfd]),
    }]);
    let pool: Vec<Vec<u8>> = Vec::new();
    let d = convert_entry(&e, &pool);
    assert_eq!(d.password, "");
}

#[test]
fn classification_by_variant_and_pool_resolution() {
    let e = entry_with_fields(vec![
        plain("Title", "With attachments"),
        plain("Website colour", "green"),
        Field { key: "inline.bin".to_string(), value: Value::InlineBinary(vec![1, 2, 3]) },
        Field { key: "pooled.bin".to_string(), value: Value::BinaryReference(0) },
        Field { key: "dangling.bin".to_string(), value: Value::BinaryReference(7) },
        Field { key: "HiddenNote".to_string(), value: Value::SensitiveText(b"shh".to_vec()) },
    ]);
    let pool: Vec<Vec<u8>> = vec![vec![9, 9, 9]];
    let d = convert_entry(&e, &pool);

    // plain non-reserved keys become custom fields, in entry order
    assert_eq!(d.custom_fields, vec![("Website colour".to_string(), "green".to_string())]);

    // inline binaries and in-range references resolve; the out-of-range
    // reference is a non-fatal skip
    assert_eq!(d.attachments.len(), 2);
    assert_eq!(d.attachments[0].filename, "inline.bin");
    assert_eq!(d.attachments[0].data, vec![1, 2, 3]);
    assert_eq!(d.attachments[1].filename, "pooled.bin");
    assert_eq!(d.attachments[1].data, vec![9, 9, 9]);

    // sensitive fields other than the password are not materialized
    assert!(d.custom_fields.iter().all(|(k, _)| k != "HiddenNote"));
}

#[test]
fn root_group_marks_the_recycle_bin() {
    let v = Vault {
        root: VaultGroup {
            uuid: "root-0".to_string(),
            name: "Root".to_string(),
            icon: None,
            children: vec![keeprs_core::model::Node::Group(VaultGroup {
                uuid: "bin-0".to_string(),
                name: "Recycle Bin".to_string(),
                icon: Some(43),
                children: Vec::new(),
            })],
        },
        recycle_bin_uuid: Some("bin-0".to_string()),
        recycle_bin_enabled: Some(true),
        attachment_pool: Vec::new(),
    };
    let rg = v.root_group();
    assert!(!rg.is_recycle_bin);
    assert_eq!(rg.children.len(), 1);
    assert!(rg.children[0].is_recycle_bin);
    assert_eq!(rg.children[0].name, "Recycle Bin");
}

#[test]
fn entry_new_is_an_empty_draft() {
    let e = keeprs_core::model::Entry::new();
    assert_eq!(e.uuid, "");
    assert_eq!(e.title, "");
    assert_eq!(e.username, "");
    assert_eq!(e.password, "");
    assert_eq!(e.url, "");
    assert_eq!(e.notes, "");
    assert!(e.custom_fields.is_empty());
    assert!(e.otp.is_none());
    assert!(e.attachments.is_empty());
}
