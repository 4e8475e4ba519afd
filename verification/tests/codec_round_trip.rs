//! A full round trip through the external codec: a vault written through
//! the wire-format layer and reloaded preserves what was added.

use std::io::Cursor;

use keepass::config::{DatabaseConfig, KdfConfig};
use keepass::db::{Database, Value as KpValue};
use keepass::DatabaseKey;

use keeprs_core::model::{Field, Node, Value, Vault, VaultEntry, VaultGroup};

fn light_config() -> DatabaseConfig {
    // a deliberately cheap key derivation: these bytes never leave the test
    let mut config = DatabaseConfig::default();
    config.kdf_config = KdfConfig::Aes { rounds: 100 };
    config
}

/// Writes the library entry's fields into a fresh codec-side database.
fn library_vault_to_codec(v: &Vault) -> Database {
    let mut db = Database::with_config(light_config());
    let mut root = db.root_mut();
    for node in &v.root.children {
        if let Node::Entry(e) = node {
            let mut em = root.add_entry();
            for f in &e.fields {
                match &f.value {
                    Value::PlainText(s) => em.set_unprotected(f.key.clone(), s.clone()),
                    Value::SensitiveText(b) => {
                        em.set_protected(f.key.clone(), String::from_utf8(b.clone()).unwrap())
                    },
                    Value::InlineBinary(_) => {},
                    Value::BinaryReference(_) => {},
                }
            }
        }
    }
    db
}

/// Reads a codec-side database back into a library vault.
fn codec_to_library_vault(db: &Database) -> Vault {
    let mut children = Vec::new();
    for e in db.root().entries() {
        let mut fields = Vec::new();
        for (k, val) in &e.fields {
            match val {
                KpValue::Unprotected(s) => fields.push(Field {
                    key: k.clone(),
                    value: Value::PlainText(s.clone()),
                }),
                KpValue::Protected(_) => fields.push(Field {
                    key: k.clone(),
                    value: Value::SensitiveText(e.get(k).unwrap_or("").as_bytes().to_vec()),
                }),
            }
        }
        children.push(Node::Entry(VaultEntry {
            uuid: e.id().uuid().to_string(),
            fields,
            otp: None,
        }));
    }
    Vault {
        root: VaultGroup {
            uuid: db.root().id().uuid().to_string(),
            name: db.root().name.clone(),
            icon: None,
            children,
        },
        recycle_bin_uuid: db.meta.recyclebin_uuid.map(|u| u.to_string()),
        recycle_bin_enabled: db.meta.recyclebin_enabled,
        attachment_pool: Vec::new(),
    }
}

#[test]
fn save_and_reload_preserves_an_added_entry() {
    // add an entry through the library
    let mut v = Vault {
        root: VaultGroup {
            uuid: "root-0".to_string(),
            name: "Root".to_string(),
            icon: None,
            children: Vec::new(),
        },
        recycle_bin_uuid: None,
        recycle_bin_enabled: None,
        attachment_pool: Vec::new(),
    };
    let root_uuid = v.root.uuid.clone();
    let mut d = keeprs_core::model::Entry::new();
    d.title = "Bank".to_string();
    d.username = "alice".to_string();
    d.password = "tr0ub4dor&3".to_string();
    d.url = "https://bank.example".to_string();
    d.notes = "round trip".to_string();
    d.custom_fields.push(("Branch".to_string(), "downtown".to_string()));
    v.add_entry(&root_uuid, &d).unwrap();

    // serialize through the external codec and reload
    let key = DatabaseKey::new().with_password("correct horse");
    let db = library_vault_to_codec(&v);
    let mut bytes: Vec<u8> = Vec::new();
    db.save(&mut bytes, key.clone()).expect("serialization succeeds");
    let mut cursor = Cursor::new(bytes);
    let db2 = Database::open(&mut cursor, key).expect("same credentials reopen the vault");
    let v2 = codec_to_library_vault(&db2);

    // the reloaded vault still answers with the draft's fields
    let reloaded_uuid = match &v2.root.children[0] {
        Node::Entry(e) => e.uuid.clone(),
        _ => panic!("one entry expected"),
    };
    let found = v2.find_entry(&reloaded_uuid).expect("entry survived the round trip");
    assert_eq!(found.title, "Bank");
    assert_eq!(found.username, "alice");
    assert_eq!(found.password, "tr0ub4dor&3");
    assert_eq!(found.url, "https://bank.example");
    assert_eq!(found.notes, "round trip");
    assert_eq!(found.custom_fields, vec![("Branch".to_string(), "downtown".to_string())]);
}

#[test]
fn wrong_credentials_fail_to_open() {
    let db = library_vault_to_codec(&Vault {
        root: VaultGroup {
            uuid: "root-0".to_string(),
            name: "Root".to_string(),
            icon: None,
            children: Vec::new(),
        },
        recycle_bin_uuid: None,
        recycle_bin_enabled: None,
        attachment_pool: Vec::new(),
    });
    let key = DatabaseKey::new().with_password("right");
    let mut bytes: Vec<u8> = Vec::new();
    db.save(&mut bytes, key).unwrap();
    let mut cursor = Cursor::new(bytes);
    let bad = DatabaseKey::new().with_password("wrong");
    assert!(Database::open(&mut cursor, bad).is_err());
}
