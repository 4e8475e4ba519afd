//! The save pipeline: temporary-path derivation and the write/sync/rename
//! state machine, driven against an in-memory pair of files.

use keeprs_core::persist::{derive_temp_path, SaveAction, SaveState, StepOutcome};
use keeprs_core::navigation::{NavigationPath, NavigationStep};

#[test]
fn temp_path_appends_tmp_suffix() {
    let p = "vault.kdbx".to_string();
    assert_eq!(derive_temp_path(&p), "vault.kdbx.tmp");
    let q = "no_extension".to_string();
    assert_eq!(derive_temp_path(&q), "no_extension.tmp");
}

#[test]
fn machine_orders_write_sync_rename() {
    let mut s = SaveState::Start;
    assert_eq!(s.next_action(), SaveAction::WriteTemp);
    s = s.advance(StepOutcome::Success);
    assert_eq!(s.next_action(), SaveAction::SyncTemp);
    s = s.advance(StepOutcome::Success);
    assert_eq!(s.next_action(), SaveAction::RenameOverDestination);
    s = s.advance(StepOutcome::Success);
    assert_eq!(s, SaveState::Done);
    assert!(s.is_done());
    assert_eq!(s.next_action(), SaveAction::Stop);
}

#[test]
fn any_failure_aborts_before_the_rename() {
    for failing_step in 0..2 {
        let mut s = SaveState::Start;
        for _ in 0..failing_step {
            s = s.advance(StepOutcome::Success);
        }
        s = s.advance(StepOutcome::Failure);
        assert_eq!(s, SaveState::Aborted);
        assert!(!s.is_done());
        assert_eq!(s.next_action(), SaveAction::Stop);
    }
}

/// A pair of in-memory files, driven exactly as the machine dictates.
struct FakeDisk {
    dest: Vec<u8>,
    temp: Option<Vec<u8>>,
}

fn drive(disk: &mut FakeDisk, payload: &[u8], outcomes: &[StepOutcome]) -> SaveState {
    let mut s = SaveState::Start;
    for oc in outcomes {
        match s.next_action() {
            SaveAction::WriteTemp => {
                if matches!(oc, StepOutcome::Success) {
                    disk.temp = Some(payload.to_vec());
                } else {
                    // a failed write may leave a partial temporary file
                    disk.temp = Some(payload[..payload.len() / 2].to_vec());
                }
            },
            SaveAction::SyncTemp => {},
            SaveAction::RenameOverDestination => {
                if matches!(oc, StepOutcome::Success) {
                    disk.dest = disk.temp.take().expect("rename needs the temp file");
                }
            },
            SaveAction::Stop => {},
        }
        s = s.advance(*oc);
    }
    s
}

#[test]
fn interruption_after_temp_write_leaves_destination_untouched() {
    // the pipeline is cut off after step 2 (temp write) and before step 4
    // (rename): the destination's bytes are identical to their prior value
    let prior = b"prior vault bytes".to_vec();
    let payload = b"new vault bytes!".to_vec();
    let mut disk = FakeDisk { dest: prior.clone(), temp: None };

    let s = drive(&mut disk, &payload, &[StepOutcome::Success]);
    assert_eq!(s, SaveState::TempWritten);
    assert_eq!(disk.dest, prior);

    // also when the sync then fails outright
    let s2 = drive(&mut disk, &payload, &[StepOutcome::Success, StepOutcome::Failure]);
    assert_eq!(s2, SaveState::Aborted);
    assert_eq!(disk.dest, prior);
}

#[test]
fn completed_save_replaces_destination_with_payload() {
    let prior = b"prior vault bytes".to_vec();
    let payload = b"new vault bytes!".to_vec();
    let mut disk = FakeDisk { dest: prior, temp: None };
    let s = drive(
        &mut disk,
        &payload,
        &[StepOutcome::Success, StepOutcome::Success, StepOutcome::Success],
    );
    assert_eq!(s, SaveState::Done);
    assert_eq!(disk.dest, payload);
    // no sidecar file after a successful save
    assert!(disk.temp.is_none());
}

#[test]
fn navigation_path_tracks_depth_and_truncation() {
    let mut p = NavigationPath::new();
    assert_eq!(p.depth(), 0);
    p.push_group("g1".to_string(), "Finance".to_string());
    p.push_entry("e1".to_string(), "Bank".to_string());
    assert_eq!(p.depth(), 2);
    match &p.steps[0] {
        NavigationStep::Group { name, .. } => assert_eq!(name, "Finance"),
        _ => panic!("first step is a group"),
    }
    p.truncate(5);
    assert_eq!(p.depth(), 2);
    p.truncate(1);
    assert_eq!(p.depth(), 1);
    p.truncate(0);
    assert_eq!(p.depth(), 0);
}
