//! The atomic save pipeline: temporary path derivation and the state
//! machine that orders write, sync and rename, with its crash-safety
//! argument over a model of the two files on disk.
//!
//! The machine decides; the caller performs the I/O each action names and
//! reports the outcome. The destination file is touched by nothing but the
//! final atomic rename, so any interruption before the rename completes
//! leaves it byte-identical to its prior contents.

use vstd::prelude::*;
use vstd::string::StringExecFns;

verus! {

/// Where one save stands.
#[derive(Debug, Clone, Copy, PartialEq, Eq, Structural)]
pub enum SaveState {
    /// Nothing done yet.
    Start,
    /// The serialized bytes were written fully to the temporary path.
    TempWritten,
    /// The temporary file was forced to durable storage.
    Synced,
    /// The rename replaced the destination; the save is complete.
    Done,
    /// A step failed; the save stopped before the rename.
    Aborted,
}

/// What the caller must do next.
#[derive(Debug, Clone, Copy, PartialEq, Eq, Structural)]
pub enum SaveAction {
    /// Serialize and write the byte stream to the temporary path.
    WriteTemp,
    /// Flush and force-sync the temporary file.
    SyncTemp,
    /// Atomically rename the temporary path onto the destination.
    RenameOverDestination,
    /// Nothing; the save is complete or was aborted.
    Stop,
}

/// How one performed action went.
#[derive(Debug, Clone, Copy, PartialEq, Eq, Structural)]
pub enum StepOutcome {
    Success,
    Failure,
}

/// The two files the pipeline touches, by contents; the temporary file may
/// be absent.
pub struct DiskView {
    pub dest: Seq<u8>,
    pub temp: Option<Seq<u8>>,
}

pub open spec fn spec_next_action(s: SaveState) -> SaveAction {
    match s {
        SaveState::Start => SaveAction::WriteTemp,
        SaveState::TempWritten => SaveAction::SyncTemp,
        SaveState::Synced => SaveAction::RenameOverDestination,
        SaveState::Done => SaveAction::Stop,
        SaveState::Aborted => SaveAction::Stop,
    }
}

pub open spec fn spec_advance(s: SaveState, outcome: StepOutcome) -> SaveState {
    match (s, outcome) {
        (SaveState::Start, StepOutcome::Success) => SaveState::TempWritten,
        (SaveState::TempWritten, StepOutcome::Success) => SaveState::Synced,
        (SaveState::Synced, StepOutcome::Success) => SaveState::Done,
        (SaveState::Done, _) => SaveState::Done,
        (SaveState::Aborted, _) => SaveState::Aborted,
        (_, StepOutcome::Failure) => SaveState::Aborted,
    }
}

/// What one performed action may do to the disk, `payload` being the
/// serialized byte stream. A write that fails may leave any partial
/// temporary file; a rename either fully replaces the destination with the
/// temporary file's contents or leaves it untouched; no other action
/// touches the destination.
pub open spec fn step_disk(
    d1: DiskView,
    a: SaveAction,
    outcome: StepOutcome,
    payload: Seq<u8>,
    d2: DiskView,
) -> bool {
    match a {
        SaveAction::WriteTemp => d2.dest == d1.dest && (outcome is Success ==> d2.temp
            == Option::Some(payload)),
        SaveAction::SyncTemp => d2.dest == d1.dest && (outcome is Success ==> d2.temp == d1.temp),
        SaveAction::RenameOverDestination => (outcome is Success ==> (d1.temp matches Option::Some(t)
            && d2.dest == t)) && (outcome is Failure ==> d2.dest == d1.dest),
        SaveAction::Stop => d2 == d1,
    }
}

/// A run of the machine: from `s1` on disk `d1`, the listed outcomes come
/// back one by one, each step changing the disk as `step_disk` allows.
pub open spec fn machine_run(
    s1: SaveState,
    d1: DiskView,
    outcomes: Seq<StepOutcome>,
    payload: Seq<u8>,
    s2: SaveState,
    d2: DiskView,
) -> bool
    decreases outcomes,
{
    if outcomes.len() == 0 {
        s2 == s1 && d2 == d1
    } else {
        exists|dmid: DiskView|
            #[trigger] step_disk(d1, spec_next_action(s1), outcomes[0], payload, dmid)
                && machine_run(
                spec_advance(s1, outcomes[0]),
                dmid,
                outcomes.subrange(1, outcomes.len() as int),
                payload,
                s2,
                d2,
            )
    }
}

/// The machine's invariant against the destination contents it started
/// from: before completion the destination is untouched, the synced
/// temporary file holds the payload, and completion means the destination
/// holds exactly the payload.
pub open spec fn save_inv(s: SaveState, d: DiskView, dest0: Seq<u8>, payload: Seq<u8>) -> bool {
    &&& (s != SaveState::Done ==> d.dest == dest0)
    &&& (s == SaveState::TempWritten || s == SaveState::Synced ==> d.temp == Option::Some(
        payload,
    ))
    &&& (s == SaveState::Done ==> d.dest == payload)
}

proof fn lemma_step_preserves_inv(
    s: SaveState,
    d1: DiskView,
    outcome: StepOutcome,
    payload: Seq<u8>,
    d2: DiskView,
    dest0: Seq<u8>,
)
    requires
        save_inv(s, d1, dest0, payload),
        step_disk(d1, spec_next_action(s), outcome, payload, d2),
    ensures
        save_inv(spec_advance(s, outcome), d2, dest0, payload),
{
}

proof fn lemma_run_preserves_inv(
    s1: SaveState,
    d1: DiskView,
    outcomes: Seq<StepOutcome>,
    payload: Seq<u8>,
    s2: SaveState,
    d2: DiskView,
    dest0: Seq<u8>,
)
    requires
        save_inv(s1, d1, dest0, payload),
        machine_run(s1, d1, outcomes, payload, s2, d2),
    ensures
        save_inv(s2, d2, dest0, payload),
    decreases outcomes,
{
    if outcomes.len() > 0 {
        let dmid = choose|dmid: DiskView|
            #[trigger] step_disk(d1, spec_next_action(s1), outcomes[0], payload, dmid)
                && machine_run(
                spec_advance(s1, outcomes[0]),
                dmid,
                outcomes.subrange(1, outcomes.len() as int),
                payload,
                s2,
                d2,
            );
        lemma_step_preserves_inv(s1, d1, outcomes[0], payload, dmid, dest0);
        lemma_run_preserves_inv(
            spec_advance(s1, outcomes[0]),
            dmid,
            outcomes.subrange(1, outcomes.len() as int),
            payload,
            s2,
            d2,
            dest0,
        );
    }
}

/// Law: however a save run is interrupted — any outcome sequence, stopped
/// at any point before the rename completes — the destination holds its
/// prior bytes unchanged; and once the machine reports completion, the
/// destination holds exactly the serialized payload.
pub proof fn lemma_save_atomic(
    d0: DiskView,
    outcomes: Seq<StepOutcome>,
    payload: Seq<u8>,
    s2: SaveState,
    d2: DiskView,
)
    requires
        machine_run(SaveState::Start, d0, outcomes, payload, s2, d2),
    ensures
        s2 != SaveState::Done ==> d2.dest == d0.dest,
        s2 == SaveState::Done ==> d2.dest == payload,
{
    lemma_run_preserves_inv(SaveState::Start, d0, outcomes, payload, s2, d2, d0.dest);
}

impl SaveState {
    /// The next action the caller must perform.
    pub fn next_action(&self) -> (a: SaveAction)
        ensures
            a == spec_next_action(*self),
    {
        match self {
            SaveState::Start => SaveAction::WriteTemp,
            SaveState::TempWritten => SaveAction::SyncTemp,
            SaveState::Synced => SaveAction::RenameOverDestination,
            SaveState::Done => SaveAction::Stop,
            SaveState::Aborted => SaveAction::Stop,
        }
    }

    /// The state after the pending action came back with `outcome`.
    pub fn advance(self, outcome: StepOutcome) -> (s2: SaveState)
        ensures
            s2 == spec_advance(self, outcome),
    {
        match (self, outcome) {
            (SaveState::Start, StepOutcome::Success) => SaveState::TempWritten,
            (SaveState::TempWritten, StepOutcome::Success) => SaveState::Synced,
            (SaveState::Synced, StepOutcome::Success) => SaveState::Done,
            (SaveState::Done, _) => SaveState::Done,
            (SaveState::Aborted, _) => SaveState::Aborted,
            (_, StepOutcome::Failure) => SaveState::Aborted,
        }
    }

    /// Whether the save replaced the destination.
    pub fn is_done(&self) -> (r: bool)
        ensures
            r == (*self == SaveState::Done),
    {
        matches!(self, SaveState::Done)
    }
}

/// The temporary path a save writes to first: the destination path with a
/// `.tmp` suffix appended.
pub fn derive_temp_path(destination: &String) -> (r: String)
    ensures
        r@ == destination@ + ".tmp"@,
{
    let mut r = destination.clone();
    r.append(".tmp");
    r
}

} // verus!
