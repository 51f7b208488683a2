//! Closing buffers and the window: which unsaved buffer the shell asks
//! about (Save, Discard or Cancel), and what it does once a save is done.

use vstd::prelude::*;
use crate::git_commands::{contains_text, has_text};
use crate::text::push_char;
use crate::vim::engine::chars_of;

verus! {

/// A close that waits for the user to save or discard a buffer.
#[derive(Clone, Copy, Debug, PartialEq, Eq, Structural)]
pub enum PendingAction {
    CloseBuffer(u64),
    CloseWindow,
}

/// What a close comes to: ask about the unsaved buffer at this index
/// (after making it the active one), remove the buffer at this index,
/// close the window, or nothing.
#[derive(Clone, Copy, Debug, PartialEq, Eq, Structural)]
pub enum Step {
    Confirm(usize),
    RemoveBuffer(usize),
    CloseWindow,
    Nothing,
}

/// Whether `i` is the first index of `s` that holds `true`.
pub open spec fn first_set(s: Seq<bool>, i: int) -> bool {
    &&& 0 <= i < s.len()
    &&& s[i]
    &&& forall|j: int| 0 <= j < i ==> !s[j]
}

/// Whether `i` is the first index of `ids` that holds `id`.
pub open spec fn first_id(ids: Seq<u64>, id: u64, i: int) -> bool {
    &&& 0 <= i < ids.len()
    &&& ids[i] == id
    &&& forall|j: int| 0 <= j < i ==> ids[j] != id
}

/// What carrying out `action` does, the buffers being `ids` with their
/// unsaved flags `dirty`: closing a buffer asks about it when it is
/// unsaved, else removes it (nothing when no buffer has that id); closing
/// the window asks about the first unsaved buffer, else closes it.
pub open spec fn step_of(action: PendingAction, ids: Seq<u64>, dirty: Seq<bool>, res: Step) -> bool {
    match action {
        PendingAction::CloseBuffer(id) => {
            &&& forall|i: int| #[trigger] first_id(ids, id, i) ==> res == if dirty[i] {
                Step::Confirm(i as usize)
            } else {
                Step::RemoveBuffer(i as usize)
            }
            &&& (forall|i: int| 0 <= i < ids.len() ==> ids[i] != id) ==> res == Step::Nothing
        },
        PendingAction::CloseWindow => {
            &&& forall|i: int| #[trigger] first_set(dirty, i) ==> res == Step::Confirm(i as usize)
            &&& (forall|i: int| 0 <= i < dirty.len() ==> !dirty[i]) ==> res == Step::CloseWindow
        },
    }
}

/// The first index of `dirty` that is set.
fn first_dirty(dirty: &Vec<bool>) -> (res: Option<usize>)
    ensures
        res matches Some(i) ==> first_set(dirty@, i as int) && forall|j: int| #[trigger] first_set(dirty@, j) ==> j == i,
        res is None ==> forall|i: int| 0 <= i < dirty@.len() ==> !dirty@[i],
{
    let mut k: usize = 0;
    while k < dirty.len()
        invariant
            k <= dirty@.len(),
            forall|j: int| 0 <= j < k ==> !dirty@[j],
        decreases dirty@.len() - k,
    {
        if dirty[k] {
            assert forall|i: int| #[trigger] first_set(dirty@, i) implies i == k as int by {
                if i > k as int {
                    assert(dirty@[k as int]);
                }
            }
            return Some(k);
        }
        k = k + 1;
    }
    None
}

/// Carries out a close: see [`step_of`]. `ids` and `dirty` describe the
/// same buffers, in order.
pub fn perform_step(action: PendingAction, ids: &Vec<u64>, dirty: &Vec<bool>) -> (res: Step)
    requires
        ids@.len() == dirty@.len(),
    ensures
        step_of(action, ids@, dirty@, res),
{
    match action {
        PendingAction::CloseBuffer(id) => {
            let mut k: usize = 0;
            while k < ids.len()
                invariant
                    action == PendingAction::CloseBuffer(id),
                    k <= ids@.len() == dirty@.len(),
                    forall|j: int| 0 <= j < k ==> ids@[j] != id,
                decreases ids@.len() - k,
            {
                if ids[k] == id {
                    let res = if dirty[k] {
                        Step::Confirm(k)
                    } else {
                        Step::RemoveBuffer(k)
                    };
                    assert forall|i: int| #[trigger] first_id(ids@, id, i) implies i == k as int by {
                        if i > k as int {
                            assert(ids@[k as int] == id);
                        }
                    }
                    return res;
                }
                k = k + 1;
            }
            Step::Nothing
        },
        PendingAction::CloseWindow => match first_dirty(dirty) {
            Some(i) => Step::Confirm(i),
            None => Step::CloseWindow,
        },
    }
}

/// A close asked for while the shell is `busy` or already waits on a
/// close (`waiting`) does nothing; else it is carried out.
pub fn request_step(action: PendingAction, busy: bool, waiting: bool, ids: &Vec<u64>, dirty: &Vec<bool>) -> (res: Step)
    requires
        ids@.len() == dirty@.len(),
    ensures
        busy || waiting ==> res == Step::Nothing,
        !(busy || waiting) ==> step_of(action, ids@, dirty@, res),
{
    if busy || waiting {
        Step::Nothing
    } else {
        perform_step(action, ids, dirty)
    }
}

/// Whether the window may close now.
#[derive(Clone, Copy, Debug, PartialEq, Eq, Structural)]
pub enum CloseDecision {
    /// Not now: the shell is busy, or already asks about a buffer.
    Stay,
    /// Not yet: ask about the unsaved buffer at this index first.
    Confirm(usize),
    /// Yes, after saving the session.
    Close,
}

/// Whether the window may close: not while the shell is busy; with an
/// unsaved buffer the shell asks about the first one (unless it already
/// waits on a close); with none it closes.
pub fn close_request(busy: bool, waiting: bool, dirty: &Vec<bool>) -> (res: CloseDecision)
    ensures
        busy ==> res == CloseDecision::Stay,
        !busy && (forall|i: int| 0 <= i < dirty@.len() ==> !dirty@[i]) ==> res == CloseDecision::Close,
        !busy && waiting && (exists|i: int| 0 <= i < dirty@.len() && dirty@[i]) ==> res
            == CloseDecision::Stay,
        !busy && !waiting && (exists|i: int| first_set(dirty@, i)) ==> res is Confirm,
        res matches CloseDecision::Confirm(i) ==> first_set(dirty@, i as int),
{
    if busy {
        return CloseDecision::Stay;
    }
    match first_dirty(dirty) {
        None => CloseDecision::Close,
        Some(i) => {
            proof {
                assert forall|j: int| #[trigger] first_set(dirty@, j) implies j == i as int by {
                    if j < i {
                        assert(!dirty@[j]);
                    } else if j > i {
                        assert(!dirty@[i as int]);
                    }
                }
            }
            if waiting {
                CloseDecision::Stay
            } else {
                CloseDecision::Confirm(i)
            }
        },
    }
}

/// What Discard does: the close waited on is dropped; with one, the active
/// buffer is removed (`true`), and a close of the window is then carried
/// out again on the buffers left.
pub fn discard_step(pending: Option<PendingAction>) -> (res: (bool, Option<PendingAction>))
    ensures
        res == match pending {
            None => (false, None),
            Some(PendingAction::CloseWindow) => (true, Some(PendingAction::CloseWindow)),
            Some(_) => (true, None),
        },
{
    match pending {
        None => (false, None),
        Some(PendingAction::CloseWindow) => (true, Some(PendingAction::CloseWindow)),
        Some(_) => (true, None),
    }
}

/// How a save ended: written (with the buffer's name, and whether the
/// buffer still has unsaved edits), written after its buffer was closed,
/// cancelled in the file picker, or failed with an error.
pub enum SaveOutcome {
    Saved { name: String, dirty: bool },
    SavedClosed,
    Cancelled,
    Failed(String),
}

/// What the shell does once a save ended: the status to show (`None`
/// leaves it), the buffer's changed-on-disk flag (`None` leaves it), the
/// close to carry out now, and the close still waited on.
pub struct AfterSave {
    pub status: Option<String>,
    pub external_change: Option<bool>,
    pub perform: Option<PendingAction>,
    pub pending: Option<PendingAction>,
}

/// The error text by which a save that found the file changed on disk is
/// known.
pub open spec fn changed_on_disk(error: Seq<char>) -> bool {
    contains_text(error, "File changed on disk"@)
}

/// `prefix` followed by `s`.
fn with_prefix(prefix: &str, s: &str) -> (res: String)
    ensures
        res@ == prefix@ + s@,
{
    let mut out = prefix.to_owned();
    let cs = chars_of(s);
    let mut k: usize = 0;
    while k < cs.len()
        invariant
            k <= cs@.len(),
            cs@ == s@,
            out@ == prefix@ + cs@.take(k as int),
        decreases cs@.len() - k,
    {
        push_char(&mut out, cs[k]);
        k = k + 1;
        assert(out@ =~= prefix@ + cs@.take(k as int));
    }
    assert(cs@.take(k as int) =~= cs@);
    out
}

/// After a save that `then` was to be followed by, with the close
/// `pending` waited on: a save shows "Saved" and the name, clears the
/// changed-on-disk flag and, when the buffer is clean, carries out `then`,
/// or else the close waited on (which it then no longer waits on); a
/// cancelled save says so; a failed one shows the error, and raises the
/// changed-on-disk flag when the error says the file changed on disk.
pub fn after_save(outcome: &SaveOutcome, then: Option<PendingAction>, pending: Option<PendingAction>) -> (res: AfterSave)
    ensures
        match outcome {
            SaveOutcome::Saved { name, .. } => res.status matches Some(s) && s@ == "Saved "@ + name@,
            SaveOutcome::SavedClosed => res.status is None,
            SaveOutcome::Cancelled => res.status matches Some(s) && s@ == "Save cancelled"@,
            SaveOutcome::Failed(e) => res.status matches Some(s) && s@ == "Save failed: "@ + e@,
        },
        res.external_change == match outcome {
            SaveOutcome::Saved { .. } => Some(false),
            SaveOutcome::Failed(e) => if changed_on_disk(e@) {
                Some(true)
            } else {
                None
            },
            _ => None,
        },
        res.perform == match outcome {
            SaveOutcome::Saved { dirty: false, .. } => if then is Some {
                then
            } else {
                pending
            },
            _ => None,
        },
        res.pending == match outcome {
            SaveOutcome::Saved { dirty: false, .. } => if then is Some {
                pending
            } else {
                None
            },
            _ => pending,
        },
{
    match outcome {
        SaveOutcome::Saved { name, dirty } => {
            let status = with_prefix("Saved ", name.as_str());
            if !*dirty {
                match then {
                    Some(action) => AfterSave {
                        status: Some(status),
                        external_change: Some(false),
                        perform: Some(action),
                        pending,
                    },
                    None => AfterSave {
                        status: Some(status),
                        external_change: Some(false),
                        perform: pending,
                        pending: None,
                    },
                }
            } else {
                AfterSave { status: Some(status), external_change: Some(false), perform: None, pending }
            }
        },
        SaveOutcome::SavedClosed => AfterSave { status: None, external_change: None, perform: None, pending },
        SaveOutcome::Cancelled => AfterSave {
            status: Some("Save cancelled".to_owned()),
            external_change: None,
            perform: None,
            pending,
        },
        SaveOutcome::Failed(error) => {
            let changed = has_text(error.as_str(), "File changed on disk");
            AfterSave {
                status: Some(with_prefix("Save failed: ", error.as_str())),
                external_change: if changed {
                    Some(true)
                } else {
                    None
                },
                perform: None,
                pending,
            }
        },
    }
}

} // verus!
