//! Unpacking a RAR archive, one header at a time.
//!
//! A RAR archive is read through a cursor that only moves forward: a header
//! is read, its entry is extracted or skipped, and the next header follows.
//! The caller owns the cursor. The session here keeps track of where the
//! cursor stands and decides, for each header, what is done with the entry.

use crate::archive::ArchiveEntry;
use crate::extract::{action_for, plan_entry, plan_of, refusal_of, Action, EntryAction};
use crate::failure::{is_refusal, Failure};
use vstd::prelude::*;
use vstd::string::*;

verus! {

/// Where the cursor of a session stands.
#[derive(Debug, Clone, Copy, PartialEq, Eq, Structural)]
pub enum RarPhase {
    /// Opened; no header was read yet.
    Idle,
    /// A header was read, and its entry waits for a decision.
    HeaderRead,
    /// The entry is being extracted to a file.
    Extracting,
    /// The entry is being skipped.
    Skipping,
    /// The end of the archive was reached, or an entry was refused. Nothing
    /// more is read.
    Exhausted,
}

/// A session as a value: its phase, and the entry that waits for a decision.
pub struct SessionState {
    pub phase: RarPhase,
    pub held: Option<(Seq<char>, bool)>,
}

/// The cursor stands before a header, so that one may be read.
pub open spec fn before_header(phase: RarPhase) -> bool {
    phase is Idle || phase is Extracting || phase is Skipping
}

/// The state after the cursor was asked for a header and answered with
/// `header`, `None` meaning the end of the archive. Where the cursor does not
/// stand before a header, nothing changes.
pub open spec fn after_header(state: SessionState, header: Option<(Seq<char>, bool)>)
    -> SessionState {
    if before_header(state.phase) {
        match header {
            Some(entry) => SessionState { phase: RarPhase::HeaderRead, held: Some(entry) },
            None => SessionState { phase: RarPhase::Exhausted, held: None },
        }
    } else {
        state
    }
}

/// The state after the decision on the entry that waits: extracting for a
/// file, skipping for a directory, exhausted for an entry that is refused.
/// Where no entry waits, nothing changes.
pub open spec fn after_decision(state: SessionState) -> SessionState {
    if state.phase is HeaderRead && state.held is Some {
        match action_for(state.held->0) {
            Some(Action::WriteFile(_)) => SessionState { phase: RarPhase::Extracting, held: None },
            Some(Action::MakeDirectory(_)) => SessionState {
                phase: RarPhase::Skipping,
                held: None,
            },
            None => SessionState { phase: RarPhase::Exhausted, held: None },
        }
    } else {
        state
    }
}

/// Where the cursor stands, with the entry that waits at a header.
enum Cursor {
    Idle,
    HeaderRead(ArchiveEntry),
    Extracting,
    Skipping,
    Exhausted,
}

/// The progress of one pass over a RAR archive.
pub struct RarSession {
    cursor: Cursor,
}

impl View for RarSession {
    type V = SessionState;

    closed spec fn view(&self) -> SessionState {
        match self.cursor {
            Cursor::Idle => SessionState { phase: RarPhase::Idle, held: None },
            Cursor::HeaderRead(entry) => SessionState {
                phase: RarPhase::HeaderRead,
                held: Some(entry@),
            },
            Cursor::Extracting => SessionState { phase: RarPhase::Extracting, held: None },
            Cursor::Skipping => SessionState { phase: RarPhase::Skipping, held: None },
            Cursor::Exhausted => SessionState { phase: RarPhase::Exhausted, held: None },
        }
    }
}

impl RarSession {
    /// Begins a session. Where RAR archives cannot be read on this
    /// platform, the session is refused as unsupported, before anything is
    /// opened.
    pub fn begin(supported: bool) -> (r: Result<RarSession, Failure>)
        ensures
            supported ==> (r matches Ok(s) && s@ == SessionState {
                phase: RarPhase::Idle,
                held: None,
            }),
            !supported ==> (r matches Err(e) && e is Unsupported),
    {
        if supported {
            Ok(RarSession { cursor: Cursor::Idle })
        } else {
            Err(Failure::Unsupported)
        }
    }

    /// The phase of the session. An entry waits exactly at a header.
    pub fn phase(&self) -> (p: RarPhase)
        ensures
            p == self@.phase,
            (p is HeaderRead) == (self@.held is Some),
    {
        match &self.cursor {
            Cursor::Idle => RarPhase::Idle,
            Cursor::HeaderRead(_) => RarPhase::HeaderRead,
            Cursor::Extracting => RarPhase::Extracting,
            Cursor::Skipping => RarPhase::Skipping,
            Cursor::Exhausted => RarPhase::Exhausted,
        }
    }

    /// Takes what the cursor gave when asked for a header: an entry, or
    /// `None` at the end of the archive. The call is refused, as invalid
    /// input, exactly when the cursor does not stand before a header: when an
    /// entry still waits for its decision, or the session is exhausted.
    pub fn header_read(&mut self, header: Option<ArchiveEntry>) -> (r: Result<(), Failure>)
        ensures
            final(self)@ == after_header(
                old(self)@,
                match header {
                    Some(e) => Some(e@),
                    None => None,
                },
            ),
            before_header(old(self)@.phase) ==> r is Ok,
            !before_header(old(self)@.phase) ==> (r matches Err(e) && is_refusal(
                e,
                "no header can be read in this phase"@,
            )),
    {
        match self.phase() {
            RarPhase::Idle | RarPhase::Extracting | RarPhase::Skipping => {
                match header {
                    Some(entry) => {
                        self.cursor = Cursor::HeaderRead(entry);
                    },
                    None => {
                        self.cursor = Cursor::Exhausted;
                    },
                }
                Ok(())
            },
            _ => Err(
                Failure::InvalidInput { detail: "no header can be read in this phase".to_owned() },
            ),
        }
    }

    /// Decides what is done with the entry that waits: a file is extracted
    /// to its resolved path, a directory is made and its entry skipped. An
    /// entry that has no action is refused as invalid input and ends the
    /// session. The call is refused as well, and changes nothing, when no
    /// entry waits.
    pub fn decide(&mut self) -> (r: Result<EntryAction, Failure>)
        ensures
            final(self)@ == after_decision(old(self)@),
            match r {
                Ok(action) => old(self)@.phase is HeaderRead && action_for(old(self)@.held->0)
                    == Some(action@),
                Err(e) => if old(self)@.phase is HeaderRead {
                    action_for(old(self)@.held->0) is None && is_refusal(
                        e,
                        refusal_of(old(self)@.held->0),
                    )
                } else {
                    is_refusal(e, "no entry waits for a decision"@)
                },
            },
    {
        let planned: Option<Result<EntryAction, Failure>> = match &self.cursor {
            Cursor::HeaderRead(entry) => Some(plan_entry(entry)),
            _ => None,
        };
        match planned {
            None => Err(Failure::InvalidInput { detail: "no entry waits for a decision".to_owned() }),
            Some(Ok(action)) => {
                match action {
                    EntryAction::WriteFile { .. } => {
                        self.cursor = Cursor::Extracting;
                    },
                    EntryAction::MakeDirectory { .. } => {
                        self.cursor = Cursor::Skipping;
                    },
                }
                Ok(action)
            },
            Some(Err(e)) => {
                self.cursor = Cursor::Exhausted;
                Err(e)
            },
        }
    }
}

/// A pass over an archive as a value: the state it ends in and the actions
/// it decided, for the headers that the cursor gave in order. Each header is
/// read and then decided; a header that cannot be read in the state reached
/// changes nothing and decides nothing.
pub open spec fn pass(state: SessionState, headers: Seq<(Seq<char>, bool)>) -> (
    SessionState,
    Seq<Action>,
)
    decreases headers.len(),
{
    if headers.len() == 0 {
        (state, Seq::<Action>::empty())
    } else {
        let (before, actions) = pass(state, headers.drop_last());
        if before_header(before.phase) {
            let after = after_decision(after_header(before, Some(headers.last())));
            match action_for(headers.last()) {
                Some(action) => (after, actions.push(action)),
                None => (after, actions),
            }
        } else {
            (before, actions)
        }
    }
}

/// A whole pass follows the plan: where every entry of the archive has an
/// action, a pass that begins before a header decides exactly the actions
/// of the plan, one for each header and in their order, and ends before a
/// header again, so that the end of the archive can be read.
pub proof fn lemma_pass_follows_plan(state: SessionState, headers: Seq<(Seq<char>, bool)>)
    requires
        before_header(state.phase),
        plan_of(headers) is Some,
    ensures
        pass(state, headers).1 == plan_of(headers)->0,
        headers.len() > 0 ==> before_header(pass(state, headers).0.phase) && !(pass(
            state,
            headers,
        ).0.phase is Idle),
        headers.len() == 0 ==> pass(state, headers).0 == state,
        after_header(pass(state, headers).0, None).phase is Exhausted,
    decreases headers.len(),
{
    if headers.len() == 0 {
        assert(plan_of(headers)->0 =~= Seq::<Action>::empty());
    } else {
        let shorter = headers.drop_last();
        assert forall|i: int| 0 <= i < shorter.len() implies action_for(
            #[trigger] shorter[i],
        ) is Some by {
            assert(shorter[i] == headers[i]);
            assert(action_for(headers[i]) is Some);
        }
        lemma_pass_follows_plan(state, shorter);
        assert(action_for(headers[headers.len() - 1]) is Some);
        assert(plan_of(headers)->0 =~= plan_of(shorter)->0.push(action_for(headers.last())->0));
    }
}

/// In a whole pass a directory entry is made and skipped, never extracted:
/// the action decided for it is to make the directory at its resolved
/// name. Where no file entry of the archive resolves to that path, no
/// action of the pass writes a file there.
pub proof fn lemma_pass_never_writes_a_directory(
    state: SessionState,
    headers: Seq<(Seq<char>, bool)>,
    i: int,
)
    requires
        before_header(state.phase),
        plan_of(headers) is Some,
        0 <= i < headers.len(),
        headers[i].1,
    ensures
        pass(state, headers).1.len() == headers.len(),
        pass(state, headers).1[i] == Action::MakeDirectory(
            crate::path::resolve(headers[i].0)->0,
        ),
        (forall|j: int|
            0 <= j < headers.len() && !headers[j].1 ==> crate::path::resolve(
                #[trigger] headers[j].0,
            ) != crate::path::resolve(headers[i].0)) ==> forall|j: int|
            0 <= j < headers.len() ==> #[trigger] pass(state, headers).1[j] != Action::WriteFile(
                crate::path::resolve(headers[i].0)->0,
            ),
{
    lemma_pass_follows_plan(state, headers);
    crate::extract::lemma_directory_entry_makes_directory(headers, i);
    if forall|j: int|
        0 <= j < headers.len() && !headers[j].1 ==> crate::path::resolve(
            #[trigger] headers[j].0,
        ) != crate::path::resolve(headers[i].0) {
        crate::extract::lemma_no_file_written_at_directory(headers, i);
    }
}

/// An exhausted session stays exhausted, whatever it is asked.
pub proof fn lemma_exhausted_is_final(state: SessionState, header: Option<(Seq<char>, bool)>)
    requires
        state.phase is Exhausted,
    ensures
        after_header(state, header) == state,
        after_decision(state) == state,
{
}

/// An entry is decided once: after its decision no entry waits, and the
/// next decision needs a new header.
pub proof fn lemma_entry_is_decided_once(state: SessionState)
    requires
        state.phase is HeaderRead,
        state.held is Some,
    ensures
        !(after_decision(state).phase is HeaderRead),
        after_decision(state).held is None,
        after_decision(after_decision(state)) == after_decision(state),
{
}

/// A header is never read over an entry that still waits: the cursor
/// moves on only through a decision.
pub proof fn lemma_no_header_before_decision(
    state: SessionState,
    header: Option<(Seq<char>, bool)>,
)
    requires
        state.phase is HeaderRead,
    ensures
        after_header(state, header) == state,
{
}

} // verus!
