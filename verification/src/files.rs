//! Choosing a file to attach, or where to save one.
//!
//! On a desktop this is the native dialog, which blocks until it is
//! answered. A phone has no such call: choosing is an activity the platform
//! runs, and the answer arrives later, on a thread of its own. So the shape
//! here is the phone's, and the desktop answers it at once: a [`Pick`] the
//! interface asks each pass whether it has been answered, and a [`Chooser`]
//! a host installs to do the asking.

use std::path::PathBuf;
use std::sync::Arc;

use vstd::prelude::*;
use vstd::rwlock::{RwLock, RwLockPredicate};

verus! {

/// A path on this machine, carried through and never read here.
#[verifier::external_type_specification]
#[verifier::external_body]
pub struct ExPathBuf(PathBuf);

/// Where a choice stands.
pub enum PickState {
    /// Still being made.
    Pending,
    /// Made, and not yet acted on: what was chosen, or nothing.
    Answered(Option<Vec<PathBuf>>),
    /// Made and acted on.
    Taken,
}

/// Asking a choice standing at `s` whether it was made: where it stands
/// after, and what the asking gives. A made choice is given once.
pub open spec fn taken_from(s: PickState) -> (PickState, Option<Option<Vec<PathBuf>>>) {
    match s {
        PickState::Pending => (PickState::Pending, None),
        PickState::Answered(paths) => (PickState::Taken, Some(paths)),
        PickState::Taken => (PickState::Taken, None),
    }
}

/// Answering a choice standing at `s` with `paths`: only a pending one
/// takes the answer.
pub open spec fn given(s: PickState, paths: Option<Vec<PathBuf>>) -> PickState {
    match s {
        PickState::Pending => PickState::Answered(paths),
        other => other,
    }
}

impl PickState {
    /// Asking whether the choice was made, by [`taken_from`].
    pub fn take(self) -> (r: (PickState, Option<Option<Vec<PathBuf>>>))
        ensures
            r == taken_from(self),
    {
        match self {
            PickState::Pending => (PickState::Pending, None),
            PickState::Answered(paths) => (PickState::Taken, Some(paths)),
            PickState::Taken => (PickState::Taken, None),
        }
    }

    /// The choice being made, by [`given`].
    pub fn give(self, paths: Option<Vec<PathBuf>>) -> (r: PickState)
        ensures
            r == given(self, paths),
    {
        match self {
            PickState::Pending => PickState::Answered(paths),
            other => other,
        }
    }
}

/// The states a choice may stand at: a choice made when it was asked for
/// stands answered with that answer, or taken; one still being made may
/// stand anywhere.
pub struct Allowed {
    pub answer: Option<Option<Vec<PathBuf>>>,
}

impl RwLockPredicate<PickState> for Allowed {
    open spec fn inv(self, v: PickState) -> bool {
        match self.answer {
            Some(a) => v == PickState::Answered(a) || v == PickState::Taken,
            None => true,
        }
    }
}

/// A choice being made. Cloneable, so the half that answers and the half
/// that asks can be on different threads.
pub struct Pick(Arc<RwLock<PickState, Allowed>>);

impl Pick {
    /// The lock this pick's choice stands in; two picks with the same one
    /// are the same choice.
    pub closed spec fn cell(self) -> Arc<RwLock<PickState, Allowed>> {
        self.0
    }

    /// The answer the choice was made with when it was asked for, if it
    /// was already made then.
    pub closed spec fn made_with(self) -> Option<Option<Vec<PathBuf>>> {
        self.0.pred().answer
    }
}

impl Clone for Pick {
    fn clone(&self) -> (r: Pick)
        ensures
            r.cell() == self.cell(),
    {
        Pick(share(&self.0))
    }
}

/// std's `Arc::clone`: the same lock, shared once more.
#[verifier::external_body]
fn share(a: &Arc<RwLock<PickState, Allowed>>) -> (r: Arc<RwLock<PickState, Allowed>>)
    ensures
        r == *a,
{
    Arc::clone(a)
}

impl Pick {
    /// A pick already answered: the desktop's, where the dialog blocked.
    pub fn answered(paths: Option<Vec<PathBuf>>) -> (p: Pick)
        ensures
            p.made_with() == Some(paths),
    {
        let ghost allowed = Allowed { answer: Some(paths) };
        Pick(Arc::new(RwLock::new(PickState::Answered(paths), Ghost(allowed))))
    }

    /// A pick still being made, and the means to answer it.
    pub fn pending() -> (r: (Pick, Answer))
        ensures
            r.0.cell() == r.1.pick().cell(),
            r.0.made_with() is None,
    {
        let ghost allowed = Allowed { answer: None };
        let pick = Pick(Arc::new(RwLock::new(PickState::Pending, Ghost(allowed))));
        let answer = Answer(pick.clone());
        (pick, answer)
    }

    /// `None` while the choice is still being made. `Some(None)` once it was
    /// made and nothing was chosen; `Some(Some(paths))` once, with what was.
    /// After that, `None` for ever: a choice is acted on once. What the
    /// choice stands at is whatever the other half and earlier asks left it
    /// at, so this says what [`taken_from`] gives of some state it may stand
    /// at: for a pick made with an answer, that answer or nothing.
    pub fn take(&self) -> (r: Option<Option<Vec<PathBuf>>>)
        ensures
            exists|s: PickState| self.cell().pred().inv(s) && #[trigger] taken_from(s).1 == r,
            self.made_with() matches Some(a) ==> (r == Some(a) || r is None),
    {
        let (state, handle) = self.0.acquire_write();
        let ghost before = state;
        let (next, out) = state.take();
        handle.release_write(next);
        assert(taken_from(before).1 == out);
        out
    }
}

/// The answering half of a pending [`Pick`].
pub struct Answer(Pick);

impl Answer {
    /// The pick this answers.
    pub closed spec fn pick(self) -> Pick {
        self.0
    }

    /// The choice made: `paths`, or nothing chosen. A pick that was already
    /// answered keeps its first answer.
    pub fn give(self, paths: Option<Vec<PathBuf>>) {
        let (state, handle) = self.0.0.acquire_write();
        handle.release_write(state.give(paths));
    }
}

/// What asks the person. One per process, installed by the host.
pub trait Chooser: Send + Sync {
    /// Files to attach. Several at once, or none.
    fn pick_files(&self) -> Pick;

    /// Where to write a file that arrived under `name`. One path, or none.
    fn save_file(&self, name: &str) -> Pick;
}

/// **A choice is acted on once.** Asking a choice that gives an answer
/// leaves it taken, and asking it again gives nothing, for ever.
pub proof fn law_taken_once(s: PickState)
    ensures
        taken_from(s).1 is Some ==> taken_from(taken_from(s).0).1 is None,
        taken_from(s).1 is Some ==> taken_from(taken_from(s).0).0 == taken_from(s).0,
{
}

/// **Nothing chosen is an answer, distinct from no answer yet.** A pending
/// choice asked gives nothing and stays pending; answered, even with
/// nothing, it gives that answer.
pub proof fn law_answer_is_given(paths: Option<Vec<PathBuf>>)
    ensures
        taken_from(PickState::Pending) == (PickState::Pending, None::<Option<Vec<PathBuf>>>),
        taken_from(given(PickState::Pending, paths)).1 == Some(paths),
{
}

/// **An answer is not overwritten.** Once answered or taken, a choice is
/// left as it stood by a later answer.
pub proof fn law_first_answer_stands(s: PickState, paths: Option<Vec<PathBuf>>)
    requires
        !(s is Pending),
    ensures
        given(s, paths) == s,
{
}

} // verus!
