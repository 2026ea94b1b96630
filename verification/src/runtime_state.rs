//! The fatal state of the client: the first reason for which it cannot go on.

use vstd::prelude::*;

verus! {

/// The reason for which the client cannot go on, once there is one.
pub struct FatalState {
    reason: Option<String>,
}

impl View for FatalState {
    type V = Option<Seq<char>>;

    closed spec fn view(&self) -> Option<Seq<char>> {
        match self.reason {
            Some(reason) => Some(reason@),
            None => None,
        }
    }
}

/// How the fatal state could not be asked for its reason.
#[derive(Debug, Clone, Copy, PartialEq, Eq, Structural)]
pub enum StateAccess {
    /// The lock on the state was poisoned.
    LockPoisoned,
    /// The lock was poisoned while waiting for a reason.
    WaitPoisoned,
}

/// The text that stands for a reason that cannot be told because a lock is poisoned.
pub open spec fn poisoned_text(access: StateAccess) -> Seq<char> {
    match access {
        StateAccess::LockPoisoned => "runtime fatal reason mutex poisoned"@,
        StateAccess::WaitPoisoned => "runtime fatal reason condvar wait poisoned"@,
    }
}

/// The reason that stands for a poisoned lock.
pub fn poisoned_reason(access: StateAccess) -> (r: String)
    ensures
        r@ == poisoned_text(access),
{
    match access {
        StateAccess::LockPoisoned => "runtime fatal reason mutex poisoned".to_string(),
        StateAccess::WaitPoisoned => "runtime fatal reason condvar wait poisoned".to_string(),
    }
}

impl FatalState {
    /// No reason.
    pub fn new() -> (r: FatalState)
        ensures
            r@ is None,
    {
        FatalState { reason: None }
    }

    /// The reason, once there is one.
    pub fn fatal_reason(&self) -> (r: Option<String>)
        ensures
            match r {
                Some(reason) => self@ == Some(reason@),
                None => self@ is None,
            },
    {
        match &self.reason {
            Some(reason) => Some(reason.clone()),
            None => None,
        }
    }

    /// Records a reason, unless there is one; says whether it was recorded, so that those who wait
    /// for one can be woken.
    pub fn record_fatal(&mut self, reason: String) -> (r: bool)
        ensures
            r == old(self)@ is None,
            final(self)@ == recorded(old(self)@, reason@),
    {
        if self.reason.is_none() {
            self.reason = Some(reason);
            true
        } else {
            false
        }
    }

    /// Forgets the reason.
    pub fn clear_fatal_reason(&mut self)
        ensures
            final(self)@ is None,
    {
        self.reason = None;
    }
}

/// The state after recording a reason.
pub open spec fn recorded(state: Option<Seq<char>>, reason: Seq<char>) -> Option<Seq<char>> {
    if state is None {
        Some(reason)
    } else {
        state
    }
}

/// The state after recording reasons one after the other.
pub open spec fn recorded_all(state: Option<Seq<char>>, reasons: Seq<Seq<char>>) -> Option<
    Seq<char>,
>
    decreases reasons.len(),
{
    if reasons.len() == 0 {
        state
    } else {
        recorded(recorded_all(state, reasons.drop_last()), reasons.last())
    }
}

/// The first reason stays: whatever is recorded after it does not change it.
pub proof fn law_first_reason_stays(reasons: Seq<Seq<char>>)
    requires
        reasons.len() > 0,
    ensures
        recorded_all(None, reasons) == Some(reasons[0]),
    decreases reasons.len(),
{
    if reasons.len() > 1 {
        law_first_reason_stays(reasons.drop_last());
    } else {
        assert(recorded_all(None, reasons.drop_last()) is None);
    }
}

/// A reason is kept where there is none yet, and the texts for a poisoned lock.
pub proof fn law_recorded(reason: Seq<char>, other: Seq<char>)
    ensures
        recorded(None, reason) == Some(reason),
        recorded(Some(reason), other) == Some(reason),
        poisoned_text(StateAccess::LockPoisoned) == "runtime fatal reason mutex poisoned"@,
        poisoned_text(StateAccess::WaitPoisoned) == "runtime fatal reason condvar wait poisoned"@,
{
}

} // verus!
