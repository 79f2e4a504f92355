//! The actions of a review session.
use vstd::prelude::*;

verus! {

/// How well a card was remembered.
#[derive(Clone, Copy, Debug, PartialEq, Eq, Structural)]
pub enum Grade {
    Forgot,
    Hard,
    Good,
    Easy,
}

/// What the user asks for on a review page.
#[derive(Clone, Copy, Debug, PartialEq, Eq, Structural)]
pub enum Action {
    Reveal,
    Undo,
    End,
    Forgot,
    Hard,
    Good,
    Easy,
    Shutdown,
}

impl Action {
    /// The action grades a card.
    pub open spec fn is_grade(&self) -> bool {
        match self {
            Action::Forgot | Action::Hard | Action::Good | Action::Easy => true,
            _ => false,
        }
    }

    /// The grade an action gives.
    pub fn grade(&self) -> (r: Grade)
        requires
            self.is_grade(),
        ensures
            r == (match self {
                Action::Forgot => Grade::Forgot,
                Action::Hard => Grade::Hard,
                Action::Good => Grade::Good,
                _ => Grade::Easy,
            }),
    {
        match self {
            Action::Forgot => Grade::Forgot,
            Action::Hard => Grade::Hard,
            Action::Good => Grade::Good,
            _ => Grade::Easy,
        }
    }
}

/// The form a review page posts.
#[derive(Clone, Copy, Debug)]
pub struct FormData {
    pub action: Action,
}

} // verus!
