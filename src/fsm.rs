//! Pushdown automaton of application screens: a dialog is pushed on top of the
//! screen it interrupts and popped to return to it.

use vstd::prelude::*;

verus! {

#[derive(PartialEq, Eq, Structural, Clone, Copy, Debug)]
pub enum SessionMode {
    CreateServer,
    ConnectAsClientOnly,
}

pub enum State {
    Menu,
    Connecting { server_address: String, session_mode: SessionMode },
    Playing,
    Disconnected,
    QuitDialog,
    Quit,
}

/// A stack of states whose top is the current one.
pub struct StateMachine {
    state_stack: Vec<State>,
}

impl View for StateMachine {
    type V = Seq<State>;

    closed spec fn view(&self) -> Seq<State> {
        self.state_stack@
    }
}

impl StateMachine {
    pub fn new() -> (r: StateMachine)
        ensures
            r@ == Seq::<State>::empty(),
    {
        StateMachine { state_stack: Vec::new() }
    }

    /// Enters `state`, keeping the current one beneath it.
    pub fn push(&mut self, state: State)
        ensures
            final(self)@ == old(self)@.push(state),
    {
        self.state_stack.push(state);
    }

    /// Leaves the current state for the one beneath it; no effect when empty.
    pub fn pop(&mut self)
        ensures
            old(self)@.len() == 0 ==> final(self)@ == old(self)@,
            old(self)@.len() > 0 ==> final(self)@ == old(self)@.drop_last(),
    {
        self.state_stack.pop();
    }

    /// Replaces the whole stack with `state`.
    pub fn change(&mut self, state: State)
        ensures
            final(self)@ == seq![state],
    {
        self.state_stack.clear();
        self.push(state);
        assert(self@ =~= seq![state]);
    }

    /// The current state.
    pub fn peek(&self) -> (r: Option<&State>)
        ensures
            self@.len() == 0 ==> r is None,
            self@.len() > 0 ==> r == Some(&self@.last()),
    {
        self.state_stack.last()
    }

    /// The current state, to change in place.
    pub fn peek_mut(&mut self) -> (r: Option<&mut State>)
        ensures
            old(self)@.len() == 0 ==> r is None && final(self)@ == old(self)@,
            old(self)@.len() > 0 ==> r is Some && *r->0 == old(self)@.last() && final(self)@
                == old(self)@.update(old(self)@.len() - 1, *final(r->0)),
    {
        self.state_stack.last_mut()
    }
}

} // verus!
