//! Application states and the machine that keeps them on a stack. A verdict
//! of the state on top moves the stack; the machine says what became of the
//! stack and which lifecycle calls the caller owes the states.

use crate::dispatcher::quiet;
use crate::dispatcher::Dispatcher;
use vstd::prelude::*;

verus! {

/// The verdict of an update: what is to happen to the stack of states.
pub enum Trans<T> {
    /// The stack stays as it is.
    Stay,
    /// The state on top leaves.
    Pop,
    /// A new state goes on top.
    Push(State<T>),
    /// A new state takes the place of the state on top.
    Swap(State<T>),
}

/// A state: the systems that run while it is on top of the stack.
pub struct State<T> {
    dispatcher: Dispatcher<T>,
}

impl<T> View for State<T> {
    type V = Seq<T>;

    /// The systems of the state, in the order in which they were added.
    closed spec fn view(&self) -> Seq<T> {
        self.dispatcher@
    }
}

impl<T> State<T> {
    /// A state without systems.
    pub fn new() -> (s: State<T>)
        ensures
            s@ == Seq::<T>::empty(),
    {
        State { dispatcher: Dispatcher::new() }
    }

    /// The state with `system` added behind its systems.
    pub fn with(self, system: T) -> (s: State<T>)
        ensures
            s@ == self@.push(system),
    {
        let mut state = self;
        state.dispatcher.with(system);
        state
    }

    /// The systems, for the caller to run.
    pub fn systems_mut(&mut self) -> (ret: &mut Vec<T>)
        ensures
            ret@ == old(self)@,
            final(self)@ == final(ret)@,
    {
        self.dispatcher.systems_mut()
    }

    /// Reduces the verdicts that the systems of this state returned on
    /// update; see `Dispatcher::on_update`.
    pub fn on_update(&self, verdicts: Vec<Trans<T>>) -> (r: Trans<T>)
        ensures
            quiet(verdicts@, 0, verdicts@.len() as int) ==> r is Stay,
            forall|i: int|
                0 <= i < verdicts@.len() && quiet(verdicts@, 0, i) && !(verdicts@[i] is Stay) ==> r
                    == #[trigger] verdicts@[i],
    {
        self.dispatcher.on_update(verdicts)
    }
}

/// Whether the machine goes on after a step.
#[derive(Clone, Copy, PartialEq, Eq, Debug, Structural)]
pub enum UpdateStatus {
    Continue,
    Exit,
}

/// The lifecycle calls that the caller owes the states after a step.
pub enum Effect<T> {
    /// No call is owed.
    Nothing,
    /// `exit` on the state that left, then `resume` on the state on top.
    Resume(State<T>),
    /// `exit` on the state that left; the stack is empty.
    Drained(State<T>),
    /// `pause` on the state below the top, then `start` on the state on top.
    Started,
    /// `exit` on the state that left, then `start` on the state on top.
    Replaced(State<T>),
}

/// A lifecycle call on the systems of a state, other than the update.
#[derive(Clone, Copy, PartialEq, Eq, Debug, Structural)]
pub enum Hook {
    Start,
    Exit,
    Pause,
    Resume,
}

/// The state that a lifecycle call goes to after a step.
#[derive(Clone, Copy, PartialEq, Eq, Debug, Structural)]
pub enum Target {
    /// The state that left the stack.
    Left,
    /// The state on top of the stack.
    Top,
    /// The state below the top of the stack.
    Below,
}

impl<T> Effect<T> {
    /// The calls that are owed, in their order.
    pub open spec fn owed(self) -> Seq<(Hook, Target)> {
        match self {
            Effect::Nothing => seq![],
            Effect::Resume(_) => seq![(Hook::Exit, Target::Left), (Hook::Resume, Target::Top)],
            Effect::Drained(_) => seq![(Hook::Exit, Target::Left)],
            Effect::Started => seq![(Hook::Pause, Target::Below), (Hook::Start, Target::Top)],
            Effect::Replaced(_) => seq![(Hook::Exit, Target::Left), (Hook::Start, Target::Top)],
        }
    }

    /// The calls that are owed, in their order.
    pub fn calls(&self) -> (r: Vec<(Hook, Target)>)
        ensures
            r@ == self.owed(),
    {
        let mut r: Vec<(Hook, Target)> = Vec::new();
        match self {
            Effect::Nothing => {},
            Effect::Resume(_) => {
                r.push((Hook::Exit, Target::Left));
                r.push((Hook::Resume, Target::Top));
            },
            Effect::Drained(_) => {
                r.push((Hook::Exit, Target::Left));
            },
            Effect::Started => {
                r.push((Hook::Pause, Target::Below));
                r.push((Hook::Start, Target::Top));
            },
            Effect::Replaced(_) => {
                r.push((Hook::Exit, Target::Left));
                r.push((Hook::Start, Target::Top));
            },
        }
        assert(r@ =~= self.owed());
        r
    }

    /// The state that left the stack, if one did.
    pub fn into_left(self) -> (r: Option<State<T>>)
        ensures
            r == match self {
                Effect::Resume(left) => Some(left),
                Effect::Drained(left) => Some(left),
                Effect::Replaced(left) => Some(left),
                _ => None,
            },
    {
        match self {
            Effect::Resume(left) => Some(left),
            Effect::Drained(left) => Some(left),
            Effect::Replaced(left) => Some(left),
            Effect::Nothing => None,
            Effect::Started => None,
        }
    }
}

/// A stack of states. The last state of the view is the one on top.
pub struct StateMachine<T> {
    stack: Vec<State<T>>,
}

impl<T> View for StateMachine<T> {
    type V = Seq<State<T>>;

    closed spec fn view(&self) -> Seq<State<T>> {
        self.stack@
    }
}

impl<T> StateMachine<T> {
    /// A machine with `initial_state` alone on the stack.
    pub fn new(initial_state: State<T>) -> (m: StateMachine<T>)
        ensures
            m@ == seq![initial_state],
    {
        let mut stack: Vec<State<T>> = Vec::new();
        stack.push(initial_state);
        assert(stack@ =~= seq![initial_state]);
        StateMachine { stack }
    }

    /// The number of states on the stack.
    pub fn depth(&self) -> (n: usize)
        ensures
            n == self@.len(),
    {
        self.stack.len()
    }

    /// The state that lies `below` places under the top of the stack.
    pub fn state_mut(&mut self, below: usize) -> (ret: &mut State<T>)
        requires
            below < old(self)@.len(),
        ensures
            *ret == old(self)@[old(self)@.len() - 1 - below],
            final(self)@ == old(self)@.update(old(self)@.len() - 1 - below, *final(ret)),
    {
        let at = self.stack.len() - 1 - below;
        &mut self.stack[at]
    }

    /// One step of the machine on the verdict of the state on top. With an
    /// empty stack nothing happens and the machine is at its end. `Stay`
    /// leaves the stack; `Pop` takes the top off; `Push` puts a state on
    /// top; `Swap` replaces the top. The machine goes on exactly while the
    /// stack holds a state.
    pub fn update(&mut self, verdict: Trans<T>) -> (r: (UpdateStatus, Effect<T>))
        ensures
            (r.0 is Exit) == (final(self)@.len() == 0),
            old(self)@.len() == 0 ==> final(self)@ == old(self)@ && r.1 is Nothing,
            old(self)@.len() > 0 ==> match verdict {
                Trans::Stay => final(self)@ == old(self)@ && r.1 is Nothing,
                Trans::Pop => {
                    &&& final(self)@ == old(self)@.drop_last()
                    &&& r.1 == (if old(self)@.len() > 1 {
                        Effect::Resume(old(self)@.last())
                    } else {
                        Effect::Drained(old(self)@.last())
                    })
                },
                Trans::Push(state) => final(self)@ == old(self)@.push(state) && r.1 is Started,
                Trans::Swap(state) => {
                    &&& final(self)@ == old(self)@.drop_last().push(state)
                    &&& r.1 == Effect::Replaced(old(self)@.last())
                },
            },
    {
        if self.stack.len() == 0 {
            return (UpdateStatus::Exit, Effect::Nothing);
        }
        match verdict {
            Trans::Stay => (UpdateStatus::Continue, Effect::Nothing),
            Trans::Pop => {
                match self.stack.pop() {
                    Some(left) => {
                        if self.stack.len() > 0 {
                            (UpdateStatus::Continue, Effect::Resume(left))
                        } else {
                            (UpdateStatus::Exit, Effect::Drained(left))
                        }
                    },
                    None => (UpdateStatus::Exit, Effect::Nothing),
                }
            },
            Trans::Push(new_state) => {
                self.stack.push(new_state);
                (UpdateStatus::Continue, Effect::Started)
            },
            Trans::Swap(new_state) => {
                match self.stack.pop() {
                    Some(left) => {
                        self.stack.push(new_state);
                        (UpdateStatus::Continue, Effect::Replaced(left))
                    },
                    None => (UpdateStatus::Exit, Effect::Nothing),
                }
            },
        }
    }
}

} // verus!
