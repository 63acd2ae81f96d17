//! A small generic finite-state-machine engine.
//!
//! The [`FSM`] trait is the automaton contract: any variant must let a caller
//! register states, register validated transitions, read and set the current
//! state, and execute one step for an input symbol.  The [`mealy`] module
//! provides the one concrete realization, a Mealy-style automaton whose
//! output is a function of both the current state and the input symbol.

use vstd::prelude::*;

pub mod mealy;

verus! {

use vstd::laws_eq::obeys_concrete_eq;
use vstd::pervasive::cloned;

/// Input and output symbols: cloneable, hashable, equality-comparable,
/// debug-printable values that may cross threads.
pub trait Alphabet: Clone + PartialEq + Eq + core::hash::Hash + core::fmt::Debug + Send {

}

impl<T: Clone + PartialEq + Eq + core::hash::Hash + core::fmt::Debug + Send> Alphabet for T {

}

/// State labels, with the same bounds as [`Alphabet`].
pub trait State: Clone + PartialEq + Eq + core::hash::Hash + core::fmt::Debug + Send {

}

impl<T: Clone + PartialEq + Eq + core::hash::Hash + core::fmt::Debug + Send> State for T {

}

/// The role an offending state played in the operation that rejected it.
#[derive(Debug, PartialEq, Eq, Clone, Copy)]
pub enum StateRole {
    /// The origin of a transition being added.
    Origin,
    /// The destination of a transition being added.
    Destination,
    /// The target of an explicit current-state assignment.
    Target,
}

/// A validation failure: `state` is not a member of the automaton's state
/// set, and `role` says where it was offered.
#[derive(Debug, PartialEq, Eq)]
pub struct UnknownStateError<S> {
    pub state: S,
    pub role: StateRole,
}

/// `T`'s `==` agrees with mathematical equality and `T::clone` returns a
/// value equal to its argument.  All contracts of this crate are stated for
/// value types that behave this way (integers, strings, and the like).
pub open spec fn value_semantics<T: Clone + PartialEq>() -> bool {
    &&& obeys_concrete_eq::<T>()
    &&& forall|a: T, b: T| #[trigger] cloned::<T>(a, b) ==> a == b
}

/// All three symbol domains of an automaton behave as plain values.
pub open spec fn fsm_domain<I: Alphabet, O: Alphabet, S: State>() -> bool {
    &&& value_semantics::<I>()
    &&& value_semantics::<O>()
    &&& value_semantics::<S>()
}

/// Compares two values.  For a type whose `==` behaves as value equality,
/// the result is pinned to mathematical equality.
pub fn values_equal<T: Clone + PartialEq>(a: &T, b: &T) -> (r: bool)
    ensures
        value_semantics::<T>() ==> (r <==> a == b),
{
    proof {
        reveal(obeys_concrete_eq);
    }
    a == b
}

/// Clones a value.  For a type whose `clone` behaves as a copy, the result
/// is pinned to equal the argument.
pub fn clone_value<T: Clone + PartialEq>(a: &T) -> (r: T)
    ensures
        value_semantics::<T>() ==> r == *a,
{
    let r = a.clone();
    proof {
        assert(cloned::<T>(*a, r));
    }
    r
}

/// The one step of a deterministic, partial transition function: if `table`
/// has an entry for `(current, input)`, the machine moves to that entry's
/// destination and emits its output; otherwise it stays put and emits
/// nothing.
pub open spec fn step<I, O, S>(current: S, table: Map<(S, I), (S, O)>, input: I) -> (S, Option<O>) {
    if table.dom().contains((current, input)) {
        (table[(current, input)].0, Some(table[(current, input)].1))
    } else {
        (current, None)
    }
}

/// The automaton contract.
///
/// An implementor models itself as a current state, a state set, and a
/// transition table; `inv` is its internal well-formedness.  Every operation
/// below is all-or-nothing: a failed validation leaves the whole model
/// unchanged.
pub trait FSM<I: Alphabet, O: Alphabet, S: State>: Sized {
    /// The state the automaton is in right now.
    spec fn current(&self) -> S;

    /// The set of registered states.
    spec fn state_set(&self) -> Set<S>;

    /// The transition table: `(source, input) -> (destination, output)`.
    spec fn table(&self) -> Map<(S, I), (S, O)>;

    /// Internal well-formedness, established by construction and preserved
    /// by every operation.
    spec fn inv(&self) -> bool;

    /// A well-formed automaton is closed: the current state and both
    /// endpoints of every table entry are members of the state set.
    proof fn inv_properties(&self)
        requires
            self.inv(),
        ensures
            self.state_set().contains(self.current()),
            forall|k: (S, I)| #[trigger]
                self.table().dom().contains(k) ==> self.state_set().contains(k.0)
                    && self.state_set().contains(self.table()[k].0),
    ;

    /// Registers `state`.  Idempotent; nothing else changes.
    fn add_state(&mut self, state: S)
        requires
            old(self).inv(),
            fsm_domain::<I, O, S>(),
        ensures
            final(self).inv(),
            final(self).current() == old(self).current(),
            final(self).state_set() == old(self).state_set().insert(state),
            final(self).table() == old(self).table(),
    ;

    /// Adds the transition `(from, input) -> (to, output)` after validating
    /// that both endpoints are registered, overwriting any prior entry for
    /// `(from, input)`.  An unknown origin is reported before an unknown
    /// destination, and a failure changes nothing.
    fn try_add_transition(&mut self, from: S, input: I, to: S, output: O) -> (r: Result<
        (),
        UnknownStateError<S>,
    >)
        requires
            old(self).inv(),
            fsm_domain::<I, O, S>(),
        ensures
            final(self).inv(),
            final(self).current() == old(self).current(),
            final(self).state_set() == old(self).state_set(),
            !old(self).state_set().contains(from) ==> {
                &&& r == Result::<(), UnknownStateError<S>>::Err(
                    (UnknownStateError { state: from, role: StateRole::Origin }),
                )
                &&& final(self).table() == old(self).table()
            },
            old(self).state_set().contains(from) && !old(self).state_set().contains(to) ==> {
                &&& r == Result::<(), UnknownStateError<S>>::Err(
                    (UnknownStateError { state: to, role: StateRole::Destination }),
                )
                &&& final(self).table() == old(self).table()
            },
            old(self).state_set().contains(from) && old(self).state_set().contains(to) ==> {
                &&& r is Ok
                &&& final(self).table() == old(self).table().insert(
                    (from, input),
                    (to, output),
                )
            },
    ;

    /// Makes `state` current if it is registered; otherwise fails and
    /// changes nothing.
    fn try_set_state(&mut self, state: S) -> (r: Result<(), UnknownStateError<S>>)
        requires
            old(self).inv(),
            fsm_domain::<I, O, S>(),
        ensures
            final(self).inv(),
            final(self).state_set() == old(self).state_set(),
            final(self).table() == old(self).table(),
            old(self).state_set().contains(state) ==> r is Ok && final(self).current() == state,
            !old(self).state_set().contains(state) ==> {
                &&& r == Result::<(), UnknownStateError<S>>::Err(
                    (UnknownStateError { state: state, role: StateRole::Target }),
                )
                &&& final(self).current() == old(self).current()
            },
    ;

    /// Returns a copy of the current state.
    fn state(&self) -> (r: S)
        requires
            self.inv(),
            fsm_domain::<I, O, S>(),
        ensures
            r == self.current(),
    ;

    /// Executes one step for `input`, following [`step`]: on a table match
    /// the automaton moves and returns the entry's output, otherwise it
    /// stays put and returns nothing.  The state set and the table never
    /// change.
    fn next(&mut self, input: I) -> (r: Option<O>)
        requires
            old(self).inv(),
            fsm_domain::<I, O, S>(),
        ensures
            final(self).inv(),
            final(self).state_set() == old(self).state_set(),
            final(self).table() == old(self).table(),
            (final(self).current(), r) == step(old(self).current(), old(self).table(), input),
    ;
}

/// Determinism: stepping two automata that agree on current state and table
/// with the same input yields the same destination and the same output.
pub proof fn lemma_step_deterministic<I, O, S>(
    c1: S,
    t1: Map<(S, I), (S, O)>,
    c2: S,
    t2: Map<(S, I), (S, O)>,
    input: I,
)
    requires
        c1 == c2,
        t1 == t2,
    ensures
        step(c1, t1, input) == step(c2, t2, input),
{
}

/// No-match idempotence: when the table has no entry for
/// `(current, input)`, a step produces no output and leaves the current
/// state as it was.
pub proof fn lemma_step_no_match<I, O, S>(current: S, table: Map<(S, I), (S, O)>, input: I)
    requires
        !table.dom().contains((current, input)),
    ensures
        step(current, table, input) == (current, None::<O>),
{
}

} // verus!
