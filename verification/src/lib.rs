//! A parallel finite-state-machine execution engine.
//!
//! A machine is built from state and transition declarations, tracks an
//! ordered multiset of active states, and advances all of them synchronously
//! on each input symbol. Side-effecting actions are represented by callback
//! indices into a pool owned by the caller; each `step` reports, in firing
//! order, exactly which callbacks must run.

use vstd::prelude::*;

mod ziz_machine;

pub use ziz_machine::CallbackIndex;
pub use ziz_machine::MachineError;
pub use ziz_machine::StateIndex;
pub use ziz_machine::StateMachine;
pub use ziz_machine::SymbolIndex;
pub use ziz_machine::TransitionIndex;

verus! {

/// A state declaration: a unique name and the two callback slots the state
/// owns, fired when the state is entered and exited.
pub struct State {
    pub on_enter: CallbackIndex,
    pub name: String,
    pub on_exit: CallbackIndex,
}

/// A transition declaration: from `previous_state`, triggered by `symbol`
/// (`None` is the empty symbol, firing on every step), running `output` and
/// activating `following_state`.
pub struct Transition {
    pub previous_state: String,
    pub symbol: Option<String>,
    pub output: CallbackIndex,
    pub following_state: String,
}

} // verus!
