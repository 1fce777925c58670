//! Finite automata, deterministic, non-deterministic and with
//! epsilon-transitions, with acceptance, transposition, the subset construction
//! and Brzozowski's minimization, each proved to do what its contract states.

pub mod btset;
pub mod dfa;
pub mod fsm;
pub mod interfaces;
pub mod lang;
pub mod loader;
pub mod laws;
pub mod naming;
pub mod nfa;
pub mod nfae;
pub mod state;
pub mod subset;
pub mod symbol;
pub mod table;
pub mod transition;

pub use btset::{BTSet, SetElement};
pub use dfa::DeterministicFiniteAutomaton;
pub use fsm::FSM;
pub use fsm::FSM as FiniteStateMachine;
pub use interfaces::AutomateTrait;
pub use nfa::NonDeterministicFiniteAutomaton;
pub use nfae::NonDeterministicFiniteAutomatonEpsilon;
pub use state::State;
pub use symbol::Symbol;
pub use table::Table;
pub use transition::Transition;
