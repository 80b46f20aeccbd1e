//! Search for a set of finite automata that patrol a 20x20 walled grid.

pub mod agree;
pub mod automata;
pub mod board;
pub mod eval;
pub mod output;
pub mod pool;
pub mod random;
pub mod search;
pub mod sim;

use vstd::prelude::*;

verus! {

/// Side length of the square grid.
pub const N: usize = 20;

/// Number of walls slots along one line (between `N` cells).
pub const N_MINUS_1: usize = 19;

/// Number of cells of the grid.
pub const CELLS: usize = 400;

/// Number of automata in one automaton set.
pub const NUM_AUTOS: usize = 6;

/// Number of internal states of each automaton.
pub const NUM_STATES: usize = 6;

/// Number of (row, col, dir, state) combinations.
pub const STATE_SPACE: usize = 9600;

/// One row of an automaton table:
/// (action without wall ahead, next state, action with wall ahead, next state).
/// Actions: 0 = forward, 1 = turn right, 2 = turn left.
pub type AutoEntry = (u8, usize, u8, usize);

/// The transition table of one automaton.
pub type AutoTable = [AutoEntry; NUM_STATES];

/// A set of automata.
pub type AutoSet = [AutoTable; NUM_AUTOS];

/// An entry is well formed when its actions and next states are in range:
/// with a wall ahead only turns are allowed.
pub open spec fn entry_wf(e: AutoEntry) -> bool {
    &&& e.0 < 3
    &&& e.1 < NUM_STATES
    &&& 1 <= e.2 <= 2
    &&& e.3 < NUM_STATES
}

/// Every entry of the table is well formed.
pub open spec fn table_wf(t: AutoTable) -> bool {
    forall|s: int| 0 <= s < NUM_STATES ==> #[trigger] entry_wf(t[s])
}

/// Every table of the set is well formed.
pub open spec fn set_wf(a: AutoSet) -> bool {
    forall|k: int| 0 <= k < NUM_AUTOS ==> #[trigger] table_wf(a[k])
}

/// Every next state named in the table is a state of the table.
pub open spec fn table_next_in_range(t: AutoTable) -> bool {
    forall|s: int| 0 <= s < NUM_STATES ==> (#[trigger] t[s]).1 < NUM_STATES && t[s].3 < NUM_STATES
}

/// Every next state named in the set is a state of its automaton.
pub open spec fn set_next_in_range(a: AutoSet) -> bool {
    forall|k: int| 0 <= k < NUM_AUTOS ==> #[trigger] table_next_in_range(a[k])
}

} // verus!
