//! Collision-free routing of agents that share a linear work area.
//!
//! Every agent moves along its own timeline; the planner keeps agents in
//! their left-to-right order and at least a safety distance apart on the
//! x-axis, moving blockers aside and waiting where needed.
pub mod actions;
