//! Kinematic trees of rigid links for recursive Newton-Euler evaluation.
//!
//! A mechanism is an arena of [`link::Link`] records indexed by their id.
//! [`rkd::Rkd`] owns the arena, checks that the records form a tree rooted at
//! link 0, and walks it: root to leaves for the kinematic pass, leaves to root
//! for the dynamic pass.

pub mod bounded;
mod climb;
mod counting;
mod depth;
pub mod ik;
pub mod laws;
pub mod link;
pub mod order;
pub mod pass;
pub mod pid_controller;
pub mod rkd;
pub mod tree;
mod walk;
