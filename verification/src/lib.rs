//! Verified core of a terminal front end for kernel mailing-list patch review:
//! the thread model of a `lei` message dump, the state machines of its
//! components and the keyboard mapping.

pub mod action;
pub mod components;
pub mod key;
pub mod text;

pub use action::Action;
pub use key::Key;
