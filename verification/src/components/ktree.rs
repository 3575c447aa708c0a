//! The kernel tree component: it turns a request to apply a patch into the
//! path of the patch that the caller applies (`git am` runs outside).

use vstd::prelude::*;

use crate::action::Action;
use crate::key::Key;

verus! {

/// The kernel tree that patches are applied to.
pub const KERNEL_TREE_PATH: &'static str = "foo";

/// The branch that patches are applied on.
pub const BASE_BRANCH: &'static str = "bar";

/// The patch path that the `z` key asks to apply.
pub const PATCH_PLACEHOLDER: &'static str = "<patch-filepath>";

/// The kernel tree component. It keeps no state of its own.
pub struct Ktree {}

impl Ktree {
    pub fn new() -> (res: Self) {
        Ktree {  }
    }

    /// The action that a key press asks for: `z` asks to apply a patch.
    pub fn handle_key_event(&self, key: Key) -> (res: Option<Action>)
        ensures
            key == Key::Char('z') ==> (res matches Some(Action::KtreeApply(path)) && path@
                == PATCH_PLACEHOLDER@),
            key != Key::Char('z') ==> res is None,
    {
        match key {
            Key::Char('z') => Some(Action::KtreeApply(String::from_str(PATCH_PLACEHOLDER))),
            _ => None,
        }
    }

    /// Handles an action: a request to apply a patch hands back its path.
    pub fn update(&mut self, action: Action) -> (apply: Option<String>)
        ensures
            apply == match action {
                Action::KtreeApply(path) => Some(path),
                _ => None,
            },
    {
        match action {
            Action::KtreeApply(patch_filepath) => Some(patch_filepath),
            _ => None,
        }
    }
}

} // verus!
