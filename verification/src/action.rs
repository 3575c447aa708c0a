//! The actions that the components exchange.

use vstd::prelude::*;

use crate::components::{lei, patchsets};

verus! {

/// An action that a component emits or handles.
#[derive(Debug, Clone, PartialEq, Eq)]
pub enum Action {
    Tick,
    Render,
    Resize(u16, u16),
    Suspend,
    Resume,
    Quit,
    ClearScreen,
    Error(String),
    Help,
    LeiSetMode(lei::LocalMode),
    LeiFetchPatchsets,
    LeiUpdateMaildir,
    LeiEnterProcessing,
    LeiExitProcessing,
    LeiEnterIdle,
    PatchsetsList(String),
    PatchsetsAddIndex,
    PatchsetsSubIndex,
    PatchsetsThread,
    PatchsetsSetMode(patchsets::LocalMode),
    KtreeApply(String),
}

} // verus!
