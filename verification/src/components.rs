pub mod ktree;
pub mod lei;
pub mod patchsets;
