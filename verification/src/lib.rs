use vstd::prelude::*;

pub mod ata;
pub mod block;
pub mod clusters;
pub mod dirparse;
pub mod dirscan;
pub mod dev;
pub mod editor;
pub mod fat;
pub mod fatwrite;
pub mod fmt;
pub mod machine;
pub mod names;
pub mod path;
pub mod shell;
pub mod ram;
pub mod runner;
pub mod tmp;
pub mod tree;
pub mod vfs;

verus! {
} // verus!
