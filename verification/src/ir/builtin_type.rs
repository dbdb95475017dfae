//! `DefId`s reserved for the built-in types.

use vstd::prelude::*;

verus! {

#[allow(unused)]
pub const UNKNOWN: usize = 0;

pub const VOID: usize = 1;

pub const I32: usize = 2;

pub const STRING: usize = 3;

pub const ERROR: usize = 100;

} // verus!
