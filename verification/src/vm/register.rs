//! A register: a value guarded by read and write permissions.

use vstd::prelude::*;

use super::Permissions;

verus! {

#[derive(Debug, Clone, Copy, PartialEq, Eq)]
pub struct Register {
    pub permissions: Permissions,
    pub value: i32,
}

impl Register {
    pub fn new(permissions: Permissions, value: i32) -> (r: Register)
        ensures
            r == (Register { permissions, value }),
    {
        Register { permissions, value }
    }
}

} // verus!
