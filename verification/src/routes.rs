//! Route descriptors: what the modules mount, as the library's own plain
//! values. The surrounding web layer maps each name to its framework route.

use vstd::prelude::*;

verus! {

/// A handler the authentication modules know.
#[derive(Debug, PartialEq, Eq, Structural, Clone, Copy)]
pub enum RouteName {
    Login,
    Logout,
}

} // verus!
