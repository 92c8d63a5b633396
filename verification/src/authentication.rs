//! The authentication module's route table.

use vstd::prelude::*;
use crate::routes::RouteName;

verus! {

/// The routes this module mounts: the login handler alone.
pub fn auth_routes() -> (r: Vec<RouteName>)
    ensures
        r@ == seq![RouteName::Login],
{
    let mut r: Vec<RouteName> = Vec::new();
    r.push(RouteName::Login);
    proof {
        assert(r@ =~= seq![RouteName::Login]);
    }
    r
}

} // verus!
