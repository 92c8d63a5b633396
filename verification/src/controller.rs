//! The controller layer: collects the route tables of its submodules.

pub mod authentication;

use vstd::prelude::*;
use crate::routes::RouteName;

verus! {

/// Every route the controllers mount, in mounting order.
pub fn get_routes() -> (r: Vec<RouteName>)
    ensures
        r@ == seq![RouteName::Login],
{
    authentication::auth_routes()
}

} // verus!
