//! The two roles a principal can hold within an access group.

use vstd::prelude::*;

verus! {

/// The role an account holds in a group: executors may run the group's
/// whitelisted calls, admins may grant and revoke executor access within
/// the group. At most one role per group and account exists at a time.
#[derive(Clone, Copy, Debug, PartialEq, Eq, Structural)]
pub enum Role {
    Executer,
    Admin,
}

} // verus!
