//! Role-based access control over opaque, pre-encoded calls.
//!
//! A single super authority appoints, per access group, administrators and
//! executors, and fixes the whitelist of calls a group's executors may run.
//! Administrators of a group may grant and revoke the executor role within
//! that group only; the admin role itself is granted and revoked solely by
//! the super authority. A call is identified by its canonical byte encoding,
//! and each whitelisted call carries the identity under which it is
//! dispatched when an executor invokes it.
//!
//! The engine owns three stores: role assignments keyed by group and
//! account, a derived permission index keyed by account and group that marks
//! executor memberships, and the per-group call registry. Every operation is
//! a synchronous, atomic transaction: it either performs all of its
//! mutations and appends one event to the event log, or it fails and leaves
//! every store untouched.

use vstd::prelude::*;

pub mod laws;
pub mod pallet;
pub mod role;
pub mod store;

pub use pallet::Pallet;
pub use role::Role;

verus! {

/// The provenance of a request: the super authority (root), a signed
/// account, or an unauthenticated source.
#[derive(Clone, Copy, Debug, PartialEq, Eq, Structural)]
pub enum Origin {
    /// The super authority.
    Root,
    /// An authenticated account.
    Signed(u64),
    /// No authenticated principal.
    Unsigned,
}

/// Why an operation was refused.
#[derive(Clone, Copy, Debug, PartialEq, Eq, Structural)]
pub enum Error {
    /// The caller is neither the super authority nor a principal that could
    /// qualify for the attempted operation.
    AuthorizationRejected,
    /// The caller holds a role in the group, but not the admin role that the
    /// operation requires.
    CallerNotAdmin,
    /// A group admin tried to grant the admin role, which only the super
    /// authority may grant.
    AdminOnlyGrantsExecuterAccess,
    /// A group admin tried to revoke the admin role, which only the super
    /// authority may revoke.
    AdminOnlyRevokesExecuterAccess,
    /// The account already holds a role in the group.
    AlreadyGrantedAccess,
    /// The account holds no role in the group.
    AccessDNE,
    /// The call list handed to `set_calls` exceeds the configured maximum.
    TooManyCalls,
    /// The caller's executor memberships cover the requested call in no
    /// group.
    CallNotPermitted,
}

/// A state-change notification, appended to the engine's event log by each
/// successful mutating operation.
#[derive(Clone, Copy, Debug, PartialEq, Eq, Structural)]
pub enum Event {
    /// The account was granted the role in the group.
    AccessGranted(u64, u64, Role),
    /// The account's role in the group was revoked.
    AccessRevoked(u64, u64, Role),
    /// The group's call registry was replaced.
    CallsUpdated(u64),
}

/// A whitelisted call together with the identity under which it is
/// dispatched: `call` is the canonical encoding of the call, and `origin`
/// is the account the dispatch impersonates, independent of which executor
/// triggers it.
#[derive(Debug)]
pub struct CallOrigin {
    pub call: Vec<u8>,
    pub origin: u64,
}

/// Engine configuration: the maximum number of distinct calls a single
/// group's registry may hold.
#[derive(Clone, Copy, Debug, PartialEq, Eq, Structural)]
pub struct Config {
    pub max_calls: u32,
}

/// The check a call must pass before execution: given the calling account
/// and the canonical encoding of the call, yield the identity to dispatch
/// under, or the error that refuses the call.
pub trait ValidateCall {
    /// Whatever the implementor requires of itself before validation.
    spec fn valid(&self) -> bool;

    fn validate_call(&self, who: u64, call: &Vec<u8>) -> Result<u64, Error>
        requires
            self.valid(),
    ;
}

/// The external execution collaborator: runs a call, identified by its
/// canonical encoding, as if issued by `origin`. The engine makes no
/// assumption about the outcome; whatever the collaborator reports is
/// passed through unchanged.
pub trait Dispatcher: Sized {
    /// What one dispatch of `call` under `origin` does to the collaborator
    /// and reports: relates the collaborator's state after the dispatch to
    /// its state `pre` before it and to the reported result `r`. An
    /// implementor says here what its own dispatches guarantee; by default
    /// nothing is guaranteed.
    open spec fn dispatch_post(
        &self,
        pre: Self,
        call: Seq<u8>,
        origin: u64,
        r: Result<(), Error>,
    ) -> bool {
        true
    }

    fn dispatch(&mut self, call: &Vec<u8>, origin: u64) -> (r: Result<(), Error>)
        ensures
            final(self).dispatch_post(*old(self), call@, origin, r),
    ;
}

} // verus!
