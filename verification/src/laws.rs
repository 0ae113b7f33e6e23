//! The laws of the engine, stated over the abstract state and the
//! transition specifications that the operations' contracts use.

use vstd::prelude::*;

use crate::pallet::{
    authorized, ensure_origin_spec, grant_result, grant_state, inv, registered, revoke_result,
    revoke_state, role_assignment, set_calls_result, set_calls_state, PalletView,
};
use crate::role::Role;
use crate::store::{
    last_origin, lemma_entries_map_key_index, lemma_entries_map_key_present,
    lemma_entries_map_last_origin,
};
use crate::{CallOrigin, Error, Origin};

verus! {

/// After a successful grant, the account holds exactly the granted role in
/// the group, and the permission index has the matching entry if and only
/// if the granted role is executor.
pub proof fn lemma_grant_establishes_role(
    v: PalletView,
    origin: Origin,
    id: u64,
    who: u64,
    role: Role,
)
    requires
        inv(v),
        grant_result(v, origin, id, who, role) is Ok,
    ensures
        role_assignment(grant_state(v, origin, id, who, role), id, who) == Some(role),
        grant_state(v, origin, id, who, role).permissions.contains((who, id)) <==> role
            == Role::Executer,
{
}

/// A revocation that follows a successful grant for the same group and
/// account leaves the pair unassigned, removes any permission entry, and
/// restores every store to its value before the grant; under the super
/// authority such a revocation always succeeds.
pub proof fn lemma_grant_then_revoke_round_trip(
    v: PalletView,
    v1: PalletView,
    v2: PalletView,
    o1: Origin,
    o2: Origin,
    id: u64,
    who: u64,
    role: Role,
)
    requires
        inv(v),
        grant_result(v, o1, id, who, role) is Ok,
        v1 == grant_state(v, o1, id, who, role),
        revoke_result(v1, o2, id, who) is Ok,
        v2 == revoke_state(v1, o2, id, who),
    ensures
        revoke_result(v1, Origin::Root, id, who) is Ok,
        !v2.roles.contains_key((id, who)),
        !v2.permissions.contains((who, id)),
        v2.roles == v.roles,
        v2.permissions == v.permissions,
        v2.calls == v.calls,
        v2.max_calls == v.max_calls,
{
    assert(v2.roles =~= v.roles);
    assert(!v.permissions.contains((who, id)));
    assert(v2.permissions =~= v.permissions);
}

/// A role is never mutated in place: while a pair holds any role, every
/// grant for that pair fails and changes nothing, so moving an account
/// between roles requires a revocation first.
pub proof fn lemma_no_direct_role_transition(
    v: PalletView,
    origin: Origin,
    id: u64,
    who: u64,
    role: Role,
)
    requires
        v.roles.contains_key((id, who)),
    ensures
        grant_result(v, origin, id, who, role) is Err,
        grant_state(v, origin, id, who, role) == v,
{
}

/// Revoking an unassigned pair always fails and mutates nothing; when the
/// caller passes the origin check, the error is `AccessDNE`.
pub proof fn lemma_revoke_unassigned_fails(v: PalletView, origin: Origin, id: u64, who: u64)
    requires
        !v.roles.contains_key((id, who)),
    ensures
        revoke_result(v, origin, id, who) is Err,
        ensure_origin_spec(v, origin, id) is Ok ==> revoke_result(v, origin, id, who) == Err::<
            (),
            Error,
        >(Error::AccessDNE),
        revoke_state(v, origin, id, who) == v,
{
}

/// A group admin's attempt to grant the admin role fails with
/// `AdminOnlyGrantsExecuterAccess` and mutates nothing, whatever the target
/// account.
pub proof fn lemma_admin_grant_admin_fails(v: PalletView, caller: u64, id: u64, who: u64)
    requires
        v.roles.contains_key((id, caller)),
        v.roles[(id, caller)] == Role::Admin,
    ensures
        grant_result(v, Origin::Signed(caller), id, who, Role::Admin) == Err::<(), Error>(
            Error::AdminOnlyGrantsExecuterAccess,
        ),
        grant_state(v, Origin::Signed(caller), id, who, Role::Admin) == v,
{
}

/// A `set_calls` request whose list exceeds the configured maximum fails
/// with `TooManyCalls` and leaves the state, the group's prior registry
/// included, unchanged.
pub proof fn lemma_set_calls_too_many_fails(v: PalletView, id: u64, entries: Seq<CallOrigin>)
    requires
        entries.len() > v.max_calls,
    ensures
        set_calls_result(v, Origin::Root, id, entries) == Err::<(), Error>(Error::TooManyCalls),
        set_calls_state(v, Origin::Root, id, entries) == v,
{
}

/// An account that is an executor of no group is authorized for no call, so
/// by `execute_call`'s contract every execution attempt it makes is refused
/// with `CallNotPermitted` and leaves the dispatcher untouched.
pub proof fn lemma_no_membership_never_authorized(v: PalletView, who: u64)
    requires
        inv(v),
        forall|id: u64| #[trigger] role_assignment(v, id, who) != Some(Role::Executer),
    ensures
        forall|c: Seq<u8>| !authorized(v, who, c),
{
    assert forall|c: Seq<u8>| !authorized(v, who, c) by {
        if authorized(v, who, c) {
            let g = choose|g: u64|
                #[trigger] v.permissions.contains((who, g)) && registered(v, g, c) is Some;
            assert(role_assignment(v, g, who) == Some(Role::Executer));
        }
    }
}

/// Round trip: after a successful `set_calls`, the group registers exactly
/// the distinct call encodings of the input, duplicates collapsed, and each
/// registered call carries the impersonation identity of its latest
/// occurrence in the input.
pub proof fn lemma_set_calls_round_trip(v: PalletView, id: u64, entries: Seq<CallOrigin>)
    requires
        entries.len() <= v.max_calls,
    ensures
        set_calls_result(v, Origin::Root, id, entries) is Ok,
        forall|c: Seq<u8>|
            #[trigger] registered(set_calls_state(v, Origin::Root, id, entries), id, c) is Some
                <==> exists|e: int| 0 <= e < entries.len() && #[trigger] entries[e].call@ == c,
        forall|e: int|
            0 <= e < entries.len() ==> registered(
                set_calls_state(v, Origin::Root, id, entries),
                id,
                #[trigger] entries[e].call@,
            ) == Some(last_origin(entries, entries[e].call@)),
{
    let v1 = set_calls_state(v, Origin::Root, id, entries);
    assert forall|c: Seq<u8>| #[trigger] registered(v1, id, c) is Some <==> exists|e: int|
        0 <= e < entries.len() && #[trigger] entries[e].call@ == c by {
        if registered(v1, id, c) is Some {
            lemma_entries_map_key_index(entries, c);
        }
        if exists|e: int| 0 <= e < entries.len() && #[trigger] entries[e].call@ == c {
            let e = choose|e: int| 0 <= e < entries.len() && #[trigger] entries[e].call@ == c;
            lemma_entries_map_key_present(entries, e);
        }
    }
    assert forall|e: int| 0 <= e < entries.len() implies registered(
        v1,
        id,
        #[trigger] entries[e].call@,
    ) == Some(last_origin(entries, entries[e].call@)) by {
        lemma_entries_map_key_present(entries, e);
        lemma_entries_map_last_origin(entries, entries[e].call@);
    }
}

} // verus!
