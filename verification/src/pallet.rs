//! The authorization engine: role grants and revocations, the per-group
//! call registry, and the validate-then-execute protocol.

use vstd::prelude::*;

use crate::role::Role;
use crate::store::{
    calls_map, entries_dup_free, entries_map, groups_dup_free, lemma_calls_map_absent,
    lemma_calls_map_found, lemma_calls_map_push, lemma_calls_map_remove,
    lemma_entries_dup_free_remove, lemma_entries_map_absent, lemma_entries_map_dom_size,
    lemma_entries_map_found, lemma_entries_map_key_index, lemma_entries_map_push,
    lemma_entries_map_remove,
    lemma_groups_dup_free_remove, lemma_perms_dup_free_remove, lemma_roles_dup_free_remove,
    lemma_roles_map_absent, lemma_roles_map_found, lemma_roles_map_push, lemma_roles_map_remove,
    lemma_to_set_push, lemma_to_set_remove, perms_dup_free, roles_dup_free, roles_map, GroupCalls,
    RoleEntry,
};
use crate::{CallOrigin, Config, Dispatcher, Error, Event, Origin};

verus! {

broadcast use vstd::set::group_set_axioms;

/// The abstract state of the engine: the three stores as maps and sets over
/// plain values, the configured registry bound, and the event log.
#[verifier::ext_equal]
pub struct PalletView {
    /// `(group, account)` to the role the account holds in the group.
    pub roles: Map<(u64, u64), Role>,
    /// The executor memberships, keyed `(account, group)`.
    pub permissions: Set<(u64, u64)>,
    /// Group to its call registry: canonical call encoding to the identity
    /// the call is dispatched under.
    pub calls: Map<u64, Map<Seq<u8>, u64>>,
    /// The maximum number of distinct calls one group's registry may hold.
    pub max_calls: int,
    /// Every notification emitted so far, oldest first.
    pub events: Seq<Event>,
}

/// What always holds of the abstract state: the permission index marks
/// exactly the executor assignments, and no group's registry exceeds the
/// configured bound.
pub open spec fn inv(v: PalletView) -> bool {
    &&& forall|who: u64, id: u64|
        #![trigger v.permissions.contains((who, id))]
        #![trigger v.roles.contains_key((id, who))]
        v.permissions.contains((who, id)) <==> (v.roles.contains_key((id, who)) && v.roles[(
            id,
            who,
        )] == Role::Executer)
    &&& forall|id: u64|
        #[trigger] v.calls.contains_key(id) ==> v.calls[id].dom().finite() && v.calls[
            id
        ].dom().len() <= v.max_calls
}

/// The role an account holds in a group, if any.
pub open spec fn role_assignment(v: PalletView, id: u64, who: u64) -> Option<Role> {
    if v.roles.contains_key((id, who)) {
        Some(v.roles[(id, who)])
    } else {
        None
    }
}

/// How a privileged request is classified: `Ok(false)` for the super
/// authority, `Ok(true)` for an admin of group `id`, and otherwise the error
/// that refuses the request. A signed caller with no role in the group is
/// refused as if unauthorized altogether, since it was never a candidate for
/// either tier; one with a non-admin role is refused as not an admin.
pub open spec fn ensure_origin_spec(v: PalletView, origin: Origin, id: u64) -> Result<bool, Error> {
    match origin {
        Origin::Root => Ok(false),
        Origin::Signed(caller) => match role_assignment(v, id, caller) {
            Some(Role::Admin) => Ok(true),
            Some(_) => Err(Error::CallerNotAdmin),
            None => Err(Error::AuthorizationRejected),
        },
        Origin::Unsigned => Err(Error::AuthorizationRejected),
    }
}

/// Whether `grant_access` succeeds, and with which error it fails: the
/// caller must pass `ensure_origin_spec`; a group admin may grant the
/// executor role only; and the account must not already hold a role in the
/// group.
pub open spec fn grant_result(
    v: PalletView,
    origin: Origin,
    id: u64,
    who: u64,
    role: Role,
) -> Result<(), Error> {
    match ensure_origin_spec(v, origin, id) {
        Err(e) => Err(e),
        Ok(is_admin_not_super) => if is_admin_not_super && role != Role::Executer {
            Err(Error::AdminOnlyGrantsExecuterAccess)
        } else if v.roles.contains_key((id, who)) {
            Err(Error::AlreadyGrantedAccess)
        } else {
            Ok(())
        },
    }
}

/// The state after `grant_access`: on success the role assignment is added,
/// the permission index gains the matching entry exactly when the granted
/// role is executor, and an `AccessGranted` event is appended; on failure
/// the state is unchanged.
pub open spec fn grant_state(
    v: PalletView,
    origin: Origin,
    id: u64,
    who: u64,
    role: Role,
) -> PalletView {
    if grant_result(v, origin, id, who, role) is Ok {
        PalletView {
            roles: v.roles.insert((id, who), role),
            permissions: if role == Role::Executer {
                v.permissions.insert((who, id))
            } else {
                v.permissions
            },
            events: v.events.push(Event::AccessGranted(id, who, role)),
            ..v
        }
    } else {
        v
    }
}

/// Whether `revoke_access` succeeds, and with which error it fails: the
/// caller must pass `ensure_origin_spec`; the account must hold a role in
/// the group; and a group admin may revoke the executor role only.
pub open spec fn revoke_result(v: PalletView, origin: Origin, id: u64, who: u64) -> Result<
    (),
    Error,
> {
    match ensure_origin_spec(v, origin, id) {
        Err(e) => Err(e),
        Ok(is_admin_not_super) => if !v.roles.contains_key((id, who)) {
            Err(Error::AccessDNE)
        } else if is_admin_not_super && v.roles[(id, who)] != Role::Executer {
            Err(Error::AdminOnlyRevokesExecuterAccess)
        } else {
            Ok(())
        },
    }
}

/// The state after `revoke_access`: on success the role assignment is
/// removed, the permission index loses the matching entry exactly when the
/// removed role was executor, and an `AccessRevoked` event carrying the
/// removed role is appended; on failure the state is unchanged.
pub open spec fn revoke_state(v: PalletView, origin: Origin, id: u64, who: u64) -> PalletView {
    if revoke_result(v, origin, id, who) is Ok {
        let role = v.roles[(id, who)];
        PalletView {
            roles: v.roles.remove((id, who)),
            permissions: if role == Role::Executer {
                v.permissions.remove((who, id))
            } else {
                v.permissions
            },
            events: v.events.push(Event::AccessRevoked(id, who, role)),
            ..v
        }
    } else {
        v
    }
}

/// The call-to-identity map an input list denotes: duplicate call encodings
/// collapse, and the impersonation identity of the latest occurrence wins.
pub open spec fn registry_of(entries: Seq<CallOrigin>) -> Map<Seq<u8>, u64> {
    entries_map(entries)
}

/// Whether `set_calls` succeeds, and with which error it fails: only the
/// super authority may set a group's registry, and the input list must not
/// exceed the configured maximum.
pub open spec fn set_calls_result(
    v: PalletView,
    origin: Origin,
    id: u64,
    entries: Seq<CallOrigin>,
) -> Result<(), Error> {
    if origin != Origin::Root {
        Err(Error::AuthorizationRejected)
    } else if entries.len() > v.max_calls {
        Err(Error::TooManyCalls)
    } else {
        Ok(())
    }
}

/// The state after `set_calls`: on success the group's registry is replaced
/// wholesale by the map the input denotes and a `CallsUpdated` event is
/// appended; on failure the state, including the group's prior registry, is
/// unchanged.
pub open spec fn set_calls_state(
    v: PalletView,
    origin: Origin,
    id: u64,
    entries: Seq<CallOrigin>,
) -> PalletView {
    if set_calls_result(v, origin, id, entries) is Ok {
        PalletView {
            calls: v.calls.insert(id, registry_of(entries)),
            events: v.events.push(Event::CallsUpdated(id)),
            ..v
        }
    } else {
        v
    }
}

/// The identity group `id` dispatches `c` under, if `c` is registered for
/// the group.
pub open spec fn registered(v: PalletView, id: u64, c: Seq<u8>) -> Option<u64> {
    if v.calls.contains_key(id) && v.calls[id].contains_key(c) {
        Some(v.calls[id][c])
    } else {
        None
    }
}

/// Whether some group both has `who` as an executor and registers `c`.
pub open spec fn authorized(v: PalletView, who: u64, c: Seq<u8>) -> bool {
    exists|id: u64| #[trigger] v.permissions.contains((who, id)) && registered(v, id, c) is Some
}

/// Whether `o` is an identity that validation may resolve `c` to for `who`:
/// some group has `who` as an executor and registers `c` under `o`.
pub open spec fn resolves_to(v: PalletView, who: u64, c: Seq<u8>, o: u64) -> bool {
    exists|id: u64| #[trigger] v.permissions.contains((who, id)) && registered(v, id, c) == Some(o)
}

/// Whether some element of `s` holds exactly the bytes `c`.
pub open spec fn vec_contains_bytes(s: Seq<Vec<u8>>, c: Seq<u8>) -> bool {
    exists|k: int| 0 <= k < s.len() && #[trigger] s[k]@ == c
}

/// Whether one of the first `n` permission entries both belongs to `who` and
/// names a group that registers `c`.
spec fn allowed_before(perms: Seq<(u64, u64)>, v: PalletView, who: u64, c: Seq<u8>, n: int) -> bool {
    exists|j: int| 0 <= j < n && (#[trigger] perms[j]).0 == who && registered(v, perms[j].1, c) is Some
}

proof fn lemma_allowed_before_step(
    perms: Seq<(u64, u64)>,
    v: PalletView,
    who: u64,
    c: Seq<u8>,
    n: int,
)
    requires
        0 <= n < perms.len(),
    ensures
        allowed_before(perms, v, who, c, n + 1) <==> (allowed_before(perms, v, who, c, n) || (
        perms[n].0 == who && registered(v, perms[n].1, c) is Some)),
{
    if allowed_before(perms, v, who, c, n + 1) {
        let j = choose|j: int|
            0 <= j < n + 1 && (#[trigger] perms[j]).0 == who && registered(v, perms[j].1, c) is Some;
        if j < n {
            assert(allowed_before(perms, v, who, c, n));
        }
    }
    if allowed_before(perms, v, who, c, n) {
        let j = choose|j: int|
            0 <= j < n && (#[trigger] perms[j]).0 == who && registered(v, perms[j].1, c) is Some;
        assert(allowed_before(perms, v, who, c, n + 1));
    }
    if perms[n].0 == who && registered(v, perms[n].1, c) is Some {
        assert(allowed_before(perms, v, who, c, n + 1));
    }
}

proof fn lemma_vec_bytes_push(s: Seq<Vec<u8>>, x: Vec<u8>)
    ensures
        forall|c: Seq<u8>|
            #[trigger] vec_contains_bytes(s.push(x), c) <==> (vec_contains_bytes(s, c) || x@ == c),
{
    assert forall|c: Seq<u8>| #[trigger] vec_contains_bytes(s.push(x), c) implies (
    vec_contains_bytes(s, c) || x@ == c) by {
        let k = choose|k: int| 0 <= k < s.push(x).len() && #[trigger] s.push(x)[k]@ == c;
        if k < s.len() {
            assert(s[k]@ == c);
        }
    }
    assert forall|c: Seq<u8>| (vec_contains_bytes(s, c) || x@ == c) implies vec_contains_bytes(
        s.push(x),
        c,
    ) by {
        if vec_contains_bytes(s, c) {
            let k = choose|k: int| 0 <= k < s.len() && #[trigger] s[k]@ == c;
            assert(s.push(x)[k]@ == c);
        } else {
            assert(s.push(x)[s.len() as int]@ == c);
        }
    }
}

/// The index of the first element holding exactly the bytes `c`, if any.
fn find_bytes_index(s: &Vec<Vec<u8>>, c: &Vec<u8>) -> (r: Option<usize>)
    ensures
        match r {
            Some(k) => k < s@.len() && s@[k as int]@ == c@,
            None => forall|k: int| 0 <= k < s@.len() ==> #[trigger] s@[k]@ != c@,
        },
{
    let mut k: usize = 0;
    while k < s.len()
        invariant
            k <= s.len(),
            forall|j: int| 0 <= j < k ==> #[trigger] s@[j]@ != c@,
        decreases s.len() - k,
    {
        if bytes_eq(&s[k], c) {
            return Some(k);
        }
        k = k + 1;
    }
    None
}

/// A fresh vector holding the same bytes.
fn copy_bytes(v: &Vec<u8>) -> (r: Vec<u8>)
    ensures
        r@ == v@,
{
    let mut r: Vec<u8> = Vec::new();
    let mut i: usize = 0;
    while i < v.len()
        invariant
            i <= v.len(),
            r@ == v@.take(i as int),
        decreases v.len() - i,
    {
        r.push(v[i]);
        proof {
            assert(v@.take(i as int).push(v@[i as int]) =~= v@.take(i as int + 1));
        }
        i = i + 1;
    }
    proof {
        assert(v@.take(v@.len() as int) =~= v@);
    }
    r
}

/// Whether two byte vectors hold the same bytes.
fn bytes_eq(a: &Vec<u8>, b: &Vec<u8>) -> (r: bool)
    ensures
        r == (a@ == b@),
{
    if a.len() != b.len() {
        return false;
    }
    let mut i: usize = 0;
    while i < a.len()
        invariant
            i <= a.len(),
            a@.len() == b@.len(),
            forall|j: int| 0 <= j < i ==> a@[j] == b@[j],
        decreases a.len() - i,
    {
        if a[i] != b[i] {
            return false;
        }
        i = i + 1;
    }
    proof {
        assert(a@ =~= b@);
    }
    true
}

/// The index of the first row whose call encoding equals `c`, if any.
fn find_call_index(es: &Vec<CallOrigin>, c: &Vec<u8>) -> (r: Option<usize>)
    ensures
        match r {
            Some(k) => k < es@.len() && es@[k as int].call@ == c@,
            None => forall|k: int| 0 <= k < es@.len() ==> #[trigger] es@[k].call@ != c@,
        },
{
    let mut k: usize = 0;
    while k < es.len()
        invariant
            k <= es.len(),
            forall|j: int| 0 <= j < k ==> #[trigger] es@[j].call@ != c@,
        decreases es.len() - k,
    {
        if bytes_eq(&es[k].call, c) {
            return Some(k);
        }
        k = k + 1;
    }
    None
}

/// Collapse duplicate call encodings, keeping for each call the identity of
/// its latest occurrence. The result denotes the same registry map as the
/// input and has pairwise-distinct encodings.
fn dedup_calls(calls: &Vec<CallOrigin>) -> (r: Vec<CallOrigin>)
    ensures
        entries_map(r@) == entries_map(calls@),
        entries_dup_free(r@),
        r@.len() <= calls@.len(),
{
    let mut out: Vec<CallOrigin> = Vec::new();
    let mut i: usize = 0;
    while i < calls.len()
        invariant
            i <= calls@.len(),
            entries_map(out@) == entries_map(calls@.take(i as int)),
            entries_dup_free(out@),
            out@.len() <= i,
        decreases calls.len() - i,
    {
        let ghost pre_out = out@;
        match find_call_index(&out, &calls[i].call) {
            Some(j) => {
                proof {
                    lemma_entries_map_remove(out@, j as int);
                    lemma_entries_dup_free_remove(out@, j as int);
                    out@.remove_ensures(j as int);
                }
                out.remove(j);
                proof {
                    assert forall|k: int| 0 <= k < out@.len() implies #[trigger] out@[k].call@
                        != calls@[i as int].call@ by {
                        let k0: int = if k < j { k } else { k + 1 };
                        assert(out@[k] == pre_out[k0]);
                        if k0 < j {
                            assert(pre_out[k0].call@ != pre_out[j as int].call@);
                        }
                    }
                }
            },
            None => {},
        }
        let e = CallOrigin { call: copy_bytes(&calls[i].call), origin: calls[i].origin };
        let ghost mid_out = out@;
        proof {
            lemma_entries_map_push(out@, e);
        }
        out.push(e);
        proof {
            assert forall|m: int, n: int| 0 <= m < n < out@.len() implies #[trigger] out@[m].call@
                != #[trigger] out@[n].call@ by {
                if n < mid_out.len() {
                    assert(mid_out[m].call@ != mid_out[n].call@);
                } else {
                    assert(out@[n] == e);
                    assert(mid_out[m].call@ != e.call@);
                }
            }
            assert(calls@.take(i as int + 1).drop_last() =~= calls@.take(i as int));
            assert(calls@.take(i as int + 1).last() == calls@[i as int]);
            assert(entries_map(out@) =~= entries_map(calls@.take(i as int + 1)));
        }
        i = i + 1;
    }
    proof {
        assert(calls@.take(calls@.len() as int) =~= calls@);
    }
    out
}

/// The authorization engine. It exclusively owns its stores; every mutation
/// goes through the operations below, each of which is atomic: it either
/// commits all of its effects and appends one event, or leaves the state
/// untouched.
pub struct Pallet {
    roles: Vec<RoleEntry>,
    permissions: Vec<(u64, u64)>,
    allowed_calls: Vec<GroupCalls>,
    max_calls: u32,
    events: Vec<Event>,
}

impl View for Pallet {
    type V = PalletView;

    closed spec fn view(&self) -> PalletView {
        PalletView {
            roles: roles_map(self.roles@),
            permissions: self.permissions@.to_set(),
            calls: calls_map(self.allowed_calls@),
            max_calls: self.max_calls as int,
            events: self.events@,
        }
    }
}

impl Pallet {
    /// The representation is well formed: every store's keys are pairwise
    /// distinct, and the abstract invariant holds. Established by `new` and
    /// preserved by every operation.
    pub closed spec fn wf(self) -> bool {
        &&& roles_dup_free(self.roles@)
        &&& perms_dup_free(self.permissions@)
        &&& groups_dup_free(self.allowed_calls@)
        &&& forall|i: int|
            0 <= i < self.allowed_calls@.len() ==> entries_dup_free(
                #[trigger] self.allowed_calls@[i].entries@,
            )
        &&& inv(self@)
    }

    /// An engine with empty stores and an empty event log.
    pub fn new(config: Config) -> (p: Pallet)
        ensures
            p.wf(),
            p@.roles == Map::<(u64, u64), Role>::empty(),
            p@.permissions == Set::<(u64, u64)>::empty(),
            p@.calls == Map::<u64, Map<Seq<u8>, u64>>::empty(),
            p@.events == Seq::<Event>::empty(),
            p@.max_calls == config.max_calls as int,
    {
        let p = Pallet {
            roles: Vec::new(),
            permissions: Vec::new(),
            allowed_calls: Vec::new(),
            max_calls: config.max_calls,
            events: Vec::new(),
        };
        proof {
            assert(p.permissions@.to_set() =~= Set::<(u64, u64)>::empty());
        }
        p
    }

    /// The index of the role entry for `(id, who)`, if one exists.
    fn find_role_index(&self, id: u64, who: u64) -> (r: Option<usize>)
        requires
            self.wf(),
        ensures
            match r {
                Some(i) => i < self.roles@.len() && self.roles@[i as int].id == id
                    && self.roles@[i as int].who == who,
                None => !self@.roles.contains_key((id, who)),
            },
    {
        let mut i: usize = 0;
        while i < self.roles.len()
            invariant
                i <= self.roles.len(),
                forall|j: int|
                    0 <= j < i ==> !(#[trigger] self.roles@[j].id == id && self.roles@[j].who
                        == who),
            decreases self.roles.len() - i,
        {
            let e = self.roles[i];
            if e.id == id && e.who == who {
                return Some(i);
            }
            i = i + 1;
        }
        proof {
            lemma_roles_map_absent(self.roles@, id, who);
        }
        None
    }

    /// The role `who` holds in group `id`, if any.
    pub fn role_of(&self, id: u64, who: u64) -> (r: Option<Role>)
        requires
            self.wf(),
        ensures
            r == role_assignment(self@, id, who),
    {
        match self.find_role_index(id, who) {
            Some(i) => {
                proof {
                    lemma_roles_map_found(self.roles@, i as int);
                }
                Some(self.roles[i].role)
            },
            None => None,
        }
    }

    /// Whether the permission index marks `who` as an executor of group
    /// `id`.
    pub fn has_permission(&self, who: u64, id: u64) -> (r: bool)
        requires
            self.wf(),
        ensures
            r == self@.permissions.contains((who, id)),
    {
        let mut i: usize = 0;
        while i < self.permissions.len()
            invariant
                i <= self.permissions.len(),
                forall|j: int| 0 <= j < i ==> self.permissions@[j] != (who, id),
            decreases self.permissions.len() - i,
        {
            let (a, g) = self.permissions[i];
            if a == who && g == id {
                proof {
                    assert(self.permissions@[i as int] == (who, id));
                }
                return true;
            }
            i = i + 1;
        }
        proof {
            if self.permissions@.contains((who, id)) {
                let j = choose|j: int|
                    0 <= j < self.permissions@.len() && self.permissions@[j] == (who, id);
                assert(false);
            }
        }
        false
    }

    /// Classify a privileged request against group `id`: `Ok(false)` for the
    /// super authority, `Ok(true)` for an admin of the group, and otherwise
    /// the error that refuses the request.
    pub fn ensure_origin(&self, origin: &Origin, id: u64) -> (r: Result<bool, Error>)
        requires
            self.wf(),
        ensures
            r == ensure_origin_spec(self@, *origin, id),
    {
        match origin {
            Origin::Root => Ok(false),
            Origin::Signed(caller) => match self.role_of(id, *caller) {
                Some(Role::Admin) => Ok(true),
                Some(_) => Err(Error::CallerNotAdmin),
                None => Err(Error::AuthorizationRejected),
            },
            Origin::Unsigned => Err(Error::AuthorizationRejected),
        }
    }

    /// Grant `who` the given role in group `id`. Only the super authority
    /// and the group's admins may grant; admins may grant the executor role
    /// only; and the account must not already hold a role in the group.
    pub fn grant_access(&mut self, origin: &Origin, id: u64, who: u64, role: Role) -> (r: Result<
        (),
        Error,
    >)
        requires
            old(self).wf(),
        ensures
            final(self).wf(),
            r == grant_result(old(self)@, *origin, id, who, role),
            final(self)@ == grant_state(old(self)@, *origin, id, who, role),
    {
        let is_admin_not_super = match self.ensure_origin(origin, id) {
            Ok(b) => b,
            Err(e) => {
                return Err(e);
            },
        };
        if is_admin_not_super && !matches!(role, Role::Executer) {
            return Err(Error::AdminOnlyGrantsExecuterAccess);
        }
        if self.role_of(id, who).is_some() {
            return Err(Error::AlreadyGrantedAccess);
        }
        let ghost pre = *self;
        proof {
            assert forall|i: int| 0 <= i < self.roles@.len() implies !(#[trigger] self.roles@[i].id
                == id && self.roles@[i].who == who) by {
                if self.roles@[i].id == id && self.roles@[i].who == who {
                    lemma_roles_map_found(self.roles@, i);
                }
            }
        }
        if matches!(role, Role::Executer) {
            self.permissions.push((who, id));
        }
        self.roles.push(RoleEntry { id, who, role });
        self.events.push(Event::AccessGranted(id, who, role));
        proof {
            let e = RoleEntry { id, who, role };
            lemma_roles_map_push(pre.roles@, e);
            assert(roles_dup_free(pre.roles@.push(e)));
            if role == Role::Executer {
                lemma_to_set_push(pre.permissions@, (who, id));
                assert(!pre@.permissions.contains((who, id)));
                assert(perms_dup_free(pre.permissions@.push((who, id)))) by {
                    assert forall|m: int, n: int|
                        0 <= m < n < pre.permissions@.push((who, id)).len() implies pre.permissions@.push(
                        (who, id),
                    )[m] != pre.permissions@.push((who, id))[n] by {
                        if n < pre.permissions@.len() {
                            assert(pre.permissions@[m] != pre.permissions@[n]);
                        } else {
                            assert(pre.permissions@.contains(pre.permissions@[m]));
                        }
                    }
                }
            }
            assert(inv(self@)) by {
                assert forall|a: u64, g: u64|
                    self@.permissions.contains((a, g)) <==> (self@.roles.contains_key((g, a))
                        && self@.roles[(g, a)] == Role::Executer) by {
                    assert(pre@.permissions.contains((a, g)) <==> (pre@.roles.contains_key((g, a))
                        && pre@.roles[(g, a)] == Role::Executer));
                }
            }
            assert(self@ =~= grant_state(pre@, *origin, id, who, role));
        }
        Ok(())
    }

    /// The index of the permission entry `(who, id)`, which must exist.
    fn find_perm_index(&self, who: u64, id: u64) -> (r: usize)
        requires
            self.wf(),
            self@.permissions.contains((who, id)),
        ensures
            r < self.permissions@.len(),
            self.permissions@[r as int] == (who, id),
    {
        let mut i: usize = 0;
        while i < self.permissions.len()
            invariant
                i <= self.permissions.len(),
                self.permissions@.contains((who, id)),
                forall|j: int| 0 <= j < i ==> self.permissions@[j] != (who, id),
            decreases self.permissions.len() - i,
        {
            let (a, g) = self.permissions[i];
            if a == who && g == id {
                proof {
                    assert(self.permissions@[i as int] == (who, id));
                }
                return i;
            }
            i = i + 1;
        }
        proof {
            let j = choose|j: int|
                0 <= j < self.permissions@.len() && self.permissions@[j] == (who, id);
            assert(false);
        }
        0
    }

    /// Revoke whatever role `who` holds in group `id`. Only the super
    /// authority and the group's admins may revoke; admins may revoke the
    /// executor role only; and the account must hold a role in the group.
    pub fn revoke_access(&mut self, origin: &Origin, id: u64, who: u64) -> (r: Result<(), Error>)
        requires
            old(self).wf(),
        ensures
            final(self).wf(),
            r == revoke_result(old(self)@, *origin, id, who),
            final(self)@ == revoke_state(old(self)@, *origin, id, who),
    {
        let is_admin_not_super = match self.ensure_origin(origin, id) {
            Ok(b) => b,
            Err(e) => {
                return Err(e);
            },
        };
        let idx = match self.find_role_index(id, who) {
            Some(i) => i,
            None => {
                return Err(Error::AccessDNE);
            },
        };
        proof {
            lemma_roles_map_found(self.roles@, idx as int);
        }
        let role = self.roles[idx].role;
        if is_admin_not_super && !matches!(role, Role::Executer) {
            return Err(Error::AdminOnlyRevokesExecuterAccess);
        }
        let ghost pre = *self;
        if matches!(role, Role::Executer) {
            let pidx = self.find_perm_index(who, id);
            proof {
                lemma_to_set_remove(pre.permissions@, pidx as int);
                lemma_perms_dup_free_remove(pre.permissions@, pidx as int);
            }
            self.permissions.remove(pidx);
        }
        proof {
            lemma_roles_map_remove(pre.roles@, idx as int);
            lemma_roles_dup_free_remove(pre.roles@, idx as int);
        }
        self.roles.remove(idx);
        self.events.push(Event::AccessRevoked(id, who, role));
        proof {
            assert(inv(self@)) by {
                assert forall|a: u64, g: u64|
                    self@.permissions.contains((a, g)) <==> (self@.roles.contains_key((g, a))
                        && self@.roles[(g, a)] == Role::Executer) by {
                    assert(pre@.permissions.contains((a, g)) <==> (pre@.roles.contains_key((g, a))
                        && pre@.roles[(g, a)] == Role::Executer));
                }
            }
            assert(self@ =~= revoke_state(pre@, *origin, id, who));
        }
        Ok(())
    }

    /// The index of the registry row of group `id`, if one exists.
    fn find_group_index(&self, id: u64) -> (r: Option<usize>)
        ensures
            match r {
                Some(i) => i < self.allowed_calls@.len() && self.allowed_calls@[i as int].id == id,
                None => forall|i: int|
                    0 <= i < self.allowed_calls@.len() ==> #[trigger] self.allowed_calls@[i].id
                        != id,
            },
    {
        let mut i: usize = 0;
        while i < self.allowed_calls.len()
            invariant
                i <= self.allowed_calls.len(),
                forall|j: int| 0 <= j < i ==> #[trigger] self.allowed_calls@[j].id != id,
            decreases self.allowed_calls.len() - i,
        {
            if self.allowed_calls[i].id == id {
                return Some(i);
            }
            i = i + 1;
        }
        None
    }

    /// Replace group `id`'s call registry by the given list, wholesale. Only
    /// the super authority may set a registry, and the list must not exceed
    /// the configured maximum; duplicate call encodings collapse, the
    /// latest occurrence's identity winning.
    pub fn set_calls(&mut self, origin: &Origin, id: u64, calls: Vec<CallOrigin>) -> (r: Result<
        (),
        Error,
    >)
        requires
            old(self).wf(),
        ensures
            final(self).wf(),
            r == set_calls_result(old(self)@, *origin, id, calls@),
            final(self)@ == set_calls_state(old(self)@, *origin, id, calls@),
    {
        if !matches!(origin, Origin::Root) {
            return Err(Error::AuthorizationRejected);
        }
        if calls.len() > self.max_calls as usize {
            return Err(Error::TooManyCalls);
        }
        let ghost pre = *self;
        let entries = dedup_calls(&calls);
        match self.find_group_index(id) {
            Some(g) => {
                proof {
                    lemma_calls_map_remove(self.allowed_calls@, g as int);
                    lemma_groups_dup_free_remove(self.allowed_calls@, g as int);
                    self.allowed_calls@.remove_ensures(g as int);
                }
                self.allowed_calls.remove(g);
                proof {
                    assert forall|k: int| 0 <= k < self.allowed_calls@.len() implies #[trigger] self.allowed_calls@[k].id
                        != id by {
                        let k0: int = if k < g { k } else { k + 1 };
                        assert(self.allowed_calls@[k] == pre.allowed_calls@[k0]);
                        if k0 < g {
                            assert(pre.allowed_calls@[k0].id != pre.allowed_calls@[g as int].id);
                        }
                    }
                    assert(calls_map(self.allowed_calls@) =~= calls_map(pre.allowed_calls@).remove(
                        id,
                    ));
                }
            },
            None => {
                proof {
                    lemma_calls_map_absent(pre.allowed_calls@, id);
                }
            },
        }
        let ghost mid = *self;
        let row = GroupCalls { id, entries };
        proof {
            lemma_calls_map_push(mid.allowed_calls@, row);
        }
        self.allowed_calls.push(row);
        self.events.push(Event::CallsUpdated(id));
        proof {
            assert forall|m: int, n: int| 0 <= m < n < self.allowed_calls@.len() implies #[trigger] self.allowed_calls@[m].id
                != #[trigger] self.allowed_calls@[n].id by {
                if n < mid.allowed_calls@.len() {
                    assert(mid.allowed_calls@[m].id != mid.allowed_calls@[n].id);
                } else {
                    assert(mid.allowed_calls@[m].id != id);
                }
            }
            assert forall|k: int| 0 <= k < self.allowed_calls@.len() implies entries_dup_free(
                #[trigger] self.allowed_calls@[k].entries@,
            ) by {
                if k < mid.allowed_calls@.len() {
                    assert(entries_dup_free(mid.allowed_calls@[k].entries@));
                }
            }
            assert(inv(self@)) by {
                lemma_entries_map_dom_size(calls@);
                assert forall|gid: u64| #[trigger] self@.calls.contains_key(gid) implies self@.calls[
                    gid
                ].dom().finite() && self@.calls[gid].dom().len() <= self@.max_calls by {
                    if gid != id {
                        assert(pre@.calls.contains_key(gid));
                        assert(self@.calls[gid] == pre@.calls[gid]);
                    } else {
                        assert(self@.calls[gid] == entries_map(calls@));
                    }
                }
            }
            assert(self@ =~= set_calls_state(pre@, *origin, id, calls@));
        }
        Ok(())
    }

    /// The identity group `id` dispatches `call` under, if `call` is
    /// registered for the group.
    pub fn call_origin_of(&self, id: u64, call: &Vec<u8>) -> (r: Option<u64>)
        requires
            self.wf(),
        ensures
            r == registered(self@, id, call@),
    {
        match self.find_group_index(id) {
            Some(g) => {
                proof {
                    lemma_calls_map_found(self.allowed_calls@, g as int);
                }
                match find_call_index(&self.allowed_calls[g].entries, call) {
                    Some(k) => {
                        proof {
                            lemma_entries_map_found(self.allowed_calls@[g as int].entries@, k as int);
                        }
                        Some(self.allowed_calls[g].entries[k].origin)
                    },
                    None => {
                        proof {
                            lemma_entries_map_absent(self.allowed_calls@[g as int].entries@, call@);
                        }
                        None
                    },
                }
            },
            None => {
                proof {
                    lemma_calls_map_absent(self.allowed_calls@, id);
                }
                None
            },
        }
    }

    /// Look the call up across the caller's executor memberships: yield the
    /// impersonation identity of some group that both has `who` as an
    /// executor and registers the call, or nothing if no such group exists.
    /// When several such groups register the call under different
    /// identities, which one is yielded is unspecified.
    pub fn validate_call(&self, who: u64, call: &Vec<u8>) -> (r: Option<u64>)
        requires
            self.wf(),
        ensures
            match r {
                Some(o) => resolves_to(self@, who, call@, o),
                None => !authorized(self@, who, call@),
            },
    {
        let mut i: usize = 0;
        while i < self.permissions.len()
            invariant
                self.wf(),
                i <= self.permissions.len(),
                forall|j: int|
                    #![trigger self.permissions@[j]]
                    0 <= j < i ==> (self.permissions@[j].0 == who ==> registered(
                        self@,
                        self.permissions@[j].1,
                        call@,
                    ) is None),
            decreases self.permissions.len() - i,
        {
            let (a, g) = self.permissions[i];
            if a == who {
                match self.call_origin_of(g, call) {
                    Some(o) => {
                        proof {
                            assert(self.permissions@[i as int] == (who, g));
                            assert(self.permissions@.contains((who, g)));
                            assert(self@.permissions.contains((who, g)));
                            assert(registered(self@, g, call@) == Some(o));
                        }
                        return Some(o);
                    },
                    None => {},
                }
            }
            proof {
                assert(self.permissions@[i as int] == (a, g));
            }
            i = i + 1;
        }
        proof {
            if authorized(self@, who, call@) {
                let g = choose|g: u64|
                    #[trigger] self@.permissions.contains((who, g)) && registered(
                        self@,
                        g,
                        call@,
                    ) is Some;
                let j = choose|j: int|
                    0 <= j < self.permissions@.len() && self.permissions@[j] == (who, g);
                assert(false);
            }
        }
        None
    }

    /// Validate, then execute: an unsigned or root request is refused; a
    /// signed caller whose executor memberships cover the call in no group
    /// is refused with `CallNotPermitted`; on every refusal execution never
    /// starts and the dispatcher is left untouched. Otherwise the call is
    /// dispatched once, under an identity that some covering executor group
    /// registers it with, and whatever the dispatcher reports is returned
    /// unchanged. The permission check happens exactly once, before
    /// dispatch.
    pub fn execute_call<D: Dispatcher>(
        &self,
        dispatcher: &mut D,
        origin: &Origin,
        call: &Vec<u8>,
    ) -> (r: Result<(), Error>)
        requires
            self.wf(),
        ensures
            match *origin {
                Origin::Signed(who) => {
                    &&& !authorized(self@, who, call@) ==> r == Err::<(), Error>(
                        Error::CallNotPermitted,
                    ) && *final(dispatcher) == *old(dispatcher)
                    &&& authorized(self@, who, call@) ==> exists|o: u64|
                        #[trigger] resolves_to(self@, who, call@, o)
                            && final(dispatcher).dispatch_post(*old(dispatcher), call@, o, r)
                },
                _ => r == Err::<(), Error>(Error::AuthorizationRejected) && *final(dispatcher)
                    == *old(dispatcher),
            },
    {
        let who = match origin {
            Origin::Signed(w) => *w,
            _ => {
                return Err(Error::AuthorizationRejected);
            },
        };
        match self.validate_call(who, call) {
            Some(o) => {
                proof {
                    let g = choose|g: u64|
                        #[trigger] self@.permissions.contains((who, g)) && registered(
                            self@,
                            g,
                            call@,
                        ) == Some(o);
                    assert(authorized(self@, who, call@));
                }
                dispatcher.dispatch(call, o)
            },
            None => Err(Error::CallNotPermitted),
        }
    }

    /// The distinct calls the account may execute: the union, over the
    /// groups where `who` is an executor, of the groups' registered call
    /// encodings. Exactly the calls `validate_call` would accept for `who`.
    pub fn get_allowed_calls(&self, who: u64) -> (r: Vec<Vec<u8>>)
        requires
            self.wf(),
        ensures
            forall|c: Seq<u8>| #[trigger] vec_contains_bytes(r@, c) <==> authorized(self@, who, c),
            forall|m: int, n: int| 0 <= m < n < r@.len() ==> r@[m]@ != r@[n]@,
    {
        let mut out: Vec<Vec<u8>> = Vec::new();
        let mut i: usize = 0;
        while i < self.permissions.len()
            invariant
                self.wf(),
                i <= self.permissions.len(),
                forall|c: Seq<u8>|
                    #[trigger] vec_contains_bytes(out@, c) <==> allowed_before(
                        self.permissions@,
                        self@,
                        who,
                        c,
                        i as int,
                    ),
                forall|m: int, n: int| 0 <= m < n < out@.len() ==> out@[m]@ != out@[n]@,
            decreases self.permissions.len() - i,
        {
            let (a, g) = self.permissions[i];
            proof {
                assert(self.permissions@[i as int] == (a, g));
            }
            if a == who {
                match self.find_group_index(g) {
                    Some(gi) => {
                        proof {
                            lemma_calls_map_found(self.allowed_calls@, gi as int);
                        }
                        let ghost cur = self.allowed_calls@[gi as int].entries@;
                        let mut k: usize = 0;
                        while k < self.allowed_calls[gi].entries.len()
                            invariant
                                self.wf(),
                                i < self.permissions@.len(),
                                self.permissions@[i as int] == (who, g),
                                gi < self.allowed_calls@.len(),
                                self.allowed_calls@[gi as int].id == g,
                                cur == self.allowed_calls@[gi as int].entries@,
                                k <= cur.len(),
                                forall|c: Seq<u8>|
                                    #[trigger] vec_contains_bytes(out@, c) <==> (allowed_before(
                                        self.permissions@,
                                        self@,
                                        who,
                                        c,
                                        i as int,
                                    ) || exists|e: int|
                                        0 <= e < k && #[trigger] cur[e].call@ == c),
                                forall|m: int, n: int| 0 <= m < n < out@.len() ==> out@[m]@ != out@[n]@,
                            decreases cur.len() - k,
                        {
                            let ghost out_pre = out@;
                            let ghost c0 = cur[k as int].call@;
                            let row_call = &self.allowed_calls[gi].entries[k].call;
                            match find_bytes_index(&out, row_call) {
                                Some(f) => {
                                    proof {
                                        assert(out@[f as int]@ == c0);
                                        assert(vec_contains_bytes(out@, c0));
                                    }
                                },
                                None => {
                                    let b = copy_bytes(row_call);
                                    proof {
                                        lemma_vec_bytes_push(out@, b);
                                    }
                                    out.push(b);
                                    proof {
                                        assert forall|m: int, n: int|
                                            0 <= m < n < out@.len() implies out@[m]@ != out@[n]@ by {
                                            if n < out_pre.len() {
                                                assert(out_pre[m]@ != out_pre[n]@);
                                            } else {
                                                assert(out_pre[m]@ != c0);
                                            }
                                        }
                                    }
                                },
                            }
                            proof {
                                assert(vec_contains_bytes(out@, c0));
                                assert forall|c: Seq<u8>| #[trigger] vec_contains_bytes(out@, c)
                                    <==> (allowed_before(self.permissions@, self@, who, c, i as int)
                                    || exists|e: int|
                                    0 <= e < k as int + 1 && #[trigger] cur[e].call@ == c) by {
                                    if c == c0 {
                                        assert(cur[k as int].call@ == c);
                                    } else {
                                        assert(vec_contains_bytes(out@, c) == vec_contains_bytes(
                                            out_pre,
                                            c,
                                        ));
                                        if exists|e: int|
                                            0 <= e < k as int + 1 && #[trigger] cur[e].call@ == c {
                                            let e = choose|e: int|
                                                0 <= e < k as int + 1 && #[trigger] cur[e].call@
                                                    == c;
                                            assert(e < k as int);
                                        }
                                    }
                                }
                            }
                            k = k + 1;
                        }
                        proof {
                            assert forall|c: Seq<u8>| #[trigger] vec_contains_bytes(out@, c)
                                <==> allowed_before(
                                self.permissions@,
                                self@,
                                who,
                                c,
                                i as int + 1,
                            ) by {
                                assert((exists|e: int|
                                    0 <= e < cur.len() && #[trigger] cur[e].call@ == c)
                                    <==> registered(self@, g, c) is Some) by {
                                    if exists|e: int|
                                        0 <= e < cur.len() && #[trigger] cur[e].call@ == c {
                                        let e = choose|e: int|
                                            0 <= e < cur.len() && #[trigger] cur[e].call@ == c;
                                        lemma_entries_map_found(cur, e);
                                    }
                                    if registered(self@, g, c) is Some {
                                        lemma_entries_map_key_index(cur, c);
                                    }
                                }
                                lemma_allowed_before_step(
                                    self.permissions@,
                                    self@,
                                    who,
                                    c,
                                    i as int,
                                );
                            }
                        }
                    },
                    None => {
                        proof {
                            lemma_calls_map_absent(self.allowed_calls@, g);
                            assert forall|c: Seq<u8>| #[trigger] vec_contains_bytes(out@, c)
                                <==> allowed_before(
                                self.permissions@,
                                self@,
                                who,
                                c,
                                i as int + 1,
                            ) by {
                                lemma_allowed_before_step(
                                    self.permissions@,
                                    self@,
                                    who,
                                    c,
                                    i as int,
                                );
                            }
                        }
                    },
                }
            } else {
                proof {
                    assert forall|c: Seq<u8>| #[trigger] vec_contains_bytes(out@, c)
                        <==> allowed_before(self.permissions@, self@, who, c, i as int + 1) by {
                        lemma_allowed_before_step(self.permissions@, self@, who, c, i as int);
                    }
                }
            }
            i = i + 1;
        }
        proof {
            assert forall|c: Seq<u8>| #[trigger] vec_contains_bytes(out@, c) <==> authorized(
                self@,
                who,
                c,
            ) by {
                if allowed_before(
                    self.permissions@,
                    self@,
                    who,
                    c,
                    self.permissions@.len() as int,
                ) {
                    let j = choose|j: int|
                        0 <= j < self.permissions@.len() && (#[trigger] self.permissions@[j]).0
                            == who && registered(self@, self.permissions@[j].1, c) is Some;
                    assert(self.permissions@[j] == (who, self.permissions@[j].1));
                    assert(self.permissions@.contains((who, self.permissions@[j].1)));
                    assert(self@.permissions.contains((who, self.permissions@[j].1)));
                    assert(authorized(self@, who, c));
                }
                if authorized(self@, who, c) {
                    let g = choose|g: u64|
                        #[trigger] self@.permissions.contains((who, g)) && registered(
                            self@,
                            g,
                            c,
                        ) is Some;
                    let j = choose|j: int|
                        0 <= j < self.permissions@.len() && self.permissions@[j] == (who, g);
                    assert((#[trigger] self.permissions@[j]).0 == who && registered(
                        self@,
                        self.permissions@[j].1,
                        c,
                    ) is Some);
                    assert(allowed_before(
                        self.permissions@,
                        self@,
                        who,
                        c,
                        self.permissions@.len() as int,
                    ));
                }
            }
        }
        out
    }

    /// The configured maximum number of distinct calls per group.
    pub fn max_calls(&self) -> (r: u32)
        ensures
            r as int == self@.max_calls,
    {
        self.max_calls
    }

    /// The notifications emitted so far, oldest first.
    pub fn events(&self) -> (r: &Vec<Event>)
        ensures
            r@ == self@.events,
    {
        &self.events
    }
}

/// An implementation of the validation interface backed by the engine's own
/// stores, as `execute_call` uses it.
impl crate::ValidateCall for Pallet {
    open spec fn valid(&self) -> bool {
        self.wf()
    }

    fn validate_call(&self, who: u64, call: &Vec<u8>) -> Result<u64, Error> {
        match Pallet::validate_call(self, who, call) {
            Some(o) => Ok(o),
            None => Err(Error::CallNotPermitted),
        }
    }
}

/// A well-formed engine satisfies the abstract invariant: its permission
/// index marks exactly the executor assignments, and no group's registry
/// exceeds the configured bound. Every constructor and operation of
/// `Pallet` establishes or preserves well-formedness.
pub proof fn lemma_wf_invariant(p: &Pallet)
    requires
        p.wf(),
    ensures
        inv(p@),
{
}

/// A dispatcher that runs nothing: it records each dispatched call and the
/// identity it was dispatched under, and reports success.
pub struct CallRecorder {
    pub dispatched: Vec<(Vec<u8>, u64)>,
}

impl CallRecorder {
    /// A recorder with an empty log.
    pub fn new() -> (r: CallRecorder)
        ensures
            r.dispatched@.len() == 0,
    {
        CallRecorder { dispatched: Vec::new() }
    }
}

impl Dispatcher for CallRecorder {
    /// One dispatch appends exactly one record, holding the call's bytes and
    /// the identity it ran under, and reports success.
    open spec fn dispatch_post(
        &self,
        pre: Self,
        call: Seq<u8>,
        origin: u64,
        r: Result<(), Error>,
    ) -> bool {
        &&& self.dispatched@.len() == pre.dispatched@.len() + 1
        &&& self.dispatched@.last().0@ == call
        &&& self.dispatched@.last().1 == origin
        &&& self.dispatched@.drop_last() == pre.dispatched@
        &&& r == Ok::<(), Error>(())
    }

    fn dispatch(&mut self, call: &Vec<u8>, origin: u64) -> (r: Result<(), Error>) {
        let bytes = copy_bytes(call);
        self.dispatched.push((bytes, origin));
        proof {
            assert(self.dispatched@.drop_last() =~= old(self).dispatched@);
        }
        Ok(())
    }
}

} // verus!
