//! Storage representation and its mathematical reading.
//!
//! Each of the engine's three stores is a vector of entries whose keys are
//! pairwise distinct. The spec functions here read such a vector back as a
//! `Map` or `Set`, folding entries from the left so that a later entry for
//! the same key overrides an earlier one; the lemmas relate the maps to the
//! vector operations the engine performs (push, remove by index).

use vstd::prelude::*;

use crate::role::Role;
use crate::CallOrigin;

verus! {

/// One row of the role store: `who` holds `role` in group `id`.
#[derive(Clone, Copy, Debug)]
pub struct RoleEntry {
    pub id: u64,
    pub who: u64,
    pub role: Role,
}

/// The registry rows of one group: the calls the group's executors may run,
/// each with its impersonation identity. Call encodings are pairwise
/// distinct within a group.
#[derive(Debug)]
pub struct GroupCalls {
    pub id: u64,
    pub entries: Vec<CallOrigin>,
}

// ---------------------------------------------------------------------------
// Role store: Seq<RoleEntry> read as Map<(group, account), Role>
// ---------------------------------------------------------------------------

/// No two entries share a `(group, account)` key.
pub open spec fn roles_dup_free(s: Seq<RoleEntry>) -> bool {
    forall|i: int, j: int|
        0 <= i < j < s.len() ==> !(#[trigger] s[i].id == #[trigger] s[j].id && s[i].who == s[j].who)
}

/// The map a role-store vector denotes.
pub open spec fn roles_map(s: Seq<RoleEntry>) -> Map<(u64, u64), Role>
    decreases s.len(),
{
    if s.len() == 0 {
        Map::empty()
    } else {
        roles_map(s.drop_last()).insert((s.last().id, s.last().who), s.last().role)
    }
}

pub proof fn lemma_roles_map_push(s: Seq<RoleEntry>, e: RoleEntry)
    ensures
        roles_map(s.push(e)) == roles_map(s).insert((e.id, e.who), e.role),
{
    assert(s.push(e).drop_last() =~= s);
}

pub proof fn lemma_roles_map_absent(s: Seq<RoleEntry>, id: u64, who: u64)
    requires
        forall|i: int| 0 <= i < s.len() ==> !(#[trigger] s[i].id == id && s[i].who == who),
    ensures
        !roles_map(s).contains_key((id, who)),
    decreases s.len(),
{
    if s.len() > 0 {
        assert(!(s[s.len() - 1].id == id && s[s.len() - 1].who == who));
        assert(forall|i: int|
            0 <= i < s.drop_last().len() ==> !(#[trigger] s.drop_last()[i].id == id
                && s.drop_last()[i].who == who));
        lemma_roles_map_absent(s.drop_last(), id, who);
    }
}

pub proof fn lemma_roles_dup_free_drop_last(s: Seq<RoleEntry>)
    requires
        roles_dup_free(s),
        s.len() > 0,
    ensures
        roles_dup_free(s.drop_last()),
{
    assert forall|i: int, j: int| 0 <= i < j < s.drop_last().len() implies !(#[trigger] s.drop_last()[i].id
        == #[trigger] s.drop_last()[j].id && s.drop_last()[i].who == s.drop_last()[j].who) by {
        assert(s.drop_last()[i] == s[i]);
        assert(s.drop_last()[j] == s[j]);
    }
}

pub proof fn lemma_roles_map_found(s: Seq<RoleEntry>, i: int)
    requires
        roles_dup_free(s),
        0 <= i < s.len(),
    ensures
        roles_map(s).contains_key((s[i].id, s[i].who)),
        roles_map(s)[(s[i].id, s[i].who)] == s[i].role,
    decreases s.len(),
{
    if i < s.len() - 1 {
        lemma_roles_dup_free_drop_last(s);
        lemma_roles_map_found(s.drop_last(), i);
        assert(!(s[i].id == s[s.len() - 1].id && s[i].who == s[s.len() - 1].who));
    }
}

pub proof fn lemma_roles_dup_free_remove(s: Seq<RoleEntry>, i: int)
    requires
        roles_dup_free(s),
        0 <= i < s.len(),
    ensures
        roles_dup_free(s.remove(i)),
{
    s.remove_ensures(i);
    assert forall|m: int, n: int| 0 <= m < n < s.remove(i).len() implies !(#[trigger] s.remove(
        i,
    )[m].id == #[trigger] s.remove(i)[n].id && s.remove(i)[m].who == s.remove(i)[n].who) by {
        let m0: int = if m < i { m } else { m + 1 };
        let n0: int = if n < i { n } else { n + 1 };
        assert(s.remove(i)[m] == s[m0]);
        assert(s.remove(i)[n] == s[n0]);
    }
}

pub proof fn lemma_roles_map_remove(s: Seq<RoleEntry>, i: int)
    requires
        roles_dup_free(s),
        0 <= i < s.len(),
    ensures
        roles_map(s.remove(i)) == roles_map(s).remove((s[i].id, s[i].who)),
    decreases s.len(),
{
    let k = (s[i].id, s[i].who);
    lemma_roles_dup_free_drop_last(s);
    if i == s.len() - 1 {
        assert(s.remove(i) =~= s.drop_last());
        assert(forall|j: int|
            0 <= j < s.drop_last().len() ==> !(#[trigger] s.drop_last()[j].id == k.0
                && s.drop_last()[j].who == k.1));
        lemma_roles_map_absent(s.drop_last(), k.0, k.1);
        assert(roles_map(s.drop_last()) =~= roles_map(s.drop_last()).insert(k, s[i].role).remove(
            k,
        ));
    } else {
        let last = s.last();
        assert(s.remove(i).drop_last() =~= s.drop_last().remove(i));
        assert(s.remove(i).last() == last);
        lemma_roles_map_remove(s.drop_last(), i);
        assert(!(last.id == k.0 && last.who == k.1));
        assert(roles_map(s.drop_last()).remove(k).insert((last.id, last.who), last.role)
            =~= roles_map(s.drop_last()).insert((last.id, last.who), last.role).remove(k));
    }
}

// ---------------------------------------------------------------------------
// Permission index: Seq<(account, group)> read as Set<(account, group)>
// ---------------------------------------------------------------------------

/// No pair occurs twice.
pub open spec fn perms_dup_free(s: Seq<(u64, u64)>) -> bool {
    forall|i: int, j: int| 0 <= i < j < s.len() ==> s[i] != s[j]
}

pub proof fn lemma_to_set_push(s: Seq<(u64, u64)>, x: (u64, u64))
    ensures
        s.push(x).to_set() == s.to_set().insert(x),
{
    broadcast use vstd::set::group_set_axioms;

    assert forall|y: (u64, u64)| s.push(x).contains(y) implies (s.contains(y) || y == x) by {
        let i = choose|i: int| 0 <= i < s.push(x).len() && s.push(x)[i] == y;
        if i < s.len() {
            assert(s[i] == y);
        }
    }
    assert forall|y: (u64, u64)| (s.contains(y) || y == x) implies s.push(x).contains(y) by {
        if y == x {
            assert(s.push(x)[s.len() as int] == y);
        } else {
            let i = choose|i: int| 0 <= i < s.len() && s[i] == y;
            assert(s.push(x)[i] == y);
        }
    }
    assert forall|y: (u64, u64)| s.push(x).to_set().contains(y) == s.to_set().insert(x).contains(
        y,
    ) by {
        assert(s.push(x).to_set().contains(y) == s.push(x).contains(y));
        assert(s.to_set().contains(y) == s.contains(y));
    }
    assert(s.push(x).to_set() =~= s.to_set().insert(x));
}

pub proof fn lemma_perms_dup_free_remove(s: Seq<(u64, u64)>, i: int)
    requires
        perms_dup_free(s),
        0 <= i < s.len(),
    ensures
        perms_dup_free(s.remove(i)),
{
    s.remove_ensures(i);
    assert forall|m: int, n: int| 0 <= m < n < s.remove(i).len() implies s.remove(i)[m] != s.remove(
        i,
    )[n] by {
        let m0: int = if m < i { m } else { m + 1 };
        let n0: int = if n < i { n } else { n + 1 };
        assert(s.remove(i)[m] == s[m0]);
        assert(s.remove(i)[n] == s[n0]);
    }
}

pub proof fn lemma_to_set_remove(s: Seq<(u64, u64)>, i: int)
    requires
        perms_dup_free(s),
        0 <= i < s.len(),
    ensures
        s.remove(i).to_set() == s.to_set().remove(s[i]),
{
    broadcast use vstd::set::group_set_axioms;

    s.remove_ensures(i);
    assert forall|y: (u64, u64)| s.remove(i).contains(y) implies (s.contains(y) && y != s[i]) by {
        let j = choose|j: int| 0 <= j < s.remove(i).len() && s.remove(i)[j] == y;
        let j0: int = if j < i { j } else { j + 1 };
        assert(s[j0] == y);
        assert(j0 != i);
    }
    assert forall|y: (u64, u64)| (s.contains(y) && y != s[i]) implies s.remove(i).contains(y) by {
        let j = choose|j: int| 0 <= j < s.len() && s[j] == y;
        if j < i {
            assert(s.remove(i)[j] == y);
        } else {
            assert(s.remove(i)[j - 1] == y);
        }
    }
    assert(s.remove(i).to_set() =~= s.to_set().remove(s[i]));
}

// ---------------------------------------------------------------------------
// Call registry: Seq<GroupCalls> read as Map<group, Map<encoding, identity>>
// ---------------------------------------------------------------------------

/// No two rows of one group share a call encoding.
pub open spec fn entries_dup_free(es: Seq<CallOrigin>) -> bool {
    forall|i: int, j: int| 0 <= i < j < es.len() ==> #[trigger] es[i].call@ != #[trigger] es[j].call@
}

/// The call-to-identity map a group's rows denote; a later row for the same
/// encoding overrides an earlier one.
pub open spec fn entries_map(es: Seq<CallOrigin>) -> Map<Seq<u8>, u64>
    decreases es.len(),
{
    if es.len() == 0 {
        Map::empty()
    } else {
        entries_map(es.drop_last()).insert(es.last().call@, es.last().origin)
    }
}

/// No two groups share an id.
pub open spec fn groups_dup_free(s: Seq<GroupCalls>) -> bool {
    forall|i: int, j: int| 0 <= i < j < s.len() ==> #[trigger] s[i].id != #[trigger] s[j].id
}

/// The registry map a vector of group rows denotes.
pub open spec fn calls_map(s: Seq<GroupCalls>) -> Map<u64, Map<Seq<u8>, u64>>
    decreases s.len(),
{
    if s.len() == 0 {
        Map::empty()
    } else {
        calls_map(s.drop_last()).insert(s.last().id, entries_map(s.last().entries@))
    }
}

pub proof fn lemma_entries_map_push(es: Seq<CallOrigin>, e: CallOrigin)
    ensures
        entries_map(es.push(e)) == entries_map(es).insert(e.call@, e.origin),
{
    assert(es.push(e).drop_last() =~= es);
}

pub proof fn lemma_entries_map_absent(es: Seq<CallOrigin>, c: Seq<u8>)
    requires
        forall|i: int| 0 <= i < es.len() ==> #[trigger] es[i].call@ != c,
    ensures
        !entries_map(es).contains_key(c),
    decreases es.len(),
{
    if es.len() > 0 {
        assert(es[es.len() - 1].call@ != c);
        assert(forall|i: int| 0 <= i < es.drop_last().len() ==> #[trigger] es.drop_last()[i].call@ != c);
        lemma_entries_map_absent(es.drop_last(), c);
    }
}

pub proof fn lemma_entries_dup_free_drop_last(es: Seq<CallOrigin>)
    requires
        entries_dup_free(es),
        es.len() > 0,
    ensures
        entries_dup_free(es.drop_last()),
{
    assert forall|i: int, j: int| 0 <= i < j < es.drop_last().len() implies #[trigger] es.drop_last()[i].call@
        != #[trigger] es.drop_last()[j].call@ by {
        assert(es.drop_last()[i] == es[i]);
        assert(es.drop_last()[j] == es[j]);
    }
}

pub proof fn lemma_entries_map_found(es: Seq<CallOrigin>, i: int)
    requires
        entries_dup_free(es),
        0 <= i < es.len(),
    ensures
        entries_map(es).contains_key(es[i].call@),
        entries_map(es)[es[i].call@] == es[i].origin,
    decreases es.len(),
{
    if i < es.len() - 1 {
        lemma_entries_dup_free_drop_last(es);
        lemma_entries_map_found(es.drop_last(), i);
        assert(es[i].call@ != es[es.len() - 1].call@);
    }
}

pub proof fn lemma_entries_map_key_index(es: Seq<CallOrigin>, c: Seq<u8>)
    requires
        entries_map(es).contains_key(c),
    ensures
        exists|i: int| 0 <= i < es.len() && #[trigger] es[i].call@ == c,
    decreases es.len(),
{
    if es.len() > 0 {
        if es.last().call@ == c {
            assert(es[es.len() - 1].call@ == c);
        } else {
            lemma_entries_map_key_index(es.drop_last(), c);
            let i = choose|i: int| 0 <= i < es.drop_last().len() && #[trigger] es.drop_last()[i].call@ == c;
            assert(es[i].call@ == c);
        }
    }
}

pub proof fn lemma_entries_dup_free_remove(es: Seq<CallOrigin>, i: int)
    requires
        entries_dup_free(es),
        0 <= i < es.len(),
    ensures
        entries_dup_free(es.remove(i)),
{
    es.remove_ensures(i);
    assert forall|m: int, n: int| 0 <= m < n < es.remove(i).len() implies #[trigger] es.remove(
        i,
    )[m].call@ != #[trigger] es.remove(i)[n].call@ by {
        let m0: int = if m < i { m } else { m + 1 };
        let n0: int = if n < i { n } else { n + 1 };
        assert(es.remove(i)[m] == es[m0]);
        assert(es.remove(i)[n] == es[n0]);
    }
}

pub proof fn lemma_entries_map_remove(es: Seq<CallOrigin>, i: int)
    requires
        entries_dup_free(es),
        0 <= i < es.len(),
    ensures
        entries_map(es.remove(i)) == entries_map(es).remove(es[i].call@),
    decreases es.len(),
{
    let c = es[i].call@;
    lemma_entries_dup_free_drop_last(es);
    if i == es.len() - 1 {
        assert(es.remove(i) =~= es.drop_last());
        assert(forall|j: int| 0 <= j < es.drop_last().len() ==> #[trigger] es.drop_last()[j].call@ != c);
        lemma_entries_map_absent(es.drop_last(), c);
        assert(entries_map(es.drop_last()) =~= entries_map(es.drop_last()).insert(
            c,
            es[i].origin,
        ).remove(c));
    } else {
        let last = es.last();
        assert(es.remove(i).drop_last() =~= es.drop_last().remove(i));
        assert(es.remove(i).last() == last);
        lemma_entries_map_remove(es.drop_last(), i);
        assert(last.call@ != c);
        assert(entries_map(es.drop_last()).remove(c).insert(last.call@, last.origin)
            =~= entries_map(es.drop_last()).insert(last.call@, last.origin).remove(c));
    }
}

/// The identity of the latest row whose call encoding is `c`.
pub open spec fn last_origin(es: Seq<CallOrigin>, c: Seq<u8>) -> u64
    recommends
        entries_map(es).contains_key(c),
    decreases es.len(),
{
    if es.len() == 0 {
        0
    } else if es.last().call@ == c {
        es.last().origin
    } else {
        last_origin(es.drop_last(), c)
    }
}

pub proof fn lemma_entries_map_key_present(es: Seq<CallOrigin>, e: int)
    requires
        0 <= e < es.len(),
    ensures
        entries_map(es).contains_key(es[e].call@),
    decreases es.len(),
{
    if e < es.len() - 1 {
        lemma_entries_map_key_present(es.drop_last(), e);
        assert(es.drop_last()[e] == es[e]);
    }
}

/// On any row list, duplicates included, the registry map assigns each
/// present call the identity of its latest row.
pub proof fn lemma_entries_map_last_origin(es: Seq<CallOrigin>, c: Seq<u8>)
    requires
        entries_map(es).contains_key(c),
    ensures
        entries_map(es)[c] == last_origin(es, c),
    decreases es.len(),
{
    if es.len() > 0 && es.last().call@ != c {
        lemma_entries_map_last_origin(es.drop_last(), c);
    }
}

/// The registry of one group never holds more distinct calls than rows.
pub proof fn lemma_entries_map_dom_size(es: Seq<CallOrigin>)
    ensures
        entries_map(es).dom().finite(),
        entries_map(es).dom().len() <= es.len(),
    decreases es.len(),
{
    if es.len() > 0 {
        lemma_entries_map_dom_size(es.drop_last());
    }
}

pub proof fn lemma_calls_map_push(s: Seq<GroupCalls>, g: GroupCalls)
    ensures
        calls_map(s.push(g)) == calls_map(s).insert(g.id, entries_map(g.entries@)),
{
    assert(s.push(g).drop_last() =~= s);
}

pub proof fn lemma_calls_map_absent(s: Seq<GroupCalls>, id: u64)
    requires
        forall|i: int| 0 <= i < s.len() ==> #[trigger] s[i].id != id,
    ensures
        !calls_map(s).contains_key(id),
    decreases s.len(),
{
    if s.len() > 0 {
        assert(s[s.len() - 1].id != id);
        assert(forall|i: int| 0 <= i < s.drop_last().len() ==> #[trigger] s.drop_last()[i].id != id);
        lemma_calls_map_absent(s.drop_last(), id);
    }
}

pub proof fn lemma_groups_dup_free_drop_last(s: Seq<GroupCalls>)
    requires
        groups_dup_free(s),
        s.len() > 0,
    ensures
        groups_dup_free(s.drop_last()),
{
    assert forall|i: int, j: int| 0 <= i < j < s.drop_last().len() implies #[trigger] s.drop_last()[i].id
        != #[trigger] s.drop_last()[j].id by {
        assert(s.drop_last()[i] == s[i]);
        assert(s.drop_last()[j] == s[j]);
    }
}

pub proof fn lemma_calls_map_found(s: Seq<GroupCalls>, i: int)
    requires
        groups_dup_free(s),
        0 <= i < s.len(),
    ensures
        calls_map(s).contains_key(s[i].id),
        calls_map(s)[s[i].id] == entries_map(s[i].entries@),
    decreases s.len(),
{
    if i < s.len() - 1 {
        lemma_groups_dup_free_drop_last(s);
        lemma_calls_map_found(s.drop_last(), i);
        assert(s[i].id != s[s.len() - 1].id);
    }
}

pub proof fn lemma_groups_dup_free_remove(s: Seq<GroupCalls>, i: int)
    requires
        groups_dup_free(s),
        0 <= i < s.len(),
    ensures
        groups_dup_free(s.remove(i)),
{
    s.remove_ensures(i);
    assert forall|m: int, n: int| 0 <= m < n < s.remove(i).len() implies #[trigger] s.remove(
        i,
    )[m].id != #[trigger] s.remove(i)[n].id by {
        let m0: int = if m < i { m } else { m + 1 };
        let n0: int = if n < i { n } else { n + 1 };
        assert(s.remove(i)[m] == s[m0]);
        assert(s.remove(i)[n] == s[n0]);
    }
}

pub proof fn lemma_calls_map_remove(s: Seq<GroupCalls>, i: int)
    requires
        groups_dup_free(s),
        0 <= i < s.len(),
    ensures
        calls_map(s.remove(i)) == calls_map(s).remove(s[i].id),
    decreases s.len(),
{
    let k = s[i].id;
    lemma_groups_dup_free_drop_last(s);
    if i == s.len() - 1 {
        assert(s.remove(i) =~= s.drop_last());
        assert(forall|j: int| 0 <= j < s.drop_last().len() ==> #[trigger] s.drop_last()[j].id != k);
        lemma_calls_map_absent(s.drop_last(), k);
        assert(calls_map(s.drop_last()) =~= calls_map(s.drop_last()).insert(
            k,
            entries_map(s[i].entries@),
        ).remove(k));
    } else {
        let last = s.last();
        assert(s.remove(i).drop_last() =~= s.drop_last().remove(i));
        assert(s.remove(i).last() == last);
        lemma_calls_map_remove(s.drop_last(), i);
        assert(last.id != k);
        assert(calls_map(s.drop_last()).remove(k).insert(last.id, entries_map(last.entries@))
            =~= calls_map(s.drop_last()).insert(last.id, entries_map(last.entries@)).remove(k));
    }
}

} // verus!
