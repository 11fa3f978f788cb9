//! Role-based access control: one storage entry per address holding its
//! role grants sorted by role, with optional expiry, lazy deletion of expired
//! grants and a bulk sweep.

use vstd::prelude::*;

use crate::address::Address;

verus! {

/// The roles a principal can hold, in their fixed order.
#[derive(Clone, Copy, Debug, PartialEq, Eq, PartialOrd, Ord, Hash, Structural)]
pub enum Role {
    Admin,
    Hospital,
    Donor,
    Rider,
    BloodBank,
}

/// One role binding: when it was granted and, optionally, when it expires.
#[derive(Clone, Copy, Debug, PartialEq, Eq, Structural)]
pub struct RoleGrant {
    pub role: Role,
    pub granted_at: u64,
    pub expires_at: Option<u64>,
}

/// The key of the storage entry that holds an address's grants.
#[derive(Clone, Debug, PartialEq, Eq)]
pub enum DataKey {
    AddressRoles(Address),
}

/// Position of a role in the order `Admin < Hospital < Donor < Rider <
/// BloodBank`.
pub open spec fn role_rank(role: Role) -> nat {
    match role {
        Role::Admin => 0,
        Role::Hospital => 1,
        Role::Donor => 2,
        Role::Rider => 3,
        Role::BloodBank => 4,
    }
}

/// Grants strictly increasing by role: sorted, and no role twice.
pub open spec fn sorted_strict(s: Seq<RoleGrant>) -> bool {
    forall|i: int, j: int|
        0 <= i < j < s.len() ==> role_rank(#[trigger] s[i].role) < role_rank(#[trigger] s[j].role)
}

/// A grant that `has_role` honours at time `now`.
pub open spec fn active_at(g: RoleGrant, now: u64) -> bool {
    match g.expires_at {
        Some(e) => now < e,
        None => true,
    }
}

/// A grant that `cleanup_expired_roles` sweeps at time `now`.
pub open spec fn swept_at(g: RoleGrant, now: u64) -> bool {
    match g.expires_at {
        Some(e) => e < now,
        None => false,
    }
}

/// `r` is `f` with `g` placed at the position its role takes in the order.
pub open spec fn inserted_in_order(f: Seq<RoleGrant>, g: RoleGrant, r: Seq<RoleGrant>) -> bool {
    exists|k: int|
        0 <= k <= f.len() && r == f.subrange(0, k).push(g) + f.subrange(k, f.len() as int) && (
        forall|j: int| 0 <= j < k ==> role_rank(#[trigger] f[j].role) < role_rank(g.role)) && (
        forall|j: int| k <= j < f.len() ==> role_rank(g.role) < role_rank(#[trigger] f[j].role))
}

/// The address a storage key belongs to.
pub open spec fn key_address(key: DataKey) -> Seq<char> {
    match key {
        DataKey::AddressRoles(a) => a@,
    }
}

fn rank(role: Role) -> (r: u8)
    ensures
        r == role_rank(role),
{
    match role {
        Role::Admin => 0,
        Role::Hospital => 1,
        Role::Donor => 2,
        Role::Rider => 3,
        Role::BloodBank => 4,
    }
}

/// A strictly increasing list holds at most one grant per role.
proof fn lemma_sorted_len(s: Seq<RoleGrant>)
    requires
        sorted_strict(s),
    ensures
        s.len() <= 5,
        forall|i: int| 0 <= i < s.len() ==> i <= role_rank(#[trigger] s[i].role),
{
    assert forall|i: int| 0 <= i < s.len() implies i <= role_rank(#[trigger] s[i].role) by {
        lemma_rank_at_least_index(s, i);
    }
    if s.len() > 5 {
        assert(role_rank(s[5].role) >= 5);
    }
}

proof fn lemma_rank_at_least_index(s: Seq<RoleGrant>, i: int)
    requires
        sorted_strict(s),
        0 <= i < s.len(),
    ensures
        i <= role_rank(s[i].role),
    decreases i,
{
    if i > 0 {
        lemma_rank_at_least_index(s, i - 1);
        assert(role_rank(s[i - 1].role) < role_rank(s[i].role));
    }
}

/// Keeping the elements of a strictly increasing list that satisfy a
/// predicate leaves it strictly increasing, and the kept elements satisfy
/// the predicate.
proof fn lemma_filter_sorted(s: Seq<RoleGrant>, pred: spec_fn(RoleGrant) -> bool)
    requires
        sorted_strict(s),
    ensures
        sorted_strict(s.filter(pred)),
        forall|i: int| 0 <= i < s.filter(pred).len() ==> pred(#[trigger] s.filter(pred)[i]),
        forall|i: int|
            0 <= i < s.filter(pred).len() ==> s.contains(#[trigger] s.filter(pred)[i]),
        s.filter(pred).len() <= s.len(),
    decreases s.len(),
{
    reveal(Seq::filter);
    if s.len() > 0 {
        let rest = s.drop_last();
        assert(sorted_strict(rest));
        lemma_filter_sorted(rest, pred);
        let fr = rest.filter(pred);
        let f = s.filter(pred);
        assert forall|i: int| 0 <= i < fr.len() implies role_rank((#[trigger] fr[i]).role)
            < role_rank(s.last().role) by {
            let j = choose|j: int| 0 <= j < rest.len() && rest[j] == fr[i];
            assert(s[j] == rest[j]);
        }
        assert forall|i: int| 0 <= i < f.len() implies s.contains(#[trigger] f[i]) by {
            if i < fr.len() {
                let j = choose|j: int| 0 <= j < rest.len() && rest[j] == fr[i];
                assert(s[j] == rest[j]);
            } else {
                assert(s[s.len() - 1] == s.last());
            }
        }
    }
}

/// A list whose elements all satisfy the predicate is kept whole.
proof fn lemma_filter_all(s: Seq<RoleGrant>, pred: spec_fn(RoleGrant) -> bool)
    requires
        forall|i: int| 0 <= i < s.len() ==> pred(#[trigger] s[i]),
    ensures
        s.filter(pred) == s,
    decreases s.len(),
{
    reveal(Seq::filter);
    if s.len() > 0 {
        let rest = s.drop_last();
        assert forall|i: int| 0 <= i < rest.len() implies pred(#[trigger] rest[i]) by {
            assert(rest[i] == s[i]);
        }
        lemma_filter_all(rest, pred);
        assert(pred(s[s.len() - 1]));
        assert(rest.push(s.last()) =~= s);
    }
}

/// The grants of `s` whose role is not `role`, in order.
fn remove_role_from_vec(s: &Vec<RoleGrant>, role: Role) -> (r: Vec<RoleGrant>)
    ensures
        r@ == s@.filter(|g: RoleGrant| g.role != role),
{
    let ghost pred = |g: RoleGrant| g.role != role;
    let mut out: Vec<RoleGrant> = Vec::new();
    let mut i: usize = 0;
    while i < s.len()
        invariant
            i <= s@.len(),
            pred == (|g: RoleGrant| g.role != role),
            out@ == s@.subrange(0, i as int).filter(pred),
        decreases s@.len() - i,
    {
        proof {
            let prefix = s@.subrange(0, i + 1);
            assert(prefix.drop_last() =~= s@.subrange(0, i as int));
            reveal(Seq::filter);
        }
        if s[i].role != role {
            out.push(s[i]);
        }
        i += 1;
    }
    assert(s@.subrange(0, i as int) =~= s@);
    out
}

/// `s` with `new_grant` placed before the first grant of a later role.
fn insert_sorted(s: &Vec<RoleGrant>, new_grant: RoleGrant) -> (r: Vec<RoleGrant>)
    requires
        sorted_strict(s@),
        forall|i: int| 0 <= i < s@.len() ==> (#[trigger] s@[i]).role != new_grant.role,
    ensures
        inserted_in_order(s@, new_grant, r@),
        sorted_strict(r@),
{
    let new_rank = rank(new_grant.role);
    let mut out: Vec<RoleGrant> = Vec::new();
    let mut inserted = false;
    let mut k: usize = 0;
    let mut i: usize = 0;
    while i < s.len()
        invariant
            sorted_strict(s@),
            forall|j: int| 0 <= j < s@.len() ==> (#[trigger] s@[j]).role != new_grant.role,
            new_rank == role_rank(new_grant.role),
            i <= s@.len(),
            k <= i,
            inserted ==> k < i,
            inserted ==> out@ == s@.subrange(0, k as int).push(new_grant) + s@.subrange(
                k as int,
                i as int,
            ),
            !inserted ==> k == i && out@ == s@.subrange(0, i as int),
            forall|j: int| 0 <= j < k ==> role_rank(#[trigger] s@[j].role) < role_rank(new_grant.role),
            forall|j: int|
                k <= j < i ==> role_rank(new_grant.role) < role_rank(#[trigger] s@[j].role),
        decreases s@.len() - i,
    {
        let grant = s[i];
        if !inserted && new_rank < rank(grant.role) {
            out.push(new_grant);
            inserted = true;
        }
        out.push(grant);
        proof {
            if inserted {
                assert(s@.subrange(k as int, i + 1) =~= s@.subrange(k as int, i as int).push(grant));
                assert(s@.subrange(0, k as int).push(new_grant) + s@.subrange(k as int, i + 1) =~= (
                s@.subrange(0, k as int).push(new_grant) + s@.subrange(k as int, i as int)).push(
                    grant,
                ));
                assert forall|j: int| k <= j < i + 1 implies role_rank(new_grant.role) < role_rank(
                    #[trigger] s@[j].role,
                ) by {
                    if j > k {
                        assert(role_rank(new_grant.role) < role_rank(s@[k as int].role));
                        assert(role_rank(s@[k as int].role) < role_rank(s@[j].role));
                    }
                }
            } else {
                assert(s@.subrange(0, i + 1) =~= s@.subrange(0, i as int).push(grant));
            }
        }
        if !inserted {
            k = i + 1;
        }
        i += 1;
    }
    if !inserted {
        out.push(new_grant);
        assert(s@.subrange(k as int, s@.len() as int) =~= Seq::<RoleGrant>::empty());
        assert(s@.subrange(0, i as int) =~= s@);
        assert(out@ =~= s@.subrange(0, k as int).push(new_grant) + s@.subrange(
            k as int,
            s@.len() as int,
        ));
    } else {
        assert(s@.subrange(k as int, i as int) =~= s@.subrange(k as int, s@.len() as int));
    }
    proof {
        let r = out@;
        let kk = k as int;
        assert forall|a: int, b: int| 0 <= a < b < r.len() implies role_rank(
            #[trigger] r[a].role,
        ) < role_rank(#[trigger] r[b].role) by {
            let ra = if a < kk {
                s@[a]
            } else if a == kk {
                new_grant
            } else {
                s@[a - 1]
            };
            let rb = if b < kk {
                s@[b]
            } else if b == kk {
                new_grant
            } else {
                s@[b - 1]
            };
            assert(r[a] == ra);
            assert(r[b] == rb);
            if a != kk && b != kk {
                let ia = if a < kk {
                    a
                } else {
                    a - 1
                };
                let ib = if b < kk {
                    b
                } else {
                    b - 1
                };
                assert(ia < ib);
                assert(role_rank(s@[ia].role) < role_rank(s@[ib].role));
            }
        }
    }
    out
}

/// The access-control state: one entry per address that holds at least one
/// grant.
pub struct AccessControlContract {
    entries: Vec<(DataKey, Vec<RoleGrant>)>,
}

impl AccessControlContract {
    /// Addresses are unique among the entries, and each entry holds a
    /// non-empty, strictly increasing list of grants.
    pub closed spec fn wf(&self) -> bool {
        &&& forall|i: int, j: int|
            0 <= i < j < self.entries@.len() ==> key_address(#[trigger] self.entries@[i].0)
                != key_address(#[trigger] self.entries@[j].0)
        &&& forall|i: int|
            0 <= i < self.entries@.len() ==> sorted_strict((#[trigger] self.entries@[i]).1@)
                && self.entries@[i].1@.len() > 0
    }

    /// Whether a storage entry exists for `address`.
    pub closed spec fn has_entry(&self, address: Seq<char>) -> bool {
        exists|i: int| 0 <= i < self.entries@.len() && key_address(#[trigger] self.entries@[i].0) == address
    }

    /// The grants stored for `address`, in role order (none without an
    /// entry).
    pub closed spec fn roles_of(&self, address: Seq<char>) -> Seq<RoleGrant> {
        if self.has_entry(address) {
            let i = choose|i: int|
                0 <= i < self.entries@.len() && key_address(#[trigger] self.entries@[i].0) == address;
            self.entries@[i].1@
        } else {
            Seq::empty()
        }
    }

    proof fn lemma_entry_at(&self, i: int)
        requires
            self.wf(),
            0 <= i < self.entries@.len(),
        ensures
            self.has_entry(key_address(self.entries@[i].0)),
            self.roles_of(key_address(self.entries@[i].0)) == self.entries@[i].1@,
    {
        let a = key_address(self.entries@[i].0);
        assert(key_address(self.entries@[i].0) == a);
        let j = choose|j: int| 0 <= j < self.entries@.len() && key_address(#[trigger] self.entries@[j].0) == a;
        if i < j {
            assert(key_address(self.entries@[i].0) != key_address(self.entries@[j].0));
        } else if j < i {
            assert(key_address(self.entries@[j].0) != key_address(self.entries@[i].0));
        }
    }

    /// The grants stored for any address are strictly increasing by role.
    pub proof fn lemma_roles_sorted(&self, address: Seq<char>)
        requires
            self.wf(),
        ensures
            sorted_strict(self.roles_of(address)),
    {
        if self.has_entry(address) {
            let i = choose|i: int|
                0 <= i < self.entries@.len() && key_address(#[trigger] self.entries@[i].0) == address;
            self.lemma_entry_at(i);
        }
    }

    /// No entries at all.
    pub fn new() -> (r: AccessControlContract)
        ensures
            r.wf(),
            forall|a: Seq<char>| !(#[trigger] r.has_entry(a)),
            forall|a: Seq<char>| #[trigger] r.roles_of(a) == Seq::<RoleGrant>::empty(),
    {
        AccessControlContract { entries: Vec::new() }
    }

    fn find(&self, address: &Address) -> (r: Option<usize>)
        requires
            self.wf(),
        ensures
            r is None ==> !self.has_entry(address@) && self.roles_of(address@) == Seq::<
                RoleGrant,
            >::empty(),
            r is Some ==> r->0 < self.entries@.len() && key_address(self.entries@[r->0 as int].0)
                == address@ && self.has_entry(address@) && self.roles_of(address@)
                == self.entries@[r->0 as int].1@,
    {
        let mut i: usize = 0;
        while i < self.entries.len()
            invariant
                self.wf(),
                i <= self.entries@.len(),
                forall|j: int| 0 <= j < i ==> key_address(#[trigger] self.entries@[j].0) != address@,
            decreases self.entries@.len() - i,
        {
            let same = match &self.entries[i].0 {
                DataKey::AddressRoles(a) => a.same_as(address),
            };
            if same {
                proof {
                    self.lemma_entry_at(i as int);
                }
                return Some(i);
            }
            i += 1;
        }
        None
    }

    /// Stores `grants` as the list of `address`: an empty list removes the
    /// address's entry.
    fn store(&mut self, address: &Address, grants: Vec<RoleGrant>)
        requires
            old(self).wf(),
            sorted_strict(grants@),
        ensures
            final(self).wf(),
            final(self).roles_of(address@) == grants@,
            final(self).has_entry(address@) == (grants@.len() > 0),
            others_unchanged(*old(self), *final(self), address@),
    {
        let ghost old_self = *self;
        match self.find(address) {
            Some(i) => {
                if grants.len() == 0 {
                    self.remove_entry(i, address);
                } else {
                    self.replace_entry(i, address, grants);
                }
            },
            None => {
                if grants.len() > 0 {
                    self.push_entry(address, grants);
                }
            },
        }
        assert(others_unchanged(old_self, *self, address@));
    }

    #[verifier::rlimit(40)]
    fn remove_entry(&mut self, i: usize, address: &Address)
        requires
            old(self).wf(),
            i < old(self).entries@.len(),
            key_address(old(self).entries@[i as int].0) == address@,
        ensures
            final(self).wf(),
            !final(self).has_entry(address@),
            final(self).roles_of(address@) == Seq::<RoleGrant>::empty(),
            others_unchanged(*old(self), *final(self), address@),
    {
        let ghost old_self = *self;
        let ghost old_entries = self.entries@;
        self.entries.remove(i);
        proof {
            let e = self.entries@;
            assert(e =~= old_entries.remove(i as int));
            assert forall|x: int, y: int|
                0 <= x < y < e.len() implies key_address(#[trigger] e[x].0)
                != key_address(#[trigger] e[y].0) by {
                let ox = if x < i {
                    x
                } else {
                    x + 1
                };
                let oy = if y < i {
                    y
                } else {
                    y + 1
                };
                assert(e[x] == old_entries[ox]);
                assert(e[y] == old_entries[oy]);
            }
            assert forall|x: int| 0 <= x < e.len() implies sorted_strict(
                (#[trigger] e[x]).1@,
            ) && e[x].1@.len() > 0 by {
                let ox = if x < i {
                    x
                } else {
                    x + 1
                };
                assert(e[x] == old_entries[ox]);
            }
            assert(!self.has_entry(address@)) by {
                if self.has_entry(address@) {
                    let x = choose|x: int|
                        0 <= x < e.len() && key_address(#[trigger] e[x].0) == address@;
                    let ox = if x < i {
                        x
                    } else {
                        x + 1
                    };
                    assert(e[x] == old_entries[ox]);
                    assert(key_address(old_entries[i as int].0) == address@);
                }
            }
            assert forall|a: Seq<char>| a != address@ implies #[trigger] self.roles_of(a)
                == old_self.roles_of(a) && self.has_entry(a) == old_self.has_entry(
                a,
            ) by {
                if old_self.has_entry(a) {
                    let ox = choose|ox: int|
                        0 <= ox < old_entries.len() && key_address(
                            #[trigger] old_entries[ox].0,
                        ) == a;
                    assert(ox != i);
                    let x = if ox < i {
                        ox
                    } else {
                        ox - 1
                    };
                    assert(e[x] == old_entries[ox]);
                    old_self.lemma_entry_at(ox);
                    self.lemma_entry_at(x);
                }
                if self.has_entry(a) {
                    let x = choose|x: int|
                        0 <= x < e.len() && key_address(#[trigger] e[x].0) == a;
                    let ox = if x < i {
                        x
                    } else {
                        x + 1
                    };
                    assert(e[x] == old_entries[ox]);
                    assert(old_self.has_entry(a));
                }
            }
            assert(others_unchanged(old_self, *self, address@));
        }
    }

    fn replace_entry(&mut self, i: usize, address: &Address, grants: Vec<RoleGrant>)
        requires
            old(self).wf(),
            i < old(self).entries@.len(),
            key_address(old(self).entries@[i as int].0) == address@,
            sorted_strict(grants@),
            grants@.len() > 0,
        ensures
            final(self).wf(),
            final(self).has_entry(address@),
            final(self).roles_of(address@) == grants@,
            others_unchanged(*old(self), *final(self), address@),
    {
        let ghost old_self = *self;
        let ghost old_entries = self.entries@;
        self.entries[i].1 = grants;
        proof {
            let e = self.entries@;
            assert forall|x: int, y: int|
                0 <= x < y < e.len() implies key_address(#[trigger] e[x].0)
                != key_address(#[trigger] e[y].0) by {
                assert(e[x].0 == old_entries[x].0);
                assert(e[y].0 == old_entries[y].0);
            }
            assert forall|x: int| 0 <= x < e.len() implies sorted_strict(
                (#[trigger] e[x]).1@,
            ) && e[x].1@.len() > 0 by {
                if x != i {
                    assert(e[x] == old_entries[x]);
                }
            }
            self.lemma_entry_at(i as int);
            assert forall|a: Seq<char>| a != address@ implies #[trigger] self.roles_of(a)
                == old_self.roles_of(a) && self.has_entry(a) == old_self.has_entry(
                a,
            ) by {
                if old_self.has_entry(a) {
                    let x = choose|x: int|
                        0 <= x < old_entries.len() && key_address(
                            #[trigger] old_entries[x].0,
                        ) == a;
                    assert(x != i);
                    assert(e[x] == old_entries[x]);
                    old_self.lemma_entry_at(x);
                    self.lemma_entry_at(x);
                }
                if self.has_entry(a) {
                    let x = choose|x: int|
                        0 <= x < e.len() && key_address(#[trigger] e[x].0) == a;
                    assert(e[x].0 == old_entries[x].0);
                    assert(old_self.has_entry(a));
                }
            }
        }
    }

    fn push_entry(&mut self, address: &Address, grants: Vec<RoleGrant>)
        requires
            old(self).wf(),
            !old(self).has_entry(address@),
            sorted_strict(grants@),
            grants@.len() > 0,
        ensures
            final(self).wf(),
            final(self).has_entry(address@),
            final(self).roles_of(address@) == grants@,
            others_unchanged(*old(self), *final(self), address@),
    {
        let ghost old_self = *self;
        let ghost old_entries = self.entries@;
        self.entries.push((DataKey::AddressRoles(address.duplicate()), grants));
        proof {
            let e = self.entries@;
            let n = old_entries.len() as int;
            assert forall|x: int, y: int|
                0 <= x < y < e.len() implies key_address(#[trigger] e[x].0)
                != key_address(#[trigger] e[y].0) by {
                assert(e[x] == old_entries[x]);
                if y < n {
                    assert(e[y] == old_entries[y]);
                } else {
                    assert(old_self.has_entry(key_address(old_entries[x].0)));
                }
            }
            assert forall|x: int| 0 <= x < e.len() implies sorted_strict(
                (#[trigger] e[x]).1@,
            ) && e[x].1@.len() > 0 by {
                if x < n {
                    assert(e[x] == old_entries[x]);
                }
            }
            self.lemma_entry_at(n);
            assert forall|a: Seq<char>| a != address@ implies #[trigger] self.roles_of(a)
                == old_self.roles_of(a) && self.has_entry(a) == old_self.has_entry(
                a,
            ) by {
                if old_self.has_entry(a) {
                    let x = choose|x: int|
                        0 <= x < old_entries.len() && key_address(
                            #[trigger] old_entries[x].0,
                        ) == a;
                    assert(e[x] == old_entries[x]);
                    old_self.lemma_entry_at(x);
                    self.lemma_entry_at(x);
                }
                if self.has_entry(a) {
                    let x = choose|x: int|
                        0 <= x < e.len() && key_address(#[trigger] e[x].0) == a;
                    assert(x != n);
                    assert(e[x] == old_entries[x]);
                    assert(old_self.has_entry(a));
                }
            }
        }
    }
}

/// The grant for `role` in `s`, if any.
pub open spec fn grant_of(s: Seq<RoleGrant>, role: Role) -> Option<RoleGrant> {
    if exists|i: int| 0 <= i < s.len() && (#[trigger] s[i]).role == role {
        Some(s[choose|i: int| 0 <= i < s.len() && (#[trigger] s[i]).role == role])
    } else {
        None
    }
}

/// `new` keeps the grants of every address other than `address`.
pub open spec fn others_unchanged(
    old: AccessControlContract,
    new: AccessControlContract,
    address: Seq<char>,
) -> bool {
    forall|a: Seq<char>|
        a != address ==> #[trigger] new.roles_of(a) == old.roles_of(a) && new.has_entry(a)
            == old.has_entry(a)
}

/// What `grant_role(now, address, role, expires_at)` does from `old`: any
/// grant of `role` is replaced by one granted at `now`, placed in role order.
pub open spec fn grant_effect(
    old: AccessControlContract,
    new: AccessControlContract,
    now: u64,
    address: Seq<char>,
    role: Role,
    expires_at: Option<u64>,
) -> bool {
    &&& inserted_in_order(
        old.roles_of(address).filter(|g: RoleGrant| g.role != role),
        RoleGrant { role, granted_at: now, expires_at },
        new.roles_of(address),
    )
    &&& new.has_entry(address)
    &&& others_unchanged(old, new, address)
}

/// What `has_role(now, address, role)` does from `old`: it answers whether
/// a grant of `role` exists and is active at `now`; a grant found expired is
/// deleted on the way (with the address's entry, when it was the last).
pub open spec fn has_role_effect(
    old: AccessControlContract,
    new: AccessControlContract,
    now: u64,
    address: Seq<char>,
    role: Role,
    r: bool,
) -> bool {
    match grant_of(old.roles_of(address), role) {
        None => !r && new == old,
        Some(g) => if active_at(g, now) {
            r && new == old
        } else {
            &&& !r
            &&& new.roles_of(address) == old.roles_of(address).filter(
                |x: RoleGrant| x.role != role,
            )
            &&& new.has_entry(address) == (new.roles_of(address).len() > 0)
            &&& others_unchanged(old, new, address)
        },
    }
}

/// What `cleanup_expired_roles(now, address)` does from `old`: every grant
/// expired before `now` is removed and their number returned; nothing
/// changes when none is.
pub open spec fn cleanup_effect(
    old: AccessControlContract,
    new: AccessControlContract,
    now: u64,
    address: Seq<char>,
    r: u32,
) -> bool {
    &&& new.roles_of(address) == old.roles_of(address).filter(|g: RoleGrant| !swept_at(g, now))
    &&& r == old.roles_of(address).len() - new.roles_of(address).len()
    &&& new.has_entry(address) == (new.roles_of(address).len() > 0)
    &&& r == 0 ==> new == old
    &&& others_unchanged(old, new, address)
}

/// The position of the grant for `role` in the strictly increasing `s`.
fn find_grant(s: &Vec<RoleGrant>, role: Role) -> (r: Option<usize>)
    requires
        sorted_strict(s@),
    ensures
        r is Some ==> r->0 < s@.len() && s@[r->0 as int].role == role && grant_of(s@, role)
            == Some(s@[r->0 as int]),
        r is None ==> grant_of(s@, role) is None,
{
    let mut i: usize = 0;
    while i < s.len()
        invariant
            sorted_strict(s@),
            i <= s@.len(),
            forall|j: int| 0 <= j < i ==> (#[trigger] s@[j]).role != role,
        decreases s@.len() - i,
    {
        if s[i].role == role {
            proof {
                assert(s@[i as int].role == role);
                let c = choose|j: int| 0 <= j < s@.len() && (#[trigger] s@[j]).role == role;
                assert(c == i) by {
                    if c < i {
                        assert(role_rank(s@[c].role) < role_rank(s@[i as int].role));
                    } else if c > i {
                        assert(role_rank(s@[i as int].role) < role_rank(s@[c].role));
                    }
                }
            }
            return Some(i);
        }
        i += 1;
    }
    None
}

/// The grants of `s` not expired before `now`, and how many were dropped.
fn sweep_expired(s: &Vec<RoleGrant>, now: u64) -> (r: (Vec<RoleGrant>, u32))
    requires
        sorted_strict(s@),
    ensures
        r.0@ == s@.filter(|g: RoleGrant| !swept_at(g, now)),
        r.1 == s@.len() - r.0@.len(),
{
    proof {
        lemma_sorted_len(s@);
    }
    let ghost pred = |g: RoleGrant| !swept_at(g, now);
    let mut kept: Vec<RoleGrant> = Vec::new();
    let mut removed: u32 = 0;
    let mut i: usize = 0;
    while i < s.len()
        invariant
            i <= s@.len(),
            s@.len() <= 5,
            pred == (|g: RoleGrant| !swept_at(g, now)),
            kept@ == s@.subrange(0, i as int).filter(pred),
            removed + kept@.len() == i,
        decreases s@.len() - i,
    {
        proof {
            let prefix = s@.subrange(0, i + 1);
            assert(prefix.drop_last() =~= s@.subrange(0, i as int));
            reveal(Seq::filter);
        }
        let g = s[i];
        let expired = match g.expires_at {
            Some(e) => e < now,
            None => false,
        };
        if expired {
            removed += 1;
        } else {
            kept.push(g);
        }
        i += 1;
    }
    assert(s@.subrange(0, i as int) =~= s@);
    (kept, removed)
}

impl AccessControlContract {
    /// Grants `role` to `address` as of `now`, replacing any earlier grant of
    /// the same role and keeping the list in role order.
    pub fn grant_role(&mut self, now: u64, address: &Address, role: Role, expires_at: Option<u64>)
        requires
            old(self).wf(),
        ensures
            final(self).wf(),
            grant_effect(*old(self), *final(self), now, address@, role, expires_at),
    {
        let ghost pred = |g: RoleGrant| g.role != role;
        let filtered = match self.find(address) {
            Some(i) => remove_role_from_vec(&self.entries[i].1, role),
            None => {
                proof {
                    reveal(Seq::filter);
                }
                Vec::new()
            },
        };
        proof {
            self.lemma_roles_sorted(address@);
            lemma_filter_sorted(self.roles_of(address@), pred);
        }
        let new_grant = RoleGrant { role, granted_at: now, expires_at };
        let updated = insert_sorted(&filtered, new_grant);
        proof {
            let k = choose|k: int|
                0 <= k <= filtered@.len() && updated@ == filtered@.subrange(0, k).push(new_grant)
                    + filtered@.subrange(k, filtered@.len() as int) && (forall|j: int|
                    0 <= j < k ==> role_rank(#[trigger] filtered@[j].role) < role_rank(
                        new_grant.role,
                    )) && (forall|j: int|
                    k <= j < filtered@.len() ==> role_rank(new_grant.role) < role_rank(
                        #[trigger] filtered@[j].role,
                    ));
            assert(updated@[k] == new_grant);
        }
        let ghost before = *self;
        self.store(address, updated);
        assert(others_unchanged(before, *self, address@));
        assert(inserted_in_order(
            before.roles_of(address@).filter(pred),
            new_grant,
            self.roles_of(address@),
        ));
    }

    /// Removes the grant of `role` from `address`; the address's entry goes
    /// when no grant is left.
    pub fn revoke_role(&mut self, address: &Address, role: Role)
        requires
            old(self).wf(),
        ensures
            final(self).wf(),
            final(self).roles_of(address@) == old(self).roles_of(address@).filter(
                |g: RoleGrant| g.role != role,
            ),
            final(self).has_entry(address@) == (final(self).roles_of(address@).len() > 0),
            others_unchanged(*old(self), *final(self), address@),
    {
        let ghost pred = |g: RoleGrant| g.role != role;
        match self.find(address) {
            Some(i) => {
                let kept = remove_role_from_vec(&self.entries[i].1, role);
                proof {
                    self.lemma_roles_sorted(address@);
                    lemma_filter_sorted(self.roles_of(address@), pred);
                }
                self.store(address, kept);
            },
            None => {
                proof {
                    reveal(Seq::filter);
                }
            },
        }
    }

    /// Whether `address` holds `role` at `now`. A grant found expired is
    /// deleted as a side effect.
    pub fn has_role(&mut self, now: u64, address: &Address, role: Role) -> (r: bool)
        requires
            old(self).wf(),
        ensures
            final(self).wf(),
            has_role_effect(*old(self), *final(self), now, address@, role, r),
    {
        let ghost pred = |g: RoleGrant| g.role != role;
        let i = match self.find(address) {
            Some(i) => i,
            None => {
                proof {
                    assert(self.roles_of(address@) =~= Seq::<RoleGrant>::empty());
                }
                return false;
            },
        };
        proof {
            self.lemma_entry_at(i as int);
        }
        let j = match find_grant(&self.entries[i].1, role) {
            Some(j) => j,
            None => return false,
        };
        let grant = self.entries[i].1[j];
        let active = match grant.expires_at {
            Some(e) => now < e,
            None => true,
        };
        if active {
            return true;
        }
        let kept = remove_role_from_vec(&self.entries[i].1, role);
        proof {
            lemma_filter_sorted(self.roles_of(address@), pred);
        }
        self.store(address, kept);
        false
    }

    /// Every grant of `address`, expired ones included, in role order.
    pub fn get_roles(&self, address: &Address) -> (r: Vec<RoleGrant>)
        requires
            self.wf(),
        ensures
            r@ == self.roles_of(address@),
    {
        match self.find(address) {
            Some(i) => {
                let grants = &self.entries[i].1;
                let mut out: Vec<RoleGrant> = Vec::new();
                let mut j: usize = 0;
                while j < grants.len()
                    invariant
                        j <= grants@.len(),
                        out@ == grants@.subrange(0, j as int),
                    decreases grants@.len() - j,
                {
                    out.push(grants[j]);
                    assert(grants@.subrange(0, j + 1) =~= grants@.subrange(0, j as int).push(
                        grants@[j as int],
                    ));
                    j += 1;
                }
                assert(grants@.subrange(0, j as int) =~= grants@);
                out
            },
            None => Vec::new(),
        }
    }

    /// Removes every grant of `address` that expired before `now` and
    /// returns how many went; the entry goes when none is left.
    pub fn cleanup_expired_roles(&mut self, now: u64, address: &Address) -> (r: u32)
        requires
            old(self).wf(),
        ensures
            final(self).wf(),
            cleanup_effect(*old(self), *final(self), now, address@, r),
    {
        let ghost pred = |g: RoleGrant| !swept_at(g, now);
        let i = match self.find(address) {
            Some(i) => i,
            None => {
                proof {
                    reveal(Seq::filter);
                    assert(self.roles_of(address@).filter(pred) =~= Seq::<RoleGrant>::empty());
                }
                return 0;
            },
        };
        proof {
            self.lemma_roles_sorted(address@);
            lemma_filter_sorted(self.roles_of(address@), pred);
        }
        let (kept, removed) = sweep_expired(&self.entries[i].1, now);
        if removed > 0 {
            self.store(address, kept);
        } else {
            proof {
                assert(kept@.len() == self.roles_of(address@).len());
                assert forall|x: int| 0 <= x < self.roles_of(address@).len() implies pred(
                    #[trigger] self.roles_of(address@)[x],
                ) by {
                    self.roles_of(address@).filter_lemma(pred);
                    lemma_filter_len_eq(self.roles_of(address@), pred, x);
                }
                lemma_filter_all(self.roles_of(address@), pred);
            }
        }
        removed
    }
}

/// A filter that keeps as many elements as it is given keeps each of them.
proof fn lemma_filter_len_eq(s: Seq<RoleGrant>, pred: spec_fn(RoleGrant) -> bool, x: int)
    requires
        s.filter(pred).len() == s.len(),
        0 <= x < s.len(),
    ensures
        pred(s[x]),
    decreases s.len(),
{
    reveal(Seq::filter);
    let rest = s.drop_last();
    lemma_filter_len_le(rest, pred);
    if pred(s.last()) {
        if x < s.len() - 1 {
            lemma_filter_len_eq(rest, pred, x);
            assert(rest[x] == s[x]);
        }
    }
}

proof fn lemma_filter_len_le(s: Seq<RoleGrant>, pred: spec_fn(RoleGrant) -> bool)
    ensures
        s.filter(pred).len() <= s.len(),
    decreases s.len(),
{
    reveal(Seq::filter);
    if s.len() > 0 {
        lemma_filter_len_le(s.drop_last(), pred);
    }
}

/// After `has_role` answers `false` for a grant it found expired, the
/// address's stored grants no longer include any grant of that role.
pub proof fn lemma_expired_grant_not_listed(
    before: AccessControlContract,
    after: AccessControlContract,
    now: u64,
    address: Seq<char>,
    role: Role,
    r: bool,
)
    requires
        before.wf(),
        has_role_effect(before, after, now, address, role, r),
        grant_of(before.roles_of(address), role) is Some,
        !r,
    ensures
        forall|i: int|
            0 <= i < after.roles_of(address).len() ==> (#[trigger] after.roles_of(address)[i]).role
                != role,
{
    let pred = |x: RoleGrant| x.role != role;
    let g = grant_of(before.roles_of(address), role)->0;
    if !active_at(g, now) {
        before.lemma_roles_sorted(address);
        lemma_filter_sorted(before.roles_of(address), pred);
    }
}

/// Granting the same role to the same address twice leaves a single grant
/// of that role, carrying the second grant's time and expiry.
pub proof fn lemma_grant_twice_single(
    first: AccessControlContract,
    second: AccessControlContract,
    third: AccessControlContract,
    address: Seq<char>,
    role: Role,
    now1: u64,
    expires1: Option<u64>,
    now2: u64,
    expires2: Option<u64>,
)
    requires
        first.wf(),
        grant_effect(first, second, now1, address, role, expires1),
        second.wf(),
        grant_effect(second, third, now2, address, role, expires2),
    ensures
        exists|k: int|
            0 <= k < third.roles_of(address).len() && third.roles_of(address)[k] == (RoleGrant {
                role,
                granted_at: now2,
                expires_at: expires2,
            }) && (forall|j: int|
                0 <= j < third.roles_of(address).len() && (#[trigger] third.roles_of(
                    address,
                )[j]).role == role ==> j == k),
{
    let pred = |x: RoleGrant| x.role != role;
    second.lemma_roles_sorted(address);
    lemma_filter_sorted(second.roles_of(address), pred);
    lemma_single_after_insert(
        second.roles_of(address).filter(pred),
        RoleGrant { role, granted_at: now2, expires_at: expires2 },
        third.roles_of(address),
    );
}

/// Inserting a grant into a list without its role leaves exactly one grant
/// of that role: the inserted one.
proof fn lemma_single_after_insert(f: Seq<RoleGrant>, g: RoleGrant, r: Seq<RoleGrant>)
    requires
        inserted_in_order(f, g, r),
        forall|i: int| 0 <= i < f.len() ==> (#[trigger] f[i]).role != g.role,
    ensures
        exists|k: int|
            0 <= k < r.len() && r[k] == g && (forall|j: int|
                0 <= j < r.len() && (#[trigger] r[j]).role == g.role ==> j == k),
{
    let k = choose|k: int|
        0 <= k <= f.len() && r == f.subrange(0, k).push(g) + f.subrange(k, f.len() as int) && (
        forall|j: int| 0 <= j < k ==> role_rank(#[trigger] f[j].role) < role_rank(g.role)) && (
        forall|j: int| k <= j < f.len() ==> role_rank(g.role) < role_rank(#[trigger] f[j].role));
    let front = f.subrange(0, k).push(g);
    let back = f.subrange(k, f.len() as int);
    assert(r[k] == front[k]);
    assert forall|j: int| 0 <= j < r.len() && (#[trigger] r[j]).role == g.role implies j == k by {
        if j < k {
            assert(r[j] == front[j]);
            assert(front[j] == f[j]);
        } else if j > k {
            assert(r[j] == back[j - k - 1]);
            assert(back[j - k - 1] == f[j - 1]);
        }
    }
}

/// Sweeping the same address twice at the same time removes nothing the
/// second time and changes nothing.
pub proof fn lemma_cleanup_idempotent(
    first: AccessControlContract,
    second: AccessControlContract,
    third: AccessControlContract,
    now: u64,
    address: Seq<char>,
    r1: u32,
    r2: u32,
)
    requires
        first.wf(),
        cleanup_effect(first, second, now, address, r1),
        cleanup_effect(second, third, now, address, r2),
    ensures
        r2 == 0,
        third == second,
{
    let pred = |g: RoleGrant| !swept_at(g, now);
    first.lemma_roles_sorted(address);
    lemma_filter_sorted(first.roles_of(address), pred);
    let s = second.roles_of(address);
    assert forall|i: int| 0 <= i < s.len() implies pred(#[trigger] s[i]) by {}
    lemma_filter_all(s, pred);
}

} // verus!
