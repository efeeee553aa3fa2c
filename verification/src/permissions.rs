use vstd::prelude::*;

verus! {

broadcast use vstd::seq_lib::group_seq_properties;

/// A right that a user may hold. `Admin` implies every permission; `Write`
/// implies `Read`; `ModifyUser` implies `CreateUser`; `GrantPermission`
/// implies `RevokePermission`.
#[derive(Clone, Copy, Debug, PartialEq, Eq, Structural, Hash)]
pub enum Permission {
    Read,
    Write,
    Delete,
    BeginTransaction,
    CommitTransaction,
    RollbackTransaction,
    CreateUser,
    ModifyUser,
    DeleteUser,
    GrantPermission,
    RevokePermission,
    ViewStats,
    ViewHealth,
    ViewClusterStatus,
    ModifyClusterConfig,
    ViewBlockchain,
    VerifyIntegrity,
    Admin,
}

/// What holding `self` grants: either the same permission, or one of the
/// fixed implications.
pub open spec fn spec_implies(held: Permission, other: Permission) -> bool {
    match held {
        Permission::Admin => true,
        Permission::Write => other == Permission::Read || other == Permission::Write,
        Permission::ModifyUser => other == Permission::CreateUser || other
            == Permission::ModifyUser,
        Permission::GrantPermission => other == Permission::RevokePermission || other
            == Permission::GrantPermission,
        _ => held == other,
    }
}

impl Permission {
    /// Whether holding `self` grants `other`.
    pub fn implies(&self, other: &Permission) -> (r: bool)
        ensures
            r == spec_implies(*self, *other),
    {
        match self {
            Permission::Admin => true,
            Permission::Write => matches!(other, Permission::Read | Permission::Write),
            Permission::ModifyUser => matches!(other, Permission::CreateUser | Permission::ModifyUser),
            Permission::GrantPermission => matches!(
                other,
                Permission::RevokePermission | Permission::GrantPermission
            ),
            _ => self == other,
        }
    }

    /// Whether this permission is reserved for administrative use.
    pub fn is_admin_only(&self) -> (r: bool)
        ensures
            r == matches!(*self,
                Permission::CreateUser
                | Permission::ModifyUser
                | Permission::DeleteUser
                | Permission::GrantPermission
                | Permission::RevokePermission
                | Permission::ModifyClusterConfig
                | Permission::Admin),
    {
        matches!(
            self,
            Permission::CreateUser
            | Permission::ModifyUser
            | Permission::DeleteUser
            | Permission::GrantPermission
            | Permission::RevokePermission
            | Permission::ModifyClusterConfig
            | Permission::Admin
        )
    }
}

/// Whether a collection of held permissions grants `required`.
pub open spec fn spec_grants(held: Set<Permission>, required: Permission) -> bool {
    exists|p: Permission| held.contains(p) && spec_implies(p, required)
}

/// A set of permissions held by a user, stored without duplicates.
#[derive(Clone, Debug)]
pub struct PermissionSet {
    permissions: Vec<Permission>,
}

impl View for PermissionSet {
    type V = Set<Permission>;

    /// The set of permissions held.
    closed spec fn view(&self) -> Set<Permission> {
        self.permissions@.to_set()
    }
}

impl PermissionSet {
    /// The stored vector holds each permission at most once.
    pub closed spec fn wf(&self) -> bool {
        forall|i: int, j: int|
            0 <= i < j < self.permissions@.len() ==> self.permissions@[i] != self.permissions@[j]
    }

    /// The empty permission set.
    pub fn new() -> (r: Self)
        ensures
            r@ == Set::<Permission>::empty(),
            r.wf(),
    {
        let r = PermissionSet { permissions: Vec::new() };
        proof {
            assert(r.permissions@.to_set() =~= Set::<Permission>::empty());
        }
        r
    }

    /// The set holding exactly the given permissions.
    pub fn from_permissions(permissions: Vec<Permission>) -> (r: Self)
        ensures
            r@ == permissions@.to_set(),
            r.wf(),
    {
        let mut r = PermissionSet::new();
        let mut i: usize = 0;
        while i < permissions.len()
            invariant
                0 <= i <= permissions@.len(),
                r@ == permissions@.take(i as int).to_set(),
                r.wf(),
            decreases permissions@.len() - i,
        {
            let ghost prev = r@;
            r.add_permission(permissions[i]);
            proof {
                assert(permissions@.take(i as int).push(permissions@[i as int]) =~= permissions@.take(
                    i as int + 1,
                ));
                assert(permissions@.take(i as int + 1).to_set() =~= prev.insert(
                    permissions@[i as int],
                ));
            }
            i += 1;
        }
        proof {
            assert(permissions@.take(permissions@.len() as int) =~= permissions@);
        }
        r
    }

    /// The set holding only `Admin`.
    pub fn admin() -> (r: Self)
        ensures
            r@ == Set::<Permission>::empty().insert(Permission::Admin),
            r.wf(),
    {
        let mut permissions: Vec<Permission> = Vec::new();
        permissions.push(Permission::Admin);
        let r = PermissionSet { permissions };
        proof {
            assert(r.permissions@.to_set() =~= Set::<Permission>::empty().insert(
                Permission::Admin,
            ));
        }
        r
    }

    /// The stock read-only set: `Read`, `ViewStats`, `ViewHealth`.
    pub fn read_only() -> (r: Self)
        ensures
            r@ == Set::<Permission>::empty().insert(Permission::Read).insert(
                Permission::ViewStats,
            ).insert(Permission::ViewHealth),
            r.wf(),
    {
        let mut permissions: Vec<Permission> = Vec::new();
        permissions.push(Permission::Read);
        permissions.push(Permission::ViewStats);
        permissions.push(Permission::ViewHealth);
        let r = PermissionSet { permissions };
        proof {
            assert(r.permissions@.to_set() =~= Set::<Permission>::empty().insert(
                Permission::Read,
            ).insert(Permission::ViewStats).insert(Permission::ViewHealth));
        }
        r
    }

    /// The stock read-write set: data and transaction rights plus stats.
    pub fn read_write() -> (r: Self)
        ensures
            r@ == Set::<Permission>::empty().insert(Permission::Read).insert(
                Permission::Write,
            ).insert(Permission::BeginTransaction).insert(Permission::CommitTransaction).insert(
                Permission::RollbackTransaction,
            ).insert(Permission::ViewStats).insert(Permission::ViewHealth),
            r.wf(),
    {
        let mut permissions: Vec<Permission> = Vec::new();
        permissions.push(Permission::Read);
        permissions.push(Permission::Write);
        permissions.push(Permission::BeginTransaction);
        permissions.push(Permission::CommitTransaction);
        permissions.push(Permission::RollbackTransaction);
        permissions.push(Permission::ViewStats);
        permissions.push(Permission::ViewHealth);
        let r = PermissionSet { permissions };
        proof {
            assert(r.permissions@.to_set() =~= Set::<Permission>::empty().insert(
                Permission::Read,
            ).insert(Permission::Write).insert(Permission::BeginTransaction).insert(
                Permission::CommitTransaction,
            ).insert(Permission::RollbackTransaction).insert(Permission::ViewStats).insert(
                Permission::ViewHealth,
            ));
        }
        r
    }

    /// Whether the held permissions grant `required`, directly or through an
    /// implication.
    pub fn has_permission(&self, required: &Permission) -> (r: bool)
        ensures
            r == spec_grants(self@, *required),
    {
        let mut i: usize = 0;
        while i < self.permissions.len()
            invariant
                0 <= i <= self.permissions@.len(),
                forall|j: int|
                    0 <= j < i ==> !spec_implies(self.permissions@[j], *required),
            decreases self.permissions@.len() - i,
        {
            if self.permissions[i].implies(required) {
                assert(self@.contains(self.permissions@[i as int]));
                return true;
            }
            i += 1;
        }
        assert forall|p: Permission| self@.contains(p) implies !spec_implies(p, *required) by {
            let j = choose|j: int|
                0 <= j < self.permissions@.len() && self.permissions@[j] == p;
        }
        false
    }

    /// Adds a permission; a permission already held is not duplicated.
    pub fn add_permission(&mut self, permission: Permission)
        requires
            old(self).wf(),
        ensures
            final(self)@ == old(self)@.insert(permission),
            final(self).wf(),
    {
        let mut i: usize = 0;
        while i < self.permissions.len()
            invariant
                0 <= i <= self.permissions@.len(),
                forall|j: int| 0 <= j < i ==> self.permissions@[j] != permission,
                *self == *old(self),
                old(self).wf(),
            decreases self.permissions@.len() - i,
        {
            if self.permissions[i] == permission {
                proof {
                    assert(self@.contains(permission));
                    assert(self@ =~= self@.insert(permission));
                }
                return;
            }
            i += 1;
        }
        let ghost prev = self.permissions@;
        self.permissions.push(permission);
        proof {
            assert(self.permissions@.to_set() =~= prev.to_set().insert(permission));
        }
    }

    /// Removes a permission if held.
    pub fn remove_permission(&mut self, permission: &Permission)
        requires
            old(self).wf(),
        ensures
            final(self)@ == old(self)@.remove(*permission),
            final(self).wf(),
    {
        let mut out: Vec<Permission> = Vec::new();
        let mut i: usize = 0;
        while i < self.permissions.len()
            invariant
                0 <= i <= self.permissions@.len(),
                old(self).wf(),
                self.permissions@ == old(self).permissions@,
                out@ == self.permissions@.take(i as int).filter(|p: Permission| p != *permission),
            decreases self.permissions@.len() - i,
        {
            let p = self.permissions[i];
            proof {
                assert(self.permissions@.take(i as int + 1).drop_last() =~= self.permissions@.take(
                    i as int,
                ));
                reveal(Seq::filter);
            }
            if !(p == *permission) {
                out.push(p);
            }
            i += 1;
        }
        proof {
            assert(self.permissions@.take(self.permissions@.len() as int) =~= self.permissions@);
        }
        let ghost prev = self.permissions@;
        self.permissions = out;
        proof {
            let filtered = prev.filter(|p: Permission| p != *permission);
            assert forall|i: int, j: int| 0 <= i < j < filtered.len() implies filtered[i]
                != filtered[j] by {
                lemma_filter_keeps_distinct(prev, |p: Permission| p != *permission);
            }
            assert(filtered.to_set() =~= prev.to_set().remove(*permission)) by {
                assert forall|p: Permission| filtered.to_set().contains(p) implies prev.to_set()
                    .remove(*permission).contains(p) by {
                    lemma_filter_membership(prev, |q: Permission| q != *permission, p);
                }
                assert forall|p: Permission| prev.to_set().remove(*permission).contains(p)
                    implies filtered.to_set().contains(p) by {
                    lemma_filter_membership(prev, |q: Permission| q != *permission, p);
                }
            }
        }
    }

    /// The held permissions, one copy each, as a vector.
    pub fn get_permissions(&self) -> (r: Vec<Permission>)
        requires
            self.wf(),
        ensures
            r@.to_set() == self@,
            forall|i: int, j: int| 0 <= i < j < r@.len() ==> r@[i] != r@[j],
    {
        let mut r: Vec<Permission> = Vec::new();
        let mut i: usize = 0;
        while i < self.permissions.len()
            invariant
                0 <= i <= self.permissions@.len(),
                r@ == self.permissions@.take(i as int),
            decreases self.permissions@.len() - i,
        {
            r.push(self.permissions[i]);
            assert(self.permissions@.take(i as int).push(self.permissions@[i as int])
                =~= self.permissions@.take(i as int + 1));
            i += 1;
        }
        proof {
            assert(self.permissions@.take(self.permissions@.len() as int) =~= self.permissions@);
        }
        r
    }

    /// Whether exactly this permission is held, with no implication applied.
    pub fn contains(&self, permission: &Permission) -> (r: bool)
        ensures
            r == self@.contains(*permission),
    {
        let mut i: usize = 0;
        while i < self.permissions.len()
            invariant
                0 <= i <= self.permissions@.len(),
                forall|j: int| 0 <= j < i ==> self.permissions@[j] != *permission,
            decreases self.permissions@.len() - i,
        {
            if self.permissions[i] == *permission {
                assert(self.permissions@[i as int] == *permission);
                return true;
            }
            i += 1;
        }
        proof {
            if self@.contains(*permission) {
                let w = choose|w: int|
                    0 <= w < self.permissions@.len() && self.permissions@[w] == *permission;
            }
        }
        false
    }

    /// Whether no permission is held.
    pub fn is_empty(&self) -> (r: bool)
        ensures
            r == (self@ == Set::<Permission>::empty()),
    {
        let r = self.permissions.len() == 0;
        proof {
            if self.permissions@.len() == 0 {
                assert(self@ =~= Set::<Permission>::empty());
            } else {
                assert(self@.contains(self.permissions@[0]));
            }
        }
        r
    }

    /// Adds every permission of `other`.
    pub fn merge(&mut self, other: &PermissionSet)
        requires
            old(self).wf(),
        ensures
            final(self)@ == old(self)@.union(other@),
            final(self).wf(),
    {
        let mut i: usize = 0;
        while i < other.permissions.len()
            invariant
                0 <= i <= other.permissions@.len(),
                self.wf(),
                self@ == old(self)@.union(other.permissions@.take(i as int).to_set()),
            decreases other.permissions@.len() - i,
        {
            self.add_permission(other.permissions[i]);
            proof {
                assert(other.permissions@.take(i as int).push(other.permissions@[i as int])
                    =~= other.permissions@.take(i as int + 1));
                assert(old(self)@.union(other.permissions@.take(i as int).to_set()).insert(
                    other.permissions@[i as int],
                ) =~= old(self)@.union(other.permissions@.take(i as int + 1).to_set()));
            }
            i += 1;
        }
        proof {
            assert(other.permissions@.take(other.permissions@.len() as int)
                =~= other.permissions@);
            assert(other.permissions@.to_set() =~= other@);
        }
    }
}

/// A recorded change to the permission state, kept as an audit trail.
#[derive(Clone, Debug)]
pub enum PermissionOperation {
    Grant {
        target_user: String,
        permission: Permission,
        granted_by: String,
        block_index: u64,
        timestamp: u64,
    },
    Revoke {
        target_user: String,
        permission: Permission,
        revoked_by: String,
        block_index: u64,
        timestamp: u64,
    },
    CreateRole {
        role_name: String,
        permissions: Vec<Permission>,
        created_by: String,
        block_index: u64,
        timestamp: u64,
    },
    AssignRole {
        target_user: String,
        role_name: String,
        assigned_by: String,
        block_index: u64,
        timestamp: u64,
    },
}

/// The block index carried by a permission operation.
pub open spec fn spec_op_block_index(op: PermissionOperation) -> u64 {
    match op {
        PermissionOperation::Grant { block_index, .. } => block_index,
        PermissionOperation::Revoke { block_index, .. } => block_index,
        PermissionOperation::CreateRole { block_index, .. } => block_index,
        PermissionOperation::AssignRole { block_index, .. } => block_index,
    }
}

/// The timestamp carried by a permission operation.
pub open spec fn spec_op_timestamp(op: PermissionOperation) -> u64 {
    match op {
        PermissionOperation::Grant { timestamp, .. } => timestamp,
        PermissionOperation::Revoke { timestamp, .. } => timestamp,
        PermissionOperation::CreateRole { timestamp, .. } => timestamp,
        PermissionOperation::AssignRole { timestamp, .. } => timestamp,
    }
}

/// The user who performed a permission operation.
pub open spec fn spec_op_operator(op: PermissionOperation) -> Seq<char> {
    match op {
        PermissionOperation::Grant { granted_by, .. } => granted_by@,
        PermissionOperation::Revoke { revoked_by, .. } => revoked_by@,
        PermissionOperation::CreateRole { created_by, .. } => created_by@,
        PermissionOperation::AssignRole { assigned_by, .. } => assigned_by@,
    }
}

impl PermissionOperation {
    /// The block index at which the operation was recorded.
    pub fn get_block_index(&self) -> (r: u64)
        ensures
            r == spec_op_block_index(*self),
    {
        match self {
            PermissionOperation::Grant { block_index, .. } => *block_index,
            PermissionOperation::Revoke { block_index, .. } => *block_index,
            PermissionOperation::CreateRole { block_index, .. } => *block_index,
            PermissionOperation::AssignRole { block_index, .. } => *block_index,
        }
    }

    /// The time at which the operation was recorded.
    pub fn get_timestamp(&self) -> (r: u64)
        ensures
            r == spec_op_timestamp(*self),
    {
        match self {
            PermissionOperation::Grant { timestamp, .. } => *timestamp,
            PermissionOperation::Revoke { timestamp, .. } => *timestamp,
            PermissionOperation::CreateRole { timestamp, .. } => *timestamp,
            PermissionOperation::AssignRole { timestamp, .. } => *timestamp,
        }
    }

    /// The user who performed the operation.
    pub fn get_operator(&self) -> (r: &String)
        ensures
            r@ == spec_op_operator(*self),
    {
        match self {
            PermissionOperation::Grant { granted_by, .. } => granted_by,
            PermissionOperation::Revoke { revoked_by, .. } => revoked_by,
            PermissionOperation::CreateRole { created_by, .. } => created_by,
            PermissionOperation::AssignRole { assigned_by, .. } => assigned_by,
        }
    }
}

/// A side condition attached to a temporal permission.
#[derive(Clone, Debug)]
pub enum AccessCondition {
    TimeRange { start: u64, end: u64 },
    MaxOperations { limit: u64, current: u64 },
    IPWhitelist { allowed_ips: Vec<String> },
    RequireAdditionalAuth,
}

/// The circumstances under which an access is attempted.
#[derive(Clone, Debug)]
pub struct AccessContext {
    pub timestamp: u64,
    pub client_ip: Option<String>,
    pub additional_auth_verified: bool,
    pub operation_count: u64,
}

/// Whether one access condition is met in the given context.
pub open spec fn spec_condition_met(c: AccessCondition, ctx: AccessContext) -> bool {
    match c {
        AccessCondition::TimeRange { start, end } => start <= ctx.timestamp <= end,
        AccessCondition::MaxOperations { limit, current } => current < limit,
        AccessCondition::IPWhitelist { allowed_ips } => match ctx.client_ip {
            Some(ip) => exists|i: int| 0 <= i < allowed_ips@.len() && allowed_ips@[i]@ == ip@,
            None => false,
        },
        AccessCondition::RequireAdditionalAuth => ctx.additional_auth_verified,
    }
}

/// A permission that holds only within a time window and under conditions.
#[derive(Clone, Debug)]
pub struct TemporalPermission {
    pub permission: Permission,
    pub valid_from: u64,
    pub valid_until: u64,
    pub conditions: Vec<AccessCondition>,
}

impl TemporalPermission {
    /// Whether the permission's window covers the given time.
    pub fn is_valid(&self, current_time: u64) -> (r: bool)
        ensures
            r == (self.valid_from <= current_time <= self.valid_until),
    {
        current_time >= self.valid_from && current_time <= self.valid_until
    }

    /// Whether every attached condition is met in the given context.
    pub fn check_conditions(&self, context: &AccessContext) -> (r: bool)
        ensures
            r == forall|i: int|
                0 <= i < self.conditions@.len() ==> spec_condition_met(
                    #[trigger] self.conditions@[i],
                    *context,
                ),
    {
        let mut i: usize = 0;
        while i < self.conditions.len()
            invariant
                0 <= i <= self.conditions@.len(),
                forall|j: int|
                    0 <= j < i ==> spec_condition_met(#[trigger] self.conditions@[j], *context),
            decreases self.conditions@.len() - i,
    {
            let met = match &self.conditions[i] {
                AccessCondition::TimeRange { start, end } => {
                    context.timestamp >= *start && context.timestamp <= *end
                },
                AccessCondition::MaxOperations { limit, current } => *current < *limit,
                AccessCondition::IPWhitelist { allowed_ips } => {
                    match &context.client_ip {
                        Some(ip) => contains_string(allowed_ips, ip),
                        None => false,
                    }
                },
                AccessCondition::RequireAdditionalAuth => context.additional_auth_verified,
            };
            if !met {
                assert(!spec_condition_met(self.conditions@[i as int], *context));
                return false;
            }
            assert(spec_condition_met(self.conditions@[i as int], *context));
            i += 1;
        }
        true
    }
}

/// Whether a vector of strings holds one with the given characters.
pub fn contains_string(v: &Vec<String>, x: &String) -> (r: bool)
    ensures
        r == exists|i: int| 0 <= i < v@.len() && v@[i]@ == x@,
{
    let mut i: usize = 0;
    while i < v.len()
        invariant
            0 <= i <= v@.len(),
            forall|j: int| 0 <= j < i ==> v@[j]@ != x@,
        decreases v@.len() - i,
    {
        if v[i].eq(x) {
            return true;
        }
        i += 1;
    }
    false
}

/// A filtered sequence keeps only elements satisfying the predicate, and a
/// sequence of distinct elements stays distinct.
proof fn lemma_filter_keeps_distinct(s: Seq<Permission>, pred: spec_fn(Permission) -> bool)
    requires
        forall|i: int, j: int| 0 <= i < j < s.len() ==> s[i] != s[j],
    ensures
        forall|i: int, j: int|
            0 <= i < j < s.filter(pred).len() ==> s.filter(pred)[i] != s.filter(pred)[j],
    decreases s.len(),
{
    reveal(Seq::filter);
    if s.len() > 0 {
        let last = s.last();
        let prefix = s.drop_last();
        lemma_filter_keeps_distinct(prefix, pred);
        if pred(last) {
            let f = prefix.filter(pred);
            assert forall|i: int| 0 <= i < f.len() implies f[i] != last by {
                lemma_filter_membership(prefix, pred, f[i]);
                assert(prefix.to_set().contains(f[i]));
                let j = choose|j: int| 0 <= j < prefix.len() && prefix[j] == f[i];
            }
        }
    }
}

/// Membership in a filtered sequence: an element appears there iff it appears
/// in the original and satisfies the predicate.
proof fn lemma_filter_membership(s: Seq<Permission>, pred: spec_fn(Permission) -> bool, x: Permission)
    ensures
        s.filter(pred).contains(x) <==> (s.contains(x) && pred(x)),
    decreases s.len(),
{
    reveal(Seq::filter);
    if s.len() > 0 {
        lemma_filter_membership(s.drop_last(), pred, x);
        if s.last() == x {
        } else {
            assert(s.contains(x) ==> s.drop_last().contains(x)) by {
                if s.contains(x) {
                    let i = choose|i: int| 0 <= i < s.len() && s[i] == x;
                    if i < s.len() - 1 {
                        assert(s.drop_last()[i] == x);
                    }
                }
            }
            if s.drop_last().filter(pred).contains(x) {
                assert(s.drop_last().contains(x));
                let i = choose|i: int| 0 <= i < s.drop_last().len() && s.drop_last()[i] == x;
                assert(s[i] == x);
            }
            if pred(s.last()) {
                if s.filter(pred).contains(x) {
                    let i = choose|i: int| 0 <= i < s.filter(pred).len() && s.filter(pred)[i] == x;
                    if i < s.filter(pred).len() - 1 {
                        assert(s.drop_last().filter(pred)[i] == x);
                        assert(s.drop_last().filter(pred).contains(x));
                    }
                }
            }
        }
    }
}

} // verus!
