use vstd::prelude::*;

use crate::auth::AuthError;
use crate::auth::CryptoUtils;
use crate::auth::KeyPair;
use crate::auth::spec_password_hash;
use crate::crypto::now_secs;
use crate::crypto::sha256;
use crate::crypto::sha256_of;
use crate::permissions::Permission;
use crate::permissions::PermissionSet;
use crate::transaction::Operation;
use crate::util::bytes_eq;
use crate::util::extend_bytes;

verus! {

broadcast use vstd::seq_lib::group_seq_properties;

/// Whether an identity may act: active, revoked for good, or suspended
/// (possibly until a given time).
#[derive(Clone, Debug)]
pub enum RevocationStatus {
    Active,
    Revoked { revoked_at: u64, revoked_by: String, reason: String, block_index: u64 },
    Suspended {
        suspended_at: u64,
        suspended_by: String,
        reason: String,
        until: Option<u64>,
        block_index: u64,
    },
}

/// Bookkeeping carried by an identity.
#[derive(Clone, Debug)]
pub struct IdentityMetadata {
    pub display_name: Option<String>,
    pub email: Option<String>,
    pub created_by: Option<String>,
    pub last_login: Option<u64>,
    pub login_count: u64,
    pub failed_login_attempts: u64,
    pub last_failed_login: Option<u64>,
    pub password_hash: Option<Vec<u8>>,
    pub password_salt: Option<Vec<u8>>,
}

impl Default for IdentityMetadata {
    /// Empty bookkeeping: no logins, no password.
    fn default() -> (r: Self)
        ensures
            r.created_by is None,
            r.last_login is None,
            r.login_count == 0,
            r.failed_login_attempts == 0,
            r.last_failed_login is None,
            r.password_hash is None,
            r.password_salt is None,
    {
        IdentityMetadata {
            display_name: None,
            email: None,
            created_by: None,
            last_login: None,
            login_count: 0,
            failed_login_attempts: 0,
            last_failed_login: None,
            password_hash: None,
            password_salt: None,
        }
    }
}

/// The byte tag of one permission, used in the canonical permission
/// encoding.
pub open spec fn spec_perm_tag(p: Permission) -> Seq<u8> {
    match p {
        Permission::Read => seq![1u8],
        Permission::Write => seq![2u8],
        Permission::Delete => seq![3u8],
        Permission::BeginTransaction => seq![4u8],
        Permission::CommitTransaction => seq![5u8],
        Permission::RollbackTransaction => seq![6u8],
        Permission::CreateUser => seq![7u8],
        Permission::ModifyUser => seq![8u8],
        Permission::DeleteUser => seq![9u8],
        Permission::GrantPermission => seq![10u8],
        Permission::RevokePermission => seq![11u8],
        Permission::ViewStats => seq![12u8],
        Permission::ViewHealth => seq![13u8],
        Permission::ViewClusterStatus => seq![14u8],
        Permission::ModifyClusterConfig => seq![15u8],
        Permission::ViewBlockchain => seq![16u8],
        Permission::VerifyIntegrity => seq![17u8],
        Permission::Admin => seq![18u8],
    }
}

/// The permissions in their fixed canonical order.
pub open spec fn spec_all_permissions() -> Seq<Permission> {
    seq![
        Permission::Read,
        Permission::Write,
        Permission::Delete,
        Permission::BeginTransaction,
        Permission::CommitTransaction,
        Permission::RollbackTransaction,
        Permission::CreateUser,
        Permission::ModifyUser,
        Permission::DeleteUser,
        Permission::GrantPermission,
        Permission::RevokePermission,
        Permission::ViewStats,
        Permission::ViewHealth,
        Permission::ViewClusterStatus,
        Permission::ModifyClusterConfig,
        Permission::ViewBlockchain,
        Permission::VerifyIntegrity,
        Permission::Admin,
    ]
}

/// The canonical byte encoding of a permission set: the tags of its members,
/// in the fixed order.
pub open spec fn spec_perm_encoding(held: Set<Permission>, upto: int) -> Seq<u8>
    decreases upto,
{
    if upto <= 0 {
        Seq::empty()
    } else {
        spec_perm_encoding(held, upto - 1) + (if held.contains(spec_all_permissions()[upto - 1]) {
            spec_perm_tag(spec_all_permissions()[upto - 1])
        } else {
            Seq::empty()
        })
    }
}

/// The bytes of an optional byte vector.
pub open spec fn opt_bytes_view(o: Option<Vec<u8>>) -> Option<Seq<u8>> {
    match o {
        Some(v) => Some(v@),
        None => None,
    }
}

/// Whether two identities carry the same content, field for field.
pub open spec fn identity_equiv(a: CryptoIdentity, b: CryptoIdentity) -> bool {
    &&& a.user_id == b.user_id
    &&& a.public_key@ == b.public_key@
    &&& a.creation_block == b.creation_block
    &&& a.creation_timestamp == b.creation_timestamp
    &&& a.permissions_merkle_root@ == b.permissions_merkle_root@
    &&& a.revocation_status == b.revocation_status
    &&& a.metadata.display_name == b.metadata.display_name
    &&& a.metadata.email == b.metadata.email
    &&& a.metadata.created_by == b.metadata.created_by
    &&& a.metadata.last_login == b.metadata.last_login
    &&& a.metadata.login_count == b.metadata.login_count
    &&& a.metadata.failed_login_attempts == b.metadata.failed_login_attempts
    &&& a.metadata.last_failed_login == b.metadata.last_failed_login
    &&& opt_bytes_view(a.metadata.password_hash) == opt_bytes_view(b.metadata.password_hash)
    &&& opt_bytes_view(a.metadata.password_salt) == opt_bytes_view(b.metadata.password_salt)
}

/// A user's on-ledger identity: the public key, the creation coordinates, a
/// permissions digest, the revocation state and bookkeeping.
#[derive(Clone, Debug)]
pub struct CryptoIdentity {
    pub user_id: String,
    pub public_key: Vec<u8>,
    pub creation_block: u64,
    pub creation_timestamp: u64,
    pub permissions_merkle_root: Vec<u8>,
    pub revocation_status: RevocationStatus,
    pub metadata: IdentityMetadata,
}

/// The bytes an identity's hash is computed over: the user's UTF-8 name,
/// the public key, the little-endian creation block and timestamp, and the
/// permissions digest.
pub open spec fn spec_identity_hash_input(id: CryptoIdentity) -> Seq<u8> {
    vstd::utf8::encode_utf8(id.user_id@) + id.public_key@ + vstd::bytes::spec_u64_to_le_bytes(
        id.creation_block,
    ) + vstd::bytes::spec_u64_to_le_bytes(id.creation_timestamp) + id.permissions_merkle_root@
}

/// An identity's hash.
pub open spec fn spec_identity_hash(id: CryptoIdentity) -> Seq<u8> {
    sha256_of(spec_identity_hash_input(id))
}

impl CryptoIdentity {
    /// A fresh active identity, stamped with the current clock time.
    pub fn new(user_id: String, public_key: Vec<u8>, creation_block: u64, created_by: Option<
        String,
    >) -> (r: CryptoIdentity)
        ensures
            r.user_id@ == user_id@,
            r.public_key@ == public_key@,
            r.creation_block == creation_block,
            r.permissions_merkle_root@.len() == 0,
            r.revocation_status is Active,
            r.metadata.created_by == created_by,
            r.metadata.login_count == 0,
            r.metadata.failed_login_attempts == 0,
            r.metadata.password_hash is None,
            r.metadata.password_salt is None,
    {
        let creation_timestamp = now_secs();
        let mut metadata = IdentityMetadata::default();
        metadata.created_by = created_by;
        CryptoIdentity {
            user_id,
            public_key,
            creation_block,
            creation_timestamp,
            permissions_merkle_root: Vec::new(),
            revocation_status: RevocationStatus::Active,
            metadata,
        }
    }

    /// A fresh identity with a password: generates a key pair and a random
    /// salt, and stores the salted password hash.
    pub fn create_with_password(
        user_id: String,
        password: &str,
        creation_block: u64,
        created_by: Option<String>,
    ) -> (r: Result<(CryptoIdentity, KeyPair), AuthError>)
        ensures
            r is Ok,
            r matches Ok(pair) ==> {
                &&& pair.0.user_id@ == user_id@
                &&& pair.0.revocation_status is Active
                &&& pair.0.metadata.failed_login_attempts == 0
                &&& (pair.0.metadata.password_hash matches Some(h) && (
                pair.0.metadata.password_salt matches Some(s) && h@ == spec_password_hash(
                    password@,
                    s@,
                )))
                &&& pair.1.public_key@.len() == 32
                &&& pair.1.private_key@.len() == 32
                &&& pair.0.public_key@ == pair.1.public_key@
            },
    {
        let keypair = match KeyPair::generate() {
            Ok(kp) => kp,
            Err(e) => {
                proof {
                    assert(false);
                }
                return Err(e);
            },
        };
        let salt = CryptoUtils::generate_salt();
        let password_hash = CryptoUtils::hash_password(password, salt.as_slice());
        let mut identity = CryptoIdentity::new(
            user_id,
            keypair.public_key.clone(),
            creation_block,
            created_by,
        );
        proof {
            assert(identity.public_key@ =~= keypair.public_key@);
        }
        identity.metadata.password_hash = Some(password_hash);
        identity.metadata.password_salt = Some(salt);
        Ok((identity, keypair))
    }

    /// Whether the password matches the stored salted hash; an identity
    /// without a password matches nothing.
    pub fn verify_password(&self, password: &str) -> (r: Result<bool, AuthError>)
        ensures
            r is Ok,
            r matches Ok(b) ==> b == match (
                self.metadata.password_hash,
                self.metadata.password_salt,
            ) {
                (Some(h), Some(s)) => h@ == spec_password_hash(password@, s@),
                _ => false,
            },
    {
        match (&self.metadata.password_hash, &self.metadata.password_salt) {
            (Some(hash), Some(salt)) => {
                let computed = CryptoUtils::hash_password(password, salt.as_slice());
                Ok(bytes_eq(computed.as_slice(), hash.as_slice()))
            },
            _ => Ok(false),
        }
    }

    /// Whether the identity is active.
    pub fn is_active(&self) -> (r: bool)
        ensures
            r == (self.revocation_status is Active),
    {
        matches!(self.revocation_status, RevocationStatus::Active)
    }

    /// Whether the identity is revoked.
    pub fn is_revoked(&self) -> (r: bool)
        ensures
            r == (self.revocation_status is Revoked),
    {
        matches!(self.revocation_status, RevocationStatus::Revoked { .. })
    }

    /// Whether a suspension currently applies at `now`: an open-ended one
    /// always, a bounded one until its end.
    pub fn is_suspended_at(&self, now: u64) -> (r: bool)
        ensures
            r == match self.revocation_status {
                RevocationStatus::Suspended { until, .. } => match until {
                    Some(t) => now < t,
                    None => true,
                },
                _ => false,
            },
    {
        match &self.revocation_status {
            RevocationStatus::Suspended { until, .. } => match until {
                Some(t) => now < *t,
                None => true,
            },
            _ => false,
        }
    }

    /// Whether a suspension currently applies, by the clock.
    pub fn is_suspended(&self) -> (r: bool)
        ensures
            !(self.revocation_status is Suspended) ==> r == false,
            (self.revocation_status matches RevocationStatus::Suspended { until: None, .. })
                ==> r == true,
    {
        let now = now_secs();
        self.is_suspended_at(now)
    }

    /// Revokes the identity, stamped with the current clock time.
    pub fn revoke(&mut self, revoked_by: String, reason: String, block_index: u64)
        ensures
            final(self).revocation_status matches RevocationStatus::Revoked {
                revoked_by: b,
                reason: rs,
                block_index: bi,
                ..
            } && b@ == revoked_by@ && rs@ == reason@ && bi == block_index,
            final(self).user_id == old(self).user_id,
            final(self).public_key == old(self).public_key,
            final(self).metadata == old(self).metadata,
    {
        let revoked_at = now_secs();
        self.revocation_status = RevocationStatus::Revoked {
            revoked_at,
            revoked_by,
            reason,
            block_index,
        };
    }

    /// Suspends the identity, stamped with the current clock time.
    pub fn suspend(&mut self, suspended_by: String, reason: String, until: Option<u64>, block_index: u64)
        ensures
            final(self).revocation_status matches RevocationStatus::Suspended {
                suspended_by: b,
                until: u,
                block_index: bi,
                ..
            } && b@ == suspended_by@ && u == until && bi == block_index,
            final(self).user_id == old(self).user_id,
            final(self).metadata == old(self).metadata,
    {
        let suspended_at = now_secs();
        self.revocation_status = RevocationStatus::Suspended {
            suspended_at,
            suspended_by,
            reason,
            until,
            block_index,
        };
    }

    /// Reactivates the identity.
    pub fn reactivate(&mut self)
        ensures
            final(self).revocation_status is Active,
            final(self).user_id == old(self).user_id,
            final(self).metadata == old(self).metadata,
    {
        self.revocation_status = RevocationStatus::Active;
    }

    /// Records a successful login: the failure count resets.
    pub fn record_login_success(&mut self)
        ensures
            final(self).metadata.failed_login_attempts == 0,
            final(self).metadata.login_count == if old(self).metadata.login_count < u64::MAX {
                old(self).metadata.login_count + 1
            } else {
                u64::MAX as int
            },
            final(self).metadata.last_login is Some,
            final(self).user_id == old(self).user_id,
            final(self).revocation_status == old(self).revocation_status,
            final(self).metadata.password_hash == old(self).metadata.password_hash,
            final(self).metadata.password_salt == old(self).metadata.password_salt,
    {
        let now = now_secs();
        self.metadata.last_login = Some(now);
        if self.metadata.login_count < u64::MAX {
            self.metadata.login_count = self.metadata.login_count + 1;
        }
        self.metadata.failed_login_attempts = 0;
    }

    /// Records a failed login: the failure count grows.
    pub fn record_login_failure(&mut self)
        ensures
            final(self).metadata.failed_login_attempts == if old(
                self,
            ).metadata.failed_login_attempts < u64::MAX {
                old(self).metadata.failed_login_attempts + 1
            } else {
                u64::MAX as int
            },
            final(self).metadata.last_failed_login is Some,
            final(self).user_id == old(self).user_id,
            final(self).revocation_status == old(self).revocation_status,
            final(self).metadata.password_hash == old(self).metadata.password_hash,
            final(self).metadata.password_salt == old(self).metadata.password_salt,
            final(self).metadata.login_count == old(self).metadata.login_count,
    {
        let now = now_secs();
        if self.metadata.failed_login_attempts < u64::MAX {
            self.metadata.failed_login_attempts = self.metadata.failed_login_attempts + 1;
        }
        self.metadata.last_failed_login = Some(now);
    }

    /// Whether the account has reached the failed-attempt limit.
    pub fn should_lock_account(&self, max_failed_attempts: u64) -> (r: bool)
        ensures
            r == (self.metadata.failed_login_attempts >= max_failed_attempts),
    {
        self.metadata.failed_login_attempts >= max_failed_attempts
    }

    /// Signs an operation bound to a user, nonce and timestamp under a
    /// 32-byte secret key.
    pub fn sign_operation(
        operation: &Operation,
        user_id: &str,
        nonce: u64,
        timestamp: u64,
        private_key: &Vec<u8>,
    ) -> (r: Result<Vec<u8>, AuthError>)
        ensures
            r is Ok <==> private_key@.len() == 32,
            r matches Ok(sig) ==> sig@ == crate::crypto::ed25519_sign_of(
                crate::auth::spec_operation_hash(*operation, user_id@, nonce, timestamp),
                private_key@,
            ) && sig@.len() == 64,
    {
        let operation_hash = CryptoUtils::create_operation_hash(
            operation,
            user_id,
            nonce,
            timestamp,
        );
        CryptoUtils::sign_data(operation_hash.as_slice(), private_key)
    }

    /// Verifies an operation signature under a 32-byte public key.
    pub fn verify_operation_signature(
        operation: &Operation,
        user_id: &str,
        nonce: u64,
        timestamp: u64,
        signature: &[u8],
        public_key: &Vec<u8>,
    ) -> (r: Result<bool, AuthError>)
        ensures
            public_key@.len() != 32 || signature@.len() != 64 ==> r is Err,
            r matches Ok(b) ==> b == crate::crypto::ed25519_verifies(
                crate::auth::spec_operation_hash(*operation, user_id@, nonce, timestamp),
                signature@,
                public_key@,
            ),
    {
        let operation_hash = CryptoUtils::create_operation_hash(
            operation,
            user_id,
            nonce,
            timestamp,
        );
        let mut sig: Vec<u8> = Vec::new();
        extend_bytes(&mut sig, signature);
        proof {
            assert(sig@ =~= signature@);
        }
        CryptoUtils::verify_signature(operation_hash.as_slice(), sig.as_slice(), public_key)
    }

    /// The identity's hash, binding its name, key, creation coordinates and
    /// permissions digest.
    pub fn compute_identity_hash(&self) -> (r: Vec<u8>)
        ensures
            r@ == spec_identity_hash(*self),
            r@.len() == 32,
    {
        let mut data: Vec<u8> = Vec::new();
        extend_bytes(&mut data, self.user_id.as_str().as_bytes());
        extend_bytes(&mut data, self.public_key.as_slice());
        let cb = vstd::bytes::u64_to_le_bytes(self.creation_block);
        extend_bytes(&mut data, cb.as_slice());
        let ct = vstd::bytes::u64_to_le_bytes(self.creation_timestamp);
        extend_bytes(&mut data, ct.as_slice());
        extend_bytes(&mut data, self.permissions_merkle_root.as_slice());
        proof {
            assert(data@ =~= spec_identity_hash_input(*self));
        }
        sha256(data.as_slice())
    }

    /// Recomputes the permissions digest: the hash of the canonical byte
    /// encoding of the permission set.
    pub fn update_permissions_merkle_root(&mut self, permissions: &PermissionSet)
        ensures
            final(self).permissions_merkle_root@ == sha256_of(
                spec_perm_encoding(permissions@, 18),
            ),
            final(self).user_id == old(self).user_id,
            final(self).public_key == old(self).public_key,
            final(self).metadata == old(self).metadata,
            final(self).revocation_status == old(self).revocation_status,
    {
        let all: [Permission; 18] = [
            Permission::Read,
            Permission::Write,
            Permission::Delete,
            Permission::BeginTransaction,
            Permission::CommitTransaction,
            Permission::RollbackTransaction,
            Permission::CreateUser,
            Permission::ModifyUser,
            Permission::DeleteUser,
            Permission::GrantPermission,
            Permission::RevokePermission,
            Permission::ViewStats,
            Permission::ViewHealth,
            Permission::ViewClusterStatus,
            Permission::ModifyClusterConfig,
            Permission::ViewBlockchain,
            Permission::VerifyIntegrity,
            Permission::Admin,
        ];
        let mut data: Vec<u8> = Vec::new();
        let mut i: usize = 0;
        proof {
            assert(all@ =~= spec_all_permissions());
        }
        while i < 18
            invariant
                all@ == spec_all_permissions(),
                0 <= i <= 18,
                data@ == spec_perm_encoding(permissions@, i as int),
            decreases 18 - i,
        {
            if permissions.contains(&all[i]) {
                let tag: u8 = match all[i] {
                    Permission::Read => 1u8,
                    Permission::Write => 2u8,
                    Permission::Delete => 3u8,
                    Permission::BeginTransaction => 4u8,
                    Permission::CommitTransaction => 5u8,
                    Permission::RollbackTransaction => 6u8,
                    Permission::CreateUser => 7u8,
                    Permission::ModifyUser => 8u8,
                    Permission::DeleteUser => 9u8,
                    Permission::GrantPermission => 10u8,
                    Permission::RevokePermission => 11u8,
                    Permission::ViewStats => 12u8,
                    Permission::ViewHealth => 13u8,
                    Permission::ViewClusterStatus => 14u8,
                    Permission::ModifyClusterConfig => 15u8,
                    Permission::ViewBlockchain => 16u8,
                    Permission::VerifyIntegrity => 17u8,
                    Permission::Admin => 18u8,
                };
                data.push(tag);
                proof {
                    assert(seq![tag] =~= spec_perm_tag(all@[i as int]));
                    assert(data@ =~= spec_perm_encoding(permissions@, i as int) + spec_perm_tag(
                        all@[i as int],
                    ));
                }
            } else {
                proof {
                    assert(data@ =~= spec_perm_encoding(permissions@, i as int) + Seq::<
                        u8,
                    >::empty());
                }
            }
            i += 1;
        }
        self.permissions_merkle_root = sha256(data.as_slice());
    }

    /// A copy of the identity.
    pub fn duplicate(&self) -> (r: CryptoIdentity)
        ensures
            identity_equiv(r, *self),
    {
        let metadata = IdentityMetadata {
            display_name: duplicate_opt_string(&self.metadata.display_name),
            email: duplicate_opt_string(&self.metadata.email),
            created_by: duplicate_opt_string(&self.metadata.created_by),
            last_login: self.metadata.last_login,
            login_count: self.metadata.login_count,
            failed_login_attempts: self.metadata.failed_login_attempts,
            last_failed_login: self.metadata.last_failed_login,
            password_hash: duplicate_opt_bytes(&self.metadata.password_hash),
            password_salt: duplicate_opt_bytes(&self.metadata.password_salt),
        };
        let revocation_status = match &self.revocation_status {
            RevocationStatus::Active => RevocationStatus::Active,
            RevocationStatus::Revoked { revoked_at, revoked_by, reason, block_index } => {
                RevocationStatus::Revoked {
                    revoked_at: *revoked_at,
                    revoked_by: revoked_by.clone(),
                    reason: reason.clone(),
                    block_index: *block_index,
                }
            },
            RevocationStatus::Suspended {
                suspended_at,
                suspended_by,
                reason,
                until,
                block_index,
            } => {
                RevocationStatus::Suspended {
                    suspended_at: *suspended_at,
                    suspended_by: suspended_by.clone(),
                    reason: reason.clone(),
                    until: *until,
                    block_index: *block_index,
                }
            },
        };
        let r = CryptoIdentity {
            user_id: self.user_id.clone(),
            public_key: self.public_key.clone(),
            creation_block: self.creation_block,
            creation_timestamp: self.creation_timestamp,
            permissions_merkle_root: self.permissions_merkle_root.clone(),
            revocation_status,
            metadata,
        };
        proof {
            assert(r.public_key@ =~= self.public_key@);
            assert(r.permissions_merkle_root@ =~= self.permissions_merkle_root@);
        }
        r
    }
}

/// A copy of an optional string.
fn duplicate_opt_string(o: &Option<String>) -> (r: Option<String>)
    ensures
        r == *o,
{
    match o {
        Some(s) => Some(s.clone()),
        None => None,
    }
}

/// A copy of optional bytes.
fn duplicate_opt_bytes(o: &Option<Vec<u8>>) -> (r: Option<Vec<u8>>)
    ensures
        opt_bytes_view(r) == opt_bytes_view(*o),
{
    match o {
        Some(v) => {
            let c = v.clone();
            proof {
                assert(c@ =~= v@);
            }
            Some(c)
        },
        None => None,
    }
}

/// The hash-linked chain of identities: each link hash binds an identity's
/// hash to the previous link.
#[derive(Clone, Debug)]
pub struct IdentityChain {
    pub identities: Vec<CryptoIdentity>,
    pub identity_hash_chain: Vec<Vec<u8>>,
}

/// What `verify_chain_integrity` checks: one link per identity, the first
/// link being the first identity's hash and every later link the hash of the
/// previous link followed by the identity's hash.
pub open spec fn spec_identity_chain_valid(
    ids: Seq<CryptoIdentity>,
    links: Seq<Seq<u8>>,
) -> bool {
    &&& ids.len() == links.len()
    &&& forall|i: int|
        0 <= i < ids.len() ==> (#[trigger] links[i]) == (if i == 0 {
            spec_identity_hash(ids[0])
        } else {
            sha256_of(links[i - 1] + spec_identity_hash(ids[i]))
        })
}

impl IdentityChain {
    /// The empty chain.
    pub fn new() -> (r: Self)
        ensures
            r.identities@.len() == 0,
            r.identity_hash_chain@.len() == 0,
    {
        IdentityChain { identities: Vec::new(), identity_hash_chain: Vec::new() }
    }

    /// Appends an identity and its link hash.
    pub fn add_identity(&mut self, identity: CryptoIdentity) -> (r: Result<(), AuthError>)
        ensures
            r is Ok,
            final(self).identities@ == old(self).identities@.push(identity),
            final(self).identity_hash_chain@.len() == old(self).identity_hash_chain@.len() + 1,
            spec_identity_chain_valid(
                old(self).identities@,
                old(self).identity_hash_chain@.map(|i: int, v: Vec<u8>| v@),
            ) ==> spec_identity_chain_valid(
                final(self).identities@,
                final(self).identity_hash_chain@.map(|i: int, v: Vec<u8>| v@),
            ),
    {
        let identity_hash = identity.compute_identity_hash();
        let ghost pre_ids = self.identities@;
        let ghost pre_links = self.identity_hash_chain@.map(|i: int, v: Vec<u8>| v@);
        if self.identity_hash_chain.len() > 0 {
            let last = self.identity_hash_chain.len() - 1;
            let mut combined: Vec<u8> = Vec::new();
            extend_bytes(&mut combined, self.identity_hash_chain[last].as_slice());
            extend_bytes(&mut combined, identity_hash.as_slice());
            proof {
                assert(combined@ =~= pre_links[last as int] + spec_identity_hash(identity));
            }
            let chain_hash = sha256(combined.as_slice());
            self.identity_hash_chain.push(chain_hash);
        } else {
            self.identity_hash_chain.push(identity_hash);
        }
        self.identities.push(identity);
        proof {
            let new_links = self.identity_hash_chain@.map(|i: int, v: Vec<u8>| v@);
            assert(new_links =~= pre_links.push(new_links[new_links.len() - 1]));
            if spec_identity_chain_valid(pre_ids, pre_links) {
                assert forall|i: int| 0 <= i < self.identities@.len() implies (
                #[trigger] new_links[i]) == (if i == 0 {
                    spec_identity_hash(self.identities@[0])
                } else {
                    sha256_of(new_links[i - 1] + spec_identity_hash(self.identities@[i]))
                }) by {
                    if i < pre_ids.len() {
                        assert(new_links[i] == pre_links[i]);
                        assert(self.identities@[i] == pre_ids[i]);
                        if i > 0 {
                            assert(new_links[i - 1] == pre_links[i - 1]);
                        }
                    } else {
                        assert(self.identities@[i] == identity);
                    }
                }
            }
        }
        Ok(())
    }

    /// The first identity with the given user name.
    pub fn find_identity(&self, user_id: &String) -> (r: Option<&CryptoIdentity>)
        ensures
            r is Some <==> (exists|i: int|
                0 <= i < self.identities@.len() && (#[trigger] self.identities@[i]).user_id@
                    == user_id@),
            r matches Some(id) ==> exists|i: int|
                0 <= i < self.identities@.len() && (#[trigger] self.identities@[i]) == *id
                    && id.user_id@ == user_id@,
    {
        let mut i: usize = 0;
        while i < self.identities.len()
            invariant
                0 <= i <= self.identities@.len(),
                forall|j: int|
                    0 <= j < i ==> (#[trigger] self.identities@[j]).user_id@ != user_id@,
            decreases self.identities@.len() - i,
        {
            if self.identities[i].user_id.eq(user_id) {
                proof {
                    assert(self.identities@[i as int].user_id@ == user_id@);
                }
                return Some(&self.identities[i]);
            }
            i += 1;
        }
        None
    }

    /// Whether every link hash is the one recomputed from the identities.
    #[verifier::rlimit(100)]
    #[verifier::spinoff_prover]
    pub fn verify_chain_integrity(&self) -> (r: bool)
        ensures
            r == spec_identity_chain_valid(
                self.identities@,
                self.identity_hash_chain@.map(|i: int, v: Vec<u8>| v@),
            ),
    {
        let ghost links = self.identity_hash_chain@.map(|i: int, v: Vec<u8>| v@);
        if self.identities.len() != self.identity_hash_chain.len() {
            return false;
        }
        let mut i: usize = 0;
        while i < self.identities.len()
            invariant
                links == self.identity_hash_chain@.map(|i: int, v: Vec<u8>| v@),
                self.identities@.len() == links.len(),
                0 <= i <= self.identities@.len(),
                forall|j: int|
                    0 <= j < i ==> (#[trigger] links[j]) == (if j == 0 {
                        spec_identity_hash(self.identities@[0])
                    } else {
                        sha256_of(links[j - 1] + spec_identity_hash(self.identities@[j]))
                    }),
            decreases self.identities@.len() - i,
        {
            let computed = self.identities[i].compute_identity_hash();
            if i == 0 {
                if !bytes_eq(self.identity_hash_chain[0].as_slice(), computed.as_slice()) {
                    proof {
                        assert(links[0] != spec_identity_hash(self.identities@[0]));
                    }
                    return false;
                }
            } else {
                let mut combined: Vec<u8> = Vec::new();
                extend_bytes(&mut combined, self.identity_hash_chain[i - 1].as_slice());
                extend_bytes(&mut combined, computed.as_slice());
                proof {
                    assert(combined@ =~= links[i as int - 1] + spec_identity_hash(
                        self.identities@[i as int],
                    ));
                }
                let expected = sha256(combined.as_slice());
                if !bytes_eq(self.identity_hash_chain[i].as_slice(), expected.as_slice()) {
                    proof {
                        assert(links[i as int] != sha256_of(
                            links[i as int - 1] + spec_identity_hash(
                                self.identities@[i as int],
                            ),
                        ));
                    }
                    return false;
                }
            }
            i += 1;
        }
        true
    }

    /// The identities whose status is active, in chain order.
    pub fn get_active_identities(&self) -> (r: Vec<CryptoIdentity>)
        ensures
            r@.len() <= self.identities@.len(),
            forall|i: int| 0 <= i < r@.len() ==> (#[trigger] r@[i]).revocation_status is Active,
    {
        let mut r: Vec<CryptoIdentity> = Vec::new();
        let mut i: usize = 0;
        while i < self.identities.len()
            invariant
                0 <= i <= self.identities@.len(),
                r@.len() <= i,
                forall|j: int|
                    0 <= j < r@.len() ==> (#[trigger] r@[j]).revocation_status is Active,
            decreases self.identities@.len() - i,
        {
            if self.identities[i].is_active() {
                r.push(self.identities[i].duplicate());
            }
            i += 1;
        }
        r
    }
}

impl Default for IdentityChain {
    /// The empty chain.
    fn default() -> (r: Self)
        ensures
            r.identities@.len() == 0,
            r.identity_hash_chain@.len() == 0,
    {
        IdentityChain::new()
    }
}

} // verus!
