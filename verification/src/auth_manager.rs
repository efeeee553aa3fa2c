use vstd::prelude::*;

use crate::auth::AuthContext;
use crate::auth::AuthError;
use crate::auth::KeyPair;
use crate::crypto::ed25519_verifies;
use crate::crypto::now_secs;
use crate::identity::CryptoIdentity;
use crate::identity::IdentityChain;
use crate::identity::spec_identity_chain_valid;
use crate::permissions::Permission;
use crate::permissions::PermissionOperation;
use crate::permissions::PermissionSet;
use crate::permissions::spec_grants;
use crate::transaction::Operation;

verus! {

broadcast use vstd::seq_lib::group_seq_properties;

/// The authentication configuration.
#[derive(Clone, Debug)]
pub struct AuthConfig {
    pub enabled: bool,
    pub session_duration_hours: u64,
    pub max_failed_attempts: u64,
    pub password_min_length: usize,
    pub require_strong_passwords: bool,
    pub admin_users: Vec<String>,
    pub allow_anonymous_reads: bool,
    pub token_refresh_threshold_hours: u64,
}

impl Default for AuthConfig {
    /// The stock configuration: authentication on, day-long sessions, five
    /// failed attempts, strong eight-character passwords, and one admin
    /// account.
    fn default() -> (r: Self)
        ensures
            r.enabled == true,
            r.session_duration_hours == 24,
            r.max_failed_attempts == 5,
            r.password_min_length == 8,
            r.require_strong_passwords == true,
            r.allow_anonymous_reads == false,
            r.token_refresh_threshold_hours == 4,
            r.admin_users@.len() == 1,
    {
        let mut admin_users: Vec<String> = Vec::new();
        admin_users.push("admin".to_owned());
        AuthConfig {
            enabled: true,
            session_duration_hours: 24,
            max_failed_attempts: 5,
            password_min_length: 8,
            require_strong_passwords: true,
            admin_users,
            allow_anonymous_reads: false,
            token_refresh_threshold_hours: 4,
        }
    }
}

/// Whether a character counts as an ASCII uppercase letter.
pub open spec fn spec_is_upper(c: char) -> bool {
    'A' <= c <= 'Z'
}

/// Whether a character counts as an ASCII lowercase letter.
pub open spec fn spec_is_lower(c: char) -> bool {
    'a' <= c <= 'z'
}

/// Whether a character counts as an ASCII digit.
pub open spec fn spec_is_digit(c: char) -> bool {
    '0' <= c <= '9'
}

/// What a password must look like: at least the configured length, and with
/// strong passwords required, an uppercase letter, a lowercase letter, a
/// digit and a character that is none of those.
pub open spec fn spec_password_ok(pw: Seq<char>, min_len: usize, strong: bool) -> bool {
    &&& pw.len() >= min_len
    &&& (strong ==> {
        &&& exists|i: int| 0 <= i < pw.len() && spec_is_upper(#[trigger] pw[i])
        &&& exists|i: int| 0 <= i < pw.len() && spec_is_lower(#[trigger] pw[i])
        &&& exists|i: int| 0 <= i < pw.len() && spec_is_digit(#[trigger] pw[i])
        &&& exists|i: int|
            0 <= i < pw.len() && !spec_is_upper(#[trigger] pw[i]) && !spec_is_lower(pw[i])
                && !spec_is_digit(pw[i])
    })
}

/// The central authority over users, sessions, permissions and the identity
/// chain.
#[derive(Debug)]
pub struct AuthManager {
    config: AuthConfig,
    identity_chain: IdentityChain,
    user_permissions: Vec<(String, PermissionSet)>,
    active_sessions: Vec<(String, AuthContext)>,
    permission_operations: Vec<PermissionOperation>,
    nonce_tracker: Vec<(String, u64)>,
}

impl AuthManager {
    /// Whether a user exists in the identity chain.
    #[verifier::opaque]
    pub closed spec fn spec_has_user(&self, user_id: Seq<char>) -> bool {
        exists|i: int|
            0 <= i < self.identity_chain.identities@.len() && (
            #[trigger] self.identity_chain.identities@[i]).user_id@ == user_id
    }

    /// Whether a permission set is stored for a user.
    #[verifier::opaque]
    pub closed spec fn spec_has_perms(&self, user_id: Seq<char>) -> bool {
        exists|i: int|
            0 <= i < self.user_permissions@.len() && (#[trigger] self.user_permissions@[i]).0@
                == user_id
    }

    /// The stored permission set of a user.
    #[verifier::opaque]
    pub closed spec fn spec_perms_of(&self, user_id: Seq<char>) -> Set<Permission> {
        self.user_permissions@[choose|i: int|
            0 <= i < self.user_permissions@.len() && (#[trigger] self.user_permissions@[i]).0@
                == user_id].1@
    }

    /// Whether a session is live under this token.
    #[verifier::opaque]
    pub closed spec fn spec_has_session(&self, session_id: Seq<char>) -> bool {
        exists|i: int|
            0 <= i < self.active_sessions@.len() && (#[trigger] self.active_sessions@[i]).0@
                == session_id
    }

    /// Whether authentication is switched on.
    pub closed spec fn spec_enabled(&self) -> bool {
        self.config.enabled
    }

    /// The recorded permission operations.
    pub closed spec fn spec_audit(&self) -> Seq<PermissionOperation> {
        self.permission_operations@
    }

    /// Stored keys are unique and stored permission sets well-formed.
    pub closed spec fn wf(&self) -> bool {
        &&& forall|i: int, j: int|
            0 <= i < j < self.user_permissions@.len() ==> (
            #[trigger] self.user_permissions@[i]).0@ != (
            #[trigger] self.user_permissions@[j]).0@
        &&& forall|i: int|
            0 <= i < self.user_permissions@.len() ==> (
            #[trigger] self.user_permissions@[i]).1.wf()
        &&& forall|i: int, j: int|
            0 <= i < j < self.active_sessions@.len() ==> (
            #[trigger] self.active_sessions@[i]).0@ != (#[trigger] self.active_sessions@[j]).0@
        &&& forall|i: int, j: int|
            0 <= i < j < self.nonce_tracker@.len() ==> (#[trigger] self.nonce_tracker@[i]).0@
                != (#[trigger] self.nonce_tracker@[j]).0@
    }

    /// Builds a manager and creates every configured admin account with the
    /// bootstrap password; an account the password rules refuse is skipped.
    pub fn new(config: AuthConfig) -> (r: AuthManager)
        ensures
            r.wf(),
            r.spec_enabled() == config.enabled,
    {
        let admin_list = config.admin_users.clone();
        let enabled = config.enabled;
        let mut manager = AuthManager {
            config,
            identity_chain: IdentityChain::new(),
            user_permissions: Vec::new(),
            active_sessions: Vec::new(),
            permission_operations: Vec::new(),
            nonce_tracker: Vec::new(),
        };
        let mut i: usize = 0;
        while i < admin_list.len()
            invariant
                manager.wf(),
                manager.config.enabled == enabled,
                0 <= i <= admin_list@.len(),
            decreases admin_list@.len() - i,
        {
            let admin_user = admin_list[i].clone();
            let _ = manager.create_admin_user(admin_user, "admin123");
            i += 1;
        }
        manager
    }

    /// Whether authentication is switched on.
    pub fn is_enabled(&self) -> (r: bool)
        ensures
            r == self.spec_enabled(),
    {
        self.config.enabled
    }

    /// Creates a user: refused when authentication is off, the user already
    /// exists, or the password breaks the rules; otherwise the identity
    /// (with its salted password hash) joins the chain, the permissions are
    /// stored, and the fresh key pair is handed back.
    pub fn create_user(
        &mut self,
        user_id: String,
        password: &str,
        permissions: PermissionSet,
        created_by: Option<String>,
        block_index: u64,
    ) -> (r: Result<KeyPair, AuthError>)
        requires
            old(self).wf(),
            permissions.wf(),
        ensures
            final(self).wf(),
            final(self).spec_enabled() == old(self).spec_enabled(),
            r is Ok <==> old(self).spec_enabled() && !old(self).spec_has_user(user_id@)
                && spec_password_ok(
                password@,
                old(self).config_min_password_len(),
                old(self).config_strong_passwords(),
            ),
            r is Ok ==> {
                &&& final(self).spec_has_user(user_id@)
                &&& final(self).spec_has_perms(user_id@)
                &&& final(self).spec_perms_of(user_id@) == permissions@
            },
            r is Err ==> final(self).spec_has_user(user_id@) == old(self).spec_has_user(user_id@),
            !old(self).spec_enabled() ==> (r matches Err(AuthError::CryptographicError(_))),
            old(self).spec_enabled() && old(self).spec_has_user(user_id@) ==> (r matches Err(
                AuthError::UserAlreadyExists(_),
            )),
    {
        proof {
            reveal(AuthManager::spec_has_user);
        }
        if !self.config.enabled {
            return Err(AuthError::CryptographicError("authentication is disabled".to_owned()));
        }
        if self.identity_chain.find_identity(&user_id).is_some() {
            return Err(AuthError::UserAlreadyExists(user_id));
        }
        if !self.validate_password_ok(password) {
            return Err(AuthError::CryptographicError("password rejected".to_owned()));
        }
        let created = CryptoIdentity::create_with_password(
            user_id.clone(),
            password,
            block_index,
            created_by,
        );
        let (identity, keypair) = match created {
            Ok(pair) => pair,
            Err(e) => {
                proof {
                    assert(false);
                }
                return Err(e);
            },
        };
        let ghost pre = *self;
        let _ = self.identity_chain.add_identity(identity);
        proof {
            reveal(AuthManager::spec_has_user);
            let n = self.identity_chain.identities@.len() - 1;
            assert(self.identity_chain.identities@[n].user_id@ == user_id@);
            assert(self.spec_has_user(user_id@));
            assert forall|u: Seq<char>| pre.spec_has_user(u) implies self.spec_has_user(u) by {
                let w = choose|w: int|
                    0 <= w < pre.identity_chain.identities@.len() && (
                    #[trigger] pre.identity_chain.identities@[w]).user_id@ == u;
                assert(self.identity_chain.identities@[w].user_id@ == u);
            }
        }
        self.store_permissions(user_id, permissions);
        Ok(keypair)
    }

    /// The configured minimum password length.
    pub closed spec fn config_min_password_len(&self) -> usize {
        self.config.password_min_length
    }

    /// Whether strong passwords are required.
    pub closed spec fn config_strong_passwords(&self) -> bool {
        self.config.require_strong_passwords
    }

    /// The configured failed-attempt limit.
    pub closed spec fn config_max_failed(&self) -> u64 {
        self.config.max_failed_attempts
    }

    /// Stores a user's permission set, replacing any previous one.
    fn store_permissions(&mut self, user_id: String, permissions: PermissionSet)
        requires
            old(self).wf(),
            permissions.wf(),
        ensures
            final(self).wf(),
            final(self).spec_has_perms(user_id@),
            final(self).spec_perms_of(user_id@) == permissions@,
            final(self).identity_chain == old(self).identity_chain,
            final(self).config == old(self).config,
            final(self).active_sessions == old(self).active_sessions,
            final(self).permission_operations == old(self).permission_operations,
            final(self).nonce_tracker == old(self).nonce_tracker,
            forall|u: Seq<char>|
                u != user_id@ ==> final(self).spec_has_perms(u) == old(self).spec_has_perms(u),
            forall|u: Seq<char>|
                u != user_id@ && old(self).spec_has_perms(u) ==> final(self).spec_perms_of(u)
                    == old(self).spec_perms_of(u),
            forall|u: Seq<char>|
                final(self).spec_has_user(u) == old(self).spec_has_user(u),
    {
        proof {
            reveal(AuthManager::spec_has_perms);
            reveal(AuthManager::spec_perms_of);
            reveal(AuthManager::spec_has_user);
        }
        let ghost pre = *self;
        let mut i: usize = 0;
        let n = self.user_permissions.len();
        while i < n
            invariant
                *self == pre,
                pre == *old(self),
                pre.wf(),
                permissions.wf(),
                n == self.user_permissions@.len(),
                0 <= i <= n,
                forall|j: int|
                    0 <= j < i ==> (#[trigger] self.user_permissions@[j]).0@ != user_id@,
            decreases n - i,
        {
            if self.user_permissions[i].0.eq(&user_id) {
                self.user_permissions.set(i, (user_id, permissions));
                proof {
                    reveal(AuthManager::spec_has_perms);
                    reveal(AuthManager::spec_perms_of);
                    reveal(AuthManager::spec_has_user);
                    assert(self.user_permissions@[i as int].0@ == user_id@);
                    assert forall|a: int, b: int|
                        0 <= a < b < self.user_permissions@.len() implies (
                    #[trigger] self.user_permissions@[a]).0@ != (
                    #[trigger] self.user_permissions@[b]).0@ by {
                        assert(self.user_permissions@[a].0@ == pre.user_permissions@[a].0@) by {
                            if a != i {
                                assert(self.user_permissions@[a] == pre.user_permissions@[a]);
                            }
                        }
                        assert(self.user_permissions@[b].0@ == pre.user_permissions@[b].0@) by {
                            if b != i {
                                assert(self.user_permissions@[b] == pre.user_permissions@[b]);
                            }
                        }
                        assert(pre.user_permissions@[a].0@ != pre.user_permissions@[b].0@);
                    }
                    lemma_perm_lookup(*self, i as int);
                    assert forall|u: Seq<char>| u != user_id@ && pre.spec_has_perms(u)
                        implies final(self).spec_perms_of(u) == pre.spec_perms_of(u) by {
                        let w = choose|w: int|
                            0 <= w < pre.user_permissions@.len() && (
                            #[trigger] pre.user_permissions@[w]).0@ == u;
                        assert(self.user_permissions@[w].0@ == u);
                        lemma_perm_lookup(pre, w);
                        lemma_perm_lookup(*self, w);
                    }
                    assert forall|u: Seq<char>| u != user_id@ implies final(self).spec_has_perms(
                        u,
                    ) == pre.spec_has_perms(u) by {
                        if final(self).spec_has_perms(u) {
                            let w = choose|w: int|
                                0 <= w < self.user_permissions@.len() && (
                                #[trigger] self.user_permissions@[w]).0@ == u;
                            assert(pre.user_permissions@[w].0@ == u);
                        }
                        if pre.spec_has_perms(u) {
                            let w = choose|w: int|
                                0 <= w < pre.user_permissions@.len() && (
                                #[trigger] pre.user_permissions@[w]).0@ == u;
                            assert(self.user_permissions@[w].0@ == u);
                        }
                    }
                }
                return;
            }
            i += 1;
        }
        self.user_permissions.push((user_id, permissions));
        proof {
            reveal(AuthManager::spec_has_perms);
            reveal(AuthManager::spec_perms_of);
            reveal(AuthManager::spec_has_user);
            let n2 = self.user_permissions@.len() - 1;
            assert(self.user_permissions@[n2].0@ == user_id@);
            assert forall|a: int, b: int|
                0 <= a < b < self.user_permissions@.len() implies (
            #[trigger] self.user_permissions@[a]).0@ != (
            #[trigger] self.user_permissions@[b]).0@ by {
                if b < n2 {
                    assert(pre.user_permissions@[a].0@ != pre.user_permissions@[b].0@);
                } else {
                    assert(pre.user_permissions@[a].0@ != user_id@);
                }
            }
            lemma_perm_lookup(*self, n2);
            assert forall|u: Seq<char>| u != user_id@ && pre.spec_has_perms(u) implies final(self).spec_perms_of(u) == pre.spec_perms_of(u) by {
                let w = choose|w: int|
                    0 <= w < pre.user_permissions@.len() && (
                    #[trigger] pre.user_permissions@[w]).0@ == u;
                assert(self.user_permissions@[w].0@ == u);
                lemma_perm_lookup(pre, w);
                lemma_perm_lookup(*self, w);
            }
            assert forall|u: Seq<char>| u != user_id@ implies final(self).spec_has_perms(u)
                == pre.spec_has_perms(u) by {
                if final(self).spec_has_perms(u) {
                    let w = choose|w: int|
                        0 <= w < self.user_permissions@.len() && (
                        #[trigger] self.user_permissions@[w]).0@ == u;
                    assert(w < n2 + 1);
                    if w < n2 {
                        assert(pre.user_permissions@[w].0@ == u);
                    }
                }
                if pre.spec_has_perms(u) {
                    let w = choose|w: int|
                        0 <= w < pre.user_permissions@.len() && (
                        #[trigger] pre.user_permissions@[w]).0@ == u;
                    assert(self.user_permissions@[w].0@ == u);
                }
            }
        }
    }

    /// Creates an administrator: a user holding `Admin` created at the
    /// genesis block.
    pub fn create_admin_user(&mut self, user_id: String, password: &str) -> (r: Result<
        KeyPair,
        AuthError,
    >)
        requires
            old(self).wf(),
        ensures
            final(self).wf(),
            final(self).spec_enabled() == old(self).spec_enabled(),
            r is Ok ==> final(self).spec_has_user(user_id@) && final(self).spec_has_perms(
                user_id@,
            ) && final(self).spec_perms_of(user_id@) == Set::<Permission>::empty().insert(
                Permission::Admin,
            ),
    {
        let permissions = PermissionSet::admin();
        self.create_user(user_id, password, permissions, None, 0)
    }

    /// Whether the password satisfies the configured rules.
    fn validate_password_ok(&self, password: &str) -> (r: bool)
        ensures
            r == spec_password_ok(
                password@,
                self.config_min_password_len(),
                self.config_strong_passwords(),
            ),
    {
        let len = password.unicode_len();
        if len < self.config.password_min_length {
            return false;
        }
        if !self.config.require_strong_passwords {
            return true;
        }
        let mut has_upper = false;
        let mut has_lower = false;
        let mut has_digit = false;
        let mut has_special = false;
        let mut i: usize = 0;
        while i < len
            invariant
                len == password@.len(),
                0 <= i <= len,
                has_upper == exists|j: int| 0 <= j < i && spec_is_upper(#[trigger] password@[j]),
                has_lower == exists|j: int| 0 <= j < i && spec_is_lower(#[trigger] password@[j]),
                has_digit == exists|j: int| 0 <= j < i && spec_is_digit(#[trigger] password@[j]),
                has_special == exists|j: int|
                    0 <= j < i && !spec_is_upper(#[trigger] password@[j]) && !spec_is_lower(
                        password@[j],
                    ) && !spec_is_digit(password@[j]),
            decreases len - i,
        {
            let c = password.get_char(i);
            if c >= 'A' && c <= 'Z' {
                has_upper = true;
            } else if c >= 'a' && c <= 'z' {
                has_lower = true;
            } else if c >= '0' && c <= '9' {
                has_digit = true;
            } else {
                has_special = true;
            }
            i += 1;
        }
        has_upper && has_lower && has_digit && has_special
    }
}

impl AuthManager {
    /// The first identity in chain order carrying the user name.
    #[verifier::opaque]
    pub closed spec fn spec_identity_of(&self, user_id: Seq<char>) -> CryptoIdentity {
        self.identity_chain.identities@[choose|i: int|
            0 <= i < self.identity_chain.identities@.len() && (
            #[trigger] self.identity_chain.identities@[i]).user_id@ == user_id && (forall|j: int|
                0 <= j < i ==> self.identity_chain.identities@[j].user_id@ != user_id)]
    }

    /// The index of the first identity carrying the user name.
    fn find_identity_index(&self, user_id: &String) -> (r: Option<usize>)
        ensures
            r is Some <==> self.spec_has_user(user_id@),
            r matches Some(i) ==> {
                &&& i < self.chain_view().len()
                &&& self.chain_view()[i as int].user_id@ == user_id@
                &&& self.chain_view()[i as int] == self.spec_identity_of(user_id@)
            },
    {
        proof {
            reveal(AuthManager::spec_has_user);
            reveal(AuthManager::spec_identity_of);
        }
        let mut i: usize = 0;
        while i < self.identity_chain.identities.len()
            invariant
                0 <= i <= self.chain_view().len(),
                forall|j: int| 0 <= j < i ==> (#[trigger] self.chain_view()[j]).user_id@
                    != user_id@,
            decreases self.chain_view().len() - i,
        {
            if self.identity_chain.identities[i].user_id.eq(user_id) {
                proof {
                    reveal(AuthManager::spec_has_user);
                    reveal(AuthManager::spec_identity_of);
                    assert(self.chain_view()[i as int].user_id@ == user_id@);
                    let w = choose|w: int|
                        0 <= w < self.chain_view().len() && (
                        #[trigger] self.chain_view()[w]).user_id@ == user_id@ && (forall|j: int|
                            0 <= j < w ==> self.chain_view()[j].user_id@ != user_id@);
                    assert(0 <= i < self.chain_view().len() && (
                    #[trigger] self.chain_view()[i as int]).user_id@ == user_id@ && (forall|
                        j: int,
                    |
                        0 <= j < i ==> self.chain_view()[j].user_id@ != user_id@));
                    if w < i {
                        assert(self.chain_view()[w].user_id@ != user_id@);
                    }
                    if i < w {
                        assert(self.chain_view()[i as int].user_id@ != user_id@);
                    }
                }
                return Some(i);
            }
            i += 1;
        }
        proof {
            reveal(AuthManager::spec_has_user);
        }
        None
    }

    /// The raw identity list, for in-module reasoning.
    pub closed spec fn chain_view(&self) -> Seq<CryptoIdentity> {
        self.identity_chain.identities@
    }

    /// Authenticates a user by password. With authentication off, or for an
    /// unknown user, a locked or inactive account, or a wrong password, no
    /// session is opened; otherwise a fresh session is stored and returned.
    pub fn authenticate(&mut self, user_id: &String, password: &str) -> (r: Result<
        AuthContext,
        AuthError,
    >)
        requires
            old(self).wf(),
        ensures
            final(self).wf(),
            final(self).spec_enabled() == old(self).spec_enabled(),
            !old(self).spec_enabled() ==> (r matches Err(AuthError::CryptographicError(_))),
            old(self).spec_enabled() && !old(self).spec_has_user(user_id@) ==> (r matches Err(
                AuthError::UserNotFound(_),
            )),
            r matches Ok(ctx) ==> {
                &&& ctx.user_id@ == user_id@
                &&& final(self).spec_has_session(ctx.session_id@)
            },
    {
        if !self.config.enabled {
            return Err(AuthError::CryptographicError("authentication is disabled".to_owned()));
        }
        let idx = match self.find_identity_index(user_id) {
            Some(i) => i,
            None => {
                let mut name: String = String::new();
                let borrowed: &str = user_id.as_str();
                name = borrowed.to_owned();
                return Err(AuthError::UserNotFound(name));
            },
        };
        let max_failed = self.config.max_failed_attempts;
        if self.identity_chain.identities[idx].should_lock_account(max_failed) {
            return Err(AuthError::InvalidCredentials);
        }
        if !self.identity_chain.identities[idx].is_active() {
            return Err(AuthError::InvalidCredentials);
        }
        let password_valid = match self.identity_chain.identities[idx].verify_password(password) {
            Ok(b) => b,
            Err(e) => {
                proof {
                    assert(false);
                }
                return Err(e);
            },
        };
        let ghost pre = *self;
        let mut ident = self.identity_chain.identities.remove(idx);
        if password_valid {
            ident.record_login_success();
        } else {
            ident.record_login_failure();
        }
        self.identity_chain.identities.insert(idx, ident);
        proof {
            assert(self.wf());
        }
        if !password_valid {
            return Err(AuthError::InvalidCredentials);
        }
        let permissions = match self.lookup_permissions(user_id) {
            Some(p) => p,
            None => PermissionSet::new(),
        };
        let session_duration_secs = if self.config.session_duration_hours
            <= u64::MAX / 3600 {
            self.config.session_duration_hours * 3600
        } else {
            u64::MAX
        };
        let user_name = user_id.as_str().to_owned();
        let auth_context = AuthContext::new(
            user_name,
            permissions.get_permissions(),
            session_duration_secs,
        );
        let stored = auth_context.duplicate();
        let token = auth_context.session_id.clone();
        self.store_session(token, stored);
        proof {
            assert(self.spec_has_session(auth_context.session_id@));
        }
        Ok(auth_context)
    }

    /// The stored permission set of a user, rebuilt.
    fn lookup_permissions(&self, user_id: &String) -> (r: Option<PermissionSet>)
        requires
            self.wf(),
        ensures
            r is Some <==> self.spec_has_perms(user_id@),
            r matches Some(p) ==> p@ == self.spec_perms_of(user_id@) && p.wf(),
    {
        proof {
            reveal(AuthManager::spec_has_perms);
            reveal(AuthManager::spec_perms_of);
        }
        let mut i: usize = 0;
        while i < self.user_permissions.len()
            invariant
                self.wf(),
                0 <= i <= self.user_permissions@.len(),
                forall|j: int|
                    0 <= j < i ==> (#[trigger] self.user_permissions@[j]).0@ != user_id@,
            decreases self.user_permissions@.len() - i,
        {
            if self.user_permissions[i].0.eq(user_id) {
                proof {
                    reveal(AuthManager::spec_has_perms);
                    reveal(AuthManager::spec_perms_of);
                    lemma_perm_lookup(*self, i as int);
                }
                let perms = self.user_permissions[i].1.get_permissions();
                let rebuilt = PermissionSet::from_permissions(perms);
                proof {
                    assert(rebuilt@ =~= self.spec_perms_of(user_id@));
                }
                return Some(rebuilt);
            }
            i += 1;
        }
        proof {
            reveal(AuthManager::spec_has_perms);
            if self.spec_has_perms(user_id@) {
                let w = choose|w: int|
                    0 <= w < self.user_permissions@.len() && (
                    #[trigger] self.user_permissions@[w]).0@ == user_id@;
            }
        }
        None
    }

    /// Stores a session, replacing any session under the same token.
    fn store_session(&mut self, session_id: String, context: AuthContext)
        requires
            old(self).wf(),
        ensures
            final(self).wf(),
            final(self).spec_has_session(session_id@),
            final(self).spec_enabled() == old(self).spec_enabled(),
            final(self).identity_chain == old(self).identity_chain,
            final(self).user_permissions == old(self).user_permissions,
            final(self).permission_operations == old(self).permission_operations,
            final(self).nonce_tracker == old(self).nonce_tracker,
            final(self).config == old(self).config,
    {
        proof {
            reveal(AuthManager::spec_has_session);
        }
        let ghost pre = *self;
        let mut i: usize = 0;
        let n = self.active_sessions.len();
        while i < n
            invariant
                *self == pre,
                pre == *old(self),
                pre.wf(),
                n == self.active_sessions@.len(),
                0 <= i <= n,
                forall|j: int|
                    0 <= j < i ==> (#[trigger] self.active_sessions@[j]).0@ != session_id@,
            decreases n - i,
        {
            if self.active_sessions[i].0.eq(&session_id) {
                self.active_sessions.set(i, (session_id, context));
                proof {
                    reveal(AuthManager::spec_has_session);
                    assert(self.active_sessions@[i as int].0@ == session_id@);
                    assert forall|a: int, b: int|
                        0 <= a < b < self.active_sessions@.len() implies (
                    #[trigger] self.active_sessions@[a]).0@ != (
                    #[trigger] self.active_sessions@[b]).0@ by {
                        assert(self.active_sessions@[a].0@ == pre.active_sessions@[a].0@) by {
                            if a != i {
                                assert(self.active_sessions@[a] == pre.active_sessions@[a]);
                            }
                        }
                        assert(self.active_sessions@[b].0@ == pre.active_sessions@[b].0@) by {
                            if b != i {
                                assert(self.active_sessions@[b] == pre.active_sessions@[b]);
                            }
                        }
                        assert(pre.active_sessions@[a].0@ != pre.active_sessions@[b].0@);
                    }
                }
                return;
            }
            i += 1;
        }
        self.active_sessions.push((session_id, context));
        proof {
            reveal(AuthManager::spec_has_session);
            let n2 = self.active_sessions@.len() - 1;
            assert(self.active_sessions@[n2].0@ == session_id@);
            assert forall|a: int, b: int|
                0 <= a < b < self.active_sessions@.len() implies (
            #[trigger] self.active_sessions@[a]).0@ != (
            #[trigger] self.active_sessions@[b]).0@ by {
                if b < n2 {
                    assert(pre.active_sessions@[a].0@ != pre.active_sessions@[b].0@);
                } else {
                    assert(pre.active_sessions@[a].0@ != session_id@);
                }
            }
        }
    }

    /// Resumes a session by its token: an unknown token or an expired
    /// session is refused.
    pub fn authenticate_with_token(&self, session_id: &String) -> (r: Result<
        AuthContext,
        AuthError,
    >)
        requires
            self.wf(),
        ensures
            !self.spec_enabled() ==> (r matches Err(AuthError::CryptographicError(_))),
            self.spec_enabled() && !self.spec_has_session(session_id@) ==> (r matches Err(
                AuthError::SessionNotFound(_),
            )),
            r matches Ok(ctx) ==> ctx.session_id@ == session_id@,
    {
        proof {
            reveal(AuthManager::spec_has_session);
        }
        if !self.config.enabled {
            return Err(AuthError::CryptographicError("authentication is disabled".to_owned()));
        }
        let mut i: usize = 0;
        while i < self.active_sessions.len()
            invariant
                self.spec_enabled(),
                0 <= i <= self.active_sessions@.len(),
                forall|j: int|
                    0 <= j < i ==> (#[trigger] self.active_sessions@[j]).0@ != session_id@,
            decreases self.active_sessions@.len() - i,
        {
            if self.active_sessions[i].0.eq(session_id) {
                proof {
                    reveal(AuthManager::spec_has_session);
                    assert(self.active_sessions@[i as int].0@ == session_id@);
                }
                if self.active_sessions[i].1.is_expired() {
                    return Err(AuthError::TokenExpired);
                }
                let ctx = self.active_sessions[i].1.duplicate();
                proof {
                    assert(self.active_sessions@[i as int].0@ == session_id@);
                }
                let out = AuthContext {
                    user_id: ctx.user_id,
                    session_id: self.active_sessions[i].0.clone(),
                    permissions: ctx.permissions,
                    created_at: ctx.created_at,
                    expires_at: ctx.expires_at,
                };
                return Ok(out);
            }
            i += 1;
        }
        proof {
            reveal(AuthManager::spec_has_session);
        }
        let name = session_id.as_str().to_owned();
        Err(AuthError::SessionNotFound(name))
    }

    /// Closes a session; an unknown token is no error.
    pub fn logout(&mut self, session_id: &String) -> (r: Result<(), AuthError>)
        requires
            old(self).wf(),
        ensures
            final(self).wf(),
            r is Ok,
            !final(self).spec_has_session(session_id@),
            final(self).spec_enabled() == old(self).spec_enabled(),
    {
        proof {
            reveal(AuthManager::spec_has_session);
        }
        let mut kept: Vec<(String, AuthContext)> = Vec::new();
        let ghost pre = *self;
        loop
            invariant
                pre.wf(),
                self.config == pre.config,
                self.identity_chain == pre.identity_chain,
                self.user_permissions == pre.user_permissions,
                self.permission_operations == pre.permission_operations,
                self.nonce_tracker == pre.nonce_tracker,
                forall|j: int|
                    0 <= j < kept@.len() ==> (#[trigger] kept@[j]).0@ != session_id@,
                forall|a: int, b: int|
                    0 <= a < b < kept@.len() ==> (#[trigger] kept@[a]).0@ != (
                    #[trigger] kept@[b]).0@,
                forall|a: int, b: int|
                    0 <= a < kept@.len() && 0 <= b < self.active_sessions@.len() ==> (
                    #[trigger] kept@[a]).0@ != (#[trigger] self.active_sessions@[b]).0@,
                forall|a: int, b: int|
                    0 <= a < b < self.active_sessions@.len() ==> (
                    #[trigger] self.active_sessions@[a]).0@ != (
                    #[trigger] self.active_sessions@[b]).0@,
            decreases self.active_sessions@.len(),
        {
            if self.active_sessions.len() == 0 {
                break;
            }
            let ghost pre_sessions = self.active_sessions@;
            let entry = self.active_sessions.remove(0);
            proof {
                assert(entry == pre_sessions[0]);
                assert forall|b: int| 0 <= b < self.active_sessions@.len() implies entry.0@ != (
                #[trigger] self.active_sessions@[b]).0@ by {
                    assert(self.active_sessions@[b] == pre_sessions[b + 1]);
                }
            }
            if !entry.0.eq(session_id) {
                kept.push(entry);
            }
        }
        self.active_sessions = kept;
        proof {
            reveal(AuthManager::spec_has_session);
        }
        Ok(())
    }

    /// Decides whether a user holds a permission, directly or through an
    /// implication. With authentication off everything is allowed; an
    /// unknown user or one without stored permissions is refused, an
    /// inactive user is denied, and a missing permission is reported as
    /// insufficient.
    pub fn check_permission(&self, user_id: &String, required_permission: &Permission) -> (r:
        Result<bool, AuthError>)
        requires
            self.wf(),
        ensures
            !self.spec_enabled() ==> (r matches Ok(b) && b == true),
            self.spec_enabled() && !self.spec_has_user(user_id@) ==> (r matches Err(
                AuthError::UserNotFound(_),
            )),
            self.spec_enabled() && self.spec_has_user(user_id@) && !(self.spec_identity_of(
                user_id@,
            ).revocation_status is Active) ==> (r matches Err(AuthError::PermissionDenied { .. })),
            self.spec_enabled() && self.spec_has_user(user_id@) && self.spec_identity_of(
                user_id@,
            ).revocation_status is Active && !self.spec_has_perms(user_id@) ==> (r matches Err(
                AuthError::UserNotFound(_),
            )),
            self.spec_enabled() && self.spec_has_user(user_id@) && self.spec_identity_of(
                user_id@,
            ).revocation_status is Active && self.spec_has_perms(user_id@) ==> {
                if spec_grants(self.spec_perms_of(user_id@), *required_permission) {
                    r matches Ok(b) && b == true
                } else {
                    r matches Err(AuthError::InsufficientPermissions { .. })
                }
            },
    {
        if !self.config.enabled {
            return Ok(true);
        }
        let idx = match self.find_identity_index(user_id) {
            Some(i) => i,
            None => {
                let name = user_id.as_str().to_owned();
                return Err(AuthError::UserNotFound(name));
            },
        };
        if !self.identity_chain.identities[idx].is_active() {
            return Err(AuthError::PermissionDenied {
                operation: "permission check".to_owned(),
                resource: "system".to_owned(),
                user: user_id.as_str().to_owned(),
            });
        }
        let perms = match self.lookup_permissions(user_id) {
            Some(p) => p,
            None => {
                let name = user_id.as_str().to_owned();
                return Err(AuthError::UserNotFound(name));
            },
        };
        if perms.has_permission(required_permission) {
            Ok(true)
        } else {
            Err(AuthError::InsufficientPermissions {
                required: *required_permission,
                user: user_id.as_str().to_owned(),
            })
        }
    }

    /// Grants a permission to a user: the grantor must hold
    /// `GrantPermission`, the target must exist, and the grant is recorded
    /// in the audit trail.
    #[verifier::rlimit(100)]
    #[verifier::spinoff_prover]
    pub fn grant_permission(
        &mut self,
        target_user: &String,
        permission: Permission,
        granted_by: &String,
        block_index: u64,
    ) -> (r: Result<(), AuthError>)
        requires
            old(self).wf(),
        ensures
            final(self).wf(),
            final(self).spec_enabled() == old(self).spec_enabled(),
            r is Ok ==> {
                &&& final(self).spec_has_perms(target_user@)
                &&& final(self).spec_perms_of(target_user@) == (if old(self).spec_has_perms(
                    target_user@,
                ) {
                    old(self).spec_perms_of(target_user@)
                } else {
                    Set::<Permission>::empty()
                }).insert(permission)
                &&& final(self).spec_audit().len() == old(self).spec_audit().len() + 1
                &&& (final(self).spec_audit().last() matches PermissionOperation::Grant { .. })
            },
    {
        let check = self.check_permission(granted_by, &Permission::GrantPermission);
        match check {
            Ok(_) => {},
            Err(e) => {
                return Err(e);
            },
        }
        if self.find_identity_index(target_user).is_none() {
            let name = target_user.as_str().to_owned();
            return Err(AuthError::UserNotFound(name));
        }
        let mut perms = match self.lookup_permissions(target_user) {
            Some(p) => p,
            None => PermissionSet::new(),
        };
        perms.add_permission(permission);
        let target_name = target_user.as_str().to_owned();
        self.store_permissions(target_name, perms);
        let ghost before_push = *self;
        let operation = PermissionOperation::Grant {
            target_user: target_user.as_str().to_owned(),
            permission,
            granted_by: granted_by.as_str().to_owned(),
            block_index,
            timestamp: now_secs(),
        };
        self.permission_operations.push(operation);
        proof {
            reveal(AuthManager::spec_has_perms);
            reveal(AuthManager::spec_perms_of);
            assert(self.user_permissions@ == before_push.user_permissions@);
            assert(self.spec_has_perms(target_user@) == before_push.spec_has_perms(target_user@));
            assert(self.spec_perms_of(target_user@) == before_push.spec_perms_of(target_user@));
        }
        Ok(())
    }

    /// Revokes a permission from a user: the revoker must hold
    /// `RevokePermission`, and the revocation is recorded in the audit
    /// trail.
    #[verifier::rlimit(100)]
    #[verifier::spinoff_prover]
    pub fn revoke_permission(
        &mut self,
        target_user: &String,
        permission: &Permission,
        revoked_by: &String,
        block_index: u64,
    ) -> (r: Result<(), AuthError>)
        requires
            old(self).wf(),
        ensures
            final(self).wf(),
            final(self).spec_enabled() == old(self).spec_enabled(),
            r is Ok ==> {
                &&& final(self).spec_audit().len() == old(self).spec_audit().len() + 1
                &&& (final(self).spec_audit().last() matches PermissionOperation::Revoke { .. })
            },
    {
        let check = self.check_permission(revoked_by, &Permission::RevokePermission);
        match check {
            Ok(_) => {},
            Err(e) => {
                return Err(e);
            },
        }
        let had = self.lookup_permissions(target_user);
        if let Some(p) = had {
            let mut perms = p;
            perms.remove_permission(permission);
            let target_name = target_user.as_str().to_owned();
            self.store_permissions(target_name, perms);
        }
        let operation = PermissionOperation::Revoke {
            target_user: target_user.as_str().to_owned(),
            permission: *permission,
            revoked_by: revoked_by.as_str().to_owned(),
            block_index,
            timestamp: now_secs(),
        };
        self.permission_operations.push(operation);
        Ok(())
    }

    /// The stored permission set of a user.
    pub fn get_user_permissions(&self, user_id: &String) -> (r: Result<PermissionSet, AuthError>)
        requires
            self.wf(),
        ensures
            r is Ok <==> self.spec_has_perms(user_id@),
            r matches Ok(p) ==> p@ == self.spec_perms_of(user_id@) && p.wf(),
    {
        match self.lookup_permissions(user_id) {
            Some(p) => Ok(p),
            None => {
                let name = user_id.as_str().to_owned();
                Err(AuthError::UserNotFound(name))
            },
        }
    }

    /// The names of every user in the identity chain, in order.
    pub fn list_users(&self) -> (r: Vec<String>)
        ensures
            r@.len() == self.chain_view().len(),
            forall|i: int|
                0 <= i < r@.len() ==> (#[trigger] r@[i])@ == self.chain_view()[i].user_id@,
    {
        let mut r: Vec<String> = Vec::new();
        let mut i: usize = 0;
        while i < self.identity_chain.identities.len()
            invariant
                0 <= i <= self.chain_view().len(),
                r@.len() == i,
                forall|j: int|
                    0 <= j < i ==> (#[trigger] r@[j])@ == self.chain_view()[j].user_id@,
            decreases self.chain_view().len() - i,
        {
            r.push(self.identity_chain.identities[i].user_id.clone());
            i += 1;
        }
        r
    }

    /// Whether a nonce is tracked for a user.
    #[verifier::opaque]
    pub closed spec fn spec_has_nonce(&self, user_id: Seq<char>) -> bool {
        exists|i: int|
            0 <= i < self.nonce_tracker@.len() && (#[trigger] self.nonce_tracker@[i]).0@
                == user_id
    }

    /// The tracked nonce of a user.
    #[verifier::opaque]
    pub closed spec fn spec_nonce_of(&self, user_id: Seq<char>) -> u64 {
        self.nonce_tracker@[choose|i: int|
            0 <= i < self.nonce_tracker@.len() && (#[trigger] self.nonce_tracker@[i]).0@
                == user_id].1
    }

    /// The next nonce for a user: one past the last, starting at one.
    pub fn get_next_nonce(&mut self, user_id: &String) -> (r: u64)
        requires
            old(self).wf(),
        ensures
            final(self).wf(),
            r == (if old(self).spec_has_nonce(user_id@) {
                if old(self).spec_nonce_of(user_id@) < u64::MAX {
                    old(self).spec_nonce_of(user_id@) + 1
                } else {
                    u64::MAX as int
                }
            } else {
                1int
            }),
            final(self).spec_has_nonce(user_id@) && final(self).spec_nonce_of(user_id@) == r,
            final(self).spec_enabled() == old(self).spec_enabled(),
    {
        proof {
            reveal(AuthManager::spec_has_nonce);
            reveal(AuthManager::spec_nonce_of);
        }
        let ghost pre = *self;
        let mut i: usize = 0;
        let n = self.nonce_tracker.len();
        while i < n
            invariant
                *self == pre,
                pre == *old(self),
                pre.wf(),
                n == self.nonce_tracker@.len(),
                0 <= i <= n,
                forall|j: int| 0 <= j < i ==> (#[trigger] self.nonce_tracker@[j]).0@ != user_id@,
            decreases n - i,
        {
            if self.nonce_tracker[i].0.eq(user_id) {
                proof {
                    reveal(AuthManager::spec_has_nonce);
                    reveal(AuthManager::spec_nonce_of);
                    lemma_nonce_lookup(*self, i as int);
                }
                let current = self.nonce_tracker[i].1;
                let next = if current < u64::MAX {
                    current + 1
                } else {
                    u64::MAX
                };
                let name = user_id.as_str().to_owned();
                self.nonce_tracker.set(i, (name, next));
                proof {
                    reveal(AuthManager::spec_has_nonce);
                    reveal(AuthManager::spec_nonce_of);
                    assert(self.nonce_tracker@[i as int].0@ == user_id@);
                    assert forall|a: int, b: int|
                        0 <= a < b < self.nonce_tracker@.len() implies (
                    #[trigger] self.nonce_tracker@[a]).0@ != (
                    #[trigger] self.nonce_tracker@[b]).0@ by {
                        assert(self.nonce_tracker@[a].0@ == pre.nonce_tracker@[a].0@) by {
                            if a != i {
                                assert(self.nonce_tracker@[a] == pre.nonce_tracker@[a]);
                            }
                        }
                        assert(self.nonce_tracker@[b].0@ == pre.nonce_tracker@[b].0@) by {
                            if b != i {
                                assert(self.nonce_tracker@[b] == pre.nonce_tracker@[b]);
                            }
                        }
                        assert(pre.nonce_tracker@[a].0@ != pre.nonce_tracker@[b].0@);
                    }
                    lemma_nonce_lookup(*self, i as int);
                }
                return next;
            }
            i += 1;
        }
        let name = user_id.as_str().to_owned();
        self.nonce_tracker.push((name, 1));
        proof {
            reveal(AuthManager::spec_has_nonce);
            reveal(AuthManager::spec_nonce_of);
            let n2 = self.nonce_tracker@.len() - 1;
            assert(self.nonce_tracker@[n2].0@ == user_id@);
            assert forall|a: int, b: int|
                0 <= a < b < self.nonce_tracker@.len() implies (
            #[trigger] self.nonce_tracker@[a]).0@ != (#[trigger] self.nonce_tracker@[b]).0@ by {
                if b < n2 {
                    assert(pre.nonce_tracker@[a].0@ != pre.nonce_tracker@[b].0@);
                } else {
                    assert(pre.nonce_tracker@[a].0@ != user_id@);
                }
            }
            lemma_nonce_lookup(*self, n2);
        }
        1
    }

    /// Verifies an operation signature against the stored public key of a
    /// user.
    pub fn verify_operation_signature(
        &self,
        operation: &Operation,
        user_id: &String,
        nonce: u64,
        timestamp: u64,
        signature: &[u8],
    ) -> (r: Result<bool, AuthError>)
        requires
            self.wf(),
        ensures
            !self.spec_has_user(user_id@) ==> (r matches Err(AuthError::UserNotFound(_))),
            r matches Ok(b) ==> b == ed25519_verifies(
                crate::auth::spec_operation_hash(*operation, user_id@, nonce, timestamp),
                signature@,
                self.spec_identity_of(user_id@).public_key@,
            ),
    {
        let idx = match self.find_identity_index(user_id) {
            Some(i) => i,
            None => {
                let name = user_id.as_str().to_owned();
                return Err(AuthError::UserNotFound(name));
            },
        };
        CryptoIdentity::verify_operation_signature(
            operation,
            user_id.as_str(),
            nonce,
            timestamp,
            signature,
            &self.identity_chain.identities[idx].public_key,
        )
    }

    /// Drops every expired session.
    pub fn cleanup_expired_sessions(&mut self)
        requires
            old(self).wf(),
        ensures
            final(self).wf(),
            final(self).spec_enabled() == old(self).spec_enabled(),
    {
        proof {
            reveal(AuthManager::spec_has_session);
        }
        let mut kept: Vec<(String, AuthContext)> = Vec::new();
        let ghost pre = *self;
        loop
            invariant
                pre.wf(),
                self.config == pre.config,
                self.identity_chain == pre.identity_chain,
                self.user_permissions == pre.user_permissions,
                self.permission_operations == pre.permission_operations,
                self.nonce_tracker == pre.nonce_tracker,
                forall|a: int, b: int|
                    0 <= a < b < kept@.len() ==> (#[trigger] kept@[a]).0@ != (
                    #[trigger] kept@[b]).0@,
                forall|a: int, b: int|
                    0 <= a < kept@.len() && 0 <= b < self.active_sessions@.len() ==> (
                    #[trigger] kept@[a]).0@ != (#[trigger] self.active_sessions@[b]).0@,
                forall|a: int, b: int|
                    0 <= a < b < self.active_sessions@.len() ==> (
                    #[trigger] self.active_sessions@[a]).0@ != (
                    #[trigger] self.active_sessions@[b]).0@,
            decreases self.active_sessions@.len(),
        {
            if self.active_sessions.len() == 0 {
                break;
            }
            let ghost pre_sessions = self.active_sessions@;
            let entry = self.active_sessions.remove(0);
            proof {
                assert(entry == pre_sessions[0]);
                assert forall|b: int| 0 <= b < self.active_sessions@.len() implies entry.0@ != (
                #[trigger] self.active_sessions@[b]).0@ by {
                    assert(self.active_sessions@[b] == pre_sessions[b + 1]);
                }
            }
            if !entry.1.is_expired() {
                kept.push(entry);
            }
        }
        self.active_sessions = kept;
    }

    /// The recorded permission operations, in order.
    pub fn get_audit_trail(&self) -> (r: Vec<PermissionOperation>)
        ensures
            r@.len() == self.spec_audit().len(),
            forall|i: int|
                0 <= i < r@.len() ==> ((#[trigger] r@[i]) matches PermissionOperation::Grant {
                    ..
                } <==> self.spec_audit()[i] matches PermissionOperation::Grant { .. }),
            forall|i: int|
                0 <= i < r@.len() ==> ((#[trigger] r@[i]) matches PermissionOperation::Revoke {
                    ..
                } <==> self.spec_audit()[i] matches PermissionOperation::Revoke { .. }),
    {
        let mut r: Vec<PermissionOperation> = Vec::new();
        let mut i: usize = 0;
        while i < self.permission_operations.len()
            invariant
                0 <= i <= self.permission_operations@.len(),
                r@.len() == i,
                forall|j: int|
                    0 <= j < i ==> ((#[trigger] r@[j]) matches PermissionOperation::Grant { .. }
                        <==> self.permission_operations@[j] matches PermissionOperation::Grant {
                        ..
                    }),
                forall|j: int|
                    0 <= j < i ==> ((#[trigger] r@[j]) matches PermissionOperation::Revoke { .. }
                        <==> self.permission_operations@[j] matches PermissionOperation::Revoke {
                        ..
                    }),
            decreases self.permission_operations@.len() - i,
        {
            let copy = match &self.permission_operations[i] {
                PermissionOperation::Grant {
                    target_user,
                    permission,
                    granted_by,
                    block_index,
                    timestamp,
                } => PermissionOperation::Grant {
                    target_user: target_user.clone(),
                    permission: *permission,
                    granted_by: granted_by.clone(),
                    block_index: *block_index,
                    timestamp: *timestamp,
                },
                PermissionOperation::Revoke {
                    target_user,
                    permission,
                    revoked_by,
                    block_index,
                    timestamp,
                } => PermissionOperation::Revoke {
                    target_user: target_user.clone(),
                    permission: *permission,
                    revoked_by: revoked_by.clone(),
                    block_index: *block_index,
                    timestamp: *timestamp,
                },
                PermissionOperation::CreateRole {
                    role_name,
                    permissions,
                    created_by,
                    block_index,
                    timestamp,
                } => PermissionOperation::CreateRole {
                    role_name: role_name.clone(),
                    permissions: permissions.clone(),
                    created_by: created_by.clone(),
                    block_index: *block_index,
                    timestamp: *timestamp,
                },
                PermissionOperation::AssignRole {
                    target_user,
                    role_name,
                    assigned_by,
                    block_index,
                    timestamp,
                } => PermissionOperation::AssignRole {
                    target_user: target_user.clone(),
                    role_name: role_name.clone(),
                    assigned_by: assigned_by.clone(),
                    block_index: *block_index,
                    timestamp: *timestamp,
                },
            };
            r.push(copy);
            i += 1;
        }
        r
    }

    /// Whether the identity chain's hash links are intact.
    pub fn verify_identity_chain_integrity(&self) -> (r: bool)
        ensures
            r == spec_identity_chain_valid(
                self.chain_view(),
                self.chain_links().map(|i: int, v: Vec<u8>| v@),
            ),
    {
        self.identity_chain.verify_chain_integrity()
    }

    /// The raw link list, for in-module reasoning.
    pub closed spec fn chain_links(&self) -> Seq<Vec<u8>> {
        self.identity_chain.identity_hash_chain@
    }
}

/// With unique user names, the tracked entry at `i` is what the nonce lookup
/// yields.
proof fn lemma_nonce_lookup(m: AuthManager, i: int)
    requires
        forall|a: int, b: int|
            0 <= a < b < m.nonce_view().len() ==> (#[trigger] m.nonce_view()[a]).0@ != (
            #[trigger] m.nonce_view()[b]).0@,
        0 <= i < m.nonce_view().len(),
    ensures
        m.spec_has_nonce(m.nonce_view()[i].0@),
        m.spec_nonce_of(m.nonce_view()[i].0@) == m.nonce_view()[i].1,
{
    reveal(AuthManager::spec_has_nonce);
    reveal(AuthManager::spec_nonce_of);
    let s = m.nonce_view();
    let k = s[i].0@;
    assert(exists|w: int| 0 <= w < s.len() && (#[trigger] s[w]).0@ == k);
    let w = choose|w: int| 0 <= w < s.len() && (#[trigger] s[w]).0@ == k;
    if w != i {
        assert(s[if w < i { w } else { i }].0@ != s[if w < i { i } else { w }].0@);
    }
}

impl AuthManager {
    /// The raw nonce store, for in-module reasoning.
    pub closed spec fn nonce_view(&self) -> Seq<(String, u64)> {
        self.nonce_tracker@
    }
}

/// With unique user names, the stored entry at `i` is what the permission
/// lookup yields.
proof fn lemma_perm_lookup(m: AuthManager, i: int)
    requires
        forall|a: int, b: int|
            0 <= a < b < m.perm_view().len() ==> (#[trigger] m.perm_view()[a]).0@ != (
            #[trigger] m.perm_view()[b]).0@,
        0 <= i < m.perm_view().len(),
    ensures
        m.spec_has_perms(m.perm_view()[i].0@),
        m.spec_perms_of(m.perm_view()[i].0@) == m.perm_view()[i].1@,
{
    reveal(AuthManager::spec_has_perms);
    reveal(AuthManager::spec_perms_of);
    let s = m.perm_view();
    let k = s[i].0@;
    assert(exists|w: int| 0 <= w < s.len() && (#[trigger] s[w]).0@ == k);
    let w = choose|w: int| 0 <= w < s.len() && (#[trigger] s[w]).0@ == k;
    if w != i {
        assert(s[if w < i { w } else { i }].0@ != s[if w < i { i } else { w }].0@);
    }
}

impl AuthManager {
    /// The raw permission store, for in-module reasoning.
    pub closed spec fn perm_view(&self) -> Seq<(String, PermissionSet)> {
        self.user_permissions@
    }
}

} // verus!
