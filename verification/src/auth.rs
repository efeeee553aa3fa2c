use vstd::prelude::*;

use crate::crypto::ed25519_check;
use crate::crypto::ed25519_derive_public;
use crate::crypto::ed25519_generate;
use crate::crypto::ed25519_public_of;
use crate::crypto::ed25519_sign;
use crate::crypto::ed25519_sign_of;
use crate::crypto::ed25519_verifies;
use crate::crypto::fresh_session_id;
use crate::crypto::now_secs;
use crate::crypto::random_bytes_32;
use crate::crypto::sha256;
use crate::crypto::sha256_of;
use crate::permissions::Permission;
use crate::transaction::Operation;
use crate::util::extend_bytes;

verus! {

broadcast use vstd::seq_lib::group_seq_properties;

/// The authentication subsystem's error kinds.
#[derive(Clone, Debug, PartialEq)]
pub enum AuthError {
    InvalidCredentials,
    UserNotFound(String),
    UserAlreadyExists(String),
    InsufficientPermissions { required: Permission, user: String },
    InvalidSignature,
    TokenExpired,
    SessionNotFound(String),
    CryptographicError(String),
    PermissionDenied { operation: String, resource: String, user: String },
}

/// An Ed25519 key pair, as raw 32-byte keys.
#[derive(Clone, Debug)]
pub struct KeyPair {
    pub public_key: Vec<u8>,
    pub private_key: Vec<u8>,
}

impl KeyPair {
    /// Generates a fresh key pair: both keys are 32 bytes and the public key
    /// is the one derived from the secret key.
    pub fn generate() -> (r: Result<KeyPair, AuthError>)
        ensures
            r is Ok,
            r matches Ok(kp) ==> {
                &&& kp.public_key@.len() == 32
                &&& kp.private_key@.len() == 32
                &&& kp.public_key@ == ed25519_public_of(kp.private_key@)
            },
    {
        let (public_key, private_key) = ed25519_generate();
        Ok(KeyPair { public_key, private_key })
    }

    /// Rebuilds the key pair whose secret key is the given 32 bytes; any
    /// other length is refused.
    pub fn from_private_key(private_key: &[u8]) -> (r: Result<KeyPair, AuthError>)
        ensures
            r is Ok <==> private_key@.len() == 32,
            r matches Ok(kp) ==> {
                &&& kp.private_key@ == private_key@
                &&& kp.public_key@ == ed25519_public_of(private_key@)
            },
    {
        if private_key.len() != 32 {
            return Err(AuthError::CryptographicError("private key must be 32 bytes".to_owned()));
        }
        let public_key = ed25519_derive_public(private_key);
        let mut sk: Vec<u8> = Vec::new();
        extend_bytes(&mut sk, private_key);
        proof {
            assert(sk@ =~= private_key@);
        }
        Ok(KeyPair { public_key, private_key: sk })
    }
}

/// The password hash: SHA-256 over the password's UTF-8 bytes followed by
/// the salt.
pub open spec fn spec_password_hash(password: Seq<char>, salt: Seq<u8>) -> Seq<u8> {
    sha256_of(vstd::utf8::encode_utf8(password) + salt)
}

/// The bytes hashed to bind an operation to a user, nonce and time: an
/// operation tag and its key (and value for a write), then the user's UTF-8
/// name, then the little-endian nonce and timestamp.
pub open spec fn spec_operation_hash_input(
    op: Operation,
    user_id: Seq<char>,
    nonce: u64,
    timestamp: u64,
) -> Seq<u8> {
    (match op {
        Operation::Put { key, value } => seq![80u8, 85u8, 84u8] + key@ + value@,
        Operation::Get { key } => seq![71u8, 69u8, 84u8] + key@,
        Operation::Delete { key } => seq![68u8, 69u8, 76u8, 69u8, 84u8, 69u8] + key@,
    }) + vstd::utf8::encode_utf8(user_id) + vstd::bytes::spec_u64_to_le_bytes(nonce)
        + vstd::bytes::spec_u64_to_le_bytes(timestamp)
}

/// The digest an operation signature is made over.
pub open spec fn spec_operation_hash(
    op: Operation,
    user_id: Seq<char>,
    nonce: u64,
    timestamp: u64,
) -> Seq<u8> {
    sha256_of(spec_operation_hash_input(op, user_id, nonce, timestamp))
}

/// Stateless cryptographic helpers.
#[derive(Debug)]
pub struct CryptoUtils;

impl CryptoUtils {
    /// Signs raw bytes under a 32-byte secret key; any other length is
    /// refused.
    pub fn sign_data(data: &[u8], private_key: &Vec<u8>) -> (r: Result<Vec<u8>, AuthError>)
        ensures
            r is Ok <==> private_key@.len() == 32,
            r matches Ok(sig) ==> sig@ == ed25519_sign_of(data@, private_key@) && sig@.len()
                == 64,
    {
        if private_key.len() != 32 {
            return Err(AuthError::CryptographicError("private key must be 32 bytes".to_owned()));
        }
        Ok(ed25519_sign(data, private_key.as_slice()))
    }

    /// Verifies a signature over raw bytes under a 32-byte public key. Keys
    /// or signatures of the wrong length, and key bytes that decode to no
    /// valid point, are refused.
    pub fn verify_signature(data: &[u8], signature: &[u8], public_key: &Vec<u8>) -> (r: Result<
        bool,
        AuthError,
    >)
        ensures
            public_key@.len() != 32 || signature@.len() != 64 ==> r is Err,
            r matches Ok(b) ==> b == ed25519_verifies(data@, signature@, public_key@),
    {
        if public_key.len() != 32 {
            return Err(AuthError::CryptographicError("public key must be 32 bytes".to_owned()));
        }
        if signature.len() != 64 {
            return Err(AuthError::CryptographicError("signature must be 64 bytes".to_owned()));
        }
        match ed25519_check(data, signature, public_key.as_slice()) {
            Some(b) => Ok(b),
            None => Err(AuthError::CryptographicError("malformed key or signature".to_owned())),
        }
    }

    /// Hashes raw bytes with SHA-256.
    pub fn hash_data(data: &[u8]) -> (r: Vec<u8>)
        ensures
            r@ == sha256_of(data@),
            r@.len() == 32,
    {
        sha256(data)
    }

    /// Hashes a password with its salt.
    pub fn hash_password(password: &str, salt: &[u8]) -> (r: Vec<u8>)
        ensures
            r@ == spec_password_hash(password@, salt@),
            r@.len() == 32,
    {
        let mut input: Vec<u8> = Vec::new();
        extend_bytes(&mut input, password.as_bytes());
        extend_bytes(&mut input, salt);
        proof {
            assert(input@ =~= vstd::utf8::encode_utf8(password@) + salt@);
        }
        sha256(input.as_slice())
    }

    /// Draws a fresh 32-byte random salt.
    pub fn generate_salt() -> (r: Vec<u8>)
        ensures
            r@.len() == 32,
    {
        random_bytes_32()
    }

    /// The digest binding an operation to a user, nonce and timestamp.
    pub fn create_operation_hash(
        operation: &Operation,
        user_id: &str,
        nonce: u64,
        timestamp: u64,
    ) -> (r: Vec<u8>)
        ensures
            r@ == spec_operation_hash(*operation, user_id@, nonce, timestamp),
            r@.len() == 32,
    {
        let mut input: Vec<u8> = Vec::new();
        match operation {
            Operation::Put { key, value } => {
                input.push(80u8);
                input.push(85u8);
                input.push(84u8);
                extend_bytes(&mut input, key.as_slice());
                extend_bytes(&mut input, value.as_slice());
            },
            Operation::Get { key } => {
                input.push(71u8);
                input.push(69u8);
                input.push(84u8);
                extend_bytes(&mut input, key.as_slice());
            },
            Operation::Delete { key } => {
                input.push(68u8);
                input.push(69u8);
                input.push(76u8);
                input.push(69u8);
                input.push(84u8);
                input.push(69u8);
                extend_bytes(&mut input, key.as_slice());
            },
        }
        extend_bytes(&mut input, user_id.as_bytes());
        let nonce_bytes = vstd::bytes::u64_to_le_bytes(nonce);
        extend_bytes(&mut input, nonce_bytes.as_slice());
        let ts_bytes = vstd::bytes::u64_to_le_bytes(timestamp);
        extend_bytes(&mut input, ts_bytes.as_slice());
        proof {
            assert(input@ =~= spec_operation_hash_input(*operation, user_id@, nonce, timestamp));
        }
        sha256(input.as_slice())
    }
}

/// An operation bound to its issuer by a signature over the operation, the
/// user, a nonce and a timestamp.
#[derive(Clone, Debug)]
pub struct AuthenticatedOperation {
    pub operation: Operation,
    pub user_id: String,
    pub signature: Vec<u8>,
    pub nonce: u64,
    pub timestamp: u64,
}

impl AuthenticatedOperation {
    /// Signs an operation under the user's 32-byte secret key, stamped with
    /// the current clock time.
    pub fn new(operation: Operation, user_id: String, private_key: &Vec<u8>, nonce: u64) -> (r:
        Result<AuthenticatedOperation, AuthError>)
        ensures
            r is Ok <==> private_key@.len() == 32,
            r matches Ok(a) ==> {
                &&& a.user_id@ == user_id@
                &&& a.nonce == nonce
                &&& a.signature@ == ed25519_sign_of(
                    spec_operation_hash(a.operation, user_id@, nonce, a.timestamp),
                    private_key@,
                )
            },
    {
        let timestamp = now_secs();
        let operation_hash = CryptoUtils::create_operation_hash(
            &operation,
            user_id.as_str(),
            nonce,
            timestamp,
        );
        let signature = match CryptoUtils::sign_data(operation_hash.as_slice(), private_key) {
            Ok(sig) => sig,
            Err(e) => {
                return Err(e);
            },
        };
        Ok(AuthenticatedOperation { operation, user_id, signature, nonce, timestamp })
    }

    /// Verifies the signature under the given 32-byte public key.
    pub fn verify(&self, public_key: &Vec<u8>) -> (r: Result<bool, AuthError>)
        ensures
            public_key@.len() != 32 || self.signature@.len() != 64 ==> r is Err,
            r matches Ok(b) ==> b == ed25519_verifies(
                spec_operation_hash(self.operation, self.user_id@, self.nonce, self.timestamp),
                self.signature@,
                public_key@,
            ),
    {
        let operation_hash = CryptoUtils::create_operation_hash(
            &self.operation,
            self.user_id.as_str(),
            self.nonce,
            self.timestamp,
        );
        CryptoUtils::verify_signature(
            operation_hash.as_slice(),
            self.signature.as_slice(),
            public_key,
        )
    }
}

/// A live session: the user, the session token, the permission snapshot and
/// the validity window.
#[derive(Clone, Debug)]
pub struct AuthContext {
    pub user_id: String,
    pub session_id: String,
    pub permissions: Vec<Permission>,
    pub created_at: u64,
    pub expires_at: u64,
}

impl AuthContext {
    /// Opens a session for a user, valid for the given number of seconds
    /// from the current clock time, under a fresh random session token.
    pub fn new(user_id: String, permissions: Vec<Permission>, session_duration_secs: u64) -> (r:
        AuthContext)
        ensures
            r.user_id@ == user_id@,
            r.permissions@ == permissions@,
            r.expires_at == r.created_at + session_duration_secs || r.expires_at == u64::MAX,
    {
        let now = now_secs();
        let expires_at = if now <= u64::MAX - session_duration_secs {
            now + session_duration_secs
        } else {
            u64::MAX
        };
        AuthContext {
            user_id,
            session_id: fresh_session_id(),
            permissions,
            created_at: now,
            expires_at,
        }
    }

    /// Whether the session was already expired at `now`.
    pub fn is_expired_at(&self, now: u64) -> (r: bool)
        ensures
            r == (now >= self.expires_at),
    {
        now >= self.expires_at
    }

    /// Whether the session has expired, by the clock.
    pub fn is_expired(&self) -> bool {
        let now = now_secs();
        self.is_expired_at(now)
    }

    /// Whether the session's permission snapshot holds exactly this
    /// permission.
    pub fn has_permission(&self, required: &Permission) -> (r: bool)
        ensures
            r == self.permissions@.contains(*required),
    {
        let mut i: usize = 0;
        while i < self.permissions.len()
            invariant
                0 <= i <= self.permissions@.len(),
                forall|j: int| 0 <= j < i ==> self.permissions@[j] != *required,
            decreases self.permissions@.len() - i,
        {
            if self.permissions[i] == *required {
                assert(self.permissions@[i as int] == *required);
                return true;
            }
            i += 1;
        }
        false
    }

    /// A copy of the session.
    pub fn duplicate(&self) -> (r: AuthContext)
        ensures
            r.user_id@ == self.user_id@,
            r.session_id@ == self.session_id@,
            r.permissions@ == self.permissions@,
            r.created_at == self.created_at,
            r.expires_at == self.expires_at,
    {
        let r = AuthContext {
            user_id: self.user_id.clone(),
            session_id: self.session_id.clone(),
            permissions: self.permissions.clone(),
            created_at: self.created_at,
            expires_at: self.expires_at,
        };
        proof {
            assert(r.permissions@ =~= self.permissions@);
        }
        r
    }
}

} // verus!
