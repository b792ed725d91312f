//! The rotating single-use session-token protocol: issuing a token on
//! login, validating and rotating it on every mutating call, and the
//! password check behind both.
//!
//! The token generators compose the clock, the random generator and the
//! password-hashing library; nothing is known of a generated token
//! beyond being non-empty. The validation and rotation logic is
//! deterministic and carries an exact contract.

use vstd::prelude::*;
use rand::Rng;
use crate::datetime::now_timestamp;
use crate::numfmt::i64_to_string;
use crate::numfmt::u64_to_string;
use crate::store::AuthKey;
use crate::store::Database;
use crate::store::DatabaseView;
use crate::store::DomainError;
use crate::store::FormAddUser;
use crate::store::UserPassView;
use crate::store::lemma_find_set_api_key;
use crate::store::lemma_find_user_by_id_contains;
use crate::store::lemma_find_user_by_name_some;
use crate::store::spec_find_user_by_id;
use crate::store::spec_find_user_by_name;
use crate::store::spec_set_api_key;
use crate::store::str_eq;

verus! {

/// An authentication failure: the caller is not who the request claims.
#[derive(Debug, Clone, Copy, PartialEq, Eq)]
pub enum AuthError {
    /// No user carries the identifier or name.
    NotFound,
    /// The user holds no token: logged out.
    EmptyToken,
    /// The presented token is not the stored one.
    Mismatch,
    /// The password does not match the stored hash.
    BadCredentials,
}

/// Everything a mutating call can fail with.
#[derive(Debug, Clone, Copy, PartialEq, Eq)]
pub enum ApiError {
    Auth(AuthError),
    Domain(DomainError),
    /// The requested username is already taken.
    UsernameTaken,
    /// Token or hash generation failed; the request was not applied.
    Internal,
}

/// Every character of the string is printable ASCII: at or above the
/// space character and below delete. Every bcrypt hash string has this
/// shape (its alphabet is `$`, digits, letters, `.` and `/`), and it is
/// the condition under which pwhash's hash-string parsing and salt
/// decoding cannot abort: the decoder subtracts the space character's
/// code from each salt character and indexes a 96-entry table with the
/// result, so a character below space overflows the subtraction, and
/// the character just past ASCII lands one step past the table.
pub open spec fn printable_ascii(s: Seq<char>) -> bool {
    forall|i: int| 0 <= i < s.len() ==> (#[trigger] s[i]) as int >= 32 && s[i] as int <= 126
}

/// What pwhash's bcrypt verification answers for a password and a hash
/// string: a function of the two values alone.
pub uninterp spec fn bcrypt_matches(password: Seq<char>, hash: Seq<char>) -> bool;

/// Relies on pwhash::bcrypt::verify: it recomputes the hash with the
/// salt, cost and variant parsed out of the hash string and compares,
/// so its answer depends on the two arguments alone. The hash string
/// must be printable ASCII: on anything else the salt decoder can abort
/// instead of failing cleanly.
#[verifier::external_body]
fn bcrypt_verify(password: &str, hash: &str) -> (r: bool)
    requires
        printable_ascii(hash@),
    ensures
        r == bcrypt_matches(password@, hash@),
{
    pwhash::bcrypt::verify(password, hash)
}

/// Relies on pwhash::bcrypt::hash: on success the produced hash string
/// is non-empty, is built from `$`, digits and the bcrypt base64
/// alphabet (all printable ASCII), and verifies against the hashed
/// password, since verification re-runs the hash with the salt and cost
/// recorded in the string.
#[verifier::external_body]
fn bcrypt_hash(password: &str) -> (r: Option<String>)
    ensures
        r matches Some(h) ==> h@.len() > 0 && bcrypt_matches(password@, h@)
            && printable_ascii(h@),
{
    pwhash::bcrypt::hash(password).ok()
}

/// Relies on rand::Rng::gen over the thread generator: a random value,
/// of which nothing is promised.
#[verifier::external_body]
fn random_u64() -> u64 {
    rand::thread_rng().gen::<u64>()
}

/// Generates a fresh session token: a bcrypt hash over the clock reading
/// and a random value. `None` when the hashing library fails.
pub fn new_api_key() -> (r: Option<String>)
    ensures
        r matches Some(k) ==> k@.len() > 0,
{
    let now = now_timestamp();
    let noise = random_u64();
    let mut seed = i64_to_string(now);
    seed.append("+");
    let noise_str = u64_to_string(noise);
    seed.append(noise_str.as_str());
    bcrypt_hash(seed.as_str())
}

/// Generates a fresh session token seeded with the token it replaces,
/// beside the clock reading and a random value. The fresh token never
/// equals the one it replaces: the remote chance of the hash colliding
/// with it is refused like any other generation failure, so a rotation
/// always consumes the old token.
pub fn new_api_key_2(previous: &str) -> (r: Option<String>)
    ensures
        r matches Some(k) ==> k@.len() > 0 && k@ != previous@,
{
    let now = now_timestamp();
    let noise = random_u64();
    let mut seed = i64_to_string(now);
    seed.append("+");
    seed.append(previous);
    seed.append("+");
    let noise_str = u64_to_string(noise);
    seed.append(noise_str.as_str());
    match bcrypt_hash(seed.as_str()) {
        Some(key) => {
            if str_eq(key.as_str(), previous) {
                None
            } else {
                Some(key)
            }
        },
        None => None,
    }
}

impl DatabaseView {
    /// What checking a presented token against the stored one answers,
    /// without rotating anything: the read-only check the stream makes
    /// when it opens.
    pub open spec fn check_api_key(self, user_id: int, presented: Seq<char>) -> Result<
        (),
        AuthError,
    > {
        match spec_find_user_by_id(self.users, user_id) {
            None => Err(AuthError::NotFound),
            Some(u) => if u.api_key.len() == 0 {
                Err(AuthError::EmptyToken)
            } else if u.api_key != presented {
                Err(AuthError::Mismatch)
            } else {
                Ok(())
            },
        }
    }

    /// What validating and rotating a token does: the outcome, and the
    /// store afterward. The store changes only on success, and then only
    /// the stored token of the validated user, which becomes `fresh`.
    pub open spec fn rotate_api_key(
        self,
        user_id: int,
        presented: Seq<char>,
        fresh: Seq<char>,
    ) -> (Result<(), AuthError>, DatabaseView) {
        match self.check_api_key(user_id, presented) {
            Err(e) => (Err(e), self),
            Ok(()) => (
                Ok(()),
                DatabaseView { users: spec_set_api_key(self.users, user_id, fresh), ..self },
            ),
        }
    }

    /// What a login does: on a known username whose stored hash matches
    /// the password, the stored token becomes `fresh` and the user's
    /// identifier comes back.
    pub open spec fn login(
        self,
        username: Seq<char>,
        password: Seq<char>,
        fresh: Seq<char>,
    ) -> (Result<int, AuthError>, DatabaseView) {
        match spec_find_user_by_name(self.users, username) {
            None => (Err(AuthError::NotFound), self),
            Some(u) => if !bcrypt_matches(password, u.pass) {
                (Err(AuthError::BadCredentials), self)
            } else {
                (
                    Ok(u.id),
                    DatabaseView { users: spec_set_api_key(self.users, u.id, fresh), ..self },
                )
            },
        }
    }
}

impl Database {
    /// Validates a presented token against the stored one and installs
    /// the fresh token in its place; on success the fresh token comes
    /// back, and the previous one is no longer stored anywhere.
    pub fn rotate_api_key_with(&mut self, user_id: i64, presented: &str, fresh: String) -> (r:
        Result<String, AuthError>)
        requires
            old(self)@.wf(),
            fresh@.len() > 0,
        ensures
            final(self)@.wf(),
            ({
                let (outcome, post) = old(self)@.rotate_api_key(
                    user_id as int,
                    presented@,
                    fresh@,
                );
                final(self)@ == post && (match outcome {
                    Ok(()) => r matches Ok(k) && k@ == fresh@,
                    Err(e) => r matches Err(e2) && e2 == e,
                })
            }),
    {
        let user = match self.user_select_id(user_id) {
            Ok(user) => user,
            Err(_) => {
                return Err(AuthError::NotFound);
            },
        };
        if user.api_key.as_str().is_empty() {
            return Err(AuthError::EmptyToken);
        }
        if !str_eq(user.api_key.as_str(), presented) {
            return Err(AuthError::Mismatch);
        }
        let returned = fresh.clone();
        let _ = self.user_update_api_key(fresh.as_str(), user_id);
        Ok(returned)
    }

    /// Validates a presented token and rotates it to a freshly generated
    /// one; the rotation itself behaves as [`DatabaseView::rotate_api_key`]
    /// says for whatever fresh token the generator produced.
    pub fn verification_api_key_de_utilisateur(&mut self, user_id: i64, api_key: &str) -> (r:
        Result<String, ApiError>)
        requires
            old(self)@.wf(),
        ensures
            final(self)@.wf(),
            match r {
                Ok(k) => exists|fresh: Seq<char>|
                    fresh.len() > 0 && fresh != api_key@ && k@ == fresh
                        && #[trigger] old(self)@.rotate_api_key(
                        user_id as int,
                        api_key@,
                        fresh,
                    ) == (Ok::<(), AuthError>(()), final(self)@),
                Err(ApiError::Auth(e)) => final(self)@ == old(self)@ && old(
                    self,
                )@.rotate_api_key(user_id as int, api_key@, Seq::<char>::empty()).0 == Err::<
                    (),
                    AuthError,
                >(e),
                Err(ApiError::Internal) => final(self)@ == old(self)@,
                _ => false,
            },
    {
        let fresh = match new_api_key_2(api_key) {
            Some(fresh) => fresh,
            None => {
                return Err(ApiError::Internal);
            },
        };
        let ghost fresh_view = fresh@;
        match self.rotate_api_key_with(user_id, api_key, fresh) {
            Ok(k) => {
                proof {
                    assert(old(self)@.rotate_api_key(user_id as int, api_key@, fresh_view)
                        == (Ok::<(), AuthError>(()), self@));
                }
                Ok(k)
            },
            Err(e) => Err(ApiError::Auth(e)),
        }
    }

    /// Checks a password against the stored hash for a username and, on
    /// success, stores `fresh` as the user's token and hands back the
    /// user's identifier with it.
    pub fn login_with(&mut self, username: &str, password: &str, fresh: String) -> (r: Result<
        AuthKey,
        AuthError,
    >)
        requires
            old(self)@.wf(),
            fresh@.len() > 0,
        ensures
            final(self)@.wf(),
            ({
                let (outcome, post) = old(self)@.login(username@, password@, fresh@);
                final(self)@ == post && (match outcome {
                    Ok(id) => r matches Ok(k) && k.user_id as int == id && k.api_key@ == fresh@,
                    Err(e) => r matches Err(e2) && e2 == e,
                })
            }),
    {
        let user = match self.user_select_username(username) {
            Ok(user) => user,
            Err(_) => {
                return Err(AuthError::NotFound);
            },
        };
        proof {
            lemma_find_user_by_name_some(old(self)@.users, username@);
            let found = spec_find_user_by_name(old(self)@.users, username@)->Some_0;
            let i = choose|i: int|
                0 <= i < old(self)@.users.len() && old(self)@.users[i] == found;
            assert(old(self)@.users[i].wf());
        }
        if !bcrypt_verify(password, user.pass.as_str()) {
            return Err(AuthError::BadCredentials);
        }
        let returned = AuthKey { user_id: user.id, api_key: fresh.clone() };
        let _ = self.user_update_api_key(fresh.as_str(), user.id);
        Ok(returned)
    }

    /// Verifies the password for a username and issues a freshly
    /// generated token; the issue itself behaves as
    /// [`DatabaseView::login`] says for whatever token the generator
    /// produced. A generated token that equals the one already stored is
    /// refused like a generation failure, so a successful login always
    /// invalidates the previous token.
    pub fn connecter_utilisateur(&mut self, username: &str, password: &str) -> (r: Result<
        AuthKey,
        ApiError,
    >)
        requires
            old(self)@.wf(),
        ensures
            final(self)@.wf(),
            match r {
                Ok(k) => exists|fresh: Seq<char>|
                    fresh.len() > 0 && k.api_key@ == fresh && (match spec_find_user_by_name(
                        old(self)@.users,
                        username@,
                    ) {
                        Some(u) => fresh != u.api_key,
                        None => true,
                    }) && #[trigger] old(self)@.login(
                        username@,
                        password@,
                        fresh,
                    ) == (Ok::<int, AuthError>(k.user_id as int), final(self)@),
                Err(ApiError::Auth(e)) => final(self)@ == old(self)@ && old(self)@.login(
                    username@,
                    password@,
                    Seq::<char>::empty(),
                ).0 == Err::<int, AuthError>(e),
                Err(ApiError::Internal) => final(self)@ == old(self)@,
                _ => false,
            },
    {
        let fresh = match new_api_key() {
            Some(fresh) => fresh,
            None => {
                return Err(ApiError::Internal);
            },
        };
        match self.user_select_username(username) {
            Ok(user) => {
                if str_eq(fresh.as_str(), user.api_key.as_str()) {
                    // The fresh token must consume the stored one; refuse
                    // the freak collision like a generation failure.
                    return Err(ApiError::Internal);
                }
            },
            Err(_) => {},
        }
        let ghost fresh_view = fresh@;
        match self.login_with(username, password, fresh) {
            Ok(k) => {
                proof {
                    assert(old(self)@.login(username@, password@, fresh_view) == (
                        Ok::<int, AuthError>(k.user_id as int),
                        self@,
                    ));
                }
                Ok(k)
            },
            Err(e) => Err(ApiError::Auth(e)),
        }
    }

    /// Creates a user: hashes the password, issues a first session
    /// token, and inserts the record if the username is free.
    pub fn ajout_user(&mut self, user: FormAddUser) -> (r: Result<AuthKey, ApiError>)
        requires
            old(self)@.wf(),
            old(self)@.next_user_id < i64::MAX,
        ensures
            final(self)@.wf(),
            match r {
                Ok(k) => k.user_id as int == old(self)@.next_user_id && k.api_key@.len() > 0
                    && !old(self)@.has_username(user.username@) && exists|hash: Seq<char>|
                    bcrypt_matches(user.password@, hash) && final(self)@ == (DatabaseView {
                        users: old(self)@.users.push(
                            UserPassView {
                                id: old(self)@.next_user_id,
                                username: user.username@,
                                pass: hash,
                                api_key: k.api_key@,
                            },
                        ),
                        next_user_id: old(self)@.next_user_id + 1,
                        ..old(self)@
                    }),
                Err(ApiError::UsernameTaken) => final(self)@ == old(self)@ && old(
                    self,
                )@.has_username(user.username@),
                Err(ApiError::Internal) => final(self)@ == old(self)@,
                _ => false,
            },
    {
        let napi = match new_api_key() {
            Some(napi) => napi,
            None => {
                return Err(ApiError::Internal);
            },
        };
        let hash = match bcrypt_hash(user.password.as_str()) {
            Some(hash) => hash,
            None => {
                return Err(ApiError::Internal);
            },
        };
        let key = napi.clone();
        match self.insert_user(user.username, hash, napi) {
            Some(id) => Ok(AuthKey { user_id: id, api_key: key }),
            None => Err(ApiError::UsernameTaken),
        }
    }
}

/// Single-use token: once an authenticated action has rotated a user's
/// token to a genuinely fresh value, every subsequent authenticated call
/// presenting the consumed token is rejected, whatever fresh value that
/// call would install. The token generator guarantees the hypotheses:
/// a generated key is non-empty and never equals the key it replaces.
pub proof fn lemma_single_use_token(
    db: DatabaseView,
    user_id: int,
    token: Seq<char>,
    fresh: Seq<char>,
    later: Seq<char>,
)
    requires
        fresh != token,
        fresh.len() > 0,
        db.rotate_api_key(user_id, token, fresh).0 is Ok,
    ensures
        db.rotate_api_key(user_id, token, fresh).1.rotate_api_key(user_id, token, later).0
            == Err::<(), AuthError>(AuthError::Mismatch),
{
    let post = db.rotate_api_key(user_id, token, fresh).1;
    lemma_find_set_api_key(db.users, user_id, fresh, user_id);
    let u = spec_find_user_by_id(db.users, user_id)->Some_0;
    assert(spec_find_user_by_id(post.users, user_id) == Some(
        UserPassView { id: u.id, username: u.username, pass: u.pass, api_key: fresh },
    ));
}

/// A login invalidates the token it replaces: once a login has stored a
/// genuinely fresh token for the user, every subsequent authenticated
/// call presenting the old token is rejected. The login entry point
/// guarantees the hypotheses: it refuses a generated token that equals
/// the one already stored.
pub proof fn lemma_login_invalidates_old_token(
    db: DatabaseView,
    username: Seq<char>,
    password: Seq<char>,
    fresh: Seq<char>,
    old_token: Seq<char>,
    later: Seq<char>,
)
    requires
        fresh != old_token,
        fresh.len() > 0,
        db.login(username, password, fresh).0 is Ok,
    ensures
        ({
            let user_id = db.login(username, password, fresh).0->Ok_0;
            db.login(username, password, fresh).1.rotate_api_key(user_id, old_token, later).0
                == Err::<(), AuthError>(AuthError::Mismatch)
        }),
{
    let user_id = db.login(username, password, fresh).0->Ok_0;
    let post = db.login(username, password, fresh).1;
    let named = spec_find_user_by_name(db.users, username)->Some_0;
    lemma_find_set_api_key(db.users, user_id, fresh, user_id);
    lemma_find_user_by_name_some(db.users, username);
    lemma_find_user_by_id_contains(db.users, named);
    match spec_find_user_by_id(db.users, user_id) {
        None => {
            assert(false);
        },
        Some(u) => {
            assert(spec_find_user_by_id(post.users, user_id) == Some(
                UserPassView { id: u.id, username: u.username, pass: u.pass, api_key: fresh },
            ));
        },
    }
}

} // verus!
