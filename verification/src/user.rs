//! User accounts: passwords kept as SHA-512 hex digests, roles, the
//! protected root user, and authentication.
//!
//! Times are Unix seconds.

use vstd::prelude::*;
use crate::clock::unix_time_secs;
use crate::error::{Result, SynapError};
use crate::keyed::{Keyed, entries_map};
use crate::password::{password_refusal, validate_password, PasswordRequirements};
use crate::permissions::{Action, Permission, Role, perm_view};
use crate::text::{concat, owned, same_text};

verus! {

// ---------------------------------------------------------------------------
// Password digests
// ---------------------------------------------------------------------------

/// The SHA-512 digest of `data`, as `sha2::Sha512::digest` computes it.
pub uninterp spec fn sha512_of(data: Seq<u8>) -> Seq<u8>;

/// `sha2::Sha512::digest`: the digest is a function of the data alone and
/// is 64 bytes long; what it is, is left to the name `sha512_of`.
#[verifier::external_body]
fn sha512_digest(data: &[u8]) -> (r: Vec<u8>)
    ensures
        r@ == sha512_of(data@),
        r@.len() == 64,
{
    <sha2::Sha512 as sha2::Digest>::digest(data).to_vec()
}

/// The lowercase hex digit of a value below 16.
pub open spec fn hex_digit(d: u8) -> char {
    if d < 10 { ((48 + d) as u8) as char } else { ((87 + d) as u8) as char }
}

/// Lowercase hex text of `b`: two digits per byte, high one first.
pub open spec fn hex_text(b: Seq<u8>) -> Seq<char>
    decreases b.len(),
{
    if b.len() == 0 {
        Seq::empty()
    } else {
        hex_text(b.drop_last()) + seq![hex_digit(b.last() / 16), hex_digit(b.last() % 16)]
    }
}

/// `hex::encode`: each byte as two lowercase hex digits, high one first.
#[verifier::external_body]
fn hex_encode(data: &[u8]) -> (r: String)
    ensures
        r@ == hex_text(data@),
{
    hex::encode(data)
}

/// The stored form of a password: the hex text of the SHA-512 digest of
/// its UTF-8 bytes.
pub open spec fn password_hash_of(p: Seq<char>) -> Seq<char> {
    hex_text(sha512_of(vstd::utf8::encode_utf8(p)))
}

fn hash_password(password: &str) -> (r: String)
    ensures
        r@ == password_hash_of(password@),
{
    let d = sha512_digest(password.as_bytes());
    hex_encode(d.as_slice())
}

/// Why the default password rules refuse `p`, if they do.
pub open spec fn default_refusal(p: &str) -> Option<Seq<char>> {
    password_refusal(
        PasswordRequirements {
            min_length: 8,
            require_uppercase: false,
            require_lowercase: false,
            require_numbers: false,
            require_special: false,
            reject_common_passwords: true,
        },
        p,
    )
}

// ---------------------------------------------------------------------------
// Users
// ---------------------------------------------------------------------------

/// The views of a list of texts.
pub open spec fn texts(v: Seq<String>) -> Seq<Seq<char>> {
    v.map_values(|s: String| s@)
}

/// `v` without the texts equal to `x`, in order.
pub open spec fn without_text(v: Seq<Seq<char>>, x: Seq<char>) -> Seq<Seq<char>>
    decreases v.len(),
{
    if v.len() == 0 {
        Seq::empty()
    } else {
        let r = without_text(v.drop_last(), x);
        if v.last() == x { r } else { r.push(v.last()) }
    }
}

/// `v` with `x` added at the end unless it is there.
pub open spec fn with_text(v: Seq<Seq<char>>, x: Seq<char>) -> Seq<Seq<char>> {
    if v.contains(x) { v } else { v.push(x) }
}

/// Whether two users hold the same values.
pub open spec fn same_user(a: User, b: User) -> bool {
    &&& a.username == b.username
    &&& a.password_hash == b.password_hash
    &&& a.roles@ == b.roles@
    &&& a.is_admin == b.is_admin
    &&& a.enabled == b.enabled
    &&& a.created_at == b.created_at
    &&& a.last_login == b.last_login
    &&& a.metadata@ == b.metadata@
}

/// A user account.
#[derive(Debug)]
pub struct User {
    pub username: String,
    /// Hex SHA-512 digest of the password.
    pub password_hash: String,
    pub roles: Vec<String>,
    pub is_admin: bool,
    pub enabled: bool,
    /// Creation time (Unix seconds).
    pub created_at: u64,
    /// Time of the last successful login (Unix seconds).
    pub last_login: Option<u64>,
    pub metadata: Vec<(String, String)>,
}

pub(crate) fn copy_texts(v: &Vec<String>) -> (r: Vec<String>)
    ensures
        r@ == v@,
{
    let mut out: Vec<String> = Vec::new();
    let mut i: usize = 0;
    while i < v.len()
        invariant
            i <= v@.len(),
            out@ == v@.take(i as int),
        decreases v@.len() - i,
    {
        out.push(v[i].clone());
        i = i + 1;
        proof {
            assert(out@ =~= v@.take(i as int));
        }
    }
    proof {
        assert(v@.take(v@.len() as int) =~= v@);
    }
    out
}

fn copy_pairs(v: &Vec<(String, String)>) -> (r: Vec<(String, String)>)
    ensures
        r@ == v@,
{
    let mut out: Vec<(String, String)> = Vec::new();
    let mut i: usize = 0;
    while i < v.len()
        invariant
            i <= v@.len(),
            out@ == v@.take(i as int),
        decreases v@.len() - i,
    {
        out.push((v[i].0.clone(), v[i].1.clone()));
        i = i + 1;
        proof {
            assert(out@ =~= v@.take(i as int));
        }
    }
    proof {
        assert(v@.take(v@.len() as int) =~= v@);
    }
    out
}

impl User {
    /// A new enabled user made at `now`, when the password meets the
    /// default rules.
    pub fn new_at(username: &str, password: &str, is_admin: bool, now: u64) -> (r: Result<User>)
        ensures
            match default_refusal(password) {
                Some(m) => r matches Err(SynapError::InvalidRequest(e)) && e@ == m,
                None => r matches Ok(u) && u.username@ == username@ && u.password_hash@ == password_hash_of(password@)
                    && u.roles@.len() == 0 && u.is_admin == is_admin && u.enabled && u.created_at == now
                    && u.last_login is None && u.metadata@.len() == 0,
            },
    {
        match validate_password(password) {
            Ok(()) => {},
            Err(e) => {
                return Err(e);
            },
        }
        Ok(User {
            username: owned(username),
            password_hash: hash_password(password),
            roles: Vec::new(),
            is_admin,
            enabled: true,
            created_at: now,
            last_login: None,
            metadata: Vec::new(),
        })
    }

    /// A new user made now.
    pub fn new(username: &str, password: &str, is_admin: bool) -> (r: Result<User>)
        ensures
            default_refusal(password) is None <==> r is Ok,
            r matches Ok(u) ==> u.username@ == username@ && u.password_hash@ == password_hash_of(password@)
                && u.roles@.len() == 0 && u.is_admin == is_admin && u.enabled
                && u.last_login is None && u.metadata@.len() == 0,
            r matches Err(e) ==> (e matches SynapError::InvalidRequest(m) && Some(m@) == default_refusal(password)),
    {
        let now = unix_time_secs();
        Self::new_at(username, password, is_admin, now)
    }

    /// Whether `password` is this user's.
    pub fn verify_password(&self, password: &str) -> (r: bool)
        ensures
            r == (password_hash_of(password@) == self.password_hash@),
    {
        let h = hash_password(password);
        same_text(h.as_str(), self.password_hash.as_str())
    }

    /// Replace the password, when the new one meets the default rules.
    pub fn change_password(&mut self, new_password: &str) -> (r: Result<()>)
        ensures
            match default_refusal(new_password) {
                Some(m) => (r matches Err(SynapError::InvalidRequest(e)) && e@ == m) && *final(self) == *old(self),
                None => r is Ok && *final(self) == (User { password_hash: final(self).password_hash, ..*old(self) })
                    && final(self).password_hash@ == password_hash_of(new_password@),
            },
    {
        match validate_password(new_password) {
            Ok(()) => {},
            Err(e) => {
                return Err(e);
            },
        }
        self.password_hash = hash_password(new_password);
        Ok(())
    }

    /// Add `role` unless the user has it.
    pub fn add_role(&mut self, role: &str)
        ensures
            texts(final(self).roles@) == with_text(texts(old(self).roles@), role@),
            *final(self) == (User { roles: final(self).roles, ..*old(self) }),
    {
        let mut i: usize = 0;
        while i < self.roles.len()
            invariant
                i <= self.roles@.len(),
                forall|j: int| 0 <= j < i ==> (#[trigger] self.roles@[j])@ != role@,
            decreases self.roles@.len() - i,
        {
            if same_text(self.roles[i].as_str(), role) {
                proof {
                    assert(texts(self.roles@)[i as int] == role@);
                }
                return;
            }
            i = i + 1;
        }
        let ghost before = texts(self.roles@);
        proof {
            if before.contains(role@) {
                let w = choose|w: int| 0 <= w < before.len() && before[w] == role@;
                assert(self.roles@[w]@ == role@);
            }
        }
        self.roles.push(owned(role));
        proof {
            assert(texts(self.roles@) =~= before.push(role@));
        }
    }

    /// Remove every copy of `role`.
    pub fn remove_role(&mut self, role: &str)
        ensures
            texts(final(self).roles@) == without_text(texts(old(self).roles@), role@),
            *final(self) == (User { roles: final(self).roles, ..*old(self) }),
    {
        let ghost v = texts(self.roles@);
        let mut kept: Vec<String> = Vec::new();
        let mut i: usize = 0;
        proof {
            assert(v.take(0) =~= Seq::<Seq<char>>::empty());
            assert(texts(kept@) =~= Seq::<Seq<char>>::empty());
        }
        while i < self.roles.len()
            invariant
                v == texts(self.roles@),
                i <= self.roles@.len(),
                texts(kept@) == without_text(v.take(i as int), role@),
            decreases self.roles@.len() - i,
        {
            proof {
                assert(v.take(i + 1).drop_last() =~= v.take(i as int));
                assert(v.take(i + 1).last() == v[i as int]);
            }
            let ghost before = texts(kept@);
            if !same_text(self.roles[i].as_str(), role) {
                kept.push(self.roles[i].clone());
                proof {
                    assert(texts(kept@) =~= before.push(v[i as int]));
                }
            }
            i = i + 1;
        }
        proof {
            assert(v.take(self.roles@.len() as int) =~= v);
        }
        self.roles = kept;
    }

    /// Record a login at time `now`.
    pub fn update_last_login_at(&mut self, now: u64)
        ensures
            *final(self) == (User { last_login: Some(now), ..*old(self) }),
    {
        self.last_login = Some(now);
    }

    /// Record a login now.
    pub fn update_last_login(&mut self)
        ensures
            final(self).last_login is Some,
            *final(self) == (User { last_login: final(self).last_login, ..*old(self) }),
    {
        let now = unix_time_secs();
        self.update_last_login_at(now)
    }

    /// A copy.
    pub fn duplicate(&self) -> (r: User)
        ensures
            same_user(r, *self),
    {
        User {
            username: self.username.clone(),
            password_hash: self.password_hash.clone(),
            roles: copy_texts(&self.roles),
            is_admin: self.is_admin,
            enabled: self.enabled,
            created_at: self.created_at,
            last_login: self.last_login,
            metadata: copy_pairs(&self.metadata),
        }
    }

    fn blank() -> (r: User)
        ensures
            r.username@.len() == 0 && r.password_hash@.len() == 0 && r.roles@.len() == 0,
            !r.is_admin && !r.enabled && r.created_at == 0 && r.last_login is None,
            r.metadata@.len() == 0,
    {
        User {
            username: String::new(),
            password_hash: String::new(),
            roles: Vec::new(),
            is_admin: false,
            enabled: false,
            created_at: 0,
            last_login: None,
            metadata: Vec::new(),
        }
    }
}

// ---------------------------------------------------------------------------
// The user manager
// ---------------------------------------------------------------------------

/// The permissions the roles named `names` grant, in order; names of
/// missing roles grant nothing.
pub open spec fn role_perms(roles: Map<Seq<char>, Role>, names: Seq<Seq<char>>) -> Seq<(Seq<char>, Action)>
    decreases names.len(),
{
    if names.len() == 0 {
        Seq::empty()
    } else {
        let r = role_perms(roles, names.drop_last());
        if roles.contains_key(names.last()) {
            r + roles[names.last()].permissions@.map_values(|p: Permission| perm_view(p))
        } else {
            r
        }
    }
}

/// What a user's permissions are: all actions on all resources for an
/// administrator, else those of the user's roles.
pub open spec fn user_perms(users: Map<Seq<char>, User>, roles: Map<Seq<char>, Role>, name: Seq<char>) -> Seq<(Seq<char>, Action)> {
    if !users.contains_key(name) {
        Seq::empty()
    } else if users[name].is_admin {
        seq![("*"@, Action::All)]
    } else {
        role_perms(roles, texts(users[name].roles@))
    }
}

fn copy_permissions(v: &Vec<Permission>) -> (r: Vec<Permission>)
    ensures
        r@ == v@,
{
    let mut out: Vec<Permission> = Vec::new();
    let mut i: usize = 0;
    while i < v.len()
        invariant
            i <= v@.len(),
            out@ == v@.take(i as int),
        decreases v@.len() - i,
    {
        out.push(Permission { resource_pattern: v[i].resource_pattern.clone(), action: v[i].action });
        i = i + 1;
        proof {
            assert(out@ =~= v@.take(i as int));
        }
    }
    proof {
        assert(v@.take(v@.len() as int) =~= v@);
    }
    out
}

/// The users, the roles by name, and the root user.
#[derive(Debug)]
pub struct UserManager {
    users: Keyed<User>,
    roles: Keyed<Role>,
    root_username: Option<String>,
}

impl UserManager {
    /// The users by name.
    pub closed spec fn users(&self) -> Map<Seq<char>, User> {
        self.users@
    }

    /// The users in storage order.
    pub closed spec fn user_entries(&self) -> Seq<(String, User)> {
        self.users.entries()
    }

    /// The roles by name.
    pub closed spec fn roles(&self) -> Map<Seq<char>, Role> {
        self.roles@
    }

    /// The roles in storage order.
    pub closed spec fn role_entries(&self) -> Seq<(String, Role)> {
        self.roles.entries()
    }

    /// The root user's name, when one is configured.
    pub closed spec fn root(&self) -> Option<Seq<char>> {
        match self.root_username {
            Some(r) => Some(r@),
            None => None,
        }
    }

    /// The invariant: no name twice.
    pub closed spec fn wf(&self) -> bool {
        self.users.wf() && self.roles.wf()
    }

    /// No users, the roles `admin` and `readonly`, no root user.
    pub fn new() -> (r: Self)
        ensures
            r.wf(),
            r.users() == Map::<Seq<char>, User>::empty(),
            r.roles().dom() == set!["admin"@, "readonly"@],
            r.roles()["admin"@].permissions@.map_values(|p: Permission| perm_view(p)) == seq![("*"@, Action::All)],
            r.roles()["readonly"@].permissions@.map_values(|p: Permission| perm_view(p)) == seq![("*"@, Action::Read)],
            r.root() is None,
    {
        let mut roles: Keyed<Role> = Keyed::new();
        let admin = Role::admin();
        let readonly = Role::readonly();
        proof {
            reveal_strlit("admin");
            reveal_strlit("readonly");
            assert("admin"@.len() != "readonly"@.len());
        }
        roles.insert(owned("admin"), admin);
        roles.insert(owned("readonly"), readonly);
        let r = UserManager { users: Keyed::new(), roles, root_username: None };
        proof {
            assert(r.roles().dom() =~= set!["admin"@, "readonly"@]);
        }
        r
    }

    /// Whether `username` is the root user.
    pub fn is_root_user(&self, username: &str) -> (r: bool)
        ensures
            r == (self.root() == Some(username@)),
    {
        match &self.root_username {
            Some(root) => same_text(root.as_str(), username),
            None => false,
        }
    }

    /// The root user's name.
    pub fn get_root_username(&self) -> (r: Option<String>)
        ensures
            match r {
                Some(s) => self.root() == Some(s@),
                None => self.root() is None,
            },
    {
        match &self.root_username {
            Some(root) => Some(root.clone()),
            None => None,
        }
    }

    /// Take the user at position `i` out, for change.
    fn take_user(&mut self, i: usize) -> (r: User)
        requires
            old(self).wf(),
            i < old(self).user_entries().len(),
        ensures
            final(self).wf(),
            r == old(self).user_entries()[i as int].1,
            final(self).roles() == old(self).roles(),
            final(self).root() == old(self).root(),
            final(self).user_entries().len() == old(self).user_entries().len(),
            final(self).user_entries()[i as int].0 == old(self).user_entries()[i as int].0,
            final(self).role_entries() == old(self).role_entries(),
            forall|u: User| #[trigger] final(self).users().insert(old(self).user_entries()[i as int].0@, u)
                == old(self).users().insert(old(self).user_entries()[i as int].0@, u),
    {
        let ghost m0 = self.users@;
        let ghost k = self.users.entries()[i as int].0@;
        let r = self.users.replace_at(i, User::blank());
        proof {
            assert forall|u: User| #[trigger] self.users@.insert(k, u) == m0.insert(k, u) by {
                assert(self.users@.insert(k, u) =~= m0.insert(k, u));
            }
        }
        r
    }

    /// Put `u` back at position `i`.
    fn put_user(&mut self, i: usize, u: User)
        requires
            old(self).wf(),
            i < old(self).user_entries().len(),
        ensures
            final(self).wf(),
            final(self).users() == old(self).users().insert(old(self).user_entries()[i as int].0@, u),
            final(self).roles() == old(self).roles(),
            final(self).root() == old(self).root(),
            final(self).role_entries() == old(self).role_entries(),
            final(self).user_entries().len() == old(self).user_entries().len(),
    {
        let _blank = self.users.replace_at(i, u);
    }

    /// The message that a user is missing.
    fn not_found(username: &str) -> (r: SynapError)
        ensures
            r matches SynapError::KeyNotFound(m) && m@ == "User "@ + username@ + " not found"@,
    {
        let a = concat("User ", username);
        SynapError::KeyNotFound(concat(a.as_str(), " not found"))
    }

    /// Whether `after` and `r` are what making `username` the root user at
    /// `now` makes of `before` (see `initialize_root_user_at`).
    pub open spec fn root_initialized(before: Self, after: Self, username: &str, password: &str, enabled: bool, now: u64, r: Result<()>) -> bool {
        let k = username@;
        let present = before.users().contains_key(k);
        let u = before.users()[k];
        let keep_pw = password@.len() == 0;
        let refused = default_refusal(password);
        if present && before.root() == Some(k) {
            if !keep_pw && refused is Some {
                &&& (r matches Err(SynapError::InvalidRequest(e)) && Some(e@) == refused)
                &&& after.users() == before.users()
                &&& after.root() == before.root()
            } else {
                &&& r is Ok
                &&& after.root() == before.root()
                &&& after.users().contains_key(k)
                &&& after.users() == before.users().insert(k, after.users()[k])
                &&& after.users()[k] == (User {
                    enabled,
                    password_hash: after.users()[k].password_hash,
                    ..u
                })
                &&& after.users()[k].password_hash@ == if keep_pw { u.password_hash@ } else { password_hash_of(password@) }
            }
        } else if !present {
            if refused is Some {
                &&& (r matches Err(SynapError::InvalidRequest(e)) && Some(e@) == refused)
                &&& after.users() == before.users()
                &&& after.root() == before.root()
            } else {
                let n = after.users()[k];
                &&& r is Ok
                &&& after.root() == Some(k)
                &&& after.users() == before.users().insert(k, n)
                &&& n.username@ == k && n.password_hash@ == password_hash_of(password@)
                &&& texts(n.roles@) == seq!["admin"@]
                &&& n.is_admin && n.enabled == enabled && n.created_at == now && n.last_login is None
            }
        } else {
            let n = after.users()[k];
            &&& after.users() == before.users().insert(k, n)
            &&& texts(n.roles@) == with_text(texts(u.roles@), "admin"@)
            &&& n.is_admin
            &&& if !keep_pw && refused is Some {
                &&& (r matches Err(SynapError::InvalidRequest(e)) && Some(e@) == refused)
                &&& after.root() == before.root()
                &&& n == (User { is_admin: true, roles: n.roles, ..u })
            } else {
                &&& r is Ok
                &&& after.root() == Some(k)
                &&& n == (User { is_admin: true, roles: n.roles, enabled, password_hash: n.password_hash, ..u })
                &&& n.password_hash@ == if keep_pw { u.password_hash@ } else { password_hash_of(password@) }
            }
        }
    }

    /// Make `username` the root user at time `now`, with `password` (kept
    /// when empty for an existing user) and `enabled`. An existing user
    /// becomes an administrator with the `admin` role; a missing one is
    /// made so. A password refused by the default rules fails the call;
    /// for an existing user that is not yet root, the administrator flag
    /// and role are given first and stay.
    pub fn initialize_root_user_at(&mut self, username: &str, password: &str, enabled: bool, now: u64) -> (r: Result<()>)
        requires
            old(self).wf(),
        ensures
            final(self).wf(),
            final(self).roles() == old(self).roles(),
            Self::root_initialized(*old(self), *final(self), username, password, enabled, now, r),
    {
        proof {
            self.users.lemma_view();
        }
        let is_root = self.is_root_user(username);
        match self.users.index_of(username) {
            Some(i) => {
                let mut u = self.take_user(i);
                if is_root {
                    if !password.is_empty() {
                        match u.change_password(password) {
                            Ok(()) => {},
                            Err(e) => {
                                self.put_user(i, u);
                                proof {
                                    assert(self.users() =~= old(self).users());
                                }
                                return Err(e);
                            },
                        }
                    }
                    u.enabled = enabled;
                    self.put_user(i, u);
                    return Ok(());
                }
                u.is_admin = true;
                u.add_role("admin");
                if !password.is_empty() {
                    match u.change_password(password) {
                        Ok(()) => {},
                        Err(e) => {
                            self.put_user(i, u);
                            return Err(e);
                        },
                    }
                }
                u.enabled = enabled;
                self.put_user(i, u);
                self.root_username = Some(owned(username));
                Ok(())
            },
            None => {
                let mut u = match User::new_at(username, password, true, now) {
                    Ok(u) => u,
                    Err(e) => {
                        return Err(e);
                    },
                };
                u.add_role("admin");
                proof {
                    reveal_strlit("admin");
                    assert(texts(u.roles@) =~= seq!["admin"@]);
                }
                u.enabled = enabled;
                self.users.insert(owned(username), u);
                self.root_username = Some(owned(username));
                Ok(())
            },
        }
    }

    /// Make `username` the root user now (see `initialize_root_user_at`).
    pub fn initialize_root_user(&mut self, username: &str, password: &str, enabled: bool) -> (r: Result<()>)
        requires
            old(self).wf(),
        ensures
            final(self).wf(),
            final(self).roles() == old(self).roles(),
            exists|now: u64| #[trigger] Self::root_initialized(*old(self), *final(self), username, password, enabled, now, r),
    {
        let now = unix_time_secs();
        self.initialize_root_user_at(username, password, enabled, now)
    }

    /// Make an administrator `username` with `password` at time `now` when
    /// there is no user at all.
    pub fn ensure_admin_exists_at(&mut self, username: &str, password: &str, now: u64) -> (r: Result<()>)
        requires
            old(self).wf(),
        ensures
            final(self).wf(),
            final(self).roles() == old(self).roles(),
            final(self).root() == old(self).root(),
            old(self).users().len() > 0 ==> r is Ok && final(self).users() == old(self).users(),
            old(self).users().len() == 0 ==> match default_refusal(password) {
                Some(m) => (r matches Err(SynapError::InvalidRequest(e)) && e@ == m) && final(self).users() == old(self).users(),
                None => {
                    let n = final(self).users()[username@];
                    &&& r is Ok
                    &&& final(self).users() == old(self).users().insert(username@, n)
                    &&& n.username@ == username@ && n.password_hash@ == password_hash_of(password@)
                    &&& texts(n.roles@) == seq!["admin"@] && n.is_admin && n.enabled
                },
            },
    {
        proof {
            self.users.lemma_entries();
        }
        if self.users.len() == 0 {
            let mut admin = match User::new_at(username, password, true, now) {
                Ok(u) => u,
                Err(e) => {
                    return Err(e);
                },
            };
            admin.add_role("admin");
            proof {
                reveal_strlit("admin");
                assert(texts(admin.roles@) =~= seq!["admin"@]);
            }
            self.users.insert(owned(username), admin);
        }
        Ok(())
    }

    /// Make an administrator now when there is no user.
    pub fn ensure_admin_exists(&mut self, username: &str, password: &str) -> (r: Result<()>)
        requires
            old(self).wf(),
        ensures
            final(self).wf(),
            final(self).roles() == old(self).roles(),
            final(self).root() == old(self).root(),
            old(self).users().len() > 0 ==> r is Ok && final(self).users() == old(self).users(),
            old(self).users().len() == 0 ==> match default_refusal(password) {
                Some(m) => (r matches Err(SynapError::InvalidRequest(e)) && e@ == m) && final(self).users() == old(self).users(),
                None => {
                    let n = final(self).users()[username@];
                    &&& r is Ok
                    &&& final(self).users() == old(self).users().insert(username@, n)
                    &&& n.username@ == username@ && n.password_hash@ == password_hash_of(password@)
                    &&& texts(n.roles@) == seq!["admin"@] && n.is_admin && n.enabled
                },
            },
    {
        let now = unix_time_secs();
        self.ensure_admin_exists_at(username, password, now)
    }

    /// Create user `username` at time `now`: refused when the name is taken
    /// or the password breaks the default rules.
    pub fn create_user_at(&mut self, username: &str, password: &str, is_admin: bool, now: u64) -> (r: Result<()>)
        requires
            old(self).wf(),
        ensures
            final(self).wf(),
            final(self).roles() == old(self).roles(),
            final(self).root() == old(self).root(),
            old(self).users().contains_key(username@) ==> (r matches Err(SynapError::InvalidRequest(e))
                && e@ == "User "@ + username@ + " already exists"@) && final(self).users() == old(self).users(),
            !old(self).users().contains_key(username@) ==> match default_refusal(password) {
                Some(m) => (r matches Err(SynapError::InvalidRequest(e)) && e@ == m) && final(self).users() == old(self).users(),
                None => {
                    let n = final(self).users()[username@];
                    &&& r is Ok
                    &&& final(self).users() == old(self).users().insert(username@, n)
                    &&& n.username@ == username@ && n.password_hash@ == password_hash_of(password@)
                    &&& n.roles@.len() == 0 && n.is_admin == is_admin && n.enabled && n.created_at == now
                    &&& n.last_login is None
                },
            },
    {
        if self.users.index_of(username).is_some() {
            let a = concat("User ", username);
            return Err(SynapError::InvalidRequest(concat(a.as_str(), " already exists")));
        }
        let u = match User::new_at(username, password, is_admin, now) {
            Ok(u) => u,
            Err(e) => {
                return Err(e);
            },
        };
        self.users.insert(owned(username), u);
        Ok(())
    }

    /// Create a user now.
    pub fn create_user(&mut self, username: &str, password: &str, is_admin: bool) -> (r: Result<()>)
        requires
            old(self).wf(),
        ensures
            final(self).wf(),
            final(self).roles() == old(self).roles(),
            final(self).root() == old(self).root(),
            old(self).users().contains_key(username@) ==> (r matches Err(SynapError::InvalidRequest(e))
                && e@ == "User "@ + username@ + " already exists"@) && final(self).users() == old(self).users(),
            !old(self).users().contains_key(username@) ==> match default_refusal(password) {
                Some(m) => (r matches Err(SynapError::InvalidRequest(e)) && e@ == m) && final(self).users() == old(self).users(),
                None => {
                    let n = final(self).users()[username@];
                    &&& r is Ok
                    &&& final(self).users() == old(self).users().insert(username@, n)
                    &&& n.username@ == username@ && n.password_hash@ == password_hash_of(password@)
                    &&& n.roles@.len() == 0 && n.is_admin == is_admin && n.enabled
                    &&& n.last_login is None
                },
            },
    {
        let now = unix_time_secs();
        self.create_user_at(username, password, is_admin, now)
    }

    /// Authenticate `username` with `password` at time `now`: a disabled
    /// root user, a missing user, a disabled account and a wrong password
    /// are refused, in that order; a success records the login and answers
    /// a copy of the user.
    pub fn authenticate_at(&mut self, username: &str, password: &str, now: u64) -> (r: Result<User>)
        requires
            old(self).wf(),
        ensures
            final(self).wf(),
            final(self).roles() == old(self).roles(),
            final(self).root() == old(self).root(),
            ({
                let k = username@;
                let u = old(self).users()[k];
                if old(self).users().contains_key(k) && old(self).root() == Some(k) && !u.enabled {
                    (r matches Err(SynapError::InvalidRequest(e)) && e@ == "Root user is disabled"@)
                        && final(self).users() == old(self).users()
                } else if !old(self).users().contains_key(k) {
                    (r matches Err(SynapError::InvalidRequest(e)) && e@ == "Invalid credentials"@)
                        && final(self).users() == old(self).users()
                } else if !u.enabled {
                    (r matches Err(SynapError::InvalidRequest(e)) && e@ == "Account disabled"@)
                        && final(self).users() == old(self).users()
                } else if password_hash_of(password@) != u.password_hash@ {
                    (r matches Err(SynapError::InvalidRequest(e)) && e@ == "Invalid credentials"@)
                        && final(self).users() == old(self).users()
                } else {
                    &&& r matches Ok(v) && same_user(v, User { last_login: Some(now), ..u })
                    &&& final(self).users() == old(self).users().insert(k, User { last_login: Some(now), ..u })
                }
            }),
    {
        proof {
            self.users.lemma_view();
        }
        let is_root = self.is_root_user(username);
        match self.users.index_of(username) {
            None => Err(SynapError::InvalidRequest(owned("Invalid credentials"))),
            Some(i) => {
                let (_k, u0) = self.users.entry_at(i);
                if is_root && !u0.enabled {
                    return Err(SynapError::InvalidRequest(owned("Root user is disabled")));
                }
                if !u0.enabled {
                    return Err(SynapError::InvalidRequest(owned("Account disabled")));
                }
                if !u0.verify_password(password) {
                    return Err(SynapError::InvalidRequest(owned("Invalid credentials")));
                }
                let mut u = self.take_user(i);
                u.update_last_login_at(now);
                let v = u.duplicate();
                self.put_user(i, u);
                Ok(v)
            },
        }
    }

    /// Authenticate now.
    pub fn authenticate(&mut self, username: &str, password: &str) -> (r: Result<User>)
        requires
            old(self).wf(),
        ensures
            final(self).wf(),
            r is Ok <==> (old(self).users().contains_key(username@) && old(self).users()[username@].enabled
                && password_hash_of(password@) == old(self).users()[username@].password_hash@),
            final(self).roles() == old(self).roles(),
            final(self).root() == old(self).root(),
            r is Err ==> final(self).users() == old(self).users(),
            r matches Ok(v) ==> {
                let u = old(self).users()[username@];
                let n = User { last_login: v.last_login, ..u };
                &&& v.last_login is Some
                &&& same_user(v, n)
                &&& final(self).users() == old(self).users().insert(username@, n)
            },
    {
        let now = unix_time_secs();
        self.authenticate_at(username, password, now)
    }

    /// A copy of user `username`.
    pub fn get_user(&self, username: &str) -> (r: Option<User>)
        requires
            self.wf(),
        ensures
            self.users().contains_key(username@) ==> (r matches Some(v) && same_user(v, self.users()[username@])),
            !self.users().contains_key(username@) ==> r is None,
    {
        match self.users.get(username) {
            Some(u) => Some(u.duplicate()),
            None => None,
        }
    }

    /// Delete user `username`; the root user cannot be deleted.
    pub fn delete_user(&mut self, username: &str) -> (r: Result<bool>)
        requires
            old(self).wf(),
        ensures
            final(self).wf(),
            final(self).roles() == old(self).roles(),
            final(self).root() == old(self).root(),
            old(self).root() == Some(username@) ==> (r matches Err(SynapError::InvalidRequest(e))
                && e@ == "Cannot delete root user"@) && final(self).users() == old(self).users(),
            old(self).root() != Some(username@) ==> r == Ok::<bool, SynapError>(old(self).users().contains_key(username@))
                && final(self).users() == old(self).users().remove(username@),
    {
        if self.is_root_user(username) {
            return Err(SynapError::InvalidRequest(owned("Cannot delete root user")));
        }
        Ok(self.users.remove(username).is_some())
    }

    /// Change the password of `username`.
    pub fn change_password(&mut self, username: &str, new_password: &str) -> (r: Result<()>)
        requires
            old(self).wf(),
        ensures
            final(self).wf(),
            final(self).roles() == old(self).roles(),
            final(self).root() == old(self).root(),
            !old(self).users().contains_key(username@) ==> (r matches Err(SynapError::KeyNotFound(e))
                && e@ == "User "@ + username@ + " not found"@) && final(self).users() == old(self).users(),
            old(self).users().contains_key(username@) ==> match default_refusal(new_password) {
                Some(m) => (r matches Err(SynapError::InvalidRequest(e)) && e@ == m) && final(self).users() == old(self).users(),
                None => {
                    let n = final(self).users()[username@];
                    &&& r is Ok
                    &&& final(self).users() == old(self).users().insert(username@, n)
                    &&& n == (User { password_hash: n.password_hash, ..old(self).users()[username@] })
                    &&& n.password_hash@ == password_hash_of(new_password@)
                },
            },
    {
        proof {
            self.users.lemma_view();
        }
        match self.users.index_of(username) {
            None => Err(Self::not_found(username)),
            Some(i) => {
                let mut u = self.take_user(i);
                let r = u.change_password(new_password);
                self.put_user(i, u);
                proof {
                    if r is Err {
                        assert(self.users() =~= old(self).users());
                    }
                }
                r
            },
        }
    }

    /// Enable or disable user `username`.
    pub fn set_user_enabled(&mut self, username: &str, enabled: bool) -> (r: Result<()>)
        requires
            old(self).wf(),
        ensures
            final(self).wf(),
            final(self).roles() == old(self).roles(),
            final(self).root() == old(self).root(),
            !old(self).users().contains_key(username@) ==> (r matches Err(SynapError::KeyNotFound(e))
                && e@ == "User "@ + username@ + " not found"@) && final(self).users() == old(self).users(),
            old(self).users().contains_key(username@) ==> r is Ok
                && final(self).users() == old(self).users().insert(username@, User { enabled, ..old(self).users()[username@] }),
    {
        proof {
            self.users.lemma_view();
        }
        match self.users.index_of(username) {
            None => Err(Self::not_found(username)),
            Some(i) => {
                let mut u = self.take_user(i);
                u.enabled = enabled;
                self.put_user(i, u);
                Ok(())
            },
        }
    }

    /// Disable the root user.
    pub fn disable_root_user(&mut self) -> (r: Result<()>)
        requires
            old(self).wf(),
        ensures
            final(self).wf(),
            final(self).roles() == old(self).roles(),
            final(self).root() == old(self).root(),
            old(self).root() is None ==> (r matches Err(SynapError::InvalidRequest(e))
                && e@ == "No root user configured"@) && final(self).users() == old(self).users(),
            old(self).root() is Some ==> {
                let k = old(self).root()->0;
                if old(self).users().contains_key(k) {
                    r is Ok && final(self).users() == old(self).users().insert(k, User { enabled: false, ..old(self).users()[k] })
                } else {
                    r is Err && final(self).users() == old(self).users()
                }
            },
    {
        match self.get_root_username() {
            Some(root) => self.set_user_enabled(root.as_str(), false),
            None => Err(SynapError::InvalidRequest(owned("No root user configured"))),
        }
    }

    /// The permissions of user `username` (see `user_perms`).
    pub fn get_user_permissions(&self, username: &str) -> (r: Vec<Permission>)
        requires
            self.wf(),
        ensures
            r@.map_values(|p: Permission| perm_view(p)) == user_perms(self.users(), self.roles(), username@),
    {
        let u = match self.users.get(username) {
            Some(u) => u,
            None => {
                let none: Vec<Permission> = Vec::new();
                proof {
                    assert(none@.map_values(|p: Permission| perm_view(p)) =~= Seq::<(Seq<char>, Action)>::empty());
                }
                return none;
            },
        };
        if u.is_admin {
            let mut all: Vec<Permission> = Vec::new();
            all.push(Permission::new("*", Action::All));
            proof {
                assert(all@.map_values(|p: Permission| perm_view(p)) =~= seq![("*"@, Action::All)]);
            }
            return all;
        }
        let ghost names = texts(u.roles@);
        let ghost rm = self.roles();
        let mut out: Vec<Permission> = Vec::new();
        let mut i: usize = 0;
        proof {
            assert(names.take(0) =~= Seq::<Seq<char>>::empty());
            assert(out@.map_values(|p: Permission| perm_view(p)) =~= Seq::<(Seq<char>, Action)>::empty());
        }
        while i < u.roles.len()
            invariant
                self.wf(),
                rm == self.roles(),
                names == texts(u.roles@),
                i <= u.roles@.len(),
                out@.map_values(|p: Permission| perm_view(p)) == role_perms(rm, names.take(i as int)),
            decreases u.roles@.len() - i,
        {
            proof {
                assert(names.take(i + 1).drop_last() =~= names.take(i as int));
                assert(names.take(i + 1).last() == names[i as int]);
            }
            match self.roles.get(u.roles[i].as_str()) {
                Some(role) => {
                    let ghost before = out@;
                    let extra = copy_permissions(&role.permissions);
                    let mut j: usize = 0;
                    while j < extra.len()
                        invariant
                            j <= extra@.len(),
                            out@ == before + extra@.take(j as int),
                        decreases extra@.len() - j,
                    {
                        out.push(Permission { resource_pattern: extra[j].resource_pattern.clone(), action: extra[j].action });
                        j = j + 1;
                        proof {
                            assert(out@ =~= before + extra@.take(j as int));
                        }
                    }
                    proof {
                        assert(extra@.take(extra@.len() as int) =~= extra@);
                        assert(out@.map_values(|p: Permission| perm_view(p)) =~= before.map_values(|p: Permission| perm_view(p))
                            + role.permissions@.map_values(|p: Permission| perm_view(p)));
                    }
                },
                None => {},
            }
            i = i + 1;
        }
        proof {
            assert(names.take(u.roles@.len() as int) =~= names);
        }
        out
    }

    /// The names of all users, in storage order.
    pub fn list_users(&self) -> (r: Vec<String>)
        requires
            self.wf(),
        ensures
            texts(r@) == self.user_entries().map_values(|e: (String, User)| e.0@),
    {
        let n = self.users.len();
        let mut out: Vec<String> = Vec::new();
        let mut i: usize = 0;
        while i < n
            invariant
                self.wf(),
                n == self.user_entries().len(),
                i <= n,
                texts(out@) == self.user_entries().take(i as int).map_values(|e: (String, User)| e.0@),
            decreases n - i,
        {
            let ghost before = texts(out@);
            let (k, _u) = self.users.entry_at(i);
            out.push(k.clone());
            proof {
                assert(texts(out@) =~= before.push(self.user_entries()[i as int].0@));
                assert(self.user_entries().take(i + 1).map_values(|e: (String, User)| e.0@)
                    =~= self.user_entries().take(i as int).map_values(|e: (String, User)| e.0@).push(self.user_entries()[i as int].0@));
            }
            i = i + 1;
        }
        proof {
            assert(self.user_entries().take(n as int) =~= self.user_entries());
        }
        out
    }

    /// Create or replace role `role`.
    pub fn create_role(&mut self, role: Role) -> (r: Result<()>)
        requires
            old(self).wf(),
        ensures
            final(self).wf(),
            r is Ok,
            final(self).roles() == old(self).roles().insert(role.name@, role),
            final(self).users() == old(self).users(),
            final(self).root() == old(self).root(),
    {
        let name = role.name.clone();
        self.roles.insert(name, role);
        Ok(())
    }

    /// A copy of role `name`.
    pub fn get_role(&self, name: &str) -> (r: Option<Role>)
        requires
            self.wf(),
        ensures
            self.roles().contains_key(name@) ==> (r matches Some(x) && x.name == self.roles()[name@].name
                && x.permissions@ == self.roles()[name@].permissions@),
            !self.roles().contains_key(name@) ==> r is None,
    {
        match self.roles.get(name) {
            Some(role) => {
                let perms = copy_permissions(&role.permissions);
                let r = Role { name: role.name.clone(), permissions: perms };
                proof {
                    assert(r.permissions@ == role.permissions@);
                }
                Some(r)
            },
            None => None,
        }
    }

    /// Delete role `name`; answers whether it was there.
    pub fn delete_role(&mut self, name: &str) -> (r: Result<bool>)
        requires
            old(self).wf(),
        ensures
            final(self).wf(),
            r == Ok::<bool, SynapError>(old(self).roles().contains_key(name@)),
            final(self).roles() == old(self).roles().remove(name@),
            final(self).users() == old(self).users(),
            final(self).root() == old(self).root(),
    {
        Ok(self.roles.remove(name).is_some())
    }

    /// The names of all roles, in storage order.
    pub fn list_roles(&self) -> (r: Vec<String>)
        requires
            self.wf(),
        ensures
            texts(r@) == self.role_entries().map_values(|e: (String, Role)| e.0@),
    {
        let n = self.roles.len();
        let mut out: Vec<String> = Vec::new();
        let mut i: usize = 0;
        while i < n
            invariant
                self.wf(),
                n == self.role_entries().len(),
                i <= n,
                texts(out@) == self.role_entries().take(i as int).map_values(|e: (String, Role)| e.0@),
            decreases n - i,
        {
            let ghost before = texts(out@);
            let (k, _v) = self.roles.entry_at(i);
            out.push(k.clone());
            proof {
                assert(texts(out@) =~= before.push(self.role_entries()[i as int].0@));
                assert(self.role_entries().take(i + 1).map_values(|e: (String, Role)| e.0@)
                    =~= self.role_entries().take(i as int).map_values(|e: (String, Role)| e.0@).push(self.role_entries()[i as int].0@));
            }
            i = i + 1;
        }
        proof {
            assert(self.role_entries().take(n as int) =~= self.role_entries());
        }
        out
    }

    /// Give user `username` the role `role_name`, which must exist.
    pub fn add_user_role(&mut self, username: &str, role_name: &str) -> (r: Result<()>)
        requires
            old(self).wf(),
        ensures
            final(self).wf(),
            final(self).roles() == old(self).roles(),
            final(self).root() == old(self).root(),
            !old(self).roles().contains_key(role_name@) ==> (r matches Err(SynapError::InvalidRequest(e))
                && e@ == "Role "@ + role_name@ + " does not exist"@) && final(self).users() == old(self).users(),
            old(self).roles().contains_key(role_name@) && !old(self).users().contains_key(username@)
                ==> (r matches Err(SynapError::KeyNotFound(e)) && e@ == "User "@ + username@ + " not found"@)
                && final(self).users() == old(self).users(),
            old(self).roles().contains_key(role_name@) && old(self).users().contains_key(username@) ==> {
                let n = final(self).users()[username@];
                &&& r is Ok
                &&& final(self).users() == old(self).users().insert(username@, n)
                &&& n == (User { roles: n.roles, ..old(self).users()[username@] })
                &&& texts(n.roles@) == with_text(texts(old(self).users()[username@].roles@), role_name@)
            },
    {
        proof {
            self.users.lemma_view();
        }
        if self.roles.get(role_name).is_none() {
            let a = concat("Role ", role_name);
            return Err(SynapError::InvalidRequest(concat(a.as_str(), " does not exist")));
        }
        match self.users.index_of(username) {
            None => Err(Self::not_found(username)),
            Some(i) => {
                let mut u = self.take_user(i);
                u.add_role(role_name);
                self.put_user(i, u);
                Ok(())
            },
        }
    }

    /// Take the role `role_name` away from user `username`.
    pub fn remove_user_role(&mut self, username: &str, role_name: &str) -> (r: Result<()>)
        requires
            old(self).wf(),
        ensures
            final(self).wf(),
            final(self).roles() == old(self).roles(),
            final(self).root() == old(self).root(),
            !old(self).users().contains_key(username@) ==> (r matches Err(SynapError::KeyNotFound(e))
                && e@ == "User "@ + username@ + " not found"@) && final(self).users() == old(self).users(),
            old(self).users().contains_key(username@) ==> {
                let n = final(self).users()[username@];
                &&& r is Ok
                &&& final(self).users() == old(self).users().insert(username@, n)
                &&& n == (User { roles: n.roles, ..old(self).users()[username@] })
                &&& texts(n.roles@) == without_text(texts(old(self).users()[username@].roles@), role_name@)
            },
    {
        proof {
            self.users.lemma_view();
        }
        match self.users.index_of(username) {
            None => Err(Self::not_found(username)),
            Some(i) => {
                let mut u = self.take_user(i);
                u.remove_role(role_name);
                self.put_user(i, u);
                Ok(())
            },
        }
    }
}


/// Every permission of every existing role named in `names` is among the
/// permissions the names grant.
pub proof fn lemma_role_perms_cover(roles: Map<Seq<char>, Role>, names: Seq<Seq<char>>, j: int, k: int)
    requires
        0 <= j < names.len(),
        roles.contains_key(names[j]),
        0 <= k < roles[names[j]].permissions@.len(),
    ensures
        role_perms(roles, names).contains(perm_view(roles[names[j]].permissions@[k])),
    decreases names.len(),
{
    let x = perm_view(roles[names[j]].permissions@[k]);
    let r = role_perms(roles, names.drop_last());
    if j == names.len() - 1 {
        let extra = roles[names.last()].permissions@.map_values(|p: Permission| perm_view(p));
        assert(extra[k] == x);
        assert((r + extra)[r.len() + k] == x);
    } else {
        assert(names.drop_last()[j] == names[j]);
        lemma_role_perms_cover(roles, names.drop_last(), j, k);
        let w = choose|w: int| 0 <= w < r.len() && r[w] == x;
        if roles.contains_key(names.last()) {
            let extra = roles[names.last()].permissions@.map_values(|p: Permission| perm_view(p));
            assert((r + extra)[w] == x);
        }
    }
}

/// The permissions granted by `names` number the permissions of all the
/// existing roles named, one run per name.
pub proof fn lemma_role_perms_len(roles: Map<Seq<char>, Role>, names: Seq<Seq<char>>, j: int)
    requires
        0 <= j < names.len(),
        roles.contains_key(names[j]),
    ensures
        role_perms(roles, names).len() >= roles[names[j]].permissions@.len(),
        role_perms(roles, names).len() >= role_perms(roles, names.take(j)).len() + roles[names[j]].permissions@.len(),
    decreases names.len(),
{
    if j == names.len() - 1 {
        assert(names.take(j) =~= names.drop_last());
    } else {
        assert(names.drop_last()[j] == names[j]);
        assert(names.drop_last().take(j) =~= names.take(j));
        lemma_role_perms_len(roles, names.drop_last(), j);
    }
}

/// A user who is no administrator holds every permission of every
/// existing role the user has.
pub proof fn lemma_user_perms_cover(users: Map<Seq<char>, User>, roles: Map<Seq<char>, Role>, name: Seq<char>, j: int, k: int)
    requires
        users.contains_key(name),
        !users[name].is_admin,
        0 <= j < users[name].roles@.len(),
        roles.contains_key(users[name].roles@[j]@),
        0 <= k < roles[users[name].roles@[j]@].permissions@.len(),
    ensures
        user_perms(users, roles, name).contains(perm_view(roles[users[name].roles@[j]@].permissions@[k])),
{
    let names = texts(users[name].roles@);
    assert(names[j] == users[name].roles@[j]@);
    lemma_role_perms_cover(roles, names, j, k);
}


/// Every permission granted by `names` is a permission of some existing
/// role named there.
pub proof fn lemma_role_perms_sound(roles: Map<Seq<char>, Role>, names: Seq<Seq<char>>, w: int)
    requires
        0 <= w < role_perms(roles, names).len(),
    ensures
        exists|j: int, k: int| 0 <= j < names.len() && roles.contains_key(names[j])
            && 0 <= k < roles[names[j]].permissions@.len()
            && #[trigger] perm_view(roles[names[j]].permissions@[k]) == role_perms(roles, names)[w],
    decreases names.len(),
{
    let r = role_perms(roles, names.drop_last());
    let last = names.len() - 1;
    if w < r.len() {
        lemma_role_perms_sound(roles, names.drop_last(), w);
        let (j, k) = choose|j: int, k: int| 0 <= j < names.drop_last().len() && roles.contains_key(names.drop_last()[j])
            && 0 <= k < roles[names.drop_last()[j]].permissions@.len()
            && #[trigger] perm_view(roles[names.drop_last()[j]].permissions@[k]) == r[w];
        assert(names[j] == names.drop_last()[j]);
        if roles.contains_key(names.last()) {
            let extra = roles[names.last()].permissions@.map_values(|p: Permission| perm_view(p));
            assert((r + extra)[w] == r[w]);
        }
        assert(perm_view(roles[names[j]].permissions@[k]) == role_perms(roles, names)[w]);
    } else {
        let extra = roles[names.last()].permissions@.map_values(|p: Permission| perm_view(p));
        let k = w - r.len();
        assert((r + extra)[w] == extra[k]);
        assert(perm_view(roles[names[last]].permissions@[k]) == role_perms(roles, names)[w]);
    }
}

/// Granting more roles keeps the permissions already granted, in order,
/// in front: the permissions of the first `j` names are a prefix.
pub proof fn lemma_role_perms_prefix(roles: Map<Seq<char>, Role>, names: Seq<Seq<char>>, j: int)
    requires
        0 <= j <= names.len(),
    ensures
        role_perms(roles, names.take(j)).len() <= role_perms(roles, names).len(),
        role_perms(roles, names).take(role_perms(roles, names.take(j)).len() as int) == role_perms(roles, names.take(j)),
    decreases names.len(),
{
    if j == names.len() {
        assert(names.take(j) =~= names);
        assert(role_perms(roles, names).take(role_perms(roles, names).len() as int) =~= role_perms(roles, names));
    } else {
        assert(names.drop_last().take(j) =~= names.take(j));
        lemma_role_perms_prefix(roles, names.drop_last(), j);
        let p = role_perms(roles, names.take(j));
        let r = role_perms(roles, names.drop_last());
        if roles.contains_key(names.last()) {
            let extra = roles[names.last()].permissions@.map_values(|q: Permission| perm_view(q));
            assert((r + extra).take(p.len() as int) =~= r.take(p.len() as int));
        }
    }
}

} // verus!
