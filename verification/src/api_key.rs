//! API keys: random secrets with permissions, an optional owner, allowed
//! client addresses and an optional expiry; and the manager that creates,
//! verifies, revokes and expires them.
//!
//! Times are Unix seconds.

use vstd::prelude::*;
use crate::acl::IpAddress;
use crate::clock::unix_time_secs;
use crate::error::{Result, SynapError};
use crate::ids::new_uuid_v4;
use crate::keyed::Keyed;
use crate::permissions::{Action, Permission, any_allows, permission_allows};
use crate::text::{concat, owned, push_char};

verus! {

/// A number below `n` picked at random: `rand`'s `Rng::gen_range` on the
/// thread generator. Only the range is promised.
#[verifier::external_body]
pub(crate) fn random_below(n: usize) -> (r: usize)
    requires
        n > 0,
    ensures
        r < n,
{
    rand::Rng::gen_range(&mut rand::thread_rng(), 0..n)
}

/// The text `IpAddr`'s `Display` gives an address.
pub uninterp spec fn ip_text_of(ip: IpAddress) -> Seq<char>;

/// `core::net::IpAddr`'s `to_string`: the text of an address is a
/// function of the address alone; what it is, is left to `ip_text_of`.
#[verifier::external_body]
fn ip_text(ip: IpAddress) -> (r: String)
    ensures
        r@ == ip_text_of(ip),
{
    match ip {
        IpAddress::V4(o) => core::net::IpAddr::from(o).to_string(),
        IpAddress::V6(o) => core::net::IpAddr::from(o).to_string(),
    }
}

/// Whether two addresses are the same.
pub open spec fn same_ip(a: IpAddress, b: IpAddress) -> bool {
    match (a, b) {
        (IpAddress::V4(x), IpAddress::V4(y)) => x@ == y@,
        (IpAddress::V6(x), IpAddress::V6(y)) => x@ == y@,
        _ => false,
    }
}

fn ip_equal(a: &IpAddress, b: &IpAddress) -> (r: bool)
    ensures
        r == same_ip(*a, *b),
{
    match (a, b) {
        (IpAddress::V4(x), IpAddress::V4(y)) => {
            let mut i: usize = 0;
            while i < 4
                invariant
                    i <= 4,
                    x@.len() == 4 && y@.len() == 4,
                    *a == IpAddress::V4(*x) && *b == IpAddress::V4(*y),
                    forall|j: int| 0 <= j < i ==> x@[j] == y@[j],
                decreases 4 - i,
            {
                if x[i] != y[i] {
                    return false;
                }
                i = i + 1;
            }
            proof {
                assert(x@ =~= y@);
            }
            true
        },
        (IpAddress::V6(x), IpAddress::V6(y)) => {
            let mut i: usize = 0;
            while i < 16
                invariant
                    i <= 16,
                    x@.len() == 16 && y@.len() == 16,
                    *a == IpAddress::V6(*x) && *b == IpAddress::V6(*y),
                    forall|j: int| 0 <= j < i ==> x@[j] == y@[j],
                decreases 16 - i,
            {
                if x[i] != y[i] {
                    return false;
                }
                i = i + 1;
            }
            proof {
                assert(x@ =~= y@);
            }
            true
        },
        _ => false,
    }
}

/// The characters API keys are made of.
pub open spec fn key_charset() -> Seq<char> {
    "ABCDEFGHIJKLMNOPQRSTUVWXYZabcdefghijklmnopqrstuvwxyz0123456789"@
}

/// Whether `k` has the shape of an API key: `sk_` and 32 characters of the
/// key charset.
pub open spec fn key_shape(k: Seq<char>) -> bool {
    &&& k.len() == 35
    &&& k.take(3) == "sk_"@
    &&& forall|i: int| 3 <= i < 35 ==> key_charset().contains(#[trigger] k[i])
}

fn charset_char(i: usize) -> (c: char)
    requires
        i < 62,
    ensures
        c == key_charset()[i as int],
{
    let cs = "ABCDEFGHIJKLMNOPQRSTUVWXYZabcdefghijklmnopqrstuvwxyz0123456789";
    proof {
        reveal_strlit("ABCDEFGHIJKLMNOPQRSTUVWXYZabcdefghijklmnopqrstuvwxyz0123456789");
    }
    cs.get_char(i)
}

/// A random key: `sk_` and 32 characters picked at random from the key
/// charset.
fn generate_key() -> (r: String)
    ensures
        key_shape(r@),
{
    let mut k = owned("sk_");
    proof {
        reveal_strlit("sk_");
        reveal_strlit("ABCDEFGHIJKLMNOPQRSTUVWXYZabcdefghijklmnopqrstuvwxyz0123456789");
    }
    let mut n: usize = 0;
    while n < 32
        invariant
            n <= 32,
            k@.len() == 3 + n,
            k@.take(3) == "sk_"@,
            key_charset().len() == 62,
            forall|i: int| 3 <= i < k@.len() ==> key_charset().contains(#[trigger] k@[i]),
        decreases 32 - n,
    {
        let idx = random_below(62);
        let c = charset_char(idx);
        let ghost before = k@;
        push_char(&mut k, c);
        proof {
            assert(k@ == before.push(c));
            assert(k@.take(3) =~= before.take(3));
            assert forall|i: int| 3 <= i < k@.len() implies key_charset().contains(#[trigger] k@[i]) by {
                if i < before.len() {
                    assert(k@[i] == before[i]);
                } else {
                    assert(k@[i] == c);
                    assert(key_charset()[idx as int] == c);
                }
            }
        }
        n = n + 1;
    }
    k
}

/// An API key.
#[derive(Debug)]
pub struct ApiKey {
    /// Unique identifier (a UUID).
    pub id: String,
    /// The secret.
    pub key: String,
    pub name: String,
    /// The owner, if any.
    pub username: Option<String>,
    pub permissions: Vec<Permission>,
    /// Client addresses allowed; none means any.
    pub allowed_ips: Vec<IpAddress>,
    /// Expiry time (Unix seconds), if any.
    pub expires_at: Option<i64>,
    pub enabled: bool,
    /// Creation time (Unix seconds).
    pub created_at: i64,
    /// Time of the last use (Unix seconds).
    pub last_used_at: Option<i64>,
    pub usage_count: u64,
    pub metadata: Vec<(String, String)>,
}

/// Whether two keys hold the same values.
pub open spec fn same_key(a: ApiKey, b: ApiKey) -> bool {
    &&& a.id == b.id && a.key == b.key && a.name == b.name && a.username == b.username
    &&& a.permissions@ == b.permissions@ && a.allowed_ips@ == b.allowed_ips@
    &&& a.expires_at == b.expires_at && a.enabled == b.enabled && a.created_at == b.created_at
    &&& a.last_used_at == b.last_used_at && a.usage_count == b.usage_count && a.metadata@ == b.metadata@
}

/// Whether a key is usable at `now`: enabled and not past its expiry.
pub open spec fn key_valid(k: ApiKey, now: i64) -> bool {
    k.enabled && match k.expires_at {
        Some(e) => now <= e,
        None => true,
    }
}

/// Whether a key allows requests from `ip`.
pub open spec fn ip_allowed(k: ApiKey, ip: IpAddress) -> bool {
    k.allowed_ips@.len() == 0 || exists|i: int| 0 <= i < k.allowed_ips@.len() && same_ip(#[trigger] k.allowed_ips@[i], ip)
}

/// The expiry `days` days after `now`, held at the range of `i64`.
pub open spec fn expiry_after(now: i64, days: i64) -> i64 {
    let s = now + days * 86400;
    if s > i64::MAX { i64::MAX } else if s < i64::MIN { i64::MIN } else { s as i64 }
}

fn copy_ips(v: &Vec<IpAddress>) -> (r: Vec<IpAddress>)
    ensures
        r@ == v@,
{
    let mut out: Vec<IpAddress> = Vec::new();
    let mut i: usize = 0;
    while i < v.len()
        invariant
            i <= v@.len(),
            out@ == v@.take(i as int),
        decreases v@.len() - i,
    {
        out.push(v[i]);
        i = i + 1;
        proof {
            assert(out@ =~= v@.take(i as int));
        }
    }
    proof {
        assert(v@.take(v@.len() as int) =~= v@);
    }
    out
}

fn copy_perms(v: &Vec<Permission>) -> (r: Vec<Permission>)
    ensures
        r@ == v@,
{
    let mut out: Vec<Permission> = Vec::new();
    let mut i: usize = 0;
    while i < v.len()
        invariant
            i <= v@.len(),
            out@ == v@.take(i as int),
        decreases v@.len() - i,
    {
        out.push(Permission { resource_pattern: v[i].resource_pattern.clone(), action: v[i].action });
        i = i + 1;
        proof {
            assert(out@ =~= v@.take(i as int));
        }
    }
    proof {
        assert(v@.take(v@.len() as int) =~= v@);
    }
    out
}

pub(crate) fn copy_meta(v: &Vec<(String, String)>) -> (r: Vec<(String, String)>)
    ensures
        r@ == v@,
{
    let mut out: Vec<(String, String)> = Vec::new();
    let mut i: usize = 0;
    while i < v.len()
        invariant
            i <= v@.len(),
            out@ == v@.take(i as int),
        decreases v@.len() - i,
    {
        out.push((v[i].0.clone(), v[i].1.clone()));
        i = i + 1;
        proof {
            assert(out@ =~= v@.take(i as int));
        }
    }
    proof {
        assert(v@.take(v@.len() as int) =~= v@);
    }
    out
}

/// The current time as signed Unix seconds.
pub(crate) fn now_secs() -> (r: i64) {
    let t = unix_time_secs();
    if t > 9223372036854775807u64 { i64::MAX } else { t as i64 }
}

impl ApiKey {
    /// A new enabled key made at `now`, with a random secret and a random
    /// identifier, expiring `expires_in_days` days later when given.
    pub fn generate_at(
        name: &str,
        username: Option<String>,
        permissions: Vec<Permission>,
        allowed_ips: Vec<IpAddress>,
        expires_in_days: Option<i64>,
        now: i64,
    ) -> (r: Self)
        ensures
            key_shape(r.key@),
            r.id@.len() == 36,
            r.name@ == name@,
            r.username == username,
            r.permissions@ == permissions@,
            r.allowed_ips@ == allowed_ips@,
            r.expires_at == match expires_in_days {
                Some(d) => Some(expiry_after(now, d)),
                None => None,
            },
            r.enabled,
            r.created_at == now,
            r.last_used_at is None,
            r.usage_count == 0,
            r.metadata@.len() == 0,
    {
        let key = generate_key();
        let id = new_uuid_v4();
        let expires_at = match expires_in_days {
            Some(d) => {
                let s: i128 = (now as i128) + (d as i128) * 86400;
                Some(if s > 9223372036854775807i128 {
                    i64::MAX
                } else if s < -9223372036854775808i128 {
                    i64::MIN
                } else {
                    s as i64
                })
            },
            None => None,
        };
        ApiKey {
            id,
            key,
            name: owned(name),
            username,
            permissions,
            allowed_ips,
            expires_at,
            enabled: true,
            created_at: now,
            last_used_at: None,
            usage_count: 0,
            metadata: Vec::new(),
        }
    }

    /// A new key made now.
    pub fn generate(
        name: &str,
        username: Option<String>,
        permissions: Vec<Permission>,
        allowed_ips: Vec<IpAddress>,
        expires_in_days: Option<i64>,
    ) -> (r: Self)
        ensures
            key_shape(r.key@),
            r.name@ == name@,
            r.id@.len() == 36,
            r.username == username,
            r.permissions@ == permissions@,
            r.allowed_ips@ == allowed_ips@,
            r.enabled,
            r.expires_at == match expires_in_days {
                Some(d) => Some(expiry_after(r.created_at, d)),
                None => None,
            },
            r.last_used_at is None,
            r.usage_count == 0,
            r.metadata@.len() == 0,
    {
        Self::generate_at(name, username, permissions, allowed_ips, expires_in_days, now_secs())
    }

    /// Whether the key is usable at `now`.
    pub fn is_valid_at(&self, now: i64) -> (r: bool)
        ensures
            r == key_valid(*self, now),
    {
        if !self.enabled {
            return false;
        }
        match self.expires_at {
            Some(e) => now <= e,
            None => true,
        }
    }

    /// Whether the key is usable now.
    pub fn is_valid(&self) -> (r: bool)
        ensures
            !self.enabled ==> !r,
            self.enabled && self.expires_at is None ==> r,
            exists|now: i64| r == #[trigger] key_valid(*self, now),
    {
        let now = now_secs();
        self.is_valid_at(now)
    }

    /// Whether requests from `ip` may use the key.
    pub fn is_ip_allowed(&self, ip: IpAddress) -> (r: bool)
        ensures
            r == ip_allowed(*self, ip),
    {
        if self.allowed_ips.len() == 0 {
            return true;
        }
        let mut i: usize = 0;
        while i < self.allowed_ips.len()
            invariant
                i <= self.allowed_ips@.len(),
                forall|j: int| 0 <= j < i ==> !same_ip(#[trigger] self.allowed_ips@[j], ip),
            decreases self.allowed_ips@.len() - i,
        {
            if ip_equal(&self.allowed_ips[i], &ip) {
                return true;
            }
            i = i + 1;
        }
        false
    }

    /// Record a use at `now`.
    pub fn mark_used_at(&mut self, now: i64)
        ensures
            *final(self) == (ApiKey {
                last_used_at: Some(now),
                usage_count: old(self).usage_count.wrapping_add(1),
                ..*old(self)
            }),
    {
        self.last_used_at = Some(now);
        self.usage_count = self.usage_count.wrapping_add(1);
    }

    /// Record a use now.
    pub fn mark_used(&mut self)
        ensures
            final(self).last_used_at is Some,
            final(self).usage_count == old(self).usage_count.wrapping_add(1),
            *final(self) == (ApiKey {
                last_used_at: final(self).last_used_at,
                usage_count: old(self).usage_count.wrapping_add(1),
                ..*old(self)
            }),
    {
        self.mark_used_at(now_secs())
    }

    /// Whether one of the key's permissions allows `action` on `resource`.
    pub fn has_permission(&self, resource: &str, action: Action) -> (r: bool)
        ensures
            r == any_allows(self.permissions@, resource@, action),
    {
        let mut i: usize = 0;
        while i < self.permissions.len()
            invariant
                i <= self.permissions@.len(),
                forall|j: int| 0 <= j < i ==> !permission_allows(#[trigger] self.permissions@[j], resource@, action),
            decreases self.permissions@.len() - i,
        {
            if self.permissions[i].matches(resource, action) {
                return true;
            }
            i = i + 1;
        }
        false
    }

    /// A copy.
    pub fn duplicate(&self) -> (r: Self)
        ensures
            same_key(r, *self),
    {
        ApiKey {
            id: self.id.clone(),
            key: self.key.clone(),
            name: self.name.clone(),
            username: match &self.username {
                Some(u) => Some(u.clone()),
                None => None,
            },
            permissions: copy_perms(&self.permissions),
            allowed_ips: copy_ips(&self.allowed_ips),
            expires_at: self.expires_at,
            enabled: self.enabled,
            created_at: self.created_at,
            last_used_at: self.last_used_at,
            usage_count: self.usage_count,
            metadata: copy_meta(&self.metadata),
        }
    }

    fn blank() -> (r: Self)
        ensures
            r.id@.len() == 0 && r.key@.len() == 0 && r.name@.len() == 0 && r.username is None,
            r.permissions@.len() == 0 && r.allowed_ips@.len() == 0 && r.expires_at is None,
            !r.enabled && r.created_at == 0 && r.last_used_at is None && r.usage_count == 0,
            r.metadata@.len() == 0,
    {
        ApiKey {
            id: String::new(),
            key: String::new(),
            name: String::new(),
            username: None,
            permissions: Vec::new(),
            allowed_ips: Vec::new(),
            expires_at: None,
            enabled: false,
            created_at: 0,
            last_used_at: None,
            usage_count: 0,
            metadata: Vec::new(),
        }
    }
}

// ---------------------------------------------------------------------------
// The key manager
// ---------------------------------------------------------------------------

/// `m` with the keys of `ks` removed, one after the other.
pub open spec fn without_keys<V>(m: Map<Seq<char>, V>, ks: Seq<Seq<char>>) -> Map<Seq<char>, V>
    decreases ks.len(),
{
    if ks.len() == 0 { m } else { without_keys(m, ks.drop_last()).remove(ks.last()) }
}

/// Whether a key has expired at `now`.
pub open spec fn key_expired(k: ApiKey, now: i64) -> bool {
    k.expires_at matches Some(e) && now > e
}

/// The identifiers of the keys of `s` that have expired at `now`, in order.
pub open spec fn expired_ids(s: Seq<(String, ApiKey)>, now: i64) -> Seq<Seq<char>>
    decreases s.len(),
{
    if s.len() == 0 {
        Seq::empty()
    } else {
        let r = expired_ids(s.drop_last(), now);
        if key_expired(s.last().1, now) { r.push(s.last().0@) } else { r }
    }
}

/// The secrets of the keys of `s` that have expired at `now`, in order.
pub open spec fn expired_secrets(s: Seq<(String, ApiKey)>, now: i64) -> Seq<Seq<char>>
    decreases s.len(),
{
    if s.len() == 0 {
        Seq::empty()
    } else {
        let r = expired_secrets(s.drop_last(), now);
        if key_expired(s.last().1, now) { r.push(s.last().1.key@) } else { r }
    }
}

/// The keys by identifier, and the identifiers by secret.
#[derive(Debug)]
pub struct ApiKeyManager {
    keys: Keyed<ApiKey>,
    key_index: Keyed<String>,
}

impl ApiKeyManager {
    /// The keys by identifier.
    pub closed spec fn keys(&self) -> Map<Seq<char>, ApiKey> {
        self.keys@
    }

    /// The keys in storage order.
    pub closed spec fn key_entries(&self) -> Seq<(String, ApiKey)> {
        self.keys.entries()
    }

    /// The identifiers by secret.
    pub closed spec fn index(&self) -> Map<Seq<char>, String> {
        self.key_index@
    }

    /// The invariant: no identifier or secret twice.
    pub closed spec fn wf(&self) -> bool {
        self.keys.wf() && self.key_index.wf()
    }

    /// No keys.
    pub fn new() -> (r: Self)
        ensures
            r.wf(),
            r.keys() == Map::<Seq<char>, ApiKey>::empty(),
            r.index() == Map::<Seq<char>, String>::empty(),
    {
        ApiKeyManager { keys: Keyed::new(), key_index: Keyed::new() }
    }

    /// Create a key at `now` (see `ApiKey::generate_at`) and answer it.
    pub fn create_at(
        &mut self,
        name: &str,
        username: Option<String>,
        permissions: Vec<Permission>,
        allowed_ips: Vec<IpAddress>,
        expires_in_days: Option<i64>,
        now: i64,
    ) -> (r: Result<ApiKey>)
        requires
            old(self).wf(),
        ensures
            final(self).wf(),
            r matches Ok(k) && ({
                &&& key_shape(k.key@) && k.id@.len() == 36 && k.name@ == name@ && k.username == username
                &&& k.permissions@ == permissions@ && k.allowed_ips@ == allowed_ips@
                &&& k.expires_at == match expires_in_days {
                    Some(d) => Some(expiry_after(now, d)),
                    None => None,
                }
                &&& k.enabled && k.created_at == now && k.last_used_at is None && k.usage_count == 0
                &&& final(self).keys() == old(self).keys().insert(k.id@, final(self).keys()[k.id@])
                &&& same_key(final(self).keys()[k.id@], k)
                &&& final(self).index().contains_key(k.key@) && final(self).index()[k.key@]@ == k.id@
                &&& final(self).index() == old(self).index().insert(k.key@, final(self).index()[k.key@])
            }),
    {
        let k = ApiKey::generate_at(name, username, permissions, allowed_ips, expires_in_days, now);
        self.key_index.insert(k.key.clone(), k.id.clone());
        let stored = k.duplicate();
        self.keys.insert(k.id.clone(), stored);
        Ok(k)
    }

    /// Create a key now.
    pub fn create(
        &mut self,
        name: &str,
        username: Option<String>,
        permissions: Vec<Permission>,
        allowed_ips: Vec<IpAddress>,
        expires_in_days: Option<i64>,
    ) -> (r: Result<ApiKey>)
        requires
            old(self).wf(),
        ensures
            final(self).wf(),
            r matches Ok(k) && ({
                &&& key_shape(k.key@) && k.id@.len() == 36 && k.name@ == name@ && k.username == username
                &&& k.permissions@ == permissions@ && k.allowed_ips@ == allowed_ips@
                &&& k.expires_at == match expires_in_days {
                    Some(d) => Some(expiry_after(k.created_at, d)),
                    None => None,
                }
                &&& k.enabled && k.last_used_at is None && k.usage_count == 0
                &&& final(self).keys() == old(self).keys().insert(k.id@, final(self).keys()[k.id@])
                &&& same_key(final(self).keys()[k.id@], k)
                &&& final(self).index().contains_key(k.key@) && final(self).index()[k.key@]@ == k.id@
                &&& final(self).index() == old(self).index().insert(k.key@, final(self).index()[k.key@])
            }),
    {
        self.create_at(name, username, permissions, allowed_ips, expires_in_days, now_secs())
    }

    /// Whether `after` and `r` are what checking secret `key` from
    /// `client_ip` at `now` makes of `before` (see `verify_at`).
    pub open spec fn verified_at(before: Self, after: Self, key: Seq<char>, client_ip: IpAddress, now: i64, r: Result<ApiKey>) -> bool {
        let known = before.index().contains_key(key) && before.keys().contains_key(before.index()[key]@);
        let id = before.index()[key]@;
        let k = before.keys()[id];
        if !known {
            (r matches Err(SynapError::InvalidRequest(e)) && e@ == "Invalid API key"@)
                && after.keys() == before.keys()
        } else if !key_valid(k, now) {
            (r matches Err(SynapError::InvalidRequest(e)) && e@ == "API key expired or disabled"@)
                && after.keys() == before.keys()
        } else if !ip_allowed(k, client_ip) {
            (r matches Err(SynapError::InvalidRequest(e))
                && e@ == "IP "@ + ip_text_of(client_ip) + " not allowed for this API key"@)
                && after.keys() == before.keys()
        } else {
            let used = ApiKey { last_used_at: Some(now), usage_count: k.usage_count.wrapping_add(1), ..k };
            &&& r matches Ok(v) && same_key(v, used)
            &&& after.keys() == before.keys().insert(id, used)
        }
    }

    /// Verify the secret `key` for a request from `client_ip` at `now`: an
    /// unknown secret, an invalid key and a refused address fail, in that
    /// order; a success records the use and answers a copy of the key.
    pub fn verify_at(&mut self, key: &str, client_ip: IpAddress, now: i64) -> (r: Result<ApiKey>)
        requires
            old(self).wf(),
        ensures
            final(self).wf(),
            final(self).index() == old(self).index(),
            ({
                let known = old(self).index().contains_key(key@) && old(self).keys().contains_key(old(self).index()[key@]@);
                let id = old(self).index()[key@]@;
                let k = old(self).keys()[id];
                if !known {
                    (r matches Err(SynapError::InvalidRequest(e)) && e@ == "Invalid API key"@)
                        && final(self).keys() == old(self).keys()
                } else if !key_valid(k, now) {
                    (r matches Err(SynapError::InvalidRequest(e)) && e@ == "API key expired or disabled"@)
                        && final(self).keys() == old(self).keys()
                } else if !ip_allowed(k, client_ip) {
                    (r matches Err(SynapError::InvalidRequest(e))
                        && e@ == "IP "@ + ip_text_of(client_ip) + " not allowed for this API key"@)
                        && final(self).keys() == old(self).keys()
                } else {
                    let used = ApiKey { last_used_at: Some(now), usage_count: k.usage_count.wrapping_add(1), ..k };
                    &&& r matches Ok(v) && same_key(v, used)
                    &&& final(self).keys() == old(self).keys().insert(id, used)
                }
            }),
    {
        proof {
            self.keys.lemma_view();
        }
        let id = match self.key_index.get(key) {
            Some(id) => id.clone(),
            None => {
                return Err(SynapError::InvalidRequest(owned("Invalid API key")));
            },
        };
        match self.keys.index_of(id.as_str()) {
            None => Err(SynapError::InvalidRequest(owned("Invalid API key"))),
            Some(i) => {
                let (_k, k0) = self.keys.entry_at(i);
                if !k0.is_valid_at(now) {
                    return Err(SynapError::InvalidRequest(owned("API key expired or disabled")));
                }
                if !k0.is_ip_allowed(client_ip) {
                    let t = ip_text(client_ip);
                    let a = concat("IP ", t.as_str());
                    return Err(SynapError::InvalidRequest(concat(a.as_str(), " not allowed for this API key")));
                }
                let mut k = self.keys.replace_at(i, ApiKey::blank());
                k.mark_used_at(now);
                let v = k.duplicate();
                let _blank = self.keys.replace_at(i, k);
                Ok(v)
            },
        }
    }

    /// Verify a secret now.
    pub fn verify(&mut self, key: &str, client_ip: IpAddress) -> (r: Result<ApiKey>)
        requires
            old(self).wf(),
        ensures
            final(self).wf(),
            final(self).index() == old(self).index(),
            !(old(self).index().contains_key(key@) && old(self).keys().contains_key(old(self).index()[key@]@))
                ==> (r matches Err(SynapError::InvalidRequest(e)) && e@ == "Invalid API key"@),
            exists|now: i64| #[trigger] Self::verified_at(*old(self), *final(self), key@, client_ip, now, r),
    {
        let now = now_secs();
        let r = self.verify_at(key, client_ip, now);
        assert(Self::verified_at(*old(self), *self, key@, client_ip, now, r));
        r
    }

    /// Whether `key` is a known secret.
    pub fn key_exists(&self, key: &str) -> (r: bool)
        requires
            self.wf(),
        ensures
            r == self.index().contains_key(key@),
    {
        self.key_index.get(key).is_some()
    }

    /// A copy of key `id`.
    pub fn get(&self, id: &str) -> (r: Option<ApiKey>)
        requires
            self.wf(),
        ensures
            self.keys().contains_key(id@) ==> (r matches Some(v) && same_key(v, self.keys()[id@])),
            !self.keys().contains_key(id@) ==> r is None,
    {
        match self.keys.get(id) {
            Some(k) => Some(k.duplicate()),
            None => None,
        }
    }

    /// Copies of all keys, in storage order.
    pub fn list(&self) -> (r: Vec<ApiKey>)
        requires
            self.wf(),
        ensures
            r@.len() == self.key_entries().len(),
            forall|i: int| 0 <= i < r@.len() ==> same_key(#[trigger] r@[i], self.key_entries()[i].1),
    {
        let n = self.keys.len();
        let mut out: Vec<ApiKey> = Vec::new();
        let mut i: usize = 0;
        while i < n
            invariant
                self.wf(),
                n == self.key_entries().len(),
                i <= n,
                out@.len() == i,
                forall|j: int| 0 <= j < i ==> same_key(#[trigger] out@[j], self.key_entries()[j].1),
            decreases n - i,
        {
            let (_id, k) = self.keys.entry_at(i);
            out.push(k.duplicate());
            i = i + 1;
        }
        out
    }

    /// Revoke key `id`: drop it and its secret; answers whether it was there.
    pub fn revoke(&mut self, id: &str) -> (r: Result<bool>)
        requires
            old(self).wf(),
        ensures
            final(self).wf(),
            r == Ok::<bool, SynapError>(old(self).keys().contains_key(id@)),
            final(self).keys() == old(self).keys().remove(id@),
            old(self).keys().contains_key(id@) ==> final(self).index() == old(self).index().remove(old(self).keys()[id@].key@),
            !old(self).keys().contains_key(id@) ==> final(self).index() == old(self).index(),
    {
        match self.keys.remove(id) {
            Some(k) => {
                let _gone = self.key_index.remove(k.key.as_str());
                Ok(true)
            },
            None => Ok(false),
        }
    }

    /// Enable or disable key `id`.
    pub fn set_enabled(&mut self, id: &str, enabled: bool) -> (r: Result<()>)
        requires
            old(self).wf(),
        ensures
            final(self).wf(),
            final(self).index() == old(self).index(),
            !old(self).keys().contains_key(id@) ==> (r matches Err(SynapError::KeyNotFound(e))
                && e@ == "API key "@ + id@ + " not found"@) && final(self).keys() == old(self).keys(),
            old(self).keys().contains_key(id@) ==> r is Ok
                && final(self).keys() == old(self).keys().insert(id@, ApiKey { enabled, ..old(self).keys()[id@] }),
    {
        proof {
            self.keys.lemma_view();
        }
        match self.keys.index_of(id) {
            None => {
                let a = concat("API key ", id);
                Err(SynapError::KeyNotFound(concat(a.as_str(), " not found")))
            },
            Some(i) => {
                let mut k = self.keys.replace_at(i, ApiKey::blank());
                k.enabled = enabled;
                let _blank = self.keys.replace_at(i, k);
                Ok(())
            },
        }
    }

    /// Drop the keys that have expired at `now`, and their secrets;
    /// answers how many.
    pub fn cleanup_expired_at(&mut self, now: i64) -> (n: usize)
        requires
            old(self).wf(),
        ensures
            final(self).wf(),
            n == expired_ids(old(self).key_entries(), now).len(),
            final(self).keys() == without_keys(old(self).keys(), expired_ids(old(self).key_entries(), now)),
            final(self).index() == without_keys(old(self).index(), expired_secrets(old(self).key_entries(), now)),
    {
        let ghost s = self.key_entries();
        let ghost k0 = self.keys();
        let ghost i0 = self.index();
        let len = self.keys.len();
        let mut ids: Vec<String> = Vec::new();
        let mut secrets: Vec<String> = Vec::new();
        let mut i: usize = 0;
        proof {
            assert(s.take(0) =~= Seq::<(String, ApiKey)>::empty());
            assert(ids@.map_values(|x: String| x@) =~= Seq::<Seq<char>>::empty());
            assert(secrets@.map_values(|x: String| x@) =~= Seq::<Seq<char>>::empty());
        }
        while i < len
            invariant
                self.wf(),
                s == self.key_entries(),
                len == s.len(),
                i <= len,
                ids@.map_values(|x: String| x@) == expired_ids(s.take(i as int), now),
                secrets@.map_values(|x: String| x@) == expired_secrets(s.take(i as int), now),
            decreases len - i,
        {
            proof {
                assert(s.take(i + 1).drop_last() =~= s.take(i as int));
                assert(s.take(i + 1).last() == s[i as int]);
            }
            let (id, k) = self.keys.entry_at(i);
            let gone = match k.expires_at {
                Some(e) => now > e,
                None => false,
            };
            if gone {
                let ghost b1 = ids@;
                let ghost b2 = secrets@;
                ids.push(id.clone());
                secrets.push(k.key.clone());
                proof {
                    assert(ids@.map_values(|x: String| x@) =~= b1.map_values(|x: String| x@).push(id@));
                    assert(secrets@.map_values(|x: String| x@) =~= b2.map_values(|x: String| x@).push(k.key@));
                }
            }
            i = i + 1;
        }
        proof {
            assert(s.take(len as int) =~= s);
        }
        let ghost iv = ids@.map_values(|x: String| x@);
        let ghost sv = secrets@.map_values(|x: String| x@);
        let mut j: usize = 0;
        proof {
            assert(iv.take(0) =~= Seq::<Seq<char>>::empty());
        }
        while j < ids.len()
            invariant
                self.wf(),
                iv == ids@.map_values(|x: String| x@),
                j <= ids@.len(),
                self.keys() == without_keys(k0, iv.take(j as int)),
                self.index() == i0,
            decreases ids@.len() - j,
        {
            proof {
                assert(iv.take(j + 1).drop_last() =~= iv.take(j as int));
                assert(iv.take(j + 1).last() == iv[j as int]);
            }
            let _gone = self.keys.remove(ids[j].as_str());
            j = j + 1;
        }
        let mut q: usize = 0;
        proof {
            assert(iv.take(ids@.len() as int) =~= iv);
            assert(sv.take(0) =~= Seq::<Seq<char>>::empty());
        }
        while q < secrets.len()
            invariant
                self.wf(),
                sv == secrets@.map_values(|x: String| x@),
                q <= secrets@.len(),
                self.index() == without_keys(i0, sv.take(q as int)),
                self.keys() == without_keys(k0, iv),
            decreases secrets@.len() - q,
        {
            proof {
                assert(sv.take(q + 1).drop_last() =~= sv.take(q as int));
                assert(sv.take(q + 1).last() == sv[q as int]);
            }
            let _gone = self.key_index.remove(secrets[q].as_str());
            q = q + 1;
        }
        proof {
            assert(sv.take(secrets@.len() as int) =~= sv);
        }
        ids.len()
    }

    /// Drop the keys that have expired now.
    pub fn cleanup_expired(&mut self) -> (n: usize)
        requires
            old(self).wf(),
        ensures
            final(self).wf(),
            exists|now: i64| {
                &&& n == (#[trigger] expired_ids(old(self).key_entries(), now)).len()
                &&& final(self).keys() == without_keys(old(self).keys(), expired_ids(old(self).key_entries(), now))
                &&& final(self).index() == without_keys(old(self).index(), expired_secrets(old(self).key_entries(), now))
            },
    {
        self.cleanup_expired_at(now_secs())
    }
}


/// An address listed anywhere in the allow list is allowed.
pub proof fn lemma_listed_ip_allowed(k: ApiKey, ip: IpAddress, i: int)
    requires
        0 <= i < k.allowed_ips@.len(),
        same_ip(k.allowed_ips@[i], ip),
    ensures
        ip_allowed(k, ip),
{
}

/// An empty allow list allows every address; a non-empty one allows only
/// the addresses it lists.
pub proof fn lemma_ip_allowed_exactly(k: ApiKey, ip: IpAddress)
    ensures
        k.allowed_ips@.len() == 0 ==> ip_allowed(k, ip),
        k.allowed_ips@.len() > 0 ==> (ip_allowed(k, ip)
            <==> exists|i: int| 0 <= i < k.allowed_ips@.len() && same_ip(#[trigger] k.allowed_ips@[i], ip)),
{
}

} // verus!
