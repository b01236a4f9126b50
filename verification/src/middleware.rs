//! Authentication of requests. An API key comes first: the bearer token of
//! the `Authorization` header or, without that header, the `api_key`
//! parameter of the query. Without a key, Basic credentials of a user are
//! tried. Credentials that are presented and refused fail the request;
//! without any, the request goes on anonymously unless authentication is
//! required.

use vstd::prelude::*;
use vstd::utf8::{decode_utf8, encode_utf8};
use crate::acl::{AuthContext, IpAddress};
use crate::api_key::{ApiKey, ApiKeyManager, ip_allowed, key_valid, now_secs};
use crate::clock::unix_time_secs;
use crate::permissions::{Permission, perm_view};
use crate::text::{
    chars_of, has_prefix, index_from, lemma_next_index_of, next_index_of, query_param,
    query_param_from, starts_with, text_of, trim_text, trimmed,
};
use crate::user::{User, UserManager, password_hash_of, user_perms};

verus! {

/// What the `Authorization` header of a request holds.
pub enum AuthHeader {
    /// The request has none.
    Absent,
    /// Its value is not visible ASCII text.
    Unreadable,
    /// Its text.
    Text(String),
}

/// The bytes that the standard base64 engine of the `base64` crate (the
/// standard alphabet, with padding) decodes `text` to; `None` where it
/// refuses the text.
pub uninterp spec fn base64_decoded(text: Seq<char>) -> Option<Seq<u8>>;

/// `base64::Engine::decode` with `general_purpose::STANDARD`. The result
/// is a function of the text alone; what it is, is left to the name
/// `base64_decoded`.
#[verifier::external_body]
fn decode_base64(text: &str) -> (r: Option<Vec<u8>>)
    ensures
        match r {
            Some(b) => base64_decoded(text@) == Some(b@),
            None => base64_decoded(text@) is None,
        },
{
    match base64::Engine::decode(&base64::engine::general_purpose::STANDARD, text) {
        Ok(b) => Some(b),
        Err(_) => None,
    }
}

/// Whether some text has `b` as its UTF-8 encoding.
pub open spec fn utf8_encodes(b: Seq<u8>) -> bool {
    exists|t: Seq<char>| encode_utf8(t) == b
}

/// `String::from_utf8`: the text whose UTF-8 encoding the bytes are, and
/// `None` when no text has them as its encoding.
#[verifier::external_body]
fn utf8_text(b: Vec<u8>) -> (r: Option<String>)
    ensures
        match r {
            Some(s) => encode_utf8(s@) == b@,
            None => !utf8_encodes(b@),
        },
{
    String::from_utf8(b).ok()
}

/// The text of a query string, if the request has one.
pub open spec fn query_view(q: Option<&str>) -> Option<Seq<char>> {
    match q {
        Some(t) => Some(t@),
        None => None,
    }
}

/// The API key a request presents. With an `Authorization` header, the
/// text after `Bearer `, trimmed of white space, and nothing when the
/// header says something else or cannot be read; without that header,
/// the `api_key` parameter of the query.
pub open spec fn presented_key(header: AuthHeader, query: Option<Seq<char>>) -> Option<Seq<char>> {
    match header {
        AuthHeader::Text(s) => if has_prefix(s@, "Bearer "@) {
            Some(trimmed(s@.skip("Bearer "@.len() as int)))
        } else {
            None
        },
        AuthHeader::Unreadable => None,
        AuthHeader::Absent => match query {
            Some(q) => query_param_from(q, "api_key"@, 0),
            None => None,
        },
    }
}

/// Whether the key manager `m` accepts the secret `key` from `ip` at
/// `now`: it knows the secret, and the key is valid and allows the address.
pub open spec fn key_accepted(m: ApiKeyManager, key: Seq<char>, ip: IpAddress, now: i64) -> bool {
    let id = m.index()[key]@;
    &&& m.index().contains_key(key) && m.keys().contains_key(id)
    &&& key_valid(m.keys()[id], now) && ip_allowed(m.keys()[id], ip)
}

/// The key of secret `key` in `m`, with a use at `now` recorded.
pub open spec fn used_key(m: ApiKeyManager, key: Seq<char>, now: i64) -> ApiKey {
    let k = m.keys()[m.index()[key]@];
    ApiKey { last_used_at: Some(now), usage_count: k.usage_count.wrapping_add(1), ..k }
}

/// Whether `c` is the context of a request from `ip` authenticated by key
/// `k`: the key's owner and permissions, and no administrator rights.
pub open spec fn key_context(c: AuthContext, k: ApiKey, ip: IpAddress) -> bool {
    &&& c.user_id == k.username && c.api_key_id == Some(k.id) && c.client_ip == ip
    &&& c.permissions@ == k.permissions@ && !c.is_admin
}

/// The user name and password of the Basic credentials in the header:
/// `Ok(None)` when it presents none (no header, or one that does not start
/// with `Basic `), `Err` when they are malformed (an unreadable header,
/// text that is not base64, bytes that are not UTF-8, or no `:`).
pub open spec fn basic_credentials(header: AuthHeader) -> Result<Option<(Seq<char>, Seq<char>)>, ()> {
    match header {
        AuthHeader::Absent => Ok(None),
        AuthHeader::Unreadable => Err(()),
        AuthHeader::Text(s) => if !has_prefix(s@, "Basic "@) {
            Ok(None)
        } else {
            match base64_decoded(s@.skip("Basic "@.len() as int)) {
                None => Err(()),
                Some(b) => if !utf8_encodes(b) {
                    Err(())
                } else {
                    let t = decode_utf8(b);
                    let i = next_index_of(t, ':', 0);
                    if i < t.len() {
                        Ok(Some((t.take(i), t.skip(i + 1))))
                    } else {
                        Err(())
                    }
                },
            }
        },
    }
}

/// Whether the user manager `m` lets `name` in with `password`.
pub open spec fn login_accepted(m: UserManager, name: Seq<char>, password: Seq<char>) -> bool {
    &&& m.users().contains_key(name) && m.users()[name].enabled
    &&& password_hash_of(password) == m.users()[name].password_hash@
}

/// The users of `m` after `name` logged in at `now`.
pub open spec fn logged_in(m: UserManager, name: Seq<char>, now: u64) -> Map<Seq<char>, User> {
    m.users().insert(name, User { last_login: Some(now), ..m.users()[name] })
}

/// Whether `c` is the context of a request from `ip` by user `name` of
/// `m`: the user's permissions and administrator flag.
pub open spec fn user_context(c: AuthContext, m: UserManager, name: Seq<char>, ip: IpAddress) -> bool {
    &&& c.user_id matches Some(u) && u@ == name
    &&& c.api_key_id is None && c.client_ip == ip
    &&& c.permissions@.map_values(|p: Permission| perm_view(p)) == user_perms(m.users(), m.roles(), name)
    &&& c.is_admin == m.users()[name].is_admin
}

/// Whether `c` is the anonymous context of a request from `ip`.
pub open spec fn anonymous_context(c: AuthContext, ip: IpAddress) -> bool {
    &&& c.user_id is None && c.api_key_id is None && c.client_ip == ip
    &&& c.permissions@.len() == 0 && !c.is_admin
}

/// The managers that authenticate requests, and whether a request must be
/// authenticated.
pub struct AuthMiddleware {
    pub user_manager: UserManager,
    pub api_key_manager: ApiKeyManager,
    pub require_auth: bool,
}

impl AuthMiddleware {
    /// Both managers are well formed.
    pub open spec fn wf(&self) -> bool {
        self.user_manager.wf() && self.api_key_manager.wf()
    }

    /// Authentication with these managers.
    pub fn new(user_manager: UserManager, api_key_manager: ApiKeyManager, require_auth: bool) -> (r: Self)
        ensures
            r.user_manager == user_manager,
            r.api_key_manager == api_key_manager,
            r.require_auth == require_auth,
    {
        AuthMiddleware { user_manager, api_key_manager, require_auth }
    }

    /// The API key that a request presents (see `presented_key`).
    fn presented(header: &AuthHeader, query: Option<&str>) -> (r: Option<String>)
        ensures
            match r {
                Some(k) => presented_key(*header, query_view(query)) == Some(k@),
                None => presented_key(*header, query_view(query)) is None,
            },
    {
        match header {
            AuthHeader::Text(s) => {
                let v = chars_of(s.as_str());
                let p = chars_of("Bearer ");
                proof {
                    reveal_strlit("Bearer ");
                }
                if starts_with(&v, &p) {
                    let rest = text_of(&v, p.len(), v.len());
                    proof {
                        assert(rest@ =~= s@.skip("Bearer "@.len() as int));
                    }
                    Some(trim_text(rest.as_str()))
                } else {
                    None
                }
            },
            AuthHeader::Unreadable => None,
            AuthHeader::Absent => match query {
                Some(q) => query_param(q, "api_key"),
                None => None,
            },
        }
    }

    /// Authenticate by API key at `now`. No key, or an empty one, is
    /// `Ok(None)`; a key that the manager does not accept fails; an
    /// accepted key gives the key's context and records its use.
    pub fn authenticate_api_key_at(
        &mut self,
        header: &AuthHeader,
        query: Option<&str>,
        client_ip: IpAddress,
        now: i64,
    ) -> (r: std::result::Result<Option<AuthContext>, ()>)
        requires
            old(self).wf(),
        ensures
            final(self).wf(),
            final(self).user_manager == old(self).user_manager,
            final(self).require_auth == old(self).require_auth,
            final(self).api_key_manager.index() == old(self).api_key_manager.index(),
            ({
                let m = old(self).api_key_manager;
                let pk = presented_key(*header, query_view(query));
                if pk is None || pk->0.len() == 0 {
                    r matches Ok(None) && final(self).api_key_manager.keys() == m.keys()
                } else if !key_accepted(m, pk->0, client_ip, now) {
                    r is Err && final(self).api_key_manager.keys() == m.keys()
                } else {
                    &&& r matches Ok(Some(c)) && key_context(c, used_key(m, pk->0, now), client_ip)
                    &&& final(self).api_key_manager.keys()
                        == m.keys().insert(m.index()[pk->0]@, used_key(m, pk->0, now))
                }
            }),
    {
        let key = match Self::presented(header, query) {
            Some(k) => k,
            None => return Ok(None),
        };
        let kv = chars_of(key.as_str());
        if kv.len() == 0 {
            return Ok(None);
        }
        if !self.api_key_manager.key_exists(key.as_str()) {
            return Err(());
        }
        match self.api_key_manager.verify_at(key.as_str(), client_ip, now) {
            Ok(k) => {
                let ApiKey { id, username, permissions, .. } = k;
                Ok(Some(AuthContext { user_id: username, api_key_id: Some(id), client_ip, permissions, is_admin: false }))
            },
            Err(_) => Err(()),
        }
    }

    /// Authenticate by API key now.
    pub fn authenticate_api_key(
        &mut self,
        header: &AuthHeader,
        query: Option<&str>,
        client_ip: IpAddress,
    ) -> (r: std::result::Result<Option<AuthContext>, ()>)
        requires
            old(self).wf(),
        ensures
            final(self).wf(),
            final(self).user_manager == old(self).user_manager,
            final(self).require_auth == old(self).require_auth,
            ({
                let m = old(self).api_key_manager;
                let pk = presented_key(*header, query_view(query));
                &&& (pk is None || pk->0.len() == 0) ==> (r matches Ok(None))
                &&& (pk is Some && pk->0.len() > 0 && !m.index().contains_key(pk->0)) ==> r is Err
                &&& (r matches Ok(Some(c)) ==> exists|t: i64| key_context(c, used_key(m, pk->0, t), client_ip))
            }),
    {
        self.authenticate_api_key_at(header, query, client_ip, now_secs())
    }

    /// The user name and password of the header's Basic credentials (see
    /// `basic_credentials`).
    fn credentials(header: &AuthHeader) -> (r: std::result::Result<Option<(String, String)>, ()>)
        ensures
            match r {
                Ok(Some((n, p))) => basic_credentials(*header) == Ok::<Option<(Seq<char>, Seq<char>)>, ()>(Some((n@, p@))),
                Ok(None) => basic_credentials(*header) == Ok::<Option<(Seq<char>, Seq<char>)>, ()>(None),
                Err(()) => basic_credentials(*header) is Err,
            },
    {
        let text = match header {
            AuthHeader::Absent => return Ok(None),
            AuthHeader::Unreadable => return Err(()),
            AuthHeader::Text(s) => s,
        };
        let v = chars_of(text.as_str());
        let p = chars_of("Basic ");
        proof {
            reveal_strlit("Basic ");
        }
        if !starts_with(&v, &p) {
            return Ok(None);
        }
        let encoded = text_of(&v, p.len(), v.len());
        proof {
            assert(encoded@ =~= text@.skip("Basic "@.len() as int));
        }
        let bytes = match decode_base64(encoded.as_str()) {
            Some(b) => b,
            None => return Err(()),
        };
        let ghost b = bytes@;
        let decoded = match utf8_text(bytes) {
            Some(t) => t,
            None => return Err(()),
        };
        proof {
            vstd::utf8::encode_utf8_decode_utf8(decoded@);
            assert(utf8_encodes(b));
        }
        let t = chars_of(decoded.as_str());
        let i = index_from(&t, ':', 0);
        proof {
            lemma_next_index_of(t@, ':', 0);
        }
        if i >= t.len() {
            return Err(());
        }
        let name = text_of(&t, 0, i);
        let password = text_of(&t, i + 1, t.len());
        proof {
            assert(name@ =~= t@.take(i as int));
            assert(password@ =~= t@.skip(i + 1));
        }
        Ok(Some((name, password)))
    }

    /// Authenticate by Basic credentials at `now`. No credentials is
    /// `Ok(None)`; malformed or refused ones fail; accepted ones give the
    /// user's context and record the login.
    pub fn authenticate_basic_at(
        &mut self,
        header: &AuthHeader,
        client_ip: IpAddress,
        now: u64,
    ) -> (r: std::result::Result<Option<AuthContext>, ()>)
        requires
            old(self).wf(),
        ensures
            final(self).wf(),
            final(self).api_key_manager == old(self).api_key_manager,
            final(self).require_auth == old(self).require_auth,
            final(self).user_manager.roles() == old(self).user_manager.roles(),
            final(self).user_manager.root() == old(self).user_manager.root(),
            ({
                let m = old(self).user_manager;
                match basic_credentials(*header) {
                    Err(()) => r is Err && final(self).user_manager.users() == m.users(),
                    Ok(None) => r matches Ok(None) && final(self).user_manager.users() == m.users(),
                    Ok(Some((name, password))) => if login_accepted(m, name, password) {
                        &&& r matches Ok(Some(c)) && user_context(c, m, name, client_ip)
                        &&& final(self).user_manager.users() == logged_in(m, name, now)
                    } else {
                        r is Err && final(self).user_manager.users() == m.users()
                    },
                }
            }),
    {
        let (name, password) = match Self::credentials(header) {
            Ok(Some(c)) => c,
            Ok(None) => return Ok(None),
            Err(()) => return Err(()),
        };
        match self.user_manager.authenticate_at(name.as_str(), password.as_str(), now) {
            Ok(user) => {
                let permissions = self.user_manager.get_user_permissions(name.as_str());
                Ok(Some(AuthContext { user_id: Some(name), api_key_id: None, client_ip, permissions, is_admin: user.is_admin }))
            },
            Err(_) => Err(()),
        }
    }

    /// Whether `after` and `r` are what deciding a request at times
    /// `key_now` (for keys) and `user_now` (for users) makes of `before`
    /// (see `authenticate_request_at`).
    pub open spec fn request_decided(
        before: Self,
        after: Self,
        header: AuthHeader,
        query: Option<&str>,
        client_ip: IpAddress,
        key_now: i64,
        user_now: u64,
        r: std::result::Result<AuthContext, ()>,
    ) -> bool {
        let keys = before.api_key_manager;
        let users = before.user_manager;
        let pk = presented_key(header, query_view(query));
        let unchanged = after.api_key_manager.keys() == keys.keys()
            && after.user_manager.users() == users.users();
        if pk is Some && pk->0.len() > 0 {
            if key_accepted(keys, pk->0, client_ip, key_now) {
                &&& r matches Ok(c) && key_context(c, used_key(keys, pk->0, key_now), client_ip)
                &&& after.api_key_manager.keys()
                    == keys.keys().insert(keys.index()[pk->0]@, used_key(keys, pk->0, key_now))
                &&& after.user_manager.users() == users.users()
            } else {
                r is Err && unchanged
            }
        } else {
            match basic_credentials(header) {
                Err(()) => r is Err && unchanged,
                Ok(Some((name, password))) => if login_accepted(users, name, password) {
                    &&& r matches Ok(c) && user_context(c, users, name, client_ip)
                    &&& after.user_manager.users() == logged_in(users, name, user_now)
                    &&& after.api_key_manager.keys() == keys.keys()
                } else {
                    r is Err && unchanged
                },
                Ok(None) => unchanged && if before.require_auth {
                    r is Err
                } else {
                    r matches Ok(c) && anonymous_context(c, client_ip)
                },
            }
        }
    }

    /// Authenticate by Basic credentials now.
    pub fn authenticate_basic(
        &mut self,
        header: &AuthHeader,
        client_ip: IpAddress,
    ) -> (r: std::result::Result<Option<AuthContext>, ()>)
        requires
            old(self).wf(),
        ensures
            final(self).wf(),
            final(self).api_key_manager == old(self).api_key_manager,
            final(self).require_auth == old(self).require_auth,
            ({
                let m = old(self).user_manager;
                match basic_credentials(*header) {
                    Err(()) => r is Err,
                    Ok(None) => r matches Ok(None),
                    Ok(Some((name, password))) => (r is Ok <==> login_accepted(m, name, password))
                        && (r matches Ok(Some(c)) ==> user_context(c, m, name, client_ip)),
                }
            }),
            final(self).user_manager.roles() == old(self).user_manager.roles(),
            final(self).user_manager.root() == old(self).user_manager.root(),
            ({
                let m = old(self).user_manager;
                match basic_credentials(*header) {
                    Ok(Some((name, password))) => if login_accepted(m, name, password) {
                        &&& r matches Ok(Some(_))
                        &&& exists|now: u64| final(self).user_manager.users() == #[trigger] logged_in(m, name, now)
                    } else {
                        final(self).user_manager.users() == m.users()
                    },
                    _ => final(self).user_manager.users() == m.users(),
                }
            }),
    {
        self.authenticate_basic_at(header, client_ip, unix_time_secs())
    }

    /// What the middleware decides for a request: the context it goes on
    /// with, or `Err` for a refusal (401 Unauthorized). API keys are
    /// checked at `key_now` and logins recorded at `user_now`. A presented
    /// key decides alone; without one, Basic credentials decide; without
    /// either, the request is anonymous unless authentication is required.
    pub fn authenticate_request_at(
        &mut self,
        header: &AuthHeader,
        query: Option<&str>,
        client_ip: IpAddress,
        key_now: i64,
        user_now: u64,
    ) -> (r: std::result::Result<AuthContext, ()>)
        requires
            old(self).wf(),
        ensures
            final(self).wf(),
            final(self).require_auth == old(self).require_auth,
            final(self).api_key_manager.index() == old(self).api_key_manager.index(),
            final(self).user_manager.roles() == old(self).user_manager.roles(),
            final(self).user_manager.root() == old(self).user_manager.root(),
            ({
                let keys = old(self).api_key_manager;
                let users = old(self).user_manager;
                let pk = presented_key(*header, query_view(query));
                let unchanged = final(self).api_key_manager.keys() == keys.keys()
                    && final(self).user_manager.users() == users.users();
                if pk is Some && pk->0.len() > 0 {
                    if key_accepted(keys, pk->0, client_ip, key_now) {
                        &&& r matches Ok(c) && key_context(c, used_key(keys, pk->0, key_now), client_ip)
                        &&& final(self).api_key_manager.keys()
                            == keys.keys().insert(keys.index()[pk->0]@, used_key(keys, pk->0, key_now))
                        &&& final(self).user_manager.users() == users.users()
                    } else {
                        r is Err && unchanged
                    }
                } else {
                    match basic_credentials(*header) {
                        Err(()) => r is Err && unchanged,
                        Ok(Some((name, password))) => if login_accepted(users, name, password) {
                            &&& r matches Ok(c) && user_context(c, users, name, client_ip)
                            &&& final(self).user_manager.users() == logged_in(users, name, user_now)
                            &&& final(self).api_key_manager.keys() == keys.keys()
                        } else {
                            r is Err && unchanged
                        },
                        Ok(None) => unchanged && if old(self).require_auth {
                            r is Err
                        } else {
                            r matches Ok(c) && anonymous_context(c, client_ip)
                        },
                    }
                }
            }),
    {
        match self.authenticate_api_key_at(header, query, client_ip, key_now) {
            Ok(Some(c)) => return Ok(c),
            Err(()) => return Err(()),
            Ok(None) => {},
        }
        match self.authenticate_basic_at(header, client_ip, user_now) {
            Ok(Some(c)) => return Ok(c),
            Err(()) => return Err(()),
            Ok(None) => {},
        }
        if self.require_auth {
            return Err(());
        }
        Ok(AuthContext::anonymous(client_ip))
    }

    /// What the middleware decides for a request now.
    pub fn authenticate_request(
        &mut self,
        header: &AuthHeader,
        query: Option<&str>,
        client_ip: IpAddress,
    ) -> (r: std::result::Result<AuthContext, ()>)
        requires
            old(self).wf(),
        ensures
            final(self).wf(),
            final(self).require_auth == old(self).require_auth,
            ({
                let pk = presented_key(*header, query_view(query));
                let no_key = pk is None || pk->0.len() == 0;
                &&& (pk is Some && pk->0.len() > 0 && !old(self).api_key_manager.index().contains_key(pk->0))
                    ==> r is Err
                &&& (no_key && basic_credentials(*header) is Err) ==> r is Err
                &&& (no_key && basic_credentials(*header) == Ok::<Option<(Seq<char>, Seq<char>)>, ()>(None))
                    ==> (if old(self).require_auth { r is Err } else { r matches Ok(c) && anonymous_context(c, client_ip) })
            }),
            final(self).api_key_manager.index() == old(self).api_key_manager.index(),
            final(self).user_manager.roles() == old(self).user_manager.roles(),
            final(self).user_manager.root() == old(self).user_manager.root(),
            exists|key_now: i64, user_now: u64| #[trigger] Self::request_decided(*old(self), *final(self), *header, query,
                client_ip, key_now, user_now, r),
    {
        let key_now = now_secs();
        let user_now = unix_time_secs();
        let r = self.authenticate_request_at(header, query, client_ip, key_now, user_now);
        assert(Self::request_decided(*old(self), *self, *header, query, client_ip, key_now, user_now, r));
        r
    }
}

} // verus!
