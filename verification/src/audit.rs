//! Audit log of authentication events: entries for logins, API key uses,
//! account changes and refused permissions, kept in a log of bounded
//! length that answers the most recent entries first.
//!
//! Times are Unix seconds.

use vstd::prelude::*;
use crate::api_key::{copy_meta, now_secs};
use crate::text::concat;

verus! {

/// What an audit entry records.
#[derive(Debug, Clone, Copy, PartialEq, Eq, Structural)]
pub enum AuthEventType {
    LoginSuccess,
    LoginFailure,
    Logout,
    ApiKeySuccess,
    ApiKeyFailure,
    UserCreated,
    UserDeleted,
    UserEnabled,
    UserDisabled,
    PasswordChanged,
    ApiKeyCreated,
    ApiKeyRevoked,
    PermissionDenied,
}

/// One authentication event.
#[derive(Debug)]
pub struct AuditLogEntry {
    /// When it happened.
    pub timestamp: i64,
    pub event_type: AuthEventType,
    pub username: Option<String>,
    pub api_key_id: Option<String>,
    pub client_ip: String,
    /// The resource accessed, if any.
    pub resource: Option<String>,
    /// The action attempted, if any.
    pub action: Option<String>,
    pub success: bool,
    /// Why it failed, if it did.
    pub error_message: Option<String>,
    pub metadata: Vec<(String, String)>,
}

/// Whether two entries hold the same values.
pub open spec fn same_entry(a: AuditLogEntry, b: AuditLogEntry) -> bool {
    &&& a.timestamp == b.timestamp && a.event_type == b.event_type
    &&& a.username == b.username && a.api_key_id == b.api_key_id && a.client_ip == b.client_ip
    &&& a.resource == b.resource && a.action == b.action && a.success == b.success
    &&& a.error_message == b.error_message && a.metadata@ == b.metadata@
}

/// Whether `e` is a plain entry of `event_type` made at `now`: no key,
/// resource, action, error or metadata.
pub open spec fn plain_entry(
    e: AuditLogEntry,
    event_type: AuthEventType,
    username: Option<String>,
    client_ip: String,
    success: bool,
    now: i64,
) -> bool {
    &&& e.timestamp == now && e.event_type == event_type && e.username == username
    &&& e.api_key_id is None && e.client_ip == client_ip && e.resource is None && e.action is None
    &&& e.success == success && e.error_message is None && e.metadata@.len() == 0
}

fn copy_text(s: &Option<String>) -> (r: Option<String>)
    ensures
        r == *s,
{
    match s {
        Some(t) => Some(t.clone()),
        None => None,
    }
}

impl AuditLogEntry {
    /// An entry of `event_type` made at `now`.
    pub fn new_at(event_type: AuthEventType, username: Option<String>, client_ip: String, success: bool, now: i64) -> (r: Self)
        ensures
            plain_entry(r, event_type, username, client_ip, success, now),
    {
        AuditLogEntry {
            timestamp: now,
            event_type,
            username,
            api_key_id: None,
            client_ip,
            resource: None,
            action: None,
            success,
            error_message: None,
            metadata: Vec::new(),
        }
    }

    /// An entry of `event_type` made now.
    pub fn new(event_type: AuthEventType, username: Option<String>, client_ip: String, success: bool) -> (r: Self)
        ensures
            plain_entry(r, event_type, username, client_ip, success, r.timestamp),
    {
        Self::new_at(event_type, username, client_ip, success, now_secs())
    }

    /// A successful login of `username`.
    pub fn login_success(username: String, client_ip: String) -> (r: Self)
        ensures
            plain_entry(r, AuthEventType::LoginSuccess, Some(username), client_ip, true, r.timestamp),
    {
        Self::new(AuthEventType::LoginSuccess, Some(username), client_ip, true)
    }

    /// A failed login, with why it failed.
    pub fn login_failure(username: Option<String>, client_ip: String, error_message: String) -> (r: Self)
        ensures
            plain_entry(AuditLogEntry { error_message: None, ..r }, AuthEventType::LoginFailure, username, client_ip, false, r.timestamp),
            r.error_message == Some(error_message),
    {
        let mut e = Self::new(AuthEventType::LoginFailure, username, client_ip, false);
        e.error_message = Some(error_message);
        e
    }

    /// A successful use of API key `api_key_id`.
    pub fn api_key_success(api_key_id: String, username: Option<String>, client_ip: String) -> (r: Self)
        ensures
            plain_entry(AuditLogEntry { api_key_id: None, ..r }, AuthEventType::ApiKeySuccess, username, client_ip, true, r.timestamp),
            r.api_key_id == Some(api_key_id),
    {
        let mut e = Self::new(AuthEventType::ApiKeySuccess, username, client_ip, true);
        e.api_key_id = Some(api_key_id);
        e
    }

    /// A refused API key, with why it was refused.
    pub fn api_key_failure(client_ip: String, error_message: String) -> (r: Self)
        ensures
            plain_entry(AuditLogEntry { error_message: None, ..r }, AuthEventType::ApiKeyFailure, None, client_ip, false, r.timestamp),
            r.error_message == Some(error_message),
    {
        let mut e = Self::new(AuthEventType::ApiKeyFailure, None, client_ip, false);
        e.error_message = Some(error_message);
        e
    }

    /// A refused `action` on `resource`.
    pub fn permission_denied(
        username: Option<String>,
        api_key_id: Option<String>,
        client_ip: String,
        resource: String,
        action: String,
    ) -> (r: Self)
        ensures
            r.event_type == AuthEventType::PermissionDenied && r.username == username && r.api_key_id == api_key_id,
            r.client_ip == client_ip && !r.success && r.metadata@.len() == 0,
            r.resource == Some(resource) && r.action == Some(action),
            r.error_message matches Some(m) && m@ == "Permission denied for "@ + action@ + " on "@ + resource@,
    {
        let a = concat("Permission denied for ", action.as_str());
        let b = concat(a.as_str(), " on ");
        let msg = concat(b.as_str(), resource.as_str());
        let mut e = Self::new(AuthEventType::PermissionDenied, username, client_ip, false);
        e.api_key_id = api_key_id;
        e.resource = Some(resource);
        e.action = Some(action);
        e.error_message = Some(msg);
        e
    }

    /// A copy of this entry.
    pub fn duplicate(&self) -> (r: Self)
        ensures
            same_entry(r, *self),
    {
        AuditLogEntry {
            timestamp: self.timestamp,
            event_type: self.event_type,
            username: copy_text(&self.username),
            api_key_id: copy_text(&self.api_key_id),
            client_ip: self.client_ip.clone(),
            resource: copy_text(&self.resource),
            action: copy_text(&self.action),
            success: self.success,
            error_message: copy_text(&self.error_message),
            metadata: copy_meta(&self.metadata),
        }
    }
}

/// Whether `e` passes the filters of a query: its type when one is asked
/// for, its user when one is asked for.
pub open spec fn entry_selected(e: AuditLogEntry, event_type: Option<AuthEventType>, username: Option<Seq<char>>) -> bool {
    &&& event_type matches Some(t) ==> e.event_type == t
    &&& username matches Some(u) ==> (e.username matches Some(n) && n@ == u)
}

/// The entries of `s` that pass the filters, most recent (last) first.
pub open spec fn newest_selected(
    s: Seq<AuditLogEntry>,
    event_type: Option<AuthEventType>,
    username: Option<Seq<char>>,
) -> Seq<AuditLogEntry>
    decreases s.len(),
{
    if s.len() == 0 {
        Seq::empty()
    } else {
        let rest = newest_selected(s.drop_first(), event_type, username);
        if entry_selected(s[0], event_type, username) { rest.push(s[0]) } else { rest }
    }
}

proof fn lemma_newest_selected_len(s: Seq<AuditLogEntry>, event_type: Option<AuthEventType>, username: Option<Seq<char>>)
    ensures
        newest_selected(s, event_type, username).len() <= s.len(),
    decreases s.len(),
{
    if s.len() > 0 {
        lemma_newest_selected_len(s.drop_first(), event_type, username);
    }
}

/// At most `limit` entries of `s`, when a limit is given.
pub open spec fn limited(s: Seq<AuditLogEntry>, limit: Option<usize>) -> Seq<AuditLogEntry> {
    match limit {
        Some(n) => if n < s.len() { s.take(n as int) } else { s },
        None => s,
    }
}

/// The log after `e` is logged: appended, and the oldest entry dropped
/// when the log is then longer than `max`.
pub open spec fn logged(s: Seq<AuditLogEntry>, e: AuditLogEntry, max: usize) -> Seq<AuditLogEntry> {
    let t = s.push(e);
    if t.len() > max { t.drop_first() } else { t }
}

/// A log of at most `max_entries` entries, oldest first.
#[derive(Debug)]
pub struct AuditLogManager {
    entries: Vec<AuditLogEntry>,
    max_entries: usize,
    enabled: bool,
}

impl AuditLogManager {
    /// The entries, oldest first.
    pub closed spec fn entries(&self) -> Seq<AuditLogEntry> {
        self.entries@
    }

    /// How many entries the log keeps.
    pub closed spec fn max(&self) -> usize {
        self.max_entries
    }

    /// Whether events are logged.
    pub closed spec fn logging(&self) -> bool {
        self.enabled
    }

    /// An empty log that keeps `max_entries` entries and is enabled.
    pub fn new(max_entries: usize) -> (r: Self)
        ensures
            r.entries().len() == 0,
            r.max() == max_entries,
            r.logging(),
    {
        AuditLogManager { entries: Vec::new(), max_entries, enabled: true }
    }

    /// Enable or disable logging.
    pub fn set_enabled(&mut self, enabled: bool)
        ensures
            final(self).logging() == enabled,
            final(self).entries() == old(self).entries(),
            final(self).max() == old(self).max(),
    {
        self.enabled = enabled;
    }

    /// Whether logging is enabled.
    pub fn is_enabled(&self) -> (r: bool)
        ensures
            r == self.logging(),
    {
        self.enabled
    }

    /// Log `entry` when logging is enabled, keeping the last `max` entries.
    pub fn log(&mut self, entry: AuditLogEntry)
        ensures
            final(self).max() == old(self).max(),
            final(self).logging() == old(self).logging(),
            final(self).entries() == if old(self).logging() {
                logged(old(self).entries(), entry, old(self).max())
            } else {
                old(self).entries()
            },
    {
        if !self.enabled {
            return;
        }
        self.entries.push(entry);
        if self.entries.len() > self.max_entries {
            self.entries.remove(0);
            proof {
                assert(self.entries@ =~= logged(old(self).entries(), entry, old(self).max()));
            }
        }
    }

    /// The entries that pass the filters, most recent first, at most
    /// `limit` of them.
    pub fn get_entries(
        &self,
        limit: Option<usize>,
        event_type: Option<AuthEventType>,
        username: Option<&str>,
    ) -> (r: Vec<AuditLogEntry>)
        ensures
            ({
                let user = match username {
                    Some(u) => Some(u@),
                    None => None::<Seq<char>>,
                };
                let want = limited(newest_selected(self.entries(), event_type, user), limit);
                &&& r@.len() == want.len()
                &&& forall|i: int| 0 <= i < want.len() ==> same_entry(#[trigger] r@[i], want[i])
            }),
    {
        let ghost user = match username {
            Some(u) => Some(u@),
            None => None::<Seq<char>>,
        };
        let ghost s = self.entries@;
        let n = self.entries.len();
        let cap: usize = match limit {
            Some(l) => l,
            None => n,
        };
        let mut out: Vec<AuditLogEntry> = Vec::new();
        let mut i: usize = n;
        while i > 0
            invariant
                i <= n,
                n == s.len(),
                s == self.entries@,
                user == match username {
                    Some(u) => Some(u@),
                    None => None::<Seq<char>>,
                },
                match limit {
                    Some(l) => cap == l,
                    None => cap == n,
                },
                ({
                    let full = newest_selected(s.subrange(i as int, n as int), event_type, user);
                    let want = if cap < full.len() { full.take(cap as int) } else { full };
                    &&& out@.len() == want.len()
                    &&& forall|k: int| 0 <= k < want.len() ==> same_entry(#[trigger] out@[k], want[k])
                }),
            decreases i,
        {
            let ghost before = newest_selected(s.subrange(i as int, n as int), event_type, user);
            i = i - 1;
            let e = &self.entries[i];
            proof {
                assert(s.subrange(i as int, n as int).drop_first() =~= s.subrange(i + 1, n as int));
            }
            let type_ok = match event_type {
                Some(t) => e.event_type == t,
                None => true,
            };
            let user_ok = match username {
                Some(u) => match &e.username {
                    Some(name) => crate::text::same_text(name.as_str(), u),
                    None => false,
                },
                None => true,
            };
            if type_ok && user_ok && out.len() < cap {
                out.push(e.duplicate());
            }
            proof {
                let full = newest_selected(s.subrange(i as int, n as int), event_type, user);
                assert(entry_selected(s[i as int], event_type, user) == (type_ok && user_ok));
                if type_ok && user_ok {
                    assert(full == before.push(s[i as int]));
                } else {
                    assert(full == before);
                }
            }
        }
        proof {
            assert(s.subrange(0, n as int) =~= s);
            lemma_newest_selected_len(s, event_type, user);
        }
        out
    }

    /// The most recent failed logins.
    pub fn get_failed_logins(&self, limit: Option<usize>) -> (r: Vec<AuditLogEntry>)
        ensures
            ({
                let want = limited(newest_selected(self.entries(), Some(AuthEventType::LoginFailure), None), limit);
                &&& r@.len() == want.len()
                &&& forall|i: int| 0 <= i < want.len() ==> same_entry(#[trigger] r@[i], want[i])
            }),
    {
        self.get_entries(limit, Some(AuthEventType::LoginFailure), None)
    }

    /// The most recent refused API keys.
    pub fn get_failed_api_keys(&self, limit: Option<usize>) -> (r: Vec<AuditLogEntry>)
        ensures
            ({
                let want = limited(newest_selected(self.entries(), Some(AuthEventType::ApiKeyFailure), None), limit);
                &&& r@.len() == want.len()
                &&& forall|i: int| 0 <= i < want.len() ==> same_entry(#[trigger] r@[i], want[i])
            }),
    {
        self.get_entries(limit, Some(AuthEventType::ApiKeyFailure), None)
    }

    /// Drop every entry.
    pub fn clear(&mut self)
        ensures
            final(self).entries().len() == 0,
            final(self).max() == old(self).max(),
            final(self).logging() == old(self).logging(),
    {
        self.entries.clear();
    }

    /// The number of entries.
    pub fn len(&self) -> (r: usize)
        ensures
            r == self.entries().len(),
    {
        self.entries.len()
    }

    /// Whether the log is empty.
    pub fn is_empty(&self) -> (r: bool)
        ensures
            r == (self.entries().len() == 0),
    {
        self.entries.len() == 0
    }
}

impl Default for AuditLogManager {
    /// An empty log of 1000 entries.
    fn default() -> (r: Self)
        ensures
            r.entries().len() == 0,
            r.max() == 1000,
            r.logging(),
    {
        Self::new(1000)
    }
}

/// A log that holds no more entries than it keeps still holds no more
/// after an entry is logged, and (unless it keeps none) ends with that entry.
pub proof fn lemma_log_bounded(s: Seq<AuditLogEntry>, e: AuditLogEntry, max: usize)
    requires
        s.len() <= max,
    ensures
        logged(s, e, max).len() <= max,
        max > 0 ==> logged(s, e, max).last() == e,
{
}

} // verus!
