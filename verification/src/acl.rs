//! Access control: the authenticated context of a request, ACL rules for
//! resources, and the list of rules that decides access.

use vstd::prelude::*;
use crate::error::{Result, SynapError};
use crate::keyed::Keyed;
use crate::permissions::{Action, Permission, any_allows, permission_allows};
use crate::text::{concat, owned};

verus! {

/// A client's IP address, as its octets.
#[derive(Debug, Clone, Copy, PartialEq, Eq)]
pub enum IpAddress {
    V4([u8; 4]),
    V6([u8; 16]),
}

/// Who a request comes from and what it may do.
#[derive(Debug, Clone)]
pub struct AuthContext {
    /// User ID, when authenticated by user and password.
    pub user_id: Option<String>,
    /// API key ID, when authenticated by API key.
    pub api_key_id: Option<String>,
    /// Client IP address.
    pub client_ip: IpAddress,
    /// Permissions of the user.
    pub permissions: Vec<Permission>,
    /// Whether the user is an administrator.
    pub is_admin: bool,
}

/// Whether a context may perform `action` on `resource`: administrators
/// may do anything, others what one of their permissions allows.
pub open spec fn context_allows(ctx: AuthContext, resource: Seq<char>, action: Action) -> bool {
    ctx.is_admin || any_allows(ctx.permissions@, resource, action)
}

/// Whether a context is authenticated.
pub open spec fn context_authenticated(ctx: AuthContext) -> bool {
    ctx.user_id is Some || ctx.api_key_id is Some
}

impl AuthContext {
    /// An unauthenticated context for a client.
    pub fn anonymous(client_ip: IpAddress) -> (r: Self)
        ensures
            r.user_id is None,
            r.api_key_id is None,
            r.client_ip == client_ip,
            r.permissions@.len() == 0,
            !r.is_admin,
    {
        AuthContext { user_id: None, api_key_id: None, client_ip, permissions: Vec::new(), is_admin: false }
    }

    /// Whether this context may perform `action` on `resource`.
    pub fn has_permission(&self, resource: &str, action: Action) -> (r: bool)
        ensures
            r == context_allows(*self, resource@, action),
    {
        if self.is_admin {
            return true;
        }
        let mut i: usize = 0;
        while i < self.permissions.len()
            invariant
                i <= self.permissions@.len(),
                forall|j: int| 0 <= j < i ==> !permission_allows(#[trigger] self.permissions@[j], resource@, action),
            decreases self.permissions@.len() - i,
        {
            if self.permissions[i].matches(resource, action) {
                return true;
            }
            i = i + 1;
        }
        false
    }

    /// Whether this context is authenticated.
    pub fn is_authenticated(&self) -> (r: bool)
        ensures
            r == context_authenticated(*self),
    {
        self.user_id.is_some() || self.api_key_id.is_some()
    }
}

/// Kinds of resources.
#[derive(Debug, Clone, Copy, PartialEq, Eq, Hash)]
pub enum ResourceType {
    Queue,
    KV,
    Stream,
    PubSub,
    Admin,
}

/// The name of a resource type in resource paths.
pub open spec fn resource_type_name(t: ResourceType) -> Seq<char> {
    match t {
        ResourceType::Queue => "queue"@,
        ResourceType::KV => "kv"@,
        ResourceType::Stream => "stream"@,
        ResourceType::PubSub => "pubsub"@,
        ResourceType::Admin => "admin"@,
    }
}

/// The name of a resource type in resource paths.
pub fn resource_type_str(t: ResourceType) -> (r: &'static str)
    ensures
        r@ == resource_type_name(t),
{
    match t {
        ResourceType::Queue => "queue",
        ResourceType::KV => "kv",
        ResourceType::Stream => "stream",
        ResourceType::PubSub => "pubsub",
        ResourceType::Admin => "admin",
    }
}

/// An ACL rule for a resource.
#[derive(Debug, Clone)]
pub struct AclRule {
    /// Resource type.
    pub resource_type: ResourceType,
    /// Resource name or pattern.
    pub resource_name: String,
    /// Actions allowed.
    pub allowed_actions: Vec<Action>,
    /// Users allowed (empty: every authenticated user).
    pub allowed_users: Vec<String>,
    /// Roles allowed (empty: every role).
    pub allowed_roles: Vec<String>,
    /// Whether authentication is required.
    pub require_auth: bool,
}

/// Whether `rule` grants `ctx` the `action`: a rule without
/// authentication grants everything; administrators pass every rule;
/// otherwise the action (or `All`) must be allowed, the context
/// authenticated, its user listed when users are listed, and its
/// permissions must allow the action on `type:name`.
pub open spec fn rule_grants(rule: AclRule, ctx: AuthContext, action: Action) -> bool {
    if !rule.require_auth {
        true
    } else if ctx.is_admin {
        true
    } else if !rule.allowed_actions@.contains(action) && !rule.allowed_actions@.contains(Action::All) {
        false
    } else if !context_authenticated(ctx) {
        false
    } else if rule.allowed_users@.len() > 0 && !(ctx.user_id matches Some(u)
        && exists|i: int| 0 <= i < rule.allowed_users@.len() && (#[trigger] rule.allowed_users@[i])@ == u@) {
        false
    } else {
        context_allows(ctx, resource_type_name(rule.resource_type) + ":"@ + rule.resource_name@, action)
    }
}

fn contains_action(v: &Vec<Action>, a: Action) -> (r: bool)
    ensures
        r == v@.contains(a),
{
    let mut i: usize = 0;
    while i < v.len()
        invariant
            i <= v@.len(),
            forall|j: int| 0 <= j < i ==> v@[j] != a,
        decreases v@.len() - i,
    {
        if v[i] == a {
            assert(v@[i as int] == a);
            return true;
        }
        i = i + 1;
    }
    false
}

fn contains_text(v: &Vec<String>, s: &String) -> (r: bool)
    ensures
        r == exists|i: int| 0 <= i < v@.len() && (#[trigger] v@[i])@ == s@,
{
    let mut i: usize = 0;
    while i < v.len()
        invariant
            i <= v@.len(),
            forall|j: int| 0 <= j < i ==> (#[trigger] v@[j])@ != s@,
        decreases v@.len() - i,
    {
        if v[i] == *s {
            return true;
        }
        i = i + 1;
    }
    false
}

/// Whether `a` and `b` are the same rule, field by field.
pub open spec fn same_rule(a: AclRule, b: AclRule) -> bool {
    &&& a.resource_type == b.resource_type
    &&& a.resource_name@ == b.resource_name@
    &&& a.allowed_actions@ == b.allowed_actions@
    &&& a.allowed_users@ == b.allowed_users@
    &&& a.allowed_roles@ == b.allowed_roles@
    &&& a.require_auth == b.require_auth
}

fn copy_actions(v: &Vec<Action>) -> (r: Vec<Action>)
    ensures
        r@ == v@,
{
    let mut out: Vec<Action> = Vec::new();
    let mut i: usize = 0;
    while i < v.len()
        invariant
            i <= v@.len(),
            out@ == v@.take(i as int),
        decreases v@.len() - i,
    {
        out.push(v[i]);
        i = i + 1;
        proof {
            assert(out@ =~= v@.take(i as int));
        }
    }
    proof {
        assert(v@.take(v@.len() as int) =~= v@);
    }
    out
}

impl AclRule {
    /// A copy of the rule.
    pub fn duplicate(&self) -> (r: Self)
        ensures
            same_rule(r, *self),
    {
        AclRule {
            resource_type: self.resource_type,
            resource_name: self.resource_name.clone(),
            allowed_actions: copy_actions(&self.allowed_actions),
            allowed_users: crate::user::copy_texts(&self.allowed_users),
            allowed_roles: crate::user::copy_texts(&self.allowed_roles),
            require_auth: self.require_auth,
        }
    }

    /// A rule without authentication, allowing reads and writes.
    pub fn public(resource_type: ResourceType, resource_name: &str) -> (r: Self)
        ensures
            r.resource_type == resource_type,
            r.resource_name@ == resource_name@,
            r.allowed_actions@ == seq![Action::Read, Action::Write],
            r.allowed_users@.len() == 0,
            r.allowed_roles@.len() == 0,
            !r.require_auth,
    {
        let mut allowed_actions = Vec::new();
        allowed_actions.push(Action::Read);
        allowed_actions.push(Action::Write);
        let r = AclRule {
            resource_type,
            resource_name: owned(resource_name),
            allowed_actions,
            allowed_users: Vec::new(),
            allowed_roles: Vec::new(),
            require_auth: false,
        };
        assert(r.allowed_actions@ =~= seq![Action::Read, Action::Write]);
        r
    }

    /// A rule for authenticated users, allowing `actions`.
    pub fn authenticated(resource_type: ResourceType, resource_name: &str, actions: Vec<Action>) -> (r: Self)
        ensures
            r.resource_type == resource_type,
            r.resource_name@ == resource_name@,
            r.allowed_actions@ == actions@,
            r.allowed_users@.len() == 0,
            r.allowed_roles@.len() == 0,
            r.require_auth,
    {
        AclRule {
            resource_type,
            resource_name: owned(resource_name),
            allowed_actions: actions,
            allowed_users: Vec::new(),
            allowed_roles: Vec::new(),
            require_auth: true,
        }
    }

    /// Whether this rule grants `ctx` the `action`.
    pub fn check_access(&self, ctx: &AuthContext, action: Action) -> (r: bool)
        ensures
            r == rule_grants(*self, *ctx, action),
    {
        if !self.require_auth {
            return true;
        }
        if ctx.is_admin {
            return true;
        }
        if !contains_action(&self.allowed_actions, action) && !contains_action(&self.allowed_actions, Action::All) {
            return false;
        }
        if !ctx.is_authenticated() {
            return false;
        }
        if self.allowed_users.len() > 0 {
            match &ctx.user_id {
                Some(user_id) => {
                    if !contains_text(&self.allowed_users, user_id) {
                        return false;
                    }
                },
                None => {
                    return false;
                },
            }
        }
        let a = concat(resource_type_str(self.resource_type), ":");
        let path = concat(a.as_str(), self.resource_name.as_str());
        ctx.has_permission(path.as_str(), action)
    }
}

/// A rule that requires no authentication grants every context every
/// action; an administrator passes every rule.
pub proof fn lemma_rule_open_or_admin(rule: AclRule, ctx: AuthContext, action: Action)
    ensures
        !rule.require_auth ==> rule_grants(rule, ctx, action),
        ctx.is_admin ==> rule_grants(rule, ctx, action),
{
}

/// A context that is not authenticated passes only rules that require no
/// authentication, unless it is an administrator's.
pub proof fn lemma_anonymous_denied(rule: AclRule, ctx: AuthContext, action: Action)
    requires
        rule.require_auth,
        !ctx.is_admin,
        !context_authenticated(ctx),
    ensures
        !rule_grants(rule, ctx, action),
{
}

/// The access control list: rules by key (`type:name` or `type:*`).
pub struct Acl {
    rules: Keyed<AclRule>,
}

/// What `Acl::check_access` decides: the rule for `type:name` or else the
/// rule for `type:*` must grant the action; with no granting rule access
/// is denied.
pub open spec fn acl_grants(rules: Map<Seq<char>, AclRule>, t: ResourceType, name: Seq<char>, ctx: AuthContext, action: Action) -> bool {
    let key = resource_type_name(t) + ":"@ + name;
    let wildcard = resource_type_name(t) + ":*"@;
    (rules.contains_key(key) && rule_grants(rules[key], ctx, action))
        || (rules.contains_key(wildcard) && rule_grants(rules[wildcard], ctx, action))
}

impl Acl {
    /// Well-formedness of the rule map.
    pub closed spec fn wf(&self) -> bool {
        self.rules.wf()
    }

    /// The rules by key.
    pub closed spec fn rules(&self) -> Map<Seq<char>, AclRule> {
        self.rules@
    }

    /// An empty list.
    pub fn new() -> (r: Self)
        ensures
            r.wf(),
            r.rules() == Map::<Seq<char>, AclRule>::empty(),
    {
        Acl { rules: Keyed::new() }
    }

    /// Add (or replace) the rule under `key`.
    pub fn add_rule(&mut self, key: &str, rule: AclRule)
        requires
            old(self).wf(),
        ensures
            final(self).wf(),
            final(self).rules() == old(self).rules().insert(key@, rule),
    {
        self.rules.insert(owned(key), rule);
    }

    /// Remove the rule under `key`; whether there was one.
    pub fn remove_rule(&mut self, key: &str) -> (r: bool)
        requires
            old(self).wf(),
        ensures
            final(self).wf(),
            final(self).rules() == old(self).rules().remove(key@),
            r == old(self).rules().contains_key(key@),
    {
        self.rules.remove(key).is_some()
    }

    /// Every rule with its key, once each, in storage order.
    pub fn list_rules(&self) -> (r: Vec<(String, AclRule)>)
        requires
            self.wf(),
        ensures
            r@.len() == self.rules().len(),
            forall|i: int| 0 <= i < r@.len() ==> self.rules().contains_key(#[trigger] r@[i].0@)
                && same_rule(r@[i].1, self.rules()[r@[i].0@]),
            forall|k: Seq<char>| #[trigger] self.rules().contains_key(k) ==> exists|i: int| 0 <= i < r@.len() && r@[i].0@ == k,
            forall|i: int, j: int| 0 <= i < r@.len() && 0 <= j < r@.len() && i != j ==> (#[trigger] r@[i]).0@ != (#[trigger] r@[j]).0@,
    {
        proof {
            self.rules.lemma_entries();
            self.rules.lemma_distinct();
        }
        let n = self.rules.len();
        let mut out: Vec<(String, AclRule)> = Vec::new();
        let mut i: usize = 0;
        while i < n
            invariant
                self.wf(),
                n == self.rules.entries().len(),
                i <= n,
                out@.len() == i,
                forall|j: int| 0 <= j < i ==> (#[trigger] out@[j]).0@ == self.rules.entries()[j].0@
                    && same_rule(out@[j].1, self.rules.entries()[j].1),
            decreases n - i,
        {
            let (k, rule) = self.rules.entry_at(i);
            out.push((k.clone(), rule.duplicate()));
            i = i + 1;
        }
        proof {
            self.rules.lemma_entries();
            self.rules.lemma_distinct();
            assert forall|k: Seq<char>| #[trigger] self.rules().contains_key(k) implies exists|i: int| 0 <= i < out@.len() && out@[i].0@ == k by {
                let j = choose|j: int| 0 <= j < self.rules.entries().len() && self.rules.entries()[j].0@ == k;
                assert(out@[j].0@ == k);
            }
            assert forall|i: int| 0 <= i < out@.len() implies self.rules().contains_key(#[trigger] out@[i].0@)
                && same_rule(out@[i].1, self.rules()[out@[i].0@]) by {
                assert(self.rules@.contains_key(self.rules.entries()[i].0@));
            }
            assert forall|i: int, j: int| 0 <= i < out@.len() && 0 <= j < out@.len() && i != j
                implies (#[trigger] out@[i]).0@ != (#[trigger] out@[j]).0@ by {
                assert(self.rules.entries()[i].0@ != self.rules.entries()[j].0@);
            }
        }
        out
    }

    /// Check access of `ctx` to `action` on the resource `type:name`.
    pub fn check_access(&self, resource_type: ResourceType, resource_name: &str, action: Action, ctx: &AuthContext) -> (r: Result<()>)
        requires
            self.wf(),
        ensures
            acl_grants(self.rules(), resource_type, resource_name@, *ctx, action) ==> r is Ok,
            !acl_grants(self.rules(), resource_type, resource_name@, *ctx, action) ==> (r matches Err(SynapError::InvalidRequest(m))
                && m@ == "Access denied"@),
    {
        let a = concat(resource_type_str(resource_type), ":");
        let key = concat(a.as_str(), resource_name);
        match self.rules.get(key.as_str()) {
            Some(rule) => {
                if rule.check_access(ctx, action) {
                    return Ok(());
                }
            },
            None => {},
        }
        let wildcard_key = concat(resource_type_str(resource_type), ":*");
        proof {
            reveal_strlit(":*");
            reveal_strlit(":");
            assert(":*"@ =~= ":"@ + "*"@) by {
                reveal_strlit("*");
            }
        }
        match self.rules.get(wildcard_key.as_str()) {
            Some(rule) => {
                if rule.check_access(ctx, action) {
                    return Ok(());
                }
            },
            None => {},
        }
        Err(SynapError::InvalidRequest(owned("Access denied")))
    }
}

impl Default for Acl {
    /// An empty list.
    fn default() -> (r: Self)
        ensures
            r.wf(),
            r.rules() == Map::<Seq<char>, AclRule>::empty(),
    {
        Acl::new()
    }
}

/// With no rules, access is denied.
pub proof fn lemma_acl_default_deny(t: ResourceType, name: Seq<char>, ctx: AuthContext, action: Action)
    ensures
        !acl_grants(Map::<Seq<char>, AclRule>::empty(), t, name, ctx, action),
{
}


/// The rule for `type:name` grants access when it grants the action, and
/// so does the rule for `type:*`, whether or not a rule for `type:name`
/// exists; when neither grants, access is denied.
pub proof fn lemma_acl_rules_consulted(rules: Map<Seq<char>, AclRule>, t: ResourceType, name: Seq<char>, ctx: AuthContext, action: Action)
    ensures
        ({
            let key = resource_type_name(t) + ":"@ + name;
            let wildcard = resource_type_name(t) + ":*"@;
            &&& rules.contains_key(key) && rule_grants(rules[key], ctx, action) ==> acl_grants(rules, t, name, ctx, action)
            &&& rules.contains_key(wildcard) && rule_grants(rules[wildcard], ctx, action) ==> acl_grants(rules, t, name, ctx, action)
            &&& acl_grants(rules, t, name, ctx, action) ==> (rules.contains_key(key) && rule_grants(rules[key], ctx, action))
                || (rules.contains_key(wildcard) && rule_grants(rules[wildcard], ctx, action))
        }),
{
}

} // verus!
