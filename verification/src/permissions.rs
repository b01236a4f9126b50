//! Permissions: actions, resource patterns with wildcards, and roles.

use vstd::prelude::*;
use vstd::string::*;
use crate::text::{chars_of, has_prefix, has_suffix, occurs_at, occurs_from};

verus! {

/// Permission actions.
#[derive(Debug, Clone, Copy, PartialEq, Eq, Structural, Hash)]
pub enum Action {
    /// Read operations (GET, CONSUME, SUBSCRIBE, ...).
    Read,
    /// Write operations (SET, PUBLISH, ADD, ...).
    Write,
    /// Delete operations (DEL, REMOVE, POP, ...).
    Delete,
    /// Configuration operations (CREATE, UPDATE, CONFIG).
    Configure,
    /// Administrative operations (USER_MANAGE, SYSTEM_CONFIG).
    Admin,
    /// Every action.
    All,
}

/// Whether holding action `a` grants action `b`: `All` grants every
/// action, `Admin` only itself, `Configure` itself and `Read` and `Write`,
/// the others only themselves.
pub open spec fn action_includes(a: Action, b: Action) -> bool {
    match a {
        Action::All => true,
        Action::Admin => b == Action::Admin,
        Action::Configure => b == Action::Configure || b == Action::Read || b == Action::Write,
        _ => a == b,
    }
}

/// The lowercase name of an action.
pub open spec fn action_name(a: Action) -> Seq<char> {
    match a {
        Action::Read => "read"@,
        Action::Write => "write"@,
        Action::Delete => "delete"@,
        Action::Configure => "configure"@,
        Action::Admin => "admin"@,
        Action::All => "all"@,
    }
}

impl Action {
    /// Whether this action grants `other`.
    pub fn includes(&self, other: Action) -> (r: bool)
        ensures
            r == action_includes(*self, other),
    {
        match self {
            Action::All => true,
            Action::Admin => matches!(other, Action::Admin),
            Action::Configure => matches!(other, Action::Configure | Action::Read | Action::Write),
            Action::Read => matches!(other, Action::Read),
            Action::Write => matches!(other, Action::Write),
            Action::Delete => matches!(other, Action::Delete),
        }
    }

    /// The action's name.
    pub fn as_str(&self) -> (r: &'static str)
        ensures
            r@ == action_name(*self),
    {
        match self {
            Action::Read => "read",
            Action::Write => "write",
            Action::Delete => "delete",
            Action::Configure => "configure",
            Action::Admin => "admin",
            Action::All => "all",
        }
    }
}

/// Every action grants itself, and `All` grants every action.
pub proof fn lemma_action_includes(a: Action, b: Action)
    ensures
        action_includes(a, a),
        action_includes(Action::All, b),
        action_includes(a, b) && action_includes(b, a) ==> a == b,
{
}

/// The separator of a pattern with a wildcard in the middle.
pub open spec fn mid_wildcard() -> Seq<char> {
    seq![':', '*', ':']
}

/// Whether a resource matches a pattern with one wildcard in the middle
/// (`prefix:*:suffix`), the wildcard's first occurrence being at `i`: the
/// resource starts with `prefix:` and ends with `suffix`, and `:suffix`
/// occurs after `prefix:`.
pub open spec fn middle_matches(p: Seq<char>, r: Seq<char>, i: int) -> bool {
    let prefix = p.subrange(0, i);
    let suffix = p.subrange(i + 3, p.len() as int);
    &&& has_prefix(r, prefix)
    &&& has_suffix(r, suffix)
    &&& has_prefix(r, prefix.push(':'))
    &&& occurs_from(r.subrange(prefix.len() + 1int, r.len() as int), seq![':'] + suffix, 0)
}

/// Whether resource `r` matches pattern `p`: the same text; `*`; a pattern
/// ending in `*` whose rest begins `r`; one starting with `*` whose rest
/// ends `r`; or a pattern holding `:*:` exactly once (as the pattern splits
/// on it) that `middle_matches` accepts.
pub open spec fn pattern_matches(p: Seq<char>, r: Seq<char>) -> bool {
    if p == r {
        true
    } else if p == seq!['*'] {
        true
    } else if p.len() > 0 && p.last() == '*' {
        has_prefix(r, p.drop_last())
    } else if p.len() > 0 && p[0] == '*' {
        has_suffix(r, p.drop_first())
    } else if occurs_from(p, mid_wildcard(), 0) {
        let i = choose|i: int| occurs_at(p, mid_wildcard(), i) && forall|j: int| 0 <= j < i ==> !occurs_at(p, mid_wildcard(), j);
        if occurs_from(p, mid_wildcard(), i + 3) {
            false
        } else {
            middle_matches(p, r, i)
        }
    } else {
        false
    }
}

/// A permission to perform an action on the resources a pattern matches.
#[derive(Debug, Clone, PartialEq, Eq)]
pub struct Permission {
    /// Resource pattern, with wildcards: `queue:*`, `queue:orders`,
    /// `kv:users:*`, `*:orders`, `queue:*:orders`.
    pub resource_pattern: String,
    /// Action allowed on the resources.
    pub action: Action,
}

/// Whether permission `p` allows `action` on `resource`.
pub open spec fn permission_allows(p: Permission, resource: Seq<char>, action: Action) -> bool {
    action_includes(p.action, action) && pattern_matches(p.resource_pattern@, resource)
}

/// The first text up to `':'`, or all of `s` when it has none.
pub open spec fn first_colon(s: Seq<char>) -> Option<int> {
    if exists|i: int| 0 <= i < s.len() && s[i] == ':' {
        Some(choose|i: int| 0 <= i < s.len() && s[i] == ':' && forall|j: int| 0 <= j < i ==> s[j] != ':')
    } else {
        None
    }
}

/// Position of the first `':'` in `v`.
fn find_colon(v: &Vec<char>, start: usize) -> (r: Option<usize>)
    requires
        start <= v@.len(),
    ensures
        match r {
            Some(i) => start <= i < v@.len() && v@[i as int] == ':'
                && forall|j: int| start <= j < i ==> v@[j] != ':',
            None => forall|j: int| start <= j < v@.len() ==> v@[j] != ':',
        },
{
    let mut i = start;
    while i < v.len()
        invariant
            start <= i <= v@.len(),
            forall|j: int| start <= j < i ==> v@[j] != ':',
        decreases v@.len() - i,
    {
        if v[i] == ':' {
            return Some(i);
        }
        i = i + 1;
    }
    None
}

impl Permission {
    /// A permission for `action` on the resources `resource_pattern` matches.
    pub fn new(resource_pattern: &str, action: Action) -> (r: Self)
        ensures
            r.resource_pattern@ == resource_pattern@,
            r.action == action,
    {
        Permission { resource_pattern: crate::text::owned(resource_pattern), action }
    }

    /// Whether this permission allows `action` on `resource`.
    pub fn matches(&self, resource: &str, action: Action) -> (r: bool)
        ensures
            r == permission_allows(*self, resource@, action),
    {
        if !self.action.includes(action) {
            return false;
        }
        self.matches_pattern(resource)
    }

    /// Whether `resource` matches this permission's pattern.
    fn matches_pattern(&self, resource: &str) -> (r: bool)
        ensures
            r == pattern_matches(self.resource_pattern@, resource@),
    {
        let p = chars_of(self.resource_pattern.as_str());
        let r = chars_of(resource);
        if crate::text::same_text(self.resource_pattern.as_str(), resource) {
            return true;
        }
        let star = chars_of("*");
        proof {
            reveal_strlit("*");
            assert(star@ =~= seq!['*']);
        }
        if crate::text::same_text(self.resource_pattern.as_str(), "*") {
            return true;
        }
        let n = p.len();
        if n > 0 && p[n - 1] == '*' {
            let prefix = crate::text::sub_chars(&p, 0, n - 1);
            proof {
                assert(prefix@ =~= p@.drop_last());
            }
            return crate::text::starts_with(&r, &prefix);
        }
        if n > 0 && p[0] == '*' {
            let suffix = crate::text::sub_chars(&p, 1, n);
            proof {
                assert(suffix@ =~= p@.drop_first());
            }
            return crate::text::ends_with(&r, &suffix);
        }
        let mut mid: Vec<char> = Vec::new();
        mid.push(':');
        mid.push('*');
        mid.push(':');
        proof {
            assert(mid@ =~= mid_wildcard());
        }
        match crate::text::find_from(&p, &mid, 0) {
            Some(i) => {
                proof {
                    let c = choose|c: int| occurs_at(p@, mid_wildcard(), c)
                        && forall|j: int| 0 <= j < c ==> !occurs_at(p@, mid_wildcard(), j);
                    assert(occurs_at(p@, mid_wildcard(), i as int));
                    if c < i {
                        assert(!occurs_at(p@, mid_wildcard(), c));
                    }
                    if i < c {
                        assert(!occurs_at(p@, mid_wildcard(), i as int));
                    }
                    assert(c == i);
                }
                if crate::text::find_from(&p, &mid, i + 3).is_some() {
                    return false;
                }
                let prefix = crate::text::sub_chars(&p, 0, i);
                let suffix = crate::text::sub_chars(&p, i + 3, n);
                if crate::text::starts_with(&r, &prefix) && crate::text::ends_with(&r, &suffix) {
                    let mut prefix_colon = crate::text::sub_chars(&p, 0, i);
                    prefix_colon.push(':');
                    if crate::text::starts_with(&r, &prefix_colon) {
                        let after = crate::text::sub_chars(&r, prefix_colon.len(), r.len());
                        let mut needle: Vec<char> = Vec::new();
                        needle.push(':');
                        let mut k: usize = 0;
                        while k < suffix.len()
                            invariant
                                k <= suffix@.len(),
                                needle@ == seq![':'] + suffix@.subrange(0, k as int),
                            decreases suffix@.len() - k,
                        {
                            needle.push(suffix[k]);
                            proof {
                                assert(needle@ =~= seq![':'] + suffix@.subrange(0, k + 1));
                            }
                            k = k + 1;
                        }
                        proof {
                            assert(needle@ =~= seq![':'] + suffix@);
                        }
                        if crate::text::find_from(&after, &needle, 0).is_some() {
                            return true;
                        }
                    }
                }
                false
            },
            None => false,
        }
    }

    /// The resource type: the text before the first `':'` (all of the
    /// resource when it has none).
    pub fn get_resource_type(resource: &str) -> (r: Option<&str>)
        ensures
            r matches Some(t) && t@ == match first_colon(resource@) {
                Some(i) => resource@.subrange(0, i),
                None => resource@,
            },
    {
        let v = chars_of(resource);
        let end = match find_colon(&v, 0) {
            Some(i) => i,
            None => v.len(),
        };
        proof {
            resource_first_colon(v@, end as int);
        }
        Some(resource.substring_char(0, end))
    }

    /// The resource name: the text between the first and second `':'` (or
    /// the end); none when the resource has no `':'`.
    pub fn get_resource_name(resource: &str) -> (r: Option<&str>)
        ensures
            match first_colon(resource@) {
                Some(i) => r matches Some(t) && t@ == match first_colon(resource@.subrange(i + 1, resource@.len() as int)) {
                    Some(j) => resource@.subrange(i + 1, i + 1 + j),
                    None => resource@.subrange(i + 1, resource@.len() as int),
                },
                None => r is None,
            },
    {
        let v = chars_of(resource);
        match find_colon(&v, 0) {
            Some(i) => {
                proof {
                    resource_first_colon(v@, i as int);
                }
                assert(i < v.len());
                let end = match find_colon(&v, i + 1) {
                    Some(j) => j,
                    None => v.len(),
                };
                proof {
                    let rest = v@.subrange(i + 1, v@.len() as int);
                    assert forall|j: int| 0 <= j < end - (i + 1) implies rest[j] != ':' by {
                        assert(rest[j] == v@[i + 1 + j]);
                    }
                    if end < v.len() {
                        assert(rest[end - (i + 1)] == ':');
                    }
                    resource_first_colon(rest, end - (i + 1));
                    assert(v@.subrange(i + 1, end as int) =~= rest.subrange(0, end - (i + 1)));
                }
                Some(resource.substring_char(i + 1, end))
            },
            None => {
                proof {
                    resource_first_colon(v@, v@.len() as int);
                }
                None
            },
        }
    }
}

/// `end` is where `first_colon` puts the end of the first piece of `s`.
proof fn resource_first_colon(s: Seq<char>, end: int)
    requires
        0 <= end <= s.len(),
        forall|j: int| 0 <= j < end ==> s[j] != ':',
        end < s.len() ==> s[end] == ':',
    ensures
        first_colon(s) == if end < s.len() { Some(end) } else { None::<int> },
{
    if end < s.len() {
        let c = choose|i: int| 0 <= i < s.len() && s[i] == ':' && forall|j: int| 0 <= j < i ==> s[j] != ':';
        assert(s[end] == ':');
        if c < end {
            assert(s[c] != ':');
        }
        if end < c {
            assert(s[end] != ':');
        }
    }
}

/// A role: a name and the permissions it grants.
#[derive(Debug, Clone, PartialEq, Eq)]
pub struct Role {
    pub name: String,
    pub permissions: Vec<Permission>,
}

/// A permission as its pattern's text and its action.
pub open spec fn perm_view(p: Permission) -> (Seq<char>, Action) {
    (p.resource_pattern@, p.action)
}

/// Whether some permission of `perms` allows `action` on `resource`.
pub open spec fn any_allows(perms: Seq<Permission>, resource: Seq<char>, action: Action) -> bool {
    exists|i: int| 0 <= i < perms.len() && permission_allows(#[trigger] perms[i], resource, action)
}

impl Role {
    /// The administrator role: every action on every resource.
    pub fn admin() -> (r: Self)
        ensures
            r.name@ == "admin"@,
            r.permissions@.map_values(|p: Permission| perm_view(p)) == seq![("*"@, Action::All)],
    {
        let mut permissions = Vec::new();
        permissions.push(Permission::new("*", Action::All));
        let r = Role { name: crate::text::owned("admin"), permissions };
        assert(r.permissions@.map_values(|p: Permission| perm_view(p)) =~= seq![("*"@, Action::All)]);
        r
    }

    /// The read-only role: reading every resource.
    pub fn readonly() -> (r: Self)
        ensures
            r.name@ == "readonly"@,
            r.permissions@.map_values(|p: Permission| perm_view(p)) == seq![("*"@, Action::Read)],
    {
        let mut permissions = Vec::new();
        permissions.push(Permission::new("*", Action::Read));
        let r = Role { name: crate::text::owned("readonly"), permissions };
        assert(r.permissions@.map_values(|p: Permission| perm_view(p)) =~= seq![("*"@, Action::Read)]);
        r
    }

    /// A role with the given name and permissions.
    pub fn custom(name: &str, permissions: Vec<Permission>) -> (r: Self)
        ensures
            r.name@ == name@,
            r.permissions@ == permissions@,
    {
        Role { name: crate::text::owned(name), permissions }
    }

    /// Read, write and configure on queues.
    pub fn queue_manager() -> (r: Self)
        ensures
            r.name@ == "queue_manager"@,
            r.permissions@.map_values(|p: Permission| perm_view(p)) == seq![
                ("queue:*"@, Action::Read), ("queue:*"@, Action::Write), ("queue:*"@, Action::Configure)],
    {
        let mut permissions = Vec::new();
        permissions.push(Permission::new("queue:*", Action::Read));
        permissions.push(Permission::new("queue:*", Action::Write));
        permissions.push(Permission::new("queue:*", Action::Configure));
        let r = Role { name: crate::text::owned("queue_manager"), permissions };
        assert(r.permissions@.map_values(|p: Permission| perm_view(p)) =~= seq![
            ("queue:*"@, Action::Read), ("queue:*"@, Action::Write), ("queue:*"@, Action::Configure)]);
        r
    }

    /// Read, write and configure on streams.
    pub fn stream_manager() -> (r: Self)
        ensures
            r.name@ == "stream_manager"@,
            r.permissions@.map_values(|p: Permission| perm_view(p)) == seq![
                ("stream:*"@, Action::Read), ("stream:*"@, Action::Write), ("stream:*"@, Action::Configure)],
    {
        let mut permissions = Vec::new();
        permissions.push(Permission::new("stream:*", Action::Read));
        permissions.push(Permission::new("stream:*", Action::Write));
        permissions.push(Permission::new("stream:*", Action::Configure));
        let r = Role { name: crate::text::owned("stream_manager"), permissions };
        assert(r.permissions@.map_values(|p: Permission| perm_view(p)) =~= seq![
            ("stream:*"@, Action::Read), ("stream:*"@, Action::Write), ("stream:*"@, Action::Configure)]);
        r
    }

    /// Read and write on every data structure.
    pub fn data_manager() -> (r: Self)
        ensures
            r.name@ == "data_manager"@,
            r.permissions@.map_values(|p: Permission| perm_view(p)) == seq![
                ("kv:*"@, Action::Read), ("kv:*"@, Action::Write),
                ("hash:*"@, Action::Read), ("hash:*"@, Action::Write),
                ("list:*"@, Action::Read), ("list:*"@, Action::Write),
                ("set:*"@, Action::Read), ("set:*"@, Action::Write),
                ("sortedset:*"@, Action::Read), ("sortedset:*"@, Action::Write)],
    {
        let mut permissions = Vec::new();
        permissions.push(Permission::new("kv:*", Action::Read));
        permissions.push(Permission::new("kv:*", Action::Write));
        permissions.push(Permission::new("hash:*", Action::Read));
        permissions.push(Permission::new("hash:*", Action::Write));
        permissions.push(Permission::new("list:*", Action::Read));
        permissions.push(Permission::new("list:*", Action::Write));
        permissions.push(Permission::new("set:*", Action::Read));
        permissions.push(Permission::new("set:*", Action::Write));
        permissions.push(Permission::new("sortedset:*", Action::Read));
        permissions.push(Permission::new("sortedset:*", Action::Write));
        let r = Role { name: crate::text::owned("data_manager"), permissions };
        assert(r.permissions@.map_values(|p: Permission| perm_view(p)) =~= seq![
            ("kv:*"@, Action::Read), ("kv:*"@, Action::Write),
            ("hash:*"@, Action::Read), ("hash:*"@, Action::Write),
            ("list:*"@, Action::Read), ("list:*"@, Action::Write),
            ("set:*"@, Action::Read), ("set:*"@, Action::Write),
            ("sortedset:*"@, Action::Read), ("sortedset:*"@, Action::Write)]);
        r
    }
}

/// The pattern `*` with action `All` allows everything.
pub proof fn lemma_wildcard_all_allows(p: Permission, resource: Seq<char>, action: Action)
    requires
        p.resource_pattern@ == seq!['*'],
        p.action == Action::All,
    ensures
        permission_allows(p, resource, action),
{
}

/// A pattern matches its own text.
pub proof fn lemma_pattern_matches_itself(p: Seq<char>)
    ensures
        pattern_matches(p, p),
{
}

/// A pattern `prefix*` matches every resource that begins with `prefix`.
pub proof fn lemma_prefix_wildcard(prefix: Seq<char>, r: Seq<char>)
    requires
        has_prefix(r, prefix),
    ensures
        pattern_matches(prefix.push('*'), r),
{
    let p = prefix.push('*');
    assert(p.drop_last() =~= prefix);
}

} // verus!
