//! Permission checks per kind of resource, and the checks that handlers
//! run before they act: a resource is named `type:name`, and a context may
//! act on it when it is an administrator's or one of its permissions allows
//! the action on that name.

use vstd::prelude::*;
use crate::acl::{AuthContext, context_allows, context_authenticated};
use crate::error::{Result, SynapError};
use crate::permissions::{Action, action_name};
use crate::text::{concat, owned};

verus! {

/// Whether `ctx` may perform `action` on the resource `prefix` followed by `name`.
fn check_prefixed(ctx: &AuthContext, prefix: &str, name: &str, action: Action) -> (r: bool)
    ensures
        r == context_allows(*ctx, prefix@ + name@, action),
{
    let resource = concat(prefix, name);
    ctx.has_permission(resource.as_str(), action)
}

/// Whether `ctx` may perform `action` on key-value entry `key`.
pub fn check_kv_permission(ctx: &AuthContext, key: &str, action: Action) -> (r: bool)
    ensures
        r == context_allows(*ctx, "kv:"@ + key@, action),
{
    check_prefixed(ctx, "kv:", key, action)
}

/// Whether `ctx` may perform `action` on hash `key`.
pub fn check_hash_permission(ctx: &AuthContext, key: &str, action: Action) -> (r: bool)
    ensures
        r == context_allows(*ctx, "hash:"@ + key@, action),
{
    check_prefixed(ctx, "hash:", key, action)
}

/// Whether `ctx` may perform `action` on list `key`.
pub fn check_list_permission(ctx: &AuthContext, key: &str, action: Action) -> (r: bool)
    ensures
        r == context_allows(*ctx, "list:"@ + key@, action),
{
    check_prefixed(ctx, "list:", key, action)
}

/// Whether `ctx` may perform `action` on set `key`.
pub fn check_set_permission(ctx: &AuthContext, key: &str, action: Action) -> (r: bool)
    ensures
        r == context_allows(*ctx, "set:"@ + key@, action),
{
    check_prefixed(ctx, "set:", key, action)
}

/// Whether `ctx` may perform `action` on sorted set `key`.
pub fn check_sortedset_permission(ctx: &AuthContext, key: &str, action: Action) -> (r: bool)
    ensures
        r == context_allows(*ctx, "sortedset:"@ + key@, action),
{
    check_prefixed(ctx, "sortedset:", key, action)
}

/// Whether `ctx` may perform `action` on queue `queue_name`.
pub fn check_queue_permission(ctx: &AuthContext, queue_name: &str, action: Action) -> (r: bool)
    ensures
        r == context_allows(*ctx, "queue:"@ + queue_name@, action),
{
    check_prefixed(ctx, "queue:", queue_name, action)
}

/// Whether `ctx` may perform `action` on stream room `room_name`.
pub fn check_stream_permission(ctx: &AuthContext, room_name: &str, action: Action) -> (r: bool)
    ensures
        r == context_allows(*ctx, "stream:"@ + room_name@, action),
{
    check_prefixed(ctx, "stream:", room_name, action)
}

/// Whether `ctx` may perform `action` on pub/sub topic `topic`.
pub fn check_pubsub_permission(ctx: &AuthContext, topic: &str, action: Action) -> (r: bool)
    ensures
        r == context_allows(*ctx, "pubsub:"@ + topic@, action),
{
    check_prefixed(ctx, "pubsub:", topic, action)
}

/// Whether `ctx` may perform `action` on transactions.
pub fn check_transaction_permission(ctx: &AuthContext, action: Action) -> (r: bool)
    ensures
        r == context_allows(*ctx, "transaction:*"@, action),
{
    ctx.has_permission("transaction:*", action)
}

/// Whether `ctx` may perform `action` on scripts.
pub fn check_script_permission(ctx: &AuthContext, action: Action) -> (r: bool)
    ensures
        r == context_allows(*ctx, "script:*"@, action),
{
    ctx.has_permission("script:*", action)
}

/// Whether `ctx` has administrator rights.
pub fn check_admin_permission(ctx: &AuthContext) -> (r: bool)
    ensures
        r == (context_allows(*ctx, "admin:*"@, Action::Admin) || ctx.is_admin),
{
    ctx.has_permission("admin:*", Action::Admin) || ctx.is_admin
}

/// Whether `ctx` may perform `action` on `resource_type:resource_name`.
pub fn check_custom_permission(
    ctx: &AuthContext,
    resource_type: &str,
    resource_name: &str,
    action: Action,
) -> (r: bool)
    ensures
        r == context_allows(*ctx, resource_type@ + ":"@ + resource_name@, action),
{
    let t = concat(resource_type, ":");
    check_prefixed(ctx, t.as_str(), resource_name, action)
}

/// Succeed when `ctx` may perform `action` on `resource`; otherwise refuse
/// with `Forbidden`, naming the resource and the action.
pub fn require_permission(ctx: &AuthContext, resource: &str, action: Action) -> (r: Result<()>)
    ensures
        r is Ok <==> context_allows(*ctx, resource@, action),
        r is Err ==> (r matches Err(SynapError::Forbidden(m))
            && m@ == "Insufficient permissions for resource: "@ + resource@ + ", action: "@ + action_name(action)),
{
    if ctx.has_permission(resource, action) {
        Ok(())
    } else {
        let a = concat("Insufficient permissions for resource: ", resource);
        let b = concat(a.as_str(), ", action: ");
        Err(SynapError::Forbidden(concat(b.as_str(), action.as_str())))
    }
}

/// Succeed when `ctx` is authenticated; otherwise refuse with `Unauthorized`.
pub fn require_auth(ctx: &AuthContext) -> (r: Result<()>)
    ensures
        r is Ok <==> context_authenticated(*ctx),
        r is Err ==> (r matches Err(SynapError::Unauthorized(m)) && m@ == "Authentication required"@),
{
    if ctx.is_authenticated() {
        Ok(())
    } else {
        Err(SynapError::Unauthorized(owned("Authentication required")))
    }
}

/// Succeed when `ctx` has administrator rights; otherwise refuse with `Forbidden`.
pub fn require_admin(ctx: &AuthContext) -> (r: Result<()>)
    ensures
        r is Ok <==> (ctx.is_admin || context_allows(*ctx, "admin:*"@, Action::Admin)),
        r is Err ==> (r matches Err(SynapError::Forbidden(m)) && m@ == "Admin permission required"@),
{
    if ctx.is_admin || ctx.has_permission("admin:*", Action::Admin) {
        Ok(())
    } else {
        Err(SynapError::Forbidden(owned("Admin permission required")))
    }
}

} // verus!
