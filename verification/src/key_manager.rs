//! The kinds of value a key can hold, and the commands that work across
//! the string and set stores: TYPE, EXISTS, RENAME, RENAMENX and COPY.

use vstd::prelude::*;
use crate::clock::unix_time_secs;
use crate::error::{Result, SynapError};
use crate::kv_model::{KVState, present, lookup, live, get_state, get_answer, ttl_answer, set_state, set_ok, delete_state};
use crate::kv_store::{KVStore, keys_view};
use crate::kv_model::Ent;
use crate::set::{SetStore, SetValue, members_of, byte_views};
use crate::text::{owned, same_text};
use crate::types::KVConfig;

verus! {

/// The kind of value under a key.
#[derive(Debug, Clone, Copy, PartialEq, Eq, Structural)]
pub enum KeyType {
    /// A plain string value.
    StringKey,
    /// A hash.
    Hash,
    /// A list.
    List,
    /// A set.
    SetKey,
    /// A sorted set.
    SortedSet,
    /// No value.
    Absent,
}

impl KeyType {
    /// The Redis name of the kind.
    pub open spec fn name(self) -> Seq<char> {
        match self {
            KeyType::StringKey => "string"@,
            KeyType::Hash => "hash"@,
            KeyType::List => "list"@,
            KeyType::SetKey => "set"@,
            KeyType::SortedSet => "zset"@,
            KeyType::Absent => "none"@,
        }
    }

    /// The Redis name of the kind.
    pub fn as_str(&self) -> (r: &'static str)
        ensures
            r@ == self.name(),
    {
        match self {
            KeyType::StringKey => "string",
            KeyType::Hash => "hash",
            KeyType::List => "list",
            KeyType::SetKey => "set",
            KeyType::SortedSet => "zset",
            KeyType::Absent => "none",
        }
    }
}


/// The members of each set, by key.
pub open spec fn set_content(m: Map<Seq<char>, SetValue>) -> Map<Seq<char>, Set<Seq<u8>>> {
    Map::new(|k: Seq<char>| m.contains_key(k), |k: Seq<char>| m[k].member_set())
}

/// Whether `k` holds a string that is live at `now`.
pub open spec fn string_live(kv: KVState, k: Seq<char>, now: u64) -> bool {
    present(kv.entries, k) && live(lookup(kv.entries, k), now)
}

/// Whether `k` holds a set with at least one member.
pub open spec fn set_held(c: Map<Seq<char>, Set<Seq<u8>>>, k: Seq<char>) -> bool {
    c.contains_key(k) && c[k].len() > 0
}

/// The kind of `k` at `now`: a set is looked for first, then a string.
pub open spec fn kind_of(kv: KVState, c: Map<Seq<char>, Set<Seq<u8>>>, k: Seq<char>, now: u64) -> KeyType {
    if set_held(c, k) {
        KeyType::SetKey
    } else if string_live(kv, k, now) {
        KeyType::StringKey
    } else {
        KeyType::Absent
    }
}

/// The members of `k` in `c`, none when it holds no set.
pub open spec fn content_of(c: Map<Seq<char>, Set<Seq<u8>>>, k: Seq<char>) -> Set<Seq<u8>> {
    if c.contains_key(k) { c[k] } else { Set::empty() }
}

/// The string state after the value of `src` is written under `dst` (GET,
/// TTL, SET) and, when `remove_src`, `src` is deleted; each step stops the
/// rest when it fails.
pub open spec fn string_moved(k1: KVState, cfg: KVConfig, src: Seq<char>, dst: Seq<char>, now: u64, remove_src: bool) -> KVState {
    let g = get_state(k1, src, now);
    match get_answer(k1, src, now) {
        None => g,
        Some(v) => if !present(g.entries, src) {
            g
        } else {
            let s = set_state(g, cfg, dst, v, ttl_answer(g.entries, src, now), now);
            if set_ok(g, cfg, dst, v) && remove_src { delete_state(s, src) } else { s }
        },
    }
}

/// How moving the string of `src` to `dst` ends: `None` on success,
/// `Some(true)` when the value or its expiry is not found, `Some(false)`
/// when the write does not fit under the memory limit.
pub open spec fn string_move_error(k1: KVState, cfg: KVConfig, src: Seq<char>, dst: Seq<char>, now: u64) -> Option<bool> {
    let g = get_state(k1, src, now);
    match get_answer(k1, src, now) {
        None => Some(true),
        Some(v) => if !present(g.entries, src) {
            Some(true)
        } else if !set_ok(g, cfg, dst, v) {
            Some(false)
        } else {
            None
        },
    }
}

/// The sets after the members of `src` are added to `dst` and, when
/// `remove_src`, all of them are taken out of `src` (which then goes).
pub open spec fn set_moved(c1: Map<Seq<char>, Set<Seq<u8>>>, src: Seq<char>, dst: Seq<char>, remove_src: bool) -> Map<Seq<char>, Set<Seq<u8>>> {
    let c2 = c1.insert(dst, content_of(c1, dst).union(c1[src]));
    if remove_src { c2.remove(src) } else { c2 }
}

/// The commands that work across the string and set stores. Their
/// contracts give the string store's whole state and the members of every
/// set; the set store's operation counters move with the SCARD, SMEMBERS,
/// SADD and SREM calls these commands make, and are not restated here.
pub struct KeyManager {
    /// The string store.
    pub kv_store: KVStore,
    /// The set store.
    pub set_store: SetStore,
}

/// Whether `r` is the failure `string_move_error` names for `src`.
pub open spec fn move_failure(e: Option<bool>, src: Seq<char>, r: Result<()>) -> bool {
    match e {
        None => r is Ok,
        Some(true) => r matches Err(SynapError::KeyNotFound(m)) && m@ == src,
        Some(false) => r matches Err(SynapError::MemoryLimitExceeded),
    }
}

impl KeyManager {
    /// Both stores well formed.
    pub open spec fn wf(&self) -> bool {
        self.kv_store.wf() && self.set_store.wf()
    }

    /// The members of each set.
    pub open spec fn sets(&self) -> Map<Seq<char>, Set<Seq<u8>>> {
        set_content(self.set_store.sets())
    }

    /// The two stores after the key `k` is removed (by its kind at `now`).
    pub open spec fn removed(kv: KVState, c: Map<Seq<char>, Set<Seq<u8>>>, k: Seq<char>, now: u64) -> (KVState, Map<Seq<char>, Set<Seq<u8>>>) {
        match kind_of(kv, c, k, now) {
            KeyType::StringKey => (delete_state(kv, k), c),
            KeyType::SetKey => (kv, c.remove(k)),
            _ => (kv, c),
        }
    }

    /// Whether `after` and `r` are what COPY (RENAME when `remove_src`) of
    /// `src` to `dst` at `now` makes of `before`, once `dst` is free: a
    /// string goes through GET, TTL and SET, a set through SMEMBERS and SADD.
    pub open spec fn moved(before: Self, after: Self, k1: KVState, c1: Map<Seq<char>, Set<Seq<u8>>>, src: Seq<char>, dst: Seq<char>, now: u64, remove_src: bool, r: Result<()>) -> bool {
        let cfg = before.kv_store.settings();
        match kind_of(before.kv_store.state(), before.sets(), src, now) {
            KeyType::StringKey => {
                &&& after.kv_store.state() == string_moved(k1, cfg, src, dst, now, remove_src)
                &&& after.sets() == c1
                &&& move_failure(string_move_error(k1, cfg, src, dst, now), src, r)
            },
            _ => {
                &&& after.kv_store.state() == k1
                &&& after.sets() == set_moved(c1, src, dst, remove_src)
                &&& r is Ok
            },
        }
    }

    /// Whether `after` and `r` are what RENAME of `src` to `dst` at `now`
    /// makes of `before`: nothing for the same key; `KeyNotFound` for a
    /// missing source; else the destination is removed and the source
    /// moves there.
    pub open spec fn renamed(before: Self, after: Self, src: Seq<char>, dst: Seq<char>, now: u64, r: Result<()>) -> bool {
        let kv0 = before.kv_store.state();
        let c0 = before.sets();
        &&& after.kv_store.settings() == before.kv_store.settings()
        &&& if src == dst {
            r is Ok && after.kv_store.state() == kv0 && after.sets() == c0
        } else if kind_of(kv0, c0, src, now) == KeyType::Absent {
            (r matches Err(SynapError::KeyNotFound(m)) && m@ == src) && after.kv_store.state() == kv0 && after.sets() == c0
        } else {
            let (k1, c1) = Self::removed(kv0, c0, dst, now);
            Self::moved(before, after, k1, c1, src, dst, now, true, r)
        }
    }

    /// Whether `after` and `r` are what COPY of `src` to `dst` at `now`
    /// makes of `before`: `true` for the same key; `KeyNotFound` for a
    /// missing source; `false` when the destination exists and may not be
    /// replaced; else the destination is removed and the source copied.
    pub open spec fn copied(before: Self, after: Self, src: Seq<char>, dst: Seq<char>, replace: bool, now: u64, r: Result<bool>) -> bool {
        let kv0 = before.kv_store.state();
        let c0 = before.sets();
        &&& after.kv_store.settings() == before.kv_store.settings()
        &&& if src == dst {
            r == Ok::<bool, SynapError>(true) && after.kv_store.state() == kv0 && after.sets() == c0
        } else if kind_of(kv0, c0, src, now) == KeyType::Absent {
            (r matches Err(SynapError::KeyNotFound(m)) && m@ == src) && after.kv_store.state() == kv0 && after.sets() == c0
        } else if kind_of(kv0, c0, dst, now) != KeyType::Absent && !replace {
            r == Ok::<bool, SynapError>(false) && after.kv_store.state() == kv0 && after.sets() == c0
        } else {
            let (k1, c1) = Self::removed(kv0, c0, dst, now);
            let u: Result<()> = match r { Ok(_) => Ok(()), Err(e) => Err(e) };
            &&& Self::moved(before, after, k1, c1, src, dst, now, false, u)
            &&& r is Ok ==> r == Ok::<bool, SynapError>(true)
        }
    }

    /// Whether `after` and `r` are what RENAMENX of `src` to `dst` at `now`
    /// makes of `before`: `true` for the same key, `false` when `dst`
    /// exists, else a RENAME whose success answers `true`.
    pub open spec fn renamed_nx(before: Self, after: Self, src: Seq<char>, dst: Seq<char>, now: u64, r: Result<bool>) -> bool {
        let kv0 = before.kv_store.state();
        let c0 = before.sets();
        &&& after.kv_store.settings() == before.kv_store.settings()
        &&& if src == dst {
            r == Ok::<bool, SynapError>(true) && after.kv_store.state() == kv0 && after.sets() == c0
        } else if kind_of(kv0, c0, dst, now) != KeyType::Absent {
            r == Ok::<bool, SynapError>(false) && after.kv_store.state() == kv0 && after.sets() == c0
        } else {
            let u: Result<()> = match r { Ok(_) => Ok(()), Err(e) => Err(e) };
            &&& Self::renamed(before, after, src, dst, now, u)
            &&& r is Ok ==> r == Ok::<bool, SynapError>(true)
        }
    }

    /// A manager over the two stores.
    pub fn new(kv_store: KVStore, set_store: SetStore) -> (r: Self)
        ensures
            r.kv_store == kv_store,
            r.set_store == set_store,
    {
        KeyManager { kv_store, set_store }
    }

    /// The kind of `key` at `now` (TYPE).
    pub fn key_type_at(&mut self, key: &str, now: u64) -> (r: Result<KeyType>)
        requires
            old(self).wf(),
        ensures
            final(self).wf(),
            final(self).kv_store == old(self).kv_store,
            final(self).set_store.sets() == old(self).set_store.sets(),
            r == Ok::<KeyType, SynapError>(kind_of(old(self).kv_store.state(), old(self).sets(), key@, now)),
    {
        let has_set = match self.set_store.scard(key) {
            Ok(n) => n > 0,
            Err(_) => false,
        };
        if has_set {
            return Ok(KeyType::SetKey);
        }
        match self.kv_store.key_exists_at(key, now) {
            Ok(true) => Ok(KeyType::StringKey),
            Ok(false) => Ok(KeyType::Absent),
            Err(e) => Err(e),
        }
    }

    /// The kind of `key` now.
    pub fn key_type(&mut self, key: &str) -> (r: Result<KeyType>)
        requires
            old(self).wf(),
        ensures
            final(self).wf(),
            final(self).kv_store == old(self).kv_store,
            final(self).set_store.sets() == old(self).set_store.sets(),
            exists|now: u64| r == Ok::<KeyType, SynapError>(#[trigger] kind_of(old(self).kv_store.state(), old(self).sets(), key@, now)),
    {
        let now = unix_time_secs();
        self.key_type_at(key, now)
    }

    /// Whether `key` holds a live string or a set at `now` (EXISTS).
    pub fn key_exists_at(&mut self, key: &str, now: u64) -> (r: Result<bool>)
        requires
            old(self).wf(),
        ensures
            final(self).wf(),
            final(self).kv_store == old(self).kv_store,
            final(self).set_store.sets() == old(self).set_store.sets(),
            r == Ok::<bool, SynapError>(kind_of(old(self).kv_store.state(), old(self).sets(), key@, now) != KeyType::Absent),
    {
        match self.kv_store.key_exists_at(key, now) {
            Ok(true) => return Ok(true),
            Ok(false) => {},
            Err(e) => return Err(e),
        }
        match self.set_store.scard(key) {
            Ok(n) => Ok(n > 0),
            Err(_) => Ok(false),
        }
    }

    /// Whether `key` exists now.
    pub fn key_exists(&mut self, key: &str) -> (r: Result<bool>)
        requires
            old(self).wf(),
        ensures
            final(self).wf(),
            final(self).kv_store == old(self).kv_store,
            final(self).set_store.sets() == old(self).set_store.sets(),
            exists|now: u64| r == Ok::<bool, SynapError>(#[trigger] kind_of(old(self).kv_store.state(), old(self).sets(), key@, now) != KeyType::Absent),
    {
        let now = unix_time_secs();
        self.key_exists_at(key, now)
    }

    /// Remove `key` from the store that holds it at `now`.
    fn remove_key_at(&mut self, key: &str, now: u64) -> (r: Result<()>)
        requires
            old(self).wf(),
        ensures
            final(self).wf(),
            r is Ok,
            final(self).kv_store.settings() == old(self).kv_store.settings(),
            (final(self).kv_store.state(), final(self).sets())
                == Self::removed(old(self).kv_store.state(), old(self).sets(), key@, now),
    {
        let kind = match self.key_type_at(key, now) {
            Ok(k) => k,
            Err(e) => return Err(e),
        };
        match kind {
            KeyType::StringKey => {
                let _ = self.kv_store.delete(key);
                Ok(())
            },
            KeyType::SetKey => {
                let ghost c0 = self.sets();
                let all = match self.set_store.smembers(key) {
                    Ok(v) => v,
                    Err(e) => return Err(e),
                };
                let ghost s1 = self.set_store.sets();
                let _ = self.set_store.srem_at(key, all, now);
                proof {
                    assert(s1[key@].member_set().difference(s1[key@].items().to_set()) =~= Set::<Seq<u8>>::empty());
                    assert(self.sets() =~= c0.remove(key@));
                }
                Ok(())
            },
            _ => Ok(()),
        }
    }


    /// Move (or copy, when not `remove_src`) the value of `src` to `dst` at
    /// `now`, by the kind `kind` of `src`.
    fn move_key_at(&mut self, kind: KeyType, src: &str, dst: &str, now: u64, remove_src: bool) -> (r: Result<()>)
        requires
            old(self).wf(),
            src@ != dst@,
            kind == KeyType::StringKey || (kind == KeyType::SetKey && set_held(old(self).sets(), src@)),
        ensures
            final(self).wf(),
            final(self).kv_store.settings() == old(self).kv_store.settings(),
            kind == KeyType::StringKey ==> {
                let cfg = old(self).kv_store.settings();
                let k1 = old(self).kv_store.state();
                &&& final(self).kv_store.state() == string_moved(k1, cfg, src@, dst@, now, remove_src)
                &&& final(self).sets() == old(self).sets()
                &&& move_failure(string_move_error(k1, cfg, src@, dst@, now), src@, r)
            },
            kind == KeyType::SetKey ==> {
                &&& final(self).kv_store.state() == old(self).kv_store.state()
                &&& final(self).sets() == set_moved(old(self).sets(), src@, dst@, remove_src)
                &&& r is Ok
            },
    {
        if kind == KeyType::StringKey {
            let v = match self.kv_store.get_at(src, now) {
                Ok(Some(v)) => v,
                Ok(None) => return Err(SynapError::KeyNotFound(owned(src))),
                Err(e) => return Err(e),
            };
            let ttl = match self.kv_store.ttl_at(src, now) {
                Ok(t) => t,
                Err(e) => return Err(e),
            };
            match self.kv_store.set_at(owned(dst), v, ttl, now) {
                Ok(()) => {},
                Err(e) => return Err(e),
            }
            if remove_src {
                let _ = self.kv_store.delete(src);
            }
            Ok(())
        } else {
            let ghost c0 = self.sets();
            let members = match self.set_store.smembers(src) {
                Ok(v) => v,
                Err(e) => return Err(e),
            };
            let ghost s0 = self.set_store.sets();
            proof {
                assert(c0.contains_key(src@));
                assert(byte_views(members@).to_set() == c0[src@]);
                if members@.len() == 0 {
                    assert(byte_views(members@) =~= Seq::<Seq<u8>>::empty());
                    assert(c0[src@] =~= Set::<Seq<u8>>::empty());
                }
            }
            if members.len() > 0 {
                match self.set_store.sadd_at(dst, members, now) {
                    Ok(_) => {},
                    Err(e) => return Err(e),
                }
            }
            let ghost c2 = self.sets();
            proof {
                let s2 = self.set_store.sets();
                assert forall|k: Seq<char>| #[trigger] c2.contains_key(k) == c0.insert(dst@, content_of(c0, dst@).union(c0[src@])).contains_key(k) by {
                    assert(s2.dom().contains(k) == s0.dom().insert(dst@).contains(k));
                }
                assert forall|k: Seq<char>| c2.contains_key(k) implies #[trigger] c2[k] == c0.insert(dst@, content_of(c0, dst@).union(c0[src@]))[k] by {
                    assert(members_of(s2, k) == s2[k].member_set());
                    if k != dst@ {
                        assert(members_of(s2, k) == members_of(s0, k));
                    } else {
                        assert(members_of(s0, k) == content_of(c0, k));
                    }
                }
                assert(c2 =~= c0.insert(dst@, content_of(c0, dst@).union(c0[src@])));
            }
            if remove_src {
                let all = match self.set_store.smembers(src) {
                    Ok(v) => v,
                    Err(e) => return Err(e),
                };
                let ghost s1 = self.set_store.sets();
                proof {
                    assert(s1.contains_key(src@)) by {
                        assert(c2.contains_key(src@));
                    }
                    if all@.len() == 0 {
                        assert(byte_views(all@) =~= Seq::<Seq<u8>>::empty());
                        assert(c2[src@] == c0[src@]);
                        assert(s1[src@].member_set() =~= Set::<Seq<u8>>::empty());
                    }
                }
                if all.len() > 0 {
                    match self.set_store.srem_at(src, all, now) {
                        Ok(_) => {},
                        Err(e) => return Err(e),
                    }
                }
                proof {
                    let s3 = self.set_store.sets();
                    assert(s1[src@].member_set().difference(s1[src@].items().to_set()) =~= Set::<Seq<u8>>::empty());
                    assert forall|k: Seq<char>| #[trigger] self.sets().contains_key(k) == c2.remove(src@).contains_key(k) by {
                        if k != src@ {
                            assert(s3.contains_key(k) == s1.contains_key(k));
                        }
                    }
                    assert forall|k: Seq<char>| self.sets().contains_key(k) implies #[trigger] self.sets()[k] == c2.remove(src@)[k] by {
                        assert(members_of(s3, k) == members_of(s1, k));
                    }
                    assert(self.sets() =~= c2.remove(src@));
                }
            }
            Ok(())
        }
    }

    /// RENAME at `now`: move the value of `src` to `dst`, which is removed
    /// first (see `renamed`).
    pub fn rename_at(&mut self, src: &str, dst: &str, now: u64) -> (r: Result<()>)
        requires
            old(self).wf(),
        ensures
            final(self).wf(),
            Self::renamed(*old(self), *final(self), src@, dst@, now, r),
    {
        if same_text(src, dst) {
            return Ok(());
        }
        let kind = match self.key_type_at(src, now) {
            Ok(k) => k,
            Err(e) => return Err(e),
        };
        if kind == KeyType::Absent {
            return Err(SynapError::KeyNotFound(owned(src)));
        }
        let taken = match self.key_exists_at(dst, now) {
            Ok(b) => b,
            Err(e) => return Err(e),
        };
        if taken {
            match self.remove_key_at(dst, now) {
                Ok(()) => {},
                Err(e) => return Err(e),
            }
        }
        self.move_key_at(kind, src, dst, now, true)
    }

    /// RENAME now.
    pub fn rename(&mut self, src: &str, dst: &str) -> (r: Result<()>)
        requires
            old(self).wf(),
        ensures
            final(self).wf(),
            exists|now: u64| #[trigger] Self::renamed(*old(self), *final(self), src@, dst@, now, r),
    {
        let now = unix_time_secs();
        self.rename_at(src, dst, now)
    }

    /// RENAMENX at `now`: rename only when `dst` does not exist; answers
    /// whether it did (the same key counts as done).
    pub fn renamenx_at(&mut self, src: &str, dst: &str, now: u64) -> (r: Result<bool>)
        requires
            old(self).wf(),
        ensures
            final(self).wf(),
            Self::renamed_nx(*old(self), *final(self), src@, dst@, now, r),
    {
        if same_text(src, dst) {
            return Ok(true);
        }
        let taken = match self.key_exists_at(dst, now) {
            Ok(b) => b,
            Err(e) => return Err(e),
        };
        if taken {
            return Ok(false);
        }
        let ghost mid = *self;
        match self.rename_at(src, dst, now) {
            Ok(()) => Ok(true),
            Err(e) => Err(e),
        }
    }

    /// RENAMENX now.
    pub fn renamenx(&mut self, src: &str, dst: &str) -> (r: Result<bool>)
        requires
            old(self).wf(),
        ensures
            final(self).wf(),
            exists|now: u64| #[trigger] Self::renamed_nx(*old(self), *final(self), src@, dst@, now, r),
    {
        let now = unix_time_secs();
        self.renamenx_at(src, dst, now)
    }

    /// COPY at `now` (see `copied`).
    pub fn copy_at(&mut self, src: &str, dst: &str, replace: bool, now: u64) -> (r: Result<bool>)
        requires
            old(self).wf(),
        ensures
            final(self).wf(),
            Self::copied(*old(self), *final(self), src@, dst@, replace, now, r),
    {
        if same_text(src, dst) {
            return Ok(true);
        }
        let kind = match self.key_type_at(src, now) {
            Ok(k) => k,
            Err(e) => return Err(e),
        };
        if kind == KeyType::Absent {
            return Err(SynapError::KeyNotFound(owned(src)));
        }
        let taken = match self.key_exists_at(dst, now) {
            Ok(b) => b,
            Err(e) => return Err(e),
        };
        if taken {
            if !replace {
                return Ok(false);
            }
            match self.remove_key_at(dst, now) {
                Ok(()) => {},
                Err(e) => return Err(e),
            }
        }
        match self.move_key_at(kind, src, dst, now, false) {
            Ok(()) => Ok(true),
            Err(e) => Err(e),
        }
    }

    /// COPY now.
    pub fn copy(&mut self, src: &str, dst: &str, replace: bool) -> (r: Result<bool>)
        requires
            old(self).wf(),
        ensures
            final(self).wf(),
            exists|now: u64| #[trigger] Self::copied(*old(self), *final(self), src@, dst@, replace, now, r),
    {
        let now = unix_time_secs();
        self.copy_at(src, dst, replace, now)
    }


    /// RANDOMKEY: a key of the string store picked at random, none when it
    /// is empty (the set store keeps no list of keys to pick from).
    pub fn randomkey(&self) -> (r: Result<Option<String>>)
        requires
            self.wf(),
        ensures
            self.kv_store.state().entries.len() == 0 ==> r matches Ok(None),
            self.kv_store.state().entries.len() > 0 ==> (r matches Ok(Some(k))
                && exists|i: int| 0 <= i < self.kv_store.state().entries.len()
                    && #[trigger] self.kv_store.state().entries[i].0 == k@),
    {
        let keys = match self.kv_store.keys() {
            Ok(v) => v,
            Err(e) => return Err(e),
        };
        proof {
            assert(keys@.len() == self.kv_store.state().entries.len()) by {
                assert(keys_view(keys@).len() == keys@.len());
            }
        }
        if keys.len() == 0 {
            return Ok(None);
        }
        let idx = crate::api_key::random_below(keys.len());
        proof {
            assert(keys_view(keys@)[idx as int] == keys@[idx as int]@);
            assert(self.kv_store.state().entries.map_values(|e: Ent| e.0)[idx as int] == self.kv_store.state().entries[idx as int].0);
        }
        Ok(Some(keys[idx].clone()))
    }

}

} // verus!
