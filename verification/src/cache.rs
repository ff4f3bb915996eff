//! The lazy cache: a producer of user and group records that remembers every
//! answer.
//!
//! Every lookup is get-or-resolve-and-store: a question that was answered
//! before is answered again from the cache, without going back to the
//! identity source, and that includes questions whose answer was "no such
//! record" — a confirmed absence is cached as a negative entry.  The cache
//! only ever grows; there is no way to evict or refresh an entry.  When the
//! underlying database may have changed, the whole cache is discarded and a
//! new one built.
//!
//! The cache is deliberately not enumerable: entries arrive on demand, so it
//! could never claim to hold the whole domain.  Where iteration is needed,
//! build a [`UsersSnapshot`](crate::snapshot::UsersSnapshot) instead.

use crate::idmap::{opt_view, IdNameMap};
use crate::records::{arc_clone, arc_get, Group, GroupView, User, UserView};
use crate::source::{next_count, IdentitySource};
use crate::traits::{Groups, IdentityModel, IdentityView, Users};
use std::sync::Arc;
use vstd::prelude::*;

verus! {

broadcast use vstd::string::group_string_axioms;

/// What a cache entry for `id` must say if it is to agree with the table:
/// the record when the table has the id, a negative entry when it does not.
pub open spec fn table_answer<V>(t: Map<u32, V>, id: u32) -> Option<V> {
    if t.contains_key(id) {
        Some(t[id])
    } else {
        None
    }
}

/// What one backward entry must say if it is to be truthful: a positive
/// entry points at a positive forward entry carrying that name, a negative
/// entry claims that no table record carries the name.
pub open spec fn bwd_entry_ok<V>(
    fwd: Map<u32, Option<V>>,
    table: Map<u32, V>,
    name_of: spec_fn(V) -> Seq<char>,
    n: Seq<char>,
    e: Option<u32>,
) -> bool {
    match e {
        Some(id) => fwd.contains_key(id) && (fwd[id] matches Some(v) && name_of(v) == n),
        None => forall|id: u32| table.contains_key(id) ==> name_of(#[trigger] table[id]) != n,
    }
}

/// The invariant of one forward/backward cache pair against its table:
/// forward entries agree with the table, backward entries are truthful, and
/// every cached record's name is in the backward table.
pub open spec fn map_pair_ok<V>(
    fwd: Map<u32, Option<V>>,
    bwd: Map<Seq<char>, Option<u32>>,
    table: Map<u32, V>,
    name_of: spec_fn(V) -> Seq<char>,
) -> bool {
    &&& forall|id: u32| #[trigger] fwd.contains_key(id) ==> fwd[id] == table_answer(table, id)
    &&& forall|n: Seq<char>| #[trigger]
        bwd.contains_key(n) ==> bwd_entry_ok(fwd, table, name_of, n, bwd[n])
    &&& forall|id: u32|
        #[trigger] fwd.contains_key(id) ==> (fwd[id] matches Some(v) ==> bwd.contains_key(
            name_of(v),
        ))
}

/// Inserting a record under its table id and name preserves the pair
/// invariant, provided the record is exactly the table's record for that id.
proof fn lemma_map_pair_insert<V>(
    fwd: Map<u32, Option<V>>,
    bwd: Map<Seq<char>, Option<u32>>,
    table: Map<u32, V>,
    name_of: spec_fn(V) -> Seq<char>,
    id: u32,
    v: V,
)
    requires
        map_pair_ok(fwd, bwd, table, name_of),
        table.contains_key(id),
        table[id] == v,
    ensures
        map_pair_ok(fwd.insert(id, Some(v)), bwd.insert(name_of(v), Some(id)), table, name_of),
{
    let fwd2 = fwd.insert(id, Some(v));
    let bwd2 = bwd.insert(name_of(v), Some(id));
    assert forall|n: Seq<char>| #[trigger] bwd2.contains_key(n) implies bwd_entry_ok(
        fwd2,
        table,
        name_of,
        n,
        bwd2[n],
    ) by {
        if n != name_of(v) {
            assert(bwd.contains_key(n));
            match bwd[n] {
                Some(i2) => {
                    if i2 == id {
                        assert(fwd[i2] == table_answer(table, i2));
                        assert(fwd[i2] matches Some(w) && name_of(w) == n);
                        assert(name_of(table[id]) == n);
                        assert(false);
                    }
                },
                None => {},
            }
        }
    }
}

/// Recording a confirmed absence under an id preserves the pair invariant.
proof fn lemma_map_pair_negative_id<V>(
    fwd: Map<u32, Option<V>>,
    bwd: Map<Seq<char>, Option<u32>>,
    table: Map<u32, V>,
    name_of: spec_fn(V) -> Seq<char>,
    id: u32,
)
    requires
        map_pair_ok(fwd, bwd, table, name_of),
        !table.contains_key(id),
        !fwd.contains_key(id),
    ensures
        map_pair_ok(fwd.insert(id, None), bwd, table, name_of),
{
    let fwd2 = fwd.insert(id, None);
    assert forall|n: Seq<char>| #[trigger] bwd.contains_key(n) implies bwd_entry_ok(
        fwd2,
        table,
        name_of,
        n,
        bwd[n],
    ) by {
        match bwd[n] {
            Some(i2) => {
                assert(fwd.contains_key(i2));
                assert(i2 != id);
            },
            None => {},
        }
    }
}

/// Recording a confirmed absence under a name preserves the pair invariant,
/// provided no table record carries that name.
proof fn lemma_map_pair_negative_name<V>(
    fwd: Map<u32, Option<V>>,
    bwd: Map<Seq<char>, Option<u32>>,
    table: Map<u32, V>,
    name_of: spec_fn(V) -> Seq<char>,
    n: Seq<char>,
)
    requires
        map_pair_ok(fwd, bwd, table, name_of),
        forall|id: u32| table.contains_key(id) ==> name_of(#[trigger] table[id]) != n,
        !bwd.contains_key(n),
    ensures
        map_pair_ok(fwd, bwd.insert(n, None), table, name_of),
{
    let bwd2 = bwd.insert(n, None);
    assert forall|id: u32| #[trigger] fwd.contains_key(id) implies (fwd[id] matches Some(v)
        ==> bwd2.contains_key(name_of(v))) by {
        match fwd[id] {
            Some(v) => {
                assert(bwd.contains_key(name_of(v)));
            },
            None => {},
        }
    }
}

/// A producer of user and group records that caches every result, positive
/// or negative, and serves repeated questions from its own tables.
pub struct UsersCache<S: IdentitySource> {
    source: S,
    users: IdNameMap<User>,
    groups: IdNameMap<Group>,
    uid: Option<u32>,
    gid: Option<u32>,
    euid: Option<u32>,
    egid: Option<u32>,
}

/// What one `get_user_by_uid` call does: the answer agrees with the (fixed)
/// model, the id afterwards has a cache entry holding exactly that answer,
/// earlier entries survive unchanged, and a call that hits an existing entry
/// leaves the whole cache — its identity source included — untouched.
pub open spec fn user_lookup_post<S: IdentitySource>(
    pre: UsersCache<S>,
    post: UsersCache<S>,
    uid: u32,
    r: Option<UserView>,
) -> bool {
    &&& post.model() == pre.model()
    &&& (r matches Some(u) ==> pre.model().users.contains_key(uid) && u == pre.model().users[uid])
    &&& (r is None ==> !pre.model().users.contains_key(uid))
    &&& (pre.user_entries().contains_key(uid) ==> post == pre)
    &&& post.user_entries().contains_key(uid)
    &&& post.user_entries()[uid] == r
    &&& (r matches Some(u) ==> post.user_names().contains_key(u.name))
    &&& (r matches Some(u) ==> (!pre.user_entries().contains_key(uid) ==> post.user_names()
        == pre.user_names().insert(u.name, Some(uid))))
    &&& (!pre.user_entries().contains_key(uid) && r is None ==> post.user_names()
        == pre.user_names())
    &&& (!pre.user_entries().contains_key(uid) ==> post.source_state().queries() == next_count(
        pre.source_state().queries(),
    ))
    &&& forall|k: u32|
        #[trigger] pre.user_entries().contains_key(k) ==> post.user_entries().contains_key(k)
            && post.user_entries()[k] == pre.user_entries()[k]
}

/// What one `get_user_by_name` call does, symmetrically over the backward
/// table; a successful answer also lands in the forward table, so a later
/// lookup of the same id is already a hit.
pub open spec fn user_name_lookup_post<S: IdentitySource>(
    pre: UsersCache<S>,
    post: UsersCache<S>,
    name: Seq<char>,
    r: Option<UserView>,
) -> bool {
    &&& post.model() == pre.model()
    &&& (r matches Some(u) ==> pre.model().users.contains_key(u.uid) && u
        == pre.model().users[u.uid] && u.name == name)
    &&& (r is None ==> forall|id: u32|
        pre.model().users.contains_key(id) ==> (#[trigger] pre.model().users[id]).name != name)
    &&& (pre.user_names().contains_key(name) ==> post == pre)
    &&& post.user_names().contains_key(name)
    &&& post.user_names()[name] == (match r {
        Some(u) => Some(u.uid),
        None => None,
    })
    &&& (r matches Some(u) ==> post.user_entries().contains_key(u.uid)
        && post.user_entries()[u.uid] == Some(u))
    &&& (r is None ==> post.user_entries() == pre.user_entries())
    &&& (r matches Some(u) ==> (!pre.user_names().contains_key(name) ==> post.user_names()
        == pre.user_names().insert(name, Some(u.uid)) && post.user_entries()
        == pre.user_entries().insert(u.uid, Some(u))))
    &&& (!pre.user_names().contains_key(name) && r is None ==> post.user_names()
        == pre.user_names().insert(name, None))
    &&& (!pre.user_names().contains_key(name) ==> post.source_state().queries() == next_count(
        pre.source_state().queries(),
    ))
    &&& forall|k: u32|
        #[trigger] pre.user_entries().contains_key(k) ==> post.user_entries().contains_key(k)
            && post.user_entries()[k] == pre.user_entries()[k]
}

/// What one `get_group_by_gid` call does; see [`user_lookup_post`].
pub open spec fn group_lookup_post<S: IdentitySource>(
    pre: UsersCache<S>,
    post: UsersCache<S>,
    gid: u32,
    r: Option<GroupView>,
) -> bool {
    &&& post.model() == pre.model()
    &&& (r matches Some(g) ==> pre.model().groups.contains_key(gid) && g
        == pre.model().groups[gid])
    &&& (r is None ==> !pre.model().groups.contains_key(gid))
    &&& (pre.group_entries().contains_key(gid) ==> post == pre)
    &&& post.group_entries().contains_key(gid)
    &&& post.group_entries()[gid] == r
    &&& (r matches Some(g) ==> post.group_names().contains_key(g.name))
    &&& (r matches Some(g) ==> (!pre.group_entries().contains_key(gid) ==> post.group_names()
        == pre.group_names().insert(g.name, Some(gid))))
    &&& (!pre.group_entries().contains_key(gid) && r is None ==> post.group_names()
        == pre.group_names())
    &&& (!pre.group_entries().contains_key(gid) ==> post.source_state().queries() == next_count(
        pre.source_state().queries(),
    ))
    &&& forall|k: u32|
        #[trigger] pre.group_entries().contains_key(k) ==> post.group_entries().contains_key(k)
            && post.group_entries()[k] == pre.group_entries()[k]
}

/// What one `get_group_by_name` call does; see [`user_name_lookup_post`].
pub open spec fn group_name_lookup_post<S: IdentitySource>(
    pre: UsersCache<S>,
    post: UsersCache<S>,
    name: Seq<char>,
    r: Option<GroupView>,
) -> bool {
    &&& post.model() == pre.model()
    &&& (r matches Some(g) ==> pre.model().groups.contains_key(g.gid) && g
        == pre.model().groups[g.gid] && g.name == name)
    &&& (r is None ==> forall|id: u32|
        pre.model().groups.contains_key(id) ==> (#[trigger] pre.model().groups[id]).name != name)
    &&& (pre.group_names().contains_key(name) ==> post == pre)
    &&& post.group_names().contains_key(name)
    &&& post.group_names()[name] == (match r {
        Some(g) => Some(g.gid),
        None => None,
    })
    &&& (r matches Some(g) ==> post.group_entries().contains_key(g.gid)
        && post.group_entries()[g.gid] == Some(g))
    &&& (r is None ==> post.group_entries() == pre.group_entries())
    &&& (r matches Some(g) ==> (!pre.group_names().contains_key(name) ==> post.group_names()
        == pre.group_names().insert(name, Some(g.gid)) && post.group_entries()
        == pre.group_entries().insert(g.gid, Some(g))))
    &&& (!pre.group_names().contains_key(name) && r is None ==> post.group_names()
        == pre.group_names().insert(name, None))
    &&& (!pre.group_names().contains_key(name) ==> post.source_state().queries() == next_count(
        pre.source_state().queries(),
    ))
    &&& forall|k: u32|
        #[trigger] pre.group_entries().contains_key(k) ==> post.group_entries().contains_key(k)
            && post.group_entries()[k] == pre.group_entries()[k]
}

/// What a scalar-id read may touch: the one scalar cache at most.  The four
/// record tables and the source's query count all stay as they were.
pub open spec fn scalar_frame<S: IdentitySource>(pre: UsersCache<S>, post: UsersCache<S>) -> bool {
    &&& post.user_entries() == pre.user_entries()
    &&& post.user_names() == pre.user_names()
    &&& post.group_entries() == pre.group_entries()
    &&& post.group_names() == pre.group_names()
    &&& post.source_state().queries() == pre.source_state().queries()
}

impl<S: IdentitySource> IdentityModel for UsersCache<S> {
    /// The cache answers for the full tables of its source: any id or name
    /// the source knows is resolved on demand.
    closed spec fn model(&self) -> IdentityView {
        self.source.model()
    }

    closed spec fn inv(&self) -> bool {
        &&& self.source.inv()
        &&& self.users.wf()
        &&& self.groups.wf()
        &&& map_pair_ok(
            self.users.fwd(),
            self.users.bwd(),
            self.source.model().users,
            |v: UserView| v.name,
        )
        &&& map_pair_ok(
            self.groups.fwd(),
            self.groups.bwd(),
            self.source.model().groups,
            |v: GroupView| v.name,
        )
        &&& (self.uid matches Some(v) ==> v == self.source.model().current_uid)
        &&& (self.gid matches Some(v) ==> v == self.source.model().current_gid)
        &&& (self.euid matches Some(v) ==> v == self.source.model().effective_uid)
        &&& (self.egid matches Some(v) ==> v == self.source.model().effective_gid)
    }

    proof fn lemma_model_keyed(&self) {
        self.source.lemma_model_keyed();
    }
}

impl<S: IdentitySource> UsersCache<S> {
    /// The cached forward user table: a positive entry per resolved user, a
    /// negative entry per id confirmed absent.
    pub closed spec fn user_entries(&self) -> Map<u32, Option<UserView>> {
        self.users.fwd()
    }

    /// The cached backward user table, from names to ids.
    pub closed spec fn user_names(&self) -> Map<Seq<char>, Option<u32>> {
        self.users.bwd()
    }

    /// The cached forward group table.
    pub closed spec fn group_entries(&self) -> Map<u32, Option<GroupView>> {
        self.groups.fwd()
    }

    /// The cached backward group table, from names to ids.
    pub closed spec fn group_names(&self) -> Map<Seq<char>, Option<u32>> {
        self.groups.bwd()
    }

    /// The identity source the cache resolves its misses from.
    pub closed spec fn source_state(&self) -> S {
        self.source
    }

    /// The current-user-id scalar cache: unresolved, or resolved to a value
    /// that never changes again.
    pub closed spec fn cached_uid(&self) -> Option<u32> {
        self.uid
    }

    /// The current-group-id scalar cache.
    pub closed spec fn cached_gid(&self) -> Option<u32> {
        self.gid
    }

    /// The effective-user-id scalar cache.
    pub closed spec fn cached_euid(&self) -> Option<u32> {
        self.euid
    }

    /// The effective-group-id scalar cache.
    pub closed spec fn cached_egid(&self) -> Option<u32> {
        self.egid
    }

    /// Borrows the identity source, for inspection.
    pub fn source(&self) -> (r: &S)
        ensures
            *r == self.source_state(),
    {
        &self.source
    }

    /// Creates a new empty cache over the given identity source.
    pub fn new(source: S) -> (r: UsersCache<S>)
        requires
            source.inv(),
        ensures
            r.inv(),
            r.model() == source.model(),
            r.source_state() == source,
            r.user_entries() == Map::<u32, Option<UserView>>::empty(),
            r.user_names() == Map::<Seq<char>, Option<u32>>::empty(),
            r.group_entries() == Map::<u32, Option<GroupView>>::empty(),
            r.group_names() == Map::<Seq<char>, Option<u32>>::empty(),
            r.cached_uid() is None,
            r.cached_gid() is None,
            r.cached_euid() is None,
            r.cached_egid() is None,
    {
        UsersCache {
            source,
            users: IdNameMap::empty(),
            groups: IdNameMap::empty(),
            uid: None,
            gid: None,
            euid: None,
            egid: None,
        }
    }

    /// Creates a new cache preloaded with every user the source knows of.
    ///
    /// This is a legacy path, kept for code that requires a `UsersCache`: it
    /// performs one full enumeration pass, stores every existing user as a
    /// positive entry, and stops there.  Current and effective ids are not
    /// resolved, no group is preloaded, and no absence is recorded, so those
    /// questions still reach the source later.  Callers who want a complete,
    /// iterable view should prefer [`UsersSnapshot::new`].
    ///
    /// [`UsersSnapshot::new`]: crate::snapshot::UsersSnapshot::new
    pub fn with_all_users(source: S) -> (r: UsersCache<S>)
        requires
            source.inv(),
        ensures
            r.inv(),
            r.model() == source.model(),
            forall|id: u32|
                r.user_entries().contains_key(id) <==> r.model().users.contains_key(id),
            forall|id: u32|
                #[trigger] r.user_entries().contains_key(id) ==> r.user_entries()[id] == Some(
                    r.model().users[id],
                ),
            forall|id: u32|
                #[trigger] r.model().users.contains_key(id) ==> r.user_names().contains_key(
                    r.model().users[id].name,
                ),
            forall|n: Seq<char>|
                #[trigger] r.user_names().contains_key(n) ==> (r.user_names()[n] matches Some(id)
                    && r.user_entries().contains_key(id) && r.model().users.contains_key(id)
                    && r.model().users[id].name == n),
            r.model().user_names_unique() ==> forall|id: u32|
                #[trigger] r.model().users.contains_key(id) ==> r.user_names()[r.model().users[
                    id
                ].name] == Some(id),
            r.group_entries() == Map::<u32, Option<GroupView>>::empty(),
            r.group_names() == Map::<Seq<char>, Option<u32>>::empty(),
            r.cached_uid() is None,
            r.cached_gid() is None,
            r.cached_euid() is None,
            r.cached_egid() is None,
            r.source_state().queries() == source.queries(),
    {
        let mut src = source;
        let mut users = src.enumerate_users();
        let ghost table = src.model().users;
        let ghost all = users@;
        let mut cache = UsersCache::new(src);
        proof {
            assert(all.subrange(0, all.len() as int) =~= all);
        }
        while users.len() > 0
            invariant
                cache.inv(),
                cache.model().users == table,
                cache.model() == source.model(),
                users@ == all.subrange(0, users@.len() as int),
                users@.len() <= all.len(),
                forall|i: int, j: int|
                    0 <= i < j < all.len() ==> (#[trigger] all[i])@.uid != (
                    #[trigger] all[j])@.uid,
                forall|i: int|
                    0 <= i < all.len() ==> table.contains_key((#[trigger] all[i])@.uid)
                        && table[all[i]@.uid] == all[i]@,
                forall|id: u32|
                    table.contains_key(id) ==> exists|i: int|
                        0 <= i < all.len() && (#[trigger] all[i])@.uid == id,
                forall|i: int|
                    users@.len() <= i < all.len() ==> cache.user_entries().contains_key(
                        (#[trigger] all[i])@.uid,
                    ),
                forall|id: u32|
                    #[trigger] cache.user_entries().contains_key(id) ==> exists|i: int|
                        users@.len() <= i < all.len() && (#[trigger] all[i])@.uid == id,
                forall|n: Seq<char>|
                    #[trigger] cache.user_names().contains_key(n) ==> cache.user_names()[n]
                        is Some,
                cache.group_entries() == Map::<u32, Option<GroupView>>::empty(),
                cache.group_names() == Map::<Seq<char>, Option<u32>>::empty(),
                cache.cached_uid() is None,
                cache.cached_gid() is None,
                cache.cached_euid() is None,
                cache.cached_egid() is None,
                cache.source_state().queries() == source.queries(),
            decreases users@.len(),
        {
            let ghost pre = cache;
            let ghost n: int = users@.len() as int;
            let user = users.pop().unwrap();
            proof {
                assert(user == all[n - 1]);
                assert(users@ =~= all.subrange(0, n - 1));
            }
            let uid = user.uid();
            let name = user.name().to_string();
            let ghost uv = user@;
            let arc = Arc::new(user);
            cache.users.insert(uid, name, arc);
            proof {
                assert(cache.user_entries() == pre.user_entries().insert(uid, Some(uv)));
                assert(cache.user_names() == pre.user_names().insert(uv.name, Some(uid)));
                assert(uv == table[uid]);
                lemma_map_pair_insert::<UserView>(
                    pre.user_entries(),
                    pre.user_names(),
                    table,
                    |v: UserView| v.name,
                    uid,
                    uv,
                );
                assert forall|id: u32| #[trigger] cache.user_entries().contains_key(id)
                    implies exists|i: int|
                    users@.len() <= i < all.len() && (#[trigger] all[i])@.uid == id by {
                    if id == uid {
                        assert(all[n - 1]@.uid == id);
                    } else {
                        assert(pre.user_entries().contains_key(id));
                        let i = choose|i: int| n <= i < all.len() && (#[trigger] all[i])@.uid == id;
                        assert(all[i]@.uid == id);
                    }
                }
            }
        }
        proof {
            assert forall|id: u32|
                cache.user_entries().contains_key(id) <==> cache.model().users.contains_key(
                    id,
                ) by {
                if cache.model().users.contains_key(id) {
                    let i = choose|i: int| 0 <= i < all.len() && (#[trigger] all[i])@.uid == id;
                    assert(cache.user_entries().contains_key(all[i]@.uid));
                }
                if cache.user_entries().contains_key(id) {
                    let i = choose|i: int|
                        users@.len() <= i < all.len() && (#[trigger] all[i])@.uid == id;
                    assert(table.contains_key(all[i]@.uid));
                }
            }
            assert forall|id: u32| #[trigger] cache.model().users.contains_key(id) implies
                cache.user_names().contains_key(cache.model().users[id].name) by {
                assert(cache.user_entries().contains_key(id));
                assert(cache.user_entries()[id] == Some(cache.model().users[id]));
            }
            assert forall|n: Seq<char>| #[trigger] cache.user_names().contains_key(n) implies (
            cache.user_names()[n] matches Some(id) && cache.user_entries().contains_key(id)
                && cache.model().users.contains_key(id) && cache.model().users[id].name == n) by {
                assert(cache.user_names()[n] is Some);
                let id = cache.user_names()[n]->0;
                assert(cache.user_entries().contains_key(id));
                assert(cache.user_entries()[id] == table_answer(cache.model().users, id));
            }
            if cache.model().user_names_unique() {
                assert forall|id: u32| #[trigger] cache.model().users.contains_key(id) implies
                    cache.user_names()[cache.model().users[id].name] == Some(id) by {
                    let n = cache.model().users[id].name;
                    assert(cache.user_names().contains_key(n));
                    let id2 = cache.user_names()[n]->0;
                    assert(cache.model().users.contains_key(id2));
                    assert(cache.model().users[id2].name == n);
                }
            }
        }
        cache
    }
}

impl<S: IdentitySource> Users for UsersCache<S> {
    fn get_user_by_uid(&mut self, uid: u32) -> (r: Option<Arc<User>>)
        ensures
            user_lookup_post(*old(self), *final(self), uid, opt_view(r)),
    {
        match self.users.get_by_id(uid) {
            Some(e) => {
                proof {
                    assert(self.users.fwd()[uid] == table_answer(self.source.model().users, uid));
                    match opt_view(e) {
                        Some(u) => {
                            assert(self.users.bwd().contains_key(u.name));
                        },
                        None => {},
                    }
                }
                e
            },
            None => {
                match self.source.lookup_user_by_id(uid) {
                    Some(user) => {
                        proof {
                            self.source.lemma_model_keyed();
                        }
                        let uid2 = user.uid();
                        let name = user.name().to_string();
                        let ghost uv = user@;
                        let arc = Arc::new(user);
                        let ret = arc_clone(&arc);
                        assert(uid2 == uid);
                        self.users.insert(uid, name, arc);
                        proof {
                            lemma_map_pair_insert::<UserView>(
                                old(self).users.fwd(),
                                old(self).users.bwd(),
                                self.source.model().users,
                                |v: UserView| v.name,
                                uid,
                                uv,
                            );
                        }
                        Some(ret)
                    },
                    None => {
                        self.users.set_forward(uid, None);
                        proof {
                            lemma_map_pair_negative_id::<UserView>(
                                old(self).users.fwd(),
                                old(self).users.bwd(),
                                self.source.model().users,
                                |v: UserView| v.name,
                                uid,
                            );
                        }
                        None
                    },
                }
            },
        }
    }

    fn get_user_by_name(&mut self, username: &str) -> (r: Option<Arc<User>>)
        ensures
            user_name_lookup_post(*old(self), *final(self), username@, opt_view(r)),
    {
        match self.users.get_by_name(username) {
            Some(Some(id)) => {
                proof {
                    self.source.lemma_model_keyed();
                }
                match self.users.get_by_id(id) {
                    Some(Some(a)) => {
                        assert(self.users.fwd()[id] == table_answer(
                            self.source.model().users,
                            id,
                        ));
                        Some(a)
                    },
                    _ => {
                        proof {
                            assert(false);
                        }
                        None
                    },
                }
            },
            Some(None) => None,
            None => {
                match self.source.lookup_user_by_name(username) {
                    Some(user) => {
                        proof {
                            self.source.lemma_model_keyed();
                        }
                        let uid = user.uid();
                        let name = user.name().to_string();
                        let ghost uv = user@;
                        let arc = Arc::new(user);
                        let ret = arc_clone(&arc);
                        self.users.insert(uid, name, arc);
                        proof {
                            lemma_map_pair_insert::<UserView>(
                                old(self).users.fwd(),
                                old(self).users.bwd(),
                                self.source.model().users,
                                |v: UserView| v.name,
                                uid,
                                uv,
                            );
                            assert(self.users.fwd() =~= old(self).users.fwd().insert(
                                uid,
                                Some(uv),
                            ));
                            assert forall|k: u32| #[trigger] old(self).users.fwd().contains_key(k)
                                implies self.users.fwd().contains_key(k) && self.users.fwd()[k]
                                == old(self).users.fwd()[k] by {
                                if k == uid {
                                    assert(old(self).users.fwd()[k] == table_answer(
                                        old(self).source.model().users,
                                        k,
                                    ));
                                }
                            }
                        }
                        Some(ret)
                    },
                    None => {
                        let owned = username.to_string();
                        self.users.set_backward(owned, None);
                        proof {
                            lemma_map_pair_negative_name::<UserView>(
                                old(self).users.fwd(),
                                old(self).users.bwd(),
                                self.source.model().users,
                                |v: UserView| v.name,
                                username@,
                            );
                        }
                        None
                    },
                }
            },
        }
    }

    fn get_current_uid(&mut self) -> (r: u32)
        ensures
            scalar_frame(*old(self), *final(self)),
            final(self).cached_uid() == Some(r),
            final(self).cached_gid() == old(self).cached_gid(),
            final(self).cached_euid() == old(self).cached_euid(),
            final(self).cached_egid() == old(self).cached_egid(),
            old(self).cached_uid() matches Some(v) ==> *final(self) == *old(self) && r == v,
    {
        match self.uid {
            Some(v) => v,
            None => {
                let v = self.source.current_user_id();
                self.uid = Some(v);
                v
            },
        }
    }

    fn get_current_username(&mut self) -> (r: Option<String>) {
        let uid = self.get_current_uid();
        match self.get_user_by_uid(uid) {
            Some(a) => Some(arc_get(&a).name().to_string()),
            None => None,
        }
    }

    fn get_effective_uid(&mut self) -> (r: u32)
        ensures
            scalar_frame(*old(self), *final(self)),
            final(self).cached_euid() == Some(r),
            final(self).cached_uid() == old(self).cached_uid(),
            final(self).cached_gid() == old(self).cached_gid(),
            final(self).cached_egid() == old(self).cached_egid(),
            old(self).cached_euid() matches Some(v) ==> *final(self) == *old(self) && r == v,
    {
        match self.euid {
            Some(v) => v,
            None => {
                let v = self.source.effective_user_id();
                self.euid = Some(v);
                v
            },
        }
    }

    fn get_effective_username(&mut self) -> (r: Option<String>) {
        let uid = self.get_effective_uid();
        match self.get_user_by_uid(uid) {
            Some(a) => Some(arc_get(&a).name().to_string()),
            None => None,
        }
    }
}

impl<S: IdentitySource> Groups for UsersCache<S> {
    fn get_group_by_gid(&mut self, gid: u32) -> (r: Option<Arc<Group>>)
        ensures
            group_lookup_post(*old(self), *final(self), gid, opt_view(r)),
    {
        match self.groups.get_by_id(gid) {
            Some(e) => {
                proof {
                    assert(self.groups.fwd()[gid] == table_answer(
                        self.source.model().groups,
                        gid,
                    ));
                    match opt_view(e) {
                        Some(g) => {
                            assert(self.groups.bwd().contains_key(g.name));
                        },
                        None => {},
                    }
                }
                e
            },
            None => {
                match self.source.lookup_group_by_id(gid) {
                    Some(group) => {
                        proof {
                            self.source.lemma_model_keyed();
                        }
                        let gid2 = group.gid();
                        let name = group.name().to_string();
                        let ghost gv = group@;
                        let arc = Arc::new(group);
                        let ret = arc_clone(&arc);
                        assert(gid2 == gid);
                        self.groups.insert(gid, name, arc);
                        proof {
                            lemma_map_pair_insert::<GroupView>(
                                old(self).groups.fwd(),
                                old(self).groups.bwd(),
                                self.source.model().groups,
                                |v: GroupView| v.name,
                                gid,
                                gv,
                            );
                        }
                        Some(ret)
                    },
                    None => {
                        self.groups.set_forward(gid, None);
                        proof {
                            lemma_map_pair_negative_id::<GroupView>(
                                old(self).groups.fwd(),
                                old(self).groups.bwd(),
                                self.source.model().groups,
                                |v: GroupView| v.name,
                                gid,
                            );
                        }
                        None
                    },
                }
            },
        }
    }

    fn get_group_by_name(&mut self, group_name: &str) -> (r: Option<Arc<Group>>)
        ensures
            group_name_lookup_post(*old(self), *final(self), group_name@, opt_view(r)),
    {
        match self.groups.get_by_name(group_name) {
            Some(Some(id)) => {
                proof {
                    self.source.lemma_model_keyed();
                }
                match self.groups.get_by_id(id) {
                    Some(Some(a)) => {
                        assert(self.groups.fwd()[id] == table_answer(
                            self.source.model().groups,
                            id,
                        ));
                        Some(a)
                    },
                    _ => {
                        proof {
                            assert(false);
                        }
                        None
                    },
                }
            },
            Some(None) => None,
            None => {
                match self.source.lookup_group_by_name(group_name) {
                    Some(group) => {
                        proof {
                            self.source.lemma_model_keyed();
                        }
                        let gid = group.gid();
                        let name = group.name().to_string();
                        let ghost gv = group@;
                        let arc = Arc::new(group);
                        let ret = arc_clone(&arc);
                        self.groups.insert(gid, name, arc);
                        proof {
                            lemma_map_pair_insert::<GroupView>(
                                old(self).groups.fwd(),
                                old(self).groups.bwd(),
                                self.source.model().groups,
                                |v: GroupView| v.name,
                                gid,
                                gv,
                            );
                            assert(self.groups.fwd() =~= old(self).groups.fwd().insert(
                                gid,
                                Some(gv),
                            ));
                            assert forall|k: u32| #[trigger] old(self).groups.fwd().contains_key(
                                k,
                            ) implies self.groups.fwd().contains_key(k) && self.groups.fwd()[k]
                                == old(self).groups.fwd()[k] by {
                                if k == gid {
                                    assert(old(self).groups.fwd()[k] == table_answer(
                                        old(self).source.model().groups,
                                        k,
                                    ));
                                }
                            }
                        }
                        Some(ret)
                    },
                    None => {
                        let owned = group_name.to_string();
                        self.groups.set_backward(owned, None);
                        proof {
                            lemma_map_pair_negative_name::<GroupView>(
                                old(self).groups.fwd(),
                                old(self).groups.bwd(),
                                self.source.model().groups,
                                |v: GroupView| v.name,
                                group_name@,
                            );
                        }
                        None
                    },
                }
            },
        }
    }

    fn get_current_gid(&mut self) -> (r: u32)
        ensures
            scalar_frame(*old(self), *final(self)),
            final(self).cached_gid() == Some(r),
            final(self).cached_uid() == old(self).cached_uid(),
            final(self).cached_euid() == old(self).cached_euid(),
            final(self).cached_egid() == old(self).cached_egid(),
            old(self).cached_gid() matches Some(v) ==> *final(self) == *old(self) && r == v,
    {
        match self.gid {
            Some(v) => v,
            None => {
                let v = self.source.current_group_id();
                self.gid = Some(v);
                v
            },
        }
    }

    fn get_current_groupname(&mut self) -> (r: Option<String>) {
        let gid = self.get_current_gid();
        match self.get_group_by_gid(gid) {
            Some(a) => Some(arc_get(&a).name().to_string()),
            None => None,
        }
    }

    fn get_effective_gid(&mut self) -> (r: u32)
        ensures
            scalar_frame(*old(self), *final(self)),
            final(self).cached_egid() == Some(r),
            final(self).cached_uid() == old(self).cached_uid(),
            final(self).cached_gid() == old(self).cached_gid(),
            final(self).cached_euid() == old(self).cached_euid(),
            old(self).cached_egid() matches Some(v) ==> *final(self) == *old(self) && r == v,
    {
        match self.egid {
            Some(v) => v,
            None => {
                let v = self.source.effective_group_id();
                self.egid = Some(v);
                v
            },
        }
    }

    fn get_effective_groupname(&mut self) -> (r: Option<String>) {
        let gid = self.get_effective_gid();
        match self.get_group_by_gid(gid) {
            Some(a) => Some(arc_get(&a).name().to_string()),
            None => None,
        }
    }
}

/// Idempotence of id lookups: once a `get_user_by_uid` call has answered for
/// an id, a second call for the same id returns the same answer and leaves
/// the cache — its identity source included — exactly as it was.
pub proof fn lemma_user_lookup_idempotent<S: IdentitySource>(
    pre: UsersCache<S>,
    mid: UsersCache<S>,
    fin: UsersCache<S>,
    uid: u32,
    r1: Option<UserView>,
    r2: Option<UserView>,
)
    requires
        user_lookup_post(pre, mid, uid, r1),
        user_lookup_post(mid, fin, uid, r2),
    ensures
        r2 == r1,
        fin == mid,
{
}

/// Negative caching: when the table has no record for an id, the first
/// `get_user_by_uid` call answers absent and stores that absence, and a
/// second call answers absent again without touching the cache or its
/// identity source.
pub proof fn lemma_user_negative_caching<S: IdentitySource>(
    pre: UsersCache<S>,
    mid: UsersCache<S>,
    fin: UsersCache<S>,
    uid: u32,
    r1: Option<UserView>,
    r2: Option<UserView>,
)
    requires
        !pre.model().users.contains_key(uid),
        user_lookup_post(pre, mid, uid, r1),
        user_lookup_post(mid, fin, uid, r2),
    ensures
        r1 is None,
        r2 is None,
        mid.user_entries().contains_key(uid) && mid.user_entries()[uid] is None,
        fin == mid,
        !pre.user_entries().contains_key(uid) ==> fin.source_state().queries() == next_count(
            pre.source_state().queries(),
        ),
{
}

/// Cross-reference consistency: when no two users share a name, resolving a
/// user by id and then looking its name up returns that same user, and the
/// name lookup is a cache hit that leaves the cache untouched.  (With
/// duplicate names the name lookup may legitimately surface the other
/// record, so uniqueness is assumed.)
pub proof fn lemma_user_cross_reference<S: IdentitySource>(
    pre: UsersCache<S>,
    mid: UsersCache<S>,
    fin: UsersCache<S>,
    uid: u32,
    u: UserView,
    r2: Option<UserView>,
)
    requires
        pre.model().user_names_unique(),
        user_lookup_post(pre, mid, uid, Some(u)),
        user_name_lookup_post(mid, fin, u.name, r2),
    ensures
        r2 == Some(u),
        fin == mid,
{
    match r2 {
        None => {
            assert(mid.model().users.contains_key(uid));
            assert(mid.model().users[uid].name == u.name);
        },
        Some(u2) => {
            assert(pre.model().users.contains_key(u2.uid) && pre.model().users[u2.uid] == u2);
            assert(pre.model().users.contains_key(uid) && pre.model().users[uid] == u);
            assert(u2.uid == uid);
        },
    }
}

/// Idempotence of id lookups, group domain; see
/// [`lemma_user_lookup_idempotent`].
pub proof fn lemma_group_lookup_idempotent<S: IdentitySource>(
    pre: UsersCache<S>,
    mid: UsersCache<S>,
    fin: UsersCache<S>,
    gid: u32,
    r1: Option<GroupView>,
    r2: Option<GroupView>,
)
    requires
        group_lookup_post(pre, mid, gid, r1),
        group_lookup_post(mid, fin, gid, r2),
    ensures
        r2 == r1,
        fin == mid,
{
}

/// Negative caching, group domain; see [`lemma_user_negative_caching`].
pub proof fn lemma_group_negative_caching<S: IdentitySource>(
    pre: UsersCache<S>,
    mid: UsersCache<S>,
    fin: UsersCache<S>,
    gid: u32,
    r1: Option<GroupView>,
    r2: Option<GroupView>,
)
    requires
        !pre.model().groups.contains_key(gid),
        group_lookup_post(pre, mid, gid, r1),
        group_lookup_post(mid, fin, gid, r2),
    ensures
        r1 is None,
        r2 is None,
        mid.group_entries().contains_key(gid) && mid.group_entries()[gid] is None,
        fin == mid,
        !pre.group_entries().contains_key(gid) ==> fin.source_state().queries() == next_count(
            pre.source_state().queries(),
        ),
{
}

/// Cross-reference consistency, group domain; see
/// [`lemma_user_cross_reference`].
pub proof fn lemma_group_cross_reference<S: IdentitySource>(
    pre: UsersCache<S>,
    mid: UsersCache<S>,
    fin: UsersCache<S>,
    gid: u32,
    g: GroupView,
    r2: Option<GroupView>,
)
    requires
        pre.model().group_names_unique(),
        group_lookup_post(pre, mid, gid, Some(g)),
        group_name_lookup_post(mid, fin, g.name, r2),
    ensures
        r2 == Some(g),
        fin == mid,
{
    match r2 {
        None => {
            assert(mid.model().groups.contains_key(gid));
            assert(mid.model().groups[gid].name == g.name);
        },
        Some(g2) => {
            assert(pre.model().groups.contains_key(g2.gid) && pre.model().groups[g2.gid] == g2);
            assert(pre.model().groups.contains_key(gid) && pre.model().groups[gid] == g);
            assert(g2.gid == gid);
        },
    }
}

} // verus!
