//! The eager snapshot: a container of user and group records, fully
//! populated from one enumeration pass and immutable from then on.
//!
//! Where the lazy cache resolves entries on demand, a snapshot asks the
//! identity source everything up front: every record of each domain
//! (optionally filtered), plus the current and effective ids.  After
//! construction, lookups are pure reads with no side effects, and — unlike
//! the lazy cache — a snapshot can be iterated, because it knows it holds
//! the whole domain it was built from.
//!
//! A snapshot taken while another process rewrites the database is a
//! best-effort point-in-time view; the contracts here speak of the tables as
//! the source presented them during the one construction pass.

use crate::idmap::{
    assoc, lemma_assoc_at, lemma_assoc_contains, lemma_assoc_is_table, lemma_positive_entries,
    positive_entries, IdNameMap,
};
use crate::records::{arc_get, Group, GroupView, User, UserView};
use crate::source::IdentitySource;
use crate::traits::{AllGroups, AllUsers, Groups, IdentityModel, IdentityView, Users};
use std::sync::Arc;
use vstd::prelude::*;

verus! {

broadcast use vstd::string::group_string_axioms;

/// The positive part of a forward table, as a plain id-to-record map.
pub open spec fn positive_map<V>(m: Map<u32, Option<V>>) -> Map<u32, V> {
    Map::new(|k: u32| m.contains_key(k) && m[k] is Some, |k: u32| m[k]->0)
}

/// The user table described by a sequence of records, keyed by id, a later
/// record for the same id overriding an earlier one.
pub open spec fn user_table_of(s: Seq<UserView>) -> Map<u32, UserView> {
    assoc(s.map_values(|u: UserView| (u.uid, u)))
}

/// The group table described by a sequence of records, keyed by id.
pub open spec fn group_table_of(s: Seq<GroupView>) -> Map<u32, GroupView> {
    assoc(s.map_values(|g: GroupView| (g.gid, g)))
}

/// The shape of a fully-populated pair of snapshot tables: every forward
/// entry is positive and keyed by its record's own id, every backward entry
/// is positive and points at a forward record carrying that name, and every
/// stored record's name is in the backward table.
spec fn snap_pair_ok<V>(
    fwd: Map<u32, Option<V>>,
    bwd: Map<Seq<char>, Option<u32>>,
    id_of: spec_fn(V) -> u32,
    name_of: spec_fn(V) -> Seq<char>,
) -> bool {
    &&& forall|id: u32|
        #[trigger] fwd.contains_key(id) ==> (fwd[id] matches Some(v) && id_of(v) == id)
    &&& forall|n: Seq<char>|
        #[trigger] bwd.contains_key(n) ==> (bwd[n] matches Some(id) && fwd.contains_key(id) && (
        fwd[id] matches Some(v) && name_of(v) == n))
    &&& forall|id: u32|
        #[trigger] fwd.contains_key(id) ==> (fwd[id] matches Some(v) ==> bwd.contains_key(
            name_of(v),
        ))
}

/// Inserting a fresh record under its own id and name keeps the snapshot
/// table shape.
proof fn lemma_snap_pair_insert<V>(
    fwd: Map<u32, Option<V>>,
    bwd: Map<Seq<char>, Option<u32>>,
    id_of: spec_fn(V) -> u32,
    name_of: spec_fn(V) -> Seq<char>,
    v: V,
)
    requires
        snap_pair_ok(fwd, bwd, id_of, name_of),
        !fwd.contains_key(id_of(v)),
    ensures
        snap_pair_ok(
            fwd.insert(id_of(v), Some(v)),
            bwd.insert(name_of(v), Some(id_of(v))),
            id_of,
            name_of,
        ),
{
    let fwd2 = fwd.insert(id_of(v), Some(v));
    let bwd2 = bwd.insert(name_of(v), Some(id_of(v)));
    assert forall|n: Seq<char>| #[trigger] bwd2.contains_key(n) implies (bwd2[n] matches Some(id)
        && fwd2.contains_key(id) && (fwd2[id] matches Some(w) && name_of(w) == n)) by {
        if n != name_of(v) {
            assert(bwd.contains_key(n));
            let id = bwd[n]->0;
            assert(fwd.contains_key(id));
            assert(id != id_of(v));
        }
    }
}

/// Storing a record under its id turns the positive part of the table over
/// to that record and touches nothing else.
proof fn lemma_positive_map_insert<V>(m: Map<u32, Option<V>>, id: u32, v: V)
    ensures
        positive_map(m.insert(id, Some(v))) == positive_map(m).insert(id, v),
{
    assert(positive_map(m.insert(id, Some(v))) =~= positive_map(m).insert(id, v));
}

/// Appending a record extends the described user table by that record.
proof fn lemma_user_table_push(s: Seq<UserView>, u: UserView)
    ensures
        user_table_of(s.push(u)) == user_table_of(s).insert(u.uid, u),
{
    let t = s.push(u).map_values(|x: UserView| (x.uid, x));
    assert(t.drop_last() =~= s.map_values(|x: UserView| (x.uid, x)));
    assert(t.last() == (u.uid, u));
}

/// Appending a record extends the described group table by that record.
proof fn lemma_group_table_push(s: Seq<GroupView>, g: GroupView)
    ensures
        group_table_of(s.push(g)) == group_table_of(s).insert(g.gid, g),
{
    let t = s.push(g).map_values(|x: GroupView| (x.gid, x));
    assert(t.drop_last() =~= s.map_values(|x: GroupView| (x.gid, x)));
    assert(t.last() == (g.gid, g));
}

/// A container of user and group records, filled once at construction and
/// read-only from then on.
pub struct UsersSnapshot {
    users: IdNameMap<User>,
    groups: IdNameMap<Group>,
    uid: u32,
    gid: u32,
    euid: u32,
    egid: u32,
}

impl IdentityModel for UsersSnapshot {
    /// A snapshot answers for exactly the records it stored at construction.
    closed spec fn model(&self) -> IdentityView {
        IdentityView {
            users: positive_map(self.users.fwd()),
            groups: positive_map(self.groups.fwd()),
            current_uid: self.uid,
            current_gid: self.gid,
            effective_uid: self.euid,
            effective_gid: self.egid,
        }
    }

    closed spec fn inv(&self) -> bool {
        &&& self.users.wf()
        &&& self.groups.wf()
        &&& snap_pair_ok(
            self.users.fwd(),
            self.users.bwd(),
            |v: UserView| v.uid,
            |v: UserView| v.name,
        )
        &&& snap_pair_ok(
            self.groups.fwd(),
            self.groups.bwd(),
            |v: GroupView| v.gid,
            |v: GroupView| v.name,
        )
    }

    proof fn lemma_model_keyed(&self) {
    }
}

impl UsersSnapshot {
    /// Creates a new snapshot containing the provided users and groups.
    pub(crate) fn from(
        users: Vec<User>,
        groups: Vec<Group>,
        current_uid: u32,
        current_gid: u32,
        effective_uid: u32,
        effective_gid: u32,
    ) -> (r: UsersSnapshot)
        requires
            forall|i: int, j: int|
                0 <= i < j < users@.len() ==> (#[trigger] users@[i])@.uid != (
                #[trigger] users@[j])@.uid,
            forall|i: int, j: int|
                0 <= i < j < groups@.len() ==> (#[trigger] groups@[i])@.gid != (
                #[trigger] groups@[j])@.gid,
        ensures
            r.inv(),
            r.model() == (IdentityView {
                users: user_table_of(users@.map_values(|u: User| u@)),
                groups: group_table_of(groups@.map_values(|g: Group| g@)),
                current_uid: current_uid,
                current_gid: current_gid,
                effective_uid: effective_uid,
                effective_gid: effective_gid,
            }),
    {
        let mut umap = IdNameMap::<User>::empty();
        let un = users.len();
        let mut i: usize = 0;
        proof {
            assert(users@.subrange(0, 0).map_values(|u: User| u@) =~= Seq::<UserView>::empty());
            assert(positive_map(umap.fwd()) =~= user_table_of(
                users@.subrange(0, 0).map_values(|u: User| u@),
            ));
        }
        while i < un
            invariant
                i <= un,
                un == users@.len(),
                forall|a: int, b: int|
                    0 <= a < b < users@.len() ==> (#[trigger] users@[a])@.uid != (
                    #[trigger] users@[b])@.uid,
                umap.wf(),
                snap_pair_ok(umap.fwd(), umap.bwd(), |v: UserView| v.uid, |v: UserView| v.name),
                positive_map(umap.fwd()) == user_table_of(
                    users@.subrange(0, i as int).map_values(|u: User| u@),
                ),
                forall|id: u32|
                    #[trigger] umap.fwd().contains_key(id) ==> exists|j: int|
                        0 <= j < i && (#[trigger] users@[j])@.uid == id,
            decreases un - i,
        {
            let ghost pre = umap;
            let u_ref = &users[i];
            let u = u_ref.duplicate();
            let uid = u.uid();
            let name = u.name().to_string();
            let ghost uv = u@;
            umap.insert(uid, name, Arc::new(u));
            proof {
                assert(!pre.fwd().contains_key(uid)) by {
                    if pre.fwd().contains_key(uid) {
                        let j = choose|j: int| 0 <= j < i && (#[trigger] users@[j])@.uid == uid;
                        assert(users@[j]@.uid == users@[i as int]@.uid);
                    }
                }
                lemma_snap_pair_insert::<UserView>(
                    pre.fwd(),
                    pre.bwd(),
                    |v: UserView| v.uid,
                    |v: UserView| v.name,
                    uv,
                );
                lemma_positive_map_insert::<UserView>(pre.fwd(), uid, uv);
                let before = users@.subrange(0, i as int).map_values(|u: User| u@);
                let after = users@.subrange(0, i + 1).map_values(|u: User| u@);
                assert(after =~= before.push(uv));
                lemma_user_table_push(before, uv);
                assert forall|id: u32| #[trigger] umap.fwd().contains_key(id) implies exists|
                    j: int,
                |
                    0 <= j < i + 1 && (#[trigger] users@[j])@.uid == id by {
                    if id == uid {
                        assert(users@[i as int]@.uid == id);
                    } else {
                        let j = choose|j: int| 0 <= j < i && (#[trigger] users@[j])@.uid == id;
                        assert(users@[j]@.uid == id);
                    }
                }
            }
            i += 1;
        }
        proof {
            assert(users@.subrange(0, un as int) =~= users@);
        }
        let mut gmap = IdNameMap::<Group>::empty();
        let gn = groups.len();
        let mut k: usize = 0;
        proof {
            assert(groups@.subrange(0, 0).map_values(|g: Group| g@) =~= Seq::<GroupView>::empty());
            assert(positive_map(gmap.fwd()) =~= group_table_of(
                groups@.subrange(0, 0).map_values(|g: Group| g@),
            ));
        }
        while k < gn
            invariant
                k <= gn,
                gn == groups@.len(),
                forall|a: int, b: int|
                    0 <= a < b < groups@.len() ==> (#[trigger] groups@[a])@.gid != (
                    #[trigger] groups@[b])@.gid,
                gmap.wf(),
                snap_pair_ok(gmap.fwd(), gmap.bwd(), |v: GroupView| v.gid, |v: GroupView| v.name),
                positive_map(gmap.fwd()) == group_table_of(
                    groups@.subrange(0, k as int).map_values(|g: Group| g@),
                ),
                forall|id: u32|
                    #[trigger] gmap.fwd().contains_key(id) ==> exists|j: int|
                        0 <= j < k && (#[trigger] groups@[j])@.gid == id,
            decreases gn - k,
        {
            let ghost pre = gmap;
            let g_ref = &groups[k];
            let g = g_ref.duplicate();
            let gid = g.gid();
            let name = g.name().to_string();
            let ghost gv = g@;
            gmap.insert(gid, name, Arc::new(g));
            proof {
                assert(!pre.fwd().contains_key(gid)) by {
                    if pre.fwd().contains_key(gid) {
                        let j = choose|j: int| 0 <= j < k && (#[trigger] groups@[j])@.gid == gid;
                        assert(groups@[j]@.gid == groups@[k as int]@.gid);
                    }
                }
                lemma_snap_pair_insert::<GroupView>(
                    pre.fwd(),
                    pre.bwd(),
                    |v: GroupView| v.gid,
                    |v: GroupView| v.name,
                    gv,
                );
                lemma_positive_map_insert::<GroupView>(pre.fwd(), gid, gv);
                let before = groups@.subrange(0, k as int).map_values(|g: Group| g@);
                let after = groups@.subrange(0, k + 1).map_values(|g: Group| g@);
                assert(after =~= before.push(gv));
                lemma_group_table_push(before, gv);
                assert forall|id: u32| #[trigger] gmap.fwd().contains_key(id) implies exists|
                    j: int,
                |
                    0 <= j < k + 1 && (#[trigger] groups@[j])@.gid == id by {
                    if id == gid {
                        assert(groups@[k as int]@.gid == id);
                    } else {
                        let j = choose|j: int| 0 <= j < k && (#[trigger] groups@[j])@.gid == id;
                        assert(groups@[j]@.gid == id);
                    }
                }
            }
            k += 1;
        }
        proof {
            assert(groups@.subrange(0, gn as int) =~= groups@);
        }
        UsersSnapshot {
            users: umap,
            groups: gmap,
            uid: current_uid,
            gid: current_gid,
            euid: effective_uid,
            egid: effective_gid,
        }
    }
    /// Creates a new snapshot containing all users and groups the source
    /// knows of, and its current and effective ids, captured now.
    pub fn new<S: IdentitySource>(source: &mut S) -> (r: UsersSnapshot)
        requires
            old(source).inv(),
        ensures
            final(source).inv(),
            final(source).model() == old(source).model(),
            r.inv(),
            r.model() == old(source).model(),
    {
        let users = source.enumerate_users();
        let groups = source.enumerate_groups();
        let uid = source.current_user_id();
        let gid = source.current_group_id();
        let euid = source.effective_user_id();
        let egid = source.effective_group_id();
        let r = UsersSnapshot::from(users, groups, uid, gid, euid, egid);
        proof {
            let utable = old(source).model().users;
            let uvs = users@.map_values(|u: User| u@);
            let upairs = uvs.map_values(|u: UserView| (u.uid, u));
            assert forall|i: int, j: int| 0 <= i < j < upairs.len() implies (
            #[trigger] upairs[i]).0 != (#[trigger] upairs[j]).0 by {
                assert(upairs[i].0 == users@[i]@.uid);
                assert(upairs[j].0 == users@[j]@.uid);
            }
            assert forall|i: int| 0 <= i < upairs.len() implies utable.contains_key(
                (#[trigger] upairs[i]).0,
            ) && utable[upairs[i].0] == upairs[i].1 by {
                assert(upairs[i] == (users@[i]@.uid, users@[i]@));
            }
            assert forall|k: u32| utable.contains_key(k) implies exists|i: int|
                0 <= i < upairs.len() && (#[trigger] upairs[i]).0 == k by {
                let i = choose|i: int| 0 <= i < users@.len() && (#[trigger] users@[i])@.uid == k;
                assert(upairs[i].0 == k);
            }
            lemma_assoc_is_table(upairs, utable);
            let gtable = old(source).model().groups;
            let gvs = groups@.map_values(|g: Group| g@);
            let gpairs = gvs.map_values(|g: GroupView| (g.gid, g));
            assert forall|i: int, j: int| 0 <= i < j < gpairs.len() implies (
            #[trigger] gpairs[i]).0 != (#[trigger] gpairs[j]).0 by {
                assert(gpairs[i].0 == groups@[i]@.gid);
                assert(gpairs[j].0 == groups@[j]@.gid);
            }
            assert forall|i: int| 0 <= i < gpairs.len() implies gtable.contains_key(
                (#[trigger] gpairs[i]).0,
            ) && gtable[gpairs[i].0] == gpairs[i].1 by {
                assert(gpairs[i] == (groups@[i]@.gid, groups@[i]@));
            }
            assert forall|k: u32| gtable.contains_key(k) implies exists|i: int|
                0 <= i < gpairs.len() && (#[trigger] gpairs[i]).0 == k by {
                let i = choose|i: int| 0 <= i < groups@.len() && (#[trigger] groups@[i])@.gid == k;
                assert(gpairs[i].0 == k);
            }
            lemma_assoc_is_table(gpairs, gtable);
        }
        r
    }

    /// Creates a new snapshot containing the users and groups that pass the
    /// given filters, with current and effective ids captured now.
    ///
    /// A user or group is included exactly when its filter approved it; every
    /// included record is stored as the source presented it.
    pub fn filtered<S: IdentitySource, U: Fn(&User) -> bool, G: Fn(&Group) -> bool>(
        source: &mut S,
        user_filter: U,
        group_filter: G,
    ) -> (r: UsersSnapshot)
        requires
            old(source).inv(),
            forall|u: User| #[trigger] user_filter.requires((&u,)),
            forall|g: Group| #[trigger] group_filter.requires((&g,)),
        ensures
            final(source).inv(),
            final(source).model() == old(source).model(),
            r.inv(),
            r.model().current_uid == old(source).model().current_uid,
            r.model().current_gid == old(source).model().current_gid,
            r.model().effective_uid == old(source).model().effective_uid,
            r.model().effective_gid == old(source).model().effective_gid,
            forall|id: u32|
                #[trigger] r.model().users.contains_key(id) ==> old(
                    source,
                ).model().users.contains_key(id) && r.model().users[id] == old(
                    source,
                ).model().users[id],
            forall|id: u32|
                #[trigger] r.model().users.contains_key(id) ==> exists|u: User|
                    u@ == old(source).model().users[id] && user_filter.ensures((&u,), true),
            forall|id: u32|
                old(source).model().users.contains_key(id) && !(
                #[trigger] r.model().users.contains_key(id)) ==> exists|u: User|
                    u@ == old(source).model().users[id] && user_filter.ensures((&u,), false),
            forall|id: u32|
                #[trigger] r.model().groups.contains_key(id) ==> old(
                    source,
                ).model().groups.contains_key(id) && r.model().groups[id] == old(
                    source,
                ).model().groups[id],
            forall|id: u32|
                #[trigger] r.model().groups.contains_key(id) ==> exists|g: Group|
                    g@ == old(source).model().groups[id] && group_filter.ensures((&g,), true),
            forall|id: u32|
                old(source).model().groups.contains_key(id) && !(
                #[trigger] r.model().groups.contains_key(id)) ==> exists|g: Group|
                    g@ == old(source).model().groups[id] && group_filter.ensures((&g,), false),
    {
        let users_all = source.enumerate_users();
        let groups_all = source.enumerate_groups();
        let uid = source.current_user_id();
        let gid = source.current_group_id();
        let euid = source.effective_user_id();
        let egid = source.effective_group_id();
        let ghost utable = old(source).model().users;
        let ghost gtable = old(source).model().groups;
        let ghost au = users_all@;
        let ghost ag = groups_all@;
        let (kept_users, uw) = filter_users(users_all, user_filter);
        let (kept_groups, gw) = filter_groups(groups_all, group_filter);
        proof {
            assert forall|a: int, b: int| 0 <= a < b < kept_users@.len() implies (
            #[trigger] kept_users@[a])@.uid != (#[trigger] kept_users@[b])@.uid by {
                assert(uw@[a] < uw@[b]);
                assert(kept_users@[a] == au[uw@[a]]);
                assert(kept_users@[b] == au[uw@[b]]);
            }
            assert forall|a: int, b: int| 0 <= a < b < kept_groups@.len() implies (
            #[trigger] kept_groups@[a])@.gid != (#[trigger] kept_groups@[b])@.gid by {
                assert(gw@[a] < gw@[b]);
                assert(kept_groups@[a] == ag[gw@[a]]);
                assert(kept_groups@[b] == ag[gw@[b]]);
            }
        }
        let ghost kus = kept_users@;
        let ghost kgs = kept_groups@;
        let r = UsersSnapshot::from(kept_users, kept_groups, uid, gid, euid, egid);
        proof {
            let kp = kus.map_values(|u: User| u@).map_values(|u: UserView| (u.uid, u));
            assert(r.model().users == assoc(kp));
            assert forall|a: int, b: int| 0 <= a < b < kp.len() implies (#[trigger] kp[a]).0 != (
            #[trigger] kp[b]).0 by {
                assert(kp[a].0 == kus[a]@.uid);
                assert(kp[b].0 == kus[b]@.uid);
            }
            assert forall|id: u32| #[trigger] r.model().users.contains_key(id) implies
                utable.contains_key(id) && r.model().users[id] == utable[id] && (exists|u: User|
                u@ == utable[id] && user_filter.ensures((&u,), true)) by {
                lemma_assoc_contains(kp, id);
                let a = choose|a: int| 0 <= a < kp.len() && (#[trigger] kp[a]).0 == id;
                lemma_assoc_at(kp, a);
                assert(kp[a] == (kus[a]@.uid, kus[a]@));
                assert(kus[a] == au[uw@[a]]);
                assert(utable.contains_key(au[uw@[a]]@.uid) && utable[au[uw@[a]]@.uid] == au[uw@[
                    a
                ]]@);
                assert(user_filter.ensures((&kus[a],), true));
                assert(kus[a]@ == utable[id]);
            }
            assert forall|id: u32|
                utable.contains_key(id) && !(#[trigger] r.model().users.contains_key(id))
                implies exists|u: User|
                u@ == utable[id] && user_filter.ensures((&u,), false) by {
                let i = choose|i: int| 0 <= i < au.len() && (#[trigger] au[i])@.uid == id;
                assert(utable[au[i]@.uid] == au[i]@);
                if exists|a: int| 0 <= a < uw@.len() && #[trigger] uw@[a] == i {
                    let a = choose|a: int| 0 <= a < uw@.len() && #[trigger] uw@[a] == i;
                    assert(kus[a] == au[i]);
                    assert(kp[a].0 == id);
                    lemma_assoc_contains(kp, id);
                    assert(false);
                } else {
                    assert(user_filter.ensures((&au[i],), false));
                }
            }
            let gp = kgs.map_values(|g: Group| g@).map_values(|g: GroupView| (g.gid, g));
            assert(r.model().groups == assoc(gp));
            assert forall|a: int, b: int| 0 <= a < b < gp.len() implies (#[trigger] gp[a]).0 != (
            #[trigger] gp[b]).0 by {
                assert(gp[a].0 == kgs[a]@.gid);
                assert(gp[b].0 == kgs[b]@.gid);
            }
            assert forall|id: u32| #[trigger] r.model().groups.contains_key(id) implies
                gtable.contains_key(id) && r.model().groups[id] == gtable[id] && (exists|g: Group|
                g@ == gtable[id] && group_filter.ensures((&g,), true)) by {
                lemma_assoc_contains(gp, id);
                let a = choose|a: int| 0 <= a < gp.len() && (#[trigger] gp[a]).0 == id;
                lemma_assoc_at(gp, a);
                assert(gp[a] == (kgs[a]@.gid, kgs[a]@));
                assert(kgs[a] == ag[gw@[a]]);
                assert(gtable.contains_key(ag[gw@[a]]@.gid) && gtable[ag[gw@[a]]@.gid] == ag[gw@[
                    a
                ]]@);
                assert(group_filter.ensures((&kgs[a],), true));
                assert(kgs[a]@ == gtable[id]);
            }
            assert forall|id: u32|
                gtable.contains_key(id) && !(#[trigger] r.model().groups.contains_key(id))
                implies exists|g: Group|
                g@ == gtable[id] && group_filter.ensures((&g,), false) by {
                let i = choose|i: int| 0 <= i < ag.len() && (#[trigger] ag[i])@.gid == id;
                assert(gtable[ag[i]@.gid] == ag[i]@);
                if exists|a: int| 0 <= a < gw@.len() && #[trigger] gw@[a] == i {
                    let a = choose|a: int| 0 <= a < gw@.len() && #[trigger] gw@[a] == i;
                    assert(kgs[a] == ag[i]);
                    assert(gp[a].0 == id);
                    lemma_assoc_contains(gp, id);
                    assert(false);
                } else {
                    assert(group_filter.ensures((&ag[i],), false));
                }
            }
        }
        r
    }

    /// Creates a new snapshot containing the users that pass the filter, and
    /// exactly those existing groups that are the primary group of at least
    /// one included user.  Current and effective ids are captured now.
    ///
    /// Note that a primary group may be missing from the system's group
    /// table; such a group is simply not included.
    pub fn only_users<S: IdentitySource, U: Fn(&User) -> bool>(
        source: &mut S,
        user_filter: U,
    ) -> (r: UsersSnapshot)
        requires
            old(source).inv(),
            forall|u: User| #[trigger] user_filter.requires((&u,)),
        ensures
            final(source).inv(),
            final(source).model() == old(source).model(),
            r.inv(),
            r.model().current_uid == old(source).model().current_uid,
            r.model().current_gid == old(source).model().current_gid,
            r.model().effective_uid == old(source).model().effective_uid,
            r.model().effective_gid == old(source).model().effective_gid,
            forall|id: u32|
                #[trigger] r.model().users.contains_key(id) ==> old(
                    source,
                ).model().users.contains_key(id) && r.model().users[id] == old(
                    source,
                ).model().users[id],
            forall|id: u32|
                #[trigger] r.model().users.contains_key(id) ==> exists|u: User|
                    u@ == old(source).model().users[id] && user_filter.ensures((&u,), true),
            forall|id: u32|
                old(source).model().users.contains_key(id) && !(
                #[trigger] r.model().users.contains_key(id)) ==> exists|u: User|
                    u@ == old(source).model().users[id] && user_filter.ensures((&u,), false),
            forall|gid: u32|
                #[trigger] r.model().groups.contains_key(gid) <==> old(
                    source,
                ).model().groups.contains_key(gid) && (exists|id: u32|
                    #[trigger] r.model().users.contains_key(id)
                        && r.model().users[id].primary_group == gid),
            forall|gid: u32|
                #[trigger] r.model().groups.contains_key(gid) ==> r.model().groups[gid] == old(
                    source,
                ).model().groups[gid],
    {
        let users_all = source.enumerate_users();
        let groups_all = source.enumerate_groups();
        let uid = source.current_user_id();
        let gid = source.current_group_id();
        let euid = source.effective_user_id();
        let egid = source.effective_group_id();
        let ghost utable = old(source).model().users;
        let ghost gtable = old(source).model().groups;
        let ghost au = users_all@;
        let ghost ag = groups_all@;
        let (kept_users, uw) = filter_users(users_all, user_filter);
        let pg = primary_ids(&kept_users);
        let (kept_groups, gw) = filter_groups_by_ids(groups_all, &pg);
        proof {
            assert forall|a: int, b: int| 0 <= a < b < kept_users@.len() implies (
            #[trigger] kept_users@[a])@.uid != (#[trigger] kept_users@[b])@.uid by {
                assert(uw@[a] < uw@[b]);
                assert(kept_users@[a] == au[uw@[a]]);
                assert(kept_users@[b] == au[uw@[b]]);
            }
            assert forall|a: int, b: int| 0 <= a < b < kept_groups@.len() implies (
            #[trigger] kept_groups@[a])@.gid != (#[trigger] kept_groups@[b])@.gid by {
                assert(gw@[a] < gw@[b]);
                assert(kept_groups@[a] == ag[gw@[a]]);
                assert(kept_groups@[b] == ag[gw@[b]]);
            }
        }
        let ghost kus = kept_users@;
        let ghost kgs = kept_groups@;
        let r = UsersSnapshot::from(kept_users, kept_groups, uid, gid, euid, egid);
        proof {
            let kp = kus.map_values(|u: User| u@).map_values(|u: UserView| (u.uid, u));
            assert(r.model().users == assoc(kp));
            assert forall|a: int, b: int| 0 <= a < b < kp.len() implies (#[trigger] kp[a]).0 != (
            #[trigger] kp[b]).0 by {
                assert(kp[a].0 == kus[a]@.uid);
                assert(kp[b].0 == kus[b]@.uid);
            }
            assert forall|id: u32| #[trigger] r.model().users.contains_key(id) implies
                utable.contains_key(id) && r.model().users[id] == utable[id] && (exists|u: User|
                u@ == utable[id] && user_filter.ensures((&u,), true)) by {
                lemma_assoc_contains(kp, id);
                let a = choose|a: int| 0 <= a < kp.len() && (#[trigger] kp[a]).0 == id;
                lemma_assoc_at(kp, a);
                assert(kp[a] == (kus[a]@.uid, kus[a]@));
                assert(kus[a] == au[uw@[a]]);
                assert(utable.contains_key(au[uw@[a]]@.uid) && utable[au[uw@[a]]@.uid] == au[uw@[
                    a
                ]]@);
                assert(user_filter.ensures((&kus[a],), true));
                assert(kus[a]@ == utable[id]);
            }
            assert forall|id: u32|
                utable.contains_key(id) && !(#[trigger] r.model().users.contains_key(id))
                implies exists|u: User|
                u@ == utable[id] && user_filter.ensures((&u,), false) by {
                let i = choose|i: int| 0 <= i < au.len() && (#[trigger] au[i])@.uid == id;
                assert(utable[au[i]@.uid] == au[i]@);
                if exists|a: int| 0 <= a < uw@.len() && #[trigger] uw@[a] == i {
                    let a = choose|a: int| 0 <= a < uw@.len() && #[trigger] uw@[a] == i;
                    assert(kus[a] == au[i]);
                    assert(kp[a].0 == id);
                    lemma_assoc_contains(kp, id);
                    assert(false);
                } else {
                    assert(user_filter.ensures((&au[i],), false));
                }
            }
            let gp = kgs.map_values(|g: Group| g@).map_values(|g: GroupView| (g.gid, g));
            assert(r.model().groups == assoc(gp));
            assert forall|a: int, b: int| 0 <= a < b < gp.len() implies (#[trigger] gp[a]).0 != (
            #[trigger] gp[b]).0 by {
                assert(gp[a].0 == kgs[a]@.gid);
                assert(gp[b].0 == kgs[b]@.gid);
            }
            assert forall|gid2: u32| #[trigger] r.model().groups.contains_key(gid2) implies
                gtable.contains_key(gid2) && r.model().groups[gid2] == gtable[gid2] && (exists|
                id: u32,
            |
                #[trigger] r.model().users.contains_key(id) && r.model().users[id].primary_group
                    == gid2) by {
                lemma_assoc_contains(gp, gid2);
                let a = choose|a: int| 0 <= a < gp.len() && (#[trigger] gp[a]).0 == gid2;
                lemma_assoc_at(gp, a);
                assert(gp[a] == (kgs[a]@.gid, kgs[a]@));
                assert(kgs[a] == ag[gw@[a]]);
                assert(gtable.contains_key(ag[gw@[a]]@.gid) && gtable[ag[gw@[a]]@.gid] == ag[gw@[
                    a
                ]]@);
                assert(kgs[a]@ == gtable[gid2]);
                assert(pg@.contains(kgs[a]@.gid));
                let t = choose|t: int| 0 <= t < pg@.len() && pg@[t] == gid2;
                assert(pg@[t] == kus[t]@.primary_group);
                assert(kp[t].0 == kus[t]@.uid);
                lemma_assoc_at(kp, t);
                assert(r.model().users.contains_key(kus[t]@.uid));
                assert(r.model().users[kus[t]@.uid].primary_group == gid2);
            }
            assert forall|gid2: u32|
                gtable.contains_key(gid2) && (exists|id: u32|
                    #[trigger] r.model().users.contains_key(id)
                        && r.model().users[id].primary_group == gid2) implies
                r.model().groups.contains_key(gid2) by {
                let id = choose|id: u32|
                    #[trigger] r.model().users.contains_key(id)
                        && r.model().users[id].primary_group == gid2;
                lemma_assoc_contains(kp, id);
                let a = choose|a: int| 0 <= a < kp.len() && (#[trigger] kp[a]).0 == id;
                lemma_assoc_at(kp, a);
                assert(pg@[a] == kus[a]@.primary_group);
                assert(pg@.contains(gid2));
                let i = choose|i: int| 0 <= i < ag.len() && (#[trigger] ag[i])@.gid == gid2;
                if exists|b: int| 0 <= b < gw@.len() && #[trigger] gw@[b] == i {
                    let b = choose|b: int| 0 <= b < gw@.len() && #[trigger] gw@[b] == i;
                    assert(kgs[b] == ag[i]);
                    assert(gp[b].0 == gid2);
                    lemma_assoc_contains(gp, gid2);
                } else {
                    assert(!pg@.contains(ag[i]@.gid));
                    assert(false);
                }
            }
        }
        r
    }
}

/// What filtering a user enumeration must produce, with `w` the positions
/// the kept records came from: the kept records are drawn in order from the
/// enumeration, each approved by the filter, and every dropped record was
/// refused by it.
pub open spec fn users_filtered_ok<F: Fn(&User) -> bool>(
    all: Seq<User>,
    f: F,
    kept: Seq<User>,
    w: Seq<int>,
) -> bool {
    &&& w.len() == kept.len()
    &&& forall|a: int| 0 <= a < w.len() ==> 0 <= #[trigger] w[a] < all.len()
    &&& forall|a: int| 0 <= a < w.len() ==> kept[a] == all[#[trigger] w[a]]
    &&& forall|a: int, b: int| 0 <= a < b < w.len() ==> #[trigger] w[a] < #[trigger] w[b]
    &&& forall|a: int| 0 <= a < kept.len() ==> f.ensures((&(#[trigger] kept[a]),), true)
    &&& forall|j: int|
        0 <= j < all.len() ==> (exists|a: int| 0 <= a < w.len() && #[trigger] w[a] == j)
            || f.ensures((&(#[trigger] all[j]),), false)
}

/// What filtering a group enumeration must produce; see
/// [`users_filtered_ok`].
pub open spec fn groups_filtered_ok<F: Fn(&Group) -> bool>(
    all: Seq<Group>,
    f: F,
    kept: Seq<Group>,
    w: Seq<int>,
) -> bool {
    &&& w.len() == kept.len()
    &&& forall|a: int| 0 <= a < w.len() ==> 0 <= #[trigger] w[a] < all.len()
    &&& forall|a: int| 0 <= a < w.len() ==> kept[a] == all[#[trigger] w[a]]
    &&& forall|a: int, b: int| 0 <= a < b < w.len() ==> #[trigger] w[a] < #[trigger] w[b]
    &&& forall|a: int| 0 <= a < kept.len() ==> f.ensures((&(#[trigger] kept[a]),), true)
    &&& forall|j: int|
        0 <= j < all.len() ==> (exists|a: int| 0 <= a < w.len() && #[trigger] w[a] == j)
            || f.ensures((&(#[trigger] all[j]),), false)
}

/// Keeps the users the filter approves, in enumeration order, together with
/// the positions they were drawn from.
fn filter_users<F: Fn(&User) -> bool>(all: Vec<User>, f: F) -> (r: (Vec<User>, Ghost<Seq<int>>))
    requires
        forall|u: User| #[trigger] f.requires((&u,)),
    ensures
        users_filtered_ok(all@, f, r.0@, r.1@),
{
    let n = all.len();
    let mut kept: Vec<User> = Vec::new();
    let ghost mut wit: Seq<int> = Seq::empty();
    let mut i: usize = 0;
    while i < n
        invariant
            i <= n,
            n == all@.len(),
            forall|u: User| #[trigger] f.requires((&u,)),
            wit.len() == kept@.len(),
            forall|a: int| 0 <= a < wit.len() ==> 0 <= #[trigger] wit[a] < i,
            forall|a: int| 0 <= a < wit.len() ==> kept@[a] == all@[#[trigger] wit[a]],
            forall|a: int, b: int| 0 <= a < b < wit.len() ==> #[trigger] wit[a] < #[trigger] wit[b],
            forall|a: int|
                0 <= a < kept@.len() ==> f.ensures((&(#[trigger] kept@[a]),), true),
            forall|j: int|
                0 <= j < i ==> (exists|a: int| 0 <= a < wit.len() && #[trigger] wit[a] == j)
                    || f.ensures((&(#[trigger] all@[j]),), false),
        decreases n - i,
    {
        let u_ref = &all[i];
        let ghost pre = kept@;
        let ghost pwit = wit;
        let keep = f(u_ref);
        if keep {
            kept.push(u_ref.duplicate());
            proof {
                wit = wit.push(i as int);
            }
        }
        proof {
            if keep {
                assert(kept@ == pre.push(all@[i as int]));
                assert(wit == pwit.push(i as int));
                assert(kept@[wit.len() - 1] == all@[i as int]);
                assert(f.ensures((&all@[i as int],), true));
            } else {
                assert(f.ensures((&all@[i as int],), false));
            }
            assert forall|j: int| 0 <= j < i + 1 implies (exists|a: int|
                0 <= a < wit.len() && #[trigger] wit[a] == j) || f.ensures(
                (&(#[trigger] all@[j]),),
                false,
            ) by {
                if j < i {
                    if !f.ensures((&all@[j],), false) {
                        let a = choose|a: int| 0 <= a < pwit.len() && #[trigger] pwit[a] == j;
                        assert(wit[a] == j);
                    }
                } else {
                    if keep {
                        assert(wit[wit.len() - 1] == j);
                    }
                }
            }
        }
        i += 1;
    }
    (kept, Ghost(wit))
}

/// Keeps the groups the filter approves, in enumeration order, together with
/// the positions they were drawn from.
fn filter_groups<F: Fn(&Group) -> bool>(all: Vec<Group>, f: F) -> (r: (
    Vec<Group>,
    Ghost<Seq<int>>,
))
    requires
        forall|g: Group| #[trigger] f.requires((&g,)),
    ensures
        groups_filtered_ok(all@, f, r.0@, r.1@),
{
    let n = all.len();
    let mut kept: Vec<Group> = Vec::new();
    let ghost mut wit: Seq<int> = Seq::empty();
    let mut i: usize = 0;
    while i < n
        invariant
            i <= n,
            n == all@.len(),
            forall|g: Group| #[trigger] f.requires((&g,)),
            wit.len() == kept@.len(),
            forall|a: int| 0 <= a < wit.len() ==> 0 <= #[trigger] wit[a] < i,
            forall|a: int| 0 <= a < wit.len() ==> kept@[a] == all@[#[trigger] wit[a]],
            forall|a: int, b: int| 0 <= a < b < wit.len() ==> #[trigger] wit[a] < #[trigger] wit[b],
            forall|a: int|
                0 <= a < kept@.len() ==> f.ensures((&(#[trigger] kept@[a]),), true),
            forall|j: int|
                0 <= j < i ==> (exists|a: int| 0 <= a < wit.len() && #[trigger] wit[a] == j)
                    || f.ensures((&(#[trigger] all@[j]),), false),
        decreases n - i,
    {
        let g_ref = &all[i];
        let ghost pre = kept@;
        let ghost pwit = wit;
        let keep = f(g_ref);
        if keep {
            kept.push(g_ref.duplicate());
            proof {
                wit = wit.push(i as int);
            }
        }
        proof {
            if keep {
                assert(kept@ == pre.push(all@[i as int]));
                assert(wit == pwit.push(i as int));
                assert(kept@[wit.len() - 1] == all@[i as int]);
                assert(f.ensures((&all@[i as int],), true));
            } else {
                assert(f.ensures((&all@[i as int],), false));
            }
            assert forall|j: int| 0 <= j < i + 1 implies (exists|a: int|
                0 <= a < wit.len() && #[trigger] wit[a] == j) || f.ensures(
                (&(#[trigger] all@[j]),),
                false,
            ) by {
                if j < i {
                    if !f.ensures((&all@[j],), false) {
                        let a = choose|a: int| 0 <= a < pwit.len() && #[trigger] pwit[a] == j;
                        assert(wit[a] == j);
                    }
                } else {
                    if keep {
                        assert(wit[wit.len() - 1] == j);
                    }
                }
            }
        }
        i += 1;
    }
    (kept, Ghost(wit))
}

/// Whether the sequence holds the given id.
fn has_id(v: &Vec<u32>, id: u32) -> (r: bool)
    ensures
        r == v@.contains(id),
{
    let n = v.len();
    let mut i: usize = 0;
    while i < n
        invariant
            i <= n,
            n == v@.len(),
            forall|j: int| 0 <= j < i ==> v@[j] != id,
        decreases n - i,
    {
        if v[i] == id {
            assert(v@.contains(id));
            return true;
        }
        i += 1;
    }
    assert(!v@.contains(id));
    false
}

/// The primary group id of each user, in order.
fn primary_ids(users: &Vec<User>) -> (r: Vec<u32>)
    ensures
        r@ == users@.map_values(|u: User| u@.primary_group),
{
    let n = users.len();
    let mut r: Vec<u32> = Vec::new();
    let mut i: usize = 0;
    while i < n
        invariant
            i <= n,
            n == users@.len(),
            r@.len() == i,
            forall|j: int| 0 <= j < i ==> r@[j] == (#[trigger] users@[j])@.primary_group,
        decreases n - i,
    {
        r.push(users[i].primary_group_id());
        i += 1;
    }
    proof {
        assert(r@ =~= users@.map_values(|u: User| u@.primary_group));
    }
    r
}

/// Keeps the groups whose id is among the given ones, in enumeration order,
/// together with the positions they were drawn from.
fn filter_groups_by_ids(all: Vec<Group>, ids: &Vec<u32>) -> (r: (Vec<Group>, Ghost<Seq<int>>))
    ensures
        r.1@.len() == r.0@.len(),
        forall|a: int| 0 <= a < r.1@.len() ==> 0 <= #[trigger] r.1@[a] < all@.len(),
        forall|a: int| 0 <= a < r.1@.len() ==> r.0@[a] == all@[#[trigger] r.1@[a]],
        forall|a: int, b: int| 0 <= a < b < r.1@.len() ==> #[trigger] r.1@[a] < #[trigger] r.1@[b],
        forall|a: int| 0 <= a < r.0@.len() ==> ids@.contains((#[trigger] r.0@[a])@.gid),
        forall|j: int|
            0 <= j < all@.len() ==> (exists|a: int|
                0 <= a < r.1@.len() && #[trigger] r.1@[a] == j) || !ids@.contains(
                (#[trigger] all@[j])@.gid,
            ),
{
    let n = all.len();
    let mut kept: Vec<Group> = Vec::new();
    let ghost mut wit: Seq<int> = Seq::empty();
    let mut i: usize = 0;
    while i < n
        invariant
            i <= n,
            n == all@.len(),
            wit.len() == kept@.len(),
            forall|a: int| 0 <= a < wit.len() ==> 0 <= #[trigger] wit[a] < i,
            forall|a: int| 0 <= a < wit.len() ==> kept@[a] == all@[#[trigger] wit[a]],
            forall|a: int, b: int| 0 <= a < b < wit.len() ==> #[trigger] wit[a] < #[trigger] wit[b],
            forall|a: int| 0 <= a < kept@.len() ==> ids@.contains((#[trigger] kept@[a])@.gid),
            forall|j: int|
                0 <= j < i ==> (exists|a: int| 0 <= a < wit.len() && #[trigger] wit[a] == j)
                    || !ids@.contains((#[trigger] all@[j])@.gid),
        decreases n - i,
    {
        let g_ref = &all[i];
        let ghost pre = kept@;
        let ghost pwit = wit;
        let keep = has_id(ids, g_ref.gid());
        if keep {
            kept.push(g_ref.duplicate());
            proof {
                wit = wit.push(i as int);
            }
        }
        proof {
            if keep {
                assert(kept@ == pre.push(all@[i as int]));
                assert(wit == pwit.push(i as int));
                assert(kept@[wit.len() - 1] == all@[i as int]);
            }
            assert forall|j: int| 0 <= j < i + 1 implies (exists|a: int|
                0 <= a < wit.len() && #[trigger] wit[a] == j) || !ids@.contains(
                (#[trigger] all@[j])@.gid,
            ) by {
                if j < i {
                    if ids@.contains(all@[j]@.gid) {
                        let a = choose|a: int| 0 <= a < pwit.len() && #[trigger] pwit[a] == j;
                        assert(wit[a] == j);
                    }
                } else {
                    if keep {
                        assert(wit[wit.len() - 1] == j);
                    }
                }
            }
        }
        i += 1;
    }
    (kept, Ghost(wit))
}

impl UsersSnapshot {
    /// The stored user records, in storage order.
    pub closed spec fn user_seq(&self) -> Seq<UserView> {
        positive_entries(self.users.fwd_entries()).map_values(|p: (u32, UserView)| p.1)
    }

    /// The stored group records, in storage order.
    pub closed spec fn group_seq(&self) -> Seq<GroupView> {
        positive_entries(self.groups.fwd_entries()).map_values(|p: (u32, GroupView)| p.1)
    }
}

impl Users for UsersSnapshot {
    fn get_user_by_uid(&mut self, uid: u32) -> (r: Option<Arc<User>>)
        ensures
            *final(self) == *old(self),
    {
        match self.users.get_by_id(uid) {
            Some(Some(a)) => Some(a),
            Some(None) => {
                proof {
                    assert(false);
                }
                None
            },
            None => None,
        }
    }

    fn get_user_by_name(&mut self, username: &str) -> (r: Option<Arc<User>>)
        ensures
            *final(self) == *old(self),
    {
        match self.users.get_by_name(username) {
            Some(Some(id)) => match self.users.get_by_id(id) {
                Some(Some(a)) => Some(a),
                _ => {
                    proof {
                        assert(false);
                    }
                    None
                },
            },
            Some(None) => {
                proof {
                    assert(false);
                }
                None
            },
            None => {
                proof {
                    assert forall|id: u32| self.model().users.contains_key(id) implies (
                    #[trigger] self.model().users[id]).name != username@ by {
                        assert(self.users.fwd().contains_key(id));
                    }
                }
                None
            },
        }
    }

    fn get_current_uid(&mut self) -> (r: u32)
        ensures
            *final(self) == *old(self),
    {
        self.uid
    }

    fn get_current_username(&mut self) -> (r: Option<String>)
        ensures
            *final(self) == *old(self),
    {
        let uid = self.uid;
        match self.users.get_by_id(uid) {
            Some(Some(a)) => Some(arc_get(&a).name().to_string()),
            Some(None) => {
                proof {
                    assert(false);
                }
                None
            },
            None => None,
        }
    }

    fn get_effective_uid(&mut self) -> (r: u32)
        ensures
            *final(self) == *old(self),
    {
        self.euid
    }

    fn get_effective_username(&mut self) -> (r: Option<String>)
        ensures
            *final(self) == *old(self),
    {
        let uid = self.euid;
        match self.users.get_by_id(uid) {
            Some(Some(a)) => Some(arc_get(&a).name().to_string()),
            Some(None) => {
                proof {
                    assert(false);
                }
                None
            },
            None => None,
        }
    }
}

impl Groups for UsersSnapshot {
    fn get_group_by_gid(&mut self, gid: u32) -> (r: Option<Arc<Group>>)
        ensures
            *final(self) == *old(self),
    {
        match self.groups.get_by_id(gid) {
            Some(Some(a)) => Some(a),
            Some(None) => {
                proof {
                    assert(false);
                }
                None
            },
            None => None,
        }
    }

    fn get_group_by_name(&mut self, group_name: &str) -> (r: Option<Arc<Group>>)
        ensures
            *final(self) == *old(self),
    {
        match self.groups.get_by_name(group_name) {
            Some(Some(id)) => match self.groups.get_by_id(id) {
                Some(Some(a)) => Some(a),
                _ => {
                    proof {
                        assert(false);
                    }
                    None
                },
            },
            Some(None) => {
                proof {
                    assert(false);
                }
                None
            },
            None => {
                proof {
                    assert forall|id: u32| self.model().groups.contains_key(id) implies (
                    #[trigger] self.model().groups[id]).name != group_name@ by {
                        assert(self.groups.fwd().contains_key(id));
                    }
                }
                None
            },
        }
    }

    fn get_current_gid(&mut self) -> (r: u32)
        ensures
            *final(self) == *old(self),
    {
        self.gid
    }

    fn get_current_groupname(&mut self) -> (r: Option<String>)
        ensures
            *final(self) == *old(self),
    {
        let gid = self.gid;
        match self.groups.get_by_id(gid) {
            Some(Some(a)) => Some(arc_get(&a).name().to_string()),
            Some(None) => {
                proof {
                    assert(false);
                }
                None
            },
            None => None,
        }
    }

    fn get_effective_gid(&mut self) -> (r: u32)
        ensures
            *final(self) == *old(self),
    {
        self.egid
    }

    fn get_effective_groupname(&mut self) -> (r: Option<String>)
        ensures
            *final(self) == *old(self),
    {
        let gid = self.egid;
        match self.groups.get_by_id(gid) {
            Some(Some(a)) => Some(arc_get(&a).name().to_string()),
            Some(None) => {
                proof {
                    assert(false);
                }
                None
            },
            None => None,
        }
    }
}

impl AllUsers for UsersSnapshot {
    fn get_all_users(&self) -> (r: Vec<Arc<User>>)
        ensures
            r@.map_values(|a: Arc<User>| a@) == self.user_seq(),
    {
        let r = self.users.positive_values();
        proof {
            let e = self.users.fwd_entries();
            let pe = positive_entries(e);
            lemma_positive_entries(e);
            assert(r@.len() == pe.len());
            assert(r@.map_values(|a: Arc<User>| a@) =~= self.user_seq());
            assert forall|i: int| 0 <= i < r@.len() implies (#[trigger] r@[i])@.uid == pe[i].0 by {
                assert(assoc(e)[pe[i].0] == Some(pe[i].1));
                assert(self.users.fwd().contains_key(pe[i].0));
            }
            assert forall|i: int, j: int| 0 <= i < j < r@.len() implies (#[trigger] r@[i])@.uid
                != (#[trigger] r@[j])@.uid by {
                assert(pe[i].0 != pe[j].0);
            }
            assert forall|i: int| 0 <= i < r@.len() implies self.model().users.contains_key(
                (#[trigger] r@[i])@.uid,
            ) && self.model().users[r@[i]@.uid] == r@[i]@ by {
                assert(assoc(e).contains_key(pe[i].0));
                assert(assoc(e)[pe[i].0] == Some(pe[i].1));
            }
            assert forall|id: u32| self.model().users.contains_key(id) implies exists|i: int|
                0 <= i < r@.len() && (#[trigger] r@[i])@.uid == id by {
                assert(assoc(e).contains_key(id) && assoc(e)[id] is Some);
                let i = choose|i: int|
                    0 <= i < pe.len() && (#[trigger] pe[i]).0 == id && Some(pe[i].1) == assoc(e)[
                        id
                    ];
                assert(r@[i]@.uid == id);
            }
        }
        r
    }
}

impl AllGroups for UsersSnapshot {
    fn get_all_groups(&self) -> (r: Vec<Arc<Group>>)
        ensures
            r@.map_values(|a: Arc<Group>| a@) == self.group_seq(),
    {
        let r = self.groups.positive_values();
        proof {
            let e = self.groups.fwd_entries();
            let pe = positive_entries(e);
            lemma_positive_entries(e);
            assert(r@.len() == pe.len());
            assert(r@.map_values(|a: Arc<Group>| a@) =~= self.group_seq());
            assert forall|i: int| 0 <= i < r@.len() implies (#[trigger] r@[i])@.gid == pe[i].0 by {
                assert(assoc(e)[pe[i].0] == Some(pe[i].1));
                assert(self.groups.fwd().contains_key(pe[i].0));
            }
            assert forall|i: int, j: int| 0 <= i < j < r@.len() implies (#[trigger] r@[i])@.gid
                != (#[trigger] r@[j])@.gid by {
                assert(pe[i].0 != pe[j].0);
            }
            assert forall|i: int| 0 <= i < r@.len() implies self.model().groups.contains_key(
                (#[trigger] r@[i])@.gid,
            ) && self.model().groups[r@[i]@.gid] == r@[i]@ by {
                assert(assoc(e).contains_key(pe[i].0));
                assert(assoc(e)[pe[i].0] == Some(pe[i].1));
            }
            assert forall|id: u32| self.model().groups.contains_key(id) implies exists|i: int|
                0 <= i < r@.len() && (#[trigger] r@[i])@.gid == id by {
                assert(assoc(e).contains_key(id) && assoc(e)[id] is Some);
                let i = choose|i: int|
                    0 <= i < pe.len() && (#[trigger] pe[i]).0 == id && Some(pe[i].1) == assoc(e)[
                        id
                    ];
                assert(r@[i]@.gid == id);
            }
        }
        r
    }
}

/// Enumeration restartability: every `get_all_users` call on one snapshot
/// returns the very same sequence of records — in particular, two calls
/// agree as multisets of records.
pub proof fn lemma_user_enumeration_restartable(
    s: UsersSnapshot,
    r1: Seq<UserView>,
    r2: Seq<UserView>,
)
    requires
        r1 == s.user_seq(),
        r2 == s.user_seq(),
    ensures
        r1 == r2,
        r1.to_multiset() == r2.to_multiset(),
{
}

/// Snapshot completeness under a user filter: when the filter computes a
/// predicate — it answers the same of equal records — the user table of
/// `only_users` or `filtered` holds exactly the users the predicate holds
/// of.  The three hypotheses are the construction's own guarantees.
pub proof fn lemma_filter_exact<F: Fn(&User) -> bool>(
    utable: Map<u32, UserView>,
    kept: Map<u32, UserView>,
    f: F,
    p: spec_fn(UserView) -> bool,
)
    requires
        forall|u: User, b: bool| f.ensures((&u,), b) ==> b == p(u@),
        forall|id: u32|
            #[trigger] kept.contains_key(id) ==> utable.contains_key(id) && kept[id]
                == utable[id],
        forall|id: u32|
            #[trigger] kept.contains_key(id) ==> exists|u: User|
                u@ == utable[id] && f.ensures((&u,), true),
        forall|id: u32|
            utable.contains_key(id) && !(#[trigger] kept.contains_key(id)) ==> exists|u: User|
                u@ == utable[id] && f.ensures((&u,), false),
    ensures
        forall|id: u32|
            #[trigger] kept.contains_key(id) <==> utable.contains_key(id) && p(utable[id]),
{
    assert forall|id: u32| #[trigger] kept.contains_key(id) implies utable.contains_key(id) && p(
        utable[id],
    ) by {
        let u = choose|u: User| u@ == utable[id] && f.ensures((&u,), true);
        assert(p(u@));
    }
    assert forall|id: u32| utable.contains_key(id) && p(utable[id]) implies
        kept.contains_key(id) by {
        if !kept.contains_key(id) {
            let u = choose|u: User| u@ == utable[id] && f.ensures((&u,), false);
            assert(!p(u@));
        }
    }
}

/// Enumeration restartability for groups; see
/// [`lemma_user_enumeration_restartable`].
pub proof fn lemma_group_enumeration_restartable(
    s: UsersSnapshot,
    r1: Seq<GroupView>,
    r2: Seq<GroupView>,
)
    requires
        r1 == s.group_seq(),
        r2 == s.group_seq(),
    ensures
        r1 == r2,
        r1.to_multiset() == r2.to_multiset(),
{
}

} // verus!
