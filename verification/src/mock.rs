//! A mockable identity database.
//!
//! Code under test should not depend on the users and groups that happen to
//! exist on the machine it runs on.  `MockUsers` is a small in-memory table
//! that can be seeded with exactly the records a test needs.  It implements
//! both sides of this crate's interfaces: the raw
//! [`IdentitySource`](crate::source::IdentitySource) interface, so either
//! cache can be built over it, and the capability traits of
//! [`traits`](crate::traits), so it can stand in for a cache directly.
//!
//! As an identity source it also counts the single-record queries made of it,
//! which lets a test observe that a cache did not go back to the database for
//! an answer it already had.

use crate::idmap::{assoc, keys_distinct, lemma_assoc_at, lemma_assoc_contains};
use crate::records::{arc_clone, arc_get, str_eq, Group, GroupView, User, UserView};
use crate::source::{next_count, IdentitySource};
use crate::traits::{AllGroups, AllUsers, Groups, IdentityModel, IdentityView, Users};
use std::sync::Arc;
use vstd::prelude::*;

verus! {

broadcast use vstd::string::group_string_axioms;

/// A mock identity table: users and groups added by the test, and a fixed
/// current user id that doubles as current and effective user and group id.
pub struct MockUsers {
    users: Vec<(u32, Arc<User>)>,
    groups: Vec<(u32, Arc<Group>)>,
    uid: u32,
    queries: u64,
}

impl MockUsers {
    /// The stored user table in storage order.
    pub closed spec fn user_entries(&self) -> Seq<(u32, UserView)> {
        self.users@.map_values(|p: (u32, Arc<User>)| (p.0, p.1@))
    }

    /// The stored group table in storage order.
    pub closed spec fn group_entries(&self) -> Seq<(u32, GroupView)> {
        self.groups@.map_values(|p: (u32, Arc<Group>)| (p.0, p.1@))
    }

    /// Create a new, empty mock table whose current (and effective) user and
    /// group id is the given one.
    pub fn with_current_uid(current_uid: u32) -> (r: MockUsers)
        ensures
            r.inv(),
            r.model() == (IdentityView {
                users: Map::<u32, UserView>::empty(),
                groups: Map::<u32, GroupView>::empty(),
                current_uid: current_uid,
                current_gid: current_uid,
                effective_uid: current_uid,
                effective_gid: current_uid,
            }),
            r.queries() == 0,
    {
        let r = MockUsers { users: Vec::new(), groups: Vec::new(), uid: current_uid, queries: 0 };
        proof {
            assert(r.user_entries() =~= Seq::<(u32, UserView)>::empty());
            assert(r.group_entries() =~= Seq::<(u32, GroupView)>::empty());
        }
        r
    }

    /// The storage position of a user id, if it has one.
    fn find_user(&self, uid: u32) -> (r: Option<usize>)
        ensures
            r matches Some(i) ==> i < self.user_entries().len() && self.user_entries()[
                i as int
            ].0 == uid,
            r is None ==> forall|i: int|
                0 <= i < self.user_entries().len() ==> (#[trigger] self.user_entries()[i]).0
                    != uid,
    {
        let n = self.users.len();
        let mut i: usize = 0;
        while i < n
            invariant
                i <= n,
                n == self.users@.len(),
                forall|j: int| 0 <= j < i ==> (#[trigger] self.user_entries()[j]).0 != uid,
            decreases n - i,
        {
            if self.users[i].0 == uid {
                assert(self.user_entries()[i as int].0 == uid);
                return Some(i);
            }
            assert(self.user_entries()[i as int].0 != uid);
            i += 1;
        }
        None
    }

    /// The storage position of a user name, if some user has it.
    fn find_user_by_name(&self, name: &str) -> (r: Option<usize>)
        ensures
            r matches Some(i) ==> i < self.user_entries().len() && self.user_entries()[
                i as int
            ].1.name == name@,
            r is None ==> forall|i: int|
                0 <= i < self.user_entries().len() ==> (#[trigger] self.user_entries()[i]).1.name
                    != name@,
    {
        let n = self.users.len();
        let mut i: usize = 0;
        while i < n
            invariant
                i <= n,
                n == self.users@.len(),
                forall|j: int| 0 <= j < i ==> (#[trigger] self.user_entries()[j]).1.name != name@,
            decreases n - i,
        {
            if str_eq(arc_get(&self.users[i].1).name(), name) {
                assert(self.user_entries()[i as int].1.name == name@);
                return Some(i);
            }
            assert(self.user_entries()[i as int].1.name != name@);
            i += 1;
        }
        None
    }

    /// The storage position of a group id, if it has one.
    fn find_group(&self, gid: u32) -> (r: Option<usize>)
        ensures
            r matches Some(i) ==> i < self.group_entries().len() && self.group_entries()[
                i as int
            ].0 == gid,
            r is None ==> forall|i: int|
                0 <= i < self.group_entries().len() ==> (#[trigger] self.group_entries()[i]).0
                    != gid,
    {
        let n = self.groups.len();
        let mut i: usize = 0;
        while i < n
            invariant
                i <= n,
                n == self.groups@.len(),
                forall|j: int| 0 <= j < i ==> (#[trigger] self.group_entries()[j]).0 != gid,
            decreases n - i,
        {
            if self.groups[i].0 == gid {
                assert(self.group_entries()[i as int].0 == gid);
                return Some(i);
            }
            assert(self.group_entries()[i as int].0 != gid);
            i += 1;
        }
        None
    }

    /// The storage position of a group name, if some group has it.
    fn find_group_by_name(&self, name: &str) -> (r: Option<usize>)
        ensures
            r matches Some(i) ==> i < self.group_entries().len() && self.group_entries()[
                i as int
            ].1.name == name@,
            r is None ==> forall|i: int|
                0 <= i < self.group_entries().len() ==> (#[trigger] self.group_entries()[
                    i
                ]).1.name != name@,
    {
        let n = self.groups.len();
        let mut i: usize = 0;
        while i < n
            invariant
                i <= n,
                n == self.groups@.len(),
                forall|j: int| 0 <= j < i ==> (#[trigger] self.group_entries()[j]).1.name
                    != name@,
            decreases n - i,
        {
            if str_eq(arc_get(&self.groups[i].1).name(), name) {
                assert(self.group_entries()[i as int].1.name == name@);
                return Some(i);
            }
            assert(self.group_entries()[i as int].1.name != name@);
            i += 1;
        }
        None
    }

    /// Add a user to the users table, returning the previously stored record
    /// for that id, if there was one.
    pub fn add_user(&mut self, user: User) -> (r: Option<Arc<User>>)
        requires
            old(self).inv(),
        ensures
            final(self).inv(),
            final(self).model() == (IdentityView {
                users: old(self).model().users.insert(user@.uid, user@),
                ..old(self).model()
            }),
            final(self).queries() == old(self).queries(),
            r matches Some(prev) ==> old(self).model().users.contains_key(user@.uid) && prev@
                == old(self).model().users[user@.uid],
            r is None ==> !old(self).model().users.contains_key(user@.uid),
    {
        let ghost pre = self.user_entries();
        let uid = user.uid();
        let result;
        match self.find_user(uid) {
            Some(i) => {
                let prev = arc_clone(&self.users[i].1);
                self.users[i] = (uid, Arc::new(user));
                proof {
                    assert(self.user_entries() =~= pre.update(i as int, (uid, user@)));
                    crate::idmap::lemma_assoc_update(pre, i as int, user@);
                    lemma_assoc_at(pre, i as int);
                }
                result = Some(prev);
            },
            None => {
                self.users.push((uid, Arc::new(user)));
                proof {
                    assert(self.user_entries() =~= pre.push((uid, user@)));
                    crate::idmap::lemma_push_distinct(pre, (uid, user@));
                    lemma_assoc_contains(pre, uid);
                }
                result = None;
            },
        }
        proof {
            assert(self.group_entries() =~= old(self).group_entries());
        }
        result
    }

    /// Add a group to the groups table, returning the previously stored
    /// record for that id, if there was one.
    pub fn add_group(&mut self, group: Group) -> (r: Option<Arc<Group>>)
        requires
            old(self).inv(),
        ensures
            final(self).inv(),
            final(self).model() == (IdentityView {
                groups: old(self).model().groups.insert(group@.gid, group@),
                ..old(self).model()
            }),
            final(self).queries() == old(self).queries(),
            r matches Some(prev) ==> old(self).model().groups.contains_key(group@.gid) && prev@
                == old(self).model().groups[group@.gid],
            r is None ==> !old(self).model().groups.contains_key(group@.gid),
    {
        let ghost pre = self.group_entries();
        let gid = group.gid();
        let result;
        match self.find_group(gid) {
            Some(i) => {
                let prev = arc_clone(&self.groups[i].1);
                self.groups[i] = (gid, Arc::new(group));
                proof {
                    assert(self.group_entries() =~= pre.update(i as int, (gid, group@)));
                    crate::idmap::lemma_assoc_update(pre, i as int, group@);
                    lemma_assoc_at(pre, i as int);
                }
                result = Some(prev);
            },
            None => {
                self.groups.push((gid, Arc::new(group)));
                proof {
                    assert(self.group_entries() =~= pre.push((gid, group@)));
                    crate::idmap::lemma_push_distinct(pre, (gid, group@));
                    lemma_assoc_contains(pre, gid);
                }
                result = None;
            },
        }
        proof {
            assert(self.user_entries() =~= old(self).user_entries());
        }
        result
    }

    /// How many single-record queries this table has answered through the
    /// identity-source interface.
    pub fn query_count(&self) -> (r: u64)
        ensures
            r == self.queries(),
    {
        self.queries
    }

    /// Count one more single-record query.
    fn bump(&mut self)
        ensures
            final(self).inv() == old(self).inv(),
            final(self).model() == old(self).model(),
            final(self).user_entries() == old(self).user_entries(),
            final(self).group_entries() == old(self).group_entries(),
            final(self).queries() == next_count(old(self).queries()),
    {
        if self.queries < u64::MAX {
            self.queries = self.queries + 1;
        }
    }
}

impl IdentityModel for MockUsers {
    closed spec fn model(&self) -> IdentityView {
        IdentityView {
            users: assoc(self.user_entries()),
            groups: assoc(self.group_entries()),
            current_uid: self.uid,
            current_gid: self.uid,
            effective_uid: self.uid,
            effective_gid: self.uid,
        }
    }

    closed spec fn inv(&self) -> bool {
        &&& keys_distinct(self.user_entries())
        &&& keys_distinct(self.group_entries())
        &&& forall|i: int|
            0 <= i < self.user_entries().len() ==> (#[trigger] self.user_entries()[i]).1.uid
                == self.user_entries()[i].0
        &&& forall|i: int|
            0 <= i < self.group_entries().len() ==> (#[trigger] self.group_entries()[i]).1.gid
                == self.group_entries()[i].0
    }

    proof fn lemma_model_keyed(&self) {
        let ue = self.user_entries();
        let ge = self.group_entries();
        assert forall|id: u32| self.model().users.contains_key(id) implies (
        #[trigger] self.model().users[id]).uid == id by {
            lemma_assoc_contains(ue, id);
            let i = choose|i: int| 0 <= i < ue.len() && (#[trigger] ue[i]).0 == id;
            lemma_assoc_at(ue, i);
        }
        assert forall|id: u32| self.model().groups.contains_key(id) implies (
        #[trigger] self.model().groups[id]).gid == id by {
            lemma_assoc_contains(ge, id);
            let i = choose|i: int| 0 <= i < ge.len() && (#[trigger] ge[i]).0 == id;
            lemma_assoc_at(ge, i);
        }
    }
}

impl IdentitySource for MockUsers {
    closed spec fn queries(&self) -> u64 {
        self.queries
    }

    fn lookup_user_by_id(&mut self, uid: u32) -> (r: Option<User>)
    {
        self.bump();
        match self.find_user(uid) {
            Some(i) => {
                proof {
                    lemma_assoc_at(self.user_entries(), i as int);
                }
                Some(arc_get(&self.users[i].1).duplicate())
            },
            None => {
                proof {
                    lemma_assoc_contains(self.user_entries(), uid);
                }
                None
            },
        }
    }

    fn lookup_user_by_name(&mut self, name: &str) -> (r: Option<User>)
    {
        self.bump();
        match self.find_user_by_name(name) {
            Some(i) => {
                proof {
                    lemma_assoc_at(self.user_entries(), i as int);
                }
                Some(arc_get(&self.users[i].1).duplicate())
            },
            None => {
                proof {
                    let ue = self.user_entries();
                    assert forall|id: u32| self.model().users.contains_key(id) implies (
                    #[trigger] self.model().users[id]).name != name@ by {
                        lemma_assoc_contains(ue, id);
                        let i = choose|i: int| 0 <= i < ue.len() && (#[trigger] ue[i]).0 == id;
                        lemma_assoc_at(ue, i);
                    }
                }
                None
            },
        }
    }

    fn enumerate_users(&mut self) -> (r: Vec<User>) {
        let n = self.users.len();
        let mut r: Vec<User> = Vec::new();
        let mut i: usize = 0;
        while i < n
            invariant
                i <= n,
                n == self.users@.len(),
                self.inv(),
                r@.len() == i,
                forall|j: int|
                    0 <= j < i ==> (#[trigger] r@[j])@ == self.user_entries()[j].1,
            decreases n - i,
        {
            r.push(arc_get(&self.users[i].1).duplicate());
            i += 1;
        }
        proof {
            let ue = self.user_entries();
            assert forall|a: int, b: int| 0 <= a < b < r@.len() implies (#[trigger] r@[a])@.uid
                != (#[trigger] r@[b])@.uid by {
                assert(ue[a].1.uid == ue[a].0);
                assert(ue[b].1.uid == ue[b].0);
            }
            assert forall|a: int| 0 <= a < r@.len() implies self.model().users.contains_key(
                (#[trigger] r@[a])@.uid,
            ) && self.model().users[r@[a]@.uid] == r@[a]@ by {
                assert(ue[a].1.uid == ue[a].0);
                lemma_assoc_at(ue, a);
            }
            assert forall|id: u32| self.model().users.contains_key(id) implies exists|a: int|
                0 <= a < r@.len() && (#[trigger] r@[a])@.uid == id by {
                lemma_assoc_contains(ue, id);
                let i0 = choose|i0: int| 0 <= i0 < ue.len() && (#[trigger] ue[i0]).0 == id;
                assert(r@[i0]@.uid == id);
            }
        }
        r
    }

    fn current_user_id(&mut self) -> (r: u32) {
        self.uid
    }

    fn effective_user_id(&mut self) -> (r: u32) {
        self.uid
    }

    fn lookup_group_by_id(&mut self, gid: u32) -> (r: Option<Group>)
    {
        self.bump();
        match self.find_group(gid) {
            Some(i) => {
                proof {
                    lemma_assoc_at(self.group_entries(), i as int);
                }
                Some(arc_get(&self.groups[i].1).duplicate())
            },
            None => {
                proof {
                    lemma_assoc_contains(self.group_entries(), gid);
                }
                None
            },
        }
    }

    fn lookup_group_by_name(&mut self, name: &str) -> (r: Option<Group>)
    {
        self.bump();
        match self.find_group_by_name(name) {
            Some(i) => {
                proof {
                    lemma_assoc_at(self.group_entries(), i as int);
                }
                Some(arc_get(&self.groups[i].1).duplicate())
            },
            None => {
                proof {
                    let ge = self.group_entries();
                    assert forall|id: u32| self.model().groups.contains_key(id) implies (
                    #[trigger] self.model().groups[id]).name != name@ by {
                        lemma_assoc_contains(ge, id);
                        let i = choose|i: int| 0 <= i < ge.len() && (#[trigger] ge[i]).0 == id;
                        lemma_assoc_at(ge, i);
                    }
                }
                None
            },
        }
    }

    fn enumerate_groups(&mut self) -> (r: Vec<Group>) {
        let n = self.groups.len();
        let mut r: Vec<Group> = Vec::new();
        let mut i: usize = 0;
        while i < n
            invariant
                i <= n,
                n == self.groups@.len(),
                self.inv(),
                r@.len() == i,
                forall|j: int|
                    0 <= j < i ==> (#[trigger] r@[j])@ == self.group_entries()[j].1,
            decreases n - i,
        {
            r.push(arc_get(&self.groups[i].1).duplicate());
            i += 1;
        }
        proof {
            let ge = self.group_entries();
            assert forall|a: int, b: int| 0 <= a < b < r@.len() implies (#[trigger] r@[a])@.gid
                != (#[trigger] r@[b])@.gid by {
                assert(ge[a].1.gid == ge[a].0);
                assert(ge[b].1.gid == ge[b].0);
            }
            assert forall|a: int| 0 <= a < r@.len() implies self.model().groups.contains_key(
                (#[trigger] r@[a])@.gid,
            ) && self.model().groups[r@[a]@.gid] == r@[a]@ by {
                assert(ge[a].1.gid == ge[a].0);
                lemma_assoc_at(ge, a);
            }
            assert forall|id: u32| self.model().groups.contains_key(id) implies exists|a: int|
                0 <= a < r@.len() && (#[trigger] r@[a])@.gid == id by {
                lemma_assoc_contains(ge, id);
                let i0 = choose|i0: int| 0 <= i0 < ge.len() && (#[trigger] ge[i0]).0 == id;
                assert(r@[i0]@.gid == id);
            }
        }
        r
    }

    fn current_group_id(&mut self) -> (r: u32) {
        self.uid
    }

    fn effective_group_id(&mut self) -> (r: u32) {
        self.uid
    }
}

impl Users for MockUsers {
    fn get_user_by_uid(&mut self, uid: u32) -> (r: Option<Arc<User>>) {
        match self.find_user(uid) {
            Some(i) => {
                proof {
                    lemma_assoc_at(self.user_entries(), i as int);
                }
                Some(arc_clone(&self.users[i].1))
            },
            None => {
                proof {
                    lemma_assoc_contains(self.user_entries(), uid);
                }
                None
            },
        }
    }

    fn get_user_by_name(&mut self, username: &str) -> (r: Option<Arc<User>>) {
        match self.find_user_by_name(username) {
            Some(i) => {
                proof {
                    lemma_assoc_at(self.user_entries(), i as int);
                }
                Some(arc_clone(&self.users[i].1))
            },
            None => {
                proof {
                    let ue = self.user_entries();
                    assert forall|id: u32| self.model().users.contains_key(id) implies (
                    #[trigger] self.model().users[id]).name != username@ by {
                        lemma_assoc_contains(ue, id);
                        let i = choose|i: int| 0 <= i < ue.len() && (#[trigger] ue[i]).0 == id;
                        lemma_assoc_at(ue, i);
                    }
                }
                None
            },
        }
    }

    fn get_current_uid(&mut self) -> (r: u32) {
        self.uid
    }

    fn get_current_username(&mut self) -> (r: Option<String>) {
        let uid = self.uid;
        match self.find_user(uid) {
            Some(i) => {
                proof {
                    lemma_assoc_at(self.user_entries(), i as int);
                }
                Some(arc_get(&self.users[i].1).name().to_string())
            },
            None => {
                proof {
                    lemma_assoc_contains(self.user_entries(), uid);
                }
                None
            },
        }
    }

    fn get_effective_uid(&mut self) -> (r: u32) {
        self.uid
    }

    fn get_effective_username(&mut self) -> (r: Option<String>) {
        let uid = self.uid;
        match self.find_user(uid) {
            Some(i) => {
                proof {
                    lemma_assoc_at(self.user_entries(), i as int);
                }
                Some(arc_get(&self.users[i].1).name().to_string())
            },
            None => {
                proof {
                    lemma_assoc_contains(self.user_entries(), uid);
                }
                None
            },
        }
    }
}

impl Groups for MockUsers {
    fn get_group_by_gid(&mut self, gid: u32) -> (r: Option<Arc<Group>>) {
        match self.find_group(gid) {
            Some(i) => {
                proof {
                    lemma_assoc_at(self.group_entries(), i as int);
                }
                Some(arc_clone(&self.groups[i].1))
            },
            None => {
                proof {
                    lemma_assoc_contains(self.group_entries(), gid);
                }
                None
            },
        }
    }

    fn get_group_by_name(&mut self, group_name: &str) -> (r: Option<Arc<Group>>) {
        match self.find_group_by_name(group_name) {
            Some(i) => {
                proof {
                    lemma_assoc_at(self.group_entries(), i as int);
                }
                Some(arc_clone(&self.groups[i].1))
            },
            None => {
                proof {
                    let ge = self.group_entries();
                    assert forall|id: u32| self.model().groups.contains_key(id) implies (
                    #[trigger] self.model().groups[id]).name != group_name@ by {
                        lemma_assoc_contains(ge, id);
                        let i = choose|i: int| 0 <= i < ge.len() && (#[trigger] ge[i]).0 == id;
                        lemma_assoc_at(ge, i);
                    }
                }
                None
            },
        }
    }

    fn get_current_gid(&mut self) -> (r: u32) {
        self.uid
    }

    fn get_current_groupname(&mut self) -> (r: Option<String>) {
        let gid = self.uid;
        match self.find_group(gid) {
            Some(i) => {
                proof {
                    lemma_assoc_at(self.group_entries(), i as int);
                }
                Some(arc_get(&self.groups[i].1).name().to_string())
            },
            None => {
                proof {
                    lemma_assoc_contains(self.group_entries(), gid);
                }
                None
            },
        }
    }

    fn get_effective_gid(&mut self) -> (r: u32) {
        self.uid
    }

    fn get_effective_groupname(&mut self) -> (r: Option<String>) {
        let gid = self.uid;
        match self.find_group(gid) {
            Some(i) => {
                proof {
                    lemma_assoc_at(self.group_entries(), i as int);
                }
                Some(arc_get(&self.groups[i].1).name().to_string())
            },
            None => {
                proof {
                    lemma_assoc_contains(self.group_entries(), gid);
                }
                None
            },
        }
    }
}

impl AllUsers for MockUsers {
    fn get_all_users(&self) -> (r: Vec<Arc<User>>) {
        let n = self.users.len();
        let mut r: Vec<Arc<User>> = Vec::new();
        let mut i: usize = 0;
        while i < n
            invariant
                i <= n,
                n == self.users@.len(),
                self.inv(),
                r@.len() == i,
                forall|j: int| 0 <= j < i ==> (#[trigger] r@[j])@ == self.user_entries()[j].1,
            decreases n - i,
        {
            r.push(arc_clone(&self.users[i].1));
            i += 1;
        }
        proof {
            let ue = self.user_entries();
            assert forall|a: int, b: int| 0 <= a < b < r@.len() implies (#[trigger] r@[a])@.uid
                != (#[trigger] r@[b])@.uid by {
                assert(ue[a].1.uid == ue[a].0);
                assert(ue[b].1.uid == ue[b].0);
            }
            assert forall|a: int| 0 <= a < r@.len() implies self.model().users.contains_key(
                (#[trigger] r@[a])@.uid,
            ) && self.model().users[r@[a]@.uid] == r@[a]@ by {
                assert(ue[a].1.uid == ue[a].0);
                lemma_assoc_at(ue, a);
            }
            assert forall|id: u32| self.model().users.contains_key(id) implies exists|a: int|
                0 <= a < r@.len() && (#[trigger] r@[a])@.uid == id by {
                lemma_assoc_contains(ue, id);
                let i0 = choose|i0: int| 0 <= i0 < ue.len() && (#[trigger] ue[i0]).0 == id;
                assert(r@[i0]@.uid == id);
            }
        }
        r
    }
}

impl AllGroups for MockUsers {
    fn get_all_groups(&self) -> (r: Vec<Arc<Group>>) {
        let n = self.groups.len();
        let mut r: Vec<Arc<Group>> = Vec::new();
        let mut i: usize = 0;
        while i < n
            invariant
                i <= n,
                n == self.groups@.len(),
                self.inv(),
                r@.len() == i,
                forall|j: int| 0 <= j < i ==> (#[trigger] r@[j])@ == self.group_entries()[j].1,
            decreases n - i,
        {
            r.push(arc_clone(&self.groups[i].1));
            i += 1;
        }
        proof {
            let ge = self.group_entries();
            assert forall|a: int, b: int| 0 <= a < b < r@.len() implies (#[trigger] r@[a])@.gid
                != (#[trigger] r@[b])@.gid by {
                assert(ge[a].1.gid == ge[a].0);
                assert(ge[b].1.gid == ge[b].0);
            }
            assert forall|a: int| 0 <= a < r@.len() implies self.model().groups.contains_key(
                (#[trigger] r@[a])@.gid,
            ) && self.model().groups[r@[a]@.gid] == r@[a]@ by {
                assert(ge[a].1.gid == ge[a].0);
                lemma_assoc_at(ge, a);
            }
            assert forall|id: u32| self.model().groups.contains_key(id) implies exists|a: int|
                0 <= a < r@.len() && (#[trigger] r@[a])@.gid == id by {
                lemma_assoc_contains(ge, id);
                let i0 = choose|i0: int| 0 <= i0 < ge.len() && (#[trigger] ge[i0]).0 == id;
                assert(r@[i0]@.gid == id);
            }
        }
        r
    }
}

} // verus!
