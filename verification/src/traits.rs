//! The capability traits shared by every identity provider.
//!
//! The lazy cache, the eager snapshot and the test double all answer the same
//! questions: a record by id, a record by name, the current and effective ids
//! and names, and (for the providers that can claim completeness) a full
//! enumeration.  Code that only asks those questions should be written
//! against these traits, so it runs over any of the three unchanged.
//!
//! Every provider carries an abstract model, an [`IdentityView`]: the user
//! and group tables it answers from, and the four current/effective ids.  All
//! contracts are stated against that model, and no operation ever changes it;
//! a lazy provider may mutate hidden internal state on any lookup, which is
//! why the lookup methods take `&mut self`.

use crate::records::{Group, GroupView, User, UserView};
use std::sync::Arc;
use vstd::prelude::*;

verus! {

/// The abstract state an identity provider answers from: one table per
/// domain, keyed by numeric id, and the four current/effective ids.
pub struct IdentityView {
    pub users: Map<u32, UserView>,
    pub groups: Map<u32, GroupView>,
    pub current_uid: u32,
    pub current_gid: u32,
    pub effective_uid: u32,
    pub effective_gid: u32,
}

impl IdentityView {
    /// Both tables key each record by its own numeric id.
    pub open spec fn keyed(self) -> bool {
        &&& forall|id: u32| self.users.contains_key(id) ==> (#[trigger] self.users[id]).uid == id
        &&& forall|id: u32|
            self.groups.contains_key(id) ==> (#[trigger] self.groups[id]).gid == id
    }

    /// No two users share a name.
    pub open spec fn user_names_unique(self) -> bool {
        forall|a: u32, b: u32|
            self.users.contains_key(a) && self.users.contains_key(b) && (
            #[trigger] self.users[a]).name == (#[trigger] self.users[b]).name ==> a == b
    }

    /// No two groups share a name.
    pub open spec fn group_names_unique(self) -> bool {
        forall|a: u32, b: u32|
            self.groups.contains_key(a) && self.groups.contains_key(b) && (
            #[trigger] self.groups[a]).name == (#[trigger] self.groups[b]).name ==> a == b
    }
}

/// An identity provider's abstract state and well-formedness predicate.  Both
/// are spec-only: each implementation says what its model is and what its
/// internal invariant demands.
pub trait IdentityModel: Sized {
    /// The tables and ids this provider answers from.
    spec fn model(&self) -> IdentityView;

    /// The provider's internal invariant.
    spec fn inv(&self) -> bool;

    /// A well-formed provider answers from tables that key each record by its
    /// own id.
    proof fn lemma_model_keyed(&self)
        requires
            self.inv(),
        ensures
            self.model().keyed(),
    ;
}

/// Producers of user records.
pub trait Users: IdentityModel {
    /// The user with the given id, or `None` if there is none.
    fn get_user_by_uid(&mut self, uid: u32) -> (r: Option<Arc<User>>)
        requires
            old(self).inv(),
        ensures
            final(self).inv(),
            final(self).model() == old(self).model(),
            r matches Some(u) ==> old(self).model().users.contains_key(uid) && u@ == old(
                self,
            ).model().users[uid],
            r is None ==> !old(self).model().users.contains_key(uid),
    ;

    /// A user with the given name, or `None` if there is none.
    fn get_user_by_name(&mut self, username: &str) -> (r: Option<Arc<User>>)
        requires
            old(self).inv(),
        ensures
            final(self).inv(),
            final(self).model() == old(self).model(),
            r matches Some(u) ==> old(self).model().users.contains_key(u@.uid) && u@ == old(
                self,
            ).model().users[u@.uid] && u@.name == username@,
            r is None ==> forall|id: u32|
                old(self).model().users.contains_key(id) ==> (
                #[trigger] old(self).model().users[id]).name != username@,
    ;

    /// The user id of the user running the process.
    fn get_current_uid(&mut self) -> (r: u32)
        requires
            old(self).inv(),
        ensures
            final(self).inv(),
            final(self).model() == old(self).model(),
            r == old(self).model().current_uid,
    ;

    /// The name of the user running the process, or `None` if that user has
    /// no record in the table.
    fn get_current_username(&mut self) -> (r: Option<String>)
        requires
            old(self).inv(),
        ensures
            final(self).inv(),
            final(self).model() == old(self).model(),
            r matches Some(n) ==> old(self).model().users.contains_key(
                old(self).model().current_uid,
            ) && n@ == old(self).model().users[old(self).model().current_uid].name,
            r is None ==> !old(self).model().users.contains_key(old(self).model().current_uid),
    ;

    /// The effective user id.
    fn get_effective_uid(&mut self) -> (r: u32)
        requires
            old(self).inv(),
        ensures
            final(self).inv(),
            final(self).model() == old(self).model(),
            r == old(self).model().effective_uid,
    ;

    /// The effective user's name, or `None` if that user has no record in the
    /// table.
    fn get_effective_username(&mut self) -> (r: Option<String>)
        requires
            old(self).inv(),
        ensures
            final(self).inv(),
            final(self).model() == old(self).model(),
            r matches Some(n) ==> old(self).model().users.contains_key(
                old(self).model().effective_uid,
            ) && n@ == old(self).model().users[old(self).model().effective_uid].name,
            r is None ==> !old(self).model().users.contains_key(old(self).model().effective_uid),
    ;
}

/// Producers of group records.
pub trait Groups: IdentityModel {
    /// The group with the given id, or `None` if there is none.
    fn get_group_by_gid(&mut self, gid: u32) -> (r: Option<Arc<Group>>)
        requires
            old(self).inv(),
        ensures
            final(self).inv(),
            final(self).model() == old(self).model(),
            r matches Some(g) ==> old(self).model().groups.contains_key(gid) && g@ == old(
                self,
            ).model().groups[gid],
            r is None ==> !old(self).model().groups.contains_key(gid),
    ;

    /// A group with the given name, or `None` if there is none.
    fn get_group_by_name(&mut self, group_name: &str) -> (r: Option<Arc<Group>>)
        requires
            old(self).inv(),
        ensures
            final(self).inv(),
            final(self).model() == old(self).model(),
            r matches Some(g) ==> old(self).model().groups.contains_key(g@.gid) && g@ == old(
                self,
            ).model().groups[g@.gid] && g@.name == group_name@,
            r is None ==> forall|id: u32|
                old(self).model().groups.contains_key(id) ==> (
                #[trigger] old(self).model().groups[id]).name != group_name@,
    ;

    /// The group id of the user running the process.
    fn get_current_gid(&mut self) -> (r: u32)
        requires
            old(self).inv(),
        ensures
            final(self).inv(),
            final(self).model() == old(self).model(),
            r == old(self).model().current_gid,
    ;

    /// The name of the current group, or `None` if that group has no record
    /// in the table.
    fn get_current_groupname(&mut self) -> (r: Option<String>)
        requires
            old(self).inv(),
        ensures
            final(self).inv(),
            final(self).model() == old(self).model(),
            r matches Some(n) ==> old(self).model().groups.contains_key(
                old(self).model().current_gid,
            ) && n@ == old(self).model().groups[old(self).model().current_gid].name,
            r is None ==> !old(self).model().groups.contains_key(old(self).model().current_gid),
    ;

    /// The effective group id.
    fn get_effective_gid(&mut self) -> (r: u32)
        requires
            old(self).inv(),
        ensures
            final(self).inv(),
            final(self).model() == old(self).model(),
            r == old(self).model().effective_gid,
    ;

    /// The effective group's name, or `None` if that group has no record in
    /// the table.
    fn get_effective_groupname(&mut self) -> (r: Option<String>)
        requires
            old(self).inv(),
        ensures
            final(self).inv(),
            final(self).model() == old(self).model(),
            r matches Some(n) ==> old(self).model().groups.contains_key(
                old(self).model().effective_gid,
            ) && n@ == old(self).model().groups[old(self).model().effective_gid].name,
            r is None ==> !old(self).model().groups.contains_key(old(self).model().effective_gid),
    ;
}

/// Providers that can enumerate every user they know of.  Only the eager
/// snapshot and the test double claim this capability: the lazy cache grows
/// on demand and can never claim completeness.
pub trait AllUsers: Users {
    /// Every user of the model, each exactly once, in unspecified order.
    fn get_all_users(&self) -> (r: Vec<Arc<User>>)
        requires
            self.inv(),
        ensures
            forall|i: int, j: int|
                0 <= i < j < r@.len() ==> (#[trigger] r@[i])@.uid != (#[trigger] r@[j])@.uid,
            forall|i: int|
                0 <= i < r@.len() ==> self.model().users.contains_key((#[trigger] r@[i])@.uid)
                    && self.model().users[r@[i]@.uid] == r@[i]@,
            forall|id: u32|
                self.model().users.contains_key(id) ==> exists|i: int|
                    0 <= i < r@.len() && (#[trigger] r@[i])@.uid == id,
    ;
}

/// Providers that can enumerate every group they know of.
pub trait AllGroups: Groups {
    /// Every group of the model, each exactly once, in unspecified order.
    fn get_all_groups(&self) -> (r: Vec<Arc<Group>>)
        requires
            self.inv(),
        ensures
            forall|i: int, j: int|
                0 <= i < j < r@.len() ==> (#[trigger] r@[i])@.gid != (#[trigger] r@[j])@.gid,
            forall|i: int|
                0 <= i < r@.len() ==> self.model().groups.contains_key((#[trigger] r@[i])@.gid)
                    && self.model().groups[r@[i]@.gid] == r@[i]@,
            forall|id: u32|
                self.model().groups.contains_key(id) ==> exists|i: int|
                    0 <= i < r@.len() && (#[trigger] r@[i])@.gid == id,
    ;
}

} // verus!
