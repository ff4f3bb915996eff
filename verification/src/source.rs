//! The abstract identity source: the raw, possibly expensive query interface
//! that the caches shield their callers from.
//!
//! A source answers single-record queries by id or name, enumerates a whole
//! domain, and reports the current and effective ids.  The caches only ever
//! talk to the database through this interface, so the same cache logic runs
//! over the operating system's tables (an implementation outside this crate)
//! and over the [`MockUsers`](crate::mock::MockUsers) test double alike.
//!
//! Every query answers from the source's fixed abstract model and leaves that
//! model unchanged; a query may still take `&mut self` so that an
//! implementation can keep private bookkeeping, such as the test double's
//! query counter.

use crate::records::{Group, User};
use crate::traits::IdentityModel;
use vstd::prelude::*;

verus! {

/// A saturating query counter after one more query: the count sticks at its
/// ceiling rather than wrapping.
pub open spec fn next_count(n: u64) -> u64 {
    if n < u64::MAX {
        (n + 1) as u64
    } else {
        n
    }
}

/// The raw query interface of an identity database.
pub trait IdentitySource: IdentityModel {
    /// How many single-record queries (by id or by name, either domain) this
    /// source has answered.  Enumerations and id reads do not count.
    spec fn queries(&self) -> u64;

    /// The user with the given id, or `None` if the table has none.
    fn lookup_user_by_id(&mut self, uid: u32) -> (r: Option<User>)
        requires
            old(self).inv(),
        ensures
            final(self).inv(),
            final(self).model() == old(self).model(),
            final(self).queries() == next_count(old(self).queries()),
            r matches Some(u) ==> old(self).model().users.contains_key(uid) && u@ == old(
                self,
            ).model().users[uid],
            r is None ==> !old(self).model().users.contains_key(uid),
    ;

    /// A user with the given name, or `None` if the table has none.
    fn lookup_user_by_name(&mut self, name: &str) -> (r: Option<User>)
        requires
            old(self).inv(),
        ensures
            final(self).inv(),
            final(self).model() == old(self).model(),
            final(self).queries() == next_count(old(self).queries()),
            r matches Some(u) ==> old(self).model().users.contains_key(u@.uid) && u@ == old(
                self,
            ).model().users[u@.uid] && u@.name == name@,
            r is None ==> forall|id: u32|
                old(self).model().users.contains_key(id) ==> (
                #[trigger] old(self).model().users[id]).name != name@,
    ;

    /// Every user of the table, each exactly once, in unspecified order.
    fn enumerate_users(&mut self) -> (r: Vec<User>)
        requires
            old(self).inv(),
        ensures
            final(self).inv(),
            final(self).model() == old(self).model(),
            final(self).queries() == old(self).queries(),
            forall|i: int, j: int|
                0 <= i < j < r@.len() ==> (#[trigger] r@[i])@.uid != (#[trigger] r@[j])@.uid,
            forall|i: int|
                0 <= i < r@.len() ==> old(self).model().users.contains_key(
                    (#[trigger] r@[i])@.uid,
                ) && old(self).model().users[r@[i]@.uid] == r@[i]@,
            forall|id: u32|
                old(self).model().users.contains_key(id) ==> exists|i: int|
                    0 <= i < r@.len() && (#[trigger] r@[i])@.uid == id,
    ;

    /// The user id of the user running the process.
    fn current_user_id(&mut self) -> (r: u32)
        requires
            old(self).inv(),
        ensures
            final(self).inv(),
            final(self).model() == old(self).model(),
            final(self).queries() == old(self).queries(),
            r == old(self).model().current_uid,
    ;

    /// The effective user id of the process.
    fn effective_user_id(&mut self) -> (r: u32)
        requires
            old(self).inv(),
        ensures
            final(self).inv(),
            final(self).model() == old(self).model(),
            final(self).queries() == old(self).queries(),
            r == old(self).model().effective_uid,
    ;

    /// The group with the given id, or `None` if the table has none.
    fn lookup_group_by_id(&mut self, gid: u32) -> (r: Option<Group>)
        requires
            old(self).inv(),
        ensures
            final(self).inv(),
            final(self).model() == old(self).model(),
            final(self).queries() == next_count(old(self).queries()),
            r matches Some(g) ==> old(self).model().groups.contains_key(gid) && g@ == old(
                self,
            ).model().groups[gid],
            r is None ==> !old(self).model().groups.contains_key(gid),
    ;

    /// A group with the given name, or `None` if the table has none.
    fn lookup_group_by_name(&mut self, name: &str) -> (r: Option<Group>)
        requires
            old(self).inv(),
        ensures
            final(self).inv(),
            final(self).model() == old(self).model(),
            final(self).queries() == next_count(old(self).queries()),
            r matches Some(g) ==> old(self).model().groups.contains_key(g@.gid) && g@ == old(
                self,
            ).model().groups[g@.gid] && g@.name == name@,
            r is None ==> forall|id: u32|
                old(self).model().groups.contains_key(id) ==> (
                #[trigger] old(self).model().groups[id]).name != name@,
    ;

    /// Every group of the table, each exactly once, in unspecified order.
    fn enumerate_groups(&mut self) -> (r: Vec<Group>)
        requires
            old(self).inv(),
        ensures
            final(self).inv(),
            final(self).model() == old(self).model(),
            final(self).queries() == old(self).queries(),
            forall|i: int, j: int|
                0 <= i < j < r@.len() ==> (#[trigger] r@[i])@.gid != (#[trigger] r@[j])@.gid,
            forall|i: int|
                0 <= i < r@.len() ==> old(self).model().groups.contains_key(
                    (#[trigger] r@[i])@.gid,
                ) && old(self).model().groups[r@[i]@.gid] == r@[i]@,
            forall|id: u32|
                old(self).model().groups.contains_key(id) ==> exists|i: int|
                    0 <= i < r@.len() && (#[trigger] r@[i])@.gid == id,
    ;

    /// The group id of the user running the process.
    fn current_group_id(&mut self) -> (r: u32)
        requires
            old(self).inv(),
        ensures
            final(self).inv(),
            final(self).model() == old(self).model(),
            final(self).queries() == old(self).queries(),
            r == old(self).model().current_gid,
    ;

    /// The effective group id of the process.
    fn effective_group_id(&mut self) -> (r: u32)
        requires
            old(self).inv(),
        ensures
            final(self).inv(),
            final(self).model() == old(self).model(),
            final(self).queries() == old(self).queries(),
            r == old(self).model().effective_gid,
    ;
}

} // verus!
