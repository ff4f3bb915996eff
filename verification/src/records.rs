//! The user and group records that the caches store and hand out.
//!
//! A record is immutable once resolved: the caches never change one, they only
//! share it.  Sharing happens through `Arc`, so the cache's own table and every
//! caller hold the very same record without copying.

use std::sync::Arc;
use vstd::prelude::*;

verus! {

broadcast use vstd::string::group_string_axioms;

/// The mathematical value of a [`User`] record.
pub struct UserView {
    pub uid: u32,
    pub primary_group: u32,
    pub name: Seq<char>,
    pub gecos: Seq<char>,
    pub home_dir: Seq<char>,
}

/// The mathematical value of a [`Group`] record.
pub struct GroupView {
    pub gid: u32,
    pub name: Seq<char>,
}

/// A user record: numeric id, login name, primary group, and the free-text
/// fields carried along from the database.
pub struct User {
    uid: u32,
    primary_group: u32,
    name: String,
    gecos: String,
    home_dir: String,
}

impl View for User {
    type V = UserView;

    closed spec fn view(&self) -> UserView {
        UserView {
            uid: self.uid,
            primary_group: self.primary_group,
            name: self.name@,
            gecos: self.gecos@,
            home_dir: self.home_dir@,
        }
    }
}

impl User {
    /// Makes a record with the given id, login name and primary group id; the
    /// free-text fields start out empty.
    pub fn new(uid: u32, name: &str, primary_group: u32) -> (r: User)
        ensures
            r@.uid == uid,
            r@.name == name@,
            r@.primary_group == primary_group,
            r@.gecos == Seq::<char>::empty(),
            r@.home_dir == Seq::<char>::empty(),
    {
        User {
            uid,
            primary_group,
            name: name.to_string(),
            gecos: String::new(),
            home_dir: String::new(),
        }
    }

    /// The same record with the gecos field replaced.
    pub fn with_gecos(self, gecos: &str) -> (r: User)
        ensures
            r@ == (UserView { gecos: gecos@, ..self@ }),
    {
        User { gecos: gecos.to_string(), ..self }
    }

    /// The same record with the home directory replaced.
    pub fn with_home_dir(self, home_dir: &str) -> (r: User)
        ensures
            r@ == (UserView { home_dir: home_dir@, ..self@ }),
    {
        User { home_dir: home_dir.to_string(), ..self }
    }

    /// The numeric user id.
    pub fn uid(&self) -> (r: u32)
        ensures
            r == self@.uid,
    {
        self.uid
    }

    /// The numeric id of the user's primary group.
    pub fn primary_group_id(&self) -> (r: u32)
        ensures
            r == self@.primary_group,
    {
        self.primary_group
    }

    /// The login name.
    pub fn name(&self) -> (r: &str)
        ensures
            r@ == self@.name,
    {
        self.name.as_str()
    }

    /// The gecos (real name / comment) field.
    pub fn gecos(&self) -> (r: &str)
        ensures
            r@ == self@.gecos,
    {
        self.gecos.as_str()
    }

    /// The home directory.
    pub fn home_dir(&self) -> (r: &str)
        ensures
            r@ == self@.home_dir,
    {
        self.home_dir.as_str()
    }

    /// An owned copy of the record, equal to the original in every field.
    pub fn duplicate(&self) -> (r: User)
        ensures
            r == *self,
    {
        User {
            uid: self.uid,
            primary_group: self.primary_group,
            name: self.name.clone(),
            gecos: self.gecos.clone(),
            home_dir: self.home_dir.clone(),
        }
    }
}

/// A group record: numeric id and name.
pub struct Group {
    gid: u32,
    name: String,
}

impl View for Group {
    type V = GroupView;

    closed spec fn view(&self) -> GroupView {
        GroupView { gid: self.gid, name: self.name@ }
    }
}

impl Group {
    /// Makes a record with the given id and name.
    pub fn new(gid: u32, name: &str) -> (r: Group)
        ensures
            r@.gid == gid,
            r@.name == name@,
    {
        Group { gid, name: name.to_string() }
    }

    /// The numeric group id.
    pub fn gid(&self) -> (r: u32)
        ensures
            r == self@.gid,
    {
        self.gid
    }

    /// The group name.
    pub fn name(&self) -> (r: &str)
        ensures
            r@ == self@.name,
    {
        self.name.as_str()
    }

    /// An owned copy of the record, equal to the original in every field.
    pub fn duplicate(&self) -> (r: Group)
        ensures
            r == *self,
    {
        Group { gid: self.gid, name: self.name.clone() }
    }
}

/// Content equality of two string slices.
pub(crate) fn str_eq(a: &str, b: &str) -> (r: bool)
    ensures
        r == (a@ == b@),
{
    let sa: String = a.to_string();
    let sb: String = b.to_string();
    sa == sb
}

/// Relies on `Arc::clone` from std: the clone shares the same allocation, so
/// it refers to the very same record as the original handle.
#[verifier::external_body]
pub(crate) fn arc_clone<T>(a: &Arc<T>) -> (r: Arc<T>)
    ensures
        r == *a,
{
    Arc::clone(a)
}

/// Relies on `Arc`'s `Deref` impl from std: borrowing through the handle
/// yields the record the handle was made from.
#[verifier::external_body]
pub(crate) fn arc_get<'a, T>(a: &'a Arc<T>) -> (r: &'a T)
    ensures
        *r == **a,
{
    a.as_ref()
}

} // verus!
