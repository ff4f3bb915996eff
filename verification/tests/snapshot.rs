//! The eager snapshot: point lookups, filtered construction, and restartable
//! enumeration.

use uzers::{AllGroups, AllUsers, Group, Groups, MockUsers, User, Users, UsersSnapshot};

fn seeded_source() -> MockUsers {
    let mut source = MockUsers::with_current_uid(1000);
    source.add_user(User::new(0, "root", 0));
    source.add_user(User::new(1000, "fred", 1000));
    source.add_user(User::new(1001, "barney", 1000));
    source.add_group(Group::new(0, "root"));
    source.add_group(Group::new(1000, "fred"));
    source.add_group(Group::new(50, "staff"));
    source
}

#[test]
fn snapshot_holds_every_record() {
    let mut source = seeded_source();
    let mut snap = UsersSnapshot::new(&mut source);
    assert_eq!(3, snap.get_all_users().len());
    assert_eq!(3, snap.get_all_groups().len());
    assert_eq!(
        Some(String::from("fred")),
        snap.get_user_by_uid(1000).map(|u| u.name().to_string())
    );
    assert_eq!(
        Some(0),
        snap.get_user_by_name("root").map(|u| u.uid())
    );
    assert_eq!(
        Some(String::from("staff")),
        snap.get_group_by_gid(50).map(|g| g.name().to_string())
    );
    assert_eq!(Some(50), snap.get_group_by_name("staff").map(|g| g.gid()));
    assert!(snap.get_user_by_uid(42).is_none());
    assert!(snap.get_user_by_name("nobody").is_none());
    assert_eq!(1000, snap.get_current_uid());
    assert_eq!(Some(String::from("fred")), snap.get_current_username());
}

#[test]
fn snapshot_lookups_never_query_the_source() {
    let mut source = seeded_source();
    let mut snap = UsersSnapshot::new(&mut source);
    let before = source.query_count();
    snap.get_user_by_uid(1000);
    snap.get_user_by_uid(42);
    snap.get_user_by_name("nobody");
    snap.get_group_by_gid(0);
    assert_eq!(before, source.query_count());
}

#[test]
fn enumeration_is_restartable() {
    let mut source = seeded_source();
    let snap = UsersSnapshot::new(&mut source);
    let mut first: Vec<u32> = snap.get_all_users().iter().map(|u| u.uid()).collect();
    let mut second: Vec<u32> = snap.get_all_users().iter().map(|u| u.uid()).collect();
    first.sort();
    second.sort();
    assert_eq!(first, second);
    assert_eq!(first, vec![0, 1000, 1001]);
}

#[test]
fn only_users_keeps_matching_users_and_their_primary_groups() {
    let mut source = seeded_source();
    let mut snap = UsersSnapshot::only_users(&mut source, |u: &User| u.uid() >= 1000);
    let mut uids: Vec<u32> = snap.get_all_users().iter().map(|u| u.uid()).collect();
    uids.sort();
    assert_eq!(uids, vec![1000, 1001]);
    // Both kept users have primary group 1000; root's group 0 and the
    // unreferenced group 50 are dropped.
    let gids: Vec<u32> = snap.get_all_groups().iter().map(|g| g.gid()).collect();
    assert_eq!(gids, vec![1000]);
    assert!(snap.get_group_by_gid(0).is_none());
    assert!(snap.get_group_by_gid(50).is_none());
    assert!(snap.get_user_by_uid(0).is_none());
}

#[test]
fn only_users_drops_missing_primary_groups() {
    let mut source = MockUsers::with_current_uid(1);
    source.add_user(User::new(1, "a", 77));
    source.add_group(Group::new(5, "other"));
    let snap = UsersSnapshot::only_users(&mut source, |_u: &User| true);
    // The primary group 77 does not exist on the system, so no group at all
    // is included.
    assert_eq!(0, snap.get_all_groups().len());
}

#[test]
fn filtered_applies_both_filters() {
    let mut source = seeded_source();
    let mut snap = UsersSnapshot::filtered(
        &mut source,
        |u: &User| u.uid() < 1001,
        |g: &Group| g.gid() == 50,
    );
    let mut uids: Vec<u32> = snap.get_all_users().iter().map(|u| u.uid()).collect();
    uids.sort();
    assert_eq!(uids, vec![0, 1000]);
    let gids: Vec<u32> = snap.get_all_groups().iter().map(|g| g.gid()).collect();
    assert_eq!(gids, vec![50]);
    assert!(snap.get_user_by_uid(1001).is_none());
    assert!(snap.get_group_by_name("fred").is_none());
}

#[test]
fn snapshot_of_empty_source_is_empty() {
    let mut source = MockUsers::with_current_uid(77);
    let mut snap = UsersSnapshot::new(&mut source);
    assert_eq!(0, snap.get_all_users().len());
    assert_eq!(0, snap.get_all_groups().len());
    assert!(snap.get_user_by_uid(77).is_none());
    assert!(snap.get_group_by_name("root").is_none());
    assert_eq!(77, snap.get_current_uid());
    assert_eq!(77, snap.get_effective_gid());
    assert_eq!(None, snap.get_current_groupname());
}

#[test]
fn snapshot_resolves_effective_names() {
    let mut source = seeded_source();
    let mut snap = UsersSnapshot::new(&mut source);
    assert_eq!(Some(String::from("fred")), snap.get_effective_username());
    assert_eq!(Some(String::from("fred")), snap.get_current_groupname());
    assert_eq!(Some(String::from("fred")), snap.get_effective_groupname());
}

#[test]
fn filtered_snapshot_may_lose_the_current_user() {
    let mut source = seeded_source();
    let mut snap = UsersSnapshot::filtered(
        &mut source,
        |u: &User| u.uid() == 0,
        |_g: &Group| true,
    );
    // The current uid was captured, but its record was filtered out.
    assert_eq!(1000, snap.get_current_uid());
    assert_eq!(None, snap.get_current_username());
    assert_eq!(None, snap.get_effective_username());
}
