//! The mock identity table, exercised through the capability traits.

use uzers::{AllGroups, AllUsers, Group, Groups, MockUsers, User, Users};

#[test]
fn current_username() {
    let mut users = MockUsers::with_current_uid(1337);
    users.add_user(User::new(1337, "fred", 101));
    assert_eq!(Some(String::from("fred")), users.get_current_username())
}

#[test]
fn no_current_username() {
    let mut users = MockUsers::with_current_uid(1337);
    assert_eq!(None, users.get_current_username())
}

#[test]
fn uid() {
    let mut users = MockUsers::with_current_uid(0);
    users.add_user(User::new(1337, "fred", 101));
    assert_eq!(
        Some(String::from("fred")),
        users.get_user_by_uid(1337).map(|u| u.name().to_string())
    )
}

#[test]
fn username() {
    let mut users = MockUsers::with_current_uid(1337);
    users.add_user(User::new(1440, "fred", 101));
    assert_eq!(Some(1440), users.get_user_by_name("fred").map(|u| u.uid()))
}

#[test]
fn no_username() {
    let mut users = MockUsers::with_current_uid(1337);
    users.add_user(User::new(1337, "fred", 101));
    assert_eq!(None, users.get_user_by_name("criminy").map(|u| u.uid()))
}

#[test]
fn no_uid() {
    let mut users = MockUsers::with_current_uid(0);
    assert_eq!(
        None,
        users.get_user_by_uid(1337).map(|u| u.name().to_string())
    )
}

#[test]
fn all_users() {
    let mut users = MockUsers::with_current_uid(1337);
    users.add_user(User::new(1337, "fred", 101));
    assert_eq!(
        vec![1337],
        users
            .get_all_users()
            .iter()
            .map(|u| u.uid())
            .collect::<Vec<_>>()
    )
}

#[test]
fn gid() {
    let mut users = MockUsers::with_current_uid(0);
    users.add_group(Group::new(1337, "fred"));
    assert_eq!(
        Some(String::from("fred")),
        users.get_group_by_gid(1337).map(|g| g.name().to_string())
    )
}

#[test]
fn group_name() {
    let mut users = MockUsers::with_current_uid(0);
    users.add_group(Group::new(1337, "fred"));
    assert_eq!(Some(1337), users.get_group_by_name("fred").map(|g| g.gid()))
}

#[test]
fn no_group_name() {
    let mut users = MockUsers::with_current_uid(0);
    users.add_group(Group::new(1337, "fred"));
    assert_eq!(None, users.get_group_by_name("santa").map(|g| g.gid()))
}

#[test]
fn no_gid() {
    let mut users = MockUsers::with_current_uid(0);
    assert_eq!(
        None,
        users.get_group_by_gid(1337).map(|g| g.name().to_string())
    )
}

#[test]
fn all_groups() {
    let mut users = MockUsers::with_current_uid(1337);
    users.add_group(Group::new(1337, "fred"));
    assert_eq!(
        vec![1337],
        users
            .get_all_groups()
            .iter()
            .map(|g| g.gid())
            .collect::<Vec<_>>()
    )
}

#[test]
fn gecos() {
    let mut users = MockUsers::with_current_uid(1337);
    users.add_user(User::new(1337, "fred", 101).with_gecos("Fred Santa"));

    assert_eq!(
        Some("Fred Santa".to_string()),
        users.get_user_by_uid(1337).map(|u| u.gecos().to_string())
    );
}

#[test]
fn no_gecos() {
    let mut users = MockUsers::with_current_uid(1337);
    users.add_user(User::new(1337, "fred", 101));

    assert_eq!(
        Some("".to_string()),
        users.get_user_by_uid(1337).map(|u| u.gecos().to_string())
    );
}

#[test]
fn mock_scenario_seeded_table() {
    let mut users = MockUsers::with_current_uid(1000);
    users.add_user(User::new(1000, "fred", 1000));
    users.add_group(Group::new(1000, "fred"));
    users.add_group(Group::new(0, "root"));

    assert_eq!(Some(String::from("fred")), users.get_current_username());
    assert_eq!(
        Some(String::from("fred")),
        users.get_user_by_uid(1000).map(|u| u.name().to_string())
    );
    assert!(users.get_user_by_name("nobody").is_none());

    let mut gids: Vec<u32> = users.get_all_groups().iter().map(|g| g.gid()).collect();
    gids.sort();
    assert_eq!(gids.len(), 2);
    assert_eq!(gids, vec![0, 1000]);
}

#[test]
fn mock_add_user_returns_previous_entry() {
    let mut users = MockUsers::with_current_uid(0);
    assert!(users.add_user(User::new(7, "one", 1)).is_none());
    let prev = users.add_user(User::new(7, "two", 2));
    assert_eq!(Some(7), prev.map(|u| u.uid()));
    assert_eq!(
        Some(String::from("two")),
        users.get_user_by_uid(7).map(|u| u.name().to_string())
    );
}
