//! The record types and the bidirectional id/name map.

use std::sync::Arc;
use uzers::{Group, IdNameMap, User};

#[test]
fn user_builders_fill_the_fields() {
    let user = User::new(1337, "fred", 42)
        .with_gecos("Fred Santa")
        .with_home_dir("/home/fred");
    assert_eq!(1337, user.uid());
    assert_eq!("fred", user.name());
    assert_eq!(42, user.primary_group_id());
    assert_eq!("Fred Santa", user.gecos());
    assert_eq!("/home/fred", user.home_dir());
}

#[test]
fn new_user_has_empty_text_fields() {
    let user = User::new(1, "a", 2);
    assert_eq!("", user.gecos());
    assert_eq!("", user.home_dir());
}

#[test]
fn group_carries_id_and_name() {
    let group = Group::new(42, "bosses");
    assert_eq!(42, group.gid());
    assert_eq!("bosses", group.name());
}

#[test]
fn duplicate_copies_every_field() {
    let user = User::new(9, "x", 10).with_gecos("g").with_home_dir("/h");
    let copy = user.duplicate();
    assert_eq!(user.uid(), copy.uid());
    assert_eq!(user.name(), copy.name());
    assert_eq!(user.primary_group_id(), copy.primary_group_id());
    assert_eq!(user.gecos(), copy.gecos());
    assert_eq!(user.home_dir(), copy.home_dir());
}

#[test]
fn id_name_map_serves_both_directions() {
    let mut map: IdNameMap<User> = IdNameMap::empty();
    map.insert(7, String::from("seven"), Arc::new(User::new(7, "seven", 7)));
    let entry = map.get_by_id(7).expect("id stored");
    assert_eq!(
        Some(String::from("seven")),
        entry.map(|a| a.name().to_string())
    );
    assert_eq!(Some(Some(7)), map.get_by_name("seven"));
    assert!(map.get_by_id(8).is_none());
    assert!(map.get_by_name("eight").is_none());
}

#[test]
fn id_name_map_insert_overwrites() {
    let mut map: IdNameMap<User> = IdNameMap::empty();
    map.insert(7, String::from("old"), Arc::new(User::new(7, "old", 7)));
    map.insert(7, String::from("new"), Arc::new(User::new(7, "new", 7)));
    let entry = map.get_by_id(7).expect("id stored").expect("positive");
    assert_eq!("new", entry.name());
    assert_eq!(Some(Some(7)), map.get_by_name("new"));
    // The stale name entry still points at the id; the map itself never
    // removes entries.
    assert_eq!(Some(Some(7)), map.get_by_name("old"));
}
