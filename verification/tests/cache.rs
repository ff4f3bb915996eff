//! The lazy cache over the mock identity source: idempotence, negative
//! caching, cross-reference consistency, and the scalar id caches.

use std::sync::Arc;
use uzers::{Group, Groups, MockUsers, User, Users, UsersCache};

fn seeded_source() -> MockUsers {
    let mut source = MockUsers::with_current_uid(1000);
    source.add_user(User::new(1000, "fred", 1000));
    source.add_user(User::new(1001, "barney", 1001));
    source.add_group(Group::new(1000, "fred"));
    source.add_group(Group::new(0, "root"));
    source
}

#[test]
fn lookup_by_id_is_idempotent() {
    let mut cache = UsersCache::new(seeded_source());
    let first = cache.get_user_by_uid(1000).expect("user should resolve");
    let second = cache.get_user_by_uid(1000).expect("user should resolve");
    // The two handles refer to the identical record instance.
    assert!(Arc::ptr_eq(&first, &second));
}

#[test]
fn lookup_by_id_queries_source_once() {
    let mut cache = UsersCache::new(seeded_source());
    cache.get_user_by_uid(1000);
    cache.get_user_by_uid(1000);
    cache.get_user_by_uid(1000);
    assert_eq!(1, cache.source().query_count());
}

#[test]
fn negative_result_is_cached() {
    let source = MockUsers::with_current_uid(1000);
    let mut cache = UsersCache::new(source);
    assert!(cache.get_user_by_uid(1337).is_none());
    assert!(cache.get_user_by_uid(1337).is_none());
    // The underlying query ran exactly once; the second miss was served from
    // the cache's negative entry.
    assert_eq!(1, cache.source().query_count());
}

#[test]
fn cross_reference_consistency() {
    let mut cache = UsersCache::new(seeded_source());
    let by_id = cache.get_user_by_uid(1000).expect("user should resolve");
    let by_name = cache
        .get_user_by_name(by_id.name())
        .expect("name should resolve");
    assert!(Arc::ptr_eq(&by_id, &by_name));
    // And the name lookup was answered from the cache, not the source.
    assert_eq!(1, cache.source().query_count());
}

#[test]
fn name_lookup_populates_forward_table() {
    let mut cache = UsersCache::new(seeded_source());
    let by_name = cache.get_user_by_name("barney").expect("name resolves");
    assert_eq!(1001, by_name.uid());
    let by_id = cache.get_user_by_uid(1001).expect("id now cached");
    assert!(Arc::ptr_eq(&by_name, &by_id));
    assert_eq!(1, cache.source().query_count());
}

#[test]
fn negative_name_lookup_is_cached() {
    let mut cache = UsersCache::new(seeded_source());
    assert!(cache.get_user_by_name("nobody").is_none());
    assert!(cache.get_user_by_name("nobody").is_none());
    assert_eq!(1, cache.source().query_count());
}

#[test]
fn group_lookups_are_cached() {
    let mut cache = UsersCache::new(seeded_source());
    let first = cache.get_group_by_gid(0).expect("group resolves");
    let second = cache.get_group_by_gid(0).expect("group resolves");
    assert!(Arc::ptr_eq(&first, &second));
    assert_eq!("root", first.name());
    let by_name = cache.get_group_by_name("root").expect("name resolves");
    assert!(Arc::ptr_eq(&first, &by_name));
    assert_eq!(1, cache.source().query_count());
}

#[test]
fn no_group_is_cached_negatively() {
    let mut cache = UsersCache::new(seeded_source());
    assert!(cache.get_group_by_gid(42).is_none());
    assert!(cache.get_group_by_gid(42).is_none());
    assert!(cache.get_group_by_name("santa").is_none());
    assert!(cache.get_group_by_name("santa").is_none());
    assert_eq!(2, cache.source().query_count());
}

#[test]
fn current_and_effective_ids_come_from_source() {
    let mut cache = UsersCache::new(seeded_source());
    assert_eq!(1000, cache.get_current_uid());
    assert_eq!(1000, cache.get_effective_uid());
    assert_eq!(1000, cache.get_current_gid());
    assert_eq!(1000, cache.get_effective_gid());
    assert_eq!(Some(String::from("fred")), cache.get_current_username());
    assert_eq!(Some(String::from("fred")), cache.get_effective_username());
    assert_eq!(Some(String::from("fred")), cache.get_current_groupname());
    assert_eq!(Some(String::from("fred")), cache.get_effective_groupname());
}

#[test]
fn preloaded_cache_serves_users_without_queries() {
    let mut cache = UsersCache::with_all_users(seeded_source());
    let fred = cache.get_user_by_uid(1000).expect("preloaded");
    assert_eq!("fred", fred.name());
    let barney = cache.get_user_by_name("barney").expect("preloaded");
    assert_eq!(1001, barney.uid());
    // Both answers came from the preload pass, not from new queries.
    assert_eq!(0, cache.source().query_count());
    // Groups were not preloaded, so this one does query.
    assert!(cache.get_group_by_gid(0).is_some());
    assert_eq!(1, cache.source().query_count());
}
