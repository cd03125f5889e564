use std::time::SystemTime;

use active_storage::drivers::inmem::InMemoryDriver;
use active_storage::drivers::Driver;
use active_storage::errors::{DriverError, MirrorError};
use active_storage::multi_store::{MultiStore, Policy};
use active_storage::store::Store;
use active_storage::StoreConfig;

fn inmem() -> Store<InMemoryDriver> {
    StoreConfig::InMem().build().unwrap()
}

fn init_multi_store() -> MultiStore<InMemoryDriver> {
    let store_one = inmem();
    let secondary_store = inmem();
    let mut multi_store = MultiStore::new(store_one);
    multi_store.add_stores(vec![("store-2", secondary_store)]);
    multi_store
}

#[test]
fn can_write_with_mirror_from_master() {
    let mut multi_store = init_multi_store();

    assert!(multi_store
        .mirror_stores_from_primary()
        .write("test", b"content")
        .is_ok());

    assert!(multi_store.primary.file_exists("test").unwrap());
    assert!(multi_store
        .get_store("store-2")
        .unwrap()
        .file_exists("test")
        .unwrap());

    assert_eq!(
        multi_store.primary.read::<String>("test").unwrap(),
        multi_store
            .get_store("store-2")
            .unwrap()
            .read::<String>("test")
            .unwrap()
    );
    assert_eq!(multi_store.primary.read::<String>("test").unwrap(), "content");
}

#[test]
fn can_delete_with_mirror_from_master() {
    let mut multi_store = init_multi_store();

    assert!(multi_store
        .mirror_stores_from_primary()
        .write("test", b"content")
        .is_ok());

    assert!(multi_store.primary.file_exists("test").unwrap());
    assert!(multi_store
        .get_store("store-2")
        .unwrap()
        .file_exists("test")
        .unwrap());

    assert!(multi_store
        .mirror_stores_from_primary()
        .delete("test")
        .is_ok());

    assert!(!multi_store.primary.file_exists("test").unwrap());
    assert!(!multi_store
        .get_store("store-2")
        .unwrap()
        .file_exists("test")
        .unwrap());
}

#[test]
fn can_delete_directory_with_mirror_from_master() {
    let mut multi_store = init_multi_store();

    assert!(multi_store
        .mirror_stores_from_primary()
        .write("delete-folder/test", b"content")
        .is_ok());

    assert!(multi_store
        .primary
        .file_exists("delete-folder/test")
        .unwrap());
    assert!(multi_store
        .get_store("store-2")
        .unwrap()
        .file_exists("delete-folder/test")
        .unwrap());

    assert!(multi_store
        .mirror_stores_from_primary()
        .delete_directory("delete-folder")
        .is_ok());

    assert!(!multi_store
        .primary
        .file_exists("delete-folder/test")
        .unwrap());
    assert!(!multi_store
        .get_store("store-2")
        .unwrap()
        .file_exists("delete-folder/test")
        .unwrap());
}

fn three_stores_where_only_the_primary_holds_test(policy: Policy) -> MultiStore<InMemoryDriver> {
    let mut multi_store = MultiStore::new(inmem());
    multi_store.set_mirrors_policy(policy);
    multi_store.add_stores(vec![("store-2", inmem()), ("store-3", inmem())]);

    assert!(multi_store
        .mirror_stores_from_primary()
        .write("test", b"content")
        .is_ok());

    assert!(multi_store
        .add_mirrors("others", vec!["store-2", "store-3"].as_slice())
        .is_ok());
    assert!(multi_store.mirror("others").unwrap().delete("test").is_ok());
    multi_store
}

#[test]
fn can_failure_policy() {
    let mut multi_store =
        three_stores_where_only_the_primary_holds_test(Policy::ContinueOnFailure);
    let res = multi_store.mirror_stores_from_primary().delete("test");
    assert_eq!(
        res,
        Err(MirrorError::MirrorFailedOnStores(vec![
            ("store-2".to_string(), DriverError::ResourceNotFound),
            ("store-3".to_string(), DriverError::ResourceNotFound),
        ]))
    );
    assert!(!multi_store.primary.file_exists("test").unwrap());

    let mut multi_store = three_stores_where_only_the_primary_holds_test(Policy::StopOnFailure);
    let res = multi_store.mirror_stores_from_primary().delete("test");
    assert_eq!(
        res,
        Err(MirrorError::MirrorFailedOnStore(
            "store-2".to_string(),
            DriverError::ResourceNotFound
        ))
    );
    assert!(!multi_store.primary.file_exists("test").unwrap());
}

#[test]
fn can_mirror() {
    let mut multi_store = MultiStore::new(inmem());
    multi_store.add_stores(vec![("store-2", inmem()), ("store-3", inmem())]);
    assert!(multi_store
        .add_mirrors("foo", vec!["store-2", "store-3"].as_slice())
        .is_ok());

    assert!(multi_store
        .mirror("foo")
        .unwrap()
        .write("test", b"content")
        .is_ok());

    assert!(!multi_store.primary.file_exists("test").unwrap());
    assert!(multi_store
        .get_store("store-2")
        .unwrap()
        .file_exists("test")
        .unwrap());
    assert!(multi_store
        .get_store("store-3")
        .unwrap()
        .file_exists("test")
        .unwrap());
}

#[test]
fn can_add_store() {
    let mut multi_store = MultiStore::new(inmem());

    assert_eq!(multi_store.store_names().len(), 0);

    let store_1 = inmem();
    let store_2 = inmem();
    let stores = vec![("foo", store_1), ("bar", store_2)];

    multi_store.add_stores(stores);
    assert_eq!(multi_store.store_names().len(), 2);
    assert_eq!(
        multi_store.store_names(),
        vec!["bar".to_string(), "foo".to_string()]
    );
}

#[test]
fn can_update_policy() {
    let mut multi_store = MultiStore::new(inmem());

    let init_policy = multi_store.mirrors_policy();
    assert_eq!(init_policy, Policy::ContinueOnFailure);

    multi_store.set_mirrors_policy(Policy::StopOnFailure);

    assert!(init_policy != multi_store.mirrors_policy());
    assert_eq!(multi_store.mirrors_policy(), Policy::StopOnFailure);
}

#[test]
fn can_add_mirrors() {
    let mut multi_store = MultiStore::new(inmem());

    let store_1 = inmem();
    let store_2 = inmem();
    let stores = vec![("bar-store", store_1), ("baz-store", store_2)];
    multi_store.add_stores(stores);

    assert_eq!(multi_store.mirrors_len(), 0);

    assert!(multi_store
        .add_mirrors(
            "mirror-bar-and-baz",
            vec!["bar-store", "baz-store"].as_slice()
        )
        .is_ok());

    assert_eq!(
        multi_store.get_mirror("mirror-bar-and-baz").unwrap().len(),
        2
    );

    assert_eq!(
        multi_store
            .add_mirrors(
                "bar",
                vec!["baz-store", "un-existing 1", "un-existing 2"].as_slice()
            )
            .err(),
        Some("the stores: un-existing 1,un-existing 2 not defined".to_string())
    );
    assert!(multi_store.get_mirror("bar").is_none());
    assert_eq!(multi_store.mirrors_len(), 1);
}

#[test]
fn add_mirrors_reports_one_unknown_name_without_a_comma() {
    let mut multi_store = MultiStore::new(inmem());
    multi_store.add_stores(vec![("known", inmem())]);
    assert_eq!(
        multi_store.add_mirrors("g", &["known", "lost"]).err(),
        Some("the stores: lost not defined".to_string())
    );
    assert_eq!(
        multi_store.add_mirrors("g", &["lost", "lost"]).err(),
        Some("the stores: lost,lost not defined".to_string())
    );
    assert!(multi_store.add_mirrors("g", &[]).is_ok());
    assert_eq!(multi_store.get_mirror("g").unwrap().len(), 0);
    assert!(multi_store.add_mirrors("g", &["known"]).is_ok());
    assert_eq!(
        multi_store.get_mirror("g").unwrap(),
        &vec!["known".to_string()]
    );
    assert_eq!(multi_store.mirrors_len(), 1);
}

#[test]
fn the_primary_takes_its_place_among_the_names() {
    let mut multi_store = MultiStore::new(inmem());
    assert_eq!(
        multi_store.mirror_stores_from_primary().names(),
        vec!["primary".to_string()]
    );
    multi_store.add_stores(vec![
        ("z", inmem()),
        ("a", inmem()),
        ("store", inmem()),
        ("prima", inmem()),
        ("primary-2", inmem()),
        ("Z", inmem()),
    ]);
    assert_eq!(
        multi_store.mirror_stores_from_primary().names(),
        vec![
            "Z".to_string(),
            "a".to_string(),
            "prima".to_string(),
            "primary".to_string(),
            "primary-2".to_string(),
            "store".to_string(),
            "z".to_string(),
        ]
    );
    assert_eq!(
        multi_store.store_names(),
        vec![
            "Z".to_string(),
            "a".to_string(),
            "prima".to_string(),
            "primary-2".to_string(),
            "store".to_string(),
            "z".to_string(),
        ]
    );
}

#[test]
fn the_name_primary_always_stands_for_the_primary_store() {
    let mut multi_store = MultiStore::new(inmem());
    multi_store.add_stores(vec![("primary", inmem()), ("other", inmem())]);
    assert_eq!(
        multi_store.mirror_stores_from_primary().names(),
        vec!["other".to_string(), "primary".to_string()]
    );
    assert!(multi_store
        .mirror_stores_from_primary()
        .write("p", b"x")
        .is_ok());
    assert!(multi_store.primary.file_exists("p").unwrap());
    assert_eq!(multi_store.primary.read_text("p").unwrap(), "x");
    assert!(!multi_store
        .get_store("primary")
        .unwrap()
        .file_exists("p")
        .unwrap());
    assert!(multi_store
        .get_store("other")
        .unwrap()
        .file_exists("p")
        .unwrap());
}

#[test]
fn a_group_may_name_a_secondary_store_called_primary() {
    let mut multi_store = MultiStore::new(inmem());
    multi_store.add_stores(vec![("primary", inmem()), ("other", inmem())]);
    multi_store.add_mirrors("g", &["primary"]).unwrap();
    let mut mirror = multi_store.mirror("g").unwrap();
    assert_eq!(mirror.names(), vec!["primary".to_string()]);
    assert!(mirror.write("p", b"x").is_ok());
    assert!(!multi_store.primary.file_exists("p").unwrap());
    assert!(multi_store
        .get_store("primary")
        .unwrap()
        .file_exists("p")
        .unwrap());
    assert!(!multi_store
        .get_store("other")
        .unwrap()
        .file_exists("p")
        .unwrap());
}

#[test]
fn registering_a_name_again_replaces_the_store() {
    let mut first = inmem();
    first.write("mark", b"first").unwrap();
    let mut second = inmem();
    second.write("mark", b"second").unwrap();
    let mut multi_store = MultiStore::new(inmem());
    multi_store.add_stores(vec![("s", first), ("s", second)]);
    assert_eq!(multi_store.store_names(), vec!["s".to_string()]);
    assert_eq!(
        multi_store.get_store("s").unwrap().read_text("mark").unwrap(),
        "second"
    );
    let mut third = inmem();
    third.write("mark", b"third").unwrap();
    multi_store.add_stores(vec![("s", third)]);
    assert_eq!(
        multi_store.get_store("s").unwrap().read_text("mark").unwrap(),
        "third"
    );
    assert!(multi_store.get_store("S").is_none());
}

#[test]
fn a_group_is_visited_in_the_order_of_the_names() {
    let mut multi_store = MultiStore::new(inmem());
    multi_store.add_stores(vec![("c", inmem()), ("a", inmem()), ("b", inmem())]);
    assert!(multi_store.add_mirrors("g", &["c", "a"]).is_ok());
    assert_eq!(
        multi_store.mirror("g").unwrap().names(),
        vec!["a".to_string(), "c".to_string()]
    );
    assert!(multi_store.mirror("unknown").is_none());
    assert!(multi_store.mirror("G").is_none());
    assert!(multi_store.add_mirrors("g", &["b"]).is_ok());
    assert_eq!(
        multi_store.mirror("g").unwrap().names(),
        vec!["b".to_string()]
    );
    assert!(multi_store.add_mirrors("none", &[]).is_ok());
    assert_eq!(
        multi_store.mirror("none").unwrap().names(),
        Vec::<String>::new()
    );
    assert!(multi_store.mirror("none").unwrap().write("p", b"x").is_ok());
    assert!(multi_store.mirror("none").unwrap().delete("p").is_ok());
    assert!(!multi_store.primary.file_exists("p").unwrap());
}

struct Switchable {
    inner: InMemoryDriver,
    broken: bool,
}

impl Switchable {
    fn healthy() -> Store<Switchable> {
        Store::new(Switchable {
            inner: InMemoryDriver::new(),
            broken: false,
        })
    }

    fn broken() -> Store<Switchable> {
        Store::new(Switchable {
            inner: InMemoryDriver::new(),
            broken: true,
        })
    }
}

impl Driver for Switchable {
    fn read(&self, path: &str) -> Result<Vec<u8>, DriverError> {
        self.inner.read(path)
    }

    fn file_exists(&self, path: &str) -> Result<bool, DriverError> {
        self.inner.file_exists(path)
    }

    fn write(&mut self, path: &str, content: Vec<u8>) -> Result<(), DriverError> {
        if self.broken {
            Err(DriverError::Network())
        } else {
            self.inner.write(path, content)
        }
    }

    fn delete(&mut self, path: &str) -> Result<(), DriverError> {
        if self.broken {
            Err(DriverError::Any("out of order".to_string()))
        } else {
            self.inner.delete(path)
        }
    }

    fn delete_directory(&mut self, path: &str) -> Result<(), DriverError> {
        if self.broken {
            Err(DriverError::AuthenticationFailed)
        } else {
            self.inner.delete_directory(path)
        }
    }

    fn last_modified(&self, path: &str) -> Result<SystemTime, DriverError> {
        self.inner.last_modified(path)
    }
}

#[test]
fn continue_on_failure_reaches_the_healthy_store() {
    let mut multi_store = MultiStore::new(Switchable::healthy());
    multi_store.add_stores(vec![("B", Switchable::healthy()), ("A", Switchable::broken())]);
    assert!(multi_store.add_mirrors("pair", &["A", "B"]).is_ok());
    assert_eq!(multi_store.mirrors_policy(), Policy::ContinueOnFailure);

    let res = multi_store.mirror("pair").unwrap().write("p", b"content");
    assert_eq!(
        res,
        Err(MirrorError::MirrorFailedOnStores(vec![(
            "A".to_string(),
            DriverError::Network()
        )]))
    );
    assert!(multi_store.get_store("B").unwrap().file_exists("p").unwrap());
    assert_eq!(
        multi_store.get_store("B").unwrap().read_text("p").unwrap(),
        "content"
    );
    assert!(!multi_store.get_store("A").unwrap().file_exists("p").unwrap());
    assert!(!multi_store.primary.file_exists("p").unwrap());
}

#[test]
fn stop_on_failure_leaves_the_later_stores_alone() {
    let mut multi_store = MultiStore::new(Switchable::healthy());
    multi_store.set_mirrors_policy(Policy::StopOnFailure);
    multi_store.add_stores(vec![("z", Switchable::healthy()), ("a", Switchable::broken())]);

    let res = multi_store.mirror_stores_from_primary().write("p", b"new");
    assert_eq!(
        res,
        Err(MirrorError::MirrorFailedOnStore(
            "a".to_string(),
            DriverError::Network()
        ))
    );
    assert!(!multi_store.get_store("z").unwrap().file_exists("p").unwrap());
    assert!(!multi_store.primary.file_exists("p").unwrap());
    assert!(!multi_store.get_store("a").unwrap().file_exists("p").unwrap());
}

#[test]
fn stop_on_failure_keeps_what_was_done_before_the_failure() {
    let mut multi_store = MultiStore::new(Switchable::healthy());
    multi_store.set_mirrors_policy(Policy::StopOnFailure);
    multi_store.add_stores(vec![
        ("a", Switchable::healthy()),
        ("q", Switchable::broken()),
        ("z", Switchable::healthy()),
    ]);

    let res = multi_store.mirror_stores_from_primary().write("p", b"new");
    assert_eq!(
        res,
        Err(MirrorError::MirrorFailedOnStore(
            "q".to_string(),
            DriverError::Network()
        ))
    );
    assert!(multi_store.get_store("a").unwrap().file_exists("p").unwrap());
    assert!(multi_store.primary.file_exists("p").unwrap());
    assert!(!multi_store.get_store("z").unwrap().file_exists("p").unwrap());

    let res = multi_store.mirror_stores_from_primary().delete("p");
    assert_eq!(
        res,
        Err(MirrorError::MirrorFailedOnStore(
            "q".to_string(),
            DriverError::Any("out of order".to_string())
        ))
    );
    assert!(!multi_store.get_store("a").unwrap().file_exists("p").unwrap());
    assert!(!multi_store.primary.file_exists("p").unwrap());
}

#[test]
fn continue_on_failure_reports_every_failure_in_order() {
    let mut multi_store = MultiStore::new(Switchable::broken());
    multi_store.add_stores(vec![
        ("z", Switchable::broken()),
        ("m", Switchable::healthy()),
        ("a", Switchable::broken()),
    ]);
    let res = multi_store
        .mirror_stores_from_primary()
        .delete_directory("dir");
    assert_eq!(
        res,
        Err(MirrorError::MirrorFailedOnStores(vec![
            ("a".to_string(), DriverError::AuthenticationFailed),
            ("m".to_string(), DriverError::ResourceNotFound),
            ("primary".to_string(), DriverError::AuthenticationFailed),
            ("z".to_string(), DriverError::AuthenticationFailed),
        ]))
    );
}

#[test]
fn mirror_error_messages() {
    assert_eq!(
        MirrorError::MirrorFailedOnStores(vec![]).message(),
        "Mirror name not found"
    );
    assert_eq!(
        MirrorError::MirrorFailedOnStore("s".to_string(), DriverError::Network()).message(),
        "Mirror failed on store"
    );
}

#[test]
fn a_copy_of_a_registry_has_stores_of_its_own() {
    let mut multi_store = init_multi_store();
    multi_store.add_mirrors("g", &["store-2"]).unwrap();
    multi_store.set_mirrors_policy(Policy::StopOnFailure);
    assert!(multi_store
        .mirror_stores_from_primary()
        .write("kept", b"1")
        .is_ok());

    let mut copy = multi_store.clone();
    assert_eq!(copy.store_names(), vec!["store-2".to_string()]);
    assert_eq!(copy.mirrors_policy(), Policy::StopOnFailure);
    assert_eq!(copy.get_mirror("g").unwrap(), &vec!["store-2".to_string()]);
    assert!(copy.primary().file_exists("kept").unwrap());
    assert!(copy.get_store("store-2").unwrap().file_exists("kept").unwrap());

    assert!(copy.mirror_stores_from_primary().delete("kept").is_ok());
    assert!(!copy.primary.file_exists("kept").unwrap());
    assert!(multi_store.primary.file_exists("kept").unwrap());
    assert!(multi_store
        .get_store("store-2")
        .unwrap()
        .file_exists("kept")
        .unwrap());
}

#[test]
fn a_store_hands_on_the_error_of_its_backend() {
    let mut store = Switchable::broken();
    assert_eq!(store.write("p", b"x"), Err(DriverError::Network()));
    assert_eq!(
        store.delete("p"),
        Err(DriverError::Any("out of order".to_string()))
    );
    assert_eq!(
        store.delete_directory("p"),
        Err(DriverError::AuthenticationFailed)
    );
    assert_eq!(store.read_text("p"), Err(DriverError::ResourceNotFound));
    assert_eq!(store.read::<String>("p"), Err(DriverError::ResourceNotFound));
    assert_eq!(store.read::<Vec<u8>>("p"), Err(DriverError::ResourceNotFound));
    assert_eq!(store.last_modified("p"), Err(DriverError::ResourceNotFound));
    assert_eq!(store.file_exists("p"), Ok(false));
}

#[test]
fn a_failure_is_recorded_under_its_name_in_the_order_of_the_names() {
    let mut multi_store = init_multi_store();
    let mirror = multi_store.mirror_stores_from_primary();
    let mut recorded = Vec::new();
    assert_eq!(
        mirror.handle_error_policy("m", DriverError::Network(), &mut recorded),
        Ok(())
    );
    assert_eq!(
        mirror.handle_error_policy("z", DriverError::DecodeError, &mut recorded),
        Ok(())
    );
    assert_eq!(
        mirror.handle_error_policy("a", DriverError::InvalidPath, &mut recorded),
        Ok(())
    );
    assert_eq!(
        mirror.handle_error_policy("m", DriverError::ResourceNotFound, &mut recorded),
        Ok(())
    );
    assert_eq!(
        recorded,
        vec![
            ("a".to_string(), DriverError::InvalidPath),
            ("m".to_string(), DriverError::ResourceNotFound),
            ("z".to_string(), DriverError::DecodeError),
        ]
    );
}

#[test]
fn a_failure_ends_the_fan_out_under_stop_on_failure() {
    let mut multi_store = init_multi_store();
    multi_store.set_mirrors_policy(Policy::StopOnFailure);
    let mirror = multi_store.mirror_stores_from_primary();
    let mut recorded = vec![("a".to_string(), DriverError::InvalidPath)];
    assert_eq!(
        mirror.handle_error_policy("m", DriverError::Network(), &mut recorded),
        Err(MirrorError::MirrorFailedOnStore(
            "m".to_string(),
            DriverError::Network()
        ))
    );
    assert_eq!(recorded, vec![("a".to_string(), DriverError::InvalidPath)]);
}

#[test]
fn stop_on_failure_reports_the_error_of_the_first_store_that_failed() {
    let mut multi_store = MultiStore::new(Switchable::healthy());
    multi_store.add_stores(vec![("a", Switchable::broken()), ("z", Switchable::healthy())]);
    multi_store.set_mirrors_policy(Policy::StopOnFailure);
    let res = multi_store.mirror_stores_from_primary().write("p", b"new");
    assert_eq!(
        res,
        Err(MirrorError::MirrorFailedOnStore(
            "a".to_string(),
            DriverError::Network()
        ))
    );
    assert_eq!(
        multi_store.get_store("z").unwrap().file_exists("p"),
        Ok(false)
    );
    assert_eq!(multi_store.primary.file_exists("p"), Ok(false));
}
