use blog_api::tag_reconcile::BlogTagStore;

fn sorted(mut v: Vec<u128>) -> Vec<u128> {
    v.sort();
    v
}

#[test]
fn reconcile_reaches_exactly_the_desired_set() {
    let blog: u128 = 10;
    let mut store = BlogTagStore::new();
    store.insert(blog, 1);
    store.insert(blog, 2);
    store.insert(blog, 3);
    // drop 2 and 3, keep 1, gain 4
    store.reconcile(blog, &vec![1, 4]);
    assert!(sorted(store.tags_of(blog)) == vec![1, 4]);
}

#[test]
fn reconcile_is_idempotent() {
    let blog: u128 = 10;
    let mut store = BlogTagStore::new();
    store.insert(blog, 1);
    store.insert(blog, 2);
    store.reconcile(blog, &vec![2, 5]);
    let after_first = store.tags_of(blog);
    store.reconcile(blog, &vec![2, 5]);
    let after_second = store.tags_of(blog);
    assert!(after_first == after_second);
    assert!(sorted(after_second) == vec![2, 5]);
}

#[test]
fn reconcile_to_equal_set_changes_nothing() {
    let blog: u128 = 10;
    let mut store = BlogTagStore::new();
    store.insert(blog, 7);
    store.insert(blog, 8);
    let before = store.tags_of(blog);
    store.reconcile(blog, &vec![7, 8]);
    assert!(store.tags_of(blog) == before);
}

#[test]
fn reconcile_never_unlinks_other_blogs() {
    // the regression case: tag 1 is shared; dropping it from one blog
    // must not delete it from the other
    let one: u128 = 10;
    let two: u128 = 20;
    let mut store = BlogTagStore::new();
    store.insert(one, 1);
    store.insert(one, 2);
    store.insert(two, 1);
    store.insert(two, 9);
    store.reconcile(one, &vec![2]);
    assert!(sorted(store.tags_of(one)) == vec![2]);
    assert!(sorted(store.tags_of(two)) == vec![1, 9]);
}

#[test]
fn reconcile_to_empty_removes_all() {
    let blog: u128 = 10;
    let mut store = BlogTagStore::new();
    store.insert(blog, 1);
    store.insert(blog, 2);
    store.reconcile(blog, &Vec::new());
    assert!(store.tags_of(blog).is_empty());
}

#[test]
fn insert_remove_roundtrip() {
    let blog: u128 = 10;
    let mut store = BlogTagStore::new();
    store.insert(blog, 1);
    assert!(store.has(blog, 1));
    store.insert(blog, 1);
    assert!(store.tags_of(blog) == vec![1]);
    store.remove(blog, 1);
    assert!(!store.has(blog, 1));
    assert!(store.tags_of(blog).is_empty());
}
