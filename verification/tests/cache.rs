use hlife::cache::Cache;

#[test]
fn test_cache() {
    let mut t = 0;
    let mut cache = Cache::new();
    let res0 = cache.eval(|| {
        t += 1;
        5
    });
    assert_eq!(res0, 5);
    assert_eq!(t, 1);
    let res1 = cache.eval(|| {
        t += 1;
        10
    });
    assert_eq!(res1, 5);
    assert_eq!(t, 1);
}

#[test]
fn cache_get_and_set() {
    let mut cache: Cache<u8> = Cache::new();
    assert_eq!(cache.get(), None);
    cache.set(7);
    assert_eq!(cache.get(), Some(7));
    assert_eq!(cache.eval(|| 9), 7);
}
