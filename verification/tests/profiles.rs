use cpac::dag::{Profile, ProfileCache};

#[test]
fn profile_builtins_loaded() {
    let cache = ProfileCache::with_builtins();
    assert!(cache.get_profile("generic").is_some());
    assert!(cache.get_profile("csv_numeric").is_some());
    assert!(cache.get_profile("csv_string").is_some());
    assert!(cache.get_profile("binary_struct").is_some());
    assert!(cache.get_profile("float").is_some());
}

#[test]
fn profile_add_replaces_same_name() {
    let mut cache = ProfileCache::with_builtins();
    assert!(cache.get_profile("json").is_none());
    cache.add_profile(Profile { name: "json".into(), transforms: vec!["a".into()], description: "first".into() });
    cache.add_profile(Profile { name: "json".into(), transforms: vec![], description: "second".into() });
    let p = cache.get_profile("json").unwrap();
    assert_eq!(p.description, "second");
    assert!(p.transforms.is_empty());
    let mut names = cache.profile_names();
    names.sort();
    assert_eq!(names, vec!["binary_struct", "csv_numeric", "csv_string", "float", "generic", "json"]);
    assert_eq!(cache.get_profile("csv_numeric").unwrap().transforms, vec!["parse_int".to_string()]);
}
