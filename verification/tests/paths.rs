use dakoku::paths::{
    ancestors, current_file, data_dir, depth, entries_file, expand, file_name, join, same, settings_file, shorten,
    starts_with, PathError,
};

#[test]
fn a_tilde_expands_to_the_home_directory() {
    assert_eq!(expand("~", Some("/home/me")), Ok("/home/me".to_string()));
    assert_eq!(expand("~/ws/acme", Some("/home/me")), Ok("/home/me/ws/acme".to_string()));
    assert_eq!(expand("~/ws", Some("/home/me/")), Ok("/home/me/ws".to_string()));
    assert_eq!(expand("/work/acme", Some("/home/me")), Ok("/work/acme".to_string()));
    assert_eq!(expand("~other/x", Some("/home/me")), Ok("~other/x".to_string()));
}

#[test]
fn a_tilde_needs_a_home_directory() {
    assert_eq!(expand("~", None), Err(PathError::NoHome));
    assert_eq!(expand("~/ws", None), Err(PathError::NoHome));
    assert_eq!(expand("/work", None), Ok("/work".to_string()));
}

#[test]
fn paths_under_home_are_abbreviated() {
    assert_eq!(shorten("/home/me", Some("/home/me")), "~");
    assert_eq!(shorten("/home/me/ws/acme", Some("/home/me")), "~/ws/acme");
    assert_eq!(shorten("/home/meow/ws", Some("/home/me")), "/home/meow/ws");
    assert_eq!(shorten("/work/acme", Some("/home/me")), "/work/acme");
    assert_eq!(shorten("/home/me/ws", None), "/home/me/ws");
}

#[test]
fn expanding_undoes_shortening() {
    for path in ["/home/me", "/home/me/ws/acme", "/work/acme", "/"] {
        let short = shorten(path, Some("/home/me"));
        assert_eq!(expand(&short, Some("/home/me")), Ok(path.to_string()));
        assert_eq!(expand(&shorten(path, None), None), Ok(path.to_string()));
    }
}

#[test]
fn paths_compare_by_components() {
    assert!(starts_with("/work/acme/api", "/work/acme"));
    assert!(starts_with("/work/acme", "/work/acme/"));
    assert!(!starts_with("/work/acme-labs", "/work/acme"));
    assert!(same("/work//acme/", "/work/acme"));
    assert!(!same("/work/acme", "work/acme"));
    assert_eq!(depth("/work/acme"), 3);
    assert_eq!(depth("./a/./b"), 3);
}

#[test]
fn the_file_name_is_the_last_named_component() {
    assert_eq!(file_name("/work/acme-api"), Some("acme-api".to_string()));
    assert_eq!(file_name("/work/acme-api/"), Some("acme-api".to_string()));
    assert_eq!(file_name("/"), None);
    assert_eq!(file_name("/work/.."), None);
}

#[test]
fn joining_puts_one_separator_between() {
    assert_eq!(join("/work", "acme"), "/work/acme");
    assert_eq!(join("/work/", "acme"), "/work/acme");
    assert_eq!(join("/work", "/abs"), "/abs");
    assert_eq!(join("", "acme"), "acme");
}

#[test]
fn ancestors_run_from_the_path_up_to_the_root() {
    assert_eq!(ancestors("/work/acme/api"), vec!["/work/acme/api", "/work/acme", "/work", "/"]);
    assert_eq!(ancestors("/"), vec!["/"]);
    assert_eq!(ancestors("work/acme"), vec!["work/acme", "work", ""]);
}

#[test]
fn data_lives_under_dakoku_home_or_the_home_directory() {
    assert_eq!(data_dir(Some("/data"), Some("/home/me")), Ok("/data".to_string()));
    assert_eq!(data_dir(None, Some("/home/me")), Ok("/home/me/.dakoku".to_string()));
    assert_eq!(data_dir(None, None), Err(PathError::NoHome));
    assert_eq!(settings_file("/home/me/.dakoku"), "/home/me/.dakoku/settings.json");
    assert_eq!(current_file("/data"), "/data/current.json");
    assert_eq!(entries_file("/data/"), "/data/entries.jsonl");
}

#[test]
fn the_rest_after_home_keeps_its_spelling() {
    assert_eq!(shorten("/home/me/ws//acme/", Some("/home/me")), "~/ws//acme");
    assert_eq!(shorten("/home/me/./ws", Some("/home/me")), "~/ws");
    assert_eq!(shorten("/home/me/ws/./acme", Some("/home/me")), "~/ws/./acme");
    assert_eq!(shorten("/home/me//", Some("/home/me")), "~");
    assert_eq!(shorten("/home/me/ws", Some("/home/me/")), "~/ws");
    assert_eq!(shorten("/home/me/ws", Some("/")), "~/home/me/ws");
}

#[test]
fn parents_keep_the_spelling_before_them() {
    assert_eq!(ancestors("/work//acme/api/"), vec!["/work//acme/api/", "/work//acme", "/work", "/"]);
    assert_eq!(ancestors("./a"), vec!["./a", ".", ""]);
    assert_eq!(ancestors("/work/./acme"), vec!["/work/./acme", "/work", "/"]);
}
