use dakoku::config::{Location, Project, Settings};
use dakoku::paths::ancestors;

/// Builds settings as the settings file `json` describes them.
fn settings(json: &str) -> Settings {
    let value: serde_json::Value = serde_json::from_str(json).expect("valid settings");
    let top = value.as_object().expect("an object");
    let mut settings = Settings::new();
    if let Some(projects) = top.get("projects").and_then(|p| p.as_object()) {
        for (key, fields) in projects {
            let mut project = Project::new();
            for (name, field) in fields.as_object().expect("an object") {
                if name == "label" {
                    project.label = field.as_str().map(|s| s.to_string());
                } else {
                    project.extra.push((name.clone(), field.clone()));
                }
            }
            settings.put_project(key.clone(), project);
        }
    }
    let extra = top
        .iter()
        .filter(|(name, _)| name.as_str() != "projects")
        .map(|(name, field)| (name.clone(), field.clone()))
        .collect();
    settings.set_extra(extra);
    settings
}

/// Writes settings back as the settings file holds them.
fn to_json(settings: &Settings) -> String {
    let mut top = serde_json::Map::new();
    let mut projects = serde_json::Map::new();
    for (key, project) in settings.projects() {
        let mut fields = serde_json::Map::new();
        if let Some(label) = &project.label {
            fields.insert("label".to_string(), serde_json::Value::from(label.clone()));
        }
        for (name, field) in &project.extra {
            fields.insert(name.clone(), field.clone());
        }
        projects.insert(key.clone(), serde_json::Value::Object(fields));
    }
    top.insert("projects".to_string(), serde_json::Value::Object(projects));
    for (name, field) in settings.extra() {
        top.insert(name.clone(), field.clone());
    }
    serde_json::to_string(&serde_json::Value::Object(top)).expect("serializable")
}

fn keys(settings: &Settings) -> Vec<String> {
    settings.projects().iter().map(|(key, _)| key.clone()).collect()
}

fn detect(start: &str, repositories: &[&str], settings: &Settings, home: Option<&str>) -> Location {
    let marks: Vec<bool> = ancestors(start).iter().map(|dir| repositories.contains(&dir.as_str())).collect();
    Location::detect(start, &marks, settings, home)
}

#[test]
fn the_closest_configured_ancestor_wins() {
    let settings = settings(
        r#"{"projects": {
            "/work": {"label": "House"},
            "/work/acme": {"label": "Acme"}
        }}"#,
    );
    assert_eq!(settings.label_for("/work/acme/api/src", None).as_deref(), Some("Acme"));
    assert_eq!(settings.label_for("/work/other", None).as_deref(), Some("House"));
    assert_eq!(settings.label_for("/elsewhere", None), None);
}

#[test]
fn sibling_directories_do_not_match_on_a_shared_prefix() {
    let settings = settings(r#"{"projects": {"/work/acme": {"label": "Acme"}}}"#);
    assert_eq!(settings.label_for("/work/acme-labs", None), None);
}

#[test]
fn unknown_keys_survive_a_round_trip() {
    let settings = settings(r#"{"version": 2, "projects": {"/work": {"label": "House", "rate": 100}}}"#);
    let json = to_json(&settings);
    assert!(json.contains("\"version\":2"));
    assert!(json.contains("\"rate\":100"));
}

#[test]
fn setting_a_label_reuses_an_existing_key() {
    let mut settings = settings(r#"{"projects": {"/work/acme": {"label": "Acme"}}}"#);
    let key = settings.set_label("/work/acme", "Acme Corp".to_string(), None);
    assert_eq!(key, "/work/acme");
    assert_eq!(settings.projects().len(), 1);
    assert_eq!(settings.label_for("/work/acme", None).as_deref(), Some("Acme Corp"));
}

#[test]
fn a_directory_name_stands_in_for_a_missing_label() {
    let settings = Settings::new();
    let location = detect("/work/acme-api", &[], &settings, None);
    assert_eq!(location.display_name(None), "acme-api");
}

#[test]
fn keys_written_with_a_tilde_match_under_the_home_directory() {
    let settings = settings(r#"{"projects": {"~/ws/acme": {"label": "Acme"}}}"#);
    assert_eq!(settings.label_for("/home/me/ws/acme/api", Some("/home/me")).as_deref(), Some("Acme"));
    assert_eq!(settings.label_for("/home/you/ws/acme/api", Some("/home/me")), None);
    // Without a home directory the key cannot be expanded, so it encloses nothing.
    assert_eq!(settings.label_for("/home/me/ws/acme/api", None), None);
}

#[test]
fn a_new_key_is_stored_with_the_home_directory_abbreviated() {
    let mut settings = Settings::new();
    let key = settings.set_label("/home/me/ws/acme", "Acme".to_string(), Some("/home/me"));
    assert_eq!(key, "~/ws/acme");
    assert_eq!(keys(&settings), vec!["~/ws/acme".to_string()]);
    assert_eq!(settings.label_for("/home/me/ws/acme", Some("/home/me")).as_deref(), Some("Acme"));
}

#[test]
fn a_configured_tilde_key_is_reused_for_the_path_it_names() {
    let mut settings = settings(r#"{"projects": {"~/ws/acme": {"label": "Acme"}}}"#);
    let key = settings.set_label("/home/me/ws/acme", "Acme Corp".to_string(), Some("/home/me"));
    assert_eq!(key, "~/ws/acme");
    assert_eq!(settings.projects().len(), 1);
}

#[test]
fn keys_stay_in_order() {
    let mut settings = Settings::new();
    settings.set_label("/work/b", "B".to_string(), None);
    settings.set_label("/work/a", "A".to_string(), None);
    settings.set_label("/work/c", "C".to_string(), None);
    settings.set_label("/work/a", "A2".to_string(), None);
    assert_eq!(keys(&settings), vec!["/work/a", "/work/b", "/work/c"]);
}

#[test]
fn removing_returns_the_key_and_drops_its_settings() {
    let mut settings = settings(r#"{"projects": {"/work": {"label": "House"}, "/work/acme": {"label": "Acme"}}}"#);
    assert_eq!(settings.remove("/work/acme", None).as_deref(), Some("/work/acme"));
    assert_eq!(keys(&settings), vec!["/work"]);
    assert_eq!(settings.label_for("/work/acme", None).as_deref(), Some("House"));
    assert_eq!(settings.remove("/work/acme", None), None);
    assert_eq!(keys(&settings), vec!["/work"]);
}

#[test]
fn unset_undoes_set_on_a_new_path() {
    let mut settings = settings(r#"{"projects": {"/work": {"label": "House"}}}"#);
    settings.set_label("/work/acme", "Acme".to_string(), None);
    assert_eq!(keys(&settings), vec!["/work", "/work/acme"]);
    assert_eq!(settings.remove("/work/acme", None).as_deref(), Some("/work/acme"));
    assert_eq!(keys(&settings), vec!["/work"]);
    assert_eq!(settings.label_for("/work", None).as_deref(), Some("House"));
}

#[test]
fn unknown_keys_survive_setting_a_label() {
    let mut settings = settings(r#"{"version": 2, "projects": {"/work": {"label": "House", "rate": 100}}}"#);
    settings.set_label("/work", "Home".to_string(), None);
    settings.set_label("/other", "Other".to_string(), None);
    let work = &settings.projects()[1].1;
    assert_eq!(settings.projects()[1].0, "/work");
    assert_eq!(work.label.as_deref(), Some("Home"));
    assert_eq!(work.extra, vec![("rate".to_string(), serde_json::Value::from(100))]);
    assert_eq!(settings.projects()[0].1.extra, Vec::new());
    assert_eq!(settings.extra().clone(), vec![("version".to_string(), serde_json::Value::from(2))]);
}

#[test]
fn the_resolved_key_is_the_one_written_in_the_settings() {
    let settings = settings(r#"{"projects": {"~/ws": {"label": "WS"}, "~/ws/acme": {}}}"#);
    let (key, project) = settings.resolve("/home/me/ws/acme/api", Some("/home/me")).expect("a match");
    assert_eq!(key, "~/ws/acme");
    assert_eq!(project.label, None);
    // A configured project without a label leaves the label unset, however deep.
    assert_eq!(settings.label_for("/home/me/ws/acme/api", Some("/home/me")), None);
    assert_eq!(settings.label_for("/home/me/ws/other", Some("/home/me")).as_deref(), Some("WS"));
}

#[test]
fn detection_walks_up_to_the_nearest_repository() {
    let settings = settings(r#"{"projects": {"/work/acme": {"label": "Acme"}}}"#);
    let location = detect("/work/acme/api/src", &["/work/acme", "/work/acme/api"], &settings, None);
    assert_eq!(location.root, "/work/acme/api");
    assert_eq!(location.label.as_deref(), Some("Acme"));
    assert_eq!(location.display_name(None), "Acme");
    let plain = detect("/tmp/scratch", &[], &settings, None);
    assert_eq!(plain.root, "/tmp/scratch");
    assert_eq!(plain.display_name(None), "scratch");
}

#[test]
fn the_root_directory_goes_by_its_path() {
    let location = detect("/", &[], &Settings::new(), None);
    assert_eq!(location.display_name(None), "/");
    let home = detect("/home/me", &[], &Settings::new(), Some("/home/me"));
    assert_eq!(home.display_name(Some("/home/me")), "me");
}
