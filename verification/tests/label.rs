use dakoku::commands::label::{list_lines, show_lines, target_path};
use dakoku::config::{Project, Settings};
use dakoku::paths::{ancestors, PathError};

fn labelled(pairs: &[(&str, Option<&str>)]) -> Settings {
    let mut settings = Settings::new();
    for (key, label) in pairs {
        let mut project = Project::new();
        project.label = label.map(|l| l.to_string());
        settings.put_project(key.to_string(), project);
    }
    settings
}

fn show(settings: &Settings, target: &str, repositories: &[&str], home: Option<&str>) -> Vec<String> {
    let marks: Vec<bool> = ancestors(target).iter().map(|dir| repositories.contains(&dir.as_str())).collect();
    show_lines(settings, target, &marks, home)
}

#[test]
fn a_given_path_is_expanded_and_made_absolute() {
    assert_eq!(target_path("~/ws/acme", Some("/home/me"), "/tmp"), Ok("/home/me/ws/acme".to_string()));
    assert_eq!(target_path("acme", Some("/home/me"), "/home/me/ws"), Ok("/home/me/ws/acme".to_string()));
    assert_eq!(target_path("/work/acme", None, "/tmp"), Ok("/work/acme".to_string()));
    assert_eq!(target_path("~", None, "/tmp"), Err(PathError::NoHome));
}

#[test]
fn the_list_aligns_labels_after_the_widest_key() {
    let settings = labelled(&[("~/ws/acme", Some("A社")), ("~/ws/acme/api", Some("A社ZZ案件")), ("/work", None)]);
    assert_eq!(
        list_lines(&settings),
        vec!["/work          (未設定)", "~/ws/acme      A社", "~/ws/acme/api  A社ZZ案件"]
    );
}

#[test]
fn an_empty_list_says_so() {
    assert_eq!(list_lines(&Settings::new()), vec!["· 設定されたプロジェクトがありません"]);
}

#[test]
fn show_names_the_label_and_where_it_comes_from() {
    let settings = labelled(&[("~/ws/acme", Some("A社")), ("~/ws/acme/api", Some("A社ZZ案件"))]);
    let home = Some("/home/me");
    assert_eq!(show(&settings, "/home/me/ws/acme/api", &[], home), vec!["~/ws/acme/api", "  ラベル  A社ZZ案件"]);
    assert_eq!(
        show(&settings, "/home/me/ws/acme/web", &[], home),
        vec!["~/ws/acme/web", "  ラベル  A社", "  継承元  ~/ws/acme"]
    );
}

#[test]
fn show_without_a_label_names_the_stand_in() {
    let settings = labelled(&[("/work/acme", None)]);
    assert_eq!(show(&settings, "/work/acme", &[], None), vec!["/work/acme", "  ラベル  (未設定)"]);
    assert_eq!(
        show(&Settings::new(), "/home/me/ws/tool/src", &["/home/me/ws/tool"], Some("/home/me")),
        vec!["~/ws/tool/src", "  ラベル  (未設定、tool を使用)"]
    );
}
