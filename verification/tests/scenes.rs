use fb_server::scenes::{Config, ConfigError, RawConfig, RawScene};

const SAMPLE: &str = r#"
default = ["status-bar", "task-var", "touch-icon", "spotatui-pip"]

[scenes.ssbrowse]
extends = "default"
add = ["ssbrowse"]

[scenes.fbhalf]
extends = "default"
add = ["fbhalf"]

[scenes.dopagaki]
extends = "default"
add = ["dopagaki"]

[scenes.touch-paint]
layers = ["status-bar", "task-var", "touch-paint"]

[scenes.tmux-session]
layers = ["task-var", "tmux-session"]
"#;

fn strings(value: &toml::Value) -> Vec<String> {
    value
        .as_array()
        .unwrap()
        .iter()
        .map(|v| v.as_str().unwrap().to_string())
        .collect()
}

/// Reads a configuration file.
fn read(text: &str) -> RawConfig {
    let table: toml::Table = toml::from_str(text).unwrap();
    let mut scenes = Vec::new();
    if let Some(listed) = table.get("scenes") {
        for (name, scene) in listed.as_table().unwrap() {
            let raw = RawScene {
                extends: scene.get("extends").map(|v| v.as_str().unwrap().to_string()),
                add: scene.get("add").map(strings).unwrap_or_default(),
                layers: scene.get("layers").map(strings),
            };
            scenes.push((name.clone(), raw));
        }
    }
    RawConfig { default: strings(&table["default"]), scenes }
}

fn scene(extends: Option<&str>, add: &[&str], layers: Option<&[&str]>) -> RawScene {
    RawScene {
        extends: extends.map(|s| s.to_string()),
        add: add.iter().map(|s| s.to_string()).collect(),
        layers: layers.map(|l| l.iter().map(|s| s.to_string()).collect()),
    }
}

fn raw(default: &[&str], scenes: Vec<(&str, RawScene)>) -> RawConfig {
    RawConfig {
        default: default.iter().map(|s| s.to_string()).collect(),
        scenes: scenes.into_iter().map(|(n, s)| (n.to_string(), s)).collect(),
    }
}

#[test]
fn default_scene_returns_default_layers() {
    let cfg = Config::parse(&read(SAMPLE)).unwrap();
    assert_eq!(
        cfg.layers_for("default"),
        &["status-bar", "task-var", "touch-icon", "spotatui-pip"]
    );
}

#[test]
fn extends_add_appends_to_default() {
    let cfg = Config::parse(&read(SAMPLE)).unwrap();
    assert_eq!(
        cfg.layers_for("ssbrowse"),
        &["status-bar", "task-var", "touch-icon", "spotatui-pip", "ssbrowse"]
    );
}

#[test]
fn layers_overrides_without_inheriting() {
    let cfg = Config::parse(&read(SAMPLE)).unwrap();
    assert_eq!(cfg.layers_for("touch-paint"), &["status-bar", "task-var", "touch-paint"]);
    assert_eq!(cfg.layers_for("tmux-session"), &["task-var", "tmux-session"]);
}

#[test]
fn unknown_scene_falls_back_to_default() {
    let cfg = Config::parse(&read(SAMPLE)).unwrap();
    assert_eq!(cfg.layers_for("no-such-scene"), cfg.layers_for("default"));
}

#[test]
fn cyclic_extends_is_rejected() {
    let text = r#"
default = ["a"]

[scenes.x]
extends = "y"

[scenes.y]
extends = "x"
"#;
    assert!(Config::parse(&read(text)).is_err());
}

#[test]
fn cycle_names_the_scene_that_recurs() {
    // The way from "a" leads into a cycle between "x" and "y".
    let config = raw(
        &["d"],
        vec![
            ("a", scene(Some("x"), &[], None)),
            ("x", scene(Some("y"), &[], None)),
            ("y", scene(Some("x"), &[], None)),
        ],
    );
    match Config::parse(&config) {
        Err(ConfigError::Cycle(name)) => assert_eq!(name, "x"),
        _ => panic!("a cycle was expected"),
    }
}

#[test]
fn undefined_base_is_named() {
    let config = raw(&["d"], vec![("a", scene(Some("nowhere"), &[], None))]);
    match Config::parse(&config) {
        Err(e) => {
            assert_eq!(e.message(), "scenes.toml: 未定義のシーン (nowhere)");
            assert!(matches!(e, ConfigError::Undefined(_)));
        }
        Ok(_) => panic!("an undefined scene was expected"),
    }
}

#[test]
fn first_faulty_scene_is_reported() {
    let config = raw(
        &["d"],
        vec![
            ("ok", scene(None, &[], None)),
            ("loop", scene(Some("loop"), &[], None)),
            ("lost", scene(Some("nowhere"), &[], None)),
        ],
    );
    match Config::parse(&config) {
        Err(e) => assert_eq!(e.message(), "scenes.toml: extends の循環参照 (loop)"),
        Ok(_) => panic!("a cycle was expected"),
    }
}

#[test]
fn inheritance_adds_from_the_top_down() {
    let config = raw(
        &["d"],
        vec![
            ("c", scene(Some("b"), &["3"], None)),
            ("b", scene(Some("a"), &["2"], None)),
            ("a", scene(None, &["1"], None)),
            ("w", scene(Some("full"), &["x"], None)),
            ("full", scene(Some("nowhere"), &["ignored"], Some(&["only"]))),
        ],
    );
    let cfg = Config::parse(&config).unwrap();
    assert_eq!(cfg.layers_for("c"), &["d", "1", "2", "3"]);
    assert_eq!(cfg.layers_for("b"), &["d", "1", "2"]);
    assert_eq!(cfg.layers_for("full"), &["only"]);
    assert_eq!(cfg.layers_for("w"), &["only", "x"]);
}

#[test]
fn a_scene_named_default_changes_nothing() {
    let config = raw(
        &["d"],
        vec![
            ("default", scene(None, &[], Some(&["other"]))),
            ("a", scene(Some("default"), &["1"], None)),
        ],
    );
    let cfg = Config::parse(&config).unwrap();
    assert_eq!(cfg.layers_for("default"), &["d"]);
    assert_eq!(cfg.layers_for("a"), &["d", "1"]);
    assert_eq!(cfg.scene_names(), vec!["a"]);
}

#[test]
fn scene_names_leave_out_default() {
    let cfg = Config::parse(&read(SAMPLE)).unwrap();
    let mut names = cfg.scene_names();
    names.sort();
    assert_eq!(names, vec!["dopagaki", "fbhalf", "ssbrowse", "tmux-session", "touch-paint"]);
}

#[test]
fn config_path_follows_the_environment() {
    let path = |a, b, c| Config::default_path(a, b, c);
    assert_eq!(path(Some("/etc/s.toml"), Some("/x"), Some("/h")).unwrap(), "/etc/s.toml");
    assert_eq!(path(Some(""), Some("/x"), Some("/h")).unwrap(), "/x/fb-server/scenes.toml");
    assert_eq!(path(None, Some("/x/"), None).unwrap(), "/x/fb-server/scenes.toml");
    assert_eq!(path(None, Some(""), Some("/h")).unwrap(), "/h/.config/fb-server/scenes.toml");
    assert_eq!(path(None, None, Some("")).unwrap(), ".config/fb-server/scenes.toml");
    let e = path(Some(""), None, None).unwrap_err();
    assert!(matches!(e, ConfigError::HomeUnset));
    assert_eq!(e.message(), "HOME が設定されていません");
}
