use pager::binds::{bind_env, line_number};
use pager::config::{
    config_path, load_config, read_binds, read_config, ConfigError, ConfigPath, RawBind, RawConfig,
};
use pager::keys::{parse_key, Key};
use pager::pages::Page;
use pager::pattern::Pattern;

fn page(lines: Vec<&str>) -> Page<'_> {
    Page { title: None, lines }
}

#[test]
fn key_names() {
    assert_eq!(parse_key("o"), Some(Key::Char('o')));
    assert_eq!(parse_key("→"), Some(Key::Char('→')));
    assert_eq!(parse_key("enter"), Some(Key::Enter));
    assert_eq!(parse_key("tab"), Some(Key::Tab));
    assert_eq!(parse_key("esc"), Some(Key::Esc));
    assert_eq!(parse_key("space"), Some(Key::Char(' ')));
    assert_eq!(parse_key("backspace"), Some(Key::Backspace));
    for n in 1..=12u8 {
        assert_eq!(parse_key(&format!("f{}", n)), Some(Key::F(n)));
    }
    for name in ["", "f0", "f13", "Enter", "oo", "f1 "] {
        assert_eq!(parse_key(name), None);
    }
}

#[test]
fn what_a_bind_is_told() {
    let p = Page {
        title: Some("my dir/a.rs".into()),
        lines: vec!["head", "\x1b[1m12\x1b[0m x", "13 y", "14 z"],
    };
    let re = Pattern::new(r"^(\d+) ").unwrap();
    let env = bind_env(&p, 0, 3, 1, 20, Some(&re));
    assert_eq!((env.file.as_str(), env.line.as_str()), ("my dir/a.rs", "12"));
    assert_eq!((env.page.as_str(), env.total.as_str()), ("2", "20"));
    assert_eq!(bind_env(&p, 2, 3, 1, 20, Some(&re)).line, "13");
    assert_eq!(bind_env(&p, 0, 1, 1, 20, Some(&re)).line, "");
    assert_eq!(bind_env(&page(vec![]), 0, 1, 0, 1, None).file, "");
    assert_eq!(bind_env(&p, 2, 3, 1, 20, None).line, "");
    assert_eq!(line_number(&["a", "7 b"], &re).as_deref(), Some("7"));
    assert_eq!(line_number(&["a"], &re), None);
}

#[test]
fn configurations() {
    let raw = |key: &str, run: &str| RawBind { key: key.to_string(), run: run.to_string() };
    let config = read_config(Some("x"), vec![raw("o", "edit"), raw("f2", "ls")]).unwrap_or_else(
        |_| panic!("refused"),
    );
    assert!(config.line_pattern.is_some());
    assert_eq!(config.binds.len(), 2);
    assert_eq!((config.binds[0].key, config.binds[0].run.as_str()), (Key::Char('o'), "edit"));
    assert_eq!((config.binds[1].key, config.binds[1].run.as_str()), (Key::F(2), "ls"));
    assert!(read_config(None, vec![]).map(|c| c.line_pattern.is_none()).unwrap_or(false));
    match read_config(Some("("), vec![raw("o", "")]) {
        Err(ConfigError::Pattern(e)) => assert!(e.message.contains("unclosed")),
        _ => panic!("accepted"),
    }
    match read_config(Some("("), vec![raw("o", ""), raw("hyper", ""), raw("meta", "")]) {
        Err(ConfigError::Key(name)) => assert_eq!(name, "hyper"),
        _ => panic!("accepted"),
    }
    assert!(read_binds(vec![raw("", "")]).is_err());
}

#[test]
fn configuration_paths() {
    let path = |asked, xdg, home| config_path(asked, xdg, home).map(|at| (at.path, at.required));
    let found = |path: &str, required: bool| Some((path.to_string(), required));
    assert_eq!(path(Some("c"), Some("/x"), Some("/h")), found("c", true));
    assert_eq!(path(None, Some("/x"), Some("/h")), found("/x/pager/config.toml", false));
    assert_eq!(path(None, Some(""), Some("/h")), found("/h/.config/pager/config.toml", false));
    assert_eq!(path(None, None, Some("/h")), found("/h/.config/pager/config.toml", false));
    assert_eq!(path(None, None, None), None);
}

#[test]
fn only_a_file_that_was_asked_for_must_be_there() {
    let at = |required| Some(ConfigPath { path: "p".to_string(), required });
    for found in [load_config(at(false), None), load_config(None, None)] {
        match found {
            Ok(config) => assert!(config.line_pattern.is_none() && config.binds.is_empty()),
            Err(_) => panic!("refused"),
        }
    }
    match load_config(at(true), None) {
        Err(ConfigError::Missing(path)) => assert_eq!(path, "p"),
        _ => panic!("accepted"),
    }
    let file = |pattern: &str, key: &str| {
        Some(RawConfig {
            line_pattern: Some(pattern.to_string()),
            binds: vec![RawBind { key: key.to_string(), run: "ls".to_string() }],
        })
    };
    match load_config(at(true), file("x", "tab")) {
        Ok(config) => {
            assert!(config.line_pattern.is_some());
            assert_eq!(config.binds[0].key, Key::Tab);
        }
        Err(_) => panic!("refused"),
    }
    assert!(matches!(load_config(at(false), file("x", "")), Err(ConfigError::Key(_))));
    assert!(matches!(load_config(at(false), file("[", "x")), Err(ConfigError::Pattern(_))));
}
