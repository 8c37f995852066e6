use amdl::commands::{join_key, split_setting, CONFIGURE_HELP};
use amdl::config::{get_value, keys, render, set_value, template, unset_value, Config};

fn text<'a>(t: &'a toml::Table, section: &str, key: &str) -> Option<&'a str> {
    t.get(section).and_then(|s| s.get(key)).and_then(|v| v.as_str())
}

fn flag(t: &toml::Table, section: &str, key: &str) -> Option<bool> {
    t.get(section).and_then(|s| s.get(key)).and_then(|v| v.as_bool())
}

#[test]
fn template_is_fully_commented_and_documents_every_key() {
    let t = template();
    let cfg: toml::Table = t.parse().expect("template is valid TOML");
    assert!(text(&cfg, "paths", "source").is_none() && text(&cfg, "lyrics", "aligner_url").is_none());
    assert!(!flag(&cfg, "lyrics", "lrcapi_first").unwrap_or(false));
    for section in ["[paths]", "[convert]", "[keys]", "[lyrics]"] {
        assert!(t.contains(section), "missing section {section}");
    }
    for (key, _) in keys() {
        let field = key.split('.').next_back().unwrap();
        assert!(t.contains(&format!("# {field} = ")), "template lost help for {key}");
    }
}

#[test]
fn set_get_unset_round_trip_through_the_rendered_file() {
    let mut cfg = Config::default();
    set_value(&mut cfg, "lyrics.aligner_url", "http://192.168.1.6:8790").unwrap();
    set_value(&mut cfg, "paths.output", "/mnt/music/library").unwrap();
    set_value(&mut cfg, "lyrics.lrcapi_first", "true").unwrap();

    assert_eq!(get_value(&cfg, "lyrics.aligner_url").unwrap().as_deref(), Some("http://192.168.1.6:8790"));
    assert_eq!(get_value(&cfg, "lyrics.lrcapi_first").unwrap().as_deref(), Some("true"));

    let rendered = render(&cfg);
    assert!(rendered.contains("# Optional forced-alignment service"), "help dropped after set");
    assert!(rendered.contains("aligner_url = \"http://192.168.1.6:8790\""));
    assert!(rendered.contains("lrcapi_first = true"));
    let back: toml::Table = rendered.parse().unwrap();
    assert_eq!(text(&back, "paths", "output"), Some("/mnt/music/library"));
    assert_eq!(text(&back, "lyrics", "aligner_url"), Some("http://192.168.1.6:8790"));
    assert_eq!(flag(&back, "lyrics", "lrcapi_first"), Some(true));

    unset_value(&mut cfg, "lyrics.aligner_url").unwrap();
    assert!(get_value(&cfg, "lyrics.aligner_url").unwrap().is_none());
    assert!(render(&cfg).contains("# aligner_url = "), "unset should re-comment the line");
}

#[test]
fn rejects_unknown_keys_and_bad_values() {
    let mut cfg = Config::default();
    assert!(set_value(&mut cfg, "paths.nope", "x").is_err());
    assert!(get_value(&cfg, "paths.nope").is_err());
    assert!(unset_value(&mut cfg, "paths.nope").is_err());
    assert!(set_value(&mut cfg, "lyrics.lrcapi_first", "maybe").is_err());
    assert!(set_value(&mut cfg, "paths.source", "").is_err());
}

#[test]
fn values_with_quotes_survive_a_render_round_trip() {
    let mut cfg = Config::default();
    set_value(&mut cfg, "paths.source", r#"/mnt/we"ird\path"#).unwrap();
    let back: toml::Table = render(&cfg).parse().unwrap();
    assert_eq!(text(&back, "paths", "source"), Some(r#"/mnt/we"ird\path"#));
}

#[test]
fn every_setting_survives_a_render_round_trip() {
    let mut cfg = Config::default();
    for (key, _) in keys() {
        let value = if key == "lyrics.lrcapi_first" { "on" } else if key == "lyrics.hints" { "off" } else { "v \\ \" x" };
        set_value(&mut cfg, key, value).unwrap();
    }
    let back: toml::Table = render(&cfg).parse().unwrap();
    for (key, _) in keys() {
        let (section, field) = key.split_once('.').unwrap();
        match key {
            "lyrics.lrcapi_first" => assert_eq!(flag(&back, section, field), Some(true)),
            "lyrics.hints" => assert_eq!(flag(&back, section, field), Some(false)),
            _ => assert_eq!(text(&back, section, field), Some("v \\ \" x"), "{key}"),
        }
    }
}

#[test]
fn configure_help_lists_every_settable_key() {
    for (key, _) in keys() {
        assert!(CONFIGURE_HELP.contains(key), "configure --help is missing `{key}`");
    }
}

#[test]
fn join_key_accepts_words_and_dotted() {
    assert_eq!(join_key(&["lyrics".into(), "hints".into()]), "lyrics.hints");
    assert_eq!(join_key(&["lyrics.hints".into()]), "lyrics.hints");
    assert_eq!(join_key(&["paths".into(), "output".into()]), "paths.output");
}

fn words(w: &[&str]) -> Vec<String> {
    w.iter().map(|s| s.to_string()).collect()
}

#[test]
fn cli_parses_both_configure_grammars() {
    for args in [words(&["lyrics", "hints", "off"]), words(&["lyrics.hints", "off"])] {
        let (key, value) = split_setting(&args).unwrap();
        assert_eq!((key.as_str(), value.as_str()), ("lyrics.hints", "off"));
    }
    assert!(split_setting(&[]).is_none());
}

#[test]
fn configure_surface_both_grammars_and_exit_codes() {
    let mut cfg = Config::default();
    let mut set = |args: &[&str]| {
        let (key, value) = split_setting(&words(args)).unwrap();
        set_value(&mut cfg, &key, &value).map(|()| get_value(&cfg, &key).unwrap())
    };
    assert_eq!(set(&["lyrics", "hints", "off"]), Ok(Some("off".to_string())));
    assert_eq!(set(&["lyrics.hints", "on"]), Ok(Some("on".to_string())));
    assert_eq!(set(&["keys.acoustid", "ABC123"]), Ok(Some("ABC123".to_string())));
    assert!(set(&["bogus.key", "x"]).is_err());
    assert!(set(&["lyrics.hints", "maybe"]).is_err());
    assert_eq!(get_value(&cfg, &join_key(&words(&["lyrics", "hints"]))).unwrap().as_deref(), Some("on"));
    unset_value(&mut cfg, "keys.acoustid").unwrap();
    assert_eq!(get_value(&cfg, "keys.acoustid").unwrap(), None);
}

#[test]
fn config_init_writes_a_valid_annotated_template() {
    let cfg = template();
    assert!(cfg.contains("[lyrics]") && cfg.contains("aligner_url"), "template missing sections");
    assert!(cfg.contains("[paths]") && cfg.contains("[keys]"));
}

#[test]
fn a_rendered_file_keeps_the_template() {
    let mut cfg = Config::default();
    set_value(&mut cfg, "keys.discogs", "abc").unwrap();
    set_value(&mut cfg, "lyrics.hints", "off").unwrap();
    let (now, blank) = (render(&cfg), template());
    let (now, blank): (Vec<&str>, Vec<&str>) = (now.lines().collect(), blank.lines().collect());
    assert_eq!(now.len(), blank.len());
    let changed: Vec<(&str, &str)> = now.into_iter().zip(blank).filter(|(a, b)| a != b).collect();
    assert_eq!(
        changed,
        vec![
            ("discogs = \"abc\"", "# discogs = \"aBcDeFgHiJkLmNoPqRsTuVwXyZ0123456789aBcD\""),
            ("hints = false", "# hints = true"),
        ]
    );
    assert_eq!(keys()[0], ("paths.source", "read-only source (input) library path"));
}
