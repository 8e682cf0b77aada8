use chcolors::config::Alias;
use chcolors::config::Config;
use chcolors::config::SetError;
use chcolors::state::State;
use chcolors::theme::Theme;
use chcolors::theme::ThemeType;

#[test]
fn test_theme_type_labels() {
    assert_eq!(ThemeType::Dark.label(), "Dark".to_string());
    assert_eq!(ThemeType::Light.label(), "Light".to_string());
}

#[test]
fn test_resolve_name_through_alias() {
    let config = Config {
        themes: vec![],
        aliases: vec![Alias {
            alias: "day".into(),
            target: "solarized".into(),
        }],
        programs: vec![],
    };

    assert_eq!(config.resolve_name(&"day".to_string()), "solarized".to_string());
    assert_eq!(config.resolve_name(&"night".to_string()), "night".to_string());
}

#[test]
fn test_find_theme_returns_first_position() {
    let config = Config {
        themes: vec![
            Theme { name: "dracula".into(), theme_type: ThemeType::Dark },
            Theme { name: "solarized".into(), theme_type: ThemeType::Light },
        ],
        aliases: vec![],
        programs: vec![],
    };

    assert_eq!(config.find_theme(&"solarized".to_string()), Some(1));
    assert_eq!(config.find_theme(&"nord".to_string()), None);
}

#[test]
fn test_select_theme_unknown_name_is_refused() {
    let config = Config {
        themes: vec![Theme { name: "dracula".into(), theme_type: ThemeType::Dark }],
        aliases: vec![],
        programs: vec![],
    };
    let state = State { current: None };

    let result = config.select_theme(&state, &"nord".to_string(), false);

    assert_eq!(result, Err(SetError::ThemeNotFound));
}

#[test]
fn test_select_theme_already_active_is_refused() {
    let config = Config {
        themes: vec![Theme { name: "dracula".into(), theme_type: ThemeType::Dark }],
        aliases: vec![],
        programs: vec![],
    };
    let state = State { current: Some("dracula".to_string()) };

    let result = config.select_theme(&state, &"dracula".to_string(), false);

    assert_eq!(result, Err(SetError::AlreadySet));
}

#[test]
fn test_select_theme_force_overrides_active() {
    let config = Config {
        themes: vec![Theme { name: "dracula".into(), theme_type: ThemeType::Dark }],
        aliases: vec![],
        programs: vec![],
    };
    let state = State { current: Some("dracula".to_string()) };

    let result = config.select_theme(&state, &"dracula".to_string(), true);

    assert_eq!(result, Ok(0));
}

#[test]
fn test_select_theme_alias_of_active_is_refused() {
    // The check compares the resolved name, not the alias the user
    // entered: an alias of the active theme counts as already set.
    let config = Config {
        themes: vec![Theme { name: "dracula".into(), theme_type: ThemeType::Dark }],
        aliases: vec![Alias { alias: "night".into(), target: "dracula".into() }],
        programs: vec![],
    };
    let state = State { current: Some("dracula".to_string()) };

    let result = config.select_theme(&state, &"night".to_string(), false);

    assert_eq!(result, Err(SetError::AlreadySet));
}

#[test]
fn test_select_theme_resolves_alias_then_finds_theme() {
    let config = Config {
        themes: vec![
            Theme { name: "dracula".into(), theme_type: ThemeType::Dark },
            Theme { name: "solarized".into(), theme_type: ThemeType::Light },
        ],
        aliases: vec![Alias { alias: "day".into(), target: "solarized".into() }],
        programs: vec![],
    };
    let state = State { current: Some("dracula".to_string()) };

    let result = config.select_theme(&state, &"day".to_string(), false);

    assert_eq!(result, Ok(1));
}

#[test]
fn test_state_default_has_no_active_theme() {
    let state = State::default();

    assert!(state.current.is_none());
    assert!(!state.is_current(&"dracula".to_string()));
}

#[test]
fn test_state_is_current() {
    let state = State { current: Some("dracula".to_string()) };

    assert!(state.is_current(&"dracula".to_string()));
    assert!(!state.is_current(&"nord".to_string()));
}
