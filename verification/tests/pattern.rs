use chcolors::pattern::Pattern;
use chcolors::pattern::use_pattern;
use chcolors::theme::Theme;
use chcolors::theme::ThemeType;

#[test]
fn test_sub_name_single_line() {
    let pattern = Pattern::compile("^colorscheme: (?P<name>.*)$".to_string()).unwrap();
    let content = "colorscheme: gruvbox";
    let new_theme = Theme {
        name: "dracula".into(),
        theme_type: ThemeType::Dark,
    };

    let output = use_pattern(&pattern, content.as_bytes(), &new_theme);

    assert!(output.is_some_and(|o| o == b"colorscheme: dracula".to_vec()));
}

#[test]
fn test_sub_name_multiple_lines() {
    let pattern = Pattern::compile("^colorscheme: (?P<name>.*)$".to_string()).unwrap();
    let content = "option: true\ncolorscheme: gruvbox\nother_option: false\n";
    let new_theme = Theme {
        name: "dracula".into(),
        theme_type: ThemeType::Dark,
    };

    let output = use_pattern(&pattern, content.as_bytes(), &new_theme);

    assert!(output
        .is_some_and(|o| o == b"option: true\ncolorscheme: dracula\nother_option: false\n".to_vec()));
}

#[test]
fn test_sub_name_multiple_matches() {
    let pattern = Pattern::compile("^colorscheme: (?P<name>.*)$".to_string()).unwrap();
    let content = "option: true\ncolorscheme: gruvbox\nother_option: false\ncolorscheme: gruvbox\nanother_option: 1\n";
    let new_theme = Theme {
        name: "dracula".into(),
        theme_type: ThemeType::Dark,
    };

    let output = use_pattern(&pattern, content.as_bytes(), &new_theme);

    assert!(output.is_some_and(|o| o == b"option: true\ncolorscheme: dracula\nother_option: false\ncolorscheme: dracula\nanother_option: 1\n".to_vec()));
}

#[test]
fn test_no_match_returns_none() {
    let pattern = Pattern::compile("^colorscheme: (?P<name>.*)$".to_string()).unwrap();
    let content = "option: true\nother_option: false\n";
    let new_theme = Theme {
        name: "dracula".into(),
        theme_type: ThemeType::Dark,
    };

    let output = use_pattern(&pattern, content.as_bytes(), &new_theme);

    assert!(output.is_none());
}

#[test]
fn test_match_without_named_group_is_inert() {
    let pattern = Pattern::compile("^option: .*$".to_string()).unwrap();
    let content = "option: true\ncolorscheme: gruvbox\n";
    let new_theme = Theme {
        name: "dracula".into(),
        theme_type: ThemeType::Dark,
    };

    let output = use_pattern(&pattern, content.as_bytes(), &new_theme);

    assert!(output.is_some_and(|o| o == content.as_bytes().to_vec()));
}

#[test]
fn test_sub_type_group() {
    let pattern = Pattern::compile("^set background=(?P<type>.*)$".to_string()).unwrap();
    let content = "set background=light";
    let new_theme = Theme {
        name: "dracula".into(),
        theme_type: ThemeType::Dark,
    };

    let output = use_pattern(&pattern, content.as_bytes(), &new_theme);

    assert!(output.is_some_and(|o| o == b"set background=Dark".to_vec()));
}

#[test]
fn test_sub_name_and_type_in_one_match() {
    let pattern =
        Pattern::compile("^theme=(?P<name>[a-z]+) kind=(?P<type>[A-Za-z]+)$".to_string()).unwrap();
    let content = "theme=gruvbox kind=Dark\n";
    let new_theme = Theme {
        name: "solarized".into(),
        theme_type: ThemeType::Light,
    };

    let output = use_pattern(&pattern, content.as_bytes(), &new_theme);

    assert!(output.is_some_and(|o| o == b"theme=solarized kind=Light\n".to_vec()));
}

#[test]
fn test_sub_with_changed_length_across_matches() {
    let pattern = Pattern::compile("^colorscheme: (?P<name>.*)$".to_string()).unwrap();
    let content = "colorscheme: a\nmiddle\ncolorscheme: bcdefgh\n";
    let new_theme = Theme {
        name: "nord".into(),
        theme_type: ThemeType::Dark,
    };

    let output = use_pattern(&pattern, content.as_bytes(), &new_theme);

    assert!(output.is_some_and(|o| o == b"colorscheme: nord\nmiddle\ncolorscheme: nord\n".to_vec()));
}

#[test]
fn test_second_application_is_idempotent() {
    let pattern = Pattern::compile("^colorscheme: (?P<name>.*)$".to_string()).unwrap();
    let content = "option: true\ncolorscheme: gruvbox\n";
    let new_theme = Theme {
        name: "dracula".into(),
        theme_type: ThemeType::Dark,
    };

    let once = use_pattern(&pattern, content.as_bytes(), &new_theme).unwrap();
    let twice = use_pattern(&pattern, &once, &new_theme).unwrap();

    assert_eq!(once, twice);
}

#[test]
fn test_invalid_pattern_is_refused() {
    assert!(Pattern::compile("(?P<name>".to_string()).is_err());
}
