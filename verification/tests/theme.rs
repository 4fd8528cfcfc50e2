use gadv::theme::{get_theme_by_name, get_themes, Rgb};

#[test]
fn each_theme_has_unique_name() {
    let themes = get_themes();
    let names: std::collections::HashSet<&str> = themes.iter().map(|t| t.name).collect();
    assert_eq!(names.len(), themes.len());
}

#[test]
fn all_theme_names_are_non_empty() {
    for t in get_themes() {
        assert!(!t.name.is_empty(), "theme has empty name");
    }
}

#[test]
fn name_lookup_finds_every_theme() {
    for t in get_themes() {
        let found = get_theme_by_name(t.name);
        assert_eq!(found.name, t.name, "failed to find theme '{}'", t.name);
    }
}

#[test]
fn unknown_name_returns_tokyo_night() {
    let t = get_theme_by_name("BogusThemeXYZ");
    assert_eq!(t.name, "Tokyo Night");
}

#[test]
fn theme_is_copy() {
    let themes = get_themes();
    let t1 = themes[0];
    let t2 = t1;
    assert_eq!(t1.name, t2.name);
}

#[test]
fn themes_keep_their_colours() {
    let themes = get_themes();
    assert_eq!(themes.len(), 11);
    assert_eq!(themes[10].name, "Advance Ink");
    assert_eq!(themes[0].name, "Catppuccin Mocha");
    assert_eq!(themes[0].background, Rgb(0x1E, 0x1E, 0x2E));
    assert_eq!(get_theme_by_name("Tokyo Night").primary, Rgb(0x7A, 0xA2, 0xF7));
}
