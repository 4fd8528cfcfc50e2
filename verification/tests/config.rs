use gadv::config::{default_max_commits, Config};
use gadv::log::log_line;
use gadv::theme::get_theme_by_name;

#[test]
fn default_config_values() {
    let c = Config::default();
    assert_eq!(c.language, "es");
    assert!(!c.nerd_font);
    assert_eq!(c.theme, "Advance Ink");
    assert_eq!(c.max_commits, 50_000);
    assert_eq!(default_max_commits(), 50_000);
    assert!(c.ignores.is_empty());
    assert!(!c.no_cache);
}

#[test]
fn log_lines_carry_the_stamp() {
    assert_eq!(log_line("12.500", "test message"), "[12.] test message\n");
    assert_eq!(log_line("7", "x"), "[7] x\n");
}

#[test]
fn default_theme_resolves_to_itself() {
    let c = Config::default();
    assert_eq!(get_theme_by_name(&c.theme).name, "Advance Ink");
}
