use stackmaker::config::{Config, ConfigLoadError};

const FULL: &str = "main-font fonts/main.ttf\nmono-font fonts/mono.ttf\nsaves-dir saves\nassets-dir assets\n";

#[test]
fn parses_all_four_keys() {
    let c = Config::parse(FULL).unwrap();
    assert_eq!(c.main_font, "fonts/main.ttf");
    assert_eq!(c.mono_font, "fonts/mono.ttf");
    assert_eq!(c.saves_dir, "saves");
    assert_eq!(c.assets_dir, "assets");
}

#[test]
fn later_lines_win_and_values_keep_spaces() {
    let text = format!("{FULL}saves-dir my saves/with space\n");
    let c = Config::parse(&text).unwrap();
    assert_eq!(c.saves_dir, "my saves/with space");
}

#[test]
fn comments_unknown_keys_and_lines_without_space_are_passed_over() {
    let text = "# saves-dir commented\nsaves-dir s\nmain-font m\nwhatever x\nnospace\n\nmono-font o\nassets-dir a";
    let c = Config::parse(text).unwrap();
    assert_eq!(c.saves_dir, "s");
    assert_eq!(c.main_font, "m");
    assert_eq!(c.mono_font, "o");
    assert_eq!(c.assets_dir, "a");
}

#[test]
fn crlf_line_endings_are_dropped_but_a_last_bare_return_is_kept() {
    let text = "main-font m\r\nmono-font o\r\nsaves-dir s\r\nassets-dir a\r";
    let c = Config::parse(text).unwrap();
    assert_eq!(c.main_font, "m");
    assert_eq!(c.saves_dir, "s");
    assert_eq!(c.assets_dir, "a\r");
}

#[test]
fn non_ascii_values() {
    let text = "main-font schrift/größe.ttf\nmono-font 等幅.ttf\nsaves-dir s\nassets-dir a";
    let c = Config::parse(text).unwrap();
    assert_eq!(c.main_font, "schrift/größe.ttf");
    assert_eq!(c.mono_font, "等幅.ttf");
}

#[test]
fn missing_keys_fail_in_order() {
    assert!(matches!(Config::parse(""), Err(ConfigLoadError::NoMainFont)));
    assert!(matches!(
        Config::parse("saves-dir s\nassets-dir a\nmono-font o\n"),
        Err(ConfigLoadError::NoMainFont)
    ));
    assert!(matches!(
        Config::parse("main-font m\nsaves-dir s\nassets-dir a\n"),
        Err(ConfigLoadError::NoMonoFont)
    ));
    assert!(matches!(
        Config::parse("main-font m\nmono-font o\nassets-dir a\n"),
        Err(ConfigLoadError::NoSavesDir)
    ));
    assert!(matches!(
        Config::parse("main-font m\nmono-font o\nsaves-dir s\n"),
        Err(ConfigLoadError::NoAssetsDir)
    ));
    assert!(matches!(
        Config::parse("main-font m\nmono-font o\nsaves-dir s\nassets-dirx a\n"),
        Err(ConfigLoadError::NoAssetsDir)
    ));
}

#[test]
fn empty_value_counts() {
    let c = Config::parse("main-font \nmono-font o\nsaves-dir s\nassets-dir a").unwrap();
    assert_eq!(c.main_font, "");
}
