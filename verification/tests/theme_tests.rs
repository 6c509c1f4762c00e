use fswhy::theme::{Color, PresetColor, Theme, ThemeError};

#[test]
fn preset_names_parse_case_insensitively() {
    assert_eq!(PresetColor::parse("blue").unwrap(), PresetColor::Blue);
    assert_eq!(PresetColor::parse("Blue").unwrap(), PresetColor::Blue);
    assert_eq!(PresetColor::parse("PURPLE").unwrap(), PresetColor::Magenta);
    assert_eq!(PresetColor::parse("default_fg").unwrap(), PresetColor::FgReset);
    assert_eq!(PresetColor::parse("yel").unwrap(), PresetColor::Yellow);
    assert_eq!(PresetColor::parse("Reverse").unwrap(), PresetColor::Invert);
}

#[test]
fn unknown_preset_names_are_rejected() {
    assert_eq!(PresetColor::parse("turquoise").unwrap_err(), ThemeError::UnknownColor);
    assert_eq!(PresetColor::parse("").unwrap_err(), ThemeError::UnknownColor);
    assert_eq!(PresetColor::parse("blu e").unwrap_err(), ThemeError::UnknownColor);
}

#[test]
fn preset_colors_render_their_escape_sequences() {
    let c = Color::Preset { name: "blue".to_string() };
    assert_eq!(c.to_ansi().unwrap(), "\x1b[34m");
    assert_eq!(c.to_rgb().unwrap(), (36, 114, 200));
    let c = Color::Preset { name: "RESET".to_string() };
    assert_eq!(c.to_ansi().unwrap(), "\x1b[0m");
}

#[test]
fn rgb_colors_render_24_bit_escape_sequences() {
    let c = Color::RGB { r: 0, g: 210, b: 255 };
    assert_eq!(c.to_ansi().unwrap(), "\x1b[38;2;0;210;255m");
    assert_eq!(c.to_rgb().unwrap(), (0, 210, 255));
    let c = Color::RGB { r: 7, g: 58, b: 123 };
    assert_eq!(c.to_ansi().unwrap(), "\x1b[38;2;7;58;123m");
}

#[test]
fn color_validation_follows_name_resolution() {
    assert!(Color::Preset { name: "magenta".to_string() }.validate().is_ok());
    assert!(Color::RGB { r: 1, g: 2, b: 3 }.validate().is_ok());
    assert_eq!(
        Color::Preset { name: "nope".to_string() }.validate().unwrap_err(),
        ThemeError::UnknownColor
    );
}

#[test]
fn default_theme_is_valid() {
    let theme = Theme::default();
    assert!(theme.validate().is_ok());
    assert_eq!(theme.dir.to_ansi().unwrap(), "\x1b[34m");
    assert_eq!(theme.error.to_ansi().unwrap(), "\x1b[31m");
}

#[test]
fn theme_validation_reports_a_bad_color() {
    let mut theme = Theme::default();
    theme.file = Color::Preset { name: "chartreuse".to_string() };
    assert_eq!(theme.validate().unwrap_err(), ThemeError::UnknownColor);
}
