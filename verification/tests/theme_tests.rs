use piwrite::theme::{
    hex_color_readable, omarchy_colors_path, omarchy_watch_paths, parse_theme_file,
    rgb_hex_value, system_prefers_dark, theme_file_readable,
};
use piwrite::{parse_hex_rgba, OmarchyPalette};

fn palette_from(dark_hint: bool, body: &str) -> OmarchyPalette {
    parse_theme_file(body, dark_hint).resolve(None)
}

#[test]
fn loads_omarchy_theme() {
    let palette = palette_from(
        true,
        "mode = \"light\"\naccent = \"#112233\"\nselection = \"#445566\"\nbackground = \"#fefefe\"\nforeground = \"#101010\"\n",
    );
    assert_eq!(palette.background, "#fefefe");
    assert_eq!(palette.foreground, "#101010");
    assert_eq!(palette.accent, "#112233");
    assert_eq!(palette.selection, "#445566");
    assert!(!palette.dark);
    assert_eq!(palette.hover, OmarchyPalette::fallback(false).hover);
}

#[test]
fn dark_hover_uses_lighter_background() {
    let palette = palette_from(
        false,
        "mode = \"dark\"\nbackground = \"#222822\"\nforeground = \"#e8d5b7\"\naccent = \"#4ade80\"\nselection = \"#e8d5b7\"\nmuted = \"#7f897d\"\nlighter_background = \"#2d3830\"\ndarker_background = \"#141814\"\n",
    );
    assert!(palette.dark);
    assert_eq!(palette.hover, "#2d3830");
    assert_eq!(palette.muted, "#7f897d");
}

#[test]
fn light_hover_uses_darker_background() {
    let palette = palette_from(
        true,
        "mode = \"light\"\nbackground = \"#f5f4ed\"\nforeground = \"#3f4a45\"\naccent = \"#064e3b\"\nselection = \"#3f4a45\"\nmuted = \"#7a8478\"\nlighter_background = \"#e8e7dc\"\ndarker_background = \"#edece1\"\n",
    );
    assert!(!palette.dark);
    assert_eq!(palette.hover, "#edece1");
    assert_eq!(palette.muted, "#7a8478");
}

#[test]
fn parses_selection_foreground() {
    let palette = palette_from(
        true,
        "mode = \"dark\"\nselection = \"#e8d5b7\"\nselection_foreground = \"#222822\"\nbackground = \"#222822\"\nforeground = \"#e8d5b7\"\n",
    );
    assert_eq!(palette.selection_foreground.as_deref(), Some("#222822"));
}

#[test]
fn missing_selection_foreground_is_none() {
    let palette = palette_from(
        true,
        "mode = \"dark\"\nselection = \"#45475a\"\nbackground = \"#1e1e2e\"\nforeground = \"#cdd6f4\"\n",
    );
    assert_eq!(palette.selection_foreground, None);
}

#[test]
fn invalid_selection_foreground_is_ignored() {
    let palette = palette_from(
        true,
        "mode = \"dark\"\nselection = \"#45475a\"\nselection_foreground = \"not-a-color\"\nbackground = \"#1e1e2e\"\nforeground = \"#cdd6f4\"\n",
    );
    assert_eq!(palette.selection_foreground, None);
}

#[test]
fn theme_file_details() {
    let file = parse_theme_file(
        "# comment\r\n  background = '#000000'  \r\nno equals here\nunknown = 1\nmuted=#123\n",
        false,
    );
    assert_eq!(file.palette.background, "#000000");
    assert!(file.muted_from_file);
    assert_eq!(file.mode, "");
    let dark = file.clone().resolve(Some(true));
    assert!(dark.dark);
    assert_eq!(dark.hover, OmarchyPalette::fallback(true).hover);
    assert_eq!(dark.muted, "#123");
    let light = file.resolve(None);
    assert!(!light.dark);
    let fallback = parse_theme_file("", true).resolve(None);
    assert_eq!(fallback, OmarchyPalette::fallback(true));
    let ignored = parse_theme_file("mode = light\n", true).resolve(Some(true));
    assert!(!ignored.dark);
    assert_eq!(ignored.muted, "#aeb1b5");
}

#[test]
fn fallback_palettes() {
    let dark = OmarchyPalette::fallback(true);
    assert!(dark.dark);
    assert_eq!(dark.background, "#101010");
    assert_eq!(dark.hover, "#2a2a2a");
    let light = OmarchyPalette::fallback(false);
    assert!(!light.dark);
    assert_eq!(light.foreground, "#222324");
    assert_eq!(light.selection_foreground, None);
}

#[test]
fn hex_with_alpha_parses() {
    let c = parse_hex_rgba("#ffffff00").unwrap();
    assert_eq!(c.3 as f32 / 255.0, 0.0);
    let c = parse_hex_rgba("#ffffffff").unwrap();
    assert_eq!(c.3 as f32 / 255.0, 1.0);
    let c = parse_hex_rgba("#fff").unwrap();
    assert_eq!(c.3 as f32 / 255.0, 1.0);
    assert!(parse_hex_rgba("#12345").is_none());
}

#[test]
fn hex_colors_in_every_form() {
    assert_eq!(parse_hex_rgba("#abc"), Some((0xaa, 0xbb, 0xcc, 0xff)));
    assert_eq!(parse_hex_rgba(" '#E8D5B7' "), Some((0xe8, 0xd5, 0xb7, 0xff)));
    assert_eq!(parse_hex_rgba("#e8d5b766"), Some((0xe8, 0xd5, 0xb7, 0x66)));
    assert_eq!(parse_hex_rgba("#+f+f+f"), Some((15, 15, 15, 255)));
    assert_eq!(parse_hex_rgba("#ggg"), None);
    assert_eq!(parse_hex_rgba("123456"), None);
    assert_eq!(parse_hex_rgba("#é"), None);
    assert!(hex_color_readable("#é"));
    assert!(!hex_color_readable("#éa"));
    assert!(!theme_file_readable("selection_foreground = #éa\n"));
    assert!(theme_file_readable("background = #éa\n"));
}

#[test]
fn theme_paths() {
    assert_eq!(
        omarchy_colors_path("/home/u"),
        "/home/u/.local/state/omarchy/current/theme/colors.toml"
    );
    assert_eq!(
        omarchy_watch_paths("/home/u"),
        vec![
            "/home/u/.local/state/omarchy/current".to_string(),
            "/home/u/.local/state/omarchy/current/theme".to_string(),
            "/home/u/.local/state/omarchy/current/theme/colors.toml".to_string(),
        ]
    );
}

#[test]
fn theme_colors_as_numbers() {
    assert_eq!(rgb_hex_value("#fff"), Some(0xffffff));
    assert_eq!(rgb_hex_value("  #101010 "), Some(0x101010));
    assert_eq!(rgb_hex_value("##abc"), Some(0xaabbcc));
    assert_eq!(rgb_hex_value("abc"), Some(0xaabbcc));
    assert_eq!(rgb_hex_value("#12345678"), Some(0x12345678));
    assert_eq!(rgb_hex_value("#123456789"), None);
    assert_eq!(rgb_hex_value("#+fffff"), Some(0xfffff));
    assert_eq!(rgb_hex_value("#+ff"), None);
    assert_eq!(rgb_hex_value(""), None);
    assert_eq!(rgb_hex_value("#"), None);
    assert_eq!(rgb_hex_value("#gg"), None);
    assert_eq!(rgb_hex_value("#é"), None);
    assert_eq!(rgb_hex_value("#000000000ff"), Some(0xff));
}

#[test]
fn desktop_color_scheme() {
    assert!(system_prefers_dark(None));
    assert!(system_prefers_dark(Some("'prefer-dark'\n")));
    assert!(!system_prefers_dark(Some("'prefer-light'\n")));
    assert!(system_prefers_dark(Some("'default'\n")));
    assert!(system_prefers_dark(Some("")));
    assert!(system_prefers_dark(Some("prefer-light prefer-dark")));
}
