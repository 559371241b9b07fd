use rust_writer::settings::{bg_mode_label, BgImageMode};
use rust_writer::theme::{theme_for_name, Color, Theme};

#[test]
fn presets_are_the_eight_built_in_themes() {
    let names: Vec<String> = Theme::presets().into_iter().map(|t| t.name).collect();
    assert_eq!(
        names,
        vec![
            "Night Owl",
            "Solarized Dark",
            "Solarized Light",
            "Typewriter",
            "Forest",
            "Midnight Blue",
            "Paper White",
            "Dracula"
        ]
    );
}

#[test]
fn night_owl_colors() {
    let t = Theme::night_owl();
    assert_eq!(t.bg_color, Color { r: 17, g: 21, b: 28, a: 255 });
    assert_eq!(t.paper_color, Color { r: 255, g: 255, b: 255, a: 255 });
    assert_eq!(t.paper_opacity_percent, 92);
    assert_eq!(t.toolbar_bg, Color::from_rgb(15, 18, 25));
}

#[test]
fn by_name_finds_each_preset() {
    for t in Theme::presets() {
        let found = Theme::by_name(&t.name).unwrap();
        assert_eq!(found.name, t.name);
        assert_eq!(found.bg_color, t.bg_color);
    }
    assert!(Theme::by_name("No Such Theme").is_none());
    assert!(Theme::by_name("night owl").is_none());
}

#[test]
fn unknown_theme_name_falls_back_to_default() {
    assert_eq!(theme_for_name("Dracula").name, "Dracula");
    assert_eq!(theme_for_name("Nope").name, "Night Owl");
    assert_eq!(Theme::default().name, "Night Owl");
}

#[test]
fn ui_text_color_contrasts_with_toolbar() {
    assert_eq!(Theme::night_owl().ui_text_color(), Color::from_rgb(210, 210, 210));
    assert_eq!(Theme::solarized_light().ui_text_color(), Color::from_rgb(40, 40, 40));
    assert_eq!(Theme::paper_white().ui_text_color(), Color::from_rgb(40, 40, 40));
    assert_eq!(Theme::dracula().ui_text_color(), Color::from_rgb(210, 210, 210));
}

#[test]
fn integer_brightness_agrees_with_float_brightness() {
    for r in 0..=255u8 {
        for g in 0..=255u8 {
            for b in 0..=255u8 {
                let l = 0.299 * r as f32 + 0.587 * g as f32 + 0.114 * b as f32;
                let c = Color::from_rgb(r, g, b);
                assert_eq!(c.is_light(), l > 128.0, "{} {} {}", r, g, b);
            }
        }
    }
}

#[test]
fn background_mode_labels() {
    assert_eq!(BgImageMode::default(), BgImageMode::Zoomed);
    assert_eq!(bg_mode_label(&BgImageMode::Zoomed), "Zoomed (cover)");
    assert_eq!(bg_mode_label(&BgImageMode::Scaled), "Scaled (fit)");
    assert_eq!(bg_mode_label(&BgImageMode::Stretched), "Stretched");
    assert_eq!(bg_mode_label(&BgImageMode::Centered), "Centered");
    assert_eq!(bg_mode_label(&BgImageMode::Tiled), "Tiled");
}
