use hilite::color::{push_decimal, reset, Color, PresetColor};

#[test]
fn presets_render_standard_codes() {
    let cases = [
        (PresetColor::Red, "\x1b[31m"),
        (PresetColor::Yellow, "\x1b[33m"),
        (PresetColor::Blue, "\x1b[34m"),
        (PresetColor::Green, "\x1b[32m"),
        (PresetColor::Cyan, "\x1b[36m"),
        (PresetColor::Magenta, "\x1b[35m"),
    ];
    for (p, want) in cases {
        assert_eq!(Color::Preset(p).to_ansi(), want);
    }
}

#[test]
fn rgb_renders_truecolor_form() {
    assert_eq!(Color::RGB { r: 0, g: 0, b: 0 }.to_ansi(), "\x1b[38;2;0;0;0m");
    assert_eq!(Color::RGB { r: 255, g: 128, b: 7 }.to_ansi(), "\x1b[38;2;255;128;7m");
}

#[test]
fn distinct_colors_render_distinct_sequences() {
    let a = Color::RGB { r: 1, g: 23, b: 4 }.to_ansi();
    let b = Color::RGB { r: 12, g: 3, b: 4 }.to_ansi();
    assert_ne!(a, b);
    assert_ne!(a, reset());
}

#[test]
fn reset_sequence() {
    assert_eq!(reset(), "\x1b[0m");
}

#[test]
fn decimal_spelling() {
    let mut s = String::from("n=");
    push_decimal(&mut s, 0);
    s.push(',');
    push_decimal(&mut s, 1907);
    assert_eq!(s, "n=0,1907");
}
