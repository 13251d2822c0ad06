use ansi_sentinel::sgr::{parse_sgr, Color, SgrAttribute};

#[test]
fn no_params_is_reset() {
    assert_eq!(parse_sgr(b"\x1b[m"), Some(vec![SgrAttribute::Reset]));
}

#[test]
fn explicit_zero_is_reset() {
    assert_eq!(parse_sgr(b"\x1b[0m"), Some(vec![SgrAttribute::Reset]));
}

#[test]
fn single_style_attribute() {
    assert_eq!(parse_sgr(b"\x1b[1m"), Some(vec![SgrAttribute::Bold]));
}

#[test]
fn combined_bold_and_foreground() {
    assert_eq!(
        parse_sgr(b"\x1b[1;31m"),
        Some(vec![SgrAttribute::Bold, SgrAttribute::Foreground(Color::Named(1))])
    );
}

#[test]
fn named_background() {
    assert_eq!(
        parse_sgr(b"\x1b[44m"),
        Some(vec![SgrAttribute::Background(Color::Named(4))])
    );
}

#[test]
fn bright_foreground_and_background() {
    assert_eq!(
        parse_sgr(b"\x1b[92;100m"),
        Some(vec![
            SgrAttribute::Foreground(Color::BrightNamed(2)),
            SgrAttribute::Background(Color::BrightNamed(0)),
        ])
    );
}

#[test]
fn indexed_foreground() {
    assert_eq!(
        parse_sgr(b"\x1b[38;5;196m"),
        Some(vec![SgrAttribute::Foreground(Color::Indexed(196))])
    );
}

#[test]
fn rgb_background() {
    assert_eq!(
        parse_sgr(b"\x1b[48;2;10;20;30m"),
        Some(vec![SgrAttribute::Background(Color::Rgb(10, 20, 30))])
    );
}

#[test]
fn extended_color_followed_by_more_attributes() {
    assert_eq!(
        parse_sgr(b"\x1b[38;5;196;1m"),
        Some(vec![
            SgrAttribute::Foreground(Color::Indexed(196)),
            SgrAttribute::Bold,
        ])
    );
}

#[test]
fn default_colors() {
    assert_eq!(
        parse_sgr(b"\x1b[39;49m"),
        Some(vec![SgrAttribute::DefaultForeground, SgrAttribute::DefaultBackground])
    );
}

#[test]
fn truncated_extended_color_is_rejected() {
    assert_eq!(parse_sgr(b"\x1b[38;5m"), None);
    assert_eq!(parse_sgr(b"\x1b[38;2;255;0m"), None);
}

#[test]
fn unknown_color_space_selector_is_rejected() {
    assert_eq!(parse_sgr(b"\x1b[38;9;1m"), None);
}

#[test]
fn unrecognized_code_is_rejected() {
    // 10..=20 select alternate fonts; not worth guessing at.
    assert_eq!(parse_sgr(b"\x1b[11m"), None);
}

#[test]
fn non_sgr_final_byte_is_rejected() {
    assert_eq!(parse_sgr(b"\x1b[31A"), None);
}

#[test]
fn colon_sub_parameters_are_rejected() {
    // Common in truecolor output from some emitters; not the plain
    // `;`-separated form this parser handles.
    assert_eq!(parse_sgr(b"\x1b[38:2:255:0:0m"), None);
}

#[test]
fn documented_rgb_foreground() {
    assert_eq!(
        parse_sgr(b"\x1b[38;2;255;0;0m"),
        Some(vec![SgrAttribute::Foreground(Color::Rgb(255, 0, 0))])
    );
}

#[test]
fn empty_sequence_and_empty_input_are_rejected() {
    assert_eq!(parse_sgr(b""), None);
    assert_eq!(parse_sgr(b"m"), None);
}

#[test]
fn omitted_field_counts_as_reset() {
    assert_eq!(
        parse_sgr(b"\x1b[;1m"),
        Some(vec![SgrAttribute::Reset, SgrAttribute::Bold])
    );
}

#[test]
fn every_style_code_maps_to_its_attribute() {
    let cases: [(&[u8], SgrAttribute); 17] = [
        (b"\x1b[2m", SgrAttribute::Faint),
        (b"\x1b[3m", SgrAttribute::Italic),
        (b"\x1b[4m", SgrAttribute::Underline),
        (b"\x1b[5m", SgrAttribute::SlowBlink),
        (b"\x1b[6m", SgrAttribute::RapidBlink),
        (b"\x1b[7m", SgrAttribute::Reverse),
        (b"\x1b[8m", SgrAttribute::Conceal),
        (b"\x1b[9m", SgrAttribute::Strikethrough),
        (b"\x1b[22m", SgrAttribute::NormalIntensity),
        (b"\x1b[23m", SgrAttribute::NoItalic),
        (b"\x1b[24m", SgrAttribute::NoUnderline),
        (b"\x1b[25m", SgrAttribute::NoBlink),
        (b"\x1b[27m", SgrAttribute::NoReverse),
        (b"\x1b[28m", SgrAttribute::Reveal),
        (b"\x1b[29m", SgrAttribute::NoStrikethrough),
        (b"\x1b[1m", SgrAttribute::Bold),
        (b"\x1b[0m", SgrAttribute::Reset),
    ];
    for (seq, attr) in cases {
        assert_eq!(parse_sgr(seq), Some(vec![attr]));
    }
}

#[test]
fn color_range_ends() {
    assert_eq!(
        parse_sgr(b"\x1b[30;37;40;47;90;97;100;107m"),
        Some(vec![
            SgrAttribute::Foreground(Color::Named(0)),
            SgrAttribute::Foreground(Color::Named(7)),
            SgrAttribute::Background(Color::Named(0)),
            SgrAttribute::Background(Color::Named(7)),
            SgrAttribute::Foreground(Color::BrightNamed(0)),
            SgrAttribute::Foreground(Color::BrightNamed(7)),
            SgrAttribute::Background(Color::BrightNamed(0)),
            SgrAttribute::Background(Color::BrightNamed(7)),
        ])
    );
    assert_eq!(parse_sgr(b"\x1b[26m"), None);
    assert_eq!(parse_sgr(b"\x1b[50m"), None);
    assert_eq!(parse_sgr(b"\x1b[98m"), None);
    assert_eq!(parse_sgr(b"\x1b[108m"), None);
}

#[test]
fn color_component_above_255_is_rejected() {
    assert_eq!(parse_sgr(b"\x1b[38;5;256m"), None);
    assert_eq!(parse_sgr(b"\x1b[48;2;1;2;300m"), None);
    assert_eq!(parse_sgr(b"\x1b[38;5;m"), None);
}

#[test]
fn rgb_followed_by_background_index() {
    assert_eq!(
        parse_sgr(b"\x1b[38;2;1;2;3;48;5;9m"),
        Some(vec![
            SgrAttribute::Foreground(Color::Rgb(1, 2, 3)),
            SgrAttribute::Background(Color::Indexed(9)),
        ])
    );
}

#[test]
fn unparseable_params_are_rejected() {
    assert_eq!(parse_sgr(b"\x1b[?1m"), None);
    assert_eq!(parse_sgr(b"\x1b[99999999999m"), None);
}
