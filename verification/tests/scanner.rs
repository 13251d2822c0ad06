use ansi_sentinel::scanner::{BEL, MAX_PARAMS};
use ansi_sentinel::{EscapeScanner, Event, Mode, ScanError};

fn events(input: &[u8], mode: Mode) -> Vec<Result<Event<'_>, ScanError>> {
    EscapeScanner::new(input, mode).collect_events()
}

#[test]
fn plain_text_has_no_escapes() {
    let got = events(b"hello world", Mode::Strict);
    assert_eq!(got, vec![Ok(Event::Text(b"hello world"))]);
}

#[test]
fn well_formed_csi_is_accepted_in_both_modes() {
    let input = b"\x1b[31m";
    assert_eq!(
        events(input, Mode::Strict),
        vec![Ok(Event::Escape(b"\x1b[31m"))]
    );
    assert_eq!(
        events(input, Mode::Lenient),
        vec![Ok(Event::Escape(b"\x1b[31m"))]
    );
}

#[test]
fn text_and_escape_and_text() {
    let input = b"a\x1b[1mb";
    let got = events(input, Mode::Strict);
    assert_eq!(
        got,
        vec![
            Ok(Event::Text(b"a")),
            Ok(Event::Escape(b"\x1b[1m")),
            Ok(Event::Text(b"b")),
        ]
    );
}

#[test]
fn unterminated_sequence_errors_in_strict_mode() {
    let input = b"\x1b[31";
    let got = events(input, Mode::Strict);
    assert_eq!(got, vec![Err(ScanError::UnterminatedSequence { start: 0 })]);
}

#[test]
fn unterminated_sequence_recovers_in_lenient_mode() {
    let input = b"\x1b[31";
    let got = events(input, Mode::Lenient);
    assert_eq!(got, vec![Ok(Event::Invalid(b"\x1b[31"))]);
}

#[test]
fn disallowed_byte_inside_csi_errors_in_strict_mode() {
    // 0x01 is a control byte, not valid inside a CSI sequence.
    let input = b"\x1b[3\x01m";
    let got = events(input, Mode::Strict);
    assert_eq!(
        got,
        vec![Err(ScanError::DisallowedByte { start: 0, byte: 0x01 })]
    );
}

#[test]
fn simple_two_byte_escape_is_complete() {
    let input = b"\x1bc"; // RIS, full reset
    let got = events(input, Mode::Strict);
    assert_eq!(got, vec![Ok(Event::Escape(b"\x1bc"))]);
}

#[test]
fn osc_terminated_by_bel_is_accepted() {
    let input = b"\x1b]0;title\x07after";
    let got = events(input, Mode::Strict);
    assert_eq!(
        got,
        vec![
            Ok(Event::Escape(b"\x1b]0;title\x07")),
            Ok(Event::Text(b"after")),
        ]
    );
}

#[test]
fn osc_terminated_by_st_is_accepted() {
    let input = b"\x1b]0;title\x1b\\after";
    let got = events(input, Mode::Strict);
    assert_eq!(
        got,
        vec![
            Ok(Event::Escape(b"\x1b]0;title\x1b\\")),
            Ok(Event::Text(b"after")),
        ]
    );
}

#[test]
fn dcs_requires_st_and_rejects_bel() {
    // DCS (ESC P) has no BEL exception, unlike OSC: BEL is just a
    // disallowed byte inside its string.
    let input = b"\x1bP1$q\x07";
    let got = events(input, Mode::Strict);
    assert_eq!(
        got,
        vec![Err(ScanError::DisallowedByte { start: 0, byte: BEL })]
    );
}

#[test]
fn dcs_terminated_by_st_is_accepted() {
    let input = b"\x1bP1$q\x1b\\";
    let got = events(input, Mode::Strict);
    assert_eq!(got, vec![Ok(Event::Escape(b"\x1bP1$q\x1b\\"))]);
}

#[test]
fn sos_pm_apc_are_accepted() {
    assert_eq!(
        events(b"\x1bXdata\x1b\\", Mode::Strict),
        vec![Ok(Event::Escape(b"\x1bXdata\x1b\\"))]
    );
    assert_eq!(
        events(b"\x1b^data\x1b\\", Mode::Strict),
        vec![Ok(Event::Escape(b"\x1b^data\x1b\\"))]
    );
    assert_eq!(
        events(b"\x1b_data\x1b\\", Mode::Strict),
        vec![Ok(Event::Escape(b"\x1b_data\x1b\\"))]
    );
}

#[test]
fn unterminated_control_string_errors_in_strict_mode() {
    let input = b"\x1b]0;title";
    let got = events(input, Mode::Strict);
    assert_eq!(got, vec![Err(ScanError::UnterminatedSequence { start: 0 })]);
}

#[test]
fn unterminated_control_string_recovers_in_lenient_mode() {
    let input = b"\x1b]0;title";
    let got = events(input, Mode::Lenient);
    assert_eq!(got, vec![Ok(Event::Invalid(b"\x1b]0;title"))]);
}

#[test]
fn embedded_esc_aborts_control_string_and_resumes_parsing() {
    // The OSC string is never terminated; the ESC that starts the CSI
    // sequence is left for the next call to `next` instead of being
    // swallowed as string content.
    let input = b"\x1b]0;title\x1b[31m";
    let got = events(input, Mode::Lenient);
    assert_eq!(
        got,
        vec![
            Ok(Event::Invalid(b"\x1b]0;title")),
            Ok(Event::Escape(b"\x1b[31m")),
        ]
    );
}

#[test]
fn control_byte_inside_control_string_errors_in_strict_mode() {
    let input = b"\x1b]0;ti\x01tle\x07";
    let got = events(input, Mode::Strict);
    assert_eq!(
        got,
        vec![Err(ScanError::DisallowedByte { start: 0, byte: 0x01 })]
    );
}

#[test]
fn too_many_parameters_errors_in_strict_mode() {
    let params = "1;".repeat(MAX_PARAMS + 1);
    let input = format!("\x1b[{params}m");
    let got = events(input.as_bytes(), Mode::Strict);
    assert_eq!(got, vec![Err(ScanError::TooManyParameters { start: 0 })]);
}
