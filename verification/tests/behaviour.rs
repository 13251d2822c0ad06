use ansi_sentinel::csi::parse_csi_params;
use ansi_sentinel::sgr::{parse_sgr, Color, SgrAttribute};
use ansi_sentinel::{EscapeScanner, Event, Mode, ScanError};

fn scan(input: &[u8], mode: Mode) -> Vec<Result<Event<'_>, ScanError>> {
    EscapeScanner::new(input, mode).collect_events()
}

fn bytes_of<'a>(event: &Event<'a>) -> &'a [u8] {
    match *event {
        Event::Text(b) | Event::Escape(b) | Event::Invalid(b) => b,
    }
}

#[test]
fn default_mode_is_strict() {
    assert_eq!(Mode::default(), Mode::Strict);
}

#[test]
fn error_start_reports_offset_of_every_variant() {
    assert_eq!(ScanError::UnterminatedSequence { start: 3 }.start(), 3);
    assert_eq!(ScanError::DisallowedByte { start: 4, byte: 1 }.start(), 4);
    assert_eq!(ScanError::TooManyParameters { start: 5 }.start(), 5);
    assert_eq!(ScanError::ParameterTooLarge { start: 6 }.start(), 6);
    assert_eq!(ScanError::UnsupportedSequence { start: 7, byte: 0x50 }.start(), 7);
}

#[test]
fn error_messages_name_byte_and_offset() {
    assert_eq!(
        ScanError::UnterminatedSequence { start: 0 }.to_string(),
        "unterminated escape sequence starting at byte 0"
    );
    assert_eq!(
        ScanError::DisallowedByte { start: 12, byte: 0x01 }.to_string(),
        "disallowed byte 0x01 in escape sequence starting at byte 12"
    );
    assert_eq!(
        ScanError::DisallowedByte { start: 7, byte: 0xAF }.to_string(),
        "disallowed byte 0xAF in escape sequence starting at byte 7"
    );
    assert_eq!(
        ScanError::TooManyParameters { start: 1234567 }.to_string(),
        "too many parameters in escape sequence starting at byte 1234567"
    );
    assert_eq!(
        ScanError::ParameterTooLarge { start: 10 }.to_string(),
        "parameter too long in escape sequence starting at byte 10"
    );
    assert_eq!(
        ScanError::UnsupportedSequence { start: 99, byte: 0x5D }.to_string(),
        "unsupported string sequence (introducer 0x5D) starting at byte 99"
    );
    assert_eq!(
        ScanError::UnterminatedSequence { start: usize::MAX }.to_string(),
        format!("unterminated escape sequence starting at byte {}", usize::MAX)
    );
}

#[test]
fn constructors_choose_the_mode() {
    let input = b"\x1b[31";
    assert_eq!(
        EscapeScanner::strict(input).collect_events(),
        vec![Err(ScanError::UnterminatedSequence { start: 0 })]
    );
    assert_eq!(
        EscapeScanner::lenient(input).collect_events(),
        vec![Ok(Event::Invalid(b"\x1b[31"))]
    );
}

#[test]
fn next_returns_none_at_end_and_keeps_returning_none() {
    let mut scanner = EscapeScanner::strict(b"ab");
    assert_eq!(scanner.next(), Some(Ok(Event::Text(b"ab"))));
    assert_eq!(scanner.next(), None);
    assert_eq!(scanner.next(), None);
    let mut empty = EscapeScanner::strict(b"");
    assert_eq!(empty.next(), None);
}

#[test]
fn collect_after_partial_scan_returns_the_rest() {
    let mut scanner = EscapeScanner::strict(b"a\x1bcb");
    assert_eq!(scanner.next(), Some(Ok(Event::Text(b"a"))));
    assert_eq!(
        scanner.collect_events(),
        vec![Ok(Event::Escape(b"\x1bc")), Ok(Event::Text(b"b"))]
    );
}

#[test]
fn strict_scan_stops_at_first_error() {
    let input = b"x\x1b[3\x01m\x1b[1m";
    assert_eq!(
        scan(input, Mode::Strict),
        vec![
            Ok(Event::Text(b"x")),
            Err(ScanError::DisallowedByte { start: 1, byte: 0x01 }),
        ]
    );
    let mut scanner = EscapeScanner::strict(input);
    assert_eq!(scanner.next(), Some(Ok(Event::Text(b"x"))));
    assert!(matches!(scanner.next(), Some(Err(_))));
    assert_eq!(scanner.next(), None);
}

#[test]
fn lenient_scan_continues_after_malformed_sequence() {
    let input = b"x\x1b[3\x01m\x1b[1m";
    assert_eq!(
        scan(input, Mode::Lenient),
        vec![
            Ok(Event::Text(b"x")),
            Ok(Event::Invalid(b"\x1b[3")),
            Ok(Event::Text(b"\x01m")),
            Ok(Event::Escape(b"\x1b[1m")),
        ]
    );
}

#[test]
fn lone_escape_at_end_is_unterminated() {
    assert_eq!(
        scan(b"ab\x1b", Mode::Strict),
        vec![
            Ok(Event::Text(b"ab")),
            Err(ScanError::UnterminatedSequence { start: 2 }),
        ]
    );
    assert_eq!(
        scan(b"ab\x1b", Mode::Lenient),
        vec![Ok(Event::Text(b"ab")), Ok(Event::Invalid(b"\x1b"))]
    );
}

#[test]
fn escape_followed_by_control_byte_is_disallowed() {
    assert_eq!(
        scan(b"\x1b\x01", Mode::Strict),
        vec![Err(ScanError::DisallowedByte { start: 0, byte: 0x01 })]
    );
}

#[test]
fn nf_escape_with_intermediate_is_complete() {
    assert_eq!(scan(b"\x1b(B", Mode::Strict), vec![Ok(Event::Escape(b"\x1b(B"))]);
    assert_eq!(scan(b"\x1b# 8", Mode::Strict), vec![Ok(Event::Escape(b"\x1b# 8"))]);
    assert_eq!(
        scan(b"\x1b(", Mode::Strict),
        vec![Err(ScanError::UnterminatedSequence { start: 0 })]
    );
    assert_eq!(
        scan(b"\x1b(\x7f", Mode::Strict),
        vec![Err(ScanError::DisallowedByte { start: 0, byte: 0x7f })]
    );
}

#[test]
fn parameter_after_intermediate_is_disallowed() {
    assert_eq!(
        scan(b"\x1b[1 2q", Mode::Strict),
        vec![Err(ScanError::DisallowedByte { start: 0, byte: b'2' })]
    );
    assert_eq!(
        scan(b"\x1b[1 2q", Mode::Lenient),
        vec![Ok(Event::Invalid(b"\x1b[1 2q"))]
    );
}

#[test]
fn oversized_parameter_is_an_error_in_strict_and_invalid_in_lenient() {
    let input = b"\x1b[123456789m";
    assert_eq!(
        scan(input, Mode::Strict),
        vec![Err(ScanError::ParameterTooLarge { start: 0 })]
    );
    assert_eq!(scan(input, Mode::Lenient), vec![Ok(Event::Invalid(b"\x1b[123456789m"))]);
    assert_eq!(
        scan(b"\x1b[123456789", Mode::Lenient),
        vec![Ok(Event::Invalid(b"\x1b[123456789"))]
    );
    // Eight digits are still within the limit.
    assert_eq!(
        scan(b"\x1b[12345678m", Mode::Strict),
        vec![Ok(Event::Escape(b"\x1b[12345678m"))]
    );
}

#[test]
fn too_many_parameters_is_invalid_in_lenient_mode() {
    let input = format!("\x1b[{}m", "1;".repeat(33));
    let got = scan(input.as_bytes(), Mode::Lenient);
    assert_eq!(got, vec![Ok(Event::Invalid(input.as_bytes()))]);
    // Exactly the limit is accepted in strict mode.
    let at_limit = format!("\x1b[{}1m", "1;".repeat(31));
    assert_eq!(
        scan(at_limit.as_bytes(), Mode::Strict),
        vec![Ok(Event::Escape(at_limit.as_bytes()))]
    );
}

#[test]
fn first_violation_wins() {
    // A too-long parameter is found before the disallowed byte.
    assert_eq!(
        scan(b"\x1b[123456789\x01", Mode::Strict),
        vec![Err(ScanError::ParameterTooLarge { start: 0 })]
    );
}

#[test]
fn pm_with_bel_is_disallowed_and_osc_with_stray_escape_is_disallowed() {
    assert_eq!(
        scan(b"\x1b^x\x07", Mode::Strict),
        vec![Err(ScanError::DisallowedByte { start: 0, byte: 0x07 })]
    );
    assert_eq!(
        scan(b"\x1b]x\x1bq", Mode::Strict),
        vec![Err(ScanError::DisallowedByte { start: 0, byte: 0x1b })]
    );
    assert_eq!(
        scan(b"\x1b]x\x1bq", Mode::Lenient),
        vec![Ok(Event::Invalid(b"\x1b]x")), Ok(Event::Escape(b"\x1bq"))]
    );
    assert_eq!(
        scan(b"\x1b]x\x1b", Mode::Strict),
        vec![Err(ScanError::UnterminatedSequence { start: 0 })]
    );
}

#[test]
fn lenient_scan_reconstructs_crafted_input() {
    let input = b"a\x1b[1;2m\x1b]t\x07\x1b[1 2q\x1b\x01\x1b(B\x1b[123456789mz\x1b]y";
    let events = scan(input, Mode::Lenient);
    let mut rebuilt = Vec::new();
    for e in &events {
        let e = e.as_ref().expect("lenient mode never errors");
        rebuilt.extend_from_slice(bytes_of(e));
    }
    assert_eq!(rebuilt, input.to_vec());
}

#[test]
fn modes_agree_except_where_strict_errors() {
    let input = b"a\x1b[1;2m\x1b]t\x07\x1b[1 2q\x1b\x01\x1b(B\x1b[123456789mz\x1b]y";
    let strict = scan(input, Mode::Strict);
    let lenient = scan(input, Mode::Lenient);
    assert!(strict.len() <= lenient.len());
    for (s, l) in strict.iter().zip(lenient.iter()) {
        match s {
            Ok(_) => assert_eq!(s, l),
            Err(_) => assert!(matches!(l, Ok(Event::Invalid(_)))),
        }
    }
}

#[test]
fn errors_point_at_escape_and_text_has_none() {
    let input = b"ab\x1b[\x02c\x1b]\x01d\x1b";
    let mut saw_error = false;
    for item in scan(input, Mode::Strict) {
        match item {
            Ok(Event::Text(b)) => assert!(!b.contains(&0x1b)),
            Ok(Event::Escape(b)) => assert_eq!(b[0], 0x1b),
            Ok(Event::Invalid(_)) => panic!("strict mode never reports invalid"),
            Err(e) => {
                saw_error = true;
                assert_eq!(input[e.start()], 0x1b);
            }
        }
    }
    assert!(saw_error);
}

#[test]
fn strict_csi_parameters_always_fit() {
    let input = b"\x1b[99999999;1;;99999999H";
    let events = scan(input, Mode::Strict);
    assert_eq!(events, vec![Ok(Event::Escape(&input[..]))]);
    assert_eq!(
        parse_csi_params(input),
        Some(vec![Some(99999999), Some(1), None, Some(99999999)])
    );
}

#[test]
fn scanned_sgr_sequence_parses() {
    let input = b"x\x1b[1;38;5;196mred";
    let events = scan(input, Mode::Strict);
    let escape = match events[1] {
        Ok(Event::Escape(b)) => b,
        ref other => panic!("unexpected {other:?}"),
    };
    assert_eq!(
        parse_sgr(escape),
        Some(vec![SgrAttribute::Bold, SgrAttribute::Foreground(Color::Indexed(196))])
    );
}

#[test]
fn empty_fields_count_toward_the_parameter_limit() {
    let too_many = format!("\x1b[{}m", ";".repeat(32));
    assert_eq!(
        scan(too_many.as_bytes(), Mode::Strict),
        vec![Err(ScanError::TooManyParameters { start: 0 })]
    );
    let at_limit = format!("\x1b[{}m", ";".repeat(31));
    assert_eq!(
        scan(at_limit.as_bytes(), Mode::Strict),
        vec![Ok(Event::Escape(at_limit.as_bytes()))]
    );
}

#[test]
fn only_digits_count_toward_the_parameter_length() {
    let input = b"\x1b[38:2:255:0:0m";
    assert_eq!(scan(input, Mode::Strict), vec![Ok(Event::Escape(&input[..]))]);
    assert_eq!(
        scan(b"\x1b[1:2:3:4:5:6:7:8:9m", Mode::Strict),
        vec![Err(ScanError::ParameterTooLarge { start: 0 })]
    );
    assert_eq!(
        scan(b"\x1b[?12345678h", Mode::Strict),
        vec![Ok(Event::Escape(b"\x1b[?12345678h"))]
    );
}

#[test]
fn csi_with_bytes_after_intermediates_is_not_parsed() {
    assert_eq!(parse_csi_params(b"\x1b[1 \x01q"), None);
    assert_eq!(parse_csi_params(b"\x1b[1 2q"), None);
    assert_eq!(parse_csi_params(b"\x1b[1\x01q"), None);
    assert_eq!(parse_csi_params(b"\x1b[1 !q"), Some(vec![Some(1)]));
}

#[test]
fn sgr_with_intermediate_bytes_is_rejected() {
    assert_eq!(parse_sgr(b"\x1b[1 m"), None);
    assert_eq!(parse_sgr(b"\x1b[ m"), None);
}

fn print_params(v: &[Option<u32>], final_byte: u8) -> Vec<u8> {
    let fields: Vec<String> = v
        .iter()
        .map(|p| match p {
            Some(n) => n.to_string(),
            None => String::new(),
        })
        .collect();
    let mut out = b"\x1b[".to_vec();
    out.extend_from_slice(fields.join(";").as_bytes());
    out.push(final_byte);
    out
}

#[test]
fn printed_parameters_parse_back() {
    let lists: Vec<Vec<Option<u32>>> = vec![
        vec![Some(0)],
        vec![None, None],
        vec![Some(1), None, Some(4294967295)],
        vec![None, Some(7)],
        vec![Some(12), Some(345), None],
    ];
    for v in lists {
        for f in [b'm', b'H', b'@', b'~'] {
            assert_eq!(parse_csi_params(&print_params(&v, f)), Some(v.clone()));
        }
    }
    // A single omitted field prints as no parameters at all.
    assert_eq!(parse_csi_params(&print_params(&[None], b'm')), Some(vec![]));
}

#[test]
fn joining_sgr_parameters_joins_attributes() {
    let pairs: [(&str, &str); 4] = [("1;31", "48;5;9"), ("", "1"), ("38;2;1;2;3", ""), ("0", "92")];
    for (p1, p2) in pairs {
        let a = parse_sgr(format!("\x1b[{p1}m").as_bytes()).expect("first parses");
        let b = parse_sgr(format!("\x1b[{p2}m").as_bytes()).expect("second parses");
        let joined = parse_sgr(format!("\x1b[{p1};{p2}m").as_bytes()).expect("joined parses");
        let mut expected = a.clone();
        expected.extend(b);
        assert_eq!(joined, expected);
    }
}

#[test]
fn strict_mode_accepts_each_well_formed_form() {
    let forms: [&[u8]; 8] = [
        b"\x1bc",
        b"\x1b(B",
        b"\x1b[m",
        b"\x1b[1;;38:2:1:2:3 !m",
        b"\x1b]0;title\x07",
        b"\x1b]0;title\x1b\\",
        b"\x1bPq\x1b\\",
        b"\x1b_x y\x1b\\",
    ];
    for form in forms {
        assert_eq!(scan(form, Mode::Strict), vec![Ok(Event::Escape(form))]);
    }
}
