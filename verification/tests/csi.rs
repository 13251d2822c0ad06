use ansi_sentinel::csi::parse_csi_params;

#[test]
fn single_param() {
    assert_eq!(parse_csi_params(b"\x1b[31m"), Some(vec![Some(31)]));
}

#[test]
fn no_params_defaults_to_empty_list() {
    assert_eq!(parse_csi_params(b"\x1b[m"), Some(vec![]));
}

#[test]
fn multiple_params() {
    assert_eq!(
        parse_csi_params(b"\x1b[1;30;47m"),
        Some(vec![Some(1), Some(30), Some(47)])
    );
}

#[test]
fn empty_fields_are_none() {
    assert_eq!(
        parse_csi_params(b"\x1b[1;;3m"),
        Some(vec![Some(1), None, Some(3)])
    );
    assert_eq!(parse_csi_params(b"\x1b[;1m"), Some(vec![None, Some(1)]));
    assert_eq!(parse_csi_params(b"\x1b[1;m"), Some(vec![Some(1), None]));
}

#[test]
fn intermediate_bytes_are_excluded_from_params() {
    // ESC [ 1 SP q  -- DECSCUSR, cursor style, with an intermediate byte.
    assert_eq!(parse_csi_params(b"\x1b[1 q"), Some(vec![Some(1)]));
}

#[test]
fn private_marker_prefix_is_not_numeric() {
    assert_eq!(parse_csi_params(b"\x1b[?25h"), None);
}

#[test]
fn colon_sub_parameters_are_not_numeric() {
    assert_eq!(parse_csi_params(b"\x1b[38:2:255:0:0m"), None);
}

#[test]
fn non_csi_input_is_rejected() {
    assert_eq!(parse_csi_params(b"\x1bc"), None);
    assert_eq!(parse_csi_params(b"not an escape"), None);
    assert_eq!(parse_csi_params(b"\x1b["), None);
}

#[test]
fn overflowing_param_is_rejected() {
    assert_eq!(parse_csi_params(b"\x1b[99999999999999m"), None);
}

#[test]
fn documented_examples_parse() {
    assert_eq!(parse_csi_params(b"\x1b[31m"), Some(vec![Some(31)]));
    assert_eq!(
        parse_csi_params(b"\x1b[1;;3m"),
        Some(vec![Some(1), None, Some(3)])
    );
    assert_eq!(parse_csi_params(b"\x1b[m"), Some(vec![]));
    assert_eq!(parse_csi_params(b"\x1b[?25h"), None);
}

#[test]
fn largest_u32_field_is_accepted_and_next_value_overflows() {
    assert_eq!(
        parse_csi_params(b"\x1b[4294967295m"),
        Some(vec![Some(4294967295)])
    );
    assert_eq!(parse_csi_params(b"\x1b[4294967296m"), None);
    assert_eq!(parse_csi_params(b"\x1b[42949672950m"), None);
}

#[test]
fn leading_zeros_are_read_as_decimal() {
    assert_eq!(
        parse_csi_params(b"\x1b[0000000000007;010H"),
        Some(vec![Some(7), Some(10)])
    );
}

#[test]
fn only_separators_give_all_omitted_fields() {
    assert_eq!(parse_csi_params(b"\x1b[;m"), Some(vec![None, None]));
    assert_eq!(parse_csi_params(b"\x1b[;;H"), Some(vec![None, None, None]));
}

#[test]
fn final_byte_outside_range_is_rejected() {
    assert_eq!(parse_csi_params(b"\x1b[1\x7f"), None);
    assert_eq!(parse_csi_params(b"\x1b[1;2"), None);
}

#[test]
fn intermediate_only_sequence_has_no_params() {
    assert_eq!(parse_csi_params(b"\x1b[ q"), Some(vec![]));
}

#[test]
fn params_after_intermediate_are_rejected() {
    assert_eq!(parse_csi_params(b"\x1b[5 7q"), None);
}

#[test]
fn non_digit_after_overflowing_digits_is_rejected() {
    assert_eq!(parse_csi_params(b"\x1b[99999999999x;1m"), None);
}
