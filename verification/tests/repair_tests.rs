//! End-to-end checks of `repair`: the literal scenarios, one exact
//! expected output per repair kind, and every error variant.

use reparojson::{repair, RepairErr, RepairOk, SyntaxError};

#[test]
fn null_is_valid() {
    let input = b"null".to_vec();
    let mut out: Vec<u8> = Vec::new();
    assert_eq!(repair(&input, &mut out), Ok(RepairOk::Valid));
    assert_eq!(out, b"null");
}

#[test]
fn padded_false_is_valid() {
    let input = b" false ".to_vec();
    let mut out: Vec<u8> = Vec::new();
    assert_eq!(repair(&input, &mut out), Ok(RepairOk::Valid));
    assert_eq!(out, b" false ");
}

#[test]
fn lone_comma_in_array_is_dropped() {
    let input = b"[  , ]".to_vec();
    let mut out: Vec<u8> = Vec::new();
    assert_eq!(repair(&input, &mut out), Ok(RepairOk::Repaired));
    assert_eq!(out, b"[   ]");
}

#[test]
fn trailing_comma_in_array_is_dropped() {
    let input = b"[   1 ,  ]".to_vec();
    let mut out: Vec<u8> = Vec::new();
    assert_eq!(repair(&input, &mut out), Ok(RepairOk::Repaired));
    assert_eq!(out, b"[   1   ]");
}

#[test]
fn missing_comma_in_array_is_inserted() {
    let input = b"[1   2  ]".to_vec();
    let mut out: Vec<u8> = Vec::new();
    assert_eq!(repair(&input, &mut out), Ok(RepairOk::Repaired));
    assert_eq!(out, b"[1,   2  ]");
}

#[test]
fn comma_cannot_start_an_object_member() {
    let input = b"{,,}".to_vec();
    let mut out: Vec<u8> = Vec::new();
    assert_eq!(
        repair(&input, &mut out),
        Err(RepairErr::Invalid(SyntaxError::InvalidValue))
    );
}

#[test]
fn bare_word_is_invalid() {
    let input = b"foo".to_vec();
    let mut out: Vec<u8> = Vec::new();
    assert_eq!(
        repair(&input, &mut out),
        Err(RepairErr::Invalid(SyntaxError::InvalidValue))
    );
}

#[test]
fn several_defects_still_one_repaired_outcome() {
    let input = b"[1 2,]".to_vec();
    let mut out: Vec<u8> = Vec::new();
    assert_eq!(repair(&input, &mut out), Ok(RepairOk::Repaired));
    assert_eq!(out, b"[1, 2]");
}

#[test]
fn three_unseparated_elements_get_two_commas() {
    let input = b"[1 2 3]".to_vec();
    let mut out: Vec<u8> = Vec::new();
    assert_eq!(repair(&input, &mut out), Ok(RepairOk::Repaired));
    assert_eq!(out, b"[1, 2, 3]");
}

#[test]
fn repaired_output_reruns_as_valid_identity() {
    let input = b"[  , ]".to_vec();
    let mut once: Vec<u8> = Vec::new();
    assert_eq!(repair(&input, &mut once), Ok(RepairOk::Repaired));
    let mut twice: Vec<u8> = Vec::new();
    assert_eq!(repair(&once, &mut twice), Ok(RepairOk::Valid));
    assert_eq!(twice, once);
}

#[test]
fn repaired_object_output_reruns_as_valid_identity() {
    let input = b"{\"a\":1 \"b\":[true null,]}".to_vec();
    let mut once: Vec<u8> = Vec::new();
    assert_eq!(repair(&input, &mut once), Ok(RepairOk::Repaired));
    let mut twice: Vec<u8> = Vec::new();
    assert_eq!(repair(&once, &mut twice), Ok(RepairOk::Valid));
    assert_eq!(twice, once);
}

#[test]
fn missing_comma_in_object_is_inserted_after_whitespace() {
    let input = b"{\"a\":1 \"b\":2}".to_vec();
    let mut out: Vec<u8> = Vec::new();
    assert_eq!(repair(&input, &mut out), Ok(RepairOk::Repaired));
    assert_eq!(out, b"{\"a\":1 ,\"b\":2}");
}

#[test]
fn trailing_comma_in_object_is_dropped() {
    let input = b"{\"a\":1,}".to_vec();
    let mut out: Vec<u8> = Vec::new();
    assert_eq!(repair(&input, &mut out), Ok(RepairOk::Repaired));
    assert_eq!(out, b"{\"a\":1}");
}

#[test]
fn lone_comma_in_object_is_dropped() {
    let input = b"{ , }".to_vec();
    let mut out: Vec<u8> = Vec::new();
    assert_eq!(repair(&input, &mut out), Ok(RepairOk::Repaired));
    assert_eq!(out, b"{  }");
}

#[test]
fn empty_object_and_array_are_valid() {
    let mut out: Vec<u8> = Vec::new();
    assert_eq!(repair(&b"{}".to_vec(), &mut out), Ok(RepairOk::Valid));
    assert_eq!(out, b"{}");
    let mut out2: Vec<u8> = Vec::new();
    assert_eq!(repair(&b"[ ]".to_vec(), &mut out2), Ok(RepairOk::Valid));
    assert_eq!(out2, b"[ ]");
}

#[test]
fn nested_document_is_echoed_byte_for_byte() {
    let input = b"{\"a\": 1, \"b\": [true, null, \"x\"],\t\"c\": {\"d\": -2.5e+10}}\n".to_vec();
    let mut out: Vec<u8> = Vec::new();
    assert_eq!(repair(&input, &mut out), Ok(RepairOk::Valid));
    assert_eq!(out, input);
}

#[test]
fn unicode_escape_keeps_all_six_characters() {
    let input = b"\"a\\u0041b\"".to_vec();
    let mut out: Vec<u8> = Vec::new();
    assert_eq!(repair(&input, &mut out), Ok(RepairOk::Valid));
    assert_eq!(out, b"\"a\\u0041b\"");
}

#[test]
fn simple_escapes_are_echoed() {
    let input = b"\"\\n\\t\\\\\\\"\\/\"".to_vec();
    let mut out: Vec<u8> = Vec::new();
    assert_eq!(repair(&input, &mut out), Ok(RepairOk::Valid));
    assert_eq!(out, input);
}

#[test]
fn bad_escape_is_invalid() {
    let input = b"\"\\q\"".to_vec();
    let mut out: Vec<u8> = Vec::new();
    assert_eq!(
        repair(&input, &mut out),
        Err(RepairErr::Invalid(SyntaxError::InvalidValue))
    );
}

#[test]
fn non_hex_digit_in_unicode_escape_is_invalid() {
    let input = b"\"\\u00G1\"".to_vec();
    let mut out: Vec<u8> = Vec::new();
    assert_eq!(
        repair(&input, &mut out),
        Err(RepairErr::Invalid(SyntaxError::InvalidValue))
    );
}

#[test]
fn commas_inside_strings_are_content_not_separators() {
    let input = b"[\"a,b\" , ]".to_vec();
    let mut out: Vec<u8> = Vec::new();
    assert_eq!(repair(&input, &mut out), Ok(RepairOk::Repaired));
    assert_eq!(out, b"[\"a,b\"  ]");
}

#[test]
fn number_formatting_is_preserved() {
    let input = b"[-12.50e+07, 0, 0.5, 1E9, -0]".to_vec();
    let mut out: Vec<u8> = Vec::new();
    assert_eq!(repair(&input, &mut out), Ok(RepairOk::Valid));
    assert_eq!(out, input);
}

#[test]
fn leading_zero_number_leaves_trailing_data() {
    let input = b"01".to_vec();
    let mut out: Vec<u8> = Vec::new();
    assert_eq!(
        repair(&input, &mut out),
        Err(RepairErr::Invalid(SyntaxError::TrailingData))
    );
}

#[test]
fn double_minus_is_invalid() {
    let input = b"--1".to_vec();
    let mut out: Vec<u8> = Vec::new();
    assert_eq!(
        repair(&input, &mut out),
        Err(RepairErr::Invalid(SyntaxError::InvalidValue))
    );
}

#[test]
fn truncated_inputs_are_unexpected_eof() {
    for case in [
        &b""[..],
        &b"  "[..],
        &b"[1"[..],
        &b"{\"a\":1"[..],
        &b"\"abc"[..],
        &b"tru"[..],
        &b"-"[..],
        &b"1."[..],
        &b"1e"[..],
    ] {
        let input = case.to_vec();
        let mut out: Vec<u8> = Vec::new();
        assert_eq!(
            repair(&input, &mut out),
            Err(RepairErr::Invalid(SyntaxError::UnexpectedEof)),
            "input {:?}",
            case
        );
    }
}

#[test]
fn stray_commas_and_bad_brackets_are_errors() {
    for case in [&b"[,,]"[..], &b"[1}"[..], &b"{]"[..], &b"truu"[..]] {
        let input = case.to_vec();
        let mut out: Vec<u8> = Vec::new();
        assert!(
            matches!(repair(&input, &mut out), Err(RepairErr::Invalid(_))),
            "input {:?}",
            case
        );
    }
}

#[test]
fn bytes_after_a_complete_value_are_trailing_data() {
    let input = b"1 2".to_vec();
    let mut out: Vec<u8> = Vec::new();
    assert_eq!(
        repair(&input, &mut out),
        Err(RepairErr::Invalid(SyntaxError::TrailingData))
    );
}

#[test]
fn output_is_appended_after_existing_bytes() {
    let input = b"true".to_vec();
    let mut out: Vec<u8> = b"x".to_vec();
    assert_eq!(repair(&input, &mut out), Ok(RepairOk::Valid));
    assert_eq!(out, b"xtrue");
}

#[test]
fn failed_run_leaves_the_sink_untouched() {
    let input = b"[1, oops]".to_vec();
    let mut out: Vec<u8> = b"kept".to_vec();
    assert!(matches!(repair(&input, &mut out), Err(RepairErr::Invalid(_))));
    assert_eq!(out, b"kept");
}

#[test]
fn deeply_nested_arrays_are_valid() {
    let depth = 64;
    let mut input: Vec<u8> = Vec::new();
    for _ in 0..depth {
        input.push(b'[');
    }
    for _ in 0..depth {
        input.push(b']');
    }
    let mut out: Vec<u8> = Vec::new();
    assert_eq!(repair(&input, &mut out), Ok(RepairOk::Valid));
    assert_eq!(out, input);
}

#[test]
fn defects_on_two_nesting_levels_are_both_repaired() {
    let input = b"[[1 2],[3,]]".to_vec();
    let mut out: Vec<u8> = Vec::new();
    assert_eq!(repair(&input, &mut out), Ok(RepairOk::Repaired));
    assert_eq!(out, b"[[1, 2],[3]]");
}
