use hocon_fmt::format_hocon;

#[test]
fn lightbend_upstream_ported_from_concatenation_test_string_concat_cannot_span_lines() {
    let input = "a : ${x}\nfoo, x = 1\n";
    assert!(format_hocon(input).is_err());
}

#[test]
fn lightbend_upstream_ported_from_concatenation_test_list_concat_cannot_span_lines() {
    let input = "a : [1,2]\n[3,4]\n";
    assert!(format_hocon(input).is_err());
}

#[test]
fn lightbend_upstream_ported_from_concatenation_test_object_concat_cannot_span_lines() {
    let input = "a : { b : c }\n{ x : y }\n";
    assert!(format_hocon(input).is_err());
}

#[test]
fn lightbend_upstream_ported_from_concatenation_test_string_concat_inside_array_value() {
    let input = "a : [ foo bar 10 ]";
    let expected = "a = [\n  foo bar 10\n]\n";

    assert_eq!(format_hocon(input).unwrap(), expected);
}

#[test]
fn lightbend_upstream_ported_from_concatenation_test_string_concats_are_keys() {
    let input = "123 foo : \"value\"";
    let expected = "\"123 foo\" = \"value\"\n";

    assert_eq!(format_hocon(input).unwrap(), expected);
}

#[test]
fn lightbend_upstream_ported_from_concatenation_test_objects_are_not_keys() {
    let input = "{ { a : 1 } : \"value\" }";
    assert!(format_hocon(input).is_err());
}

#[test]
fn lightbend_upstream_ported_from_concatenation_test_arrays_are_not_keys() {
    let input = "{ [ \"a\" ] : \"value\" }";
    assert!(format_hocon(input).is_err());
}

#[test]
fn lightbend_upstream_ported_from_tokenizer_test_invalid_strings_are_rejected() {
    for input in [
        "\"\\q\"",
        "\"\\u123\"",
        "\"\\u12\"",
        "\"\\u1\"",
        "\"\\u\"",
        "\"",
        "\"abcdefg",
        "$",
        "${",
    ] {
        assert!(
            format_hocon(input).is_err(),
            "expected parse failure for {input:?}"
        );
    }
}
