use hocon_fmt::{format_hocon, format_hocon_with_options, FormatOptions};

fn assert_formats_to(input: &str, expected: &str) {
    assert_eq!(format_hocon(input).unwrap(), expected);
}

#[test]
fn format_ported_from_concatenation_test_string_concat_cannot_span_lines() {
    let input = "a : ${x}\nfoo, x = 1";
    assert!(format_hocon(&input).is_err());
}

#[test]
fn format_ported_from_concatenation_test_list_concat_cannot_span_lines() {
    let input = "a : [1,2]\n[3,4]";
    assert!(format_hocon(&input).is_err());
}

#[test]
fn format_ported_from_concatenation_test_object_concat_cannot_span_lines() {
    let input = "a : { b : c }\n{ x : y }";
    assert!(format_hocon(&input).is_err());
}

#[test]
fn format_ported_from_concatenation_test_objects_are_not_keys() {
    let input = "{ { a : 1 } : \"value\" }";
    assert!(format_hocon(&input).is_err());
}

#[test]
fn format_ported_from_concatenation_test_arrays_are_not_keys() {
    let input = "{ [ \"a\" ] : \"value\" }";
    assert!(format_hocon(&input).is_err());
}

#[test]
fn format_ported_from_tokenizer_test_invalid_strings_are_rejected() {
    for input in [
        "\"\\q\"",
        "\"\\u123\"",
        "\"\\u12\"",
        "\"\\u1\"",
        "\"\\u\"",
        "\"",
        "\"abcdefg",
        "$",
        "${",
    ] {
        assert!(
            format_hocon(input).is_err(),
            "expected parse failure for {input:?}"
        );
    }
}

#[test]
fn accepts_empty_implicit_root_documents() {
    for input in ["", " \n\t\u{feff}\n"] {
        assert_eq!(
            format_hocon(input).unwrap(),
            "",
            "expected empty output for {input:?}"
        );
    }
}

#[test]
fn accepts_comment_only_implicit_root_documents() {
    for input in ["# comment only\n", "// comment only\n"] {
        assert_eq!(
            format_hocon(input).unwrap(),
            input,
            "expected comments to round-trip for {input:?}"
        );
    }
}

#[test]
fn rejects_unmatched_closing_braces_in_implicit_root_documents() {
    for input in ["}", "a = 1}", "a = 1\n}", "a = { b = 1 }\n}"] {
        assert!(
            format_hocon(input).is_err(),
            "expected parse failure for {input:?}"
        );
    }
}

#[test]
fn rejects_repeated_or_misplaced_commas() {
    for input in [
        "[1,2,3,,]",
        "[,1,2,3]",
        "[1,,2,3]",
        "[1\n,2]",
        "{ a : 1,, }",
        "{ , a : 1 }",
        "{ a : 1\n, b : 2 }",
    ] {
        assert!(
            format_hocon(input).is_err(),
            "expected parse failure for {input:?}"
        );
    }
}

#[test]
fn rejects_mixed_type_value_concatenation() {
    for input in [
        "a = { b : 1 } 2",
        "a = [1] 2",
        "a = [1] { b : 2 }",
        "a = { b : 1 } [2]",
    ] {
        assert!(
            format_hocon(input).is_err(),
            "expected parse failure for {input:?}"
        );
    }
}

#[test]
fn rejects_raw_control_characters_in_quoted_strings() {
    for input in ["a = \"\t\"\n", "a = \"\r\"\n", "a = \"\u{1}\"\n"] {
        assert!(
            format_hocon(input).is_err(),
            "expected parse failure for {input:?}"
        );
    }
}

#[test]
fn formats_include_and_path_edge_cases_canonically() {
    assert_formats_to("{ foo include : 42 }", "{ \"foo include\" = 42 }\n");
    assert_formats_to("{ \"include\" : 42 }", "{ \"include\" = 42 }\n");
    assert_formats_to(
        "include\n required ( file ( \"x.conf\" ) )",
        "include required(file(\"x.conf\"))\n",
    );
    assert_formats_to("a.\"\".b = 1", "a.\"\".b = 1\n");
}

#[test]
fn keeps_single_line_collections_when_they_fit() {
    assert_formats_to("a:{b=1,c:[2,3]}", "a = { b = 1, c = [2, 3] }\n");
}

#[test]
fn breaks_collections_when_they_exceed_max_width() {
    let output = format_hocon_with_options(
        "a:{b=1,c:[2,3]}",
        FormatOptions {
            max_width: 10,
            ..FormatOptions::default()
        },
    )
    .unwrap();

    assert_eq!(output, "a = {\n  b = 1\n  c = [\n    2\n    3\n  ]\n}\n");
}

#[test]
fn preserves_multiline_arrays_even_when_they_would_fit() {
    assert_formats_to("a = [\n  1, 2\n]\n", "a = [\n  1\n  2\n]\n");
}

#[test]
fn rejects_empty_path_elements() {
    for input in ["a..b = 1", ".a = 1", "a. = 1", "a = ${foo..bar}"] {
        assert!(
            format_hocon(input).is_err(),
            "expected parse failure for {input:?}"
        );
    }
}
