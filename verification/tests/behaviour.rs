use hocon_fmt::cli::{resolve_inputs, validate_cli, CliError, InputSource};
use hocon_fmt::{can_format, format_hocon, format_hocon_with_options, CommaStyle, ErrorKind, FormatOptions};

fn kind_of(input: &str) -> ErrorKind {
    format_hocon(input).unwrap_err().kind()
}

#[test]
fn formatted_text_ends_with_a_line_break() {
    for input in ["a=1", "{a=1}", "[1,2]", "a { b = 1 }", "# c"] {
        let out = format_hocon(input).unwrap();
        assert!(out.ends_with('\n'), "{input:?} gave {out:?}");
    }
}

#[test]
fn blank_input_formats_to_nothing() {
    assert_eq!(format_hocon("\r\n \t\u{a0}\u{2003}\n").unwrap(), "");
}

#[test]
fn only_blank_input_formats_to_nothing() {
    for input in ["a=1", "#", "{}", "[]", " \n x = y", "// c\n"] {
        assert!(!format_hocon(input).unwrap().is_empty(), "{input:?}");
    }
}

#[test]
fn trailing_comments_stay_stable() {
    let input = "a = 1 # one\ninclude \"x.conf\" // inc\nb = foo  # two\nc = \"s\"#three\nd = ${x} // four";
    let once = format_hocon(input).unwrap();
    assert_eq!(
        once,
        "a = 1 # one\ninclude \"x.conf\" // inc\nb = foo  # two\nc = \"s\"#three\nd = ${x} // four\n"
    );
    assert_eq!(format_hocon(&once).unwrap(), once);
}

#[test]
fn comments_after_a_comma_stay_stable() {
    let once = format_hocon("a = foo,\u{feff}# c\nb = x/,// d").unwrap();
    assert_eq!(once, "a = foo\u{feff}# c\nb = x/// d\n");
    assert_eq!(format_hocon(&once).unwrap(), once);
}

#[test]
fn a_lone_slash_before_a_comment_does_not_read_back() {
    let once = format_hocon("a = /,// c").unwrap();
    assert_eq!(once, "a = /// c\n");
    assert!(format_hocon(&once).is_err());
}

#[test]
fn single_comment_line_formats_to_itself() {
    assert_eq!(format_hocon("// x // y").unwrap(), "// x // y\n");
    assert_eq!(format_hocon("#").unwrap(), "#\n");
}

#[test]
fn quoted_keys_read_back_as_written() {
    assert_eq!(format_hocon("\"a\\u0001b\" = 1").unwrap(), "a\u{1}b = 1\n");
    assert_eq!(format_hocon("\"x\\ty\" = 1").unwrap(), "\"x\\ty\" = 1\n");
    assert_eq!(format_hocon("\"q\\\"\" = 1").unwrap(), "\"q\\\"\" = 1\n");
    assert_eq!(format_hocon("\"\\u0041b\" = 1").unwrap(), "Ab = 1\n");
}

#[test]
fn triple_quoted_keys_keep_extra_quotes() {
    assert_eq!(format_hocon("\"\"\"ab\"\"\"\" = 1").unwrap(), "\"ab\\\"\" = 1\n");
}

#[test]
fn objects_written_across_lines_stay_multiline() {
    assert_eq!(format_hocon("a = {\n b = 1 }").unwrap(), "a = {\n  b = 1\n}\n");
}

#[test]
fn objects_that_fit_stay_on_one_line() {
    assert_eq!(format_hocon("a = { b = 1, c = [1, 2] }").unwrap(), "a = { b = 1, c = [1, 2] }\n");
}

#[test]
fn empty_collections() {
    assert_eq!(format_hocon("a = {}\nb = []").unwrap(), "a = {}\nb = []\n");
}

#[test]
fn commas_between_elements_only() {
    let out = format_hocon_with_options(
        "a:{b=1,c=2}",
        FormatOptions { comma_style: CommaStyle::Commas, max_width: 1 },
    )
    .unwrap();
    assert_eq!(out, "a = {\n  b = 1,\n  c = 2\n}\n");
}

#[test]
fn trailing_commas_after_every_element() {
    let out = format_hocon_with_options(
        "a:{b=1,c=2}",
        FormatOptions { comma_style: CommaStyle::Trailing, max_width: 1 },
    )
    .unwrap();
    assert_eq!(out, "a = {\n  b = 1,\n  c = 2,\n}\n");
}

#[test]
fn comments_take_no_comma() {
    let out = format_hocon_with_options(
        "a:[1\n# c\n]",
        FormatOptions { comma_style: CommaStyle::Trailing, max_width: 80 },
    )
    .unwrap();
    assert_eq!(out, "a = [\n  1,\n  # c\n]\n");
}

#[test]
fn trailing_comments_follow_the_comma() {
    let out = format_hocon_with_options(
        "a:{b=1 # one\nc=2}",
        FormatOptions { comma_style: CommaStyle::Commas, max_width: 80 },
    )
    .unwrap();
    assert_eq!(out, "a = {\n  b = 1, # one\n  c = 2\n}\n");
}

#[test]
fn blank_lines_between_root_entries_are_kept_once() {
    assert_eq!(format_hocon("a = 1\n\n\n\nb = 2").unwrap(), "a = 1\n\nb = 2\n");
}

#[test]
fn keywords_need_no_boundary_in_values() {
    assert_eq!(format_hocon("a = yesterday").unwrap(), "a = yes terday\n");
    assert_eq!(format_hocon("a = null").unwrap(), "a = null\n");
}

#[test]
fn numbers_and_unquoted_text_join_without_space() {
    assert_eq!(format_hocon("a = 10x").unwrap(), "a = 10x\n");
    assert_eq!(format_hocon("a = 10 x").unwrap(), "a = 10 x\n");
    assert_eq!(format_hocon("a = -1.5e+10").unwrap(), "a = -1.5e+10\n");
}

#[test]
fn includes_are_written_canonically() {
    assert_eq!(format_hocon("include url( \"x\" )").unwrap(), "include url(\"x\")\n");
    assert_eq!(format_hocon("include classpath(\"y\")").unwrap(), "include classpath(\"y\")\n");
    assert_eq!(format_hocon("include \"z\"").unwrap(), "include \"z\"\n");
}

#[test]
fn substitutions_and_append() {
    assert_eq!(format_hocon("a += ${? b . c []}").unwrap(), "a += ${?b.c[]}\n");
}

#[test]
fn concatenations_in_arrays_are_multiline() {
    assert_eq!(format_hocon("a = [x y]").unwrap(), "a = [\n  x y\n]\n");
}

#[test]
fn each_error_kind_has_an_input() {
    assert_eq!(kind_of("{a=1} x"), ErrorKind::UnexpectedTrailingContent);
    assert_eq!(kind_of("a = 1}"), ErrorKind::UnexpectedClosingBrace);
    assert_eq!(kind_of("{ a : 1,, }"), ErrorKind::UnexpectedCommaInObject);
    assert_eq!(kind_of("[1,,2]"), ErrorKind::UnexpectedCommaInArray);
    assert_eq!(kind_of("[1\n,2]"), ErrorKind::UnexpectedCommaInArray);
    assert_eq!(kind_of("{ a = 1 b = 2 }"), ErrorKind::MissingObjectSeparator);
    assert_eq!(kind_of("[{} =]"), ErrorKind::MissingArraySeparator);
    assert_eq!(kind_of("a"), ErrorKind::ExpectedFieldOperator);
    assert_eq!(kind_of("include\"x\""), ErrorKind::ExpectedWhitespaceAfterInclude);
    assert_eq!(kind_of("include required(required(\"x\"))"), ErrorKind::NestedRequired);
    assert_eq!(kind_of("include foo"), ErrorKind::ExpectedIncludeTarget);
    assert_eq!(kind_of("a = [1] 2"), ErrorKind::MixedConcatenation);
    assert_eq!(kind_of("a = "), ErrorKind::ExpectedValue);
    assert_eq!(kind_of("a = ${}"), ErrorKind::ExpectedPath);
    assert_eq!(kind_of("a = ^"), ErrorKind::ExpectedUnquoted);
    assert_eq!(kind_of("a = \"\\u12\""), ErrorKind::ExpectedHexDigits);
    assert_eq!(kind_of("a = \"\\q\""), ErrorKind::InvalidEscapeInString);
    assert_eq!(kind_of("a = \"\t\""), ErrorKind::ControlCharacterInString);
    assert_eq!(kind_of("a = \"abc"), ErrorKind::UnterminatedString);
    assert_eq!(kind_of("a = \"\"\"abc"), ErrorKind::UnterminatedMultilineString);
    assert_eq!(kind_of("include file \"x\""), ErrorKind::ExpectedChar('('));
    assert_eq!(kind_of("\"\\uD800\" = 1"), ErrorKind::InvalidScalarValue);
}

#[test]
fn errors_report_line_and_column() {
    let error = format_hocon("a = 1\nb = 2}").unwrap_err();
    assert_eq!(error.kind(), ErrorKind::UnexpectedClosingBrace);
    assert_eq!(error.line(), 2);
    assert_eq!(error.column(), 6);
    assert_eq!(error.message(), "unexpected closing '}' in implicit root object");

    let error = format_hocon("a = 1\r\n\r\nb = ^").unwrap_err();
    assert_eq!(error.line(), 3);
    assert_eq!(error.column(), 5);

    let error = format_hocon("\"\\uD800\" = 1").unwrap_err();
    assert_eq!((error.line(), error.column()), (1, 1));
    assert_eq!(error.message(), "invalid Unicode scalar value");

    let error = format_hocon("include file \"x\"").unwrap_err();
    assert_eq!(error.message(), "expected '('");
}

#[test]
fn errors_show_what_and_where() {
    let error = format_hocon("a = 1\nb = 2}").unwrap_err();
    assert_eq!(error.to_string(), "unexpected closing '}' in implicit root object at line 2, column 6");
    let long = format!("{}}}", "\n".repeat(11));
    assert_eq!(format_hocon(&long).unwrap_err().to_string(), "unexpected closing '}' in implicit root object at line 12, column 1");
}

#[test]
fn empty_triple_quoted_keys_cannot_be_formatted() {
    assert!(!can_format("\"\"\"\"\"\" = 1"));
    assert!(can_format("a = \"\"\"\"\"\""));
    assert!(can_format("a = 1"));
}

#[test]
fn default_options_have_no_commas_and_eighty_columns() {
    let options = FormatOptions::default();
    assert_eq!(options.comma_style, CommaStyle::NoCommas);
    assert_eq!(options.max_width, 80);
    assert_eq!(CommaStyle::default(), CommaStyle::NoCommas);
}

#[test]
fn formatting_is_stable_on_samples() {
    for input in [
        "a:{b=1,c:[2,3]}",
        "a = yesterday",
        "# c\na = 1, # t\nb = [1\n2] // x\n\n\nc { d = ${?e} }",
        "include required(file(\"x.conf\"))\nx.\"y z\".w += \"\"\"t\"\"\"",
    ] {
        let once = format_hocon(input).unwrap();
        let twice = format_hocon(&once).unwrap();
        assert_eq!(once, twice, "{input:?}");
    }
}

#[test]
fn cli_inputs_resolve_to_sources() {
    assert_eq!(resolve_inputs(&vec![]), vec![InputSource::Stdin]);
    assert_eq!(
        resolve_inputs(&vec![false, true, false]),
        vec![InputSource::File(0), InputSource::Stdin, InputSource::File(2)]
    );
}

#[test]
fn cli_flags_are_validated_in_order() {
    let one_file = vec![InputSource::File(0)];
    let two_files = vec![InputSource::File(0), InputSource::File(1)];
    let stdin = vec![InputSource::Stdin];
    assert_eq!(validate_cli(&one_file, true, true, true, 0), Err(CliError::WriteWithCheck));
    assert_eq!(validate_cli(&one_file, true, false, true, 80), Err(CliError::WriteWithOutput));
    assert_eq!(validate_cli(&one_file, false, true, true, 80), Err(CliError::CheckWithOutput));
    assert_eq!(
        validate_cli(&vec![InputSource::Stdin, InputSource::Stdin], false, false, false, 80),
        Err(CliError::StdinMoreThanOnce)
    );
    assert_eq!(
        validate_cli(&vec![InputSource::Stdin, InputSource::File(1)], false, true, false, 80),
        Err(CliError::StdinMixedWithFiles)
    );
    assert_eq!(validate_cli(&vec![], true, false, false, 80), Err(CliError::WriteWithoutInputs));
    assert_eq!(validate_cli(&stdin, true, false, false, 80), Err(CliError::WriteWithStdin));
    assert_eq!(validate_cli(&two_files, false, false, true, 80), Err(CliError::OutputWithSeveralInputs));
    assert_eq!(validate_cli(&two_files, false, false, false, 80), Err(CliError::SeveralInputsWithoutMode));
    assert_eq!(validate_cli(&stdin, false, false, false, 0), Err(CliError::ZeroMaxWidth));
    assert_eq!(validate_cli(&two_files, false, true, false, 80), Ok(()));
    assert_eq!(CliError::ZeroMaxWidth.message(), "--max-width must be greater than zero");
}

#[test]
fn written_keys_read_back_as_the_same_keys() {
    let once = format_hocon("a . \"b.c\" . \"\" . d : 1\n\"include\".x += 2").unwrap();
    assert_eq!(once, "a.\"b.c\".\"\".d = 1\n\"include\".x += 2\n");
    assert_eq!(format_hocon(&once).unwrap(), once);
}

#[test]
fn byte_order_marks_in_unquoted_segments_are_lost_on_reading() {
    let once = format_hocon("a.\"\u{feff}b\" = 1").unwrap();
    assert_eq!(once, "a.\u{feff}b = 1\n");
    assert_eq!(format_hocon(&once).unwrap(), "a.b = 1\n");
}

#[test]
fn written_substitutions_read_back() {
    let once = format_hocon("a = ${? b . \"c d\" }\nx = ${y[]}").unwrap();
    assert_eq!(once, "a = ${?b.\"c d\"}\nx = ${y[]}\n");
    assert_eq!(format_hocon(&once).unwrap(), once);
}

#[test]
fn written_include_targets_read_back() {
    let once = format_hocon("include required( classpath( \"a\" ) )\ninclude url(\"u\")").unwrap();
    assert_eq!(once, "include required(classpath(\"a\"))\ninclude url(\"u\")\n");
    assert_eq!(format_hocon(&once).unwrap(), once);
    let error = format_hocon("include required(required(\"a\"))").unwrap_err();
    assert_eq!(error.message(), "nested required() includes are not valid");
}

#[test]
fn atom_values_are_never_broken() {
    let narrow = FormatOptions { comma_style: CommaStyle::NoCommas, max_width: 1 };
    assert_eq!(
        format_hocon_with_options("a = foo bar baz qux", narrow).unwrap(),
        "a = foo bar baz qux\n"
    );
}

#[test]
fn options_do_not_matter_without_collections() {
    let input = "a = 1\nb = x y\ninclude \"f\"\n# c\nc.d += \"e\"";
    let expected = format_hocon(input).unwrap();
    for comma_style in [CommaStyle::NoCommas, CommaStyle::Commas, CommaStyle::Trailing] {
        for max_width in [1, 5, 80, 1000] {
            let options = FormatOptions { comma_style, max_width };
            assert_eq!(format_hocon_with_options(input, options).unwrap(), expected);
        }
    }
}

#[test]
fn one_line_arrays_keep_their_text() {
    let input = "a = [1, [2, 3], \"x\"]";
    let base = FormatOptions { comma_style: CommaStyle::NoCommas, max_width: 30 };
    let once = format_hocon_with_options(input, base).unwrap();
    assert_eq!(once, "a = [1, [2, 3], \"x\"]\n");
    for comma_style in [CommaStyle::NoCommas, CommaStyle::Commas, CommaStyle::Trailing] {
        let options = FormatOptions { comma_style, max_width: 200 };
        assert_eq!(format_hocon_with_options(input, options).unwrap(), once);
    }
    assert_eq!(format_hocon("a = [\n1]").unwrap(), "a = [\n  1\n]\n");
}

#[test]
fn options_do_not_matter_for_input_without_brackets() {
    for input in ["a = x y z # c\n\nb += \"s\"", "include file(\"f\")\nq = ${r}", "a = 1}", "x"] {
        let expected = format_hocon(input);
        for comma_style in [CommaStyle::NoCommas, CommaStyle::Commas, CommaStyle::Trailing] {
            for max_width in [1, 3, 80] {
                let options = FormatOptions { comma_style, max_width };
                assert_eq!(format_hocon_with_options(input, options), expected, "{input:?}");
            }
        }
    }
}

#[test]
fn key_value_lines_format_stably() {
    for input in [
        "a : 1\n\n\nb.\"c d\" = \"x\\u0041\"\n  e += yes\nf = -1.5e3\ng = null\nh = \"\"\"t\"\"\"",
        "\"include\".x = 1\nincludes = 2",
        "# head\n\n// two\na = 1\n# after a\n\n\nb = x\n# tail",
        "include required(file(\"a\"))\n\nx = ${?y.\"z w\"[]}\ninclude \"b\"",
    ] {
        let once = format_hocon(input).unwrap();
        assert_eq!(format_hocon(&once).unwrap(), once, "{input:?}");
    }
}

#[test]
fn keys_opening_with_include_and_a_boundary_do_not_read_back() {
    let once = format_hocon("\"include/x\" = 1").unwrap();
    assert_eq!(once, "include/x = 1\n");
    assert!(format_hocon(&once).is_err());
}

#[test]
fn keys_opening_with_include_and_more_text_read_back() {
    let once = format_hocon("includes = 1\n\"include-x\".y = 2").unwrap();
    assert_eq!(once, "includes = 1\ninclude-x.y = 2\n");
    assert_eq!(format_hocon(&once).unwrap(), once);
}

#[test]
fn marks_inside_unquoted_segments_read_back() {
    let once = format_hocon("a.\"b\u{feff}c\" = 1\nx = ${p.\"q\u{feff}r\"}").unwrap();
    assert_eq!(once, "a.b\u{feff}c = 1\nx = ${p.q\u{feff}r}\n");
    assert_eq!(format_hocon(&once).unwrap(), once);
}

#[test]
fn closing_marks_after_text_read_back() {
    let once = format_hocon("a.\"b\u{feff}\" = 1\nx = ${p.\"q\u{feff}\"}").unwrap();
    assert_eq!(once, "a.b\u{feff} = 1\nx = ${p.q\u{feff}}\n");
    assert_eq!(format_hocon(&once).unwrap(), once);
}

#[test]
fn closing_marks_after_a_number_or_keyword_are_lost_on_reading() {
    let once = format_hocon("a.\"1\u{feff}\" = 1\nb.\"true\u{feff}\" = 2").unwrap();
    assert_eq!(once, "a.1\u{feff} = 1\nb.true\u{feff} = 2\n");
    assert_eq!(format_hocon(&once).unwrap(), "a.1 = 1\nb.true = 2\n");
}

#[test]
fn errors_do_not_depend_on_options() {
    for input in ["a = {", "[1,,2]", "a = \"\\q\""] {
        let expected = format_hocon(input).unwrap_err();
        for comma_style in [CommaStyle::NoCommas, CommaStyle::Commas, CommaStyle::Trailing] {
            let options = FormatOptions { comma_style, max_width: 3 };
            assert_eq!(format_hocon_with_options(input, options).unwrap_err(), expected);
        }
    }
}
