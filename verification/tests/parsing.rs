use tap_stream::parsing::{
    parse_anything, parse_bail_out, parse_comment, parse_description, parse_details, parse_directive,
    parse_empty, parse_plan, parse_pragma, parse_status, parse_test_number, parse_test_point,
    parse_test_points, parse_version, parse_yaml, Outcome,
};
use tap_stream::{BailOut, Pragma, TestDetails, TestDirective, TestPlan, TestPoint};

#[test]
fn test_status() {
    let input = "ok";

    match parse_status(input) {
        Outcome::Parsed(status, _) => assert!(status),
        _ => panic!("expected a parsed status"),
    }
}

#[test]
fn test_test_number() {
    let input = " 1";
    match parse_test_number(input) {
        Outcome::Parsed(test_number, _) => assert_eq!(test_number, 1),
        _ => panic!("expected a parsed test number"),
    }
}

#[test]
fn test_description_no_dash() {
    let input = " this is a description\n";
    let expected = "this is a description";

    match parse_description(input) {
        Outcome::Parsed(parsed, consumed) => {
            assert_eq!(&input[consumed..], "\n");
            assert_eq!(parsed, expected);
        }
        _ => panic!("expected a parsed description"),
    }
}

#[test]
fn test_description_with_dash() {
    let input = " - this is a description #";
    let expected = "this is a description";

    match parse_description(input) {
        Outcome::Parsed(parsed, consumed) => {
            assert_eq!(&input[consumed..], " #");
            assert_eq!(parsed, expected);
        }
        _ => panic!("expected a parsed description"),
    }
}

#[test]
fn test_parse_lower_case_directive_with_reason() {
    let input = " #skip this is a directive \n";
    let expected = TestDirective::Skip(Some("this is a directive".to_string()));

    match parse_directive(input) {
        Outcome::Parsed(parsed, consumed) => {
            assert_eq!(&input[consumed..], "\n");
            assert_eq!(parsed, expected);
        }
        _ => panic!("expected a parsed directive"),
    }
}

#[test]
fn test_parse_mixed_case_directive_with_reason() {
    let input = " # SKiP another directive   \n";
    let expected = TestDirective::Skip(Some("another directive".to_string()));

    match parse_directive(input) {
        Outcome::Parsed(parsed, consumed) => {
            assert_eq!(&input[consumed..], "\n");
            assert_eq!(parsed, expected);
        }
        _ => panic!("expected a parsed directive"),
    }
}

#[test]
fn test_parse_upper_case_directive_with_reason() {
    let input = " #    TODO           is a directive\n";
    let expected = TestDirective::Todo(Some("is a directive".to_string()));

    match parse_directive(input) {
        Outcome::Parsed(parsed, consumed) => {
            assert_eq!(&input[consumed..], "\n");
            assert_eq!(parsed, expected);
        }
        _ => panic!("expected a parsed directive"),
    }
}

#[test]
fn test_parse_upper_case_directive_without_reason() {
    let input = " # TODO\n";
    let expected = TestDirective::Todo(None);

    match parse_directive(input) {
        Outcome::Parsed(parsed, consumed) => {
            assert_eq!(&input[consumed..], "\n");
            assert_eq!(parsed, expected);
        }
        _ => panic!("expected a parsed directive"),
    }
}

#[test]
fn test_parse_legacy_directive_with_reason() {
    let input = " #SKIPPED: real reason\n";
    let expected = TestDirective::Skip(Some("real reason".to_string()));

    match parse_directive(input) {
        Outcome::Parsed(parsed, consumed) => {
            assert_eq!(&input[consumed..], "\n");
            assert_eq!(parsed, expected);
        }
        _ => panic!("expected a parsed directive"),
    }
}

#[test]
fn parse_single_ok() {
    let input = "ok\n";
    let tests = match parse_test_points(input) {
        Outcome::Parsed(tests, _) => tests,
        _ => panic!("expected parsed test points"),
    };

    let expected = vec![TestPoint {
        status: true,
        description: None,
        directive: None,
        yaml: None,
        test_number: None,
    }];
    assert_eq!(tests.len(), 1);
    assert_eq!(tests, expected);
}

#[test]
fn parse_ok_with_description() {
    let input = "ok - this is a stupid description\n";
    let tests = match parse_test_points(input) {
        Outcome::Parsed(tests, _) => tests,
        _ => panic!("expected parsed test points"),
    };

    let expected = vec![TestPoint {
        status: true,
        description: Some("this is a stupid description".to_string()),
        directive: None,
        yaml: None,
        test_number: None,
    }];
    assert_eq!(tests.len(), 1);
    assert_eq!(tests, expected);
}

#[test]
fn parse_ok_with_description_num_and_directive() {
    let input = "ok 3 - this is a stupid description # SkiPped: stupid Legacy skip \n";
    let tests = match parse_test_points(input) {
        Outcome::Parsed(tests, _) => tests,
        _ => panic!("expected parsed test points"),
    };

    let expected = vec![TestPoint {
        status: true,
        description: Some("this is a stupid description".to_string()),
        directive: Some(TestDirective::Skip(Some("stupid Legacy skip".to_string()))),
        yaml: None,
        test_number: Some(3),
    }];
    assert_eq!(tests.len(), 1);
    assert_eq!(tests, expected);
}

#[test]
fn directive_keyword_case_does_not_matter() {
    let upper = match parse_test_point("ok # TODO\n") {
        Outcome::Parsed(p, _) => p,
        _ => panic!("expected a test point"),
    };
    let lower = match parse_test_point("ok # todo\n") {
        Outcome::Parsed(p, _) => p,
        _ => panic!("expected a test point"),
    };
    assert_eq!(upper.directive, Some(TestDirective::Todo(None)));
    assert_eq!(upper, lower);
}

#[test]
fn bare_ok_line_is_one_test_point() {
    match parse_test_point("ok\n") {
        Outcome::Parsed(p, consumed) => {
            assert_eq!(consumed, 3);
            assert_eq!(
                p,
                TestPoint {
                    status: true,
                    test_number: None,
                    description: None,
                    directive: None,
                    yaml: None,
                }
            );
        }
        _ => panic!("expected a test point"),
    }
}

#[test]
fn skip_line_with_number_and_description() {
    let input = "ok 3 - this is a stupid description # SkiPped: stupid Legacy skip \n";
    match parse_test_point(input) {
        Outcome::Parsed(p, consumed) => {
            assert_eq!(consumed, input.len());
            assert_eq!(p.status, true);
            assert_eq!(p.test_number, Some(3));
            assert_eq!(p.description, Some("this is a stupid description".to_string()));
            assert_eq!(
                p.directive,
                Some(TestDirective::Skip(Some("stupid Legacy skip".to_string())))
            );
            assert_eq!(p.yaml, None);
        }
        _ => panic!("expected a test point"),
    }
}

#[test]
fn unterminated_description_is_incomplete() {
    assert_eq!(parse_test_point("ok - this is a description #"), Outcome::Incomplete);
    assert_eq!(parse_directive(" #"), Outcome::Incomplete);
}

#[test]
fn not_ok_is_matched_whole() {
    match parse_test_point("not ok 2\n") {
        Outcome::Parsed(p, _) => {
            assert_eq!(p.status, false);
            assert_eq!(p.test_number, Some(2));
        }
        _ => panic!("expected a test point"),
    }
    assert_eq!(parse_status("not o"), Outcome::Incomplete);
    assert_eq!(parse_status("nope"), Outcome::Invalid);
}

#[test]
fn overflowing_test_number_falls_through_to_description() {
    let input = "ok 99999999999999999999999 - x\n";
    match parse_test_point(input) {
        Outcome::Parsed(p, _) => {
            assert_eq!(p.test_number, None);
            assert_eq!(p.description, Some("99999999999999999999999 - x".to_string()));
        }
        _ => panic!("expected a test point"),
    }
}

#[test]
fn yaml_block_is_captured_verbatim() {
    match parse_yaml("  ---\na: 1\nb: 2\n  ...\n") {
        Outcome::Parsed(body, consumed) => {
            assert_eq!(body, "a: 1\nb: 2\n");
            assert_eq!(consumed, "  ---\na: 1\nb: 2\n  ...\n".len());
        }
        _ => panic!("expected a yaml block"),
    }
    assert_eq!(parse_yaml("  ---\na: 1\n"), Outcome::Incomplete);
    assert_eq!(parse_yaml("  --"), Outcome::Incomplete);
    assert_eq!(parse_yaml("x"), Outcome::NoMatch);
}

#[test]
fn test_point_with_yaml_block() {
    let input = "ok 1 - works\n  ---\nmessage: fine\n  ...\n";
    match parse_test_point(input) {
        Outcome::Parsed(p, consumed) => {
            assert_eq!(consumed, input.len());
            assert_eq!(p.yaml, Some("message: fine\n".to_string()));
            assert_eq!(p.description, Some("works".to_string()));
        }
        _ => panic!("expected a test point"),
    }
}

#[test]
fn version_header_must_match_exactly() {
    match parse_version("TAP Version 14\nrest") {
        Outcome::Parsed(v, consumed) => {
            assert_eq!(v, "TAP Version 14\n");
            assert_eq!(consumed, 15);
        }
        _ => panic!("expected the header"),
    }
    assert_eq!(parse_version("TAP Version 13\n"), Outcome::Invalid);
    assert_eq!(parse_version("TAP Vers"), Outcome::Incomplete);
}

#[test]
fn plan_line_with_and_without_reason() {
    assert_eq!(parse_plan("1..5\n"), Outcome::Parsed(TestPlan(5), 5));
    match parse_plan("1..7 # no more time\n") {
        Outcome::Parsed(plan, consumed) => {
            assert_eq!(plan, TestPlan(7));
            assert_eq!(consumed, "1..7 # no more time\n".len());
        }
        _ => panic!("expected a plan"),
    }
    assert_eq!(parse_plan("1..x\n"), Outcome::Invalid);
    assert_eq!(parse_plan("1..5"), Outcome::Incomplete);
    assert_eq!(parse_plan("1..5 # \n"), Outcome::Invalid);
}

#[test]
fn bail_out_reason_is_optional() {
    assert_eq!(parse_bail_out("Bail out!\n"), Outcome::Parsed(None, 10));
    match parse_bail_out("Bail out! busted\n") {
        Outcome::Parsed(reason, _) => assert_eq!(reason, Some(" busted".to_string())),
        _ => panic!("expected a bail out"),
    }
    assert_eq!(parse_bail_out("Bail"), Outcome::Incomplete);
    assert_eq!(parse_bail_out("nope\n"), Outcome::Invalid);
}

#[test]
fn comment_text_is_optional() {
    assert_eq!(parse_comment("   #\n"), Outcome::Parsed(None, 5));
    match parse_comment("# a note\n") {
        Outcome::Parsed(text, _) => assert_eq!(text, Some(" a note".to_string())),
        _ => panic!("expected a comment"),
    }
    assert_eq!(parse_comment("x\n"), Outcome::Invalid);
}

#[test]
fn empty_line_may_hold_spaces() {
    assert_eq!(parse_empty("\n"), Outcome::Parsed((), 1));
    assert_eq!(parse_empty("  \t \n"), Outcome::Parsed((), 5));
    assert_eq!(parse_empty("  x\n"), Outcome::Invalid);
    assert_eq!(parse_empty("   "), Outcome::Incomplete);
}

#[test]
fn pragma_switches() {
    assert_eq!(
        parse_pragma("pragma +strict\n"),
        Outcome::Parsed(Pragma::Enable("strict".to_string()), 15)
    );
    assert_eq!(
        parse_pragma("pragma -warn_todo\n"),
        Outcome::Parsed(Pragma::Disable("warn_todo".to_string()), 18)
    );
    assert_eq!(parse_pragma("pragma ?x\n"), Outcome::Invalid);
    assert_eq!(parse_pragma("pragma +ab"), Outcome::Incomplete);
}

#[test]
fn anything_takes_a_whole_line() {
    assert_eq!(parse_anything("junk line\nrest"), Outcome::Parsed("junk line".to_string(), 10));
    assert_eq!(parse_anything("junk"), Outcome::Incomplete);
}

#[test]
fn details_distinguishes_the_line_kinds() {
    match parse_details("ok 1\n") {
        Outcome::Parsed(TestDetails::TestPoint(p), _) => assert_eq!(p.test_number, Some(1)),
        _ => panic!("expected a test point line"),
    }
    match parse_details("1..3\n") {
        Outcome::Parsed(TestDetails::TestPlan(p), _) => assert_eq!(p, TestPlan(3)),
        _ => panic!("expected a plan line"),
    }
    match parse_details("Bail out! oh no\n") {
        Outcome::Parsed(TestDetails::BailOut(b), _) => assert_eq!(b, BailOut(" oh no".to_string())),
        _ => panic!("expected a bail out line"),
    }
    match parse_details("pragma +strict\n") {
        Outcome::Parsed(TestDetails::Pragma(p), _) => {
            assert_eq!(p, Pragma::Enable("strict".to_string()))
        }
        _ => panic!("expected a pragma line"),
    }
    match parse_details("# hmm\n") {
        Outcome::Parsed(TestDetails::Comment(c), _) => assert_eq!(c, " hmm"),
        _ => panic!("expected a comment line"),
    }
    assert_eq!(parse_details("   \n"), Outcome::Parsed(TestDetails::Empty, 4));
    match parse_details("free text\n") {
        Outcome::Parsed(TestDetails::Anything(a), _) => assert_eq!(a, "free text"),
        _ => panic!("expected a free-text line"),
    }
}

#[test]
fn greedy_repetition_recognises_consecutive_lines() {
    let input = "ok 1\nok 2\n";
    match parse_test_points(input) {
        Outcome::Parsed(tests, consumed) => {
            assert_eq!(consumed, input.len());
            assert_eq!(tests.len(), 2);
            assert_eq!(tests[0].test_number, Some(1));
            assert_eq!(tests[1].test_number, Some(2));
        }
        _ => panic!("expected two test points"),
    }
}

#[test]
fn round_trip_of_a_parsed_record() {
    let inputs = [
        "ok\n",
        "not ok 7\n",
        "ok 3 - this is a stupid description # SkiPped: stupid Legacy skip \n",
        "ok - plain words # todo soon\n",
        "not ok 2 - boom\n  ---\ncause: gremlins\n  ...\n",
    ];
    for input in inputs {
        let first = match tap_stream::parsing::parse_test_point(input) {
            Outcome::Parsed(p, _) => p,
            _ => panic!("expected a test point for {input:?}"),
        };
        let rendered = tap_stream::parsing::render_test_point(&first);
        let again = match tap_stream::parsing::parse_test_point(&rendered) {
            Outcome::Parsed(p, consumed) => {
                assert_eq!(consumed, rendered.chars().count());
                p
            }
            _ => panic!("expected the rendering {rendered:?} to parse"),
        };
        assert_eq!(first, again);
    }
}

#[test]
fn zero_is_a_valid_test_number() {
    match parse_test_point("ok 0\n") {
        Outcome::Parsed(p, _) => assert_eq!(p.test_number, Some(0)),
        _ => panic!("expected a test point"),
    }
}

#[test]
fn pragma_key_may_be_empty() {
    assert_eq!(parse_pragma("pragma +\n"), Outcome::Parsed(Pragma::Enable(String::new()), 9));
}

#[test]
fn comment_without_terminator_is_incomplete() {
    assert_eq!(parse_comment("# half a note"), Outcome::Incomplete);
}

#[test]
fn yaml_interior_may_be_empty() {
    match parse_test_point("ok\n  ---\n  ...\n") {
        Outcome::Parsed(p, consumed) => {
            assert_eq!(p.yaml, Some(String::new()));
            assert_eq!(consumed, "ok\n  ---\n  ...\n".len());
        }
        _ => panic!("expected a test point"),
    }
}

#[test]
fn description_may_hold_a_hash_between_words() {
    match parse_test_point("ok - issue #42 fixed\n") {
        Outcome::Parsed(p, _) => {
            // `#42` follows a space, so ` #` opens a directive; `42 fixed`
            // is no keyword and the line cannot be completed.
            panic!("a bare ` #` must open a directive, got {p:?}");
        }
        r => assert_eq!(r, Outcome::Invalid),
    }
    match parse_test_point("ok - issue#42 fixed\n") {
        Outcome::Parsed(p, _) => {
            assert_eq!(p.description, Some("issue#42 fixed".to_string()));
        }
        _ => panic!("expected a test point"),
    }
}

#[test]
fn trim_covers_unicode_whitespace() {
    match parse_test_point("ok - caught\u{a0}\n") {
        Outcome::Parsed(p, _) => assert_eq!(p.description, Some("caught".to_string())),
        _ => panic!("expected a test point"),
    }
    match parse_directive(" # todo later\u{a0}\u{2003}\n") {
        Outcome::Parsed(d, _) => {
            assert_eq!(d, TestDirective::Todo(Some("later".to_string())));
        }
        _ => panic!("expected a directive"),
    }
}
