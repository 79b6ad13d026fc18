use loomd::run::blocks::{branch_port, last_meaningful_line, parse_condition, pure_kind, python_interpreter, said, text_test, tools_of, truthy, Condition, Output, Pure, Target, Test};

/// What the model reads is the whole picture: a failing build with an empty
/// stdout still says what happened.
#[test]
fn a_tool_result_leads_with_the_exit_code() {
    let out = Output {
        stdout: String::new(),
        stderr: "error: linking with `cc` failed".into(),
        code: 101,
        ms: 4,
    };
    let text = out.as_tool_result();
    assert!(text.starts_with("exit 101"));
    assert!(text.contains("linking with"));
    assert!(!text.contains("stdout"), "an empty stream is left out: {text}");
    assert_eq!(out.figure(), "exit 101");
}

#[test]
fn a_tool_result_shows_both_streams_trimmed_at_the_end() {
    let out = Output { stdout: "  built\n\n".into(), stderr: "warning: x\n".into(), code: 0, ms: 1 };
    assert_eq!(out.as_tool_result(), "exit 0\nstdout:\n  built\nstderr:\nwarning: x");
}

#[test]
fn a_negative_exit_code_is_written_with_its_sign() {
    let out = Output { stdout: String::new(), stderr: String::new(), code: -1, ms: 0 };
    assert_eq!(out.as_tool_result(), "exit -1");
    assert_eq!(out.figure(), "exit -1");
    assert!(!out.ok());
}

#[test]
fn a_figure_counts_the_lines_of_both_streams() {
    let one = Output { stdout: "a\n".into(), stderr: String::new(), code: 0, ms: 0 };
    assert_eq!(one.figure(), "exit 0 · 1 line");
    let three = Output { stdout: "a\nb".into(), stderr: "c\n".into(), code: 0, ms: 0 };
    assert_eq!(three.figure(), "exit 0 · 3 lines");
    let none = Output { stdout: String::new(), stderr: String::new(), code: 0, ms: 0 };
    assert_eq!(none.figure(), "exit 0 · 0 lines");
}

#[test]
fn a_sentence_is_a_result_with_no_exit_code_to_speak_of() {
    let out = said("remembered, as w1".into());
    assert!(out.ok());
    assert_eq!(out.stdout, "remembered, as w1");
    assert_eq!(out.stderr, "");
}

#[test]
fn the_terminal_offers_its_setting_as_the_default_in_the_description() {
    let tools = tools_of("terminal", "terminal", Some("cargo build"));
    assert_eq!(tools.len(), 1);
    assert_eq!(tools[0].name, "terminal.run");
    assert!(tools[0].description.contains("`cargo build`"), "{}", tools[0].description);
}

#[test]
fn a_kind_with_no_tool_offers_none() {
    assert!(tools_of("input", "input", None).is_empty());
    let py = tools_of("py", "python", None);
    assert_eq!(py[0].name, "py.exec");
}

/// A Branch nobody configured takes its first path rather than neither.
#[test]
fn an_empty_condition_holds() {
    assert_eq!(parse_condition(None), Condition::Always);
    assert_eq!(parse_condition(Some("   ")), Condition::Always);
}

#[test]
fn a_condition_is_read_into_a_field_a_test_and_a_value() {
    assert_eq!(
        parse_condition(Some("label == \"urgent\"")),
        Condition::Compare { field: "label".into(), test: Test::Equal, want: "\"urgent\"".into() }
    );
    assert_eq!(
        parse_condition(Some("score >= 0.5")),
        Condition::Compare { field: "score".into(), test: Test::AtLeast, want: "0.5".into() }
    );
    assert_eq!(
        parse_condition(Some("score > 0.5")),
        Condition::Compare { field: "score".into(), test: Test::Above, want: "0.5".into() }
    );
    assert_eq!(parse_condition(Some(" open ")), Condition::Truth { field: "open".into() });
}

#[test]
fn truth_and_text_tests_read_the_way_they_are_written() {
    assert!(truthy("yes"));
    for falsy in ["", "false", "0", "null", "none"] {
        assert!(!truthy(falsy), "{falsy}");
    }
    assert_eq!(text_test(Test::Equal, "urgent", "urgent"), Some(true));
    assert_eq!(text_test(Test::NotEqual, "urgent", "routine"), Some(true));
    assert_eq!(text_test(Test::Above, "1", "0"), None);
}

#[test]
fn a_venv_setting_picks_the_interpreter_inside_it() {
    assert_eq!(python_interpreter(Some(".venv"), "/w"), "/w/.venv/bin/python3");
    // With no environment configured, the one the user is already in.
    assert_eq!(python_interpreter(None, "/w"), "python3");
    assert_eq!(python_interpreter(Some("/opt/env"), "/w"), "/opt/env/bin/python3");
}

/// What a failed block says is the last thing it wrote that is not blank.
#[test]
fn the_message_of_a_failed_block_is_its_last_words() {
    let stderr = "Traceback (most recent call last):\n  File \"block.py\", line 2, in f\nValueError: no door in frame\n\n";
    assert_eq!(last_meaningful_line(stderr), "ValueError: no door in frame");
    assert_eq!(last_meaningful_line("  \n"), "the block failed with no message");
}

#[test]
fn an_input_is_its_setting() {
    assert_eq!(pure_kind("input", Some("hello"), None), Ok(Pure::Input("hello".into())));
    assert_eq!(pure_kind("input", None, None), Ok(Pure::Input(String::new())), "an empty prompt is fine while building");
}

#[test]
fn converting_to_an_image_is_refused_in_words() {
    let err = pure_kind("convert", None, Some("image")).unwrap_err();
    assert!(err.contains("decoder"), "{err}");
    assert_eq!(pure_kind("convert", None, None), Ok(Pure::Convert(Target::Text)));
    assert_eq!(pure_kind("convert", None, Some("data")), Ok(Pure::Convert(Target::Data)));
}

#[test]
fn an_unimplemented_kind_says_which_one() {
    let err = pure_kind("webcam", None, None).unwrap_err();
    assert!(err.contains("webcam"), "{err}");
    assert_eq!(err, "`webcam` is not a kind this engine can run yet");
}

#[test]
fn a_branch_produces_only_on_the_port_it_took() {
    assert_eq!(pure_kind("branch", None, None), Ok(Pure::Branch));
    assert_eq!(branch_port(true), "a");
    assert_eq!(branch_port(false), "b");
}
