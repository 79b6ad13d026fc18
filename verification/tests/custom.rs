use loomd::run::blocks::last_meaningful_line;
use loomd::run::custom::{custom_job, node_driver, python_driver, Language, Module, Program, SourceMode};

#[test]
fn a_file_block_runs_the_users_own_file() {
    let job = custom_job(SourceMode::File, Some("blocks/score.py"), None, Language::Python, "score", "/ws").unwrap();
    match &job.module {
        Module::File(p) => assert_eq!(p, "/ws/blocks/score.py"),
        _ => panic!("file mode"),
    }
    assert_eq!(job.program, Program::Python);
    assert_eq!(job.driver_extension, "py");
    assert!(job.driver.contains("_fn = getattr(_module, \"score\", None)"));
    assert!(job.driver.contains("raise NameError(\"the file has no function called score\")"));
    let absolute = custom_job(SourceMode::File, Some("/elsewhere/a.ts"), None, Language::Typescript, "a", "/ws").unwrap();
    match absolute.module {
        Module::File(p) => assert_eq!(p, "/elsewhere/a.ts"),
        _ => panic!("file mode"),
    }
    assert_eq!(absolute.program, Program::Node);
}

#[test]
fn inline_code_is_written_out_under_its_languages_extension() {
    let job = custom_job(SourceMode::Inline, None, Some("export default x => x"), Language::Typescript, "f", "/ws").unwrap();
    match &job.module {
        Module::Inline { code, extension } => {
            assert_eq!(code, "export default x => x");
            assert_eq!(extension, "ts");
        }
        _ => panic!("inline"),
    }
    assert_eq!(job.driver_extension, "mjs");
    assert!(job.driver.contains("const fn = module[\"f\"] ?? module.default;"));
    let shell = custom_job(SourceMode::Inline, None, Some("echo hi"), Language::Shell, "", "/ws").unwrap();
    assert_eq!(shell.program, Program::Shell);
    assert!(shell.driver.is_empty());
}

#[test]
fn a_block_without_its_code_says_which_is_missing() {
    assert_eq!(
        custom_job(SourceMode::File, None, Some("x"), Language::Python, "f", "/ws").err().unwrap(),
        "the block is in file mode but names no file"
    );
    assert_eq!(
        custom_job(SourceMode::Inline, Some("a.py"), None, Language::Python, "f", "/ws").err().unwrap(),
        "the block is in inline mode but holds no code"
    );
}

#[test]
fn the_drivers_name_the_function_they_call() {
    assert!(python_driver("go").ends_with("json.dump(_out, _f, default=str)\n"));
    assert!(node_driver("go").contains("throw new Error('the file exports no function called go');"));
    assert_eq!(last_meaningful_line("Traceback\n  File x\nValueError: no\n\n  "), "ValueError: no");
    assert_eq!(last_meaningful_line(""), "the block failed with no message");
}

#[test]
fn a_missing_file_is_named() {
    assert_eq!(loomd::run::custom::not_there("/ws/blocks/gone.py"), "/ws/blocks/gone.py is not there");
}
