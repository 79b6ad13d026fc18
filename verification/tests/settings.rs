use loomd::settings::{hear, installed, missing, models_folder, models_found, ollama_base, ollama_found, Answer, Probe, WorkspaceSettings};

/// A folder of graphs is a workspace without ceremony.
#[test]
fn a_workspace_with_no_settings_file_has_the_defaults() {
    let settings = WorkspaceSettings::parse("");
    assert_eq!(settings, WorkspaceSettings::default());
    assert!(settings.local_only_default, "on by default");
}

#[test]
fn what_is_written_is_what_is_read_back() {
    let settings = WorkspaceSettings {
        python: Some("/usr/bin/python3.12".into()),
        models: Some("weights".into()),
        ollama: None,
        local_only_default: false,
        model: Some("llama3.2:3b".into()),
    };
    assert_eq!(WorkspaceSettings::parse(&settings.render()), settings);
}

/// The file says what it is for, so someone reading the folder is not left
/// guessing whether it is generated.
#[test]
fn the_file_explains_itself() {
    let text = WorkspaceSettings::default().render();
    assert!(text.starts_with('#'), "{text}");
    assert!(text.contains("not what is installed"), "{text}");
    assert!(text.ends_with("localOnlyDefault: true\n"), "{text}");
}

#[test]
fn a_hand_written_file_is_read_the_way_a_person_means_it() {
    let text = "# mine\npython: \"/opt/py/bin/python\"  # the good one\nollama: 'http://box:11434'\nmodels:\nlocalOnlyDefault: false\nunknown: thing\n";
    let s = WorkspaceSettings::parse(text);
    assert_eq!(s.python.as_deref(), Some("/opt/py/bin/python"));
    assert_eq!(s.ollama.as_deref(), Some("http://box:11434"));
    assert_eq!(s.models, None, "an empty value is no choice");
    assert!(!s.local_only_default);
    assert_eq!(s.model, None);
    // Anything but `false` leaves local-only on.
    assert!(WorkspaceSettings::parse("localOnlyDefault: no").local_only_default);
}

#[test]
fn something_that_is_not_installed_is_reported_with_a_fix() {
    let missing = missing("Nothing", "definitely-not-a-program", Some("Install it."));
    assert!(!missing.ok);
    assert_eq!(missing.fix.as_deref(), Some("Install it."));
    assert_eq!(missing.detail, "`definitely-not-a-program` is not on the path");
}

/// ffmpeg answers `-version` and refuses `--version`: a failure with nothing
/// on stdout is a refusal of the flag, not an absence.
#[test]
fn a_program_that_spells_its_version_flag_differently_is_still_found() {
    assert_eq!(hear(false, "", "Unrecognized option '--version'."), Answer::Refused);
    let said = hear(true, "ffmpeg version 6.1.1 Copyright (c) 2000-2023\nbuilt with gcc\n", "");
    assert_eq!(said, Answer::Said("ffmpeg version 6.1.1 Copyright (c) 2000-2023".into()));
    assert_eq!(hear(true, "", "  Python 2.7.18 \n"), Answer::Said("Python 2.7.18".into()));
    let found = installed("ffmpeg", "ffmpeg version 6.1.1".into());
    assert!(found.ok && found.detail.contains("ffmpeg version") && found.fix.is_none());
}

#[test]
fn the_probe_finds_what_is_here_and_says_so_about_what_is_not() {
    let python = installed("Python", "Python 3.12.3".into());
    let ffmpeg = installed("ffmpeg", "ffmpeg version 6.1.1".into());
    let ollama = ollama_found(&ollama_base(None), None);
    let folder = models_folder(None, "/srv/w");
    assert_eq!(folder, "/srv/w/models");
    let models = models_found(&folder, 0);
    let probe = Probe::now(python, ffmpeg, ollama, models);
    assert!(probe.python.ok && probe.ffmpeg.ok);
    assert!(!probe.ollama.ok);
    assert_eq!(probe.ollama.detail, "nothing is answering at http://127.0.0.1:11434");
    assert!(!probe.models.ok);
    assert!(probe.models.fix.is_some());
    assert_eq!(probe.models.detail, "/srv/w/models · 0 weights");
}

#[test]
fn ollama_with_models_is_found_and_says_how_many() {
    let one = ollama_found("http://box:11434", Some(1));
    assert!(one.ok && one.fix.is_none());
    assert_eq!(one.detail, "http://box:11434 · 1 model");
    let none = ollama_found("http://box:11434", Some(0));
    assert!(none.ok && none.fix.is_some());
    assert_eq!(models_found("/w", 3).detail, "/w · 3 weights");
    assert_eq!(models_folder(Some("/elsewhere"), "/srv/w"), "/elsewhere");
    assert_eq!(models_folder(Some("weights"), "/srv/w"), "/srv/w/weights");
}
