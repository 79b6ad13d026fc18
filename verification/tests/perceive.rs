use loomd::run::graph::PortType;
use loomd::run::perceive::{detection_figure, dims_figure, enrolment_warning, perception_job, person_figure, Local, PerceptionError, PerceptionJob, PortsView, SettingsView};

#[test]
fn the_local_provider_names_the_folder_it_looked_in() {
    let local = Local::new("/tmp/definitely-not-here".into(), "python3".into());
    assert_eq!(local.driver(), "/tmp/definitely-not-here/perceive.py");
    let PerceptionError::NoModel { hint, what } = local.no_helper("detect") else {
        panic!("expected a missing model");
    };
    assert_eq!(what, "detect");
    assert!(hint.contains("/tmp/definitely-not-here"), "{hint}");
    assert!(hint.contains("first run"), "{hint}");
}

/// A missing model is a different thing from a broken one.
#[test]
fn a_helper_that_failed_says_whether_a_model_was_missing() {
    let missing = Local::failed("detect", "Traceback...\nModuleNotFoundError: No module named 'ultralytics'\n");
    assert_eq!(
        missing,
        PerceptionError::NoModel { what: "detect".into(), hint: "ModuleNotFoundError: No module named 'ultralytics'".into() }
    );
    assert_eq!(Local::failed("embed", "ValueError: bad shape"), PerceptionError::Failed("ValueError: bad shape".into()));
    assert_eq!(Local::failed("embed", ""), PerceptionError::Failed("the helper failed with no message".into()));
    assert_eq!(
        PerceptionError::NoModel { what: "face recognition".into(), hint: "put weights in models".into() }.message(),
        "no model for face recognition: put weights in models"
    );
}

fn ports(image: Option<PortType>, audio: Option<PortType>, text: Option<&str>) -> PortsView {
    PortsView { image, audio, text: text.map(str::to_string) }
}

fn settings(model: Option<&str>, voice: Option<&str>, labels: &[&str]) -> SettingsView {
    SettingsView {
        model: model.map(str::to_string),
        voice: voice.map(str::to_string),
        labels: labels.iter().map(|l| l.to_string()).collect(),
    }
}

/// A perception block asks for what its kind needs, and says in words which
/// port is missing it.
#[test]
fn a_perception_block_asks_for_what_its_kind_needs() {
    let none = settings(None, None, &[]);
    match perception_job("objectDetection", &ports(Some(PortType::Image), None, None), &settings(Some("yolo"), None, &[])) {
        Ok(PerceptionJob::Detect { model }) => assert_eq!(model, "yolo"),
        _ => panic!("a detection"),
    }
    assert!(matches!(perception_job("face-recognition", &ports(Some(PortType::Image), None, None), &none), Ok(PerceptionJob::Recognise)));
    assert_eq!(
        perception_job("object-detection", &ports(None, None, None), &none).err().unwrap(),
        "nothing is wired to the image port"
    );
    assert_eq!(
        perception_job("object-detection", &ports(Some(PortType::Text), None, None), &none).err().unwrap(),
        "the image port was given text, which is not a frame"
    );
    assert_eq!(
        perception_job("speech-to-text", &ports(None, Some(PortType::Text), None), &none).err().unwrap(),
        "nothing is wired to the audio port"
    );
    match perception_job("classifier", &ports(None, None, Some("great")), &settings(None, None, &["good", "bad"])) {
        Ok(PerceptionJob::Classify { text, labels }) => {
            assert_eq!(text, "great");
            assert_eq!(labels, ["good", "bad"]);
        }
        _ => panic!("a classification"),
    }
    match perception_job("text-to-speech", &ports(None, None, Some("hi")), &settings(None, Some("amy"), &[])) {
        Ok(PerceptionJob::Speak { text, voice }) => assert_eq!((text.as_str(), voice.as_str()), ("hi", "amy")),
        _ => panic!("speech"),
    }
    assert_eq!(perception_job("affect", &ports(None, None, None), &none).err().unwrap(), "nothing is wired to the text port");
    assert_eq!(perception_job("telepathy", &ports(None, None, Some("x")), &none).err().unwrap(), "`telepathy` is not a perception this engine has");
}

#[test]
fn the_figures_say_what_was_found() {
    assert_eq!(detection_figure(&vec![]), "nothing");
    assert_eq!(detection_figure(&vec!["person".to_string(), "cup".to_string()]), "2 · person");
    assert_eq!(person_figure(None), "someone");
    assert_eq!(person_figure(Some("Mykl")), "Mykl");
    assert_eq!(dims_figure(384), "384 dims");
    assert_eq!(enrolment_warning("face-recognition", true), Some("enrolment is on, and this engine cannot enrol yet"));
    assert_eq!(enrolment_warning("face-recognition", false), None);
    assert_eq!(enrolment_warning("affect", true), None);
}
