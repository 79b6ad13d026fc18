use loomd::run::rig::{assemble, beat, colour_for, looks_like_code, luminance, read_rig_manifest, rig_order, Idle, Rig, Span, BREATHE_PER_MIN};

/// "surprised: a beat, then settles"; "neutral: idle returns here".
#[test]
fn a_surprise_is_a_beat_and_neutral_holds_forever() {
    let idle = Idle::default();
    assert_eq!(idle.holds("surprised"), beat());
    assert_eq!(idle.holds("smile"), Span::from_secs(6));
    assert_eq!(idle.holds("neutral"), Span::forever());
    assert_eq!(idle.holds("sleepy"), Span::forever());
    let never = Idle { settle_after: Span::zero(), ..Idle::default() };
    assert_eq!(never.holds("smile"), Span::forever());
}

#[test]
fn a_surprise_settles_sooner_when_settling_is_sooner() {
    let quick = Idle { settle_after: Span::from_millis(500), ..Idle::default() };
    assert_eq!(quick.holds("surprised"), Span::from_millis(500));
    assert_eq!(Idle::default().breathe_per_min, BREATHE_PER_MIN);
}

#[test]
fn every_mood_has_a_colour_and_unknown_moods_share_neutrals() {
    assert_eq!(colour_for("love"), "#e0685f");
    assert_eq!(colour_for("neutral"), colour_for("moonwalk"));
    assert_ne!(colour_for("smile"), colour_for("frown"));
}

fn rig(expressions: &[&str]) -> Rig {
    Rig {
        id: "line".into(),
        name: "Line".into(),
        description: String::new(),
        expressions: expressions.iter().map(|e| (*e).to_owned()).collect(),
        gestures: vec!["nod".into()],
        gaze: true,
        idle: Idle::default(),
        folder: "/rigs/line".into(),
    }
}

/// `speaking` is driven by the speech port, never by a command — so it
/// is a state the rig has and not a word the model may say.
#[test]
fn speaking_is_a_state_and_not_a_command_of_a_hand_built_rig() {
    let line = rig(&["neutral", "smile", "speaking", "sleepy"]);
    assert!(line.has("speaking"));
    assert_eq!(line.vocabulary(), ["neutral", "smile", "sleepy"]);
    assert_eq!(line.state("smile").as_deref(), Some("/rigs/line/states/smile.svg"));
    assert_eq!(line.state("moonwalk"), None);
}

#[test]
fn states_are_handed_over_and_a_script_is_not() {
    // The Line rig's folder, as its manifest names it: every expression it
    // lists has a drawing, and each is handed over by the file it is in.
    let m = read_rig_manifest("name: Line\nexpressions:\n  - neutral\n  - smile\n", "line");
    let line = assemble(m, "line", "/rigs/line", &vec![true, true], Span::zero(), Span::zero(), Span::zero()).unwrap();
    let states: Vec<String> = line.expressions.iter().filter_map(|e| line.state(e)).collect();
    assert_eq!(states.len(), line.expressions.len());
    assert_eq!(line.state("neutral").unwrap(), "/rigs/line/states/neutral.svg");
    assert_eq!(line.state("love"), None);
    let neutral = "<svg viewBox=\"0 0 64 64\"><path d=\"M20 40 L44 40\" stroke=\"#56c7d6\"/></svg>";
    assert!(neutral.contains("<svg"));

    assert!(looks_like_code("<svg><script>alert(1)</script></svg>"));
    assert!(looks_like_code("<svg onload=\"x()\"></svg>"));
    assert!(looks_like_code("<svg><a href=\"javascript:x\"/></svg>"));
    assert!(!looks_like_code(neutral));
    // "one" and "only" are words, not handlers.
    assert!(!looks_like_code("<svg><title>only one</title></svg>"));
    assert!(looks_like_code("<SVG><ForeignObject/></SVG>"));
    assert!(!looks_like_code("<svg><circle r=\"4\"/></svg>"));
}

const PIXEL: &str = "# An 8 x 8 matrix.\nname: Pixel\ndescription: \"Sixty-four lights\"\ngaze: false\nexpressions:\n  - neutral\n  - smile\n  - 'frown'   # cross\n  - speaking\ngestures: []\nidle:\n  blinkEvery: 5s\n  breathe: false\n  settleAfter: 4s\n  sleepAfter: soon\n  sleepAfter: 10m\n";

#[test]
fn a_manifest_is_read_the_way_its_author_wrote_it() {
    let m = read_rig_manifest(PIXEL, "pixel");
    assert_eq!(m.name, "Pixel");
    assert_eq!(m.description, "Sixty-four lights");
    assert!(!m.gaze);
    assert_eq!(m.expressions, ["neutral", "smile", "frown", "speaking"]);
    assert!(m.gestures.is_empty(), "`[]` is an empty list said on one line");
    assert_eq!(m.blink_every, ["5s"]);
    assert_eq!(m.breathe_per_min, 0, "a face that does not breathe");
    assert_eq!(m.settle_after, ["4s"]);
    assert_eq!(m.sleep_after, ["soon", "10m"], "every timing, for the caller to read in turn");
}

#[test]
fn a_manifest_with_nothing_in_it_is_named_after_its_folder() {
    let m = read_rig_manifest("", "orb");
    assert_eq!(m.name, "orb");
    assert_eq!(m.breathe_per_min, 13);
    assert!(m.expressions.is_empty() && m.gestures.is_empty());
}

#[test]
fn a_key_that_is_not_indented_ends_the_list_and_the_idle_map() {
    let text = "expressions:\n- neutral\nidle:\n  breathePerMin: 20\ngaze: true\nbreathePerMin: 99\n- stray\ngestures:\n  - nod\n  - wave\n";
    let m = read_rig_manifest(text, "line");
    assert_eq!(m.expressions, ["neutral"]);
    assert_eq!(m.breathe_per_min, 20, "outside idle: the key means nothing");
    assert!(m.gaze);
    assert_eq!(m.gestures, ["nod", "wave"]);
    let bad = read_rig_manifest("idle:\n  breathePerMin: lots\n", "x");
    assert_eq!(bad.breathe_per_min, 13, "a number that does not read leaves the rate alone");
}

#[test]
fn states_are_only_what_the_folder_has() {
    let m = read_rig_manifest(PIXEL, "pixel");
    let rig = assemble(m, "pixel", "/rigs/pixel", &vec![true, true, false, true], Span::from_secs(5), Span::from_secs(4), Span::from_secs(600))
        .unwrap();
    assert_eq!(rig.expressions, ["neutral", "smile", "speaking"]);
    assert_eq!(rig.vocabulary(), ["neutral", "smile"]);
    assert_eq!(rig.idle.breathe_per_min, 0);
    assert_eq!(rig.idle.sleep_after, Span::from_secs(600));
    assert_eq!(rig.state("smile").as_deref(), Some("/rigs/pixel/states/smile.svg"));
    assert_eq!(rig.state("frown"), None);

    let m = read_rig_manifest(PIXEL, "pixel");
    let err = assemble(m, "pixel", "/rigs/pixel", &vec![false; 4], Span::zero(), Span::zero(), Span::zero()).err().unwrap();
    assert_eq!(err, "/rigs/pixel has a manifest but no states: expected files like states/neutral.svg");
}

#[test]
fn rigs_are_listed_by_name() {
    let rig = |name: &str| {
        let m = read_rig_manifest(&format!("name: {name}\nexpressions:\n  - neutral\n"), "x");
        assemble(m, "x", "/r", &vec![true], Span::zero(), Span::zero(), Span::zero()).unwrap()
    };
    let found = vec![rig("Robot"), rig("Orb"), rig("Pixel"), rig("Line"), rig("Orb")];
    assert_eq!(rig_order(&found), [3, 1, 4, 2, 0]);
}

/// Brightness weighs green most and blue least; what is not `#rrggbb` is as
/// bright as can be, so it is never taken for "off".
#[test]
fn a_fill_is_as_bright_as_its_channels() {
    assert_eq!(luminance("#000000"), 0);
    assert_eq!(luminance("#ffffff"), 255 * 1000);
    assert_eq!(luminance("#FF0000"), 255 * 299);
    assert_eq!(luminance("#00ff00"), 255 * 587);
    assert_eq!(luminance("#0000ff"), 255 * 114);
    assert_eq!(luminance("#102030"), 16 * 299 + 32 * 587 + 48 * 114);
    assert_eq!(luminance("red"), u32::MAX);
    assert_eq!(luminance("#fff"), u32::MAX);
    assert_eq!(luminance("#zz0000"), 0);
    assert_eq!(luminance("#+f0000"), 15 * 299);
    assert_eq!(luminance("#-f0000"), 0);
}
