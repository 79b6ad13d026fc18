use loomd::run::source::{expand, header_length, interval_parts, is_for, matches_glob, request_path, response_head, Seen, arm_plan, not_an_interval, ArmPlan};

#[test]
fn a_glob_matches_what_a_folder_pattern_needs() {
    assert!(matches_glob("mail.eml", "*.eml"));
    assert!(!matches_glob("mail.txt", "*.eml"));
    assert!(matches_glob("report-2026.csv", "report-*"));
    assert!(matches_glob("anything", "*"));
    assert!(matches_glob("exact.eml", "exact.eml"));
    assert!(!matches_glob("other.eml", "exact.eml"));
    // A star in the middle.
    assert!(matches_glob("a-big-file.eml", "a-*.eml"));
    assert!(!matches_glob("b-big-file.eml", "a-*.eml"));
}

#[test]
fn a_glob_needs_room_for_both_ends() {
    assert!(!matches_glob("a", "a*a"));
    assert!(matches_glob("aa", "a*a"));
    assert!(matches_glob("x.eml.eml", "*.eml"));
    assert!(matches_glob("abcabc", "*b*c"));
    assert!(!matches_glob("ab", "a*b*b"));
    assert!(matches_glob("", "*"));
}

#[test]
fn an_interval_is_cut_into_its_number_and_its_unit() {
    assert_eq!(interval_parts("30s", 1), Some(("30".into(), 1)));
    assert_eq!(interval_parts("15m", 1), Some(("15".into(), 60)));
    assert_eq!(interval_parts(" 2h ", 1), Some(("2".into(), 3600)));
    assert_eq!(interval_parts("1d", 1), Some(("1".into(), 86400)));
    // A bare number takes the unit it is given.
    assert_eq!(interval_parts("45", 1), Some(("45".into(), 1)));
    assert_eq!(interval_parts("5", 60), Some(("5".into(), 60)));
    assert_eq!(interval_parts("", 1), None);
    assert_eq!(interval_parts("soon", 1), Some(("soon".into(), 1)));
}

#[test]
fn a_home_path_expands_and_a_relative_one_lands_in_the_workspace() {
    assert_eq!(expand("~/inbox", "/w", Some("/home/someone")), "/home/someone/inbox");
    assert_eq!(expand("mail", "/w", Some("/home/someone")), "/w/mail");
    assert_eq!(expand("/tmp/mail", "/w", Some("/home/someone")), "/tmp/mail");
    assert_eq!(expand("~/inbox", "/w", None), "/w/~/inbox");
}

#[test]
fn a_request_line_gives_its_path_without_the_query() {
    assert_eq!(request_path("POST /hook?token=1 HTTP/1.1\r\n").as_deref(), Some("/hook"));
    assert_eq!(request_path("GET /\r\n").as_deref(), Some("/"));
    assert_eq!(request_path("GET\r\n").as_deref(), Some("/"), "no path is the root");
    assert_eq!(request_path("GET ?x=1 HTTP/1.1").as_deref(), Some(""));
    assert_eq!(request_path("  \r\n"), None, "no method, no request");
    assert!(is_for("/hook", "/hook"));
    assert!(is_for("", "/"));
    assert!(!is_for("/other", "/hook"));
    assert!(response_head(true).starts_with("HTTP/1.1 200 OK\r\n"));
    assert!(response_head(false).starts_with("HTTP/1.1 404 Not Found\r\n"));
}

#[test]
fn the_body_length_is_read_from_its_header_in_any_case() {
    assert_eq!(header_length("Content-Length: 42\r\n"), Some(42));
    assert_eq!(header_length("content-length:7"), Some(7));
    assert_eq!(header_length("CONTENT-LENGTH: lots\r\n"), Some(0));
    assert_eq!(header_length("Content-Type: application/json\r\n"), None);
    assert_eq!(header_length("no colon here"), None);
}

fn listed(files: &[(&str, u64, bool)]) -> Vec<(String, u64, bool)> {
    files.iter().map(|(n, m, s)| (n.to_string(), *m, *s)).collect()
}

/// What was in the folder when the source armed is seen already; what
/// arrives afterwards is reported, once.
#[test]
fn a_folder_source_reports_arrivals_not_what_was_there() {
    let mut seen = Seen::new();
    let armed = seen.look(listed(&[("/in/already.eml", 10, true)]), false);
    assert_eq!(armed, ["/in/already.eml"], "the caller drops what arming saw");
    assert!(seen.look(listed(&[("/in/already.eml", 10, true)]), false).is_empty());
    let fired = seen.look(listed(&[("/in/already.eml", 10, true), ("/in/new.eml", 20, true)]), false);
    assert_eq!(fired, ["/in/new.eml"]);
    assert!(seen.look(listed(&[("/in/already.eml", 10, true), ("/in/new.eml", 20, true)]), false).is_empty());
    // A file that changes is an arrival again.
    assert_eq!(seen.look(listed(&[("/in/new.eml", 25, true)]), false), ["/in/new.eml"]);
    assert!(matches_glob("new.eml", "*.eml") && !matches_glob("ignored.txt", "*.eml"));
}

/// A file still being written waits for a later look when the source
/// debounces, and is reported once it has settled.
#[test]
fn a_file_being_written_is_reported_once_it_settles() {
    let mut seen = Seen::new();
    assert!(seen.look(listed(&[("/in/big.mov", 5, false)]), true).is_empty());
    assert!(seen.look(listed(&[("/in/big.mov", 6, false)]), true).is_empty());
    assert_eq!(seen.look(listed(&[("/in/big.mov", 6, true)]), true), ["/in/big.mov"]);
    // Without debouncing, it is reported as soon as it is seen.
    let mut eager = Seen::new();
    assert_eq!(eager.look(listed(&[("/in/big.mov", 5, false)]), false), ["/in/big.mov"]);
}

/// A file that went away is reported again when it comes back, even
/// unchanged; one that stays is not.
#[test]
fn a_file_that_comes_back_is_reported_again() {
    let mut seen = Seen::new();
    seen.look(listed(&[("/in/a.eml", 10, true), ("/in/b.eml", 11, true)]), false);
    assert!(seen.look(listed(&[("/in/b.eml", 11, true)]), false).is_empty());
    assert_eq!(seen.look(listed(&[("/in/a.eml", 10, true), ("/in/b.eml", 11, true)]), false), ["/in/a.eml"]);
    assert!(seen.look(listed(&[("/in/a.eml", 10, true), ("/in/b.eml", 11, true)]), false).is_empty());
}

/// Each `*` stands for any run, the empty one included, and parts of the
/// pattern are never counted twice.
#[test]
fn a_star_is_any_run_and_parts_do_not_overlap() {
    assert!(!matches_glob("a", "a*a"));
    assert!(matches_glob("aa", "a*a"));
    assert!(matches_glob("anything", "*"));
    assert!(matches_glob("", "*"));
    assert!(matches_glob("report-2024.txt", "report-*.txt"));
    assert!(!matches_glob("report.txt", "report-*.txt"));
    assert!(matches_glob("exact", "exact") && !matches_glob("exactly", "exact"));
}

#[test]
fn a_schedule_with_no_interval_says_what_to_set() {
    let Err(error) = arm_plan("schedule", None, None, None, None, None) else {
        panic!("a schedule with no interval cannot arm");
    };
    assert!(error.contains("15m"), "{error}");
    assert_eq!(not_an_interval("soon"), "`soon` is not an interval; try `30s`, `15m` or `2h`");
}

#[test]
fn a_block_that_is_not_a_source_arms_into_nothing() {
    assert!(arm_plan("llm", None, None, None, None, None).unwrap().is_none());
}

#[test]
fn each_source_says_how_it_is_armed() {
    match arm_plan("schedule", Some("15m"), None, None, None, None).unwrap().unwrap() {
        ArmPlan::Schedule { every, state } => assert_eq!((every.as_str(), state.as_str()), ("15m", "every 15m")),
        _ => panic!("a schedule"),
    }
    match arm_plan("watch-folder", None, Some("~/inbox"), None, None, None).unwrap().unwrap() {
        ArmPlan::Watch { path, pattern, state } => {
            assert_eq!(path, "~/inbox");
            assert_eq!(pattern, "*");
            assert_eq!(state, "watching ~/inbox");
        }
        _ => panic!("a watch"),
    }
    match arm_plan("webhook", None, None, None, Some(8787), Some("/hook")).unwrap().unwrap() {
        ArmPlan::Webhook { port, route, state } => {
            assert_eq!(port, 8787);
            assert_eq!(route, "/hook");
            assert_eq!(state, "listening on :8787/hook");
        }
        _ => panic!("a webhook"),
    }
    assert_eq!(arm_plan("webhook", None, None, None, None, None).err().unwrap(), "the Webhook has no port");
    assert_eq!(arm_plan("watch-folder", None, None, None, None, None).err().unwrap(), "the Watch folder has no path");
}
