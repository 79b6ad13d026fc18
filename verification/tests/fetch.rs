use loomd::fetch::{content_length, part_path, range_header, Download, Progress, REPORT_EVERY};
use loomd::text::parse_u64;

#[test]
fn a_download_in_progress_is_kept_beside_the_finished_file() {
    assert_eq!(part_path("/w/models/yolo.onnx"), "/w/models/yolo.onnx.part");
    assert_eq!(part_path("/w/models/weights"), "/w/models/weights.part");
}

#[test]
fn a_download_arrives_whole() {
    assert_eq!(range_header(0), None, "nothing on disk, nothing to resume");
    let mut d = Download::begin(0, 200, content_length(Some("1000")));
    assert_eq!(d.progress(), Progress { had: 0, got: 0, total: Some(1000) });
    assert!(!d.arrived(600));
    assert!(!d.arrived(400));
    assert_eq!(d.finish(false, "http://h/w.onnx"), Ok(Progress { had: 0, got: 1000, total: Some(1000) }));
}

#[test]
fn a_download_that_is_cut_off_continues_where_it_stopped() {
    let mut first = Download::begin(0, 200, Some(1000));
    first.arrived(400);
    assert_eq!(
        first.finish(false, "http://h/w.onnx"),
        Err("http://h/w.onnx stopped after 400 of 1000 bytes. Ask again to continue.".into())
    );
    // The next attempt asks for the rest, and the server sends the rest.
    assert_eq!(range_header(400).as_deref(), Some("bytes=400-"));
    let mut second = Download::begin(400, 206, content_length(Some("600")));
    assert_eq!(second.progress(), Progress { had: 400, got: 400, total: Some(1000) });
    second.arrived(600);
    assert_eq!(second.finish(false, "http://h/w.onnx"), Ok(Progress { had: 400, got: 1000, total: Some(1000) }));
}

/// A server that ignores the range sends everything again, and what was on
/// disk is started over rather than appended to.
#[test]
fn a_server_that_sends_it_all_again_starts_the_file_again() {
    let d = Download::begin(400, 200, Some(1000));
    assert_eq!(d.progress(), Progress { had: 400, got: 0, total: Some(1000) });
}

#[test]
fn a_download_with_no_length_is_a_download_without_a_percentage() {
    let mut d = Download::begin(0, 200, content_length(None));
    d.arrived(5);
    assert_eq!(d.finish(false, "u"), Ok(Progress { had: 0, got: 5, total: Some(5) }));
    let mut cut = Download::begin(0, 200, content_length(Some("many")));
    cut.arrived(5);
    assert_eq!(cut.finish(true, "u"), Err("u stopped after 5 bytes. Ask again to continue.".into()));
}

#[test]
fn the_shell_hears_once_for_every_half_megabyte() {
    let mut d = Download::begin(0, 200, None);
    assert!(!d.arrived(REPORT_EVERY - 1));
    assert!(d.arrived(1));
    assert!(!d.arrived(10));
    assert!(d.arrived(REPORT_EVERY));
    assert_eq!(d.progress().got, 2 * REPORT_EVERY + 10);
}

#[test]
fn numbers_are_read_the_way_from_str_reads_them() {
    assert_eq!(parse_u64("0"), Some(0));
    assert_eq!(parse_u64("+17"), Some(17));
    assert_eq!(parse_u64("007"), Some(7));
    assert_eq!(parse_u64("18446744073709551615"), Some(u64::MAX));
    assert_eq!(parse_u64("18446744073709551616"), None);
    assert_eq!(parse_u64(""), None);
    assert_eq!(parse_u64("+"), None);
    assert_eq!(parse_u64("-1"), None);
    assert_eq!(parse_u64(" 1"), None);
    assert_eq!(parse_u64("12a"), None);
}
