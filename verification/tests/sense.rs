use loomd::run::sense::{
    base64, envelope_of, ffmpeg_failure, frame_args, friendlier, play_args, riff, wav, Input, Kind, Scratch,
    ENVELOPE_HZ,
};
use std::collections::HashSet;

/// Base64 has to be right, and the awkward part is the padding: one, two or
/// no bytes left over at the end are three different endings.
#[test]
fn base64_pads_the_way_everyone_elses_does() {
    assert_eq!(base64(b""), "");
    assert_eq!(base64(b"f"), "Zg==");
    assert_eq!(base64(b"fo"), "Zm8=");
    assert_eq!(base64(b"foo"), "Zm9v");
    assert_eq!(base64(b"foob"), "Zm9vYg==");
    assert_eq!(base64(b"fooba"), "Zm9vYmE=");
    assert_eq!(base64(b"foobar"), "Zm9vYmFy");
    // And the bytes above 127 that a PNG is full of.
    assert_eq!(base64(&[0xff, 0xfe, 0xfd]), "//79");
}

#[test]
fn base64_is_four_symbols_for_every_three_bytes() {
    let bytes: Vec<u8> = (0..100u8).collect();
    assert_eq!(base64(&bytes).len(), 4 * ((100 + 2) / 3));
}

/// Two captures in one run never collide, however fast they come.
#[test]
fn frames_do_not_overwrite_each_other() {
    let mut scratch = Scratch::at("/tmp/cyberloom-run-names-test".into());
    let names: Vec<String> = (0..50).map(|_| scratch.file("webcam", "png")).collect();
    let unique: HashSet<_> = names.iter().collect();
    assert_eq!(unique.len(), names.len());
    assert_eq!(names[0], "/tmp/cyberloom-run-names-test/webcam-0.png");
    assert_eq!(scratch.path(), "/tmp/cyberloom-run-names-test");
}

/// And the scaling itself, against a sound this test made, so the number is
/// pinned to arithmetic rather than to whatever amplitude ffmpeg felt like.
#[test]
fn full_scale_is_255_and_silence_is_0() {
    let rate = 12u32 * 100;
    // The first half is full scale, the second is silence.
    let samples: Vec<i16> = (0..rate).map(|i| if i < rate / 2 { i16::MAX } else { 0 }).collect();
    let wav = wav(&samples, rate);
    let shape = envelope_of(&wav);
    assert_eq!(shape.len(), ENVELOPE_HZ as usize);
    assert_eq!(shape[0], 255, "full scale should be the top of the range");
    assert_eq!(shape[ENVELOPE_HZ as usize - 1], 0, "silence should be the bottom");
}

#[test]
fn something_that_is_not_a_wav_gets_a_closed_mouth_rather_than_an_error() {
    assert!(envelope_of(b"").is_empty());
    assert!(envelope_of(b"not a wav file at all").is_empty());
}

#[test]
fn a_wav_is_read_back_as_it_was_written() {
    let samples: Vec<i16> = vec![0, 1, -1, i16::MIN, i16::MAX];
    let bytes = wav(&samples, 16000);
    assert_eq!(bytes.len(), 44 + 10);
    assert_eq!(&bytes[0..4], b"RIFF");
    assert_eq!(riff(&bytes), Some((16000, 44, 54)));
    assert_eq!(&bytes[44..46], &[0, 0]);
    assert_eq!(&bytes[48..50], &[0xff, 0xff]);
}

#[test]
fn a_chunk_before_the_data_is_walked_past() {
    let mut bytes = wav(&[7, 7], 8000);
    // Put a four-byte LIST chunk between fmt and data.
    let list = [b'L', b'I', b'S', b'T', 4, 0, 0, 0, 1, 2, 3, 4];
    let tail = bytes.split_off(36);
    bytes.extend_from_slice(&list);
    bytes.extend_from_slice(&tail);
    assert_eq!(riff(&bytes), Some((8000, 56, 60)));
}

#[test]
fn a_device_name_is_read_for_what_it_is() {
    assert_eq!(Input::read("/dev/video0", Kind::Video, false), Input::Device("/dev/video0".into()));
    assert_eq!(Input::read("lavfi:testsrc", Kind::Video, false), Input::Synthetic("testsrc".into()));
    assert_eq!(Input::read("default", Kind::Audio, false), Input::Device("default".into()));
    // An existing file stands in for a device while a graph is built.
    assert_eq!(Input::read(" clip.png ", Kind::Video, true), Input::File("clip.png".into()));
}

#[test]
fn ffmpeg_is_asked_for_a_size_the_way_each_input_can_give_one() {
    let camera = frame_args(&Input::Device("/dev/video0".into()), Some("640×480"), "/tmp/f.png");
    assert_eq!(camera, ["-s", "640x480", "-f", "v4l2", "-i", "/dev/video0", "-frames:v", "1", "-y", "/tmp/f.png"]);
    let synthetic = frame_args(&Input::Synthetic("testsrc".into()), Some("160x120"), "/tmp/f.png");
    assert_eq!(synthetic, ["-f", "lavfi", "-i", "testsrc", "-vf", "scale=160:120", "-frames:v", "1", "-y", "/tmp/f.png"]);
    let plain = frame_args(&Input::File("clip.png".into()), None, "/tmp/f.png");
    assert_eq!(plain, ["-i", "clip.png", "-frames:v", "1", "-y", "/tmp/f.png"]);
    assert_eq!(play_args("/tmp/a.wav", None), ["-i", "/tmp/a.wav", "-f", "alsa", "default"]);
    assert_eq!(Input::Device("default".into()).args(Kind::Audio), ["-f", "alsa", "-i", "default"]);
}

/// A camera that is not there says so in words that name the fix.
#[test]
fn a_missing_camera_says_what_to_do_about_it_in_words() {
    let why = ffmpeg_failure("config\n/dev/video-nope: No such file or directory\n", Some(&Input::Device("/dev/video-nope".into())));
    assert!(why.contains("lavfi:testsrc"), "{why}");
    assert!(why.starts_with("/dev/video-nope: No such file or directory"), "{why}");
    assert_eq!(ffmpeg_failure("", None), "ffmpeg failed with no message");
    let denied = friendlier("Permission denied", Some(&Input::Device("/dev/video0".into())));
    assert!(denied.contains("cannot open it"), "{denied}");
    assert_eq!(friendlier("bad", Some(&Input::File("x.wav".into()))), "bad — could not read `x.wav`.");
}

#[test]
fn ffmpeg_is_told_to_be_quiet_and_never_to_wait() {
    let v = loomd::run::sense::ffmpeg_command(&vec!["-i".to_string(), "x.wav".to_string()]);
    assert_eq!(v, ["-hide_banner", "-loglevel", "error", "-nostdin", "-i", "x.wav"]);
    assert_eq!(loomd::run::sense::ffmpeg_outcome(true, "fine", None), Ok("fine".to_string()));
    assert_eq!(loomd::run::sense::ffmpeg_outcome(false, "a\nbad thing\n\n", None), Err("bad thing".to_string()));
}
