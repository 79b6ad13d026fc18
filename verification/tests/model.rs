use loomd::run::model::{display_name, wire_name, ModelError};

#[test]
fn a_dot_survives_the_round_trip_through_the_wire() {
    assert_eq!(wire_name("terminal.run"), "terminal_run");
    assert_eq!(display_name("terminal_run"), "terminal.run");
    // A block id with a dash in it keeps the dash and still splits right.
    assert_eq!(wire_name("watch-folder.read"), "watch-folder_read");
    assert_eq!(display_name("watch-folder_read"), "watch-folder.read");
}

/// A block id with an underscore is the case the split gets wrong, and it is
/// worth being honest that it does: the last underscore is the verb's, so
/// `my_terminal.run` comes back as `my_terminal.run` only because the split
/// is from the right.
#[test]
fn the_split_is_from_the_right_so_an_underscore_in_the_id_survives() {
    assert_eq!(display_name(&wire_name("my_terminal.run")), "my_terminal.run");
}

#[test]
fn a_name_without_an_underscore_is_left_alone() {
    assert_eq!(display_name("remember"), "remember");
    assert_eq!(wire_name("remember"), "remember");
}

#[test]
fn a_model_error_says_its_own_sentence() {
    assert_eq!(ModelError::Unreachable("Ollama is not running".into()).message(), "Ollama is not running");
    assert_eq!(ModelError::Malformed("bad json".into()).message(), "bad json");
}
