use loomd::run::memory::{episode_id, episode_line, fingerprint, forget_outcome, human_window, long_term_line, Order, Working};

const NOW: i64 = 1_700_000_000;

#[test]
fn a_thing_remembered_is_a_thing_recalled() {
    let mut store: Working<()> = Working::new(8, None);
    let id = store.remember("Mykl's partner is Sam", "person", None, NOW);
    assert_eq!(id, "w1");
    let found = store.recent(4, NOW);
    assert_eq!(found.len(), 1);
    assert_eq!(found[0].text, "Mykl's partner is Sam");
    assert_eq!(found[0].kind, "person");
}

/// Working memory is the store that is allowed to forget: past its limit,
/// the oldest goes.
#[test]
fn working_memory_keeps_only_its_window() {
    let mut store: Working<()> = Working::new(2, None);
    for text in ["one", "two", "three"] {
        store.remember(text, "episode", None, NOW);
    }
    assert_eq!(store.count(NOW), 2);
    let kept: Vec<String> = store.recent(8, NOW).into_iter().map(|e| e.text).collect();
    assert_eq!(kept, ["three", "two"], "the oldest should have gone");
}

/// Consolidation copies, and copies each thing once. A graph that
/// consolidates every ten minutes must not write the same episode six
/// times an hour.
#[test]
fn what_is_pending_is_what_has_not_been_carried_yet() {
    let mut store: Working<()> = Working::new(8, None);
    store.remember("one", "episode", None, NOW);
    assert_eq!(store.pending(NOW).len(), 1);
    assert_eq!(store.pending(NOW).len(), 0, "it was carried already");
    store.remember("two", "episode", None, NOW);
    assert_eq!(store.pending(NOW).len(), 1);
    assert_eq!(store.count(NOW), 2, "consolidating does not empty it");
}

#[test]
fn a_window_drops_what_is_older_than_it() {
    let mut store: Working<()> = Working::new(8, Some(60));
    // Remembered an hour ago: waiting a minute is not a test.
    store.remember("recent", "episode", None, NOW - 3600);
    assert_eq!(store.count(NOW), 0);
}

#[test]
fn an_episode_just_inside_the_window_stays() {
    let mut store: Working<()> = Working::new(8, Some(60));
    store.remember("too old", "episode", None, NOW - 61);
    store.remember("on the edge", "episode", None, NOW - 60);
    assert_eq!(store.count(NOW), 1);
}

#[test]
fn forgetting_takes_what_mentions_it_or_is_called_it() {
    let mut store: Working<()> = Working::new(8, None);
    store.remember("Sam is Mykl's partner", "person", None, NOW);
    store.remember("saw Sam at the door", "episode", None, NOW);
    let cat = store.remember("saw a cat at the door", "episode", None, NOW);
    assert_eq!(store.forget("Sam"), 2);
    assert_eq!(store.count(NOW), 1);
    assert_eq!(store.forget(&cat), 1);
    assert_eq!(store.count(NOW), 0);
}

#[test]
fn ids_keep_counting_past_what_was_dropped() {
    let mut store: Working<()> = Working::new(1, None);
    assert_eq!(store.remember("a", "fact", None, NOW), "w1");
    assert_eq!(store.remember("b", "fact", None, NOW), "w2");
    let held: Vec<String> = store.held().iter().map(|h| h.id.clone()).collect();
    assert_eq!(held, ["w2"]);
}

#[test]
fn the_panel_row_says_what_is_held() {
    let mut store: Working<()> = Working::new(128, Some(300));
    store.remember("one", "episode", None, NOW);
    store.remember("two", "episode", None, NOW);
    store.remember("three", "episode", None, NOW);
    assert_eq!(store.describe(NOW), "in-process · 3 of 128 items · 5 min");
    let mut open: Working<()> = Working::new(0, None);
    assert_eq!(open.describe(NOW), "in-process · 0 of 1 items");
}

#[test]
fn windows_are_written_in_their_largest_whole_unit() {
    assert_eq!(human_window(7200), "2 h");
    assert_eq!(human_window(300), "5 min");
    assert_eq!(human_window(90), "90 s");
    assert_eq!(human_window(0), "0 s");
}

#[test]
fn an_episode_goes_into_context_under_its_kind() {
    assert_eq!(episode_line("person", "Sam"), "[person] Sam");
}

#[test]
fn recall_order_is_read_from_its_name() {
    assert_eq!(Order::read("relevance"), Order::Relevance);
    assert_eq!(Order::read("mixed"), Order::Mixed);
    assert_eq!(Order::read("whatever"), Order::RecentFirst);
}

/// Forgetting from one store and not another is not forgetting: the count
/// is over every store, and a store that failed is the answer only when
/// nothing went anywhere.
#[test]
fn forgetting_counts_every_store_and_reports_trouble_only_when_nothing_went() {
    assert_eq!(forget_outcome(&vec![Ok(1), Ok(2)]), Ok(3));
    assert_eq!(forget_outcome(&vec![Ok(2), Err("locked".into())]), Ok(2));
    assert_eq!(forget_outcome(&vec![Err("first".into()), Ok(0), Err("locked".into())]), Err("locked".into()));
    assert_eq!(forget_outcome(&Vec::new()), Ok(0));
}

/// A memory is filed under FNV-1a of its kind, a zero byte and its text, so
/// the same thing remembered twice is filed under one name.
#[test]
fn the_same_thing_is_filed_under_one_name() {
    assert_eq!(fingerprint("", ""), 0xaf63_bd4c_8601_b7df);
    assert_eq!(fingerprint("the door was closed", "episode"), 5893217839599527786);
    assert_eq!(episode_id("the door was closed", "episode"), "e51c8ea66c953276a");
    assert_eq!(episode_id("the door was closed", "episode"), episode_id("the door was closed", "episode"));
    assert_eq!(episode_id("my name is Mykl", "person"), "e1c06eb613df4bbf8");
    assert_eq!(episode_id("é", "x"), "e4971a75277674441");
    assert_ne!(episode_id("the door was closed", "person"), episode_id("the door was closed", "episode"));
    assert_eq!(episode_id("", "").len(), 17);
}

#[test]
fn the_long_term_row_names_the_file_not_its_folders() {
    assert_eq!(long_term_line(12, "/home/me/ws/.cyberloom/memory.db"), "sqlite + vectors · 12 episodes · memory.db");
    assert_eq!(long_term_line(0, ":memory:"), "sqlite + vectors · 0 episodes · :memory:");
    assert_eq!(long_term_line(1, "dir/"), "sqlite + vectors · 1 episodes · ");
}
