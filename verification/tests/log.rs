use amoeba_rl::sim::log::{wrap, MessageLog, OrganelleLog, CAPACITY, PAGE_LINES, VISIBLE_LINES, WRAP_WIDTH};
use amoeba_rl::sim::schedule::TURN;

/// The displayed turn number: the highest time seen over one turn's length.
fn turn(log: &OrganelleLog) -> f32 {
    log.nice_turn() as f32 / TURN as f32
}

#[test]
fn short_messages_stay_on_one_line() {
    let mut log = MessageLog::new();
    log.add("The Militia is engulfed!");
    assert_eq!(log.lines(), ["The Militia is engulfed!"]);
}

#[test]
fn long_messages_wrap_at_the_console_width() {
    let mut log = MessageLog::new();
    log.add(
        "Consult the README file to review these instructions and more. F1 to show these messages again.",
    );
    assert!(log.lines().len() > 1);
    assert!(log.lines().iter().all(|l| l.chars().count() <= WRAP_WIDTH));
}

#[test]
fn over_long_words_are_split_rather_than_dropped() {
    let word = "x".repeat(150);
    let lines = wrap(&word, 62);
    assert_eq!(lines.len(), 3);
    assert_eq!(lines.concat(), word);
}

#[test]
fn tail_returns_the_most_recent_lines() {
    let mut log = MessageLog::new();
    for i in 0..20 {
        log.add(&format!("line {i}"));
    }
    let tail = log.tail(VISIBLE_LINES);
    assert_eq!(tail.len(), VISIBLE_LINES);
    assert_eq!(tail[VISIBLE_LINES - 1], "line 19");
}

#[test]
fn the_ring_is_bounded() {
    let mut log = MessageLog::new();
    for i in 0..(CAPACITY + 50) {
        log.add(&format!("line {i}"));
    }
    assert_eq!(log.lines().len(), CAPACITY);
    assert_eq!(log.lines()[0], "line 50");
}

#[test]
fn selection_wraps_both_ways() {
    let mut log = OrganelleLog::new();
    log.scroll(-1, 4);
    assert_eq!(log.selected(4), 3);
    log.scroll(1, 4);
    assert_eq!(log.selected(4), 0);
    log.scroll(6, 4);
    assert_eq!(log.selected(4), 2);
}

#[test]
fn selection_survives_a_shrinking_list() {
    let mut log = OrganelleLog::new();
    log.scroll(9, 20);
    assert_eq!(log.selected(20), 9);
    assert_eq!(log.selected(3), 0);
    assert_eq!(log.selected(0), 0);
}

#[test]
fn paging_clamps_at_the_top_and_wraps_at_the_bottom() {
    let mut log = OrganelleLog::new();
    log.turn_page(-3);
    assert_eq!(log.page(200), 0);
    log.turn_page(1);
    assert_eq!(log.page(200), 1);
    log.turn_page(3);
    assert_eq!(log.page(200), 0);
}

#[test]
fn the_turn_counter_never_goes_backwards() {
    let mut log = OrganelleLog::new();
    log.observe_time(320);
    assert!((turn(&log) - 20.0).abs() < f32::EPSILON);
    log.observe_time(0);
    assert!((turn(&log) - 20.0).abs() < f32::EPSILON);
}

// -- more cases --------------------------------------------------------------

#[test]
fn an_empty_message_is_one_empty_line() {
    assert_eq!(wrap("", 10), vec![String::new()]);
    let mut log = MessageLog::new();
    log.add("");
    assert_eq!(log.lines(), [""]);
}

#[test]
fn wrapping_breaks_between_words_and_drops_the_space() {
    assert_eq!(wrap("aaa bbb ccc", 7), vec!["aaa bbb", "ccc"]);
    assert_eq!(wrap("aaa bbb", 3), vec!["aaa", "bbb"]);
    assert_eq!(wrap("ab", 1), vec!["a", "b"]);
}

#[test]
fn a_long_word_flushes_the_line_in_progress() {
    assert_eq!(wrap("hi abcdefgh", 4), vec!["hi", "abcd", "efgh"]);
}

#[test]
fn tail_of_more_than_there_is_returns_everything() {
    let mut log = MessageLog::new();
    log.add("one");
    log.add("two");
    assert_eq!(log.tail(9), ["one", "two"]);
    assert_eq!(log.tail(0).len(), 0);
}

#[test]
fn pages_are_fifty_five_entries() {
    assert_eq!(PAGE_LINES, 55);
    let mut log = OrganelleLog::new();
    log.turn_page(1);
    assert_eq!(log.page(55), 0);
    assert_eq!(log.page(56), 1);
    assert_eq!(log.page(0), 0);
}

#[test]
fn scrolling_an_empty_list_parks_the_cursor() {
    let mut log = OrganelleLog::new();
    log.scroll(5, 10);
    log.scroll(3, 0);
    assert_eq!(log.selected(10), 0);
}

#[test]
fn a_trailing_space_is_not_kept() {
    assert_eq!(wrap("abc ", 62), vec!["abc".to_string()]);
}

#[test]
fn doubled_spaces_collapse_to_one() {
    assert_eq!(wrap("a  b", 10), vec!["a b".to_string()]);
}
