use maze_wars::killfeed::{KillFeed, CAPACITY, DISPLAY_DURATION_MS};

#[test]
fn visible_lines_are_newest_first() {
    let mut feed = KillFeed::default();
    feed.push("a killed b".into(), 0);
    feed.push("c killed d".into(), 100);

    let lines = feed.visible(200);
    assert_eq!(lines, vec!["c killed d", "a killed b"]);
}

#[test]
fn entries_disappear_after_their_display_window() {
    let mut feed = KillFeed::new();
    feed.push("a killed b".into(), 0);

    assert_eq!(feed.visible(DISPLAY_DURATION_MS - 1).len(), 1);
    assert_eq!(feed.visible(DISPLAY_DURATION_MS + 1).len(), 0);
}

#[test]
fn capacity_drops_the_oldest_entry_first() {
    let mut feed = KillFeed::new();
    for i in 0..CAPACITY + 2 {
        feed.push(format!("kill {i}"), 0);
    }

    let lines = feed.visible(0);
    assert_eq!(lines.len(), CAPACITY);
    assert_eq!(lines.first().map(String::as_str), Some("kill 6"));
    assert!(!lines.iter().any(|line| line == "kill 0"));
    assert!(!lines.iter().any(|line| line == "kill 1"));
}

#[test]
fn a_line_leaves_exactly_when_its_window_ends() {
    let mut feed = KillFeed::new();
    feed.push("x".into(), 1_000);
    assert_eq!(feed.visible(1_000 + DISPLAY_DURATION_MS - 1).len(), 1);
    assert_eq!(feed.visible(1_000 + DISPLAY_DURATION_MS).len(), 0);
}

#[test]
fn expiry_saturates_at_the_end_of_the_clock() {
    let mut feed = KillFeed::new();
    feed.push("late".into(), u64::MAX - 10);
    assert_eq!(feed.visible(u64::MAX - 1), vec!["late"]);
}
