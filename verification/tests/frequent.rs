use sigil_chat::frequent::Frequent;

#[test]
fn the_most_sent_come_first_and_ties_are_stable() {
    let mut f = Frequent::in_memory();
    for e in ["b", "a", "b", "c", "a", "b"] {
        f.bump(e);
    }
    assert_eq!(f.top(5), vec!["b", "a", "c"]);
    assert_eq!(f.top(2), vec!["b", "a"]);
    f.bump("");
    assert_eq!(f.top(5), vec!["b", "a", "c"]);
}

#[test]
fn counts_survive_a_round_trip_through_the_file() {
    let mut f = Frequent::in_memory();
    f.bump("\u{1f389}");
    f.bump("\u{1f389}");
    f.bump("\u{1f44d}");
    let again = Frequent::from_text(&f.to_text());
    assert_eq!(again.top(5), vec!["\u{1f389}", "\u{1f44d}"]);
    assert_eq!(again.count_of("\u{1f389}"), 2);
    assert_eq!(again.count_of("\u{1f44d}"), 1);
}

#[test]
fn a_corrupt_file_is_an_empty_row_and_a_good_line_in_it_still_counts() {
    let f = Frequent::from_text("not a count\tx\n\n3\t\u{1f602}\nnine\n\t\n");
    assert_eq!(f.top(5), vec!["\u{1f602}"]);
    assert_eq!(f.count_of("\u{1f602}"), 3);
}

#[test]
fn the_file_is_written_most_first_one_line_each() {
    let mut f = Frequent::in_memory();
    for e in ["b", "a", "b"] {
        f.bump(e);
    }
    assert_eq!(f.to_text(), "2\tb\n1\ta\n");
    assert_eq!(Frequent::in_memory().to_text(), "");
}

#[test]
fn a_count_is_read_with_space_around_it() {
    let f = Frequent::from_text(" 7 \t x \r\n4\ty");
    assert_eq!(f.count_of("x"), 7);
    assert_eq!(f.count_of("y"), 4);
    assert_eq!(f.top(1), vec!["x"]);
}

#[test]
fn a_later_line_for_the_same_emoji_wins() {
    let f = Frequent::from_text("3\ta\n5\ta\n");
    assert_eq!(f.count_of("a"), 5);
    assert_eq!(f.top(5), vec!["a"]);
}

#[test]
fn nothing_asked_is_nothing_given() {
    let mut f = Frequent::in_memory();
    f.bump("a");
    assert_eq!(f.top(0), Vec::<String>::new());
    assert_eq!(f.count_of("z"), 0);
}
