use sigil_chat::backup::{held_said, key_label, numbered, used_said};

#[test]
fn the_backup_says_how_much_room_it_takes_and_when_it_was_written() {
    assert_eq!(used_said(1_024, 65_536), "1024 of 65536 bytes used.");
    assert_eq!(held_said(7, "Thu", "3xK9\u{2026}"), "Backed up: generation 7, written Thu by 3xK9\u{2026}.");
    assert_eq!(key_label(true), "Show backup key");
    assert_eq!(key_label(false), "Make a backup key");
}

#[test]
fn the_words_are_numbered_as_they_are_written_down() {
    let words = ["abandon", "ability", "able"];
    for (i, w) in words.iter().enumerate() {
        assert_eq!(numbered(i as u64, w), format!("{:>2}. {w}", i + 1));
    }
    assert_eq!(numbered(9, "zoo"), "10. zoo");
    assert_eq!(numbered(23, "zoo"), format!("{:>2}. {}", 24, "zoo"));
}
