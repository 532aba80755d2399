use sigil_chat::transcript::{shape_of, LineLook};
use sigil_chat::composer::{Composer, Pressed, Source, Staged};
use sigil_chat::transcript::{earlier_label, echoes, jump_next, plan, Jump, LineFacts, Row, ECHO_SEQ};

fn line(seq: u64, who: u8, at: u64, day: u64) -> LineFacts {
    LineFacts { seq, who: [who; 32], at, day: Some(day) }
}

#[test]
fn the_way_back_says_how_much_is_there() {
    assert_eq!(earlier_label(1), "1 earlier message");
    assert_eq!(earlier_label(12), "12 earlier messages");
}

#[test]
fn the_same_person_soon_after_is_grouped() {
    let lines = [line(1, 1, 100, 1), line(2, 1, 200, 1), line(3, 1, 600, 1), line(4, 2, 610, 1)];
    let rows = plan(&lines, &[], None);
    assert_eq!(
        rows,
        vec![
            Row::Day(0),
            Row::Bubble { line: 0, grouped: false },
            Row::Bubble { line: 1, grouped: true },
            Row::Bubble { line: 2, grouped: false },
            Row::Bubble { line: 3, grouped: false },
        ]
    );
}

#[test]
fn a_day_an_event_or_the_divider_starts_a_new_group() {
    let lines = [line(1, 1, 100, 1), line(5, 1, 110, 1), line(6, 1, 120, 2), line(7, 1, 130, 2)];
    let rows = plan(&lines, &[3, 9], Some(7));
    assert_eq!(
        rows,
        vec![
            Row::Day(0),
            Row::Bubble { line: 0, grouped: false },
            Row::Event(0),
            Row::Bubble { line: 1, grouped: false },
            Row::Day(2),
            Row::Bubble { line: 2, grouped: false },
            Row::Divider(3),
            Row::Bubble { line: 3, grouped: false },
            Row::Event(1),
        ]
    );
}

#[test]
fn a_message_asked_for_is_found_or_fetched_or_let_go() {
    assert_eq!(jump_next(true, Some(10), 3, 5, false), Jump::Scroll);
    assert_eq!(jump_next(false, Some(10), 3, 5, false), Jump::AskEarlier);
    assert_eq!(jump_next(false, Some(10), 3, 5, true), Jump::Wait);
    assert_eq!(jump_next(false, Some(10), 3, 0, false), Jump::Drop);
    assert_eq!(jump_next(false, Some(2), 3, 5, false), Jump::Drop);
}

#[test]
fn what_was_just_sent_is_drawn_until_answered() {
    let mut c = Composer::new();
    c.composing = "one".into();
    assert!(matches!(c.press(), Pressed::Post(_)));
    c.staged.push(Staged { source: Source::Carried("x".into()), name: "x".into(), kind: 1, preview: None });
    assert!(matches!(c.press(), Pressed::Post(_)));
    assert_eq!(echoes(&c), vec![(0, ECHO_SEQ), (1, ECHO_SEQ + 1)]);
}

#[test]
fn pictures_no_longer_held_are_forgotten_with_their_previews() {
    let drawn = vec!["a".to_string(), "b".to_string(), "c".to_string()];
    let here = vec!["b".to_string(), "d".to_string()];
    assert_eq!(
        sigil_chat::transcript::images_gone(&drawn, &here),
        vec![
            "bytes://a".to_string(),
            "bytes://a-preview".to_string(),
            "bytes://c".to_string(),
            "bytes://c-preview".to_string(),
        ]
    );
    assert!(sigil_chat::transcript::images_gone(&here, &here).is_empty());
}

#[test]
fn the_way_back_says_how_much_is_new() {
    assert_eq!(sigil_chat::transcript::way_back_label(0), "Go to the latest");
    assert_eq!(sigil_chat::transcript::way_back_label(1), "Go to the latest \u{2014} 1 new");
    assert_eq!(sigil_chat::transcript::way_back_label(12), "Go to the latest \u{2014} 12 new");
}

#[test]
fn an_empty_conversation_says_whether_it_is_still_coming() {
    assert_eq!(sigil_chat::transcript::empty_said(true), "Loading this conversation\u{2026}");
    assert_eq!(sigil_chat::transcript::empty_said(false), "Nothing here yet.");
}

#[test]
fn a_messages_pictures_are_a_set_to_move_through() {
    // Picture 1, clip 2, anything else skipped.
    let kinds = [1u8, 9, 2, 1];
    assert_eq!(sigil_chat::transcript::picture_step(&kinds, 1, 2, 0, true), Some(2));
    assert_eq!(sigil_chat::transcript::picture_step(&kinds, 1, 2, 3, true), Some(0), "round the end");
    assert_eq!(sigil_chat::transcript::picture_step(&kinds, 1, 2, 0, false), Some(3), "round the start");
    assert_eq!(sigil_chat::transcript::picture_step(&kinds, 1, 2, 1, true), None, "not one of them");
    assert_eq!(sigil_chat::transcript::picture_step(&[1u8, 9], 1, 2, 0, true), None, "alone");
    assert_eq!(sigil_chat::transcript::picture_place(&kinds, 1, 2, 2).as_deref(), Some("2 of 3"));
    assert_eq!(sigil_chat::transcript::picture_place(&[1u8], 1, 2, 0), None);
}

#[test]
fn a_bubbles_shape_changes_only_with_what_its_height_is_made_of() {
    let look = LineLook {
        text_len: 12,
        redacted: false,
        edited: false,
        named: true,
        reactions: 2,
        standing: 0,
        reply: Some((3, 40)),
        me_mentioned: false,
        mention_labels: vec![3, 4],
    };
    let a = shape_of(&look, false);
    assert_eq!(a.mentions, 7);
    assert_eq!(a.reply, Some(43));
    assert_eq!(a, shape_of(&look, false));
    assert_ne!(a, shape_of(&look, true), "the author line comes and goes with grouping");
    let renamed = LineLook { mention_labels: vec![3, 9], ..look };
    assert_ne!(a, shape_of(&renamed, false));
}
