use sigil_chat::trouble::{delete_label, trouble_said, Tone, Trouble};

fn clear() -> Trouble {
    Trouble {
        chain_apart: false,
        no_key: None,
        unreadable: 0,
        redactable: Vec::new(),
        lost: 0,
        gap: false,
        restarted: false,
        forged: 0,
    }
}

#[test]
fn all_well_says_nothing() {
    assert!(trouble_said(&clear(), false).is_empty());
    assert_eq!(delete_label(&clear()), None);
}

#[test]
fn what_could_not_be_opened_is_said_by_the_kind_of_conversation() {
    let mut t = clear();
    t.unreadable = 1;
    assert_eq!(
        trouble_said(&t, false),
        vec![(Tone::Warning, "1 message here has not been opened yet — its key may still arrive.".to_string())]
    );
    assert_eq!(
        trouble_said(&t, true)[0].1,
        "1 message here could not be read by this version of sigil."
    );
    t.unreadable = 3;
    assert_eq!(
        trouble_said(&t, false)[0].1,
        "3 messages here have not been opened yet — their key may still arrive."
    );
    assert_eq!(trouble_said(&t, true)[0].1, "3 messages here could not be read by this version of sigil.");
}

#[test]
fn every_kind_of_trouble_is_said_in_order() {
    let t = Trouble {
        chain_apart: true,
        no_key: Some(7),
        unreadable: 2,
        redactable: vec![1],
        lost: 1,
        gap: true,
        restarted: true,
        forged: 2,
    };
    let said = trouble_said(&t, false);
    let tones: Vec<Tone> = said.iter().map(|l| l.0).collect();
    assert_eq!(
        tones,
        vec![Tone::Warning, Tone::Destructive, Tone::Warning, Tone::Destructive, Tone::Secondary, Tone::Warning, Tone::Destructive]
    );
    assert!(said[1].1.contains("(epoch 7)"));
    assert_eq!(said[3].1, "1 message here can never be read: its key is gone.");
    assert!(said[6].1.starts_with("2 entries claimed"));
}

#[test]
fn the_way_to_take_them_down_says_whose() {
    let mut t = clear();
    t.unreadable = 1;
    t.redactable = vec![4];
    assert_eq!(delete_label(&t).as_deref(), Some("Delete it"));
    t.unreadable = 2;
    t.redactable = vec![4, 5];
    assert_eq!(delete_label(&t).as_deref(), Some("Delete them"));
    t.unreadable = 5;
    assert_eq!(delete_label(&t).as_deref(), Some("Delete the 2 of them that are yours"));
}
