use sigil_chat::guardians::{lodged_said, Guardians};

#[test]
fn a_guardian_is_named_once_and_can_be_taken_off() {
    let mut g = Guardians::new();
    g.add([1u8; 32]);
    g.add([2u8; 32]);
    g.add([1u8; 32]);
    assert_eq!(g.list(), vec![[1u8; 32], [2u8; 32]]);
    g.remove([1u8; 32]);
    assert_eq!(g.list(), vec![[2u8; 32]]);
}

#[test]
fn it_takes_between_one_and_all_of_them() {
    let mut g = Guardians::new();
    assert_eq!(g.lodge(), None, "nobody named: nothing lodged");
    g.add([1u8; 32]);
    assert_eq!(g.threshold(), 1, "two wanted, one named");
    g.add([2u8; 32]);
    g.add([3u8; 32]);
    assert_eq!(g.threshold(), 2);
    g.set_threshold(0);
    assert_eq!(g.threshold(), 1);
    g.set_threshold(9);
    let (t, who) = g.lodge().expect("three named");
    assert_eq!((t, who.len()), (3, 3));
    assert!(g.list().is_empty(), "emptied for next time");
}

#[test]
fn lodged_guardians_are_said() {
    assert_eq!(lodged_said(2, 3), "Lodged: any 2 of 3 guardians may name your successor.");
}

#[test]
fn a_successor_is_asked_after_once_and_said_plainly() {
    let mut asked = Vec::new();
    assert!(sigil_chat::guardians::ask_after(false, &mut asked, &[3u8; 32]));
    assert!(!sigil_chat::guardians::ask_after(false, &mut asked, &[3u8; 32]), "not twice");
    assert!(!sigil_chat::guardians::ask_after(true, &mut asked, &[4u8; 32]), "known: not asked");
    assert_eq!(asked, vec![[3u8; 32]]);
    assert_eq!(sigil_chat::guardians::moved_said("Ada", "9Hx2\u{2026}"), "Ada's account is now 9Hx2\u{2026}");
}
