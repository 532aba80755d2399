use std::path::PathBuf;

use sigil_chat::files::Pick;

/// Asked before it is answered, a pick says nothing; answered, it says so
/// once and then never again -- a choice acted on twice would attach the same
/// file twice.
#[test]
fn a_pick_is_taken_once() {
    let (pick, answer) = Pick::pending();
    assert!(pick.take().is_none());
    assert!(pick.take().is_none());
    answer.give(Some(vec![PathBuf::from("a")]));
    assert_eq!(pick.take(), Some(Some(vec![PathBuf::from("a")])));
    assert!(pick.take().is_none());
}

/// Nothing chosen is an answer, distinct from no answer yet.
#[test]
fn nothing_chosen_is_an_answer() {
    let (pick, answer) = Pick::pending();
    answer.give(None);
    assert_eq!(pick.take(), Some(None));
    let ready = Pick::answered(None);
    assert_eq!(ready.take(), Some(None));
}

#[test]
fn a_clone_of_a_pick_is_the_same_pick() {
    let (pick, answer) = Pick::pending();
    let other = pick.clone();
    answer.give(Some(vec![PathBuf::from("b"), PathBuf::from("c")]));
    assert_eq!(other.take(), Some(Some(vec![PathBuf::from("b"), PathBuf::from("c")])));
    assert_eq!(pick.take(), None, "taken through the clone");
}

#[test]
fn an_answered_pick_is_taken_once_too() {
    let ready = Pick::answered(Some(vec![PathBuf::from("x")]));
    assert_eq!(ready.take(), Some(Some(vec![PathBuf::from("x")])));
    assert_eq!(ready.take(), None);
}
