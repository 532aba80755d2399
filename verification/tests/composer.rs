use std::path::PathBuf;

use sigil_chat::composer::{picker_moved, Composer, Offered, Pressed, Source, Staged, Written};
use sigil_chat::command::Command;
use sigil_chat::session::Attached;

fn file(name: &str) -> Staged {
    Staged { source: Source::File(PathBuf::from(name)), name: name.into(), kind: 1, preview: None }
}

fn written(seq: u64, text: &str) -> Written {
    Written {
        seq,
        text: text.into(),
        mentions: vec![("Ada".into(), [2u8; 32]), ("Bram".into(), [3u8; 32])],
        attachments: vec![Attached { id: "blob".into(), described: "a.png".into(), kind: 1, preview: vec![1, 2] }],
    }
}

fn post(c: &mut Composer) -> sigil_chat::composer::Draft {
    match c.press() {
        Pressed::Post(d) => d,
        _ => panic!("not posted"),
    }
}

#[test]
fn a_rewrite_brings_its_words_names_and_files_and_the_cancel_brings_back_what_was_typed() {
    let mut c = Composer::new();
    c.composing = "half a thought".into();
    c.mentions.push(("Cy".into(), [4u8; 32]));
    c.replying = Some(3);
    c.rewrite(&written(7, "hi @Ada"));
    assert_eq!(c.editing, Some(7));
    assert_eq!(c.replying, None, "a rewrite does not re-thread");
    assert_eq!(c.composing, "hi @Ada");
    assert_eq!(c.mentions, vec![("Ada".to_string(), [2u8; 32])]);
    assert_eq!(c.carried_mentions, vec![[3u8; 32]], "renamed since: carried");
    assert_eq!(c.staged.len(), 1);
    assert!(matches!(&c.staged[0].source, Source::Carried(id) if id == "blob"));
    assert_eq!(c.staged[0].uri(), "bytes://blob-preview");
    c.cancel_head();
    assert_eq!(c.editing, None);
    assert_eq!(c.composing, "half a thought");
    assert_eq!(c.mentions, vec![("Cy".to_string(), [4u8; 32])]);
    assert!(c.carried_mentions.is_empty());
}

#[test]
fn one_head_at_a_time() {
    let mut c = Composer::new();
    c.rewrite(&written(7, "x"));
    c.reply_to(9);
    assert_eq!((c.editing, c.replying), (None, Some(9)));
    assert_eq!(c.composing, "", "the rewrite's words do not stay behind");
    c.cancel_head();
    assert_eq!((c.editing, c.replying), (None, None));
}

#[test]
fn a_message_goes_with_its_names_and_files_and_comes_back_when_refused() {
    let mut c = Composer::new();
    c.composing = "  hi @Ada  ".into();
    c.mentions.push(("Ada".into(), [2u8; 32]));
    c.mentions.push(("Bram".into(), [3u8; 32]));
    c.staged.push(file("a.png"));
    c.replying = Some(4);
    let d = post(&mut c);
    assert_eq!(d.text, "hi @Ada");
    assert_eq!(d.mentions, vec![[2u8; 32]], "Bram is no longer in the words");
    assert_eq!(d.files, vec![PathBuf::from("a.png")]);
    assert_eq!(d.reply, Some(4));
    assert_eq!(d.token, 1);
    assert_eq!(c.composing, "");
    assert!(c.staged.is_empty() && c.mentions.is_empty());
    assert_eq!(c.in_flight.len(), 1);
    c.took_back(d.token, Some("too big".into()));
    assert_eq!(c.composing, "hi @Ada");
    assert_eq!(c.staged.len(), 1);
    assert_eq!(c.replying, Some(4));
    assert_eq!(c.mentions.len(), 2);
    assert!(c.in_flight.is_empty());
}

#[test]
fn a_refused_message_beside_new_words_is_offered_back() {
    let mut c = Composer::new();
    c.composing = "first".into();
    let d = post(&mut c);
    c.composing = "second".into();
    c.took_back(d.token, Some("no".into()));
    assert_eq!(c.composing, "second");
    let (u, why) = c.put_back.as_ref().expect("offered back");
    assert_eq!((u.composing.as_str(), why.as_str()), ("first", "no"));
    c.put_it_back();
    assert_eq!(c.composing, "first");
    assert!(c.put_back.is_none());
}

#[test]
fn an_answer_settles_everything_sent_before_it() {
    let mut c = Composer::new();
    c.composing = "a".into();
    let a = post(&mut c);
    c.composing = "b".into();
    let b = post(&mut c);
    assert_eq!((a.token, b.token), (1, 2));
    c.took_back(b.token, None);
    assert!(c.in_flight.is_empty());
    c.took_back(a.token, Some("late".into()));
    assert_eq!(c.composing, "", "an answer for nothing in flight changes nothing");
}

#[test]
fn a_slash_is_a_command_and_two_are_a_message() {
    let mut c = Composer::new();
    c.composing = "/call".into();
    assert!(matches!(c.press(), Pressed::Run(Command::Call)));
    assert_eq!(c.composing, "");
    c.composing = "/frob".into();
    assert!(matches!(c.press(), Pressed::Trouble));
    assert!(c.command_trouble.as_deref().unwrap().contains("not a command"));
    c.composing = "//etc".into();
    let d = post(&mut c);
    assert_eq!(d.text, "/etc");
    c.composing = "   ".into();
    assert!(matches!(c.press(), Pressed::Nothing));
}

#[test]
fn the_keyboard_stays_in_the_list() {
    assert_eq!(picker_moved(0, 3, false, true), 1);
    assert_eq!(picker_moved(2, 3, false, true), 2);
    assert_eq!(picker_moved(0, 3, true, false), 0);
    assert_eq!(picker_moved(9, 3, false, false), 2);
    assert_eq!(picker_moved(1, 0, true, true), 0);
}

use sigil_chat::composer::staging_trouble;

#[test]
fn what_staging_left_out_is_said() {
    assert_eq!(staging_trouble(0, 0, 10, &[]), None);
    assert_eq!(
        staging_trouble(2, 0, 10, &[]).unwrap(),
        "A message carries up to 10 files; 2 left out."
    );
    assert_eq!(
        staging_trouble(1, 3, 10, &["a".to_string(), "b".to_string()]).unwrap(),
        "A message carries up to 10 files, and 3 are already on this one; 1 left out. Not a file: a, b."
    );
    assert_eq!(staging_trouble(0, 0, 10, &["dir".to_string()]).unwrap(), "Not a file: dir.");
}

fn offered(path: &str, name: &str, is_file: bool) -> Offered {
    Offered { path: PathBuf::from(path), name: name.into(), is_file, kind: 1 }
}

#[test]
fn staging_keeps_each_file_once_and_says_what_was_left_out() {
    let mut c = Composer::new();
    let added = c.stage(
        &[
            offered("/tmp/a.png", "a.png", true),
            offered("/tmp//a.png", "a.png", true),
            offered("/tmp/photos", "photos", false),
            offered("/tmp/b.png", "b.png", true),
            offered("/tmp/c.png", "c.png", true),
        ],
        2,
    );
    assert_eq!(added, vec![PathBuf::from("/tmp/a.png"), PathBuf::from("/tmp/b.png")]);
    assert_eq!(c.staged.len(), 2);
    assert_eq!(c.staged[1].name, "b.png");
    assert!(c.staged[1].preview.is_none());
    assert_eq!(
        c.staging_trouble.as_deref(),
        Some("A message carries up to 2 files; 1 left out. Not a file: photos.")
    );
}

#[test]
fn staging_counts_the_files_a_rewrite_already_carries() {
    let mut c = Composer::new();
    c.rewrite(&written(7, "hi"));
    let added = c.stage(&[offered("/tmp/a.png", "a.png", true), offered("/tmp/b.png", "b.png", true)], 2);
    assert_eq!(added, vec![PathBuf::from("/tmp/a.png")]);
    assert_eq!(c.staged.len(), 2);
    assert_eq!(
        c.staging_trouble.as_deref(),
        Some("A message carries up to 2 files, and 1 are already on this one; 1 left out.")
    );
}

#[test]
fn staging_a_file_already_there_changes_nothing() {
    let mut c = Composer::new();
    c.stage(&[offered("/tmp/a.png", "a.png", true)], 10);
    c.staging_trouble = Some("earlier".into());
    let added = c.stage(&[offered("/tmp/./a.png", "a.png", true)], 10);
    assert!(added.is_empty());
    assert_eq!(c.staged.len(), 1);
    assert_eq!(c.staging_trouble.as_deref(), Some("earlier"), "nothing said, nothing cleared");
}

#[test]
fn a_staged_file_is_pictured_under_its_path() {
    assert_eq!(file("/tmp/a.png").uri(), "bytes://staged-/tmp/a.png");
}

#[test]
fn typing_is_said_only_when_it_changes() {
    assert_eq!(sigil_chat::composer::typing_said(false, "h"), Some(true));
    assert_eq!(sigil_chat::composer::typing_said(true, "hi"), None);
    assert_eq!(sigil_chat::composer::typing_said(true, ""), Some(false));
    assert_eq!(sigil_chat::composer::typing_said(false, ""), None);
}

#[test]
fn a_picture_lands_on_its_tile_and_taking_a_tile_out_makes_room() {
    let mut c = Composer::new();
    c.stage(&[offered("/tmp/a.png", "a.png", true), offered("/tmp/b.png", "b.png", true)], 2);
    c.picture_landed(&PathBuf::from("/tmp//b.png"), Some(vec![1, 2, 3]));
    assert_eq!(c.staged[1].preview, Some(vec![1, 2, 3]));
    assert!(c.staged[0].preview.is_none());
    c.picture_landed(&PathBuf::from("/tmp/a.png"), Some(Vec::new()));
    assert!(c.staged[0].preview.is_none(), "an empty picture is none");
    c.picture_landed(&PathBuf::from("/tmp/gone.png"), Some(vec![9]));
    assert_eq!(c.staged.len(), 2);
    c.stage(&[offered("/tmp/c.png", "c.png", true)], 2);
    assert!(c.staging_trouble.is_some());
    c.unstage(0);
    assert_eq!(c.staged.len(), 1);
    assert_eq!(c.staged[0].name, "b.png");
    assert!(c.staging_trouble.is_none(), "room was made");
}

#[test]
fn a_rewrite_sent_posts_its_own_files_and_brings_back_what_was_set_aside() {
    let mut c = Composer::new();
    c.composing = "half a thought".into();
    c.staged.push(file("draft.png"));
    c.rewrite(&written(7, "hi"));
    c.stage(&[Offered { path: PathBuf::from("/tmp/new.png"), name: "new.png".into(), is_file: true, kind: 1 }], 10);
    let d = post(&mut c);
    assert_eq!(d.edit, Some(7));
    assert_eq!(d.keep, vec!["blob".to_string()], "the message's own file goes with it");
    assert_eq!(d.files, vec![PathBuf::from("/tmp/new.png")], "and the one added to it");
    assert_eq!(c.composing, "half a thought");
    assert_eq!(c.staged.len(), 1, "what was set aside comes back, files too");
    assert!(matches!(&c.staged[0].source, Source::File(p) if p == &PathBuf::from("draft.png")));
}

#[test]
fn a_command_line_runs_what_it_says_or_keeps_its_mistake() {
    let mut c = Composer::new();
    c.composing = " /help ".into();
    assert!(matches!(c.press(), Pressed::Run(Command::Help)));
    assert_eq!(c.composing, "");
    c.composing = "/nonsense".into();
    assert!(matches!(c.press(), Pressed::Trouble));
    assert_eq!(c.composing, "/nonsense");
    assert_eq!(
        c.command_trouble.as_deref(),
        Some("/nonsense is not a command. Type / to see them, or // to send a message that starts with a slash.")
    );
}
