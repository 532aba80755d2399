use sigil_chat::key::Key;
use sigil_chat::presence::{due, wanted, Presence, Reply, Seen, MOST_READ, READS_PER_TICK};

fn reply(found: bool, staleness: u64, interval: u32, away: bool) -> Reply {
    Reply { found, last_seen: 10_000 - staleness, interval_secs: interval, now: 10_000, away }
}

fn k(b: u8) -> Key {
    [b; 32]
}

#[test]
fn an_answer_means_what_sip_4_says_it_means() {
    assert_eq!(Presence::of(&reply(true, 5, 30, false)).seen, Seen::Active);
    assert_eq!(Presence::of(&reply(true, 5, 30, true)).seen, Seen::Away);
    assert_eq!(
        Presence::of(&reply(true, 90, 30, false)).seen,
        Seen::Active,
        "three intervals exactly is not yet absent"
    );
    assert_eq!(Presence::of(&reply(true, 91, 30, false)).seen, Seen::Offline);
    assert_eq!(
        Presence::of(&reply(true, 91, 30, true)).seen,
        Seen::Offline,
        "away is not a way to stay present without beating"
    );
    let gone = Presence::of(&reply(true, 91, 30, false));
    assert_eq!(gone.last_seen, 10_000 - 91, "when they were last there is kept");
    let never = Presence::of(&Reply::not_found(10_000));
    assert_eq!(never.seen, Seen::Offline);
    assert_eq!(never.last_seen, 0);
    assert_eq!(never.read_at, 10_000);
}

#[test]
fn a_beat_from_the_future_is_fresh() {
    let r = Reply { found: true, last_seen: 20_000, interval_secs: 30, now: 10_000, away: false };
    assert_eq!(r.staleness(), 0);
    assert_eq!(Presence::of(&r).seen, Seen::Active);
    assert_eq!(reply(true, 91, 30, false).staleness(), 91);
}

#[test]
fn who_is_asked_about() {
    let got = wanted(Some(k(1)), &[k(2), k(3), k(1)], &[k(3), k(4)]);
    assert_eq!(got, vec![k(3), k(4), k(2)]);
    let many: Vec<Key> = (0..200).map(|i| [i as u8; 32]).collect();
    assert_eq!(wanted(None, &many, &[]).len(), MOST_READ);
}

#[test]
fn reads_are_spread_and_not_repeated_too_soon() {
    let now: u64 = 1_000_000;
    let all: Vec<Key> = (1..=6).map(k).collect();
    let asked = vec![(k(1), now - 5_000), (k(2), now - 100_000), (k(3), now - 40_000)];
    let got = due(&all, &asked, now);
    assert_eq!(got.len(), READS_PER_TICK);
    assert!(!got.contains(&k(1)), "asked five seconds ago");
    assert_eq!(&got[..3], &[k(4), k(5), k(6)], "never asked come first");
    assert_eq!(got[3], k(2), "then the longest ago");
    let none: Vec<Key> = Vec::new();
    assert!(due(&none, &asked, now).is_empty());
}

#[test]
fn the_interval_itself_is_long_enough() {
    let now: u64 = 100_000;
    let asked = vec![(k(1), now - 30_000), (k(2), now - 29_999)];
    assert_eq!(due(&[k(1), k(2)], &asked, now), vec![k(1)]);
}
