use sigil_chat::retry::{restart, retry_wait, PARKED_RETRY_MS, RETRY_MAX_MS, RETRY_MS};

#[test]
fn the_wait_doubles_and_stops_at_the_most() {
    assert_eq!(retry_wait(false, 0), RETRY_MS);
    assert_eq!(retry_wait(false, 1), 6_000);
    assert_eq!(retry_wait(false, 7), 384_000);
    assert_eq!(retry_wait(false, 8), RETRY_MAX_MS);
    assert_eq!(retry_wait(false, 4_000_000_000), RETRY_MAX_MS);
    assert_eq!(retry_wait(true, 3), PARKED_RETRY_MS);
}

#[test]
fn a_session_that_stayed_up_starts_its_retries_over() {
    assert_eq!(restart(false, 2, 100_000, 110_000, None), None, "twelve seconds is not yet enough");
    assert_eq!(restart(false, 2, 100_000, 112_000, None), Some(3));
    assert_eq!(restart(false, 2, 100_000, 112_000, Some(40_000)), Some(0), "up for a minute");
    assert_eq!(restart(false, 2, 100_000, 112_000, Some(50_000)), Some(3));
    assert_eq!(restart(true, 2, 0, PARKED_RETRY_MS, None), Some(0));
    assert_eq!(restart(true, 2, 0, PARKED_RETRY_MS - 1, None), None);
}
