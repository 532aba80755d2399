//! When a session that died is started again.
//!
//! **A session that died is not a session.** It ends by failing, and is
//! started again -- no sooner than a wait after it was seen dead, so a
//! store that is locked for good does not become a restart every frame.
//! The wait doubles with each death in a row, from [`RETRY_MS`] up to
//! [`RETRY_MAX_MS`], and starts over once a session has stayed up. One
//! parked because the account lives elsewhere waits longer.
//!
//! Times in milliseconds, on the host's monotonic clock.

use vstd::prelude::*;

verus! {

/// The first wait: long enough that a store lock or a handshake has time to
/// come good, short enough that somebody watching does not conclude it is
/// broken.
pub const RETRY_MS: u64 = 3_000;

/// The longest wait for a session that keeps dying.
pub const RETRY_MAX_MS: u64 = 600_000;

/// Long enough to count as "it worked".
pub const STAYED_UP_MS: u64 = 60_000;

/// The wait for a session parked because the exchange said the account
/// lives elsewhere: an account can move back, but not in seconds.
pub const PARKED_RETRY_MS: u64 = 900_000;

/// Two to the `n`.
pub open spec fn doubled(n: nat) -> nat
    decreases n,
{
    if n == 0 {
        1
    } else {
        2 * doubled((n - 1) as nat)
    }
}

/// How long a session waits, dead, before it is started again: parked, the
/// long clock; else [`RETRY_MS`] doubled for each death in a row (no more
/// than sixteen times), and never more than [`RETRY_MAX_MS`].
pub open spec fn wait_of(parked: bool, failures: nat) -> nat {
    if parked {
        PARKED_RETRY_MS as nat
    } else {
        let n = if failures < 16 {
            failures
        } else {
            16
        };
        let w = (RETRY_MS as nat) * doubled(n);
        if w < RETRY_MAX_MS {
            w
        } else {
            RETRY_MAX_MS as nat
        }
    }
}

/// How long a session waits, dead, by [`wait_of`].
pub fn retry_wait(parked: bool, failures: u32) -> (w: u64)
    ensures
        w == wait_of(parked, failures as nat),
{
    if parked {
        return PARKED_RETRY_MS;
    }
    let n: u32 = if failures < 16 {
        failures
    } else {
        16
    };
    let mut p: u64 = 1;
    let mut i: u32 = 0;
    while i < n
        invariant
            i <= n <= 16,
            p == doubled(i as nat),
            p <= 65536,
        decreases n - i,
    {
        proof {
            lemma_doubled_bound(i as nat);
        }
        p = p * 2;
        i = i + 1;
    }
    let w = RETRY_MS * p;
    if w < RETRY_MAX_MS {
        w
    } else {
        RETRY_MAX_MS
    }
}

/// Two to anything below sixteen fits in what the wait is counted in.
proof fn lemma_doubled_bound(n: nat)
    requires
        n < 16,
    ensures
        doubled(n) <= 32768,
        doubled(n + 1) == 2 * doubled(n),
{
    assert(doubled(15) == 32768) by {
        reveal_with_fuel(doubled, 16);
    }
    lemma_doubled_mono(n, 15);
}

/// Doubling more times is more.
proof fn lemma_doubled_mono(n: nat, m: nat)
    requires
        n <= m,
    ensures
        doubled(n) <= doubled(m),
    decreases m,
{
    if n < m {
        lemma_doubled_mono(n, (m - 1) as nat);
        lemma_doubled_grows((m - 1) as nat);
    }
}

/// What becomes of a session seen dead at `died`, now: `None` while its
/// wait is not over; else it is started again, with the deaths in a row
/// counted anew -- nought when it had stayed up since `started` or was
/// parked, one more otherwise.
pub open spec fn restart_of(parked: bool, failures: nat, died: u64, now: u64, started: Option<u64>) -> Option<
    nat,
> {
    let since = if now >= died {
        (now - died) as nat
    } else {
        0
    };
    if since >= wait_of(parked, failures) {
        let stayed = match started {
            Some(s) => died >= s && died - s >= STAYED_UP_MS,
            None => false,
        };
        if stayed || parked {
            Some(0)
        } else {
            Some(failures + 1)
        }
    } else {
        None
    }
}

/// What becomes of a session seen dead at `died`, by [`restart_of`].
pub fn restart(parked: bool, failures: u32, died: u64, now: u64, started: Option<u64>) -> (r: Option<u32>)
    requires
        failures < u32::MAX,
    ensures
        match (r, restart_of(parked, failures as nat, died, now, started)) {
            (Some(a), Some(b)) => a == b,
            (None, None) => true,
            _ => false,
        },
{
    let since = if now >= died {
        now - died
    } else {
        0
    };
    if since < retry_wait(parked, failures) {
        return None;
    }
    let stayed = match started {
        Some(s) => died >= s && died - s >= STAYED_UP_MS,
        None => false,
    };
    if stayed || parked {
        Some(0)
    } else {
        Some(failures + 1)
    }
}

/// **The wait doubles, and stops doubling.** A session that keeps dying
/// waits [`RETRY_MS`] first, never less after another death, and never
/// more than [`RETRY_MAX_MS`]; a parked one waits the long clock.
pub proof fn law_backoff(n: nat)
    ensures
        wait_of(false, 0) == RETRY_MS,
        wait_of(false, n) <= wait_of(false, n + 1),
        wait_of(false, n) <= RETRY_MAX_MS,
        wait_of(true, n) == PARKED_RETRY_MS,
{
    if n < 16 {
        lemma_doubled_grows(n);
    }
}

/// Doubling once more is more.
proof fn lemma_doubled_grows(n: nat)
    ensures
        doubled(n) <= doubled(n + 1),
        doubled(n) >= 1,
    decreases n,
{
    if n > 0 {
        lemma_doubled_grows((n - 1) as nat);
    }
}

} // verus!
