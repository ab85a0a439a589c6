//! Expiration metadata and the arithmetic that decides whether an entry's
//! time-to-live has elapsed.
//!
//! All instants are nanosecond readings of one clock, carried as plain
//! `u64` values; an `Expiry` records when an entry was created and how long
//! it is meant to live.
use vstd::prelude::*;

verus! {

/// Expiration metadata of one entry: the clock reading at creation and the
/// time-to-live granted then, both in nanoseconds.
#[derive(Clone, Copy, Debug, PartialEq, Eq, Structural)]
pub struct Expiry {
    pub created_at: u64,
    pub ttl: u64,
}

/// An entry is expired at `now` when it carries an `Expiry` whose
/// time-to-live has strictly elapsed. An entry without one never expires.
pub open spec fn expired_at(exp: Option<Expiry>, now: u64) -> bool {
    match exp {
        Option::None => false,
        Option::Some(e) => now - e.created_at > e.ttl,
    }
}

/// Nanoseconds elapsed since `e` was created, clamped below at zero for a
/// clock reading that precedes the creation.
pub open spec fn spec_elapsed(e: Expiry, now: u64) -> int {
    if now > e.created_at {
        now - e.created_at
    } else {
        0
    }
}

/// Time-to-live left at `now`: the granted span minus what has elapsed.
pub open spec fn spec_remaining(e: Expiry, now: u64) -> int {
    e.ttl - spec_elapsed(e, now)
}

/// The remaining span a read reports: nothing for an entry without a
/// deadline, the remaining nanoseconds otherwise.
pub open spec fn remaining_view(exp: Option<Expiry>, now: u64) -> Option<u64> {
    match exp {
        Option::None => Option::None,
        Option::Some(e) => Option::Some(spec_remaining(e, now) as u64),
    }
}

/// Decides expiration of `exp` at clock reading `now`.
pub fn is_expired(exp: &Option<Expiry>, now: u64) -> (r: bool)
    ensures
        r == expired_at(*exp, now),
{
    match exp {
        Option::None => false,
        Option::Some(e) => now > e.created_at && now - e.created_at > e.ttl,
    }
}

/// Remaining time-to-live of a not-yet-expired `e` at clock reading `now`.
pub fn remaining_nanos(e: &Expiry, now: u64) -> (r: u64)
    requires
        !expired_at(Option::Some(*e), now),
    ensures
        r == spec_remaining(*e, now),
{
    let elapsed: u64 = if now > e.created_at {
        now - e.created_at
    } else {
        0
    };
    e.ttl - elapsed
}

} // verus!
