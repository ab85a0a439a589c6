//! The store's laws: facts that relate several operations, stated over the
//! same map model the operations' contracts use and proved once for all
//! keys, values and clock readings.
use crate::store::{insert_one, live, updated_expiry};
use crate::ttl::{expired_at, remaining_view, spec_remaining, Expiry};
use vstd::prelude::*;

verus! {

/// Round trip: inserting a value under an absent key with no time-to-live
/// leaves the key visible at every later reading, bound to that value with
/// no deadline — a lookup then yields the value and no remaining span.
pub proof fn lemma_insert_then_get<T>(
    m: Map<Seq<char>, (T, Option<Expiry>)>,
    k: Seq<char>,
    v: T,
    now: u64,
    later: u64,
)
    requires
        !m.contains_key(k),
    ensures
        ({
            let m2 = insert_one(m, k, v, Option::None, now);
            &&& m2.contains_key(k)
            &&& m2[k].0 == v
            &&& m2[k].1 is None
            &&& !expired_at(m2[k].1, later)
            &&& remaining_view(m2[k].1, later) is None
        }),
{
}

/// Updating preserves the value, not the time-to-live clock: re-inserting
/// under a key that is already present replaces the value and leaves the
/// expiration fixed by the first insert — the original countdown still
/// governs when the entry expires, whatever time-to-live the update named.
pub proof fn lemma_update_keeps_ttl_clock<T>(
    m: Map<Seq<char>, (T, Option<Expiry>)>,
    k: Seq<char>,
    v1: T,
    v2: T,
    t: u64,
    ttl2: Option<u64>,
    now1: u64,
    now2: u64,
    probe: u64,
)
    requires
        !m.contains_key(k),
    ensures
        ({
            let m2 = insert_one(
                insert_one(m, k, v1, Option::Some(t), now1),
                k,
                v2,
                ttl2,
                now2,
            );
            &&& m2.contains_key(k)
            &&& m2[k].0 == v2
            &&& m2[k].1 == Option::Some(Expiry { created_at: now1, ttl: t })
            &&& (expired_at(m2[k].1, probe) <==> probe - now1 > t)
            &&& (now1 <= probe && probe - now1 <= t) ==> remaining_view(m2[k].1, probe)
                == Option::Some((t - (probe - now1)) as u64)
        }),
{
}

/// Inserting under one key leaves every other key untouched: present keys
/// stay present with the same value and expiration, absent keys stay
/// absent. Collisions — distinct keys routed to one bucket — cannot leak
/// into the model.
pub proof fn lemma_insert_preserves_others<T>(
    m: Map<Seq<char>, (T, Option<Expiry>)>,
    k: Seq<char>,
    other: Seq<char>,
    v: T,
    ttl: Option<u64>,
    now: u64,
)
    requires
        k != other,
    ensures
        insert_one(m, k, v, ttl, now).contains_key(other) == m.contains_key(other),
        m.contains_key(other) ==> insert_one(m, k, v, ttl, now)[other] == m[other],
{
}

/// Soft against hard expiration: once the time-to-live of a fresh insert
/// has elapsed, the entry reads as expired — a lookup yields nothing — yet
/// it is still resident, until a sweep at such a reading drops it and
/// leaves the rest of the map as a sweep of the map without it would.
pub proof fn lemma_soft_then_hard<T>(
    m: Map<Seq<char>, (T, Option<Expiry>)>,
    k: Seq<char>,
    v: T,
    t: u64,
    now: u64,
    probe: u64,
)
    requires
        !m.contains_key(k),
        probe - now > t,
    ensures
        ({
            let m2 = insert_one(m, k, v, Option::Some(t), now);
            &&& expired_at(m2[k].1, probe)
            &&& m2.contains_key(k)
            &&& !live(m2, probe).contains_key(k)
            &&& live(m2, probe) == live(m, probe)
        }),
{
    let m2 = insert_one(m, k, v, Option::Some(t), now);
    assert(live(m2, probe) =~= live(m, probe));
}

/// Within its time-to-live a fresh insert is visible, and the remaining
/// span a lookup reports counts down from the granted time-to-live by
/// exactly the time elapsed since the insert.
pub proof fn lemma_visible_until_deadline<T>(
    m: Map<Seq<char>, (T, Option<Expiry>)>,
    k: Seq<char>,
    v: T,
    t: u64,
    now: u64,
    probe: u64,
)
    requires
        !m.contains_key(k),
        now <= probe,
        probe - now <= t,
    ensures
        ({
            let m2 = insert_one(m, k, v, Option::Some(t), now);
            &&& m2.contains_key(k)
            &&& !expired_at(m2[k].1, probe)
            &&& remaining_view(m2[k].1, probe) == Option::Some((t - (probe - now)) as u64)
            &&& live(m2, probe).contains_key(k)
        }),
{
    let m2 = insert_one(m, k, v, Option::Some(t), now);
    let e = Expiry { created_at: now, ttl: t };
    assert(spec_remaining(e, probe) == t - (probe - now));
}

/// Two inserts under distinct keys commute: whichever order the lock
/// grants the two callers, the resulting map is the same, and it holds
/// both keys with their own values and expirations.
pub proof fn lemma_distinct_inserts_commute<T>(
    m: Map<Seq<char>, (T, Option<Expiry>)>,
    k1: Seq<char>,
    k2: Seq<char>,
    v1: T,
    v2: T,
    ttl1: Option<u64>,
    ttl2: Option<u64>,
    now1: u64,
    now2: u64,
)
    requires
        k1 != k2,
    ensures
        ({
            let first = insert_one(insert_one(m, k1, v1, ttl1, now1), k2, v2, ttl2, now2);
            let second = insert_one(insert_one(m, k2, v2, ttl2, now2), k1, v1, ttl1, now1);
            &&& first == second
            &&& first.contains_key(k1)
            &&& first.contains_key(k2)
            &&& first[k1] == (v1, updated_expiry(m, k1, ttl1, now1))
            &&& first[k2] == (v2, updated_expiry(m, k2, ttl2, now2))
        }),
{
    let first = insert_one(insert_one(m, k1, v1, ttl1, now1), k2, v2, ttl2, now2);
    let second = insert_one(insert_one(m, k2, v2, ttl2, now2), k1, v1, ttl1, now1);
    assert(first =~= second);
}

} // verus!
