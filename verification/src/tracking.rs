//! The rules by which a tracked aircraft is kept and an alert about it is
//! sent once.

use vstd::prelude::*;

verus! {

/// Seconds for which an aircraft stays tracked after it was last heard.
pub const TRACK_SECONDS: u64 = 60;

/// Whether an aircraft last heard at `last_seen` is still tracked at `now`,
/// both in seconds on one clock.
pub fn is_tracked(last_seen: u64, now: u64) -> (kept: bool)
    ensures
        kept == (last_seen + TRACK_SECONDS > now),
{
    match last_seen.checked_add(TRACK_SECONDS) {
        Some(limit) => limit > now,
        None => true,
    }
}

/// What one sighting of a tracked aircraft leads to: whether an alert goes
/// out now, and whether the aircraft counts as alerted from now on.
#[derive(Debug, Clone, Copy, PartialEq, Eq)]
pub struct Alert {
    pub send: bool,
    pub notified: bool,
}

/// Decides on one sighting.
///
/// `inside` says that the aircraft is within both limits, `outside` that it is
/// beyond one of them; a sighting whose numbers cannot be compared is
/// neither. An aircraft inside that has not been alerted yet is alerted, once.
/// One outside may be alerted again when it comes back. Any other sighting
/// changes nothing.
pub fn alert_step(inside: bool, outside: bool, notified: bool) -> (alert: Alert)
    ensures
        alert.send == (inside && !notified),
        alert.notified == if inside && !notified {
            true
        } else if outside {
            false
        } else {
            notified
        },
{
    if inside && !notified {
        Alert { send: true, notified: true }
    } else if outside {
        Alert { send: false, notified: false }
    } else {
        Alert { send: false, notified }
    }
}

} // verus!
