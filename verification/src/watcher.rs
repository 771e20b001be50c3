//! Deciding when the board has changed.
//!
//! KiCad's IPC API has no events, so noticing that something moved means
//! asking. Whoever asks hands each reading of the board to a [`BoardWatcher`]
//! as a hash of the document, and the watcher decides whether that was a
//! change and how soon to look again. Only changes are reported, and several
//! collapse into one: what matters is that a rebuild is due, not how many
//! edits happened.

use vstd::prelude::*;

verus! {

/// How often the board is checked while nothing is happening, in milliseconds.
pub const POLL_INTERVAL_MS: u64 = 250;

/// How often it is checked just after a change, in milliseconds. Someone
/// editing makes several changes in a row, so the watcher leans in while the
/// user is working and settles back when they stop.
pub const ACTIVE_INTERVAL_MS: u64 = 60;

/// How long a change keeps the watcher leaning in, in milliseconds.
pub const ACTIVE_FOR_MS: u64 = 3000;

/// Where the watcher reads the board from.
#[derive(Debug, Clone, PartialEq, Eq)]
pub enum WatchSource {
    /// A running KiCad, over its own IPC connection.
    LiveKiCad,
    /// A saved board file.
    File(String),
}

/// What the watcher remembers between two readings of the board.
#[derive(Debug, Clone, Copy, PartialEq, Eq, Structural)]
pub struct BoardWatcher {
    /// Hash of the last reading, once there has been one.
    pub last: Option<u64>,
    /// When the last change was seen, in milliseconds on the caller's clock.
    pub last_change: Option<u64>,
    /// A change has been seen and not yet taken.
    pub pending: bool,
}

impl BoardWatcher {
    /// Whether a reading with hash `hash` is a change: there was an earlier
    /// reading and its hash differs.
    pub open spec fn is_change(self, hash: u64) -> bool {
        self.last matches Some(previous) && previous != hash
    }

    /// The watcher after a reading with hash `hash` at time `now`.
    pub open spec fn after_reading(self, hash: u64, now: u64) -> BoardWatcher {
        if self.is_change(hash) {
            BoardWatcher { last: Some(hash), last_change: Some(now), pending: true }
        } else {
            BoardWatcher { last: Some(hash), ..self }
        }
    }

    /// The watcher after its pending change, if any, was taken.
    pub open spec fn after_take(self) -> BoardWatcher {
        BoardWatcher { pending: false, ..self }
    }

    /// Milliseconds to wait before the next reading at time `now`: the short
    /// interval while the last change is recent, the long one otherwise.
    pub open spec fn poll_delay(self, now: u64) -> u64 {
        match self.last_change {
            Some(at) => if (if now >= at {
                now - at
            } else {
                0
            }) < 3000 {
                60
            } else {
                250
            },
            None => 250,
        }
    }

    /// A watcher that has not read the board yet.
    pub fn new() -> (r: Self)
        ensures
            r == (BoardWatcher { last: None, last_change: None, pending: false }),
    {
        BoardWatcher { last: None, last_change: None, pending: false }
    }

    /// Records one reading of the board, by the hash of its text, at time
    /// `now` in milliseconds; true when it is a change.
    pub fn observe(&mut self, hash: u64, now: u64) -> (changed: bool)
        ensures
            changed == old(self).is_change(hash),
            *final(self) == old(self).after_reading(hash, now),
    {
        let changed = match self.last {
            Some(previous) => previous != hash,
            None => false,
        };
        self.last = Some(hash);
        if changed {
            self.last_change = Some(now);
            self.pending = true;
        }
        changed
    }

    /// True when the board has changed since the last call.
    pub fn take_change(&mut self) -> (r: bool)
        ensures
            r == old(self).pending,
            *final(self) == old(self).after_take(),
    {
        let changed = self.pending;
        self.pending = false;
        changed
    }

    /// How long to wait before reading the board again.
    pub fn next_poll_ms(&self, now: u64) -> (r: u64)
        ensures
            r == self.poll_delay(now),
    {
        match self.last_change {
            Some(at) => {
                let elapsed = if now >= at {
                    now - at
                } else {
                    0
                };
                if elapsed < ACTIVE_FOR_MS {
                    ACTIVE_INTERVAL_MS
                } else {
                    POLL_INTERVAL_MS
                }
            },
            None => POLL_INTERVAL_MS,
        }
    }
}

/// The first reading of a board is never a change, and reading the same
/// board again is not one either.
pub proof fn lemma_only_differences_are_changes(w: BoardWatcher, hash: u64, now: u64)
    ensures
        w.last is None ==> !w.is_change(hash),
        !w.after_reading(hash, now).is_change(hash),
{
}

/// Changes collapse: however many readings changed, taking the change reports
/// it once, and taking again reports nothing until another change is seen.
pub proof fn lemma_changes_collapse(w: BoardWatcher, first: u64, second: u64, now: u64)
    requires
        w.is_change(first),
    ensures
        w.after_reading(first, now).after_reading(second, now).pending,
        !w.after_reading(first, now).after_reading(second, now).after_take().pending,
        !w.after_reading(first, now).after_reading(second, now).after_take().after_reading(
            second,
            now,
        ).pending,
{
}

/// Right after a change the watcher leans in; with no change it never does.
pub proof fn lemma_leans_in_after_a_change(w: BoardWatcher, hash: u64, now: u64)
    ensures
        w.is_change(hash) ==> w.after_reading(hash, now).poll_delay(now) == 60,
        w.last_change is None && !w.is_change(hash) ==> w.after_reading(hash, now).poll_delay(now)
            == 250,
{
}

/// The watcher after the readings `readings`, each a hash and the time it
/// was taken, in order.
pub open spec fn after_readings(w: BoardWatcher, readings: Seq<(u64, u64)>) -> BoardWatcher
    decreases readings.len(),
{
    if readings.len() == 0 {
        w
    } else {
        after_readings(w, readings.drop_last()).after_reading(readings.last().0, readings.last().1)
    }
}

proof fn lemma_last_reading(w: BoardWatcher, readings: Seq<(u64, u64)>)
    ensures
        after_readings(w, readings).last == if readings.len() == 0 {
            w.last
        } else {
            Some(readings.last().0)
        },
    decreases readings.len(),
{
    if readings.len() > 0 {
        lemma_last_reading(w, readings.drop_last());
    }
}

/// Over a whole run of readings from a fresh watcher, exactly the readings
/// whose hash differs from the reading before are changes: none for the first
/// reading, none when the board reads the same twice in a row.
pub proof fn lemma_changes_over_a_run(readings: Seq<(u64, u64)>)
    ensures
        forall|i: int|
            0 <= i < readings.len() ==> (after_readings(
                BoardWatcher { last: None, last_change: None, pending: false },
                readings.take(i),
            ).is_change(#[trigger] readings[i].0) <==> (i > 0 && readings[i].0 != readings[i
                - 1].0)),
{
    let fresh = BoardWatcher { last: None, last_change: None, pending: false };
    assert forall|i: int| 0 <= i < readings.len() implies (after_readings(
        fresh,
        readings.take(i),
    ).is_change(#[trigger] readings[i].0) <==> (i > 0 && readings[i].0 != readings[i - 1].0)) by {
        lemma_last_reading(fresh, readings.take(i));
        if i > 0 {
            assert(readings.take(i).last() == readings[i - 1]);
        }
    }
}

/// The watcher after the readings `readings`, each followed by taking the
/// change, as a polling loop does.
pub open spec fn after_readings_taken(w: BoardWatcher, readings: Seq<(u64, u64)>) -> BoardWatcher
    decreases readings.len(),
{
    if readings.len() == 0 {
        w
    } else {
        after_readings_taken(w, readings.drop_last()).after_reading(
            readings.last().0,
            readings.last().1,
        ).after_take()
    }
}

proof fn lemma_last_reading_taken(w: BoardWatcher, readings: Seq<(u64, u64)>)
    ensures
        after_readings_taken(w, readings).last == if readings.len() == 0 {
            w.last
        } else {
            Some(readings.last().0)
        },
        readings.len() > 0 ==> !after_readings_taken(w, readings).pending,
    decreases readings.len(),
{
    if readings.len() > 0 {
        lemma_last_reading_taken(w, readings.drop_last());
    }
}

/// When each reading of a fresh watcher is followed by taking the change, the
/// take after a reading reports a change exactly when that reading's hash
/// differs from the one before: one report for each change, none for the
/// first reading, none when the board reads the same twice in a row.
pub proof fn lemma_each_change_is_reported_once(readings: Seq<(u64, u64)>)
    ensures
        forall|i: int|
            0 <= i < readings.len() ==> (after_readings_taken(
                BoardWatcher { last: None, last_change: None, pending: false },
                readings.take(i),
            ).after_reading(#[trigger] readings[i].0, readings[i].1).pending <==> (i > 0
                && readings[i].0 != readings[i - 1].0)),
{
    let fresh = BoardWatcher { last: None, last_change: None, pending: false };
    assert forall|i: int| 0 <= i < readings.len() implies (after_readings_taken(
        fresh,
        readings.take(i),
    ).after_reading(#[trigger] readings[i].0, readings[i].1).pending <==> (i > 0 && readings[i].0
        != readings[i - 1].0)) by {
        lemma_last_reading_taken(fresh, readings.take(i));
        if i > 0 {
            assert(readings.take(i).last() == readings[i - 1]);
        }
    }
}

} // verus!
