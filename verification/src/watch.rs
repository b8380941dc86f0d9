//! Decisions of the folder watcher: which file-system notifications become
//! catalog events, and the debounce that holds each path's latest event until
//! the path has been quiet for a while.

use vstd::prelude::*;
use crate::events::FileEvent;
use crate::paths::is_supported_extension;
use crate::text::{lowercase, str_eq, to_lowercase, trim_start_char};

verus! {

/// How long a path must be quiet before its event is dispatched.
pub const DEBOUNCE_MS: u64 = 250;

/// How long the flusher sleeps when nothing is pending.
pub const IDLE_WAIT_MS: u64 = 60000;

/// What a notification reports, as far as the watcher tells kinds apart.
#[derive(Debug, Clone, Copy, PartialEq, Eq, Structural)]
pub enum WatchKind {
    /// A file (or an unspecified entry) was created.
    Created,
    /// A file (or an unspecified entry) was removed.
    Removed,
    /// A rename reported with both the old and the new path.
    RenamedBoth,
    /// Any other modification, renames reported by one path included.
    Modified,
    /// Folders, access and everything else.
    Ignored,
}

/// The catalog event of a notification. `ext` is the extension of the first
/// path (`None` when it has none), `first` and `second` the key forms of the
/// first two paths (`None` when missing or not valid text).
pub open spec fn classified(
    kind: WatchKind,
    ext: Option<Seq<char>>,
    first: Option<Seq<char>>,
    second: Option<Seq<char>>,
) -> Option<(int, Seq<char>, Seq<char>)> {
    let e = match ext {
        Some(x) => lowercase(x),
        None => Seq::empty(),
    };
    match first {
        None => None,
        Some(p) => if !crate::paths::supported_extension_names().contains(
            lowercase(trim_start_char(e, '.')),
        ) {
            None
        } else {
            match kind {
                WatchKind::Created => Some((0, p, Seq::empty())),
                WatchKind::Removed => Some((1, p, Seq::empty())),
                WatchKind::RenamedBoth => match second {
                    Some(q) => Some((2, p, q)),
                    None => None,
                },
                WatchKind::Modified => Some((3, p, Seq::empty())),
                WatchKind::Ignored => None,
            }
        },
    }
}

/// The shape of a file event: created 0, deleted 1, renamed 2 (old and new
/// path), modified 3; `None` for progress and folder notices.
pub open spec fn event_shape(e: FileEvent) -> Option<(int, Seq<char>, Seq<char>)> {
    match e {
        FileEvent::Created(p) => Some((0, p@, Seq::empty())),
        FileEvent::Deleted(p) => Some((1, p@, Seq::empty())),
        FileEvent::Renamed { old_path, new_path } => Some((2, old_path@, new_path@)),
        FileEvent::Modified(p) => Some((3, p@, Seq::empty())),
        _ => None,
    }
}

/// The catalog event of a notification: only files with a supported
/// extension count; creations, removals, two-path renames and other
/// modifications map to their events, everything else is dropped.
pub fn classify_event(
    kind: WatchKind,
    ext: Option<String>,
    first: Option<String>,
    second: Option<String>,
) -> (r: Option<FileEvent>)
    ensures
        match r {
            Some(e) => event_shape(e) is Some && event_shape(e) == classified(
                kind,
                crate::paths::opt_text(ext),
                crate::paths::opt_text(first),
                crate::paths::opt_text(second),
            ),
            None => classified(
                kind,
                crate::paths::opt_text(ext),
                crate::paths::opt_text(first),
                crate::paths::opt_text(second),
            ) is None,
        },
        r is Some ==> kind != WatchKind::Ignored && first is Some,
        r is Some && kind == WatchKind::Created ==> (r->0 matches FileEvent::Created(p) && p@
            == first->0@),
        r is Some && kind == WatchKind::Removed ==> (r->0 matches FileEvent::Deleted(p) && p@
            == first->0@),
        r is Some && kind == WatchKind::Modified ==> (r->0 matches FileEvent::Modified(p) && p@
            == first->0@),
        r is Some && kind == WatchKind::RenamedBoth ==> (r->0 matches FileEvent::Renamed {
            old_path,
            new_path,
        } && old_path@ == first->0@ && second is Some && new_path@ == second->0@),
{
    let p = match first {
        Some(p) => p,
        None => return None,
    };
    let e = match &ext {
        Some(x) => to_lowercase(x.as_str()),
        None => {
            let s = String::from_str("");
            proof {
                reveal_strlit("");
                assert(s@ =~= Seq::<char>::empty());
            }
            s
        },
    };
    if !is_supported_extension(e.as_str()) {
        return None;
    }
    match kind {
        WatchKind::Created => Some(FileEvent::Created(p)),
        WatchKind::Removed => Some(FileEvent::Deleted(p)),
        WatchKind::RenamedBoth => match second {
            Some(q) => Some(FileEvent::Renamed { old_path: p, new_path: q }),
            None => None,
        },
        WatchKind::Modified => Some(FileEvent::Modified(p)),
        WatchKind::Ignored => None,
    }
}

/// An event waiting out the debounce, under the path it concerns.
pub struct PendingEvent {
    pub key: String,
    pub event: FileEvent,
    pub at_ms: u64,
}

/// The path an event is debounced under: the path it concerns, the new path
/// of a rename; `None` for progress and folder notices.
pub open spec fn debounce_key(e: FileEvent) -> Option<Seq<char>> {
    match e {
        FileEvent::Created(p) => Some(p@),
        FileEvent::Deleted(p) => Some(p@),
        FileEvent::Modified(p) => Some(p@),
        FileEvent::Renamed { new_path, .. } => Some(new_path@),
        _ => None,
    }
}

/// The entries whose key is not `k`, in order.
pub open spec fn without_key(es: Seq<PendingEvent>, k: Seq<char>) -> Seq<PendingEvent>
    decreases es.len(),
{
    if es.len() == 0 {
        es
    } else {
        let r = without_key(es.drop_last(), k);
        if es.last().key@ == k {
            r
        } else {
            r.push(es.last())
        }
    }
}

/// Whether an entry has been quiet for the debounce time at `now`.
pub open spec fn is_ready(e: PendingEvent, now: u64) -> bool {
    now >= e.at_ms && now - e.at_ms >= DEBOUNCE_MS
}

/// The events of the ready entries, in order.
pub open spec fn ready_events(es: Seq<PendingEvent>, now: u64) -> Seq<FileEvent>
    decreases es.len(),
{
    if es.len() == 0 {
        Seq::empty()
    } else {
        let r = ready_events(es.drop_last(), now);
        if is_ready(es.last(), now) {
            r.push(es.last().event)
        } else {
            r
        }
    }
}

/// The entries that are not ready yet, in order.
pub open spec fn still_waiting(es: Seq<PendingEvent>, now: u64) -> Seq<PendingEvent>
    decreases es.len(),
{
    if es.len() == 0 {
        es
    } else {
        let r = still_waiting(es.drop_last(), now);
        if is_ready(es.last(), now) {
            r
        } else {
            r.push(es.last())
        }
    }
}

/// Time an entry still has to wait at `now` (its whole debounce when its
/// stamp lies ahead).
pub open spec fn remaining_ms(e: PendingEvent, now: u64) -> int {
    if now >= e.at_ms {
        if now - e.at_ms >= DEBOUNCE_MS {
            0
        } else {
            DEBOUNCE_MS - (now - e.at_ms)
        }
    } else {
        DEBOUNCE_MS as int
    }
}

/// The least remaining time over the entries; the idle wait when none.
pub open spec fn least_wait(es: Seq<PendingEvent>, now: u64) -> int
    decreases es.len(),
{
    if es.len() == 0 {
        IDLE_WAIT_MS as int
    } else {
        let r = least_wait(es.drop_last(), now);
        let m = remaining_ms(es.last(), now);
        if es.len() == 1 || m < r {
            m
        } else {
            r
        }
    }
}

/// The events waiting out the debounce, at most one per path.
pub struct Debouncer {
    pub entries: Vec<PendingEvent>,
}

impl Debouncer {
    /// Nothing pending.
    pub fn new() -> (d: Debouncer)
        ensures
            d.entries@.len() == 0,
    {
        Debouncer { entries: Vec::new() }
    }

    /// Holds `ev` under its path at time `now_ms`, replacing the event that
    /// path had pending; progress and folder notices are not held (`false`).
    pub fn insert(&mut self, ev: FileEvent, now_ms: u64) -> (held: bool)
        ensures
            held == (debounce_key(ev) is Some),
            !held ==> final(self).entries@ == old(self).entries@,
            held ==> {
                &&& final(self).entries@.len() > 0
                &&& final(self).entries@.drop_last() == without_key(
                    old(self).entries@,
                    debounce_key(ev)->0,
                )
                &&& final(self).entries@.last().key@ == debounce_key(ev)->0
                &&& final(self).entries@.last().event == ev
                &&& final(self).entries@.last().at_ms == now_ms
            },
    {
        let key = match &ev {
            FileEvent::Created(p) => p.clone(),
            FileEvent::Deleted(p) => p.clone(),
            FileEvent::Modified(p) => p.clone(),
            FileEvent::Renamed { new_path, .. } => new_path.clone(),
            _ => {
                return false;
            },
        };
        let ghost orig = self.entries@;
        let mut rest: Vec<PendingEvent> = Vec::new();
        std::mem::swap(&mut rest, &mut self.entries);
        let ghost mut k: int = 0;
        while rest.len() > 0
            invariant
                0 <= k <= orig.len(),
                rest@ == orig.skip(k),
                self.entries@ == without_key(orig.take(k), key@),
            decreases rest@.len(),
        {
            let e = rest.remove(0);
            proof {
                assert(orig.take(k + 1).drop_last() =~= orig.take(k));
                assert(orig.take(k + 1).last() == e);
                assert(rest@ =~= orig.skip(k + 1));
                k = k + 1;
            }
            if !str_eq(e.key.as_str(), key.as_str()) {
                self.entries.push(e);
            }
        }
        proof {
            assert(orig.take(k) =~= orig);
        }
        self.entries.push(PendingEvent { key, event: ev, at_ms: now_ms });
        true
    }

    /// How long to wait at `now_ms` before the next event can be ready: the
    /// least remaining debounce time, or the idle wait when nothing pends.
    pub fn wait_ms(&self, now_ms: u64) -> (w: u64)
        ensures
            w == least_wait(self.entries@, now_ms),
    {
        let mut best: u64 = IDLE_WAIT_MS;
        let mut k: usize = 0;
        while k < self.entries.len()
            invariant
                k <= self.entries@.len(),
                best == least_wait(self.entries@.take(k as int), now_ms),
            decreases self.entries@.len() - k,
        {
            let e = &self.entries[k];
            let m: u64 = if now_ms >= e.at_ms {
                let age = now_ms - e.at_ms;
                if age >= DEBOUNCE_MS {
                    0
                } else {
                    DEBOUNCE_MS - age
                }
            } else {
                DEBOUNCE_MS
            };
            proof {
                assert(self.entries@.take(k + 1).drop_last() =~= self.entries@.take(k as int));
                assert(self.entries@.take(k + 1).last() == self.entries@[k as int]);
            }
            if k == 0 || m < best {
                best = m;
            }
            k = k + 1;
        }
        proof {
            assert(self.entries@.take(self.entries@.len() as int) =~= self.entries@);
        }
        best
    }

    /// Removes and returns, in order, the events that have been quiet for the
    /// debounce time at `now_ms`; the others keep waiting.
    pub fn take_ready(&mut self, now_ms: u64) -> (out: Vec<FileEvent>)
        ensures
            out@ == ready_events(old(self).entries@, now_ms),
            final(self).entries@ == still_waiting(old(self).entries@, now_ms),
    {
        let ghost orig = self.entries@;
        let mut rest: Vec<PendingEvent> = Vec::new();
        std::mem::swap(&mut rest, &mut self.entries);
        let mut out: Vec<FileEvent> = Vec::new();
        let ghost mut k: int = 0;
        while rest.len() > 0
            invariant
                0 <= k <= orig.len(),
                rest@ == orig.skip(k),
                self.entries@ == still_waiting(orig.take(k), now_ms),
                out@ == ready_events(orig.take(k), now_ms),
            decreases rest@.len(),
        {
            let e = rest.remove(0);
            proof {
                assert(orig.take(k + 1).drop_last() =~= orig.take(k));
                assert(orig.take(k + 1).last() == e);
                assert(rest@ =~= orig.skip(k + 1));
                k = k + 1;
            }
            if now_ms >= e.at_ms && now_ms - e.at_ms >= DEBOUNCE_MS {
                out.push(e.event);
            } else {
                self.entries.push(e);
            }
        }
        proof {
            assert(orig.take(k) =~= orig);
        }
        out
    }
}


/// No two pending entries share a path.
pub open spec fn one_per_path(es: Seq<PendingEvent>) -> bool {
    forall|i: int, j: int| 0 <= i < j < es.len() ==> (#[trigger] es[i]).key@ != (#[trigger] es[j]).key@
}

proof fn lemma_without_key_facts(es: Seq<PendingEvent>, k: Seq<char>)
    ensures
        forall|i: int| 0 <= i < without_key(es, k).len() ==> (#[trigger] without_key(es, k)[i]).key@ != k,
        forall|i: int| 0 <= i < without_key(es, k).len() ==> es.contains(#[trigger] without_key(es, k)[i]),
        one_per_path(es) ==> one_per_path(without_key(es, k)),
    decreases es.len(),
{
    if es.len() > 0 {
        let d = es.drop_last();
        lemma_without_key_facts(d, k);
        let r = without_key(d, k);
        assert forall|i: int| 0 <= i < r.len() implies es.contains(#[trigger] r[i]) by {
            let j = choose|j: int| 0 <= j < d.len() && d[j] == r[i];
            assert(es[j] == d[j]);
        }
        if one_per_path(es) {
            assert(one_per_path(d)) by {
                assert forall|i: int, j: int| 0 <= i < j < d.len() implies (#[trigger] d[i]).key@
                    != (#[trigger] d[j]).key@ by {
                    assert(d[i] == es[i] && d[j] == es[j]);
                }
            }
            if es.last().key@ != k {
                let t = r.push(es.last());
                assert forall|i: int, j: int| 0 <= i < j < t.len() implies (#[trigger] t[i]).key@
                    != (#[trigger] t[j]).key@ by {
                    if j == t.len() - 1 {
                        assert(t[i] == r[i]);
                        assert(d.contains(r[i]));
                        let m = choose|m: int| 0 <= m < d.len() && d[m] == r[i];
                        assert(es[m] == d[m]);
                        assert(es[es.len() - 1] == es.last());
                    } else {
                        assert(t[i] == r[i] && t[j] == r[j]);
                    }
                }
            }
        }
    }
}

proof fn lemma_still_waiting_facts(es: Seq<PendingEvent>, now: u64)
    ensures
        forall|i: int| 0 <= i < still_waiting(es, now).len() ==> es.contains(
            #[trigger] still_waiting(es, now)[i],
        ),
        one_per_path(es) ==> one_per_path(still_waiting(es, now)),
    decreases es.len(),
{
    if es.len() > 0 {
        let d = es.drop_last();
        lemma_still_waiting_facts(d, now);
        let r = still_waiting(d, now);
        assert forall|i: int| 0 <= i < r.len() implies es.contains(#[trigger] r[i]) by {
            let j = choose|j: int| 0 <= j < d.len() && d[j] == r[i];
            assert(es[j] == d[j]);
        }
        if one_per_path(es) {
            assert(one_per_path(d)) by {
                assert forall|i: int, j: int| 0 <= i < j < d.len() implies (#[trigger] d[i]).key@
                    != (#[trigger] d[j]).key@ by {
                    assert(d[i] == es[i] && d[j] == es[j]);
                }
            }
            if !is_ready(es.last(), now) {
                let t = r.push(es.last());
                assert forall|i: int, j: int| 0 <= i < j < t.len() implies (#[trigger] t[i]).key@
                    != (#[trigger] t[j]).key@ by {
                    if j == t.len() - 1 {
                        assert(t[i] == r[i]);
                        let m = choose|m: int| 0 <= m < d.len() && d[m] == r[i];
                        assert(es[m] == d[m]);
                        assert(es[es.len() - 1] == es.last());
                    } else {
                        assert(t[i] == r[i] && t[j] == r[j]);
                    }
                }
            }
        }
    }
}

/// Debouncing keeps at most one pending event per path: holding a new event
/// drops the path's earlier one, and taking the ready events leaves the
/// others as they were.
pub proof fn lemma_one_event_per_path(es: Seq<PendingEvent>, e: PendingEvent, now: u64)
    requires
        one_per_path(es),
    ensures
        one_per_path(without_key(es, e.key@).push(e)),
        one_per_path(still_waiting(es, now)),
{
    lemma_without_key_facts(es, e.key@);
    lemma_still_waiting_facts(es, now);
    let r = without_key(es, e.key@);
    let t = r.push(e);
    assert forall|i: int, j: int| 0 <= i < j < t.len() implies (#[trigger] t[i]).key@
        != (#[trigger] t[j]).key@ by {
        if j == t.len() - 1 {
            assert(t[i] == r[i]);
        } else {
            assert(t[i] == r[i] && t[j] == r[j]);
        }
    }
}


/// A flush releases exactly the events that have been quiet for 250 ms: the
/// released and the still-waiting entries together are all the entries, each
/// released event belongs to an entry stamped at least 250 ms before `now`,
/// and every entry left waiting was stamped less than 250 ms before `now`
/// (or after it).
pub proof fn lemma_flush_waits_out_the_quiet_time(es: Seq<PendingEvent>, now: u64)
    ensures
        ready_events(es, now).len() + still_waiting(es, now).len() == es.len(),
        forall|k: int|
            0 <= k < ready_events(es, now).len() ==> exists|i: int|
                0 <= i < es.len() && es[i].event == #[trigger] ready_events(es, now)[k] && now
                    >= es[i].at_ms + 250,
        forall|k: int|
            0 <= k < still_waiting(es, now).len() ==> {
                let e = #[trigger] still_waiting(es, now)[k];
                &&& es.contains(e)
                &&& !(now >= e.at_ms + 250)
            },
    decreases es.len(),
{
    if es.len() > 0 {
        let d = es.drop_last();
        lemma_flush_waits_out_the_quiet_time(d, now);
        let x = es.last();
        let r = ready_events(es, now);
        let r0 = ready_events(d, now);
        let w = still_waiting(es, now);
        let w0 = still_waiting(d, now);
        assert forall|k: int| 0 <= k < r.len() implies exists|i: int|
            0 <= i < es.len() && es[i].event == #[trigger] r[k] && now >= es[i].at_ms + 250 by {
            if k < r0.len() {
                assert(r[k] == r0[k]);
                let i = choose|i: int| 0 <= i < d.len() && d[i].event == r0[k] && now >= d[i].at_ms + 250;
                assert(es[i] == d[i]);
            } else {
                assert(es[es.len() - 1] == x);
            }
        }
        assert forall|k: int| 0 <= k < w.len() implies {
            let e = #[trigger] w[k];
            &&& es.contains(e)
            &&& !(now >= e.at_ms + 250)
        } by {
            if k < w0.len() {
                assert(w[k] == w0[k]);
                let e = w0[k];
                assert(d.contains(e));
                let i = choose|i: int| 0 <= i < d.len() && d[i] == e;
                assert(es[i] == d[i]);
            } else {
                assert(w[k] == x);
                assert(es[es.len() - 1] == x);
            }
        }
    }
}

} // verus!
