use vstd::prelude::*;

use crate::fingerprint::Fingerprint;
use crate::fingerprint::fingerprint_of;

verus! {

/// Mathematical state of a change tracker.
pub ghost enum TrackerV {
    /// The content has settled; `hash` fingerprints the last known-settled content.
    Quiescent { hash: Seq<u8> },
    /// The content changed since it last settled; `last_updated` is the time of the
    /// most recent observed change, `last_hash` fingerprints the latest content.
    Vivacious { last_updated: u64, last_hash: Seq<u8> },
}

/// The state a tracker starts in when no prior snapshot exists: the pad counts
/// as just changed, so it can settle and be reported once stable.
pub open spec fn spec_from_new(content: Seq<char>, now: u64) -> TrackerV {
    TrackerV::Vivacious { last_updated: now, last_hash: fingerprint_of(content) }
}

/// The state a tracker starts in when a prior snapshot exists: quiescent if the
/// current content fingerprints like the prior one, vivacious otherwise.
pub open spec fn spec_from_existing(orig: Seq<char>, last: Seq<char>, now: u64) -> TrackerV {
    if fingerprint_of(orig) == fingerprint_of(last) {
        TrackerV::Quiescent { hash: fingerprint_of(orig) }
    } else {
        spec_from_new(last, now)
    }
}

/// How one observation of content with fingerprint `h` at time `now` moves the state:
/// an unchanged fingerprint moves nothing; a changed one (re)starts the cool-down.
pub open spec fn spec_update(t: TrackerV, h: Seq<u8>, now: u64) -> TrackerV {
    match t {
        TrackerV::Quiescent { hash } => if h == hash {
            t
        } else {
            TrackerV::Vivacious { last_updated: now, last_hash: h }
        },
        TrackerV::Vivacious { last_updated, last_hash } => if h == last_hash {
            t
        } else {
            TrackerV::Vivacious { last_updated: now, last_hash: h }
        },
    }
}

/// How a settling check at time `now` moves the state, and whether it reports a
/// settle event: a vivacious tracker settles exactly when more than `cool_down`
/// has passed since its last observed change; a quiescent one never moves.
pub open spec fn spec_quiesce(t: TrackerV, cool_down: u64, now: u64) -> (TrackerV, bool) {
    match t {
        TrackerV::Vivacious { last_updated, last_hash } => if now - last_updated > cool_down {
            (TrackerV::Quiescent { hash: last_hash }, true)
        } else {
            (t, false)
        },
        TrackerV::Quiescent { .. } => (t, false),
    }
}

/// Per-link state machine deciding whether accumulated edits have settled.
/// Times are wall-clock milliseconds supplied by the caller.
pub enum Tracker {
    Quiescent { hash: Fingerprint },
    Vivacious { last_updated: u64, last_hash: Fingerprint },
}

impl View for Tracker {
    type V = TrackerV;

    open spec fn view(&self) -> TrackerV {
        match self {
            Tracker::Quiescent { hash } => TrackerV::Quiescent { hash: hash@ },
            Tracker::Vivacious { last_updated, last_hash } => TrackerV::Vivacious {
                last_updated: *last_updated,
                last_hash: last_hash@,
            },
        }
    }
}

impl Tracker {
    /// Initial observation of a pad with no prior snapshot: always vivacious.
    pub fn from_new(last: &str, now: u64) -> (r: Self)
        ensures
            r@ == spec_from_new(last@, now),
    {
        Tracker::Vivacious { last_updated: now, last_hash: Fingerprint::of(last) }
    }

    /// Initial observation of a pad with a prior persisted snapshot `orig`:
    /// quiescent when nothing changed since it, vivacious otherwise.
    pub fn from_existing(orig: &str, last: &str, now: u64) -> (r: Self)
        ensures
            r@ == spec_from_existing(orig@, last@, now),
    {
        let orig_hash = Fingerprint::of(orig);
        let last_hash = Fingerprint::of(last);
        if orig_hash.same(&last_hash) {
            Tracker::Quiescent { hash: orig_hash }
        } else {
            Tracker::Vivacious { last_updated: now, last_hash }
        }
    }

    /// Feeds one fetched content snapshot to the tracker.
    pub fn update(&mut self, content: &str, now: u64)
        ensures
            final(self)@ == spec_update(old(self)@, fingerprint_of(content@), now),
    {
        let h = Fingerprint::of(content);
        let changed = match &*self {
            Tracker::Quiescent { hash } => !h.same(hash),
            Tracker::Vivacious { last_hash, .. } => !h.same(last_hash),
        };
        if changed {
            *self = Tracker::Vivacious { last_updated: now, last_hash: h };
        }
    }

    /// Settling check: moves a vivacious tracker whose cool-down has elapsed to
    /// quiescent and returns true exactly then; a repeated call, or a call on a
    /// quiescent tracker, returns false and moves nothing.
    pub fn quiesce(&mut self, cool_down: u64, now: u64) -> (settled: bool)
        ensures
            final(self)@ == spec_quiesce(old(self)@, cool_down, now).0,
            settled == spec_quiesce(old(self)@, cool_down, now).1,
    {
        let carried: Option<Fingerprint> = match &*self {
            Tracker::Vivacious { last_updated, last_hash } => {
                if now > *last_updated && now - *last_updated > cool_down {
                    Some(last_hash.clone())
                } else {
                    None
                }
            },
            Tracker::Quiescent { .. } => None,
        };
        match carried {
            Some(hash) => {
                *self = Tracker::Quiescent { hash };
                true
            },
            None => false,
        }
    }

    /// Whether the tracker is quiescent.
    pub fn is_quiescent(&self) -> (r: bool)
        ensures
            r == (self@ is Quiescent),
    {
        match self {
            Tracker::Quiescent { .. } => true,
            Tracker::Vivacious { .. } => false,
        }
    }

    /// Whether the tracker is vivacious.
    pub fn is_vivacious(&self) -> (r: bool)
        ensures
            r == (self@ is Vivacious),
    {
        !self.is_quiescent()
    }
}

/// A tracker made from a first observation is always vivacious; one made from a
/// prior snapshot equal to the current content is always quiescent; one made
/// from a prior snapshot whose fingerprint differs is always vivacious.
pub proof fn lemma_initial_states(orig: Seq<char>, last: Seq<char>, c: Seq<char>, now: u64)
    ensures
        spec_from_new(c, now) is Vivacious,
        spec_from_existing(c, c, now) is Quiescent,
        fingerprint_of(orig) != fingerprint_of(last) ==> spec_from_existing(orig, last, now)
            is Vivacious,
{
}

/// Feeding the same content twice in a row moves the state exactly where
/// feeding it once does, whatever times the two observations carry.
pub proof fn lemma_update_idempotent(t: TrackerV, h: Seq<u8>, n1: u64, n2: u64)
    ensures
        spec_update(spec_update(t, h, n1), h, n2) == spec_update(t, h, n1),
{
}

/// The debounce is edge-triggered. For a vivacious tracker last updated at `t0`:
/// a settling check within the cool-down window moves nothing and reports
/// nothing; one after the window settles the tracker, carrying its fingerprint
/// forward, and reports the settle event; any check after that reports nothing.
pub proof fn lemma_quiesce_edge_trigger(
    h: Seq<u8>,
    t0: u64,
    cool_down: u64,
    t_early: u64,
    t_late: u64,
    t_again: u64,
)
    requires
        t_early - t0 <= cool_down,
        t_late - t0 > cool_down,
    ensures
        spec_quiesce(TrackerV::Vivacious { last_updated: t0, last_hash: h }, cool_down, t_early)
            == (TrackerV::Vivacious { last_updated: t0, last_hash: h }, false),
        spec_quiesce(TrackerV::Vivacious { last_updated: t0, last_hash: h }, cool_down, t_late)
            == (TrackerV::Quiescent { hash: h }, true),
        spec_quiesce(
            spec_quiesce(
                TrackerV::Vivacious { last_updated: t0, last_hash: h },
                cool_down,
                t_late,
            ).0,
            cool_down,
            t_again,
        ).1 == false,
{
}

} // verus!

