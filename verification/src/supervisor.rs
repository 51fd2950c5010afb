use vstd::prelude::*;

use crate::errors::SidecarError;
use crate::readiness::HandshakeOutcome;

verus! {

/// A validated, installed worker: the token naming its OS process in the
/// surrounding application, and the port learned from the readiness
/// handshake. A handle is only ever constructed by a successful launch.
#[derive(Debug)]
pub struct Handle {
    pub id: u64,
    pub port: u16,
}

impl Handle {
    /// The port the worker announced in its readiness line.
    pub fn port(&self) -> (p: u16)
        ensures
            p == self.port,
    {
        self.port
    }

    /// The token naming the worker's OS process.
    pub fn id(&self) -> (i: u64)
        ensures
            i == self.id,
    {
        self.id
    }
}

/// One step of the supervisor's protocol history. `Spawned` marks the
/// registration of a freshly spawned worker process; `Retired` marks the
/// moment a worker is handed to the shutdown protocol (close its standard
/// input, then wait for it to exit).
#[derive(Clone, Copy, Debug, PartialEq, Eq, Structural)]
pub enum Event {
    Spawned { id: u64 },
    Retired { id: u64 },
}

/// How often worker `id` was registered as spawned in history `h`.
pub open spec fn count_spawned(h: Seq<Event>, id: u64) -> nat
    decreases h.len(),
{
    if h.len() == 0 {
        0
    } else {
        count_spawned(h.drop_last(), id) + match h.last() {
            Event::Spawned { id: j } => if j == id {
                1nat
            } else {
                0nat
            },
            Event::Retired { .. } => 0nat,
        }
    }
}

/// How often worker `id` was handed to the shutdown protocol in `h`.
pub open spec fn count_retired(h: Seq<Event>, id: u64) -> nat
    decreases h.len(),
{
    if h.len() == 0 {
        0
    } else {
        count_retired(h.drop_last(), id) + match h.last() {
            Event::Retired { id: j } => if j == id {
                1nat
            } else {
                0nat
            },
            Event::Spawned { .. } => 0nat,
        }
    }
}

/// A worker is live when it has been spawned and not yet retired.
pub open spec fn is_live(h: Seq<Event>, id: u64) -> bool {
    count_spawned(h, id) > 0 && count_retired(h, id) == 0
}

pub open spec fn no_live(h: Seq<Event>) -> bool {
    forall|id: u64| !is_live(h, id)
}

/// The histories the supervisor can produce: a worker is spawned only
/// while no other worker is live (retire-before-install), never twice,
/// and only live workers are retired.
pub open spec fn valid_history(h: Seq<Event>) -> bool
    decreases h.len(),
{
    if h.len() == 0 {
        true
    } else {
        valid_history(h.drop_last()) && match h.last() {
            Event::Spawned { id } => count_spawned(h.drop_last(), id) == 0 && no_live(
                h.drop_last(),
            ),
            Event::Retired { id } => is_live(h.drop_last(), id),
        }
    }
}

/// How appending one event changes the counts and the validity of a
/// history.
proof fn lemma_counts_push(h: Seq<Event>, e: Event)
    ensures
        forall|id: u64|
            count_spawned(#[trigger] h.push(e), id) == count_spawned(h, id) + match e {
                Event::Spawned { id: j } => if j == id {
                    1nat
                } else {
                    0nat
                },
                Event::Retired { .. } => 0nat,
            },
        forall|id: u64|
            count_retired(#[trigger] h.push(e), id) == count_retired(h, id) + match e {
                Event::Retired { id: j } => if j == id {
                    1nat
                } else {
                    0nat
                },
                Event::Spawned { .. } => 0nat,
            },
        valid_history(h.push(e)) <==> (valid_history(h) && match e {
            Event::Spawned { id } => count_spawned(h, id) == 0 && no_live(h),
            Event::Retired { id } => is_live(h, id),
        }),
{
    assert(h.push(e).drop_last() =~= h);
    assert(h.push(e).last() == e);
}

/// Retiring the one live worker leaves a valid history with no live
/// worker and touches no counts besides the retired worker's.
proof fn lemma_retire_live(h: Seq<Event>, pid: u64, bound: u64)
    requires
        valid_history(h),
        forall|id: u64| is_live(h, id) <==> id == pid,
        forall|id: u64| id >= bound ==> count_spawned(h, id) == 0 && count_retired(h, id) == 0,
    ensures
        valid_history(h.push((Event::Retired { id: pid }))),
        no_live(h.push((Event::Retired { id: pid }))),
        forall|id: u64|
            id >= bound ==> count_spawned(#[trigger] h.push((Event::Retired { id: pid })), id)
                == 0 && count_retired(h.push((Event::Retired { id: pid })), id) == 0,
{
    lemma_counts_push(h, Event::Retired { id: pid });
    let h2 = h.push(Event::Retired { id: pid });
    assert(is_live(h, pid));
    assert forall|id: u64| !is_live(h2, id) by {
        if id != pid {
            assert(count_spawned(h2, id) == count_spawned(h, id));
            assert(count_retired(h2, id) == count_retired(h, id));
            assert(!is_live(h, id));
        } else {
            assert(count_retired(h2, id) > 0);
        }
    }
    assert forall|id: u64|
        id >= bound implies count_spawned(h2, id) == 0 && count_retired(h2, id) == 0 by {
        assert(count_spawned(h, id) == 0 && count_retired(h, id) == 0);
        assert(count_spawned(h, pid) > 0);
    }
}

/// Spawning a fresh worker while none is live leaves a valid history in
/// which exactly the new worker is live.
proof fn lemma_spawn_fresh(h: Seq<Event>, nid: u64, bound: u64)
    requires
        valid_history(h),
        no_live(h),
        forall|id: u64| id >= bound ==> count_spawned(h, id) == 0 && count_retired(h, id) == 0,
        nid == bound,
        bound < u64::MAX,
    ensures
        valid_history(h.push((Event::Spawned { id: nid }))),
        forall|id: u64| is_live(#[trigger] h.push((Event::Spawned { id: nid })), id) <==> id == nid,
        forall|id: u64|
            id >= bound + 1 ==> count_spawned(#[trigger] h.push((Event::Spawned { id: nid })), id)
                == 0 && count_retired(h.push((Event::Spawned { id: nid })), id) == 0,
{
    lemma_counts_push(h, Event::Spawned { id: nid });
    let h2 = h.push(Event::Spawned { id: nid });
    assert(count_spawned(h, nid) == 0);
    assert forall|id: u64| is_live(h2, id) <==> id == nid by {
        if id != nid {
            assert(count_spawned(h2, id) == count_spawned(h, id));
            assert(count_retired(h2, id) == count_retired(h, id));
            assert(!is_live(h, id));
        } else {
            assert(count_spawned(h2, id) == 1);
            assert(count_retired(h2, id) == count_retired(h, id) && count_retired(h, id) == 0);
        }
    }
    assert forall|id: u64|
        id >= bound + 1 implies count_spawned(h2, id) == 0 && count_retired(h2, id) == 0 by {
        assert(count_spawned(h, id) == 0 && count_retired(h, id) == 0);
    }
}

/// The slot and the bookkeeping around it. The surrounding application
/// must drive all operations under one exclusive lock, so that no two of
/// them interleave; each operation here is a single, atomic decision.
pub struct Supervisor {
    /// At most one installed worker.
    pub slot: Option<Handle>,
    /// The token of a spawned worker whose readiness read is underway.
    pub pending: Option<u64>,
    /// The next process token to hand out.
    pub next_id: u64,
    /// The protocol history, kept for the supervisor's laws.
    pub history: Ghost<Seq<Event>>,
}

impl Supervisor {
    /// The supervisor's invariant.
    pub open spec fn wf(self) -> bool {
        &&& valid_history(self.history@)
        &&& !(self.slot is Some && self.pending is Some)
        &&& forall|id: u64|
            id >= self.next_id ==> count_spawned(self.history@, id) == 0 && count_retired(
                self.history@,
                id,
            ) == 0
        &&& (match self.slot {
            Some(hd) => forall|id: u64| is_live(self.history@, id) <==> id == hd.id,
            None => true,
        })
        &&& (match self.pending {
            Some(p) => forall|id: u64| is_live(self.history@, id) <==> id == p,
            None => true,
        })
        &&& (self.slot is None && self.pending is None ==> no_live(self.history@))
    }

    /// A fresh supervisor: empty slot, nothing pending, empty history.
    pub fn new() -> (s: Supervisor)
        ensures
            s.wf(),
            s.slot is None,
            s.pending is None,
            s.next_id == 0,
            s.history@ == Seq::<Event>::empty(),
    {
        Supervisor { slot: None, pending: None, next_id: 0, history: Ghost(Seq::empty()) }
    }

    /// The installed worker's port, or `NotReady` exactly when the slot
    /// is empty.
    pub fn port(&self) -> (r: Result<u16, SidecarError>)
        ensures
            r is Err <==> self.slot is None,
            (match self.slot {
                Some(hd) => r == Ok::<u16, SidecarError>(hd.port),
                None => r == Err::<u16, SidecarError>(SidecarError::NotReady),
            }),
    {
        match &self.slot {
            Some(h) => Ok(h.port),
            None => Err(SidecarError::NotReady),
        }
    }

    /// Empty the slot and hand its occupant, if any, back to the caller,
    /// which must at once run the worker's shutdown protocol (close its
    /// standard input, then wait for it to exit). Closing an empty slot
    /// changes nothing and is not an error. This is also the
    /// retire-before-install step of `open`: it must have run — and the
    /// returned worker must have been shut down — before a new worker is
    /// spawned and registered.
    pub fn close(&mut self) -> (retired: Option<Handle>)
        requires
            old(self).wf(),
            old(self).pending is None,
        ensures
            final (self).wf(),
            final (self).slot is None,
            final (self).pending is None,
            final (self).next_id == old(self).next_id,
            (match old(self).slot {
                Some(hd) => retired matches Some(r) && r.id == hd.id && r.port == hd.port
                    && final (self).history@ == old(self).history@.push(
                    (Event::Retired { id: hd.id }),
                ),
                None => retired is None && final (self).history@ == old(self).history@,
            }),
    {
        let r = self.slot.take();
        match &r {
            Some(h) => {
                proof {
                    lemma_retire_live(self.history@, h.id, self.next_id);
                }
                self.history = Ghost(self.history@.push(Event::Retired { id: h.id }));
            },
            None => {},
        }
        r
    }

    /// Record one freshly spawned worker process and mint its token.
    /// Called by `open` right after the spawn succeeds: the slot must
    /// already have been emptied (and any previous worker shut down) by
    /// `close`, and no other launch may be underway.
    pub fn register_launch(&mut self) -> (id: u64)
        requires
            old(self).wf(),
            old(self).slot is None,
            old(self).pending is None,
            old(self).next_id < u64::MAX,
        ensures
            final (self).wf(),
            final (self).slot is None,
            final (self).pending == Some(id),
            id == old(self).next_id,
            final (self).next_id == old(self).next_id + 1,
            final (self).history@ == old(self).history@.push((Event::Spawned { id })),
    {
        let id = self.next_id;
        self.next_id = self.next_id + 1;
        proof {
            lemma_spawn_fresh(self.history@, id, id);
        }
        self.history = Ghost(self.history@.push(Event::Spawned { id }));
        self.pending = Some(id);
        id
    }

    /// Resolve the pending launch with the outcome of the readiness read.
    /// On `Ready(p)` the worker is installed and its port returned; the
    /// slot was empty throughout the read, so no second worker ever
    /// coexisted with it. On every failure the slot stays empty and the
    /// worker is retired: the caller must run the shutdown protocol on
    /// the spawned process (close its input, wait for its exit) before
    /// reporting the error, so that a failed launch never leaks a
    /// process.
    pub fn finish_open(&mut self, outcome: HandshakeOutcome) -> (r: Result<u16, SidecarError>)
        requires
            old(self).wf(),
            old(self).pending is Some,
        ensures
            final (self).wf(),
            final (self).pending is None,
            final (self).next_id == old(self).next_id,
            (match outcome {
                HandshakeOutcome::Ready(p) => r == Ok::<u16, SidecarError>(p) && (final (
                self).slot matches Some(hd) && hd.id == old(self).pending->0 && hd.port == p)
                    && final (self).history@ == old(self).history@,
                HandshakeOutcome::StreamEnded => r == Err::<u16, SidecarError>(
                    SidecarError::ExitedBeforeReady,
                ),
                HandshakeOutcome::Malformed => r == Err::<u16, SidecarError>(
                    SidecarError::MalformedReadiness,
                ),
                HandshakeOutcome::ReadError => r == Err::<u16, SidecarError>(
                    SidecarError::ReadFailed,
                ),
            }),
            !(outcome is Ready) ==> final (self).slot is None && final (self).history@ == old(
                self,
            ).history@.push((Event::Retired { id: old(self).pending->0 })),
    {
        let pid = match self.pending.take() {
            Some(p) => p,
            None => {
                proof {
                    assert(false);
                }
                0
            },
        };
        match outcome {
            HandshakeOutcome::Ready(p) => {
                self.slot = Some(Handle { id: pid, port: p });
                Ok(p)
            },
            HandshakeOutcome::StreamEnded => {
                proof {
                    lemma_retire_live(self.history@, pid, self.next_id);
                }
                self.history = Ghost(self.history@.push(Event::Retired { id: pid }));
                Err(SidecarError::ExitedBeforeReady)
            },
            HandshakeOutcome::Malformed => {
                proof {
                    lemma_retire_live(self.history@, pid, self.next_id);
                }
                self.history = Ghost(self.history@.push(Event::Retired { id: pid }));
                Err(SidecarError::MalformedReadiness)
            },
            HandshakeOutcome::ReadError => {
                proof {
                    lemma_retire_live(self.history@, pid, self.next_id);
                }
                self.history = Ghost(self.history@.push(Event::Retired { id: pid }));
                Err(SidecarError::ReadFailed)
            },
        }
    }
}

/// Law: in every history the supervisor can produce, each worker is
/// spawned at most once, retired at most as often as spawned — so never
/// retired twice and never retired without having been spawned — and at
/// most one worker is live at any point.
pub proof fn lemma_at_most_one_live(h: Seq<Event>)
    requires
        valid_history(h),
    ensures
        forall|id: u64| count_spawned(h, id) <= 1,
        forall|id: u64| count_retired(h, id) <= count_spawned(h, id),
        forall|id1: u64, id2: u64| is_live(h, id1) && is_live(h, id2) ==> id1 == id2,
    decreases h.len(),
{
    if h.len() == 0 {
        assert forall|id: u64| count_spawned(h, id) <= 1 && count_retired(h, id)
            <= count_spawned(h, id) by {
            assert(count_spawned(h, id) == 0);
            assert(count_retired(h, id) == 0);
        }
    } else {
        let h0 = h.drop_last();
        lemma_at_most_one_live(h0);
        assert forall|id: u64| count_spawned(h, id) <= 1 && count_retired(h, id)
            <= count_spawned(h, id) by {
            assert(count_spawned(h, id) == count_spawned(h0, id) + (match h.last() {
                Event::Spawned { id: j } => if j == id {
                    1nat
                } else {
                    0nat
                },
                Event::Retired { .. } => 0nat,
            }));
            assert(count_retired(h, id) == count_retired(h0, id) + (match h.last() {
                Event::Retired { id: j } => if j == id {
                    1nat
                } else {
                    0nat
                },
                Event::Spawned { .. } => 0nat,
            }));
            match h.last() {
                Event::Spawned { id: j } => {
                    if j == id {
                        assert(count_spawned(h0, id) == 0);
                    }
                },
                Event::Retired { id: j } => {
                    if j == id {
                        assert(is_live(h0, j));
                    }
                },
            }
        }
        assert forall|id1: u64, id2: u64| is_live(h, id1) && is_live(h, id2) implies id1 == id2 by {
            match h.last() {
                Event::Spawned { id: j } => {
                    assert(no_live(h0));
                    if id1 != j {
                        assert(count_spawned(h, id1) == count_spawned(h0, id1));
                        assert(count_retired(h, id1) == count_retired(h0, id1));
                        assert(!is_live(h0, id1));
                    }
                    if id2 != j {
                        assert(count_spawned(h, id2) == count_spawned(h0, id2));
                        assert(count_retired(h, id2) == count_retired(h0, id2));
                        assert(!is_live(h0, id2));
                    }
                },
                Event::Retired { id: j } => {
                    assert(count_spawned(h, id1) == count_spawned(h0, id1));
                    assert(count_spawned(h, id2) == count_spawned(h0, id2));
                    assert(count_retired(h0, id1) <= count_retired(h, id1));
                    assert(count_retired(h0, id2) <= count_retired(h, id2));
                    assert(is_live(h0, id1) && is_live(h0, id2));
                },
            }
        }
    }
}

/// Law: a well-formed supervisor references at most one live worker —
/// the installed one or the one being launched, never both — and its
/// history never spawns a worker twice nor retires one twice: every
/// retired worker saw the shutdown protocol exactly once.
pub proof fn lemma_supervisor_at_most_one(s: Supervisor)
    requires
        s.wf(),
    ensures
        !(s.slot is Some && s.pending is Some),
        forall|id1: u64, id2: u64|
            is_live(s.history@, id1) && is_live(s.history@, id2) ==> id1 == id2,
        forall|id: u64|
            count_spawned(s.history@, id) <= 1 && count_retired(s.history@, id) <= count_spawned(
                s.history@,
                id,
            ),
        s.slot is None && s.pending is None ==> no_live(s.history@),
{
    lemma_at_most_one_live(s.history@);
}

/// Law: a valid history stays valid when cut to any prefix.
pub proof fn lemma_prefix_valid(h: Seq<Event>, n: int)
    requires
        valid_history(h),
        0 <= n <= h.len(),
    ensures
        valid_history(h.take(n)),
    decreases h.len(),
{
    if n == h.len() {
        assert(h.take(n) =~= h);
    } else {
        assert(h.drop_last().take(n) =~= h.take(n));
        lemma_prefix_valid(h.drop_last(), n);
    }
}

/// Law (retire-before-install): at the moment a worker is spawned, every
/// worker spawned earlier has already been handed to the shutdown
/// protocol. In particular the retired worker's shutdown strictly
/// precedes the new worker's readiness read, which only starts after its
/// spawn.
pub proof fn lemma_retired_before_next_spawn(h: Seq<Event>, j: int, id: u64)
    requires
        valid_history(h),
        0 <= j < h.len(),
        h[j] is Spawned,
        count_spawned(h.take(j), id) > 0,
    ensures
        count_retired(h.take(j), id) > 0,
{
    lemma_prefix_valid(h, j + 1);
    assert(h.take(j + 1).drop_last() =~= h.take(j));
    assert(h.take(j + 1).last() == h[j]);
    assert(no_live(h.take(j)));
    assert(!is_live(h.take(j), id));
}

} // verus!

