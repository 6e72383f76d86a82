//! Feed cursor: where we are in the stream, and how to notice when the ground
//! moves under us.
//!
//! `GET /orders?since=N` returns ids strictly greater than `N`. Because the
//! feed assigns ids under the same lock as the push and never truncates
//! history, this cursor cannot gap or duplicate.
//!
//! The one failure it must survive is a feed restart: ids reset to 1, so a
//! cursor from the previous run sits permanently above them, `since` matches
//! nothing, and the consumer goes *silently* deaf. The detection lives here,
//! away from the I/O, so that it is checked without a server.

use crate::feed::OrderId;
use vstd::prelude::*;

verus! {

#[derive(Debug, Clone, PartialEq, Eq)]
pub struct Cursor {
    since: OrderId,
    empty_polls: u32,
    /// Consecutive empty polls tolerated before suspecting a restart. A live
    /// market refills instantly, so this only fires on a genuinely quiet feed.
    probe_after: u32,
}

/// A place in the stream, and how long the feed has been silent there.
pub struct CursorView {
    pub since: OrderId,
    /// Consecutive empty polls since the last message, probe or rewind.
    pub silent: nat,
    pub probe_after: nat,
}

impl CursorView {
    /// Whether one more empty poll is worth a probe.
    pub open spec fn due(self) -> bool {
        self.silent + 1 >= self.probe_after
    }

    pub open spec fn after_empty_poll(self) -> CursorView {
        CursorView {
            silent: if self.due() {
                0
            } else {
                self.silent + 1
            },
            ..self
        }
    }

    pub open spec fn advanced(self, id: OrderId) -> CursorView {
        CursorView { since: id, silent: 0, ..self }
    }

    /// The feed's newest id lies below what was already consumed.
    pub open spec fn overtakes(self, feed_max_id: Option<OrderId>) -> bool {
        match feed_max_id {
            Some(max) => max < self.since,
            None => false,
        }
    }

    pub open spec fn rewound(self) -> CursorView {
        CursorView { since: 0, silent: 0, ..self }
    }
}

impl View for Cursor {
    type V = CursorView;

    closed spec fn view(&self) -> CursorView {
        CursorView {
            since: self.since,
            silent: self.empty_polls as nat,
            probe_after: self.probe_after as nat,
        }
    }
}

impl Cursor {
    pub fn new(from: OrderId, probe_after: u32) -> (r: Self)
        ensures
            r@ == (CursorView { since: from, silent: 0, probe_after: probe_after as nat }),
    {
        Cursor { since: from, empty_polls: 0, probe_after }
    }

    pub fn since(&self) -> (r: OrderId)
        ensures
            r == self@.since,
    {
        self.since
    }

    /// Records that a message was consumed. Called before the message is
    /// processed: even one we skip has been read, and re-reading it would loop
    /// forever.
    pub fn advance_to(&mut self, id: OrderId)
        ensures
            final(self)@ == old(self)@.advanced(id),
    {
        self.since = id;
        self.empty_polls = 0;
    }

    /// Records an empty poll. Returns true when it is worth asking the feed
    /// for its newest id to check for a restart.
    pub fn note_empty_poll(&mut self) -> (r: bool)
        ensures
            r == old(self)@.due(),
            final(self)@ == old(self)@.after_empty_poll(),
    {
        let polls = self.empty_polls;
        if polls == u32::MAX || polls + 1 >= self.probe_after {
            self.empty_polls = 0;
            return true;
        }
        self.empty_polls = polls + 1;
        false
    }

    /// Given the feed's newest id, has it restarted beneath us?
    ///
    /// An empty feed (`None`) is not a restart: a freshly started feed that has
    /// published nothing yet looks the same as one that never will, and our
    /// cursor is 0 there anyway.
    pub fn detects_restart(&self, feed_max_id: Option<OrderId>) -> (r: bool)
        ensures
            r == self@.overtakes(feed_max_id),
    {
        match feed_max_id {
            Some(max) => max < self.since,
            None => false,
        }
    }

    /// Rewinds to the beginning. Safe because the fold is deterministic and the
    /// feed retains everything.
    pub fn rewind(&mut self)
        ensures
            final(self)@ == old(self)@.rewound(),
    {
        self.since = 0;
        self.empty_polls = 0;
    }
}

/// The cursor after `n` empty polls in a row.
pub open spec fn silent_for(c: CursorView, n: nat) -> CursorView
    decreases n,
{
    if n == 0 {
        c
    } else {
        silent_for(c, (n - 1) as nat).after_empty_poll()
    }
}

proof fn lemma_next_remainder(n: nat, p: nat)
    requires
        p > 0,
    ensures
        n % p < p,
        (n + 1) % p == (if n % p + 1 == p {
            0
        } else {
            n % p + 1
        }),
{
    let (q, k) = ((n / p) as int, (n % p) as int);
    vstd::arithmetic::div_mod::lemma_fundamental_div_mod(n as int, p as int);
    if k + 1 == p {
        assert(n + 1 == (q + 1) * p) by (nonlinear_arith)
            requires
                n == p * q + k,
                k + 1 == p,
        ;
        vstd::arithmetic::div_mod::lemma_fundamental_div_mod_converse(
            n as int + 1,
            p as int,
            q + 1,
            0,
        );
    } else {
        assert(n + 1 == q * p + (k + 1)) by (nonlinear_arith)
            requires
                n == p * q + k,
        ;
        vstd::arithmetic::div_mod::lemma_fundamental_div_mod_converse(
            n as int + 1,
            p as int,
            q,
            k + 1,
        );
    }
}

/// How many empty polls apart probes fall due: a limit of 0 probes every time,
/// as a limit of 1 does.
pub open spec fn probe_period(c: CursorView) -> nat {
    if c.probe_after == 0 {
        1
    } else {
        c.probe_after
    }
}

/// From the start of a silence, a probe falls due at every `probe_after`-th
/// empty poll and at no other, and at every one where that limit is 0; the
/// place in the stream stays.
pub proof fn law_a_silence_is_probed_at_every_limit(c: CursorView, n: nat)
    requires
        c.silent == 0,
    ensures
        silent_for(c, n).due() == ((n + 1) % probe_period(c) == 0),
        silent_for(c, n).silent == n % probe_period(c),
        silent_for(c, n).since == c.since,
        silent_for(c, n).probe_after == c.probe_after,
        c.probe_after == 0 ==> silent_for(c, n).due(),
    decreases n,
{
    let p = probe_period(c);
    lemma_next_remainder(n, p);
    if n > 0 {
        lemma_next_remainder((n - 1) as nat, p);
        law_a_silence_is_probed_at_every_limit(c, (n - 1) as nat);
    } else {
        vstd::arithmetic::div_mod::lemma_small_mod(0, p);
    }
}

/// A message ends a silence: what was counted before it makes no difference.
pub proof fn law_a_message_ends_the_silence(c: CursorView, n: nat, id: OrderId)
    ensures
        silent_for(c, n).advanced(id) == c.advanced(id),
    decreases n,
{
    if n > 0 {
        law_a_message_ends_the_silence(c, (n - 1) as nat, id);
    }
}

/// A feed that is at or past the cursor has not restarted, nor has an empty
/// one; in particular a cursor at the start of the stream never says so.
pub proof fn law_a_quiet_feed_has_not_restarted(c: CursorView, feed_max_id: Option<OrderId>)
    requires
        feed_max_id matches Some(max) ==> c.since <= max || c.since == 0,
    ensures
        !c.overtakes(feed_max_id),
{
}

/// A rewound cursor starts the stream and the silence over, and reports no
/// restart until it has consumed something.
pub proof fn law_rewinding_starts_over(c: CursorView, feed_max_id: Option<OrderId>)
    ensures
        c.rewound().since == 0,
        c.rewound().silent == 0,
        !c.rewound().overtakes(feed_max_id),
{
}

} // verus!
