//! The admission records: issued challenges, granted allowances, pending
//! dispatches and the sequence counter, held in memory with bounded
//! lifetimes. Every operation takes the store by exclusive reference, so
//! each is atomic with respect to every other.

use vstd::prelude::*;
use crate::error::Error;
use crate::factors::{decimal_text, lemma_decimal_text, push_decimal};
use crate::table::{TimedTable, expired, live};
use crate::text::{decimal_value, is_digit};

verus! {

/// What is stored for an issued challenge, under its id.
pub struct ChallengeRecord {
    pub client_ip: String,
    pub bound_port: u16,
    pub factors_digest: String,
}

/// A challenge record as plain values.
pub struct ChallengeView {
    pub client_ip: Seq<char>,
    pub bound_port: u16,
    pub factors_digest: Seq<char>,
}

impl View for ChallengeRecord {
    type V = ChallengeView;

    open spec fn view(&self) -> ChallengeView {
        ChallengeView {
            client_ip: self.client_ip@,
            bound_port: self.bound_port,
            factors_digest: self.factors_digest@,
        }
    }
}

/// The largest value that the sequence counter takes.
pub const SEQ_LAST: u32 = 0x7FFF_FFFF;

/// The value that follows `s`: one more, and from the last value back to 1.
pub open spec fn seq_successor(s: u32) -> u32 {
    if s >= SEQ_LAST {
        1
    } else {
        (s + 1) as u32
    }
}

/// A counter that runs from 1 to `SEQ_LAST` and then starts over.
pub struct SeqCounter {
    next: u32,
}

impl SeqCounter {
    /// The value that the next call of `next_seq` returns.
    pub closed spec fn peek(&self) -> u32 {
        self.next
    }

    /// The counter's invariant: it stands between 1 and `SEQ_LAST`.
    pub closed spec fn wf(&self) -> bool {
        1 <= self.next <= SEQ_LAST
    }

    /// A counter that stands at 1.
    pub fn new() -> (c: Self)
        ensures
            c.wf(),
            c.peek() == 1,
    {
        SeqCounter { next: 1 }
    }

    /// Returns the counter's value and moves it on.
    pub fn next_seq(&mut self) -> (r: u32)
        requires
            old(self).wf(),
        ensures
            final(self).wf(),
            r == old(self).peek(),
            1 <= r <= SEQ_LAST,
            final(self).peek() == seq_successor(r),
    {
        let r = self.next;
        if r >= SEQ_LAST {
            self.next = 1;
        } else {
            self.next = r + 1;
        }
        r
    }
}

/// The key of an allowance: the address, a colon, the port in decimal.
pub open spec fn allowance_key(ip: Seq<char>, port: u16) -> Seq<char> {
    ip + seq![':'] + decimal_text(port as nat)
}

/// Different addresses or ports have different keys.
pub proof fn lemma_allowance_key_injective(ip1: Seq<char>, port1: u16, ip2: Seq<char>, port2: u16)
    requires
        allowance_key(ip1, port1) == allowance_key(ip2, port2),
    ensures
        ip1 == ip2,
        port1 == port2,
{
    let d1 = decimal_text(port1 as nat);
    let d2 = decimal_text(port2 as nat);
    lemma_decimal_text(port1 as nat);
    lemma_decimal_text(port2 as nat);
    let k1 = allowance_key(ip1, port1);
    let k2 = allowance_key(ip2, port2);
    assert(k1.len() == ip1.len() + 1 + d1.len());
    assert(k2.len() == ip2.len() + 1 + d2.len());
    assert(!is_digit(':'));
    if d1.len() < d2.len() {
        let at = ip1.len() as int;
        assert(k1[at] == ':');
        assert(k2[at] == d2[at - ip2.len() - 1]);
        assert(false);
    }
    if d2.len() < d1.len() {
        let at = ip2.len() as int;
        assert(k2[at] == ':');
        assert(k1[at] == d1[at - ip1.len() - 1]);
        assert(false);
    }
    assert(ip1 =~= k1.take(ip1.len() as int));
    assert(ip2 =~= k2.take(ip2.len() as int));
    assert(d1 =~= k1.skip(ip1.len() as int + 1));
    assert(d2 =~= k2.skip(ip2.len() as int + 1));
    assert(decimal_value(d1) == decimal_value(d2));
}

/// Writes the key of an allowance.
pub fn make_allowance_key(ip: &str, port: u16) -> (key: String)
    ensures
        key@ == allowance_key(ip@, port),
{
    let mut key = ip.to_owned();
    key.push(':');
    push_decimal(&mut key, port as u128);
    key
}

/// The stored challenges as a map from id to record and time of issue.
pub type ChallengeMap = Map<Seq<char>, (ChallengeView, u64)>;

/// A take of `id` with `digest` at `now` finds its record: the record has
/// not expired and was stored with that digest.
pub open spec fn take_hits(
    m: ChallengeMap,
    id: Seq<char>,
    digest: Seq<char>,
    now: u64,
    ttl: u64,
) -> bool {
    live(m, now, ttl).contains_key(id) && live(m, now, ttl)[id].0.factors_digest == digest
}

/// The challenges that a take of `id` with `digest` at `now` leaves: those
/// that have not expired, without the record that the take found.
pub open spec fn after_take(
    m: ChallengeMap,
    id: Seq<char>,
    digest: Seq<char>,
    now: u64,
    ttl: u64,
) -> ChallengeMap {
    if take_hits(m, id, digest, now, ttl) {
        live(m, now, ttl).remove(id)
    } else {
        live(m, now, ttl)
    }
}

/// How many of the takes of `id`, made one after the other with the digests
/// and at the times of `attempts`, find a record.
pub open spec fn takes_that_hit(
    m: ChallengeMap,
    id: Seq<char>,
    attempts: Seq<(Seq<char>, u64)>,
    ttl: u64,
) -> nat
    decreases attempts.len(),
{
    if attempts.len() == 0 {
        0
    } else {
        let first = attempts[0];
        let hit: nat = if take_hits(m, id, first.0, first.1, ttl) {
            1
        } else {
            0
        };
        hit + takes_that_hit(
            after_take(m, id, first.0, first.1, ttl),
            id,
            attempts.drop_first(),
            ttl,
        )
    }
}

/// Once an id is absent, no take of it finds a record.
pub proof fn lemma_absent_never_hits(
    m: ChallengeMap,
    id: Seq<char>,
    attempts: Seq<(Seq<char>, u64)>,
    ttl: u64,
)
    requires
        !m.contains_key(id),
    ensures
        takes_that_hit(m, id, attempts, ttl) == 0,
    decreases attempts.len(),
{
    if attempts.len() > 0 {
        let first = attempts[0];
        lemma_absent_never_hits(
            after_take(m, id, first.0, first.1, ttl),
            id,
            attempts.drop_first(),
            ttl,
        );
    }
}

/// Of any number of takes of one id, with whatever digests and at whatever
/// times, at most one finds a record.
pub proof fn lemma_take_at_most_once(
    m: ChallengeMap,
    id: Seq<char>,
    attempts: Seq<(Seq<char>, u64)>,
    ttl: u64,
)
    ensures
        takes_that_hit(m, id, attempts, ttl) <= 1,
    decreases attempts.len(),
{
    if attempts.len() > 0 {
        let first = attempts[0];
        let next = after_take(m, id, first.0, first.1, ttl);
        if take_hits(m, id, first.0, first.1, ttl) {
            lemma_absent_never_hits(next, id, attempts.drop_first(), ttl);
        } else {
            lemma_take_at_most_once(next, id, attempts.drop_first(), ttl);
        }
    }
}

/// The granted allowances as a map from key to time of grant.
pub type AllowanceMap = Map<Seq<char>, ((), u64)>;

/// A read at `now` finds the allowance under `key`.
pub open spec fn allowed_at(m: AllowanceMap, key: Seq<char>, now: u64, ttl: u64) -> bool {
    live(m, now, ttl).contains_key(key)
}

/// The allowances that reads at the times of `reads`, one after the other,
/// leave: each read removes what has expired by then.
pub open spec fn after_reads(m: AllowanceMap, reads: Seq<u64>, ttl: u64) -> AllowanceMap
    decreases reads.len(),
{
    if reads.len() == 0 {
        m
    } else {
        live(after_reads(m, reads.drop_last(), ttl), reads.last(), ttl)
    }
}

/// An allowance granted at `granted` outlasts every earlier read that came
/// at or after the grant and before the timeout.
pub proof fn lemma_reads_keep_fresh(
    m: AllowanceMap,
    key: Seq<char>,
    granted: u64,
    reads: Seq<u64>,
    ttl: u64,
)
    requires
        forall|i: int| 0 <= i < reads.len() ==> granted <= #[trigger] reads[i] < granted + ttl,
    ensures
        after_reads(m.insert(key, ((), granted)), reads, ttl).contains_key(key),
        after_reads(m.insert(key, ((), granted)), reads, ttl)[key] == ((), granted),
    decreases reads.len(),
{
    if reads.len() > 0 {
        let h = reads.drop_last();
        assert forall|i: int| 0 <= i < h.len() implies granted <= #[trigger] h[i] < granted + ttl by {
            assert(h[i] == reads[i]);
        }
        lemma_reads_keep_fresh(m, key, granted, h, ttl);
        assert(granted <= reads[reads.len() - 1] < granted + ttl);
    }
}

/// After an allowance is granted at `granted`, and after any reads before
/// its timeout, a read at `now`, not before the grant, finds it exactly if
/// `now` is before `granted + ttl`.
pub proof fn lemma_allowance_lifetime(
    m: AllowanceMap,
    key: Seq<char>,
    granted: u64,
    reads: Seq<u64>,
    now: u64,
    ttl: u64,
)
    requires
        forall|i: int| 0 <= i < reads.len() ==> granted <= #[trigger] reads[i] < granted + ttl,
        granted <= now,
    ensures
        allowed_at(after_reads(m.insert(key, ((), granted)), reads, ttl), key, now, ttl) <==> now
            < granted + ttl,
{
    lemma_reads_keep_fresh(m, key, granted, reads, ttl);
}

/// Once a read at `now` has missed an allowance, every read at a later
/// time misses it too, until it is granted again.
pub proof fn lemma_expired_stays_out(
    m: AllowanceMap,
    key: Seq<char>,
    now: u64,
    later: u64,
    ttl: u64,
)
    requires
        !allowed_at(m, key, now, ttl),
        now <= later,
    ensures
        !allowed_at(live(m, now, ttl), key, later, ttl),
{
}

/// The pending dispatches as a map from id to port and time of issue.
pub type PendingMap = Map<Seq<char>, (u16, u64)>;

/// The store.
pub struct MemoryStore {
    seq: SeqCounter,
    challenges: TimedTable<ChallengeRecord>,
    allowances: TimedTable<()>,
    pending: TimedTable<u16>,
    challenge_timeout: u64,
    allowance_timeout: u64,
}

impl MemoryStore {
    /// The stored challenges.
    pub closed spec fn challenges(&self) -> ChallengeMap {
        self.challenges.entries()
    }

    /// The granted allowances, under `allowance_key`.
    pub closed spec fn allowances(&self) -> AllowanceMap {
        self.allowances.entries()
    }

    /// The pending dispatches.
    pub closed spec fn pending(&self) -> PendingMap {
        self.pending.entries()
    }

    /// The value that the next call of `next_seq` returns.
    pub closed spec fn seq(&self) -> u32 {
        self.seq.peek()
    }

    /// The age at which a challenge and a pending dispatch expire.
    pub closed spec fn challenge_timeout(&self) -> u64 {
        self.challenge_timeout
    }

    /// The age at which an allowance expires.
    pub closed spec fn allowance_timeout(&self) -> u64 {
        self.allowance_timeout
    }

    /// The store's invariant.
    pub closed spec fn wf(&self) -> bool {
        &&& self.seq.wf()
        &&& self.challenges.wf()
        &&& self.allowances.wf()
        &&& self.pending.wf()
    }

    /// An empty store with the two timeouts, in seconds. Every `now` that
    /// the store is given is in seconds too, read from one clock.
    pub fn new(challenge_timeout: u64, allowance_timeout: u64) -> (s: Self)
        ensures
            s.wf(),
            s.challenges() == ChallengeMap::empty(),
            s.allowances() == AllowanceMap::empty(),
            s.pending() == PendingMap::empty(),
            s.seq() == 1,
            s.challenge_timeout() == challenge_timeout,
            s.allowance_timeout() == allowance_timeout,
    {
        MemoryStore {
            seq: SeqCounter::new(),
            challenges: TimedTable::new(),
            allowances: TimedTable::new(),
            pending: TimedTable::new(),
            challenge_timeout,
            allowance_timeout,
        }
    }

    /// The age at which an allowance expires.
    pub fn allowance_ttl(&self) -> (ttl: u64)
        ensures
            ttl == self.allowance_timeout(),
    {
        self.allowance_timeout
    }

    /// The age at which a challenge and a pending dispatch expire.
    pub fn challenge_ttl(&self) -> (ttl: u64)
        ensures
            ttl == self.challenge_timeout(),
    {
        self.challenge_timeout
    }

    /// Returns the sequence counter's value and moves it on.
    pub fn next_seq(&mut self) -> (r: u32)
        requires
            old(self).wf(),
        ensures
            final(self).wf(),
            r == old(self).seq(),
            1 <= r <= SEQ_LAST,
            final(self).seq() == seq_successor(r),
            final(self).challenges() == old(self).challenges(),
            final(self).allowances() == old(self).allowances(),
            final(self).pending() == old(self).pending(),
            final(self).challenge_timeout() == old(self).challenge_timeout(),
            final(self).allowance_timeout() == old(self).allowance_timeout(),
    {
        self.seq.next_seq()
    }

    /// Tells whether a challenge is stored under `id`.
    pub fn challenge_exists(&self, id: &str) -> (r: bool)
        requires
            self.wf(),
        ensures
            r == self.challenges().contains_key(id@),
    {
        let key = id.to_owned();
        self.challenges.contains(&key)
    }

    /// Stores a challenge under `id`, issued at `now`; fails with
    /// `DuplicateId`, and stores nothing, where the id is taken.
    pub fn challenge_insert(
        &mut self,
        id: &str,
        client_ip: &str,
        bound_port: u16,
        factors_digest: &str,
        now: u64,
    ) -> (r: Result<(), Error>)
        requires
            old(self).wf(),
        ensures
            final(self).wf(),
            final(self).seq() == old(self).seq(),
            final(self).allowances() == old(self).allowances(),
            final(self).pending() == old(self).pending(),
            final(self).challenge_timeout() == old(self).challenge_timeout(),
            final(self).allowance_timeout() == old(self).allowance_timeout(),
            match r {
                Ok(_) => !old(self).challenges().contains_key(id@) && final(self).challenges()
                    == old(self).challenges().insert(
                    id@,
                    (
                        (ChallengeView {
                            client_ip: client_ip@,
                            bound_port,
                            factors_digest: factors_digest@,
                        }),
                        now,
                    ),
                ),
                Err(e) => e == Error::DuplicateId && old(self).challenges().contains_key(id@)
                    && final(self).challenges() == old(self).challenges(),
            },
    {
        let key = id.to_owned();
        if self.challenges.contains(&key) {
            return Err(Error::DuplicateId);
        }
        let record = ChallengeRecord {
            client_ip: client_ip.to_owned(),
            bound_port,
            factors_digest: factors_digest.to_owned(),
        };
        self.challenges.put(key, record, now);
        Ok(())
    }

    /// Removes the challenges that have expired at `now`; then, if one is
    /// stored under `id` with the digest `factors_digest`, removes it and
    /// returns the address and port it was issued to.
    pub fn challenge_take(&mut self, id: &str, factors_digest: &str, now: u64) -> (r: Option<
        (String, u16),
    >)
        requires
            old(self).wf(),
        ensures
            final(self).wf(),
            final(self).seq() == old(self).seq(),
            final(self).allowances() == old(self).allowances(),
            final(self).pending() == old(self).pending(),
            final(self).challenge_timeout() == old(self).challenge_timeout(),
            final(self).allowance_timeout() == old(self).allowance_timeout(),
            r is Some <==> take_hits(
                old(self).challenges(),
                id@,
                factors_digest@,
                now,
                old(self).challenge_timeout(),
            ),
            r matches Some(who) ==> {
                let found = live(old(self).challenges(), now, old(self).challenge_timeout())[id@].0;
                who.0@ == found.client_ip && who.1 == found.bound_port
            },
            final(self).challenges() == after_take(
                old(self).challenges(),
                id@,
                factors_digest@,
                now,
                old(self).challenge_timeout(),
            ),
            !final(self).challenges().contains_key(id@) || r is None,
    {
        self.challenges.sweep(now, self.challenge_timeout);
        let key = id.to_owned();
        let digest = factors_digest.to_owned();
        let matches = match self.challenges.get(&key) {
            Some(record) => record.factors_digest == digest,
            None => false,
        };
        if !matches {
            return None;
        }
        match self.challenges.take(&key) {
            Some(found) => Some((found.0.client_ip, found.0.bound_port)),
            None => None,
        }
    }

    /// Grants the allowance for `client_ip` on `bound_port` at `now`, in
    /// place of an earlier grant.
    pub fn allowance_insert(&mut self, client_ip: &str, bound_port: u16, now: u64)
        requires
            old(self).wf(),
        ensures
            final(self).wf(),
            final(self).seq() == old(self).seq(),
            final(self).challenges() == old(self).challenges(),
            final(self).pending() == old(self).pending(),
            final(self).challenge_timeout() == old(self).challenge_timeout(),
            final(self).allowance_timeout() == old(self).allowance_timeout(),
            final(self).allowances() == old(self).allowances().insert(
                allowance_key(client_ip@, bound_port),
                ((), now),
            ),
    {
        let key = make_allowance_key(client_ip, bound_port);
        self.allowances.put(key, (), now);
    }

    /// Removes the allowances that have expired at `now`; then tells
    /// whether one is granted for `client_ip` on `bound_port`.
    pub fn allowance_contains(&mut self, client_ip: &str, bound_port: u16, now: u64) -> (r: bool)
        requires
            old(self).wf(),
        ensures
            final(self).wf(),
            final(self).seq() == old(self).seq(),
            final(self).challenges() == old(self).challenges(),
            final(self).pending() == old(self).pending(),
            final(self).challenge_timeout() == old(self).challenge_timeout(),
            final(self).allowance_timeout() == old(self).allowance_timeout(),
            final(self).allowances() == live(
                old(self).allowances(),
                now,
                old(self).allowance_timeout(),
            ),
            r == allowed_at(
                old(self).allowances(),
                allowance_key(client_ip@, bound_port),
                now,
                old(self).allowance_timeout(),
            ),
    {
        self.allowances.sweep(now, self.allowance_timeout);
        let key = make_allowance_key(client_ip, bound_port);
        self.allowances.contains(&key)
    }

    /// Removes the pending dispatches that have expired at `now`.
    pub fn pending_dispatch_sweep(&mut self, now: u64)
        requires
            old(self).wf(),
        ensures
            final(self).wf(),
            final(self).seq() == old(self).seq(),
            final(self).challenges() == old(self).challenges(),
            final(self).allowances() == old(self).allowances(),
            final(self).challenge_timeout() == old(self).challenge_timeout(),
            final(self).allowance_timeout() == old(self).allowance_timeout(),
            final(self).pending() == live(old(self).pending(), now, old(self).challenge_timeout()),
    {
        self.pending.sweep(now, self.challenge_timeout);
    }

    /// Tells whether a dispatch is pending under `id`.
    pub fn pending_dispatch_exists(&self, id: &str) -> (r: bool)
        requires
            self.wf(),
        ensures
            r == self.pending().contains_key(id@),
    {
        let key = id.to_owned();
        self.pending.contains(&key)
    }

    /// Removes the pending dispatches that have expired at `now`; then
    /// stores one for `bound_port` under `id`, or fails with `DuplicateId`
    /// where the id is still taken.
    pub fn pending_dispatch_insert(&mut self, id: &str, bound_port: u16, now: u64) -> (r: Result<
        (),
        Error,
    >)
        requires
            old(self).wf(),
        ensures
            final(self).wf(),
            final(self).seq() == old(self).seq(),
            final(self).challenges() == old(self).challenges(),
            final(self).allowances() == old(self).allowances(),
            final(self).challenge_timeout() == old(self).challenge_timeout(),
            final(self).allowance_timeout() == old(self).allowance_timeout(),
            ({
                let kept = live(old(self).pending(), now, old(self).challenge_timeout());
                match r {
                    Ok(_) => !kept.contains_key(id@) && final(self).pending() == kept.insert(
                        id@,
                        (bound_port, now),
                    ),
                    Err(e) => e == Error::DuplicateId && kept.contains_key(id@) && final(self).pending() == kept,
                }
            }),
    {
        self.pending.sweep(now, self.challenge_timeout);
        let key = id.to_owned();
        if self.pending.contains(&key) {
            return Err(Error::DuplicateId);
        }
        self.pending.put(key, bound_port, now);
        Ok(())
    }

    /// Removes the pending dispatches that have expired at `now`; then
    /// removes the one under `id`, if there is one, and returns its port.
    pub fn pending_dispatch_take(&mut self, id: &str, now: u64) -> (r: Option<u16>)
        requires
            old(self).wf(),
        ensures
            final(self).wf(),
            final(self).seq() == old(self).seq(),
            final(self).challenges() == old(self).challenges(),
            final(self).allowances() == old(self).allowances(),
            final(self).challenge_timeout() == old(self).challenge_timeout(),
            final(self).allowance_timeout() == old(self).allowance_timeout(),
            ({
                let kept = live(old(self).pending(), now, old(self).challenge_timeout());
                match r {
                    Some(port) => kept.contains_key(id@) && kept[id@].0 == port
                        && final(self).pending() == kept.remove(id@),
                    None => !kept.contains_key(id@) && final(self).pending() == kept,
                }
            }),
    {
        self.pending.sweep(now, self.challenge_timeout);
        let key = id.to_owned();
        match self.pending.take(&key) {
            Some(found) => Some(found.0),
            None => None,
        }
    }
}

} // verus!
