//! The admission service: who is allowed, how a challenge is issued, and
//! what a posted answer earns.

use vstd::prelude::*;
use vstd::utf8::encode_utf8;
use crate::cache::{CacheMap, CachedAllow, cache_hit, cache_ttl, cache_ttl_for, cleanup_due};
use crate::challenge::{generate_value_and_factors_strings, is_challenge};
use crate::digest::{blake3_hex, digest_hex, is_digest_text};
use crate::entropy::random_bytes;
use crate::args::Args;
use crate::error::Error;
use crate::routing::{ForwardRequest, Header, added_headers, plan_forward, text_of, upstream_for};
use crate::template::{html_page, render_html};
use crate::store::{
    ChallengeView, MemoryStore, after_take, allowance_key, allowed_at, make_allowance_key,
    seq_successor, take_hits,
};
use crate::table::{lemma_live_twice, live};
use crate::validate::{is_valid_answer, validate_client_response};

verus! {

/// How many random bytes go into an identifier.
pub const ID_ENTROPY: usize = 64;

/// How often a fresh identifier is drawn before the service gives up on
/// finding one that is not taken.
pub const ID_ATTEMPTS: usize = 16;

/// The text that is mixed into every identifier.
pub open spec fn salt_text() -> Seq<char> {
    "pma.seodisparate.com"@
}

/// The text that is mixed into every identifier.
pub fn id_salt() -> (salt: &'static str)
    ensures
        salt@ == salt_text(),
{
    "pma.seodisparate.com"
}

/// The sequence number as eight bytes, least significant first.
pub open spec fn seq_bytes(seq: u32) -> Seq<u8> {
    seq![
        (seq % 256) as u8,
        ((seq / 256) % 256) as u8,
        ((seq / 65536) % 256) as u8,
        (seq / 16777216) as u8,
        0u8,
        0u8,
        0u8,
        0u8,
    ]
}

/// What an identifier is the digest of: the salt, the sequence number, the
/// random bytes.
pub open spec fn id_material(salt: Seq<u8>, seq: u32, entropy: Seq<u8>) -> Seq<u8> {
    salt + seq_bytes(seq) + entropy
}

/// The identifier that the sequence number `seq` and the drawn bytes
/// `entropy` give: the digest of the salt, the sequence number and the
/// bytes.
pub open spec fn minted_id(seq: u32, entropy: Seq<u8>) -> Seq<char> {
    blake3_hex(id_material(encode_utf8(salt_text()), seq, entropy))
}

/// An identifier minted with the sequence number `seq`: the one that `seq`
/// and some `ID_ENTROPY` bytes give.
pub open spec fn is_minted_id(id: Seq<char>, seq: u32) -> bool {
    exists|entropy: Seq<u8>| entropy.len() == ID_ENTROPY && id == #[trigger] minted_id(seq, entropy)
}

/// Every one of `ID_ATTEMPTS` identifiers minted with `seq` was taken: each
/// is in `taken`.
pub open spec fn every_draw_taken(seq: u32, taken: Set<Seq<char>>) -> bool {
    exists|ids: Seq<Seq<char>>|
        ids.len() == ID_ATTEMPTS && forall|k: int|
            0 <= k < ids.len() ==> is_minted_id(#[trigger] ids[k], seq) && taken.contains(ids[k])
}

/// The digest that stands for the answer `factors`.
pub open spec fn answer_digest(factors: Seq<char>) -> Seq<char> {
    blake3_hex(encode_utf8(factors))
}

/// Appends the bytes of `src` to `out`.
pub fn append_bytes(out: &mut Vec<u8>, src: &[u8])
    ensures
        final(out)@ == old(out)@ + src@,
{
    let mut i: usize = 0;
    proof {
        assert(out@ =~= old(out)@ + src@.take(0));
    }
    while i < src.len()
        invariant
            i <= src@.len(),
            out@ == old(out)@ + src@.take(i as int),
        decreases src@.len() - i,
    {
        out.push(src[i]);
        proof {
            assert(out@ =~= old(out)@ + src@.take(i + 1));
        }
        i = i + 1;
    }
    proof {
        assert(src@.take(src@.len() as int) =~= src@);
    }
}

/// The identifier for a salt, a sequence number and random bytes.
pub fn make_id(salt: &str, seq: u32, entropy: &Vec<u8>) -> (id: String)
    ensures
        id@ == blake3_hex(id_material(encode_utf8(salt@), seq, entropy@)),
        is_digest_text(id@),
{
    let mut material: Vec<u8> = Vec::new();
    append_bytes(&mut material, salt.as_bytes());
    let ghost salted = material@;
    material.push((seq % 256) as u8);
    material.push(((seq / 256) % 256) as u8);
    material.push(((seq / 65536) % 256) as u8);
    material.push((seq / 16777216) as u8);
    material.push(0u8);
    material.push(0u8);
    material.push(0u8);
    material.push(0u8);
    proof {
        assert(material@ =~= salted + seq_bytes(seq));
    }
    append_bytes(&mut material, entropy.as_slice());
    digest_hex(material.as_slice())
}

/// What an identifier is minted for.
pub enum Minting<'a> {
    /// A pending dispatch for the port that a page is served from.
    Pending { bound_port: u16 },
    /// A challenge issued to an address on a port, with the digest of its
    /// answer.
    Challenge { client_ip: &'a str, bound_port: u16, factors_digest: &'a str },
}

/// What the gateway does with a request that is neither an answer nor a
/// worker request.
pub enum Decision {
    /// It forwards the request upstream, as planned.
    Forward(ForwardRequest),
    /// It serves the challenge page.
    Challenge(String),
    /// It has no page to serve: no identifier could be minted.
    Unavailable(Error),
}

/// The service's state: the store and the cache in front of it.
pub struct AdmissionService {
    store: MemoryStore,
    cache: CachedAllow,
    target_quads: u64,
}

/// What `check` finds in the cache at `now`, after the cleanup that may be
/// due: a young entry for the source.
pub open spec fn check_hits_cache(
    cache: CacheMap,
    last_cleanup: u64,
    key: Seq<char>,
    allowance_timeout: u64,
    now: u64,
) -> bool {
    !cleanup_due(last_cleanup, now) && cache_hit(
        cache,
        key,
        cache_ttl_for(allowance_timeout),
        now,
    )
}

impl AdmissionService {
    /// The store.
    pub closed spec fn store(&self) -> MemoryStore {
        self.store
    }

    /// The cache.
    pub closed spec fn cache(&self) -> CachedAllow {
        self.cache
    }

    /// The size of the challenges that the service issues, in groups of
    /// four characters.
    pub closed spec fn target_quads(&self) -> u64 {
        self.target_quads
    }

    /// The service's invariant.
    pub closed spec fn wf(&self) -> bool {
        self.store.wf() && self.cache.wf()
    }

    /// A service with nothing stored, started at `now`. The two timeouts
    /// are in seconds, and so is every `now` that the service is given: the
    /// cache's own lifetimes are fixed in seconds.
    pub fn new(target_quads: u64, challenge_timeout: u64, allowance_timeout: u64, now: u64) -> (s:
        Self)
        ensures
            s.wf(),
            s.target_quads() == target_quads,
            s.store().challenge_timeout() == challenge_timeout,
            s.store().allowance_timeout() == allowance_timeout,
            s.store().challenges() == Map::<Seq<char>, (ChallengeView, u64)>::empty(),
            s.store().allowances() == Map::<Seq<char>, ((), u64)>::empty(),
            s.store().pending() == Map::<Seq<char>, (u16, u64)>::empty(),
            s.store().seq() == 1,
            s.cache().entries() == CacheMap::empty(),
            s.cache().last_cleanup() == now,
    {
        AdmissionService {
            store: MemoryStore::new(challenge_timeout, allowance_timeout),
            cache: CachedAllow::new(now),
            target_quads,
        }
    }

    /// The service's cache has a young entry for `client_ip` on
    /// `bound_port` at `now`, after the cleanup that may be due.
    pub open spec fn cached(&self, client_ip: Seq<char>, bound_port: u16, now: u64) -> bool {
        check_hits_cache(
            self.cache().entries(),
            self.cache().last_cleanup(),
            allowance_key(client_ip, bound_port),
            self.store().allowance_timeout(),
            now,
        )
    }

    /// The service's store has an allowance for `client_ip` on `bound_port`
    /// that has not expired at `now`.
    pub open spec fn stored(&self, client_ip: Seq<char>, bound_port: u16, now: u64) -> bool {
        allowed_at(
            self.store().allowances(),
            allowance_key(client_ip, bound_port),
            now,
            self.store().allowance_timeout(),
        )
    }

    /// The service allows `client_ip` on `bound_port` at `now`: the cache
    /// has a young entry for it, or the store has an allowance that has not
    /// expired.
    pub open spec fn allows(&self, client_ip: Seq<char>, bound_port: u16, now: u64) -> bool {
        self.cached(client_ip, bound_port, now) || self.stored(client_ip, bound_port, now)
    }

    /// The cache's entries after a check at `now`: emptied first if that is
    /// due; then, unless a young entry was found, the source's entry is
    /// renewed where the store allows the source, and removed where not.
    pub open spec fn cache_after_check(&self, client_ip: Seq<char>, bound_port: u16, now: u64) -> CacheMap {
        let key = allowance_key(client_ip, bound_port);
        let swept = if cleanup_due(self.cache().last_cleanup(), now) {
            CacheMap::empty()
        } else {
            self.cache().entries()
        };
        if self.cached(client_ip, bound_port, now) {
            swept
        } else if self.stored(client_ip, bound_port, now) {
            swept.insert(key, ((), now))
        } else {
            swept.remove(key)
        }
    }

    /// When the cache was last emptied, after a check at `now`.
    pub open spec fn cleanup_after_check(&self, now: u64) -> u64 {
        if cleanup_due(self.cache().last_cleanup(), now) {
            now
        } else {
            self.cache().last_cleanup()
        }
    }

    /// The store's allowances after a check at `now`: as they were where
    /// the cache answered, and without the expired ones where the store was
    /// read.
    pub open spec fn allowances_after_check(
        &self,
        client_ip: Seq<char>,
        bound_port: u16,
        now: u64,
    ) -> Map<Seq<char>, ((), u64)> {
        if self.cached(client_ip, bound_port, now) {
            self.store().allowances()
        } else {
            live(self.store().allowances(), now, self.store().allowance_timeout())
        }
    }

    /// Tells whether `client_ip` is allowed on `bound_port` at `now`: the
    /// cache has a young entry for it, or the store has an allowance that
    /// has not expired. A source that the store allows is entered in the
    /// cache.
    pub fn check(&mut self, client_ip: &str, bound_port: u16, now: u64) -> (allowed: bool)
        requires
            old(self).wf(),
        ensures
            final(self).wf(),
            final(self).target_quads() == old(self).target_quads(),
            allowed == old(self).allows(client_ip@, bound_port, now),
            final(self).cache().entries() == old(self).cache_after_check(
                client_ip@,
                bound_port,
                now,
            ),
            final(self).cache().last_cleanup() == old(self).cleanup_after_check(now),
            final(self).store().allowances() == old(self).allowances_after_check(
                client_ip@,
                bound_port,
                now,
            ),
            final(self).store().challenges() == old(self).store().challenges(),
            final(self).store().pending() == old(self).store().pending(),
            final(self).store().seq() == old(self).store().seq(),
            final(self).store().challenge_timeout() == old(self).store().challenge_timeout(),
            final(self).store().allowance_timeout() == old(self).store().allowance_timeout(),
    {
        self.cache.check_cleanup(now);
        let key = make_allowance_key(client_ip, bound_port);
        let ttl = cache_ttl(self.store.allowance_ttl());
        if self.cache.get_allowed(key.as_str(), ttl, now) {
            return true;
        }
        let stored = self.store.allowance_contains(client_ip, bound_port, now);
        if stored {
            self.cache.add_allowed(key.as_str(), now);
            proof {
                let swept = if cleanup_due(old(self).cache().last_cleanup(), now) {
                    CacheMap::empty()
                } else {
                    old(self).cache().entries()
                };
                assert(swept.remove(key@).insert(key@, ((), now)) =~= swept.insert(
                    key@,
                    ((), now),
                ));
            }
        }
        stored
    }

    /// Takes the challenge under `id` that was stored with `factors_digest`,
    /// if there is one that has not expired, and grants the allowance to
    /// `client_ip` on the challenge's port if the challenge was issued to
    /// that address. A challenge that is found is used up either way.
    pub fn redeem(&mut self, client_ip: &str, id: &str, factors_digest: &str, now: u64) -> (r:
        Result<u16, Error>)
        requires
            old(self).wf(),
        ensures
            final(self).wf(),
            final(self).target_quads() == old(self).target_quads(),
            final(self).cache() == old(self).cache(),
            final(self).store().pending() == old(self).store().pending(),
            final(self).store().seq() == old(self).store().seq(),
            final(self).store().challenge_timeout() == old(self).store().challenge_timeout(),
            final(self).store().allowance_timeout() == old(self).store().allowance_timeout(),
            final(self).store().challenges() == after_take(
                old(self).store().challenges(),
                id@,
                factors_digest@,
                now,
                old(self).store().challenge_timeout(),
            ),
            ({
                let timeout = old(self).store().challenge_timeout();
                let found = live(old(self).store().challenges(), now, timeout)[id@].0;
                let granted = take_hits(
                    old(self).store().challenges(),
                    id@,
                    factors_digest@,
                    now,
                    timeout,
                ) && found.client_ip == client_ip@;
                &&& r is Ok <==> granted
                &&& r matches Ok(port) ==> port == found.bound_port
                &&& r matches Err(e) ==> e == Error::Rejected
                &&& final(self).store().allowances() == if granted {
                    old(self).store().allowances().insert(
                        allowance_key(client_ip@, found.bound_port),
                        ((), now),
                    )
                } else {
                    old(self).store().allowances()
                }
            }),
    {
        match self.store.challenge_take(id, factors_digest, now) {
            Some(who) => {
                let claimed = client_ip.to_owned();
                if who.0 == claimed {
                    self.store.allowance_insert(client_ip, who.1, now);
                    Ok(who.1)
                } else {
                    Err(Error::Rejected)
                }
            },
            None => Err(Error::Rejected),
        }
    }

    /// Judges a posted answer: `factors` must be a legal answer, and its
    /// digest must be the one that the challenge under `id` was stored with.
    /// Then the allowance is granted as `redeem` says.
    pub fn verify(&mut self, client_ip: &str, id: &str, factors: &str, now: u64) -> (r: Result<
        u16,
        Error,
    >)
        requires
            old(self).wf(),
        ensures
            final(self).wf(),
            final(self).target_quads() == old(self).target_quads(),
            final(self).cache() == old(self).cache(),
            final(self).store().pending() == old(self).store().pending(),
            final(self).store().seq() == old(self).store().seq(),
            final(self).store().challenge_timeout() == old(self).store().challenge_timeout(),
            final(self).store().allowance_timeout() == old(self).store().allowance_timeout(),
            ({
                let timeout = old(self).store().challenge_timeout();
                let digest = answer_digest(factors@);
                let found = live(old(self).store().challenges(), now, timeout)[id@].0;
                let granted = is_valid_answer(factors@) && take_hits(
                    old(self).store().challenges(),
                    id@,
                    digest,
                    now,
                    timeout,
                ) && found.client_ip == client_ip@;
                &&& r is Ok <==> granted
                &&& r matches Ok(port) ==> port == found.bound_port
                &&& r matches Err(e) ==> e == if is_valid_answer(factors@) {
                    Error::Rejected
                } else {
                    Error::InvalidFormat
                }
                &&& final(self).store().challenges() == if is_valid_answer(factors@) {
                    after_take(old(self).store().challenges(), id@, digest, now, timeout)
                } else {
                    old(self).store().challenges()
                }
                &&& final(self).store().allowances() == if granted {
                    old(self).store().allowances().insert(
                        allowance_key(client_ip@, found.bound_port),
                        ((), now),
                    )
                } else {
                    old(self).store().allowances()
                }
            }),
    {
        match validate_client_response(factors) {
            Ok(_) => {},
            Err(e) => {
                return Err(e);
            },
        }
        let digest = digest_hex(factors.as_bytes());
        self.redeem(client_ip, id, digest.as_str(), now)
    }

    /// Notes a pending dispatch for `bound_port` under the identifier that
    /// `seq` and the drawn bytes `entropy` give. The pending dispatches that
    /// have expired at `now` are removed first; where the identifier is
    /// still taken after that, nothing is noted and the result is
    /// `DuplicateId`.
    pub fn pending_for_draw(&mut self, seq: u32, entropy: &Vec<u8>, bound_port: u16, now: u64) -> (r:
        Result<String, Error>)
        requires
            old(self).wf(),
        ensures
            final(self).wf(),
            final(self).target_quads() == old(self).target_quads(),
            final(self).cache() == old(self).cache(),
            final(self).store().challenges() == old(self).store().challenges(),
            final(self).store().allowances() == old(self).store().allowances(),
            final(self).store().seq() == old(self).store().seq(),
            final(self).store().challenge_timeout() == old(self).store().challenge_timeout(),
            final(self).store().allowance_timeout() == old(self).store().allowance_timeout(),
            is_digest_text(minted_id(seq, entropy@)),
            ({
                let kept = live(
                    old(self).store().pending(),
                    now,
                    old(self).store().challenge_timeout(),
                );
                let id = minted_id(seq, entropy@);
                match r {
                    Ok(text) => text@ == id && !kept.contains_key(id)
                        && final(self).store().pending() == kept.insert(id, (bound_port, now)),
                    Err(e) => e == Error::DuplicateId && kept.contains_key(id)
                        && final(self).store().pending() == kept,
                }
            }),
    {
        let id = make_id(id_salt(), seq, entropy);
        match self.store.pending_dispatch_insert(id.as_str(), bound_port, now) {
            Ok(_) => Ok(id),
            Err(e) => Err(e),
        }
    }

    /// Stores a challenge for `client_ip` on `bound_port`, with the digest
    /// `factors_digest` of its answer, under the identifier that `seq` and
    /// the drawn bytes `entropy` give. Where the identifier is taken,
    /// nothing is stored and the result is `DuplicateId`.
    pub fn challenge_for_draw(
        &mut self,
        seq: u32,
        entropy: &Vec<u8>,
        client_ip: &str,
        bound_port: u16,
        factors_digest: &str,
        now: u64,
    ) -> (r: Result<String, Error>)
        requires
            old(self).wf(),
        ensures
            final(self).wf(),
            final(self).target_quads() == old(self).target_quads(),
            final(self).cache() == old(self).cache(),
            final(self).store().pending() == old(self).store().pending(),
            final(self).store().allowances() == old(self).store().allowances(),
            final(self).store().seq() == old(self).store().seq(),
            final(self).store().challenge_timeout() == old(self).store().challenge_timeout(),
            final(self).store().allowance_timeout() == old(self).store().allowance_timeout(),
            is_digest_text(minted_id(seq, entropy@)),
            ({
                let id = minted_id(seq, entropy@);
                let before = old(self).store().challenges();
                match r {
                    Ok(text) => text@ == id && !before.contains_key(id)
                        && final(self).store().challenges() == before.insert(
                        id,
                        (
                            (ChallengeView {
                                client_ip: client_ip@,
                                bound_port,
                                factors_digest: factors_digest@,
                            }),
                            now,
                        ),
                    ),
                    Err(e) => e == Error::DuplicateId && before.contains_key(id)
                        && final(self).store().challenges() == before,
                }
            }),
    {
        let id = make_id(id_salt(), seq, entropy);
        match self.store.challenge_insert(id.as_str(), client_ip, bound_port, factors_digest, now) {
            Ok(_) => Ok(id),
            Err(e) => Err(e),
        }
    }

    /// The identifiers that are taken where one is minted for `what` at
    /// `now`: those of the pending dispatches that have not expired, or
    /// those of the stored challenges.
    pub open spec fn taken_ids(&self, what: Minting, now: u64) -> Set<Seq<char>> {
        match what {
            Minting::Pending { .. } => live(
                self.store().pending(),
                now,
                self.store().challenge_timeout(),
            ).dom(),
            Minting::Challenge { .. } => self.store().challenges().dom(),
        }
    }

    /// Draws up to `ID_ATTEMPTS` times and enters `what` under the first
    /// identifier that `seq` and the drawn bytes give and that is not
    /// taken. For a pending dispatch, those that have expired at `now` are
    /// removed first. The result is `Entropy` where a draw fails, and
    /// `IdsExhausted` where every identifier that was drawn is taken.
    pub fn mint(&mut self, seq: u32, what: &Minting, now: u64) -> (r: Result<String, Error>)
        requires
            old(self).wf(),
        ensures
            final(self).wf(),
            final(self).target_quads() == old(self).target_quads(),
            final(self).cache() == old(self).cache(),
            final(self).store().allowances() == old(self).store().allowances(),
            final(self).store().seq() == old(self).store().seq(),
            final(self).store().challenge_timeout() == old(self).store().challenge_timeout(),
            final(self).store().allowance_timeout() == old(self).store().allowance_timeout(),
            r matches Ok(id) ==> is_digest_text(id@) && is_minted_id(id@, seq)
                && !old(self).taken_ids(*what, now).contains(id@),
            r matches Err(e) ==> (e == Error::Entropy || e == Error::IdsExhausted) && (e
                == Error::IdsExhausted ==> every_draw_taken(seq, old(self).taken_ids(*what, now))),
            ({
                let kept = live(
                    old(self).store().pending(),
                    now,
                    old(self).store().challenge_timeout(),
                );
                let stored = old(self).store().challenges();
                match *what {
                    Minting::Pending { bound_port } => final(self).store().challenges() == stored
                        && final(self).store().pending() == match r {
                        Ok(id) => kept.insert(id@, (bound_port, now)),
                        Err(_) => kept,
                    },
                    Minting::Challenge { client_ip, bound_port, factors_digest } =>
                        final(self).store().pending() == old(self).store().pending()
                        && final(self).store().challenges() == match r {
                        Ok(id) => stored.insert(
                            id@,
                            (
                                (ChallengeView {
                                    client_ip: client_ip@,
                                    bound_port,
                                    factors_digest: factors_digest@,
                                }),
                                now,
                            ),
                        ),
                        Err(_) => stored,
                    },
                }
            }),
    {
        match what {
            Minting::Pending { .. } => {
                self.store.pending_dispatch_sweep(now);
            },
            Minting::Challenge { .. } => {},
        }
        let ghost taken = old(self).taken_ids(*what, now);
        let ghost waiting = self.store().pending();
        let ghost mut tried: Seq<Seq<char>> = Seq::empty();
        let mut attempt: usize = 0;
        while attempt < ID_ATTEMPTS
            invariant
                self.wf(),
                attempt <= ID_ATTEMPTS,
                taken == old(self).taken_ids(*what, now),
                waiting == (match *what {
                    Minting::Pending { .. } => live(
                        old(self).store().pending(),
                        now,
                        old(self).store().challenge_timeout(),
                    ),
                    Minting::Challenge { .. } => old(self).store().pending(),
                }),
                self.store().pending() == waiting,
                self.store().challenges() == old(self).store().challenges(),
                self.target_quads() == old(self).target_quads(),
                self.cache() == old(self).cache(),
                self.store().allowances() == old(self).store().allowances(),
                self.store().seq() == old(self).store().seq(),
                self.store().challenge_timeout() == old(self).store().challenge_timeout(),
                self.store().allowance_timeout() == old(self).store().allowance_timeout(),
                tried.len() == attempt,
                forall|k: int|
                    0 <= k < tried.len() ==> is_minted_id(#[trigger] tried[k], seq)
                        && taken.contains(tried[k]),
            decreases ID_ATTEMPTS - attempt,
        {
            let entropy = match random_bytes(ID_ENTROPY) {
                Some(bytes) => bytes,
                None => {
                    return Err(Error::Entropy);
                },
            };
            proof {
                lemma_live_twice(
                    old(self).store().pending(),
                    now,
                    now,
                    old(self).store().challenge_timeout(),
                );
                assert(is_minted_id(minted_id(seq, entropy@), seq));
            }
            let entered = match what {
                Minting::Pending { bound_port } => self.pending_for_draw(
                    seq,
                    &entropy,
                    *bound_port,
                    now,
                ),
                Minting::Challenge { client_ip, bound_port, factors_digest } => self.challenge_for_draw(
                    seq,
                    &entropy,
                    client_ip,
                    *bound_port,
                    factors_digest,
                    now,
                ),
            };
            match entered {
                Ok(id) => {
                    return Ok(id);
                },
                Err(_) => {},
            }
            proof {
                tried = tried.push(minted_id(seq, entropy@));
            }
            attempt = attempt + 1;
        }
        proof {
            assert(tried.len() == ID_ATTEMPTS);
        }
        Err(Error::IdsExhausted)
    }

    /// Mints the identifier that a challenge page carries, and notes the
    /// port that the page is served from: moves the sequence counter on and
    /// mints for a pending dispatch, as `mint` says.
    pub fn issue_pending(&mut self, bound_port: u16, now: u64) -> (r: Result<String, Error>)
        requires
            old(self).wf(),
        ensures
            final(self).wf(),
            final(self).target_quads() == old(self).target_quads(),
            final(self).cache() == old(self).cache(),
            final(self).store().challenges() == old(self).store().challenges(),
            final(self).store().allowances() == old(self).store().allowances(),
            final(self).store().seq() == seq_successor(old(self).store().seq()),
            final(self).store().challenge_timeout() == old(self).store().challenge_timeout(),
            final(self).store().allowance_timeout() == old(self).store().allowance_timeout(),
            ({
                let kept = live(
                    old(self).store().pending(),
                    now,
                    old(self).store().challenge_timeout(),
                );
                match r {
                    Ok(id) => is_digest_text(id@) && is_minted_id(id@, old(self).store().seq())
                        && !kept.contains_key(id@)
                        && final(self).store().pending() == kept.insert(id@, (bound_port, now)),
                    Err(e) => (e == Error::Entropy || e == Error::IdsExhausted)
                        && final(self).store().pending() == kept
                        && (e == Error::IdsExhausted ==> every_draw_taken(
                        old(self).store().seq(),
                        kept.dom(),
                    )),
                }
            }),
    {
        let seq = self.store.next_seq();
        self.mint(seq, &Minting::Pending { bound_port }, now)
    }

    /// Stores a challenge whose answer is `factors` for `client_ip` on
    /// `bound_port`, under a freshly minted identifier, and returns the
    /// identifier: moves the sequence counter on and mints for a challenge
    /// with the digest of `factors`, as `mint` says.
    pub fn store_challenge(&mut self, client_ip: &str, bound_port: u16, factors: &str, now: u64) -> (r:
        Result<String, Error>)
        requires
            old(self).wf(),
        ensures
            final(self).wf(),
            final(self).target_quads() == old(self).target_quads(),
            final(self).cache() == old(self).cache(),
            final(self).store().pending() == old(self).store().pending(),
            final(self).store().allowances() == old(self).store().allowances(),
            final(self).store().seq() == seq_successor(old(self).store().seq()),
            final(self).store().challenge_timeout() == old(self).store().challenge_timeout(),
            final(self).store().allowance_timeout() == old(self).store().allowance_timeout(),
            match r {
                Ok(id) => is_digest_text(id@)
                    && is_minted_id(id@, old(self).store().seq())
                    && !old(self).store().challenges().contains_key(id@)
                    && final(self).store().challenges() == old(self).store().challenges().insert(
                    id@,
                    (
                        (ChallengeView {
                            client_ip: client_ip@,
                            bound_port,
                            factors_digest: answer_digest(factors@),
                        }),
                        now,
                    ),
                ),
                Err(e) => (e == Error::Entropy || e == Error::IdsExhausted)
                    && final(self).store().challenges() == old(self).store().challenges()
                    && (e == Error::IdsExhausted ==> every_draw_taken(
                    old(self).store().seq(),
                    old(self).store().challenges().dom(),
                )),
            },
    {
        let seq = self.store.next_seq();
        let digest = digest_hex(factors.as_bytes());
        self.mint(
            seq,
            &Minting::Challenge { client_ip, bound_port, factors_digest: digest.as_str() },
            now,
        )
    }

    /// Uses up the pending dispatch under `pending_id` and returns the port
    /// that its page was served from; `UnknownDispatch` where there is none
    /// that has not expired.
    pub fn take_pending(&mut self, pending_id: &str, now: u64) -> (r: Result<u16, Error>)
        requires
            old(self).wf(),
        ensures
            final(self).wf(),
            final(self).target_quads() == old(self).target_quads(),
            final(self).cache() == old(self).cache(),
            final(self).store().challenges() == old(self).store().challenges(),
            final(self).store().allowances() == old(self).store().allowances(),
            final(self).store().seq() == old(self).store().seq(),
            final(self).store().challenge_timeout() == old(self).store().challenge_timeout(),
            final(self).store().allowance_timeout() == old(self).store().allowance_timeout(),
            ({
                let kept = live(
                    old(self).store().pending(),
                    now,
                    old(self).store().challenge_timeout(),
                );
                &&& final(self).store().pending() == kept.remove(pending_id@)
                &&& match r {
                    Ok(port) => kept.contains_key(pending_id@) && kept[pending_id@].0 == port,
                    Err(e) => e == Error::UnknownDispatch && !kept.contains_key(pending_id@),
                }
            }),
    {
        match self.store.pending_dispatch_take(pending_id, now) {
            Some(port) => Ok(port),
            None => {
                proof {
                    let kept = live(
                        old(self).store().pending(),
                        now,
                        old(self).store().challenge_timeout(),
                    );
                    assert(kept.remove(pending_id@) =~= kept);
                }
                Err(Error::UnknownDispatch)
            },
        }
    }

    /// The size of the challenges that the service issues.
    pub fn challenge_size(&self) -> (quads: u64)
        ensures
            quads == self.target_quads(),
    {
        self.target_quads
    }

    /// Answers a worker request: uses up the pending dispatch under
    /// `pending_id`, generates a challenge, stores it for `client_ip` on the
    /// port of the dispatch, and returns the challenge's wire form and its
    /// identifier. The answer itself stays with the service. The sequence
    /// counter moves on once the challenge is generated, so it stands still
    /// where the dispatch is unknown or the generation fails.
    pub fn issue_challenge(&mut self, pending_id: &str, client_ip: &str, now: u64) -> (r: Result<
        (String, String),
        Error,
    >)
        requires
            old(self).wf(),
        ensures
            final(self).wf(),
            final(self).target_quads() == old(self).target_quads(),
            final(self).cache() == old(self).cache(),
            final(self).store().allowances() == old(self).store().allowances(),
            final(self).store().challenge_timeout() == old(self).store().challenge_timeout(),
            final(self).store().allowance_timeout() == old(self).store().allowance_timeout(),
            ({
                let kept = live(
                    old(self).store().pending(),
                    now,
                    old(self).store().challenge_timeout(),
                );
                &&& final(self).store().pending() == kept.remove(pending_id@)
                &&& !kept.contains_key(pending_id@) ==> r == Err::<(String, String), Error>(
                    Error::UnknownDispatch,
                ) && final(self).store().challenges() == old(self).store().challenges()
                    && final(self).store().seq() == old(self).store().seq()
                &&& kept.contains_key(pending_id@) ==> final(self).store().seq()
                    == old(self).store().seq()
                    || final(self).store().seq() == seq_successor(old(self).store().seq())
                &&& r is Ok || r == Err::<(String, String), Error>(Error::IdsExhausted)
                    ==> final(self).store().seq() == seq_successor(old(self).store().seq())
                &&& r == Err::<(String, String), Error>(Error::IdsExhausted) ==> every_draw_taken(
                    old(self).store().seq(),
                    old(self).store().challenges().dom(),
                )
                &&& r matches Ok(c) ==> kept.contains_key(pending_id@)
                    && c.0@.len() >= 4 * old(self).target_quads()
                    && is_digest_text(c.1@)
                    && is_minted_id(c.1@, old(self).store().seq())
                    && !old(self).store().challenges().contains_key(c.1@)
                    && exists|factors: Seq<char>|
                    is_challenge(c.0@, factors)
                        && final(self).store().challenges() == old(self).store().challenges().insert(
                        c.1@,
                        (
                            (ChallengeView {
                                client_ip: client_ip@,
                                bound_port: kept[pending_id@].0,
                                factors_digest: answer_digest(factors),
                            }),
                            now,
                        ),
                    )
                &&& r matches Err(e) ==> (e == Error::UnknownDispatch || e == Error::Entropy || e
                    == Error::IdsExhausted) && (e == Error::UnknownDispatch
                    <==> !kept.contains_key(pending_id@)) && final(self).store().challenges()
                    == old(self).store().challenges()
            }),
    {
        let port = match self.take_pending(pending_id, now) {
            Ok(port) => port,
            Err(e) => {
                return Err(e);
            },
        };
        let challenge = match generate_value_and_factors_strings(self.target_quads) {
            Ok(challenge) => challenge,
            Err(e) => {
                return Err(e);
            },
        };
        let ghost before = self.store().challenges();
        match self.store_challenge(client_ip, port, challenge.1.as_str(), now) {
            Ok(id) => {
                proof {
                    let factors = challenge.1@;
                    assert(before == old(self).store().challenges());
                    assert(is_challenge(challenge.0@, factors) && self.store().challenges()
                        == before.insert(
                        id@,
                        (
                            (ChallengeView {
                                client_ip: client_ip@,
                                bound_port: port,
                                factors_digest: answer_digest(factors),
                            }),
                            now,
                        ),
                    ));
                }
                Ok((challenge.0, id))
            },
            Err(e) => Err(e),
        }
    }

    /// Decides on a request from `client_ip` that came in on `bound_port`:
    /// a request from an allowed source is forwarded; any other is answered
    /// with the challenge page, which carries a freshly minted identifier
    /// that is noted with the port.
    pub fn decide(
        &mut self,
        args: &Args,
        client_ip: &str,
        bound_port: u16,
        override_url: Option<&str>,
        path_and_query: &str,
        page_template: &str,
        now: u64,
    ) -> (d: Decision)
        requires
            old(self).wf(),
        ensures
            final(self).wf(),
            final(self).target_quads() == old(self).target_quads(),
            final(self).store().challenges() == old(self).store().challenges(),
            final(self).store().challenge_timeout() == old(self).store().challenge_timeout(),
            final(self).store().allowance_timeout() == old(self).store().allowance_timeout(),
            d is Forward <==> old(self).allows(client_ip@, bound_port, now),
            final(self).cache().entries() == old(self).cache_after_check(
                client_ip@,
                bound_port,
                now,
            ),
            final(self).cache().last_cleanup() == old(self).cleanup_after_check(now),
            final(self).store().allowances() == old(self).allowances_after_check(
                client_ip@,
                bound_port,
                now,
            ),
            d matches Decision::Forward(plan) ==> {
                &&& plan.url@ == upstream_for(args@, bound_port, text_of(override_url))
                    + path_and_query@
                &&& plan.headers@.map_values(|h: Header| h@) == added_headers(
                    args@.enable_x_real_ip_header,
                    client_ip@,
                )
                &&& final(self).store().pending() == old(self).store().pending()
                &&& final(self).store().seq() == old(self).store().seq()
            },
            !(d is Forward) ==> {
                let kept = live(
                    old(self).store().pending(),
                    now,
                    old(self).store().challenge_timeout(),
                );
                &&& final(self).store().seq() == seq_successor(old(self).store().seq())
                &&& match d {
                    Decision::Challenge(html) => exists|id: Seq<char>|
                        is_digest_text(id) && is_minted_id(id, old(self).store().seq())
                            && !kept.contains_key(id)
                            && #[trigger] html_page(page_template@, args@.js_factors_url, id)
                            == html@ && final(self).store().pending() == kept.insert(
                            id,
                            (bound_port, now),
                        ),
                    Decision::Unavailable(e) => (e == Error::Entropy || e == Error::IdsExhausted)
                        && final(self).store().pending() == kept && (e == Error::IdsExhausted
                        ==> every_draw_taken(old(self).store().seq(), kept.dom())),
                    Decision::Forward(_) => false,
                }
            },
    {
        if self.check(client_ip, bound_port, now) {
            return Decision::Forward(
                plan_forward(args, bound_port, override_url, path_and_query, client_ip),
            );
        }
        match self.issue_pending(bound_port, now) {
            Ok(id) => {
                let html = render_html(page_template, args.js_factors_url.as_str(), id.as_str());
                proof {
                    assert(html_page(page_template@, args@.js_factors_url, id@) == html@);
                }
                Decision::Challenge(html)
            },
            Err(e) => Decision::Unavailable(e),
        }
    }
}

} // verus!
