//! Tokens that tie an announcement to an earlier query (BEP 5).
//!
//! A token is the first [`TOKEN_LEN`] bytes of the SHA-1 digest of an address and a secret. The
//! secret changes every [`SECRET_ROTATION_INTERVAL`] seconds; tokens made with the secret before
//! are still accepted.

use crate::bytes::same_bytes;
use crate::clock::{instant_now, nanos_between, nanos_since, NANOS_PER_SEC};
use crate::digest::{sha1_digest, sha1_of};
use crate::discoverers::dht::routing_table::{compact_of, CompactAddr};
use crate::net::SocketAddr;
use crate::random::random_bytes;
use std::time::Instant;
use vstd::prelude::*;

verus! {

/// The length of a token.
pub const TOKEN_LEN: usize = 8;

/// Seconds between two secrets.
pub const SECRET_ROTATION_INTERVAL: u64 = 300;

/// A token.
pub type Token = [u8; 8];

/// The token for an address under a secret.
pub open spec fn token_of(addr: CompactAddr, secret: [u8; 32]) -> Seq<u8> {
    sha1_of(addr.wire() + secret@).take(TOKEN_LEN as int)
}

/// Makes and checks tokens.
pub struct TokenManager {
    current_secret: [u8; 32],
    previous_secret: [u8; 32],
    /// When the secret last changed.
    pub last_rotation: Instant,
}

impl TokenManager {
    /// The secret that tokens are made with.
    pub closed spec fn current(&self) -> [u8; 32] {
        self.current_secret
    }

    /// The secret before, whose tokens are still accepted.
    pub closed spec fn previous(&self) -> [u8; 32] {
        self.previous_secret
    }

    /// When the secret last changed.
    pub closed spec fn rotated_at(&self) -> Instant {
        self.last_rotation
    }

    /// Whether a token is accepted for an address.
    pub open spec fn accepts(&self, addr: CompactAddr, token: Seq<u8>) -> bool {
        token == token_of(addr, self.current()) || token == token_of(addr, self.previous())
    }

    /// A manager with the given secrets.
    pub fn with_secrets(current: [u8; 32], previous: [u8; 32], now: Instant) -> (r: TokenManager)
        ensures
            r.current() == current,
            r.previous() == previous,
            r.rotated_at() == now,
    {
        TokenManager { current_secret: current, previous_secret: previous, last_rotation: now }
    }

    /// A manager with random secrets.
    pub fn new() -> TokenManager {
        let current: [u8; 32] = Self::generate_secret();
        let previous: [u8; 32] = Self::generate_secret();
        Self::with_secrets(current, previous, instant_now())
    }

    /// A random secret.
    pub(crate) fn generate_secret() -> [u8; 32] {
        let drawn: Vec<u8> = random_bytes(32);
        Self::secret_from(&drawn)
    }

    /// The secret made of the bytes that were drawn for it.
    pub fn secret_from(drawn: &Vec<u8>) -> (r: [u8; 32])
        requires
            drawn@.len() == 32,
        ensures
            r@ == drawn@,
    {
        let mut secret: [u8; 32] = [0u8; 32];
        let mut i: usize = 0;
        while i < 32
            invariant
                i <= 32,
                drawn@.len() == 32,
                forall|j: int| 0 <= j < i ==> #[trigger] secret@[j] == drawn@[j],
            decreases 32 - i,
        {
            secret[i] = drawn[i];
            i += 1;
        }
        assert(secret@ =~= drawn@);
        secret
    }

    /// Whether `after` is what becomes of this manager if it is looked at `elapsed` nanoseconds after
    /// the last change: with a `fresh` secret from `now` on if that is long enough, the same if not.
    pub open spec fn rotates_to(
        &self,
        after: TokenManager,
        elapsed: u64,
        fresh: [u8; 32],
        now: Instant,
    ) -> bool {
        if elapsed >= SECRET_ROTATION_INTERVAL * NANOS_PER_SEC {
            &&& after.previous() == self.current()
            &&& after.current() == fresh
            &&& after.rotated_at() == now
        } else {
            after == *self
        }
    }

    /// Changes the secret if `elapsed` nanoseconds since the last change are enough.
    pub fn rotate_if_due(&mut self, elapsed: u64, fresh: [u8; 32], now: Instant)
        ensures
            old(self).rotates_to(*final(self), elapsed, fresh, now),
    {
        if elapsed >= SECRET_ROTATION_INTERVAL * NANOS_PER_SEC {
            self.previous_secret = self.current_secret;
            self.current_secret = fresh;
            self.last_rotation = now;
        }
    }

    /// Changes the secret if it is due: if the last change lies long enough before now, which is when
    /// the new secret then counts from. To be called from time to time.
    pub fn maybe_rotate(&mut self)
        ensures
            exists|fresh: [u8; 32], now: Instant| #[trigger]
                old(self).rotates_to(
                    *final(self),
                    nanos_since(old(self).rotated_at(), now),
                    fresh,
                    now,
                ),
    {
        let now: Instant = instant_now();
        let fresh: [u8; 32] = Self::generate_secret();
        self.rotate_at(fresh, now);
    }

    /// Changes the secret to `fresh` if that is due at a point in time.
    pub fn rotate_at(&mut self, fresh: [u8; 32], now: Instant)
        ensures
            old(self).rotates_to(
                *final(self),
                nanos_since(old(self).rotated_at(), now),
                fresh,
                now,
            ),
    {
        let elapsed: u64 = nanos_between(&self.last_rotation, &now);
        self.rotate_if_due(elapsed, fresh, now);
    }

    /// The token for an address.
    pub fn generate(&self, addr: &CompactAddr) -> (r: Token)
        ensures
            r@ == token_of(*addr, self.current()),
    {
        self.generate_with_secret(addr, &self.current_secret)
    }

    /// The token for an address under a secret.
    fn generate_with_secret(&self, addr: &CompactAddr, secret: &[u8; 32]) -> (r: Token)
        ensures
            r@ == token_of(*addr, *secret),
    {
        let mut text: Vec<u8> = Vec::with_capacity(50);
        match addr {
            CompactAddr::V4(buf) => text.extend_from_slice(buf),
            CompactAddr::V6(buf) => text.extend_from_slice(buf),
        }
        text.extend_from_slice(secret);
        assert(text@ =~= addr.wire() + secret@);
        let digest: [u8; 20] = sha1_digest(text.as_slice());
        let token: Token = [
            digest[0],
            digest[1],
            digest[2],
            digest[3],
            digest[4],
            digest[5],
            digest[6],
            digest[7],
        ];
        assert(token@ =~= token_of(*addr, *secret)) by {
            assert(digest@ == sha1_of(addr.wire() + secret@));
        }
        token
    }

    /// Whether a token is accepted for an address.
    pub fn verify(&self, addr: &CompactAddr, token: &[u8]) -> (r: bool)
        ensures
            r == self.accepts(*addr, token@),
            token@.len() != TOKEN_LEN ==> !r,
    {
        let current: Token = self.generate_with_secret(addr, &self.current_secret);
        let previous: Token = self.generate_with_secret(addr, &self.previous_secret);
        if token.len() != TOKEN_LEN {
            assert(current@.len() == 8 && previous@.len() == 8);
            return false;
        }
        same_bytes(token, current.as_slice()) || same_bytes(token, previous.as_slice())
    }

    /// The token for a socket address.
    pub fn generate_for_socket(&self, addr: &SocketAddr) -> (r: Token)
        ensures
            r@ == token_of(compact_of(*addr), self.current()),
    {
        let compact: CompactAddr = CompactAddr::from_socket(addr);
        self.generate(&compact)
    }

    /// Whether a token is accepted for a socket address.
    pub fn verify_socket(&self, addr: &SocketAddr, token: &[u8]) -> (r: bool)
        ensures
            r == self.accepts(compact_of(*addr), token@),
    {
        let compact: CompactAddr = CompactAddr::from_socket(addr);
        self.verify(&compact, token)
    }
}

impl Default for TokenManager {
    fn default() -> TokenManager {
        TokenManager::new()
    }
}

/// A token that a manager makes is accepted by it.
pub proof fn law_own_token_is_accepted(manager: TokenManager, addr: CompactAddr)
    ensures
        manager.accepts(addr, token_of(addr, manager.current())),
{
}

/// A token made before a change of the secret is accepted after it.
pub proof fn law_token_survives_one_rotation(
    before: TokenManager,
    after: TokenManager,
    addr: CompactAddr,
)
    requires
        after.previous() == before.current(),
    ensures
        after.accepts(addr, token_of(addr, before.current())),
{
}

/// After two changes of the secret a token made before them is accepted only if one of the two new
/// secrets happens to give the same token.
pub proof fn law_two_rotations_retire_a_token(
    before: TokenManager,
    between: TokenManager,
    after: TokenManager,
    addr: CompactAddr,
)
    requires
        between.previous() == before.current(),
        after.previous() == between.current(),
    ensures
        after.accepts(addr, token_of(addr, before.current())) <==> (token_of(addr, before.current())
            == token_of(addr, between.current()) || token_of(addr, before.current()) == token_of(
            addr,
            after.current(),
        )),
{
}

/// The secret changes when five minutes have passed since it last did, and the one before stays good; it
/// does not change earlier.
pub proof fn law_when_the_secret_changes(
    before: TokenManager,
    after: TokenManager,
    elapsed: u64,
    fresh: [u8; 32],
    now: Instant,
)
    requires
        before.rotates_to(after, elapsed, fresh, now),
    ensures
        elapsed < 300_000_000_000 ==> after == before,
        elapsed >= 300_000_000_000 ==> after.current() == fresh && after.previous()
            == before.current() && after.rotated_at() == now,
{
}

/// A token is the first eight bytes of the SHA-1 digest of the address and the secret; no other is
/// accepted but those of the present secret and of the one before.
pub proof fn law_which_tokens_are_accepted(manager: TokenManager, addr: CompactAddr, token: Seq<u8>)
    ensures
        manager.accepts(addr, token) <==> token == sha1_of(addr.wire() + manager.current()@).take(8)
            || token == sha1_of(addr.wire() + manager.previous()@).take(8),
{
}

} // verus!
