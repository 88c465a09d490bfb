//! Anti-replay bookkeeping for feedback tokens.
//!
//! A token carries a random key id and is valid inside a time window:
//! not before a short delay after issue, and not after twelve hours.  A
//! used key id is remembered until its window has passed, so that a
//! token cannot be redeemed twice.

use vstd::prelude::*;

verus! {

/// A token may not be used this many seconds after issue.
pub const TOKEN_MIN_AGE: usize = 5;

/// A token expires this many seconds after issue.
pub const TOKEN_MAX_AGE: usize = 3600 * 12;

/// The claims of one issued token.
#[derive(Clone, Copy, PartialEq, Eq, Structural, Debug)]
pub struct Claims {
    /// Expiration time, as a UTC timestamp.
    pub exp: usize,
    /// Issued at, as a UTC timestamp.
    pub iat: usize,
    /// Not before, as a UTC timestamp.
    pub nbf: usize,
    /// Random key id, the anti-replay handle.
    pub kid: u64,
}

/// Relies on chrono's clock: the current time as non-leap seconds since
/// the Unix epoch, cast as the surrounding code stores it.  Nothing is
/// assumed of the clock's value.
#[verifier::external_body]
fn current_unix_timestamp() -> usize {
    chrono::Utc::now().timestamp() as usize
}

pub assume_specification<T>[ rand::random::<T> ]() -> (r: T)
    where
        rand::distributions::Standard: rand::distributions::Distribution<T>,
;

impl Claims {
    /// The claims windows are consistent: not-before follows issue by the
    /// short delay, expiry by the full token age.
    pub open spec fn wf(&self) -> bool {
        &&& self.exp == self.iat + TOKEN_MAX_AGE
        &&& self.nbf == self.iat + TOKEN_MIN_AGE
    }

    /// Fresh claims: issued now, usable after the short delay, expiring
    /// after the full token age, under a random key id.
    pub fn new() -> (c: Claims)
        ensures
            c.wf(),
    {
        let now = current_unix_timestamp();
        let bound: usize = usize::MAX - TOKEN_MAX_AGE;
        let iat: usize = if now <= bound {
            now
        } else {
            bound
        };
        Claims { exp: iat + TOKEN_MAX_AGE, iat, nbf: iat + TOKEN_MIN_AGE, kid: rand::random() }
    }
}

/// One remembered token use.
#[derive(Clone, Copy, PartialEq, Eq, Structural, Debug)]
pub struct TokenRecord {
    /// The random key id of the used token.
    pub kid: u64,
    /// When this record stops mattering for replay checks.
    pub next_reset: usize,
}

/// The records still relevant at `now`, in order.
pub open spec fn live_tokens(ts: Seq<TokenRecord>, now: usize) -> Seq<TokenRecord>
    decreases ts,
{
    if ts.len() == 0 {
        Seq::empty()
    } else {
        let rest = live_tokens(ts.drop_first(), now);
        if ts[0].next_reset > now {
            seq![ts[0]] + rest
        } else {
            rest
        }
    }
}

/// Whether some record carries the key id.
pub open spec fn has_kid(ts: Seq<TokenRecord>, kid: u64) -> bool {
    exists|i: int| 0 <= i < ts.len() && ts[i].kid == kid
}

/// Drop the records whose window has passed; order preserved.
pub fn prune_expired(tokens: &mut Vec<TokenRecord>, now: usize)
    ensures
        final(tokens)@ == live_tokens(old(tokens)@, now),
{
    let ghost ts = tokens@;
    let mut kept: Vec<TokenRecord> = Vec::new();
    let mut j: usize = 0;
    proof {
        assert(ts.skip(0) =~= ts);
        assert(Seq::<TokenRecord>::empty() + live_tokens(ts, now) =~= live_tokens(ts, now));
    }
    while j < tokens.len()
        invariant
            j <= tokens@.len(),
            tokens@ == ts,
            live_tokens(ts, now) == kept@ + live_tokens(ts.skip(j as int), now),
        decreases tokens@.len() - j,
    {
        proof {
            assert(ts.skip(j as int)[0] == ts[j as int]);
            assert(ts.skip(j as int).drop_first() =~= ts.skip(j as int + 1));
        }
        let ghost kept_pre = kept@;
        let t = tokens[j];
        if t.next_reset > now {
            kept.push(t);
            proof {
                assert(kept_pre + (seq![ts[j as int]] + live_tokens(ts.skip(j as int + 1), now))
                    =~= kept@ + live_tokens(ts.skip(j as int + 1), now));
            }
        }
        j += 1;
    }
    proof {
        assert(ts.skip(ts.len() as int) =~= Seq::<TokenRecord>::empty());
        assert(live_tokens(Seq::empty(), now) =~= Seq::<TokenRecord>::empty());
        assert(kept@ + Seq::<TokenRecord>::empty() =~= kept@);
    }
    *tokens = kept;
}

/// Redeem a token's key id at time `now`: expired records are dropped,
/// and the key id is accepted and remembered only if it is not already
/// remembered.  Returns whether the token was fresh.
pub fn register_token(tokens: &mut Vec<TokenRecord>, kid: u64, now: usize) -> (fresh: bool)
    requires
        now + TOKEN_MAX_AGE <= usize::MAX,
    ensures
        ({
            let pruned = live_tokens(old(tokens)@, now);
            if has_kid(pruned, kid) {
                !fresh && final(tokens)@ == pruned
            } else {
                fresh && final(tokens)@ == pruned.push(
                    TokenRecord { kid, next_reset: (now + TOKEN_MAX_AGE) as usize },
                )
            }
        }),
{
    prune_expired(tokens, now);
    let ghost pruned = tokens@;
    let mut j: usize = 0;
    while j < tokens.len()
        invariant
            j <= tokens@.len(),
            tokens@ == pruned,
            pruned == live_tokens(old(tokens)@, now),
            forall|i: int| 0 <= i < j ==> pruned[i].kid != kid,
        decreases tokens@.len() - j,
    {
        if tokens[j].kid == kid {
            return false;
        }
        j += 1;
    }
    tokens.push(TokenRecord { kid, next_reset: now + TOKEN_MAX_AGE });
    true
}

} // verus!
