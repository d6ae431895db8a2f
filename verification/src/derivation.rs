//! Deterministic derivation of account addresses and action identifiers.
//!
//! Nothing here draws on time or randomness: an address is a mixing fold
//! over the canonical signatory sequence plus a creation counter, and an
//! action identifier combines the owning account's insertion counter, its
//! address, and a digest of the payload.  Replaying the same request in the
//! same registry state therefore derives the same values, which keeps
//! creation auditable; distinct requests are told apart by the counters.

use vstd::prelude::*;
use crate::types::CallId;

verus! {

/// Starting state of the address mixing fold.
pub const ADDRESS_SEED: u64 = 0x9e3779b97f4a7c15;

/// Starting state of the payload digest fold.
pub const PAYLOAD_SEED: u64 = 0x243f6a8885a308d3;

/// One step of the mixing fold: rotate the accumulator and fold in `x`.
pub open spec fn mix_step(acc: u64, x: u64) -> u64 {
    ((acc << 7u64) | (acc >> 57u64)) ^ x
}

fn mix_step_exec(acc: u64, x: u64) -> (r: u64)
    ensures
        r == mix_step(acc, x),
{
    ((acc << 7u64) | (acc >> 57u64)) ^ x
}

/// The mixing fold over a sequence of words.
pub open spec fn fold_words(s: Seq<u64>, acc: u64) -> u64
    decreases s.len(),
{
    if s.len() == 0 {
        acc
    } else {
        mix_step(fold_words(s.drop_last(), acc), s.last())
    }
}

/// The digest fold over the payload bytes.
pub open spec fn fold_bytes(s: Seq<u8>, acc: u64) -> u64
    decreases s.len(),
{
    if s.len() == 0 {
        acc
    } else {
        mix_step(fold_bytes(s.drop_last(), acc), s.last() as u64)
    }
}

/// The address of an account created from the canonical signatory sequence
/// `sigs` while the registry's creation counter stood at `discriminator`.
pub open spec fn derived_address(sigs: Seq<u64>, discriminator: u64) -> u64 {
    fold_words(sigs, mix_step(ADDRESS_SEED, discriminator))
}

/// The digest of an action payload.
pub open spec fn payload_digest(payload: Seq<u8>) -> u64 {
    fold_bytes(payload, PAYLOAD_SEED)
}

/// The identifier of an action proposed to the account at `address` whose
/// insertion counter stands at `nonce`.
pub open spec fn derived_call_id(nonce: u64, address: u64, payload: Seq<u8>) -> CallId {
    CallId {
        nonce,
        source: address,
        payload: payload_digest(payload),
        length: payload.len() as u64,
    }
}

/// Computes `derived_address`.
pub fn compute_address(sigs: &Vec<u64>, discriminator: u64) -> (r: u64)
    ensures
        r == derived_address(sigs@, discriminator),
{
    let mut acc = mix_step_exec(ADDRESS_SEED, discriminator);
    let mut i: usize = 0;
    while i < sigs.len()
        invariant
            i <= sigs@.len(),
            acc == fold_words(sigs@.take(i as int), mix_step(ADDRESS_SEED, discriminator)),
        decreases sigs@.len() - i,
    {
        let ghost prefix = sigs@.take(i as int);
        acc = mix_step_exec(acc, sigs[i]);
        proof {
            let longer = sigs@.take(i + 1);
            assert(longer.drop_last() =~= prefix);
            assert(longer.last() == sigs@[i as int]);
        }
        i += 1;
    }
    proof {
        assert(sigs@.take(sigs@.len() as int) =~= sigs@);
    }
    acc
}

/// Computes `derived_call_id`.
pub fn compute_call_id(nonce: u64, address: u64, payload: &Vec<u8>) -> (r: CallId)
    ensures
        r == derived_call_id(nonce, address, payload@),
{
    let mut acc = PAYLOAD_SEED;
    let mut i: usize = 0;
    while i < payload.len()
        invariant
            i <= payload@.len(),
            acc == fold_bytes(payload@.take(i as int), PAYLOAD_SEED),
        decreases payload@.len() - i,
    {
        let ghost prefix = payload@.take(i as int);
        acc = mix_step_exec(acc, payload[i] as u64);
        proof {
            let longer = payload@.take(i + 1);
            assert(longer.drop_last() =~= prefix);
            assert(longer.last() == payload@[i as int]);
        }
        i += 1;
    }
    proof {
        assert(payload@.take(payload@.len() as int) =~= payload@);
    }
    CallId { nonce, source: address, payload: acc, length: payload.len() as u64 }
}

} // verus!
