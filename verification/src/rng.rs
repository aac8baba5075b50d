use rand::Rng;
use rand::SeedableRng;
use vstd::prelude::*;

verus! {

/// The keystream generator that drives sampling: ChaCha20, keyed by the
/// expanded seed. It is opaque to the verifier; its behaviour enters the
/// proofs only through the contracts below.
#[verifier::external_type_specification]
#[verifier::external_body]
pub struct ExChaCha20Rng(rand_chacha::ChaCha20Rng);

/// The abstract state a generator value holds. Two generators with equal
/// states produce equal draw sequences.
pub uninterp spec fn rng_state(r: rand_chacha::ChaCha20Rng) -> int;

/// The state of a generator freshly keyed by a 32-byte seed.
pub uninterp spec fn seeded_state(key: Seq<u8>) -> int;

/// The value an inclusive-range draw returns for a given state and bounds.
pub uninterp spec fn draw_result(state: int, lo: int, hi: int) -> int;

/// The state a generator is left in after an inclusive-range draw.
pub uninterp spec fn draw_next(state: int, lo: int, hi: int) -> int;

/// The value a boolean draw returns for a given state.
pub uninterp spec fn coin_result(state: int) -> bool;

/// The state a generator is left in after a boolean draw.
pub uninterp spec fn coin_next(state: int) -> int;

/// Relies on `<ChaCha20Rng as SeedableRng>::from_seed`: ChaCha20 is a
/// deterministic, portable stream cipher construction, so the generator a
/// 32-byte seed yields is a function of that seed alone.
#[verifier::external_body]
pub(crate) fn rng_from_seed(key: [u8; 32]) -> (r: rand_chacha::ChaCha20Rng)
    ensures
        rng_state(r) == seeded_state(key@),
{
    rand_chacha::ChaCha20Rng::from_seed(key)
}

/// Relies on `rand::Rng::gen_range` over the inclusive range `lo..=hi` at
/// width `u64`: it returns a value inside the range (and panics only on an
/// empty range, which the precondition rules out), and both the value and
/// the generator it leaves behind are functions of the generator's state
/// and the bounds alone.
#[verifier::external_body]
pub(crate) fn draw_in_range(rng: &mut rand_chacha::ChaCha20Rng, lo: usize, hi: usize) -> (r:
    usize)
    requires
        lo <= hi,
    ensures
        lo <= r <= hi,
        r as int == draw_result(rng_state(*old(rng)), lo as int, hi as int),
        rng_state(*final(rng)) == draw_next(rng_state(*old(rng)), lo as int, hi as int),
{
    rng.gen_range((lo as u64)..=(hi as u64)) as usize
}

/// Relies on `rand::Rng::gen::<bool>`: the drawn boolean and the generator
/// it leaves behind are functions of the generator's state alone.
#[verifier::external_body]
pub(crate) fn draw_coin(rng: &mut rand_chacha::ChaCha20Rng) -> (r: bool)
    ensures
        r == coin_result(rng_state(*old(rng))),
        rng_state(*final(rng)) == coin_next(rng_state(*old(rng))),
{
    rng.gen()
}

} // verus!
